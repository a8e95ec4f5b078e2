//! The FOLLOW engine.
//!
//! `Follow::new` computes, for every non-terminal, the set of terminals
//! that may immediately follow it in a sentential form, as the least fixed
//! point of the usual rules: end-of-input follows the start symbol; after
//! an occurrence of `X` in `A -> a X b` comes FIRST(b) without `eps`, and
//! FOLLOW(A) as well when `b` can vanish.  The result is characterised
//! exactly: closed under the rules and below every closed assignment.

use vstd::prelude::*;
use vstd::pervasive::VecAdditionalExecFns;
use crate::bitset::{lemma_bit_count_subset, BitSet};
use crate::first::{
    first_of_string, first_sets_wf, first_string, lemma_rhs_in_range, lemma_total_count_le,
    lemma_total_count_update, pointwise_le, sets_view, total_count, First,
};
use crate::grammar::Grammar;

verus! {

/// The follow-demands of one right-hand-side position: whatever can start
/// the rest belongs to FOLLOW of the non-terminal at the position, and
/// FOLLOW of the producing head as well when the rest can vanish.
pub open spec fn follow_pos_ok(
    g: &Grammar,
    fv: Seq<Set<int>>,
    fo: Seq<Set<int>>,
    p: int,
    i: int,
) -> bool {
    g.is_nt(g.rhs_of(p)[i] as int) ==> {
        let x = g.rhs_of(p)[i] as int;
        let fs = first_of_string(g, fv, g.rhs_of(p).skip(i + 1));
        &&& fs.remove(g.eps_idx()).subset_of(fo[x])
        &&& (fs.contains(g.eps_idx()) ==> fo[g.lhs_of(p)].subset_of(fo[x]))
    }
}

/// The assignment `fo` satisfies every FOLLOW rule under the FIRST
/// assignment `fv`.
pub open spec fn follow_closed(g: &Grammar, fv: Seq<Set<int>>, fo: Seq<Set<int>>) -> bool {
    &&& fo[g.start_nt()].contains(g.eof_idx())
    &&& forall|p: int, i: int|
        #![trigger g.rhs_of(p)[i]]
        0 <= p < g.prod_num() && 0 <= i < g.rhs_of(p).len() ==> follow_pos_ok(g, fv, fo, p, i)
}

/// `fo` is below every closed assignment.
pub open spec fn follow_justified(g: &Grammar, fv: Seq<Set<int>>, fo: Seq<Set<int>>) -> bool {
    forall|fo2: Seq<Set<int>>|
        fo2.len() == g.nt_num as int && #[trigger] follow_closed(g, fv, fo2) ==> pointwise_le(
            fo,
            fo2,
        )
}

/// `fo` is the least fixed point of the FOLLOW rules for `g` under `fv`.
pub open spec fn is_follow_for(g: &Grammar, fv: Seq<Set<int>>, fo: Seq<Set<int>>) -> bool {
    &&& fo.len() == g.nt_num
    &&& follow_closed(g, fv, fo)
    &&& follow_justified(g, fv, fo)
}

/// The FOLLOW sets of a grammar, one per non-terminal.
pub struct Follow {
    pub sets: Vec<BitSet>,
}

impl Follow {
    pub open spec fn wf(&self, g: &Grammar) -> bool {
        first_sets_wf(g, self.sets@)
    }

    /// The least fixed point of the FOLLOW rules, under the FIRST sets of
    /// `f`.
    pub fn new(g: &Grammar, f: &First) -> (r: Follow)
        requires
            g.wf(),
            f.wf(g),
        ensures
            r.wf(g),
            is_follow_for(g, sets_view(f.sets@), sets_view(r.sets@)),
    {
        let ghost fv = sets_view(f.sets@);
        let tn = g.token_count() as usize;
        let mut sets: Vec<BitSet> = Vec::new();
        while sets.len() < g.nt_num as usize
            invariant
                g.wf(),
                tn == g.token_num(),
                sets@.len() <= g.nt_num,
                forall|i: int| 0 <= i < sets@.len() ==> (#[trigger] sets@[i]).width()
                    == g.token_num() && sets@[i]@ == Set::<int>::empty(),
            decreases g.nt_num - sets.len(),
        {
            sets.push(BitSet::new(tn));
        }
        // seed: end-of-input follows the start symbol
        let start = (g.nt_num - 1) as usize;
        let ghost old_sets = sets@;
        let mut s0 = sets[start].duplicate();
        s0.set((g.nt_num + 1) as usize);
        sets.set(start, s0);
        proof {
            assert forall|fo2: Seq<Set<int>>|
                fo2.len() == g.nt_num as int && #[trigger] follow_closed(g, fv, fo2)
                implies pointwise_le(sets_view(sets@), fo2) by {
                assert forall|i: int| 0 <= i < sets@.len() implies (#[trigger] sets_view(
                    sets@,
                )[i]).subset_of(fo2[i]) by {
                    if i == start as int {
                        assert(sets@[i]@ =~= Set::<int>::empty().insert(g.eof_idx()));
                        assert(fo2[g.start_nt()].contains(g.eof_idx()));
                    } else {
                        assert(sets@[i]@ =~= Set::<int>::empty());
                    }
                }
            }
        }
        let mut changed = true;
        proof {
            lemma_total_count_le(sets@, g.token_num() as nat);
        }
        while changed
            invariant
                g.wf(),
                f.wf(g),
                fv == sets_view(f.sets@),
                tn == g.token_num(),
                first_sets_wf(g, sets@),
                follow_justified(g, fv, sets_view(sets@)),
                sets_view(sets@)[g.start_nt()].contains(g.eof_idx()),
                total_count(sets@) <= (g.nt_num as nat) * (g.token_num() as nat),
                !changed ==> follow_closed(g, fv, sets_view(sets@)),
            decreases
                    (g.nt_num as nat) * (g.token_num() as nat) + 1 - total_count(sets@),
                    (if changed { 1int } else { 0int }),
        {
            let ghost pass_start = total_count(sets@);
            changed = false;
            let mut p: usize = 0;
            while p < g.prods.len()
                invariant
                    g.wf(),
                    f.wf(g),
                    fv == sets_view(f.sets@),
                    tn == g.token_num(),
                    first_sets_wf(g, sets@),
                    follow_justified(g, fv, sets_view(sets@)),
                    sets_view(sets@)[g.start_nt()].contains(g.eof_idx()),
                    p <= g.prods@.len(),
                    total_count(sets@) >= pass_start,
                    changed ==> total_count(sets@) > pass_start,
                    !changed ==> forall|p2: int, i2: int|
                        #![trigger g.rhs_of(p2)[i2]]
                        0 <= p2 < p && 0 <= i2 < g.rhs_of(p2).len() ==> follow_pos_ok(
                            g,
                            fv,
                            sets_view(sets@),
                            p2,
                            i2,
                        ),
                decreases g.prods@.len() - p,
            {
                let mut i: usize = 0;
                let rhs_len = g.prods[p].rhs.len();
                while i < rhs_len
                    invariant
                        g.wf(),
                        f.wf(g),
                        fv == sets_view(f.sets@),
                        tn == g.token_num(),
                        p < g.prods@.len(),
                        rhs_len == g.rhs_of(p as int).len(),
                        i <= rhs_len,
                        first_sets_wf(g, sets@),
                        follow_justified(g, fv, sets_view(sets@)),
                        sets_view(sets@)[g.start_nt()].contains(g.eof_idx()),
                        total_count(sets@) >= pass_start,
                        changed ==> total_count(sets@) > pass_start,
                        !changed ==> forall|p2: int, i2: int|
                            #![trigger g.rhs_of(p2)[i2]]
                            0 <= p2 < p && 0 <= i2 < g.rhs_of(p2).len() ==> follow_pos_ok(
                                g,
                                fv,
                                sets_view(sets@),
                                p2,
                                i2,
                            ),
                        !changed ==> forall|i2: int| 0 <= i2 < i ==> follow_pos_ok(
                            g,
                            fv,
                            sets_view(sets@),
                            p as int,
                            #[trigger] (i2 + 0),
                        ),
                    decreases rhs_len - i,
                {
                    let x = g.prods[p].rhs[i];
                    proof {
                        assert(g.rhs_of(p as int)[i as int] == x);
                        lemma_rhs_in_range(g, p as int);
                        assert forall|jj: int|
                            0 <= jj < g.prods@[p as int].rhs@.len() implies g.is_nt(
                            #[trigger] g.prods@[p as int].rhs@[jj] as int,
                        ) || g.is_term(g.prods@[p as int].rhs@[jj] as int) by {
                            assert(g.prods@[p as int].rhs@[jj] == g.rhs_of(p as int)[jj]);
                        }
                    }
                    if x < g.nt_num {
                        let fs = first_string(g, &f.sets, &g.prods[p].rhs, i + 1);
                        let ghost fsv = fs@;
                        let mut fs2 = fs.duplicate();
                        fs2.clear(g.nt_num as usize);
                        let lhs = g.prods[p].lhs as usize;
                        proof {
                            assert(g.lhs_of(p as int) == lhs as int);
                            assert(g.is_nt(lhs as int));
                        }
                        // union in FIRST of the rest, without eps
                        let ghost before1 = sets@;
                        let mut tx = sets[x as usize].duplicate();
                        let ch1 = tx.or(&fs2);
                        proof {
                            lemma_bit_count_subset(&before1[x as int], &tx);
                            if !ch1 {
                                lemma_bit_count_subset(&tx, &before1[x as int]);
                            }
                        }
                        sets.set(x as usize, tx);
                        proof {
                            assert(sets@ =~= before1.update(x as int, sets@[x as int]));
                            lemma_total_count_update(before1, x as int, sets@[x as int]);
                            let oldv = sets_view(before1);
                            let newv = sets_view(sets@);
                            assert(newv =~= oldv.update(
                                x as int,
                                oldv[x as int].union(fsv.remove(g.eps_idx())),
                            ));
                            assert forall|fo2: Seq<Set<int>>|
                                fo2.len() == g.nt_num as int && #[trigger] follow_closed(
                                    g,
                                    fv,
                                    fo2,
                                ) implies pointwise_le(newv, fo2) by {
                                assert(pointwise_le(oldv, fo2));
                                assert(follow_pos_ok(g, fv, fo2, p as int, i as int));
                                assert(fsv.remove(g.eps_idx()).subset_of(fo2[x as int]));
                                assert forall|ii: int| 0 <= ii < newv.len() implies (
                                #[trigger] newv[ii]).subset_of(fo2[ii]) by {
                                    if ii != x as int {
                                        assert(newv[ii] == oldv[ii]);
                                    }
                                }
                            }
                        }
                        if ch1 {
                            changed = true;
                        }
                        // when the rest can vanish, FOLLOW of the head
                        // flows in as well
                        let nullable = fs.test(g.nt_num as usize);
                        if nullable {
                            let src = sets[lhs].duplicate();
                            let ghost before2 = sets@;
                            let mut tx2 = sets[x as usize].duplicate();
                            let ch2 = tx2.or(&src);
                            proof {
                                lemma_bit_count_subset(&before2[x as int], &tx2);
                                if !ch2 {
                                    lemma_bit_count_subset(&tx2, &before2[x as int]);
                                }
                            }
                            sets.set(x as usize, tx2);
                            proof {
                                assert(sets@ =~= before2.update(x as int, sets@[x as int]));
                                lemma_total_count_update(before2, x as int, sets@[x as int]);
                                let oldv = sets_view(before2);
                                let newv = sets_view(sets@);
                                assert(newv =~= oldv.update(
                                    x as int,
                                    oldv[x as int].union(oldv[lhs as int]),
                                ));
                                assert forall|fo2: Seq<Set<int>>|
                                    fo2.len() == g.nt_num as int && #[trigger] follow_closed(
                                        g,
                                        fv,
                                        fo2,
                                    ) implies pointwise_le(newv, fo2) by {
                                    assert(pointwise_le(oldv, fo2));
                                    assert(follow_pos_ok(g, fv, fo2, p as int, i as int));
                                    assert(fo2[lhs as int].subset_of(fo2[x as int]));
                                    assert(oldv[lhs as int].subset_of(fo2[lhs as int]));
                                    assert forall|ii: int| 0 <= ii < newv.len() implies (
                                    #[trigger] newv[ii]).subset_of(fo2[ii]) by {
                                        if ii != x as int {
                                            assert(newv[ii] == oldv[ii]);
                                        }
                                    }
                                }
                            }
                            if ch2 {
                                changed = true;
                            }
                        }
                        proof {
                            if !changed {
                                assert(follow_pos_ok(
                                    g,
                                    fv,
                                    sets_view(sets@),
                                    p as int,
                                    i as int,
                                )) by {
                                    assert(fsv.remove(g.eps_idx()).subset_of(
                                        sets_view(sets@)[x as int],
                                    ));
                                }
                            }
                        }
                    } else {
                        proof {
                            assert(!g.is_nt(g.rhs_of(p as int)[i as int] as int));
                        }
                    }
                    proof {
                        if !changed {
                            assert forall|i2: int| 0 <= i2 < i + 1 implies follow_pos_ok(
                                g,
                                fv,
                                sets_view(sets@),
                                p as int,
                                #[trigger] (i2 + 0),
                            ) by {}
                        }
                    }
                    i += 1;
                }
                proof {
                    if !changed {
                        assert forall|p2: int, i2: int|
                            #![trigger g.rhs_of(p2)[i2]]
                            0 <= p2 < p + 1 && 0 <= i2 < g.rhs_of(p2).len()
                            implies follow_pos_ok(g, fv, sets_view(sets@), p2, i2) by {
                            if p2 == p as int {
                                assert(follow_pos_ok(
                                    g,
                                    fv,
                                    sets_view(sets@),
                                    p as int,
                                    #[trigger] (i2 + 0),
                                ));
                            }
                        }
                    }
                }
                p += 1;
            }
            proof {
                lemma_total_count_le(sets@, g.token_num() as nat);
            }
        }
        Follow { sets }
    }
}

} // verus!
