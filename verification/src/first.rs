//! The FIRST engine.
//!
//! `First::new` computes, for every non-terminal, the set of terminals that
//! can begin one of its derivations (with `eps` marking nullability), as the
//! least fixed point of the usual propagation rules.  The result is
//! characterised exactly: it is closed under the rules, and it is below any
//! other closed assignment.  `first_of_string` is the specification-level
//! FIRST of a symbol string; `first_with_fallback` is the variant consumed
//! by the LR(1) closure, which replaces `eps` by a fallback lookahead set.

use vstd::prelude::*;
use vstd::pervasive::VecAdditionalExecFns;
use crate::bitset::{bit_count, lemma_bit_count_le, lemma_bit_count_subset, BitSet};
use crate::grammar::Grammar;

verus! {

/// Total number of bits on across a sequence of bit sets; the termination
/// measure of the fixed-point loops.
pub open spec fn total_count(s: Seq<BitSet>) -> nat
    decreases s.len(),
{
    if s.len() == 0 {
        0
    } else {
        total_count(s.drop_last()) + bit_count(&s.last())
    }
}

pub proof fn lemma_total_count_le(s: Seq<BitSet>, w: nat)
    requires
        forall|i: int| 0 <= i < s.len() ==> (#[trigger] s[i]).width() == w,
    ensures
        total_count(s) <= s.len() * w,
    decreases s.len(),
{
    if s.len() == 0 {
    } else {
        lemma_total_count_le(s.drop_last(), w);
        lemma_bit_count_le(&s.last());
        assert(s.len() * w == (s.len() - 1) * w + w) by (nonlinear_arith);
    }
}

pub proof fn lemma_total_count_update(s: Seq<BitSet>, i: int, b: BitSet)
    requires
        0 <= i < s.len(),
    ensures
        total_count(s.update(i, b)) + bit_count(&s[i]) == total_count(s) + bit_count(&b),
    decreases s.len(),
{
    let n = s.len() - 1;
    if i == n {
        assert(s.update(i, b).drop_last() =~= s.drop_last());
        assert(s.update(i, b).last() == b);
    } else {
        assert(s.update(i, b).drop_last() =~= s.drop_last().update(i, b));
        assert(s.update(i, b).last() == s.last());
        assert(s.drop_last()[i] == s[i]);
        lemma_total_count_update(s.drop_last(), i, b);
    }
}

/// The mathematical views of a sequence of bit sets.
pub open spec fn sets_view(s: Seq<BitSet>) -> Seq<Set<int>> {
    s.map_values(|b: BitSet| b@)
}

/// Well-formed vector of FIRST sets: one per non-terminal, each as wide as
/// the token universe.
pub open spec fn first_sets_wf(g: &Grammar, f: Seq<BitSet>) -> bool {
    &&& f.len() == g.nt_num
    &&& forall|i: int| 0 <= i < f.len() ==> (#[trigger] f[i]).width() == g.token_num()
}

/// FIRST of the symbol string `beta` under the assignment `f` of FIRST sets
/// to non-terminals: the first symbol decides if it is a terminal; a
/// nullable non-terminal passes the computation on to the rest; `eps` is in
/// the result exactly when every symbol of `beta` is a nullable
/// non-terminal.
pub open spec fn first_of_string(g: &Grammar, f: Seq<Set<int>>, beta: Seq<u32>) -> Set<int>
    decreases beta.len(),
{
    if beta.len() == 0 {
        set![g.eps_idx()]
    } else {
        let x = beta[0] as int;
        if g.is_term(x) {
            set![x]
        } else {
            let fx = f[x].remove(g.eps_idx());
            if f[x].contains(g.eps_idx()) {
                fx.union(first_of_string(g, f, beta.skip(1)))
            } else {
                fx
            }
        }
    }
}

/// FIRST of `beta` with the fallback lookahead `a`: if `beta` can derive
/// the empty string, `eps` is replaced by `a`.
pub open spec fn first_with_fallback(
    g: &Grammar,
    f: Seq<Set<int>>,
    beta: Seq<u32>,
    a: Set<int>,
) -> Set<int> {
    let fs = first_of_string(g, f, beta);
    if fs.contains(g.eps_idx()) {
        fs.remove(g.eps_idx()).union(a)
    } else {
        fs
    }
}

/// The assignment `f` satisfies every propagation rule.
pub open spec fn first_closed(g: &Grammar, f: Seq<Set<int>>) -> bool {
    forall|p: int|
        0 <= p < g.prod_num() ==> first_of_string(g, f, #[trigger] g.rhs_of(p)).subset_of(
            f[g.lhs_of(p)],
        )
}

/// Pointwise inclusion of two assignments.
pub open spec fn pointwise_le(a: Seq<Set<int>>, b: Seq<Set<int>>) -> bool {
    &&& a.len() == b.len()
    &&& forall|i: int| 0 <= i < a.len() ==> (#[trigger] a[i]).subset_of(b[i])
}

/// `f` is below every closed assignment: every member of every set is
/// forced by the rules.
pub open spec fn first_justified(g: &Grammar, f: Seq<Set<int>>) -> bool {
    forall|f2: Seq<Set<int>>|
        f2.len() == g.nt_num as int && #[trigger] first_closed(g, f2) ==> pointwise_le(f, f2)
}

/// `f` is the least fixed point of the FIRST rules for `g`.
pub open spec fn is_first_for(g: &Grammar, f: Seq<Set<int>>) -> bool {
    &&& f.len() == g.nt_num
    &&& first_closed(g, f)
    &&& first_justified(g, f)
}

/// `first_of_string` only depends on the symbol layout of the grammar, not
/// on its productions.
pub proof fn lemma_first_of_string_same_layout(
    g1: &Grammar,
    g2: &Grammar,
    f: Seq<Set<int>>,
    beta: Seq<u32>,
)
    requires
        g1.nt_num == g2.nt_num,
        g1.term_num == g2.term_num,
    ensures
        first_of_string(g1, f, beta) == first_of_string(g2, f, beta),
    decreases beta.len(),
{
    if beta.len() > 0 {
        lemma_first_of_string_same_layout(g1, g2, f, beta.skip(1));
    }
}

/// `first_of_string` is monotone in the assignment.
pub proof fn lemma_first_of_string_monotone(
    g: &Grammar,
    f1: Seq<Set<int>>,
    f2: Seq<Set<int>>,
    beta: Seq<u32>,
)
    requires
        f1.len() == g.nt_num,
        f2.len() == g.nt_num,
        pointwise_le(f1, f2),
        forall|j: int| 0 <= j < beta.len() ==> g.is_nt(#[trigger] beta[j] as int) || g.is_term(
            beta[j] as int,
        ),
    ensures
        first_of_string(g, f1, beta).subset_of(first_of_string(g, f2, beta)),
    decreases beta.len(),
{
    if beta.len() == 0 {
    } else {
        let x = beta[0] as int;
        if g.is_term(x) {
        } else {
            assert(g.is_nt(x));
            assert(forall|j: int|
                0 <= j < beta.skip(1).len() ==> g.is_nt(#[trigger] beta.skip(1)[j] as int)
                    || g.is_term(beta.skip(1)[j] as int));
            lemma_first_of_string_monotone(g, f1, f2, beta.skip(1));
            assert(f1[x].subset_of(f2[x]));
            assert forall|e: int| first_of_string(g, f1, beta).contains(e)
                implies first_of_string(g, f2, beta).contains(e) by {
                if f1[x].contains(g.eps_idx()) {
                    assert(f2[x].contains(g.eps_idx()));
                }
            }
        }
    }
}

/// The fallback variant is monotone in the fallback set.
pub proof fn lemma_first_fallback_monotone(
    g: &Grammar,
    f: Seq<Set<int>>,
    beta: Seq<u32>,
    a: Set<int>,
    b: Set<int>,
)
    requires
        a.subset_of(b),
    ensures
        first_with_fallback(g, f, beta, a).subset_of(first_with_fallback(g, f, beta, b)),
{
    assert forall|e: int| first_with_fallback(g, f, beta, a).contains(e)
        implies first_with_fallback(g, f, beta, b).contains(e) by {}
}

/// When `beta` is empty, the fallback is returned exactly.
pub proof fn lemma_first_fallback_empty(g: &Grammar, f: Seq<Set<int>>, a: Set<int>)
    ensures
        first_with_fallback(g, f, Seq::<u32>::empty(), a) == a,
{
    assert(first_of_string(g, f, Seq::<u32>::empty()) == set![g.eps_idx()]);
    assert(first_with_fallback(g, f, Seq::<u32>::empty(), a) =~= a);
}

/// All symbols of a production's right-hand side are in range.
pub proof fn lemma_rhs_in_range(g: &Grammar, p: int)
    requires
        g.wf(),
        0 <= p < g.prod_num(),
    ensures
        forall|j: int| 0 <= j < g.rhs_of(p).len() ==> g.is_nt(#[trigger] g.rhs_of(p)[j] as int)
            || g.is_term(g.rhs_of(p)[j] as int),
{
    assert forall|j: int| 0 <= j < g.rhs_of(p).len() implies g.is_nt(
        #[trigger] g.rhs_of(p)[j] as int,
    ) || g.is_term(g.rhs_of(p)[j] as int) by {
        let s = g.rhs_of(p)[j] as int;
        assert(0 <= s < g.token_num());
    }
}

/// Executable FIRST of the suffix `rhs[from..]` under the current sets.
pub fn first_string(g: &Grammar, f: &Vec<BitSet>, rhs: &Vec<u32>, from: usize) -> (r: BitSet)
    requires
        g.wf(),
        first_sets_wf(g, f@),
        from <= rhs@.len(),
        forall|j: int| 0 <= j < rhs@.len() ==> g.is_nt(#[trigger] rhs@[j] as int) || g.is_term(
            rhs@[j] as int,
        ),
    ensures
        r.width() == g.token_num(),
        r@ == first_of_string(g, sets_view(f@), rhs@.skip(from as int)),
{
    let ghost fv = sets_view(f@);
    let tn = g.token_count();
    let mut acc = BitSet::new(tn as usize);
    let mut i: usize = from;
    proof {
        assert(acc@.union(first_of_string(g, fv, rhs@.skip(from as int))) =~= first_of_string(
            g,
            fv,
            rhs@.skip(from as int),
        ));
    }
    while i < rhs.len()
        invariant
            g.wf(),
            first_sets_wf(g, f@),
            fv == sets_view(f@),
            from <= i <= rhs@.len(),
            forall|j: int| 0 <= j < rhs@.len() ==> g.is_nt(#[trigger] rhs@[j] as int)
                || g.is_term(rhs@[j] as int),
            acc.width() == g.token_num(),
            !acc@.contains(g.eps_idx()),
            first_of_string(g, fv, rhs@.skip(from as int)) == acc@.union(
                first_of_string(g, fv, rhs@.skip(i as int)),
            ),
        decreases rhs@.len() - i,
    {
        let x = rhs[i];
        proof {
            assert(rhs@.skip(i as int)[0] == rhs@[i as int]);
            assert(rhs@.skip(i as int).skip(1) =~= rhs@.skip(i + 1));
        }
        if x >= g.nt_num {
            // terminal: it begins every derivation of the suffix
            acc.set(x as usize);
            proof {
                assert(first_of_string(g, fv, rhs@.skip(i as int)) =~= set![x as int]);
                assert(acc@ =~= first_of_string(g, fv, rhs@.skip(from as int)));
            }
            return acc;
        }
        // non-terminal: union its FIRST set without eps, stop if not nullable
        let fx = &f[x as usize];
        proof {
            assert(fv[x as int] == fx@);
        }
        let mut fx2 = fx.duplicate();
        fx2.clear(g.nt_num as usize);
        acc.or(&fx2);
        let nullable = fx.test(g.nt_num as usize);
        if !nullable {
            proof {
                assert(first_of_string(g, fv, rhs@.skip(i as int)) == fv[x as int].remove(
                    g.eps_idx(),
                ));
                assert(acc@ =~= first_of_string(g, fv, rhs@.skip(from as int)));
            }
            return acc;
        }
        proof {
            assert(first_of_string(g, fv, rhs@.skip(i as int)) == fv[x as int].remove(
                g.eps_idx(),
            ).union(first_of_string(g, fv, rhs@.skip(i + 1))));
            assert(first_of_string(g, fv, rhs@.skip(from as int)) =~= acc@.union(
                first_of_string(g, fv, rhs@.skip(i + 1)),
            ));
        }
        i += 1;
    }
    // the whole suffix is nullable
    proof {
        assert(rhs@.skip(i as int) =~= Seq::<u32>::empty());
        assert(first_of_string(g, fv, rhs@.skip(i as int)) == set![g.eps_idx()]);
    }
    acc.set(g.nt_num as usize);
    proof {
        assert(acc@ =~= first_of_string(g, fv, rhs@.skip(from as int)));
    }
    acc
}

/// Executable FIRST of a suffix with a fallback lookahead, as consumed by
/// the LR(1) closure.
pub fn first_string_fallback(
    g: &Grammar,
    f: &Vec<BitSet>,
    rhs: &Vec<u32>,
    from: usize,
    a: &BitSet,
) -> (r: BitSet)
    requires
        g.wf(),
        first_sets_wf(g, f@),
        from <= rhs@.len(),
        a.width() == g.token_num(),
        forall|j: int| 0 <= j < rhs@.len() ==> g.is_nt(#[trigger] rhs@[j] as int) || g.is_term(
            rhs@[j] as int,
        ),
    ensures
        r.width() == g.token_num(),
        r@ == first_with_fallback(g, sets_view(f@), rhs@.skip(from as int), a@),
{
    let mut b = first_string(g, f, rhs, from);
    if b.test(g.nt_num as usize) {
        b.clear(g.nt_num as usize);
        b.or(a);
    }
    b
}

/// The FIRST sets of a grammar, one per non-terminal.
pub struct First {
    pub sets: Vec<BitSet>,
}

impl First {
    pub open spec fn wf(&self, g: &Grammar) -> bool {
        first_sets_wf(g, self.sets@)
    }

    /// The least fixed point of the FIRST rules.
    pub fn new(g: &Grammar) -> (r: First)
        requires
            g.wf(),
        ensures
            r.wf(g),
            is_first_for(g, sets_view(r.sets@)),
    {
        let tn = g.token_count() as usize;
        let mut sets: Vec<BitSet> = Vec::new();
        while sets.len() < g.nt_num as usize
            invariant
                g.wf(),
                tn == g.token_num(),
                sets@.len() <= g.nt_num,
                forall|i: int| 0 <= i < sets@.len() ==> (#[trigger] sets@[i]).width()
                    == g.token_num() && sets@[i]@ == Set::<int>::empty(),
            decreases g.nt_num - sets.len(),
        {
            sets.push(BitSet::new(tn));
        }
        proof {
            assert forall|f2: Seq<Set<int>>|
                f2.len() == g.nt_num as int && #[trigger] first_closed(g, f2) implies pointwise_le(
                sets_view(sets@),
                f2,
            ) by {
                assert(forall|i: int| 0 <= i < sets@.len() ==> (#[trigger] sets_view(sets@)[i])
                    =~= Set::<int>::empty());
            }
        }
        proof {
            lemma_total_count_le(sets@, g.token_num() as nat);
        }
        let mut changed = true;
        while changed
            invariant
                g.wf(),
                tn == g.token_num(),
                first_sets_wf(g, sets@),
                first_justified(g, sets_view(sets@)),
                total_count(sets@) <= (g.nt_num as nat) * (g.token_num() as nat),
                !changed ==> first_closed(g, sets_view(sets@)),
            decreases
                    (g.nt_num as nat) * (g.token_num() as nat) + 1 - total_count(sets@),
                    (if changed { 1int } else { 0int }),
        {
            let ghost pass_start = total_count(sets@);
            changed = false;
            let mut p: usize = 0;
            while p < g.prods.len()
                invariant
                    g.wf(),
                    tn == g.token_num(),
                    first_sets_wf(g, sets@),
                    first_justified(g, sets_view(sets@)),
                    p <= g.prods@.len(),
                    total_count(sets@) >= pass_start,
                    changed ==> total_count(sets@) > pass_start,
                    !changed ==> forall|q: int|
                        0 <= q < p ==> first_of_string(
                            g,
                            sets_view(sets@),
                            #[trigger] g.rhs_of(q),
                        ).subset_of(sets_view(sets@)[g.lhs_of(q)]),
                decreases g.prods@.len() - p,
            {
                let ghost oldv = sets_view(sets@);
                let prod = &g.prods[p];
                proof {
                    lemma_rhs_in_range(g, p as int);
                    assert(g.lhs_of(p as int) == prod.lhs as int);
                    assert(g.is_nt(prod.lhs as int));
                    assert forall|j: int|
                        0 <= j < prod.rhs@.len() implies g.is_nt(
                        #[trigger] prod.rhs@[j] as int,
                    ) || g.is_term(prod.rhs@[j] as int) by {
                        assert(prod.rhs@[j] == g.rhs_of(p as int)[j]);
                    }
                }
                let fs = first_string(g, &sets, &prod.rhs, 0);
                proof {
                    assert(prod.rhs@.skip(0) =~= g.rhs_of(p as int));
                }
                let lhs = prod.lhs as usize;
                let ghost old_sets = sets@;
                let mut target = sets[lhs].duplicate();
                let ch = target.or(&fs);
                proof {
                    lemma_bit_count_subset(&old_sets[lhs as int], &target);
                    if !ch {
                        lemma_bit_count_subset(&target, &old_sets[lhs as int]);
                    }
                }
                sets.set(lhs, target);
                proof {
                    assert(sets@ =~= old_sets.update(lhs as int, target));
                    lemma_total_count_update(old_sets, lhs as int, target);
                }
                proof {
                    let newv = sets_view(sets@);
                    assert(newv =~= oldv.update(lhs as int, oldv[lhs as int].union(fs@)));
                    // justification is preserved: everything added is forced
                    assert forall|f2: Seq<Set<int>>|
                        f2.len() == g.nt_num as int && #[trigger] first_closed(g, f2)
                        implies pointwise_le(newv, f2) by {
                        assert(pointwise_le(oldv, f2));
                        lemma_first_of_string_monotone(g, oldv, f2, g.rhs_of(p as int));
                        assert(first_of_string(g, f2, g.rhs_of(p as int)).subset_of(
                            f2[g.lhs_of(p as int)],
                        ));
                        assert(oldv[lhs as int].union(fs@).subset_of(f2[lhs as int]));
                        assert forall|i: int| 0 <= i < newv.len() implies (
                        #[trigger] newv[i]).subset_of(f2[i]) by {
                            if i != lhs as int {
                                assert(newv[i] == oldv[i]);
                            }
                        }
                    }
                    if !ch {
                        // nothing changed: the views are identical
                        assert(newv[lhs as int] =~= oldv[lhs as int]);
                        assert(newv =~= oldv);
                        assert(fs@.subset_of(newv[lhs as int]));
                    }
                }
                if ch {
                    changed = true;
                }
                p += 1;
            }
            proof {
                lemma_total_count_le(sets@, g.token_num() as nat);
            }
        }
        First { sets }
    }
}

/// Adding productions to a grammar (keeping the symbol layout and the
/// existing productions) cannot shrink any FIRST set.
pub proof fn lemma_first_monotone_in_grammar(
    g1: &Grammar,
    g2: &Grammar,
    f1: Seq<Set<int>>,
    f2: Seq<Set<int>>,
)
    requires
        g1.wf(),
        g2.wf(),
        g2.nt_num == g1.nt_num,
        g2.term_num == g1.term_num,
        g1.prod_num() <= g2.prod_num(),
        forall|p: int| 0 <= p < g1.prod_num() ==> #[trigger] g2.rhs_of(p) == g1.rhs_of(p)
            && g2.lhs_of(p) == g1.lhs_of(p),
        is_first_for(g1, f1),
        is_first_for(g2, f2),
    ensures
        pointwise_le(f1, f2),
{
    // f2 is closed for g1 as well: every rule of g1 is a rule of g2
    assert(first_closed(g1, f2)) by {
        assert forall|p: int| 0 <= p < g1.prod_num() implies first_of_string(
            g1,
            f2,
            #[trigger] g1.rhs_of(p),
        ).subset_of(f2[g1.lhs_of(p)]) by {
            lemma_first_of_string_same_layout(g1, g2, f2, g1.rhs_of(p));
            assert(first_of_string(g2, f2, g2.rhs_of(p)).subset_of(f2[g2.lhs_of(p)]));
        }
    }
    assert(pointwise_le(f1, f2));
}

} // verus!
