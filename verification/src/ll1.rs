//! The LL(1) table builder.
//!
//! For each production `A -> a`, PREDICT(A -> a) is FIRST(a) without
//! `eps`, plus FOLLOW(A) when `a` can vanish.  The table maps each
//! non-terminal and terminal to the productions predicting it, in
//! ascending production order, so the earliest-declared production stands
//! first and downstream code has a deterministic choice.  A cell with two
//! or more entries is an LL(1) conflict; for a conflict-free table the
//! PREDICT sets of the alternatives of each non-terminal are pairwise
//! disjoint.

use vstd::prelude::*;
use crate::first::{first_string_fallback, first_with_fallback, sets_view, First};
use crate::follow::Follow;
use crate::grammar::Grammar;

verus! {

/// PREDICT of production `q`: FIRST of its right-hand side, with `eps`
/// replaced by FOLLOW of its head.
pub open spec fn predict_of(g: &Grammar, fv: Seq<Set<int>>, fov: Seq<Set<int>>, q: int) -> Set<
    int,
> {
    first_with_fallback(g, fv, g.rhs_of(q), fov[g.lhs_of(q)])
}

/// The cell for non-terminal `a` and token `s` holds exactly the
/// productions of `a` predicting `s`.
pub open spec fn cell_iff(
    g: &Grammar,
    fv: Seq<Set<int>>,
    fov: Seq<Set<int>>,
    cell: Seq<u32>,
    a: int,
    s: int,
) -> bool {
    forall|q: int| 0 <= q < g.prod_num() ==> (#[trigger] cell.contains(q as u32) <==> (
    g.lhs_of(q) == a && predict_of(g, fv, fov, q).contains(s)))
}

/// Strictly ascending production indices: no duplicates, earliest first.
pub open spec fn ascending(cell: Seq<u32>) -> bool {
    forall|i: int, j: int| 0 <= i < j < cell.len() ==> cell[i] < cell[j]
}

/// Every entry of the cell is a real production index.
pub open spec fn cell_in_range(g: &Grammar, cell: Seq<u32>) -> bool {
    forall|i: int| 0 <= i < cell.len() ==> (#[trigger] cell[i] as int) < g.prod_num()
}

/// The LL(1) context: the dispatch table (rows by non-terminal, columns
/// by token identifier) and the FOLLOW sets it was built from.
pub struct LLCtx {
    pub table: Vec<Vec<Vec<u32>>>,
    pub follow: Follow,
}

/// The whole table is exact for the grammar under the given FIRST and
/// FOLLOW assignments.
pub open spec fn table_exact(
    g: &Grammar,
    fv: Seq<Set<int>>,
    fov: Seq<Set<int>>,
    t: Seq<Vec<Vec<u32>>>,
) -> bool {
    &&& t.len() == g.nt_num
    &&& forall|a: int| 0 <= a < t.len() ==> (#[trigger] t[a])@.len() == g.token_num()
    &&& forall|a: int, s: int|
        #![trigger t[a]@[s]]
        0 <= a < t.len() && 0 <= s < g.token_num() ==> ascending(t[a]@[s]@) && cell_in_range(
            g,
            t[a]@[s]@,
        ) && cell_iff(g, fv, fov, t[a]@[s]@, a, s)
}

impl LLCtx {
    /// Build the LL(1) dispatch table from the FIRST and FOLLOW sets.
    pub fn new(g: &Grammar, f: &First, fo: Follow) -> (r: LLCtx)
        requires
            g.wf(),
            f.wf(g),
            fo.wf(g),
        ensures
            r.follow == fo,
            table_exact(g, sets_view(f.sets@), sets_view(fo.sets@), r.table@),
    {
        let ghost fv = sets_view(f.sets@);
        let ghost fov = sets_view(fo.sets@);
        let tn = g.token_count();
        let mut table: Vec<Vec<Vec<u32>>> = Vec::new();
        let mut a: u32 = 0;
        while a < g.nt_num
            invariant
                g.wf(),
                f.wf(g),
                fo.wf(g),
                fv == sets_view(f.sets@),
                fov == sets_view(fo.sets@),
                tn == g.token_num(),
                a <= g.nt_num,
                table@.len() == a,
                forall|a2: int| 0 <= a2 < table@.len() ==> (#[trigger] table@[a2])@.len()
                    == g.token_num(),
                forall|a2: int, s: int|
                    #![trigger table@[a2]@[s]]
                    0 <= a2 < table@.len() && 0 <= s < g.token_num() ==> ascending(
                        table@[a2]@[s]@,
                    ) && cell_in_range(g, table@[a2]@[s]@) && cell_iff(
                        g,
                        fv,
                        fov,
                        table@[a2]@[s]@,
                        a2,
                        s,
                    ),
            decreases g.nt_num - a,
        {
            let mut row: Vec<Vec<u32>> = Vec::new();
            let mut s: u32 = 0;
            while s < tn
                invariant
                    g.wf(),
                    f.wf(g),
                    fo.wf(g),
                    fv == sets_view(f.sets@),
                    fov == sets_view(fo.sets@),
                    tn == g.token_num(),
                    a < g.nt_num,
                    s <= tn,
                    row@.len() == s,
                    forall|s2: int|
                        #![trigger row@[s2]]
                        0 <= s2 < row@.len() ==> ascending(row@[s2]@) && cell_in_range(
                            g,
                            row@[s2]@,
                        ) && cell_iff(g, fv, fov, row@[s2]@, a as int, s2),
                decreases tn - s,
            {
                let mut cell: Vec<u32> = Vec::new();
                let mut q: usize = 0;
                while q < g.prods.len()
                    invariant
                        g.wf(),
                        f.wf(g),
                        fo.wf(g),
                        fv == sets_view(f.sets@),
                        fov == sets_view(fo.sets@),
                        tn == g.token_num(),
                        a < g.nt_num,
                        s < tn,
                        q <= g.prods@.len(),
                        forall|i: int, j: int| 0 <= i < j < cell@.len() ==> cell@[i] < cell@[j],
                        forall|i: int| 0 <= i < cell@.len() ==> (#[trigger] cell@[i] as int) < q,
                        forall|q2: int|
                            0 <= q2 < q ==> (#[trigger] cell@.contains(q2 as u32) <==> (
                            g.lhs_of(q2) == a as int && predict_of(g, fv, fov, q2).contains(
                                s as int,
                            ))),
                    decreases g.prods@.len() - q,
                {
                    let lhs = g.prods[q].lhs;
                    proof {
                        assert(g.lhs_of(q as int) == lhs as int);
                        crate::first::lemma_rhs_in_range(g, q as int);
                        assert forall|jj: int|
                            0 <= jj < g.prods@[q as int].rhs@.len() implies g.is_nt(
                            #[trigger] g.prods@[q as int].rhs@[jj] as int,
                        ) || g.is_term(g.prods@[q as int].rhs@[jj] as int) by {
                            assert(g.prods@[q as int].rhs@[jj] == g.rhs_of(q as int)[jj]);
                        }
                    }
                    let ghost oldc = cell@;
                    let mut added = false;
                    if lhs == a {
                        let pred = first_string_fallback(
                            g,
                            &f.sets,
                            &g.prods[q].rhs,
                            0,
                            &fo.sets[lhs as usize],
                        );
                        proof {
                            assert(g.prods@[q as int].rhs@.skip(0) =~= g.rhs_of(q as int));
                            assert(pred@ == predict_of(g, fv, fov, q as int));
                        }
                        if pred.test(s as usize) {
                            cell.push(q as u32);
                            added = true;
                        }
                    }
                    proof {
                        assert forall|q2: int| 0 <= q2 < q + 1 implies (
                        #[trigger] cell@.contains(q2 as u32) <==> (g.lhs_of(q2) == a as int
                            && predict_of(g, fv, fov, q2).contains(s as int))) by {
                            if added {
                                assert(cell@ == oldc.push(q as u32));
                                if q2 == q as int {
                                    assert(cell@[cell@.len() - 1] == q as u32);
                                    assert(cell@.contains(q2 as u32));
                                } else {
                                    assert(oldc.contains(q2 as u32) == cell@.contains(
                                        q2 as u32,
                                    )) by {
                                        if oldc.contains(q2 as u32) {
                                            let w = choose|w: int|
                                                0 <= w < oldc.len() && oldc[w] == q2 as u32;
                                            assert(cell@[w] == q2 as u32);
                                        }
                                        if cell@.contains(q2 as u32) {
                                            let w = choose|w: int|
                                                0 <= w < cell@.len() && cell@[w] == q2 as u32;
                                            assert(w < oldc.len());
                                            assert(oldc[w] == q2 as u32);
                                        }
                                    }
                                }
                            } else {
                                if q2 == q as int {
                                    assert(!cell@.contains(q2 as u32)) by {
                                        if cell@.contains(q2 as u32) {
                                            let w = choose|w: int|
                                                0 <= w < cell@.len() && cell@[w] == q2 as u32;
                                        }
                                    }
                                }
                            }
                        }
                    }
                    q += 1;
                }
                row.push(cell);
                s += 1;
            }
            table.push(row);
            a += 1;
        }
        LLCtx { table, follow: fo }
    }
}

/// PREDICT soundness: in a table declared conflict-free (every cell holds
/// at most one production), the PREDICT sets of two distinct alternatives
/// of the same non-terminal never share a token.
pub proof fn lemma_predict_disjoint(
    g: &Grammar,
    fv: Seq<Set<int>>,
    fov: Seq<Set<int>>,
    t: Seq<Vec<Vec<u32>>>,
)
    requires
        g.wf(),
        table_exact(g, fv, fov, t),
        forall|a: int, s: int|
            #![trigger t[a]@[s]]
            0 <= a < t.len() && 0 <= s < g.token_num() ==> t[a]@[s]@.len() <= 1,
    ensures
        forall|q1: int, q2: int, s: int|
            #![trigger predict_of(g, fv, fov, q1).contains(s), predict_of(g, fv, fov, q2).contains(s)]
            0 <= q1 < g.prod_num() && 0 <= q2 < g.prod_num() && q1 != q2 && g.lhs_of(q1)
                == g.lhs_of(q2) && 0 <= s < g.token_num() ==> !(predict_of(
                g,
                fv,
                fov,
                q1,
            ).contains(s) && predict_of(g, fv, fov, q2).contains(s)),
{
    assert forall|q1: int, q2: int, s: int|
        #![trigger predict_of(g, fv, fov, q1).contains(s), predict_of(g, fv, fov, q2).contains(s)]
        0 <= q1 < g.prod_num() && 0 <= q2 < g.prod_num() && q1 != q2 && g.lhs_of(q1) == g.lhs_of(
            q2,
        ) && 0 <= s < g.token_num() implies !(predict_of(g, fv, fov, q1).contains(s)
        && predict_of(g, fv, fov, q2).contains(s)) by {
        if predict_of(g, fv, fov, q1).contains(s) && predict_of(g, fv, fov, q2).contains(s) {
            let a = g.lhs_of(q1);
            let cell = t[a]@[s]@;
            assert(cell_iff(g, fv, fov, cell, a, s));
            assert(cell.contains(q1 as u32));
            assert(cell.contains(q2 as u32));
            let w1 = choose|w: int| 0 <= w < cell.len() && cell[w] == q1 as u32;
            let w2 = choose|w: int| 0 <= w < cell.len() && cell[w] == q2 as u32;
            assert(w1 != w2);
            assert(cell.len() >= 2);
        }
    }
}

} // verus!
