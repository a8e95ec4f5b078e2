//! The canonical LR(1) collection.
//!
//! `work` seeds state 0 with the closure of the augmented-start kernel
//! (the start production with the dot at the front and end-of-input as
//! lookahead) and explores transitions in ascending symbol order,
//! assigning state identifiers in discovery order.  States are
//! deduplicated by full LR(1) equality of their canonically sorted item
//! vectors.  No transition is taken on `eof`: the start item accepts
//! there instead, during action-table construction.
//!
//! The construction aborts (returning nothing) if it would need more than
//! `max_states` states, mirroring the fatal "grammar too large for the
//! emission widths" failure of the pipeline.

use vstd::prelude::*;
use crate::bitset::BitSet;
use crate::first::is_first_for;
use crate::grammar::Grammar;
use crate::lr1::{
    is_closure_of, items_wf, lemma_closure_unique, lemma_index_of, shifted_map,
    sorted_keys, state_map, Lr0Item, Lr1Ctx, Lr1Item,
};

verus! {

/// The LR(1) automaton: state `i` is `states[i]` (a canonically sorted
/// item vector) and `links[i][x]` is its successor on symbol `x`, if any.
pub struct Lr1Fsm {
    pub states: Vec<Vec<Lr1Item>>,
    pub links: Vec<Vec<Option<u32>>>,
}

/// Two states hold exactly the same items with the same lookaheads.
pub open spec fn seq_equiv(a: Seq<Lr1Item>, b: Seq<Lr1Item>) -> bool {
    &&& a.len() == b.len()
    &&& forall|i: int| 0 <= i < a.len() ==> (#[trigger] a[i]).lr0 == b[i].lr0 && a[i].lookahead@
        == b[i].lookahead@
}

/// Structurally equivalent sorted states denote the same item map.
pub proof fn lemma_seq_equiv_map(a: Seq<Lr1Item>, b: Seq<Lr1Item>)
    requires
        sorted_keys(a),
        seq_equiv(a, b),
    ensures
        sorted_keys(b),
        state_map(a) == state_map(b),
{
    assert forall|i: int, j: int| #![trigger b[i], b[j]]
        0 <= i < j < b.len() implies crate::lr1::key_lt(b[i].lr0, b[j].lr0) by {
        assert(a[i].lr0 == b[i].lr0 && a[j].lr0 == b[j].lr0);
    }
    let ma = state_map(a);
    let mb = state_map(b);
    assert forall|k: Lr0Item| ma.dom().contains(k) implies mb.dom().contains(k) by {
        let i = choose|i: int| 0 <= i < a.len() && (#[trigger] a[i]).lr0 == k;
        assert(b[i].lr0 == k);
    }
    assert forall|k: Lr0Item| mb.dom().contains(k) implies ma.dom().contains(k) by {
        let i = choose|i: int| 0 <= i < b.len() && (#[trigger] b[i]).lr0 == k;
        assert(a[i].lr0 == k);
    }
    assert forall|k: Lr0Item| ma.dom().contains(k) implies ma[k] == mb[k] by {
        lemma_index_of(a, k);
        lemma_index_of(b, k);
        let i = crate::lr1::index_of(a, k);
        assert(b[i].lr0 == k);
        assert(crate::lr1::index_of(b, k) == i);
    }
    assert(ma.dom() =~= mb.dom());
    assert(ma =~= mb);
}

/// The kernel of state 0: the start production with the dot at the front
/// and end-of-input as lookahead.
pub open spec fn init_kernel_map(g: &Grammar) -> Map<Lr0Item, Set<int>> {
    Map::<Lr0Item, Set<int>>::empty().insert(
        Lr0Item { prod_id: 0, dot: 0 },
        Set::<int>::empty().insert(g.eof_idx()),
    )
}

/// Every state is a canonically sorted, well-formed, non-empty item
/// vector.
pub open spec fn states_ok(g: &Grammar, ss: Seq<Vec<Lr1Item>>) -> bool {
    forall|i: int| 0 <= i < ss.len() ==> sorted_keys((#[trigger] ss[i])@) && items_wf(g, ss[i]@)
        && ss[i]@.len() > 0
}

/// No two states are structurally equal.
pub open spec fn states_distinct(ss: Seq<Vec<Lr1Item>>) -> bool {
    forall|i: int, j: int| #![trigger ss[i], ss[j]]
        0 <= i < j < ss.len() ==> !seq_equiv(ss[i]@, ss[j]@)
}

/// The second map is the closure of the first: an opaque wrapper that
/// keeps the underlying quantifiers out of the collection build-out.
#[verifier::opaque]
pub open spec fn closure_fact(
    g: &Grammar,
    fv: Seq<Set<int>>,
    kern: Map<Lr0Item, Set<int>>,
    m: Map<Lr0Item, Set<int>>,
) -> bool {
    is_closure_of(g, fv, kern, m)
}

/// The second map is the goto of the first on `mov`.
#[verifier::opaque]
pub open spec fn goto_fact(
    g: &Grammar,
    fv: Seq<Set<int>>,
    m: Map<Lr0Item, Set<int>>,
    mov: u32,
    r: Map<Lr0Item, Set<int>>,
) -> bool {
    is_closure_of(g, fv, shifted_map(g, m, mov), r)
}

/// One transition cell is sound: a recorded successor is the goto of the
/// source state on that symbol, and an absent one means the source state
/// cannot shift it (no transition is ever taken on `eof`).
#[verifier::opaque]
pub open spec fn cell_ok(
    g: &Grammar,
    fv: Seq<Set<int>>,
    ss: Seq<Vec<Lr1Item>>,
    i: int,
    m: int,
    cell: Option<u32>,
) -> bool {
    match cell {
        Some(j) => j < ss.len() && m != g.eof_idx() && is_closure_of(
            g,
            fv,
            shifted_map(g, state_map(ss[i]@), m as u32),
            state_map(ss[j as int]@),
        ),
        None => m == g.eof_idx() || !Lr1Ctx::can_shift(g, ss[i]@, m as u32),
    }
}

/// A recorded goto-successor cell is sound.
pub proof fn lemma_cell_from_goto(
    g: &Grammar,
    fv: Seq<Set<int>>,
    ss: Seq<Vec<Lr1Item>>,
    i: int,
    m: int,
    j: int,
    rm: Map<Lr0Item, Set<int>>,
)
    requires
        0 <= i < ss.len(),
        0 <= j < ss.len(),
        j <= 0xFFFF_FFFF,
        0 <= m < g.token_num(),
        m != g.eof_idx(),
        goto_fact(g, fv, state_map(ss[i]@), m as u32, rm),
        rm == state_map(ss[j]@),
    ensures
        cell_ok(g, fv, ss, i, m, Some(j as u32)),
{
    reveal(goto_fact);
    reveal(cell_ok);
    assert((j as u32) as int == j);
}

/// An absent cell is sound when the source state cannot shift the symbol,
/// or the symbol is `eof`.
pub proof fn lemma_cell_none(
    g: &Grammar,
    fv: Seq<Set<int>>,
    ss: Seq<Vec<Lr1Item>>,
    i: int,
    m: int,
)
    requires
        0 <= i < ss.len(),
        m == g.eof_idx() || !Lr1Ctx::can_shift(g, ss[i]@, m as u32),
    ensures
        cell_ok(g, fv, ss, i, m, None::<u32>),
{
    reveal(cell_ok);
}

/// A sound cell stays sound when a new state is appended: it only speaks
/// of existing states.
pub proof fn lemma_cell_ok_push(
    g: &Grammar,
    fv: Seq<Set<int>>,
    ss: Seq<Vec<Lr1Item>>,
    v: Vec<Lr1Item>,
    i: int,
    m: int,
    cell: Option<u32>,
)
    requires
        0 <= i < ss.len(),
        cell_ok(g, fv, ss, i, m, cell),
    ensures
        cell_ok(g, fv, ss.push(v), i, m, cell),
{
    reveal(cell_ok);
    let ss2 = ss.push(v);
    assert(ss2[i] == ss[i]);
    match cell {
        Some(j) => {
            assert(ss2[j as int] == ss[j as int]);
        },
        None => {},
    }
}

/// Every recorded transition is sound.
pub open spec fn links_sound(
    g: &Grammar,
    fv: Seq<Set<int>>,
    ss: Seq<Vec<Lr1Item>>,
    ll: Seq<Vec<Option<u32>>>,
) -> bool {
    &&& ll.len() == ss.len()
    &&& forall|i: int| 0 <= i < ll.len() ==> (#[trigger] ll[i])@.len() == g.token_num()
    &&& forall|i: int, m: int|
        #![trigger ll[i]@[m]]
        0 <= i < ll.len() && 0 <= m < g.token_num() ==> cell_ok(g, fv, ss, i, m, ll[i]@[m])
}

/// A witness that every state above 0 is the target of some recorded
/// link: `par[j]` names a cell of the link table that points at `j`.
pub open spec fn reach_witness(fsm: &Lr1Fsm, par: Seq<(int, int)>) -> bool {
    &&& par.len() == fsm.states@.len()
    &&& forall|j: int| 1 <= j < par.len() ==> {
        let p = #[trigger] par[j];
        &&& 0 <= p.0 < fsm.links@.len()
        &&& 0 <= p.1 < fsm.links@[p.0]@.len()
        &&& fsm.links@[p.0]@[p.1] == Some(j as u32)
    }
}

impl Lr1Fsm {
    /// The whole automaton is well formed for the grammar, under the
    /// FIRST assignment `fv`.
    pub open spec fn ok(&self, g: &Grammar, fv: Seq<Set<int>>) -> bool {
        &&& self.states@.len() >= 1
        &&& states_ok(g, self.states@)
        &&& states_distinct(self.states@)
        &&& closure_fact(g, fv, init_kernel_map(g), state_map(self.states@[0]@))
        &&& links_sound(g, fv, self.states@, self.links@)
    }
}

/// The closure of a kernel, exposing only the structural facts that the
/// collection build-out needs.
fn closure_weak(ctx: &Lr1Ctx, kernel: Vec<Lr1Item>, g: &Grammar) -> (r: Vec<Lr1Item>)
    requires
        g.wf(),
        ctx.wf(g),
        sorted_keys(kernel@),
        items_wf(g, kernel@),
    ensures
        sorted_keys(r@),
        items_wf(g, r@),
        r@.len() >= kernel@.len(),
        closure_fact(g, ctx.fv(), state_map(kernel@), state_map(r@)),
{
    let r = ctx.closure(kernel, g);
    proof {
        reveal(closure_fact);
    }
    r
}

/// The transition of a state on a symbol, exposing only the structural
/// facts that the collection build-out needs.
fn go_weak(ctx: &Lr1Ctx, state: &Vec<Lr1Item>, mov: u32, g: &Grammar) -> (r: Vec<Lr1Item>)
    requires
        g.wf(),
        ctx.wf(g),
        sorted_keys(state@),
        items_wf(g, state@),
    ensures
        sorted_keys(r@),
        items_wf(g, r@),
        (r@.len() == 0) == !Lr1Ctx::can_shift(g, state@, mov),
        goto_fact(g, ctx.fv(), state_map(state@), mov, state_map(r@)),
{
    let r = ctx.go(state, mov, g);
    proof {
        reveal(goto_fact);
    }
    r
}

/// Structural equality of two sorted states.
pub fn state_eq(g: &Grammar, a: &Vec<Lr1Item>, b: &Vec<Lr1Item>) -> (r: bool)
    requires
        items_wf(g, a@),
        items_wf(g, b@),
    ensures
        r == seq_equiv(a@, b@),
{
    if a.len() != b.len() {
        return false;
    }
    let mut i: usize = 0;
    while i < a.len()
        invariant
            items_wf(g, a@),
            items_wf(g, b@),
            a@.len() == b@.len(),
            i <= a@.len(),
            forall|t: int| 0 <= t < i ==> (#[trigger] a@[t]).lr0 == b@[t].lr0 && a@[t].lookahead@
                == b@[t].lookahead@,
        decreases a@.len() - i,
    {
        let ka = a[i].lr0;
        let kb = b[i].lr0;
        if ka.prod_id != kb.prod_id || ka.dot != kb.dot {
            return false;
        }
        if !a[i].lookahead.equals(&b[i].lookahead) {
            return false;
        }
        i += 1;
    }
    true
}

/// Build the canonical LR(1) collection, or nothing if it would take more
/// than `max_states` states.
pub fn work(g: &Grammar, max_states: usize) -> (r: Option<Lr1Fsm>)
    requires
        g.wf(),
        1 <= max_states <= 0xFFFF_FFFF,
    ensures
        (match r {
            Some(fsm) => {
                &&& 1 <= fsm.states@.len() <= max_states
                &&& fsm.links@.len() == fsm.states@.len()
                &&& exists|fv: Seq<Set<int>>| is_first_for(g, fv) && #[trigger] fsm.ok(g, fv)
                &&& exists|par: Seq<(int, int)>| #[trigger] reach_witness(&fsm, par)
            },
            None => exists|ss: Seq<Vec<Lr1Item>>| ss.len() == max_states && #[trigger] states_ok(
                g,
                ss,
            ) && states_distinct(ss),
        }),
{
    let ctx = Lr1Ctx::new(g);
    let ghost fv = ctx.fv();
    let tn = g.token_count();
    let mut la = BitSet::new(tn as usize);
    la.set((g.nt_num + 1) as usize);
    let mut kernel: Vec<Lr1Item> = Vec::new();
    let k0 = Lr0Item { prod_id: 0, dot: 0 };
    kernel.push(Lr1Item { lr0: k0, lookahead: la });
    proof {
        assert(sorted_keys(kernel@));
        assert(items_wf(g, kernel@));
        assert(state_map(kernel@) =~= init_kernel_map(g)) by {
            assert(crate::lr1::has_key(kernel@, k0)) by {
                assert(kernel@[0].lr0 == k0);
            }
            lemma_index_of(kernel@, k0);
            assert forall|k: Lr0Item| state_map(kernel@).dom().contains(k) implies k == k0 by {
                let i = choose|i: int|
                    0 <= i < kernel@.len() && (#[trigger] kernel@[i]).lr0 == k;
            }
            assert(state_map(kernel@)[k0] == kernel@[0].lookahead@);
            assert(kernel@[0].lookahead@ =~= Set::<int>::empty().insert(g.eof_idx()));
        }
    }
    let init = closure_weak(&ctx, kernel, g);
    let mut states: Vec<Vec<Lr1Item>> = Vec::new();
    let mut links: Vec<Vec<Option<u32>>> = Vec::new();
    states.push(init);
    let ghost mut parent: Seq<(int, int)> = seq![(0int, 0int)];
    while links.len() < states.len()
        invariant
            g.wf(),
            ctx.wf(g),
            fv == ctx.fv(),
            tn == g.token_num(),
            1 <= states@.len() <= max_states,
            max_states <= 0xFFFF_FFFF,
            links@.len() <= states@.len(),
            states_ok(g, states@),
            states_distinct(states@),
            closure_fact(g, fv, init_kernel_map(g), state_map(states@[0]@)),
            parent.len() == states@.len(),
            forall|j: int| 1 <= j < parent.len() ==> {
                let p = #[trigger] parent[j];
                &&& 0 <= p.0 < links@.len()
                &&& 0 <= p.1 < links@[p.0]@.len()
                &&& links@[p.0]@[p.1] == Some(j as u32)
            },
            forall|i: int| 0 <= i < links@.len() ==> (#[trigger] links@[i])@.len()
                == g.token_num(),
            forall|i: int, m: int|
                #![trigger links@[i]@[m]]
                0 <= i < links@.len() && 0 <= m < g.token_num() ==> cell_ok(
                    g,
                    fv,
                    states@,
                    i,
                    m,
                    links@[i]@[m],
                ),
        decreases max_states - links@.len(),
    {
        let k = links.len();
        let mut row: Vec<Option<u32>> = Vec::new();
        let mut mov: u32 = 0;
        while mov < tn
            invariant
                g.wf(),
                ctx.wf(g),
                fv == ctx.fv(),
                tn == g.token_num(),
                1 <= states@.len() <= max_states,
                max_states <= 0xFFFF_FFFF,
                k == links@.len(),
                k < states@.len(),
                mov <= tn,
                row@.len() == mov,
                states_ok(g, states@),
                states_distinct(states@),
                closure_fact(g, fv, init_kernel_map(g), state_map(states@[0]@)),
                parent.len() == states@.len(),
                forall|j: int| 1 <= j < parent.len() ==> {
                    let p = #[trigger] parent[j];
                    &&& 0 <= p.0 <= k as int
                    &&& (p.0 < k as int ==> 0 <= p.1 < links@[p.0]@.len() && links@[p.0]@[p.1]
                        == Some(j as u32))
                    &&& (p.0 == k as int ==> 0 <= p.1 < row@.len() && row@[p.1] == Some(
                        j as u32,
                    ))
                },
                forall|i: int| 0 <= i < links@.len() ==> (#[trigger] links@[i])@.len()
                    == g.token_num(),
                forall|i: int, m: int|
                    #![trigger links@[i]@[m]]
                    0 <= i < links@.len() && 0 <= m < g.token_num() ==> cell_ok(
                        g,
                        fv,
                        states@,
                        i,
                        m,
                        links@[i]@[m],
                    ),
                forall|m: int| #![trigger row@[m]] 0 <= m < mov ==> cell_ok(
                    g,
                    fv,
                    states@,
                    k as int,
                    m,
                    row@[m],
                ),
            decreases tn - mov,
        {
            let is_eof = mov == g.nt_num + 1;
            if is_eof {
                proof {
                    lemma_cell_none(g, fv, states@, k as int, mov as int);
                }
                row.push(None);
            } else {
                let ns = go_weak(&ctx, &states[k], mov, g);
                if ns.len() == 0 {
                    proof {
                        lemma_cell_none(g, fv, states@, k as int, mov as int);
                    }
                    row.push(None);
                } else {
                    let mut j: usize = 0;
                    let mut found = false;
                    let mut tgt: u32 = 0;
                    while j < states.len() && !found
                        invariant
                            g.wf(),
                            states_ok(g, states@),
                            items_wf(g, ns@),
                            j <= states@.len(),
                            states@.len() <= max_states,
                            max_states <= 0xFFFF_FFFF,
                            !found ==> forall|t: int| 0 <= t < j ==> !seq_equiv(
                                (#[trigger] states@[t])@,
                                ns@,
                            ),
                            found ==> (tgt as int) < states@.len() && seq_equiv(
                                states@[tgt as int]@,
                                ns@,
                            ),
                        decreases states@.len() - j,
                    {
                        if state_eq(g, &states[j], &ns) {
                            found = true;
                            tgt = j as u32;
                        }
                        j += 1;
                    }
                    if found {
                        proof {
                            lemma_seq_equiv_map(ns@, states@[tgt as int]@);
                            lemma_cell_from_goto(
                                g,
                                fv,
                                states@,
                                k as int,
                                mov as int,
                                tgt as int,
                                state_map(states@[tgt as int]@),
                            );
                        }
                        row.push(Some(tgt));
                    } else {
                        if states.len() >= max_states {
                            proof {
                                assert(states@.len() == max_states);
                            }
                            return None;
                        }
                        let ghost olds = states@;
                        states.push(ns);
                        proof {
                            assert(states@[states@.len() - 1]@ == ns@);
                            assert forall|i: int, jj: int| #![trigger states@[i], states@[jj]]
                                0 <= i < jj < states@.len() implies !seq_equiv(
                                states@[i]@,
                                states@[jj]@,
                            ) by {
                                if jj < olds.len() {
                                    assert(states@[i] == olds[i] && states@[jj] == olds[jj]);
                                } else {
                                    assert(states@[i] == olds[i]);
                                    assert(states@[jj]@ == ns@);
                                    assert(!seq_equiv(olds[i]@, ns@));
                                }
                            }
                            assert(states@[0] == olds[0]);
                            assert(states@[k as int] == olds[k as int]);
                            assert forall|i: int, m: int|
                                #![trigger links@[i]@[m]]
                                0 <= i < links@.len() && 0 <= m < g.token_num() implies cell_ok(
                                g,
                                fv,
                                states@,
                                i,
                                m,
                                links@[i]@[m],
                            ) by {
                                lemma_cell_ok_push(
                                    g,
                                    fv,
                                    olds,
                                    states@[states@.len() - 1],
                                    i,
                                    m,
                                    links@[i]@[m],
                                );
                            }
                            assert forall|m: int| #![trigger row@[m]] 0 <= m < mov
                                implies cell_ok(g, fv, states@, k as int, m, row@[m]) by {
                                lemma_cell_ok_push(
                                    g,
                                    fv,
                                    olds,
                                    states@[states@.len() - 1],
                                    k as int,
                                    m,
                                    row@[m],
                                );
                            }
                        }
                        let id = states.len() - 1;
                        proof {
                            parent = parent.push((k as int, mov as int));
                            lemma_cell_from_goto(
                                g,
                                fv,
                                states@,
                                k as int,
                                mov as int,
                                id as int,
                                state_map(states@[id as int]@),
                            );
                        }
                        row.push(Some(id as u32));
                    }
                }
            }
            mov += 1;
        }
        let ghost oldl = links@;
        links.push(row);
        proof {
            assert forall|i: int, m: int|
                #![trigger links@[i]@[m]]
                0 <= i < links@.len() && 0 <= m < g.token_num() implies cell_ok(
                g,
                fv,
                states@,
                i,
                m,
                links@[i]@[m],
            ) by {
                if i < links@.len() - 1 {
                    assert(links@[i] == oldl[i]);
                } else {
                    assert(links@[i]@ == row@);
                }
            }
        }
    }
    let fsm = Lr1Fsm { states, links };
    proof {
        assert(is_first_for(g, fv));
        assert(fsm.ok(g, fv));
        assert(reach_witness(&fsm, parent));
    }
    Some(fsm)
}

/// The transition of a state on a symbol is a function of the state's
/// item map and the symbol alone: any two closures of the shifted kernel
/// are one map.
pub proof fn lemma_goto_deterministic(
    g: &Grammar,
    fv: Seq<Set<int>>,
    m: Map<Lr0Item, Set<int>>,
    mov: u32,
    r1: Map<Lr0Item, Set<int>>,
    r2: Map<Lr0Item, Set<int>>,
)
    requires
        is_closure_of(g, fv, shifted_map(g, m, mov), r1),
        is_closure_of(g, fv, shifted_map(g, m, mov), r2),
    ensures
        r1 == r2,
{
    lemma_closure_unique(g, fv, shifted_map(g, m, mov), r1, r2);
}

} // verus!
