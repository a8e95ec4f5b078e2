//! The LR(1) core: items, closure and goto.
//!
//! An LR(0) item is a production paired with a dot position; an LR(1) item
//! adds a lookahead set.  A state is a vector of LR(1) items, strictly
//! sorted by LR(0) item, so that two states are structurally equal exactly
//! when they are equal as maps from LR(0) items to lookahead sets.
//!
//! `Lr1Ctx::closure` is specified as the least map that contains the kernel
//! and is closed under the expansion rule: an item `[A -> a . X b, la]`
//! with `X` a non-terminal demands, for every production `X -> g`, the item
//! `[X -> . g]` with at least `FIRST(b, la)` as lookahead.  Being a least
//! closed superset pins the result down uniquely, which gives closure
//! idempotence and goto determinism as theorems.

use vstd::prelude::*;
use crate::bitset::{bit_count, lemma_bit_count_le, lemma_bit_count_subset, BitSet};
use crate::first::{
    first_sets_wf, first_string_fallback, first_with_fallback, is_first_for, lemma_rhs_in_range,
    sets_view, total_count, lemma_total_count_le, lemma_total_count_update, First,
};
use crate::grammar::Grammar;

verus! {

/// A production with a dot position in `[0, |rhs|]`.
#[derive(Clone, Copy, PartialEq, Eq, Structural, Debug)]
pub struct Lr0Item {
    pub prod_id: u32,
    pub dot: u32,
}

/// An LR(0) item with its lookahead set.
pub struct Lr1Item {
    pub lr0: Lr0Item,
    pub lookahead: BitSet,
}

/// Total order on LR(0) items: by production, then by dot.
pub open spec fn key_lt(a: Lr0Item, b: Lr0Item) -> bool {
    a.prod_id < b.prod_id || (a.prod_id == b.prod_id && a.dot < b.dot)
}

/// Strictly ascending LR(0) keys: canonical state order, no duplicates.
pub open spec fn sorted_keys(s: Seq<Lr1Item>) -> bool {
    forall|i: int, j: int| #![trigger s[i], s[j]]
        0 <= i < j < s.len() ==> key_lt(s[i].lr0, s[j].lr0)
}

/// The item fits the grammar and its lookahead has full width.
pub open spec fn item_wf(g: &Grammar, k: Lr0Item) -> bool {
    &&& 0 <= k.prod_id < g.prod_num()
    &&& 0 <= k.dot <= g.rhs_of(k.prod_id as int).len()
}

pub open spec fn items_wf(g: &Grammar, s: Seq<Lr1Item>) -> bool {
    forall|i: int| 0 <= i < s.len() ==> item_wf(g, (#[trigger] s[i]).lr0) && s[i].lookahead.width()
        == g.token_num()
}

pub open spec fn has_key(s: Seq<Lr1Item>, k: Lr0Item) -> bool {
    exists|i: int| 0 <= i < s.len() && (#[trigger] s[i]).lr0 == k
}

pub open spec fn index_of(s: Seq<Lr1Item>, k: Lr0Item) -> int {
    choose|i: int| 0 <= i < s.len() && (#[trigger] s[i]).lr0 == k
}

pub open spec fn la_of(s: Seq<Lr1Item>, k: Lr0Item) -> Set<int> {
    s[index_of(s, k)].lookahead@
}

/// A state as a map from LR(0) items to lookahead sets.
pub open spec fn state_map(s: Seq<Lr1Item>) -> Map<Lr0Item, Set<int>> {
    Map::new(|k: Lr0Item| has_key(s, k), |k: Lr0Item| la_of(s, k))
}

/// Pointwise inclusion of item maps.
pub open spec fn map_le(m1: Map<Lr0Item, Set<int>>, m2: Map<Lr0Item, Set<int>>) -> bool {
    &&& m1.dom().subset_of(m2.dom())
    &&& forall|k: Lr0Item| m1.dom().contains(k) ==> (#[trigger] m1[k]).subset_of(m2[k])
}

/// The expansion demands of one item of the map.
pub open spec fn item_demands_met(
    g: &Grammar,
    fv: Seq<Set<int>>,
    m: Map<Lr0Item, Set<int>>,
    k: Lr0Item,
) -> bool {
    let rhs = g.rhs_of(k.prod_id as int);
    (k.dot < rhs.len() && g.is_nt(rhs[k.dot as int] as int)) ==> {
        forall|q: int|
            0 <= q < g.prod_num() && #[trigger] g.lhs_of(q) == rhs[k.dot as int] as int ==> {
                let k2 = Lr0Item { prod_id: q as u32, dot: 0 };
                &&& m.dom().contains(k2)
                &&& first_with_fallback(g, fv, rhs.skip(k.dot + 1), m[k]).subset_of(m[k2])
            }
    }
}

/// The map is closed under the expansion rule, and every item fits the
/// grammar.
pub open spec fn closure_closed(
    g: &Grammar,
    fv: Seq<Set<int>>,
    m: Map<Lr0Item, Set<int>>,
) -> bool {
    forall|k: Lr0Item| #[trigger] m.dom().contains(k) ==> item_wf(g, k) && item_demands_met(
        g,
        fv,
        m,
        k,
    )
}

/// `m` is the closure of `kern`: the least closed map above the kernel.
pub open spec fn is_closure_of(
    g: &Grammar,
    fv: Seq<Set<int>>,
    kern: Map<Lr0Item, Set<int>>,
    m: Map<Lr0Item, Set<int>>,
) -> bool {
    &&& closure_closed(g, fv, m)
    &&& map_le(kern, m)
    &&& forall|m2: Map<Lr0Item, Set<int>>|
        #[trigger] closure_closed(g, fv, m2) && map_le(kern, m2) ==> map_le(m, m2)
}

/// A least closed superset of a kernel is unique.
pub proof fn lemma_closure_unique(
    g: &Grammar,
    fv: Seq<Set<int>>,
    kern: Map<Lr0Item, Set<int>>,
    m1: Map<Lr0Item, Set<int>>,
    m2: Map<Lr0Item, Set<int>>,
)
    requires
        is_closure_of(g, fv, kern, m1),
        is_closure_of(g, fv, kern, m2),
    ensures
        m1 == m2,
{
    assert(map_le(m1, m2));
    assert(map_le(m2, m1));
    assert(m1.dom() =~= m2.dom());
    assert forall|k: Lr0Item| m1.dom().contains(k) implies m1[k] == m2[k] by {
        assert(m1[k].subset_of(m2[k]));
        assert(m2[k].subset_of(m1[k]));
        assert(m1[k] =~= m2[k]);
    }
    assert(m1 =~= m2);
}

/// Closing an already-closed state changes nothing: the closure of a
/// closure is itself.
pub proof fn lemma_closure_idempotent(
    g: &Grammar,
    fv: Seq<Set<int>>,
    kern: Map<Lr0Item, Set<int>>,
    m: Map<Lr0Item, Set<int>>,
    m2: Map<Lr0Item, Set<int>>,
)
    requires
        is_closure_of(g, fv, kern, m),
        is_closure_of(g, fv, m, m2),
    ensures
        m2 == m,
{
    assert(map_le(m, m));
    assert(map_le(m2, m));
    assert(map_le(m, m2));
    assert(m.dom() =~= m2.dom());
    assert forall|k: Lr0Item| m.dom().contains(k) implies m[k] == m2[k] by {
        assert(m[k] =~= m2[k]);
    }
    assert(m2 =~= m);
}

/// In a sorted state, the index of a present key is unique.
pub proof fn lemma_index_of(s: Seq<Lr1Item>, k: Lr0Item)
    requires
        sorted_keys(s),
        has_key(s, k),
    ensures
        0 <= index_of(s, k) < s.len(),
        s[index_of(s, k)].lr0 == k,
        forall|i: int| 0 <= i < s.len() && (#[trigger] s[i]).lr0 == k ==> i == index_of(s, k),
{
    let idx = index_of(s, k);
    assert(0 <= idx < s.len() && s[idx].lr0 == k);
    assert forall|i: int| 0 <= i < s.len() && (#[trigger] s[i]).lr0 == k implies i == idx by {
        if i < idx {
            assert(key_lt(s[i].lr0, s[idx].lr0));
        } else if idx < i {
            assert(key_lt(s[idx].lr0, s[i].lr0));
        }
    }
}

/// Inserting a new key at its sorted position updates the map by one
/// binding.
pub proof fn lemma_state_map_insert(s: Seq<Lr1Item>, pos: int, it: Lr1Item)
    requires
        sorted_keys(s),
        0 <= pos <= s.len(),
        forall|i: int| 0 <= i < pos ==> key_lt((#[trigger] s[i]).lr0, it.lr0),
        forall|i: int| pos <= i < s.len() ==> key_lt(it.lr0, (#[trigger] s[i]).lr0),
    ensures
        sorted_keys(s.insert(pos, it)),
        state_map(s.insert(pos, it)) == state_map(s).insert(it.lr0, it.lookahead@),
{
    let s2 = s.insert(pos, it);
    assert forall|i: int, j: int| #![trigger s2[i], s2[j]]
        0 <= i < j < s2.len() implies key_lt(s2[i].lr0, s2[j].lr0) by {
        if i < pos {
            assert(s2[i] == s[i]);
        } else if i == pos {
            assert(s2[i] == it);
        } else {
            assert(s2[i] == s[i - 1]);
        }
        if j < pos {
            assert(s2[j] == s[j]);
        } else if j == pos {
            assert(s2[j] == it);
        } else {
            assert(s2[j] == s[j - 1]);
        }
    }
    let lhsm = state_map(s2);
    let rhsm = state_map(s).insert(it.lr0, it.lookahead@);
    assert forall|k: Lr0Item| lhsm.dom().contains(k) implies rhsm.dom().contains(k) by {
        let i = choose|i: int| 0 <= i < s2.len() && (#[trigger] s2[i]).lr0 == k;
        if i < pos {
            assert(s[i].lr0 == k);
        } else if i == pos {
        } else {
            assert(s[i - 1].lr0 == k);
        }
    }
    assert forall|k: Lr0Item| rhsm.dom().contains(k) implies lhsm.dom().contains(k) by {
        if k == it.lr0 {
            assert(s2[pos].lr0 == k);
        } else {
            let i = choose|i: int| 0 <= i < s.len() && (#[trigger] s[i]).lr0 == k;
            if i < pos {
                assert(s2[i].lr0 == k);
            } else {
                assert(s2[i + 1].lr0 == k);
            }
        }
    }
    assert forall|k: Lr0Item| lhsm.dom().contains(k) implies lhsm[k] == rhsm[k] by {
        lemma_index_of(s2, k);
        let i2 = index_of(s2, k);
        if k == it.lr0 {
            assert(s2[pos].lr0 == k);
            assert(i2 == pos);
            assert(lhsm[k] == it.lookahead@);
        } else {
            if i2 < pos {
                assert(s[i2].lr0 == k);
            } else {
                assert(i2 != pos);
                assert(s[i2 - 1].lr0 == k);
            }
            assert(has_key(s, k));
            lemma_index_of(s, k);
            let i1 = index_of(s, k);
            if i1 < pos {
                assert(s2[i1].lr0 == k);
                assert(i1 == i2);
                assert(s2[i2] == s[i1]);
            } else {
                assert(s2[i1 + 1].lr0 == k);
                assert(i1 + 1 == i2);
                assert(s2[i2] == s[i1]);
            }
        }
    }
    assert(lhsm.dom() =~= rhsm.dom());
    assert(lhsm =~= rhsm);
}

/// Replacing the item at a key's position updates the map by one binding.
pub proof fn lemma_state_map_update(s: Seq<Lr1Item>, j: int, it: Lr1Item)
    requires
        sorted_keys(s),
        0 <= j < s.len(),
        it.lr0 == s[j].lr0,
    ensures
        sorted_keys(s.update(j, it)),
        state_map(s.update(j, it)) == state_map(s).insert(it.lr0, it.lookahead@),
{
    let s2 = s.update(j, it);
    assert forall|i1: int, i2: int| #![trigger s2[i1], s2[i2]]
        0 <= i1 < i2 < s2.len() implies key_lt(s2[i1].lr0, s2[i2].lr0) by {
        assert(s2[i1].lr0 == s[i1].lr0);
        assert(s2[i2].lr0 == s[i2].lr0);
    }
    let lhsm = state_map(s2);
    let rhsm = state_map(s).insert(it.lr0, it.lookahead@);
    assert forall|k: Lr0Item| lhsm.dom().contains(k) implies rhsm.dom().contains(k) by {
        let i = choose|i: int| 0 <= i < s2.len() && (#[trigger] s2[i]).lr0 == k;
        assert(s[i].lr0 == k);
    }
    assert forall|k: Lr0Item| rhsm.dom().contains(k) implies lhsm.dom().contains(k) by {
        if k == it.lr0 {
            assert(s2[j].lr0 == k);
        } else {
            let i = choose|i: int| 0 <= i < s.len() && (#[trigger] s[i]).lr0 == k;
            assert(s2[i].lr0 == k);
        }
    }
    assert forall|k: Lr0Item| lhsm.dom().contains(k) implies lhsm[k] == rhsm[k] by {
        lemma_index_of(s2, k);
        let i2 = index_of(s2, k);
        if k == it.lr0 {
            lemma_index_of(s, k);
            assert(s2[j].lr0 == k);
            assert(i2 == j);
            assert(lhsm[k] == it.lookahead@);
        } else {
            assert(i2 != j);
            assert(s[i2].lr0 == k);
            assert(has_key(s, k));
            lemma_index_of(s, k);
            assert(index_of(s, k) == i2);
            assert(s2[i2] == s[i2]);
        }
    }
    assert(lhsm.dom() =~= rhsm.dom());
    assert(lhsm =~= rhsm);
}

/// Find the sorted position of a key: either its index, or the place where
/// it would be inserted.
pub fn find_key(items: &Vec<Lr1Item>, k: Lr0Item) -> (r: (bool, usize))
    requires
        sorted_keys(items@),
    ensures
        r.1 <= items@.len(),
        r.0 ==> r.1 < items@.len() && items@[r.1 as int].lr0 == k,
        !r.0 ==> !has_key(items@, k) && (forall|i: int|
            0 <= i < r.1 ==> key_lt((#[trigger] items@[i]).lr0, k)) && (forall|i: int|
            r.1 <= i < items@.len() ==> key_lt(k, (#[trigger] items@[i]).lr0)),
{
    let n = items.len();
    let mut i: usize = 0;
    while i < n
        invariant
            sorted_keys(items@),
            n == items@.len(),
            i <= n,
            forall|j: int| 0 <= j < i ==> key_lt((#[trigger] items@[j]).lr0, k),
        decreases n - i,
    {
        let a = items[i].lr0;
        if a.prod_id > k.prod_id || (a.prod_id == k.prod_id && a.dot >= k.dot) {
            if a.prod_id == k.prod_id && a.dot == k.dot {
                return (true, i);
            }
            proof {
                assert(key_lt(k, items@[i as int].lr0));
                assert forall|j: int| i <= j < items@.len() implies key_lt(
                    k,
                    (#[trigger] items@[j]).lr0,
                ) by {
                    if j > i {
                        assert(key_lt(items@[i as int].lr0, items@[j].lr0));
                    }
                }
                assert(!has_key(items@, k)) by {
                    if has_key(items@, k) {
                        let j = choose|j: int|
                            0 <= j < items@.len() && (#[trigger] items@[j]).lr0 == k;
                        if j < i {
                            assert(key_lt(items@[j].lr0, k));
                        } else {
                            assert(key_lt(k, items@[j].lr0));
                        }
                    }
                }
            }
            return (false, i);
        }
        i += 1;
    }
    proof {
        assert(!has_key(items@, k)) by {
            if has_key(items@, k) {
                let j = choose|j: int| 0 <= j < items@.len() && (#[trigger] items@[j]).lr0 == k;
                assert(key_lt(items@[j].lr0, k));
            }
        }
    }
    (false, i)
}

/// The lookahead parts of a state, for the termination measure.
pub open spec fn la_seq(s: Seq<Lr1Item>) -> Seq<BitSet> {
    s.map_values(|it: Lr1Item| it.lookahead)
}

/// The symbol after the dot is a non-terminal.
pub open spec fn dot_before_nt(g: &Grammar, k: Lr0Item) -> bool {
    k.dot < g.rhs_of(k.prod_id as int).len() && g.is_nt(
        g.rhs_of(k.prod_id as int)[k.dot as int] as int,
    )
}

/// The symbol after the dot.
pub open spec fn dot_sym(g: &Grammar, k: Lr0Item) -> int {
    g.rhs_of(k.prod_id as int)[k.dot as int] as int
}

/// `m` is below every closed map above the kernel: everything in it is
/// forced.
pub open spec fn map_just(
    g: &Grammar,
    fv: Seq<Set<int>>,
    kern: Map<Lr0Item, Set<int>>,
    m: Map<Lr0Item, Set<int>>,
) -> bool {
    forall|m2: Map<Lr0Item, Set<int>>|
        #[trigger] closure_closed(g, fv, m2) && map_le(kern, m2) ==> map_le(m, m2)
}

/// Every non-terminal in `nn` forces, in every closed map above the kernel,
/// the presence of the initial items of all its productions.
pub open spec fn nset_just(
    g: &Grammar,
    fv: Seq<Set<int>>,
    kern: Map<Lr0Item, Set<int>>,
    nn: Set<int>,
) -> bool {
    forall|m2: Map<Lr0Item, Set<int>>, q: int|
        #![trigger closure_closed(g, fv, m2), g.lhs_of(q)]
        closure_closed(g, fv, m2) && map_le(kern, m2) && 0 <= q < g.prod_num() && nn.contains(
            g.lhs_of(q),
        ) ==> m2.dom().contains(Lr0Item { prod_id: q as u32, dot: 0 })
}

/// The LR(1) construction context: the FIRST sets of the grammar.
pub struct Lr1Ctx(pub First);

impl Lr1Ctx {
    pub open spec fn wf(&self, g: &Grammar) -> bool {
        self.0.wf(g)
    }

    /// The FIRST assignment this context computes with.
    pub open spec fn fv(&self) -> Seq<Set<int>> {
        sets_view(self.0.sets@)
    }

    pub fn new(g: &Grammar) -> (r: Lr1Ctx)
        requires
            g.wf(),
        ensures
            r.wf(g),
            is_first_for(g, r.fv()),
    {
        Lr1Ctx(First::new(g))
    }

    /// FIRST of the suffix `rhs[from..]` with the fallback lookahead `a`:
    /// the lookahead contributed to an expanded item whose right context is
    /// that suffix.
    pub fn first(&self, rhs: &Vec<u32>, from: usize, a: &BitSet, g: &Grammar) -> (r: BitSet)
        requires
            g.wf(),
            self.wf(g),
            from <= rhs@.len(),
            a.width() == g.token_num(),
            forall|j: int| 0 <= j < rhs@.len() ==> g.is_nt(#[trigger] rhs@[j] as int)
                || g.is_term(rhs@[j] as int),
        ensures
            r.width() == g.token_num(),
            r@ == first_with_fallback(g, self.fv(), rhs@.skip(from as int), a@),
    {
        first_string_fallback(g, &self.0.sets, rhs, from, a)
    }

    /// The closure of a kernel: the least state that contains the kernel
    /// and, for every item with the dot before a non-terminal `X` and every
    /// production `X -> g`, the item `[X -> . g]` with the induced
    /// lookahead.  The result is canonically sorted.
    pub fn closure(&self, kernel: Vec<Lr1Item>, g: &Grammar) -> (r: Vec<Lr1Item>)
        requires
            g.wf(),
            self.wf(g),
            sorted_keys(kernel@),
            items_wf(g, kernel@),
        ensures
            sorted_keys(r@),
            items_wf(g, r@),
            is_closure_of(g, self.fv(), state_map(kernel@), state_map(r@)),
            r@.len() >= kernel@.len(),
            kernel@.len() == 0 ==> r@.len() == 0,
            forall|k: Lr0Item| #[trigger] state_map(r@).dom().contains(k) ==> state_map(
                kernel@,
            ).dom().contains(k) || k.dot == 0,
    {
        let ghost kern = state_map(kernel@);
        let ghost fv = self.fv();
        if kernel.len() == 0 {
            return kernel;
        }
        let nset = nt_reach(g, &kernel, Ghost(fv));
        let ghost kernel0 = kernel@;
        let ghost nn = nset@;
        let items = assemble(g, kernel, &nset, Ghost(fv));
        let r = propagate(self, g, items, Ghost(kern), Ghost(nn));
        proof {
            let m = state_map(r@);
            assert(closure_closed(g, fv, m));
        }
        r
    }

    /// Whether some item of the state has its dot on `mov`.
    pub open spec fn can_shift(g: &Grammar, s: Seq<Lr1Item>, mov: u32) -> bool {
        exists|i: int| 0 <= i < s.len() && dot_on(g, (#[trigger] s[i]).lr0, mov)
    }

    /// The transition of a state on a symbol: shift the dot over `mov` in
    /// every item that allows it, then close.  An empty result means the
    /// state has no transition on `mov`.
    #[verifier::rlimit(100)]
    pub fn go(&self, state: &Vec<Lr1Item>, mov: u32, g: &Grammar) -> (r: Vec<Lr1Item>)
        requires
            g.wf(),
            self.wf(g),
            sorted_keys(state@),
            items_wf(g, state@),
        ensures
            sorted_keys(r@),
            items_wf(g, r@),
            is_closure_of(
                g,
                self.fv(),
                shifted_map(g, state_map(state@), mov),
                state_map(r@),
            ),
            (r@.len() == 0) == !Self::can_shift(g, state@, mov),
            forall|k: Lr0Item| #[trigger] state_map(r@).dom().contains(k) ==> shifted_map(
                g,
                state_map(state@),
                mov,
            ).dom().contains(k) || k.dot == 0,
    {
        let ghost sm = state_map(state@);
        let mut kern: Vec<Lr1Item> = Vec::new();
        let mut i: usize = 0;
        while i < state.len()
            invariant
                g.wf(),
                sorted_keys(state@),
                items_wf(g, state@),
                sm == state_map(state@),
                i <= state@.len(),
                sorted_keys(kern@),
                items_wf(g, kern@),
                kern@.len() > 0 ==> exists|t: int| 0 <= t < i && dot_on(
                    g,
                    (#[trigger] state@[t]).lr0,
                    mov,
                ),
                forall|t: int| 0 <= t < i && dot_on(g, (#[trigger] state@[t]).lr0, mov)
                    ==> kern@.len() > 0,
                forall|w: int| 0 <= w < kern@.len() ==> {
                    let k = (#[trigger] kern@[w]).lr0;
                    &&& k.dot >= 1
                    &&& exists|t: int| 0 <= t < i && (#[trigger] state@[t]).lr0 == unshift(k)
                        && dot_on(g, state@[t].lr0, mov) && kern@[w].lookahead@ == state@[t]
                        .lookahead@
                },
                forall|t: int| 0 <= t < i && dot_on(g, (#[trigger] state@[t]).lr0, mov)
                    ==> exists|w: int| 0 <= w < kern@.len() && (#[trigger] kern@[w]).lr0
                        == shift_key(state@[t].lr0) && kern@[w].lookahead@ == state@[t]
                        .lookahead@,
            decreases state@.len() - i,
        {
            let k = state[i].lr0;
            let rhs_len = g.prods[k.prod_id as usize].rhs.len();
            if (k.dot as usize) < rhs_len {
                let s = g.prods[k.prod_id as usize].rhs[k.dot as usize];
                proof {
                    assert(g.rhs_of(k.prod_id as int)[k.dot as int] == s);
                }
                if s == mov {
                    let nk = Lr0Item { prod_id: k.prod_id, dot: k.dot + 1 };
                    let it = Lr1Item { lr0: nk, lookahead: state[i].lookahead.duplicate() };
                    let ghost oldk = kern@;
                    proof {
                        assert forall|w: int| 0 <= w < oldk.len() implies key_lt(
                            (#[trigger] oldk[w]).lr0,
                            nk,
                        ) by {
                            let t = choose|t: int|
                                0 <= t < i && (#[trigger] state@[t]).lr0 == unshift(oldk[w].lr0)
                                    && dot_on(g, state@[t].lr0, mov) && oldk[w].lookahead@
                                    == state@[t].lookahead@;
                            assert(key_lt(state@[t].lr0, state@[i as int].lr0));
                        }
                    }
                    kern.push(it);
                    proof {
                        assert(kern@ == oldk.push(it));
                        assert(dot_on(g, state@[i as int].lr0, mov));
                        assert forall|w: int| 0 <= w < kern@.len() implies {
                            let kk = (#[trigger] kern@[w]).lr0;
                            &&& kk.dot >= 1
                            &&& exists|t: int| 0 <= t < i + 1 && (#[trigger] state@[t]).lr0
                                == unshift(kk) && dot_on(g, state@[t].lr0, mov) && kern@[w]
                                .lookahead@ == state@[t].lookahead@
                        } by {
                            if w < oldk.len() {
                                assert(kern@[w] == oldk[w]);
                            } else {
                                assert(kern@[w] == it);
                                assert(unshift(nk) == k);
                                assert(state@[i as int].lr0 == k);
                            }
                        }
                        assert forall|t: int| 0 <= t < i + 1 && dot_on(
                            g,
                            (#[trigger] state@[t]).lr0,
                            mov,
                        ) implies exists|w: int| 0 <= w < kern@.len() && (
                        #[trigger] kern@[w]).lr0 == shift_key(state@[t].lr0) && kern@[w]
                            .lookahead@ == state@[t].lookahead@ by {
                            if t == i as int {
                                assert(kern@[oldk.len() as int] == it);
                                assert(it.lr0 == shift_key(state@[t].lr0));
                            } else {
                                let w = choose|w: int|
                                    0 <= w < oldk.len() && (#[trigger] oldk[w]).lr0
                                        == shift_key(state@[t].lr0) && oldk[w].lookahead@
                                        == state@[t].lookahead@;
                                assert(kern@[w] == oldk[w]);
                            }
                        }
                    }
                }
            }
            i += 1;
        }
        proof {
            assert(state_map(kern@) =~= shifted_map(g, sm, mov)) by {
                let km = state_map(kern@);
                let shm = shifted_map(g, sm, mov);
                assert forall|k: Lr0Item| km.dom().contains(k) implies shm.dom().contains(k)
                    && km[k] == shm[k] by {
                    lemma_index_of(kern@, k);
                    let w = index_of(kern@, k);
                    let t = choose|t: int|
                        0 <= t < state@.len() && (#[trigger] state@[t]).lr0 == unshift(k)
                            && dot_on(g, state@[t].lr0, mov) && kern@[w].lookahead@ == state@[t]
                            .lookahead@;
                    assert(has_key(state@, unshift(k)));
                    lemma_index_of(state@, unshift(k));
                    assert(index_of(state@, unshift(k)) == t);
                    assert(sm.dom().contains(unshift(k)));
                    assert(sm[unshift(k)] == state@[t].lookahead@);
                }
                assert forall|k: Lr0Item| shm.dom().contains(k) implies km.dom().contains(k) by {
                    assert(sm.dom().contains(unshift(k)));
                    lemma_index_of(state@, unshift(k));
                    let t = index_of(state@, unshift(k));
                    assert(dot_on(g, state@[t].lr0, mov));
                    let w = choose|w: int|
                        0 <= w < kern@.len() && (#[trigger] kern@[w]).lr0 == shift_key(
                            state@[t].lr0,
                        ) && kern@[w].lookahead@ == state@[t].lookahead@;
                    assert(shift_key(state@[t].lr0) == k);
                    assert(has_key(kern@, k));
                }
            }
            if kern@.len() == 0 {
                assert(!Self::can_shift(g, state@, mov)) by {
                    if Self::can_shift(g, state@, mov) {
                        let t = choose|t: int|
                            0 <= t < state@.len() && dot_on(g, (#[trigger] state@[t]).lr0, mov);
                        assert(kern@.len() > 0);
                    }
                }
            }
        }
        let ghost kern_len = kern@.len();
        let r = self.closure(kern, g);
        proof {
            if kern_len > 0 {
                assert(r@.len() >= kern_len);
            }
        }
        r
    }
}


/// Phase one of the closure: the set of non-terminals whose productions
/// are forced into the state, as a bit set over non-terminal identifiers.
fn nt_reach(g: &Grammar, kernel: &Vec<Lr1Item>, Ghost(fv): Ghost<Seq<Set<int>>>) -> (nset: BitSet)
    requires
        g.wf(),
        sorted_keys(kernel@),
        items_wf(g, kernel@),
    ensures
        nset.width() == g.nt_num,
        forall|t: int| 0 <= t < kernel@.len() && dot_before_nt(g, (#[trigger] kernel@[t]).lr0)
            ==> nset@.contains(dot_sym(g, kernel@[t].lr0)),
        forall|q: int| 0 <= q < g.prod_num() && nset@.contains(#[trigger] g.lhs_of(q))
            && g.rhs_of(q).len() > 0 && g.is_nt(g.rhs_of(q)[0] as int) ==> nset@.contains(
            g.rhs_of(q)[0] as int,
        ),
        nset_just(g, fv, state_map(kernel@), nset@),
{
    let ghost kern = state_map(kernel@);
    let mut nset = BitSet::new(g.nt_num as usize);
    let mut i: usize = 0;
    while i < kernel.len()
        invariant
            g.wf(),
            sorted_keys(kernel@),
            items_wf(g, kernel@),
            kern == state_map(kernel@),
            i <= kernel@.len(),
            nset.width() == g.nt_num,
            forall|t: int| 0 <= t < i && dot_before_nt(g, (#[trigger] kernel@[t]).lr0)
                ==> nset@.contains(dot_sym(g, kernel@[t].lr0)),
            nset_just(g, fv, kern, nset@),
        decreases kernel@.len() - i,
    {
        let k = kernel[i].lr0;
        proof {
            assert(item_wf(g, k));
        }
        let rhs = &g.prods[k.prod_id as usize].rhs;
        if (k.dot as usize) < rhs.len() {
            let x = rhs[k.dot as usize];
            proof {
                assert(g.rhs_of(k.prod_id as int)[k.dot as int] == x);
            }
            if x < g.nt_num {
                let ghost oldn = nset@;
                nset.set(x as usize);
                proof {
                    assert(dot_sym(g, k) == x as int);
                    assert forall|m2: Map<Lr0Item, Set<int>>, q: int|
                        #![trigger closure_closed(g, fv, m2), g.lhs_of(q)]
                        closure_closed(g, fv, m2) && map_le(kern, m2) && 0 <= q < g.prod_num()
                            && nset@.contains(g.lhs_of(q)) implies m2.dom().contains(
                        Lr0Item { prod_id: q as u32, dot: 0 },
                    ) by {
                        if oldn.contains(g.lhs_of(q)) {
                        } else {
                            assert(g.lhs_of(q) == x as int);
                            assert(has_key(kernel@, k)) by {
                                assert(kernel@[i as int].lr0 == k);
                            }
                            assert(kern.dom().contains(k));
                            assert(m2.dom().contains(k));
                            assert(item_demands_met(g, fv, m2, k));
                        }
                    }
                }
            }
        }
        i += 1;
    }
    let mut changed = true;
    proof {
        lemma_bit_count_le(&nset);
    }
    while changed
        invariant
            g.wf(),
            kern == state_map(kernel@),
            nset.width() == g.nt_num,
            bit_count(&nset) <= g.nt_num,
            forall|t: int| 0 <= t < kernel@.len() && dot_before_nt(
                g,
                (#[trigger] kernel@[t]).lr0,
            ) ==> nset@.contains(dot_sym(g, kernel@[t].lr0)),
            nset_just(g, fv, kern, nset@),
            !changed ==> forall|q: int|
                0 <= q < g.prod_num() && nset@.contains(#[trigger] g.lhs_of(q))
                    && g.rhs_of(q).len() > 0 && g.is_nt(g.rhs_of(q)[0] as int)
                    ==> nset@.contains(g.rhs_of(q)[0] as int),
        decreases
                g.nt_num + 1 - bit_count(&nset),
                (if changed { 1int } else { 0int }),
    {
        let ghost pass_start = bit_count(&nset);
        changed = false;
        let mut q: usize = 0;
        while q < g.prods.len()
            invariant
                g.wf(),
                kern == state_map(kernel@),
                nset.width() == g.nt_num,
                q <= g.prods@.len(),
                forall|t: int| 0 <= t < kernel@.len() && dot_before_nt(
                    g,
                    (#[trigger] kernel@[t]).lr0,
                ) ==> nset@.contains(dot_sym(g, kernel@[t].lr0)),
                nset_just(g, fv, kern, nset@),
                bit_count(&nset) >= pass_start,
                changed ==> bit_count(&nset) > pass_start,
                !changed ==> forall|q2: int|
                    0 <= q2 < q && nset@.contains(#[trigger] g.lhs_of(q2))
                        && g.rhs_of(q2).len() > 0 && g.is_nt(g.rhs_of(q2)[0] as int)
                        ==> nset@.contains(g.rhs_of(q2)[0] as int),
            decreases g.prods@.len() - q,
        {
            let lhsq = g.prods[q].lhs;
            proof {
                assert(g.lhs_of(q as int) == lhsq as int);
                assert(g.is_nt(lhsq as int));
            }
            if nset.test(lhsq as usize) && g.prods[q].rhs.len() > 0 {
                let s0 = g.prods[q].rhs[0];
                proof {
                    assert(g.rhs_of(q as int)[0] == s0);
                    assert((s0 as int) < g.token_num());
                }
                if s0 < g.nt_num {
                    if !nset.test(s0 as usize) {
                        let ghost oldb = nset;
                        let ghost oldn = nset@;
                        nset.set(s0 as usize);
                        changed = true;
                        proof {
                            lemma_bit_count_subset(&oldb, &nset);
                            assert(oldb@ != nset@) by {
                                assert(nset@.contains(s0 as int) && !oldb@.contains(s0 as int));
                            }
                            assert forall|m2: Map<Lr0Item, Set<int>>, q2: int|
                                #![trigger closure_closed(g, fv, m2), g.lhs_of(q2)]
                                closure_closed(g, fv, m2) && map_le(kern, m2) && 0 <= q2
                                    < g.prod_num() && nset@.contains(g.lhs_of(q2)) implies m2
                                .dom().contains(Lr0Item { prod_id: q2 as u32, dot: 0 }) by {
                                if oldn.contains(g.lhs_of(q2)) {
                                } else {
                                    assert(g.lhs_of(q2) == s0 as int);
                                    let k0 = Lr0Item { prod_id: q as u32, dot: 0 };
                                    assert(m2.dom().contains(k0));
                                    assert(item_demands_met(g, fv, m2, k0));
                                }
                            }
                        }
                    }
                }
            }
            q += 1;
        }
        proof {
            lemma_bit_count_le(&nset);
        }
    }
    nset
}

/// Phase two of the closure: add, below every reached non-terminal, the
/// initial items of all its productions, with empty lookaheads, keeping
/// the canonical sort.
fn assemble(g: &Grammar, kernel: Vec<Lr1Item>, nset: &BitSet, Ghost(fv): Ghost<Seq<Set<int>>>) -> (items: Vec<Lr1Item>)
    requires
        g.wf(),
        sorted_keys(kernel@),
        items_wf(g, kernel@),
        nset.width() == g.nt_num,
        forall|t: int| 0 <= t < kernel@.len() && dot_before_nt(g, (#[trigger] kernel@[t]).lr0)
            ==> nset@.contains(dot_sym(g, kernel@[t].lr0)),
        forall|q: int| 0 <= q < g.prod_num() && nset@.contains(#[trigger] g.lhs_of(q))
            && g.rhs_of(q).len() > 0 && g.is_nt(g.rhs_of(q)[0] as int) ==> nset@.contains(
            g.rhs_of(q)[0] as int,
        ),
        nset_just(g, fv, state_map(kernel@), nset@),
    ensures
        sorted_keys(items@),
        items_wf(g, items@),
        items@.len() >= kernel@.len(),
        map_le(state_map(kernel@), state_map(items@)),
        map_just(g, fv, state_map(kernel@), state_map(items@)),
        forall|k: Lr0Item| #[trigger] state_map(items@).dom().contains(k) ==> state_map(
            kernel@,
        ).dom().contains(k) || k.dot == 0,
        forall|t: int| 0 <= t < items@.len() && dot_before_nt(g, (#[trigger] items@[t]).lr0)
            ==> nset@.contains(dot_sym(g, items@[t].lr0)),
        forall|q: int| 0 <= q < g.prod_num() && nset@.contains(#[trigger] g.lhs_of(q))
            ==> has_key(items@, Lr0Item { prod_id: q as u32, dot: 0 }),
{
    let ghost kern = state_map(kernel@);
    let tn = g.token_count() as usize;
    let mut items = kernel;
    let mut q: usize = 0;
    while q < g.prods.len()
        invariant
            g.wf(),
            kern == state_map(kernel@),
            nset.width() == g.nt_num,
            q <= g.prods@.len(),
            tn == g.token_num(),
            sorted_keys(items@),
            items_wf(g, items@),
            items@.len() >= kernel@.len(),
            map_le(kern, state_map(items@)),
            map_just(g, fv, kern, state_map(items@)),
            nset_just(g, fv, kern, nset@),
            forall|q2: int| 0 <= q2 < g.prod_num() && nset@.contains(#[trigger] g.lhs_of(q2))
                && g.rhs_of(q2).len() > 0 && g.is_nt(g.rhs_of(q2)[0] as int) ==> nset@.contains(
                g.rhs_of(q2)[0] as int,
            ),
            forall|k: Lr0Item| #[trigger] state_map(items@).dom().contains(k)
                ==> kern.dom().contains(k) || k.dot == 0,
            forall|t: int| 0 <= t < items@.len() && dot_before_nt(
                g,
                (#[trigger] items@[t]).lr0,
            ) ==> nset@.contains(dot_sym(g, items@[t].lr0)),
            forall|q2: int| 0 <= q2 < q && nset@.contains(#[trigger] g.lhs_of(q2))
                ==> has_key(items@, Lr0Item { prod_id: q2 as u32, dot: 0 }),
        decreases g.prods@.len() - q,
    {
        let lhsq = g.prods[q].lhs;
        proof {
            assert(g.lhs_of(q as int) == lhsq as int);
        }
        if nset.test(lhsq as usize) {
            let k2 = Lr0Item { prod_id: q as u32, dot: 0 };
            let (found, pos) = find_key(&items, k2);
            if !found {
                let ghost oldi = items@;
                let it = Lr1Item { lr0: k2, lookahead: BitSet::new(tn) };
                items.insert(pos, it);
                proof {
                    lemma_state_map_insert(oldi, pos as int, it);
                    assert(items@ == oldi.insert(pos as int, it));
                    assert forall|t: int| 0 <= t < items@.len() implies item_wf(
                        g,
                        (#[trigger] items@[t]).lr0,
                    ) && items@[t].lookahead.width() == g.token_num() by {
                        if t < pos as int {
                            assert(items@[t] == oldi[t]);
                        } else if t == pos as int {
                            assert(items@[t] == it);
                        } else {
                            assert(items@[t] == oldi[t - 1]);
                        }
                    }
                    let newm = state_map(items@);
                    let oldm = state_map(oldi);
                    assert(newm == oldm.insert(k2, it.lookahead@));
                    assert forall|m2: Map<Lr0Item, Set<int>>|
                        #[trigger] closure_closed(g, fv, m2) && map_le(kern, m2)
                        implies map_le(newm, m2) by {
                        assert(map_le(oldm, m2));
                        assert(m2.dom().contains(k2));
                        assert(it.lookahead@.subset_of(m2[k2]));
                        assert forall|k: Lr0Item| newm.dom().contains(k) implies m2
                            .dom().contains(k) && (#[trigger] newm[k]).subset_of(m2[k]) by {
                            if k != k2 {
                                assert(oldm.dom().contains(k));
                            }
                        }
                    }
                    assert forall|t: int| 0 <= t < items@.len() && dot_before_nt(
                        g,
                        (#[trigger] items@[t]).lr0,
                    ) implies nset@.contains(dot_sym(g, items@[t].lr0)) by {
                        if t == pos as int {
                            assert(items@[t].lr0 == k2);
                            assert(nset@.contains(g.lhs_of(q as int)));
                            assert(dot_sym(g, k2) == g.rhs_of(q as int)[0] as int);
                            assert(g.rhs_of(q as int).len() > 0 && g.is_nt(
                                g.rhs_of(q as int)[0] as int,
                            ));
                        } else if t < pos as int {
                            assert(items@[t] == oldi[t]);
                        } else {
                            assert(items@[t] == oldi[t - 1]);
                        }
                    }
                    assert forall|q2: int| 0 <= q2 < q + 1 && nset@.contains(
                        #[trigger] g.lhs_of(q2),
                    ) implies has_key(items@, Lr0Item { prod_id: q2 as u32, dot: 0 }) by {
                        let kq = Lr0Item { prod_id: q2 as u32, dot: 0 };
                        if q2 == q as int {
                            assert(items@[pos as int].lr0 == kq);
                        } else {
                            assert(has_key(oldi, kq));
                            let w = choose|w: int|
                                0 <= w < oldi.len() && (#[trigger] oldi[w]).lr0 == kq;
                            if w < pos as int {
                                assert(items@[w].lr0 == kq);
                            } else {
                                assert(items@[w + 1].lr0 == kq);
                            }
                        }
                    }
                }
            } else {
                proof {
                    assert(items@[pos as int].lr0 == k2);
                    assert forall|q2: int| 0 <= q2 < q + 1 && nset@.contains(
                        #[trigger] g.lhs_of(q2),
                    ) implies has_key(items@, Lr0Item { prod_id: q2 as u32, dot: 0 }) by {
                        if q2 == q as int {
                            assert(items@[pos as int].lr0 == Lr0Item {
                                prod_id: q2 as u32,
                                dot: 0,
                            });
                        }
                    }
                }
            }
        }
        q += 1;
    }
    items
}

/// Union `fs` into the lookahead of the item at `pos`, in place; reports
/// whether it grew.
fn or_into(items: &mut Vec<Lr1Item>, pos: usize, fs: &BitSet, g: &Grammar) -> (ch: bool)
    requires
        g.wf(),
        sorted_keys(old(items)@),
        items_wf(g, old(items)@),
        pos < old(items)@.len(),
        fs.width() == g.token_num(),
    ensures
        sorted_keys(final(items)@),
        items_wf(g, final(items)@),
        final(items)@.len() == old(items)@.len(),
        forall|t: int| 0 <= t < final(items)@.len() ==> (#[trigger] final(items)@[t]).lr0
            == old(items)@[t].lr0,
        forall|t: int| 0 <= t < final(items)@.len() && t != pos ==> final(items)@[t]
            == old(items)@[t],
        final(items)@[pos as int].lookahead@ == old(items)@[pos as int].lookahead@.union(fs@),
        ch == (final(items)@[pos as int].lookahead@ != old(items)@[pos as int].lookahead@),
        state_map(final(items)@) == state_map(old(items)@).insert(
            old(items)@[pos as int].lr0,
            old(items)@[pos as int].lookahead@.union(fs@),
        ),
        !ch ==> state_map(final(items)@) == state_map(old(items)@),
        total_count(la_seq(final(items)@)) + bit_count(&old(items)@[pos as int].lookahead)
            == total_count(la_seq(old(items)@)) + bit_count(
            &final(items)@[pos as int].lookahead,
        ),
        bit_count(&old(items)@[pos as int].lookahead) <= bit_count(
            &final(items)@[pos as int].lookahead,
        ),
        ch ==> bit_count(&old(items)@[pos as int].lookahead) < bit_count(
            &final(items)@[pos as int].lookahead,
        ),
{
    let ghost oldi = items@;
    let mut el = items.remove(pos);
    let ghost oldla = el.lookahead;
    let ch = el.lookahead.or(fs);
    proof {
        lemma_bit_count_subset(&oldla, &el.lookahead);
        if !ch {
            lemma_bit_count_subset(&el.lookahead, &oldla);
        }
    }
    items.insert(pos, el);
    proof {
        assert(items@ =~= oldi.update(pos as int, el));
        lemma_state_map_update(oldi, pos as int, el);
        assert forall|t: int| 0 <= t < items@.len() implies item_wf(
            g,
            (#[trigger] items@[t]).lr0,
        ) && items@[t].lookahead.width() == g.token_num() by {
            if t != pos as int {
                assert(items@[t] == oldi[t]);
            }
        }
        assert(la_seq(items@) =~= la_seq(oldi).update(pos as int, el.lookahead));
        lemma_total_count_update(la_seq(oldi), pos as int, el.lookahead);
        assert(la_seq(oldi)[pos as int] == oldla);
        let newm = state_map(items@);
        let oldm = state_map(oldi);
        assert(newm == oldm.insert(oldi[pos as int].lr0, el.lookahead@));
        if !ch {
            assert(el.lookahead@ == oldla@);
            assert(newm =~= oldm);
        }
    }
    ch
}

/// Phase three of the closure: propagate lookaheads over the fixed item
/// list until no lookahead grows.  On exit every expansion demand is met.
fn propagate(
    ctx: &Lr1Ctx,
    g: &Grammar,
    items: Vec<Lr1Item>,
    Ghost(kern): Ghost<Map<Lr0Item, Set<int>>>,
    Ghost(nn): Ghost<Set<int>>,
) -> (r: Vec<Lr1Item>)
    requires
        g.wf(),
        ctx.wf(g),
        sorted_keys(items@),
        items_wf(g, items@),
        map_le(kern, state_map(items@)),
        map_just(g, ctx.fv(), kern, state_map(items@)),
        forall|k: Lr0Item| #[trigger] state_map(items@).dom().contains(k) ==> kern.dom().contains(
            k,
        ) || k.dot == 0,
        forall|t: int| 0 <= t < items@.len() && dot_before_nt(g, (#[trigger] items@[t]).lr0)
            ==> nn.contains(dot_sym(g, items@[t].lr0)),
        forall|q: int| 0 <= q < g.prod_num() && nn.contains(#[trigger] g.lhs_of(q))
            ==> has_key(items@, Lr0Item { prod_id: q as u32, dot: 0 }),
    ensures
        sorted_keys(r@),
        items_wf(g, r@),
        r@.len() == items@.len(),
        map_le(kern, state_map(r@)),
        map_just(g, ctx.fv(), kern, state_map(r@)),
        closure_closed(g, ctx.fv(), state_map(r@)),
        forall|k: Lr0Item| #[trigger] state_map(r@).dom().contains(k) ==> kern.dom().contains(k)
            || k.dot == 0,
{
    let ghost fv = ctx.fv();
    let ghost item_len = items@.len() as int;
    let mut items = items;
    proof {
        lemma_la_widths(g, items@);
        lemma_total_count_le(la_seq(items@), g.token_num() as nat);
    }
    let mut changed = true;
    while changed
        invariant
            g.wf(),
            ctx.wf(g),
            fv == ctx.fv(),
            sorted_keys(items@),
            items_wf(g, items@),
            items@.len() == item_len,
            map_le(kern, state_map(items@)),
            map_just(g, fv, kern, state_map(items@)),
            forall|k: Lr0Item| #[trigger] state_map(items@).dom().contains(k)
                ==> kern.dom().contains(k) || k.dot == 0,
            forall|t: int| 0 <= t < items@.len() && dot_before_nt(
                g,
                (#[trigger] items@[t]).lr0,
            ) ==> nn.contains(dot_sym(g, items@[t].lr0)),
            forall|q2: int| 0 <= q2 < g.prod_num() && nn.contains(#[trigger] g.lhs_of(q2))
                ==> has_key(items@, Lr0Item { prod_id: q2 as u32, dot: 0 }),
            total_count(la_seq(items@)) <= item_len * (g.token_num() as nat),
            !changed ==> forall|t: int| 0 <= t < items@.len() ==> item_demands_met(
                g,
                fv,
                state_map(items@),
                (#[trigger] items@[t]).lr0,
            ),
        decreases
                item_len * (g.token_num() as nat) + 1 - total_count(la_seq(items@)),
                (if changed { 1int } else { 0int }),
    {
        let ghost pass_start = total_count(la_seq(items@));
        changed = false;
        let mut i: usize = 0;
        while i < items.len()
            invariant
                g.wf(),
                ctx.wf(g),
                fv == ctx.fv(),
                sorted_keys(items@),
                items_wf(g, items@),
                items@.len() == item_len,
                i <= items@.len(),
                map_le(kern, state_map(items@)),
                map_just(g, fv, kern, state_map(items@)),
                forall|k: Lr0Item| #[trigger] state_map(items@).dom().contains(k)
                    ==> kern.dom().contains(k) || k.dot == 0,
                forall|t: int| 0 <= t < items@.len() && dot_before_nt(
                    g,
                    (#[trigger] items@[t]).lr0,
                ) ==> nn.contains(dot_sym(g, items@[t].lr0)),
                forall|q2: int| 0 <= q2 < g.prod_num() && nn.contains(#[trigger] g.lhs_of(q2))
                    ==> has_key(items@, Lr0Item { prod_id: q2 as u32, dot: 0 }),
                total_count(la_seq(items@)) >= pass_start,
                changed ==> total_count(la_seq(items@)) > pass_start,
                !changed ==> forall|t: int| 0 <= t < i ==> item_demands_met(
                    g,
                    fv,
                    state_map(items@),
                    (#[trigger] items@[t]).lr0,
                ),
            decreases items@.len() - i,
        {
            let cur_key = items[i].lr0;
            proof {
                assert(item_wf(g, cur_key));
            }
            let rhs_len = g.prods[cur_key.prod_id as usize].rhs.len();
            if (cur_key.dot as usize) < rhs_len {
                let x = g.prods[cur_key.prod_id as usize].rhs[cur_key.dot as usize];
                proof {
                    assert(g.rhs_of(cur_key.prod_id as int)[cur_key.dot as int] == x);
                }
                if x < g.nt_num {
                    let ghost pre = items@;
                    propagate_item(ctx, g, &mut items, i, Ghost(kern), Ghost(nn), &mut changed, Ghost(pass_start));
                    proof {
                        assert forall|t: int| 0 <= t < items@.len() && dot_before_nt(
                            g,
                            (#[trigger] items@[t]).lr0,
                        ) implies nn.contains(dot_sym(g, items@[t].lr0)) by {
                            assert(items@[t].lr0 == pre[t].lr0);
                        }
                        assert forall|q2: int| 0 <= q2 < g.prod_num() && nn.contains(
                            #[trigger] g.lhs_of(q2),
                        ) implies has_key(items@, Lr0Item { prod_id: q2 as u32, dot: 0 }) by {
                            let kq = Lr0Item { prod_id: q2 as u32, dot: 0 };
                            assert(has_key(pre, kq));
                            let w = choose|w: int|
                                0 <= w < pre.len() && (#[trigger] pre[w]).lr0 == kq;
                            assert(items@[w].lr0 == kq);
                        }
                    }
                } else {
                    proof {
                        assert(!dot_before_nt(g, cur_key));
                    }
                }
            } else {
                proof {
                    assert(!dot_before_nt(g, cur_key));
                }
            }
            proof {
                if !changed {
                    assert forall|t: int| 0 <= t < i + 1 implies item_demands_met(
                        g,
                        fv,
                        state_map(items@),
                        (#[trigger] items@[t]).lr0,
                    ) by {
                        if t == i as int {
                            assert(items@[t].lr0 == cur_key);
                        }
                    }
                }
            }
            i += 1;
        }
        proof {
            lemma_la_widths(g, items@);
            lemma_total_count_le(la_seq(items@), g.token_num() as nat);
        }
    }
    proof {
        let m = state_map(items@);
        assert forall|k: Lr0Item| #[trigger] m.dom().contains(k) implies item_wf(g, k)
            && item_demands_met(g, fv, m, k) by {
            lemma_index_of(items@, k);
            let t = index_of(items@, k);
            assert(items@[t].lr0 == k);
            assert(item_demands_met(g, fv, m, items@[t].lr0));
        }
    }
    items
}

/// One step of the propagation: push the induced lookahead of the item at
/// `i` (whose dot is before a non-terminal) into the initial items of that
/// non-terminal's productions.
#[verifier::rlimit(100)]
fn propagate_item(
    ctx: &Lr1Ctx,
    g: &Grammar,
    items: &mut Vec<Lr1Item>,
    i: usize,
    Ghost(kern): Ghost<Map<Lr0Item, Set<int>>>,
    Ghost(nn): Ghost<Set<int>>,
    changed: &mut bool,
    Ghost(pass_start): Ghost<nat>,
)
    requires
        g.wf(),
        ctx.wf(g),
        sorted_keys(old(items)@),
        items_wf(g, old(items)@),
        i < old(items)@.len(),
        dot_before_nt(g, old(items)@[i as int].lr0),
        map_le(kern, state_map(old(items)@)),
        map_just(g, ctx.fv(), kern, state_map(old(items)@)),
        forall|k: Lr0Item| #[trigger] state_map(old(items)@).dom().contains(k)
            ==> kern.dom().contains(k) || k.dot == 0,
        forall|t: int| 0 <= t < old(items)@.len() && dot_before_nt(
            g,
            (#[trigger] old(items)@[t]).lr0,
        ) ==> nn.contains(dot_sym(g, old(items)@[t].lr0)),
        forall|q: int| 0 <= q < g.prod_num() && nn.contains(#[trigger] g.lhs_of(q))
            ==> has_key(old(items)@, Lr0Item { prod_id: q as u32, dot: 0 }),
        total_count(la_seq(old(items)@)) >= pass_start,
        *old(changed) ==> total_count(la_seq(old(items)@)) > pass_start,
    ensures
        sorted_keys(final(items)@),
        items_wf(g, final(items)@),
        final(items)@.len() == old(items)@.len(),
        forall|t: int| 0 <= t < final(items)@.len() ==> (#[trigger] final(items)@[t]).lr0
            == old(items)@[t].lr0,
        map_le(kern, state_map(final(items)@)),
        map_just(g, ctx.fv(), kern, state_map(final(items)@)),
        forall|k: Lr0Item| #[trigger] state_map(final(items)@).dom().contains(k)
            ==> kern.dom().contains(k) || k.dot == 0,
        total_count(la_seq(final(items)@)) >= pass_start,
        *final(changed) ==> total_count(la_seq(final(items)@)) > pass_start,
        !*final(changed) ==> *old(changed) == false && state_map(final(items)@) == state_map(
            old(items)@,
        ) && item_demands_met(
            g,
            ctx.fv(),
            state_map(final(items)@),
            final(items)@[i as int].lr0,
        ),
{
    let ghost fv = ctx.fv();
    let ghost item_len = old(items)@.len() as int;
    let cur_key = items[i].lr0;
    proof {
        assert(item_wf(g, cur_key));
        assert(has_key(items@, cur_key)) by {
            assert(items@[i as int].lr0 == cur_key);
        }
        lemma_index_of(items@, cur_key);
    }
    let x = g.prods[cur_key.prod_id as usize].rhs[cur_key.dot as usize];
    proof {
        assert(g.rhs_of(cur_key.prod_id as int)[cur_key.dot as int] == x);
        assert(g.is_nt(x as int));
        assert(nn.contains(x as int));
        lemma_rhs_in_range(g, cur_key.prod_id as int);
        assert forall|j: int| 0 <= j < g.prods@[cur_key.prod_id as int].rhs@.len()
            implies g.is_nt(#[trigger] g.prods@[cur_key.prod_id as int].rhs@[j] as int)
            || g.is_term(g.prods@[cur_key.prod_id as int].rhs@[j] as int) by {
            assert(g.prods@[cur_key.prod_id as int].rhs@[j] == g.rhs_of(
                cur_key.prod_id as int,
            )[j]);
        }
    }
    let cur_la = items[i].lookahead.duplicate();
    let fs = ctx.first(&g.prods[cur_key.prod_id as usize].rhs, cur_key.dot as usize + 1, &cur_la, g);
    let ghost beta = g.rhs_of(cur_key.prod_id as int).skip(cur_key.dot + 1);
    proof {
        assert(fs@ == first_with_fallback(g, fv, beta, cur_la@));
        assert(cur_la@ == la_of(items@, cur_key));
    }
    let mut q: usize = 0;
    while q < g.prods.len()
        invariant
            g.wf(),
            ctx.wf(g),
            fv == ctx.fv(),
            sorted_keys(items@),
            items_wf(g, items@),
            items@.len() == item_len,
            i < items@.len(),
            q <= g.prods@.len(),
            map_le(kern, state_map(items@)),
            map_just(g, fv, kern, state_map(items@)),
            forall|k: Lr0Item| #[trigger] state_map(items@).dom().contains(k)
                ==> kern.dom().contains(k) || k.dot == 0,
            forall|t: int| 0 <= t < items@.len() ==> (#[trigger] items@[t]).lr0 == old(
                items,
            )@[t].lr0,
            forall|q2: int| 0 <= q2 < g.prod_num() && nn.contains(#[trigger] g.lhs_of(q2))
                ==> has_key(items@, Lr0Item { prod_id: q2 as u32, dot: 0 }),
            nn.contains(x as int),
            item_wf(g, cur_key),
            cur_key.dot < g.rhs_of(cur_key.prod_id as int).len(),
            x == g.rhs_of(cur_key.prod_id as int)[cur_key.dot as int],
            g.is_nt(x as int),
            beta == g.rhs_of(cur_key.prod_id as int).skip(cur_key.dot + 1),
            fs.width() == g.token_num(),
            fs@ == first_with_fallback(g, fv, beta, cur_la@),
            items@[i as int].lr0 == cur_key,
            has_key(items@, cur_key),
            cur_la@.subset_of(la_of(items@, cur_key)),
            total_count(la_seq(items@)) >= pass_start,
            *changed ==> total_count(la_seq(items@)) > pass_start,
            !*changed ==> *old(changed) == false && state_map(items@) == state_map(
                old(items)@,
            ) && cur_la@ == la_of(items@, cur_key),
            !*changed ==> forall|q2: int|
                0 <= q2 < q && #[trigger] g.lhs_of(q2) == x as int ==> {
                    let kq = Lr0Item { prod_id: q2 as u32, dot: 0 };
                    has_key(items@, kq) && fs@.subset_of(la_of(items@, kq))
                },
        decreases g.prods@.len() - q,
    {
        let lhsq = g.prods[q].lhs;
        proof {
            assert(g.lhs_of(q as int) == lhsq as int);
        }
        if lhsq == x {
            let k2 = Lr0Item { prod_id: q as u32, dot: 0 };
            proof {
                assert(has_key(items@, k2));
            }
            let (found, pos) = find_key(&items, k2);
            if found {
                let ghost oldi = items@;
                let ch = or_into(items, pos, &fs, g);
                if ch {
                    *changed = true;
                }
                proof {
                    let newm = state_map(items@);
                    let oldm = state_map(oldi);
                    assert(newm == oldm.insert(k2, oldi[pos as int].lookahead@.union(fs@)));
                    // everything added is forced in every closed map above
                    // the kernel
                    assert forall|m2: Map<Lr0Item, Set<int>>|
                        #[trigger] closure_closed(g, fv, m2) && map_le(kern, m2)
                        implies map_le(newm, m2) by {
                        assert(map_le(oldm, m2));
                        assert(oldm.dom().contains(cur_key));
                        assert(m2.dom().contains(cur_key));
                        assert(oldm[cur_key] == la_of(oldi, cur_key));
                        assert(cur_la@.subset_of(oldm[cur_key]));
                        assert(oldm[cur_key].subset_of(m2[cur_key]));
                        assert(cur_la@.subset_of(m2[cur_key]));
                        crate::first::lemma_first_fallback_monotone(g, fv, beta, cur_la@, m2[cur_key]);
                        assert(item_demands_met(g, fv, m2, cur_key));
                        assert(first_with_fallback(g, fv, beta, m2[cur_key]).subset_of(m2[k2]));
                        assert(fs@.subset_of(m2[k2]));
                        assert(oldm.dom().contains(k2));
                        assert(oldm[k2].subset_of(m2[k2]));
                        assert forall|k: Lr0Item| newm.dom().contains(k) implies m2
                            .dom().contains(k) && (#[trigger] newm[k]).subset_of(m2[k]) by {
                            if k != k2 {
                                assert(oldm.dom().contains(k));
                                assert(newm[k] == oldm[k]);
                            }
                        }
                    }
                    assert(map_le(kern, newm)) by {
                        assert forall|k: Lr0Item| kern.dom().contains(k) implies newm
                            .dom().contains(k) && (#[trigger] kern[k]).subset_of(newm[k]) by {
                            assert(oldm.dom().contains(k));
                            assert(kern[k].subset_of(oldm[k]));
                            if k != k2 {
                                assert(newm[k] == oldm[k]);
                            }
                        }
                    }
                    assert forall|k: Lr0Item| #[trigger] newm.dom().contains(k) implies kern
                        .dom().contains(k) || k.dot == 0 by {
                        assert(oldm.dom().contains(k));
                    }
                    assert forall|q2: int| 0 <= q2 < g.prod_num() && nn.contains(
                        #[trigger] g.lhs_of(q2),
                    ) implies has_key(items@, Lr0Item { prod_id: q2 as u32, dot: 0 }) by {
                        let kq = Lr0Item { prod_id: q2 as u32, dot: 0 };
                        assert(has_key(oldi, kq));
                        let w = choose|w: int|
                            0 <= w < oldi.len() && (#[trigger] oldi[w]).lr0 == kq;
                        assert(items@[w].lr0 == kq);
                    }
                    assert(cur_la@.subset_of(la_of(items@, cur_key))) by {
                        lemma_index_of(items@, cur_key);
                        lemma_index_of(oldi, cur_key);
                        let t = index_of(items@, cur_key);
                        assert(items@[t].lookahead@ == newm[cur_key]);
                        assert(la_of(oldi, cur_key) == oldm[cur_key]);
                        if cur_key == k2 {
                            assert(newm[cur_key] == oldm[cur_key].union(fs@));
                        } else {
                            assert(newm[cur_key] == oldm[cur_key]);
                        }
                    }
                    if !ch {
                        assert(state_map(items@) == state_map(oldi));
                        assert(fs@.subset_of(la_of(items@, k2))) by {
                            lemma_index_of(items@, k2);
                            let t = index_of(items@, k2);
                            assert(items@[t].lookahead@ == newm[k2]);
                            assert(newm[k2] == oldi[pos as int].lookahead@.union(fs@));
                        }
                    }
                    if !*changed {
                        assert(cur_la@ == la_of(items@, cur_key));
                        assert forall|q2: int|
                            0 <= q2 < q + 1 && #[trigger] g.lhs_of(q2) == x as int implies {
                            let kq = Lr0Item { prod_id: q2 as u32, dot: 0 };
                            has_key(items@, kq) && fs@.subset_of(la_of(items@, kq))
                        } by {
                            let kq = Lr0Item { prod_id: q2 as u32, dot: 0 };
                            if q2 == q as int {
                            } else {
                                assert(has_key(oldi, kq) && fs@.subset_of(la_of(oldi, kq)));
                                assert(state_map(items@) == state_map(oldi));
                                assert(la_of(items@, kq) == state_map(items@)[kq]);
                                assert(la_of(oldi, kq) == state_map(oldi)[kq]);
                            }
                        }
                    }
                }
            } else {
                proof {
                    assert(false);
                }
            }
        }
        q += 1;
    }
    proof {
        if !*changed {
            assert(item_demands_met(g, fv, state_map(items@), cur_key)) by {
                lemma_index_of(items@, cur_key);
                assert(state_map(items@)[cur_key] == la_of(items@, cur_key));
                assert forall|q2: int|
                    0 <= q2 < g.prod_num() && #[trigger] g.lhs_of(q2) == x as int implies {
                    let kq = Lr0Item { prod_id: q2 as u32, dot: 0 };
                    &&& state_map(items@).dom().contains(kq)
                    &&& first_with_fallback(g, fv, beta, state_map(items@)[cur_key]).subset_of(
                        state_map(items@)[kq],
                    )
                } by {
                    let kq = Lr0Item { prod_id: q2 as u32, dot: 0 };
                    assert(has_key(items@, kq));
                    assert(fs@.subset_of(la_of(items@, kq)));
                    assert(state_map(items@)[kq] == la_of(items@, kq));
                }
            }
        }
    }
}

/// The lookahead sequence of a well-formed state has full widths.
proof fn lemma_la_widths(g: &Grammar, s: Seq<Lr1Item>)
    requires
        items_wf(g, s),
    ensures
        forall|i: int| 0 <= i < la_seq(s).len() ==> (#[trigger] la_seq(s)[i]).width()
            == g.token_num() as nat,
{
    assert forall|i: int| 0 <= i < la_seq(s).len() implies (#[trigger] la_seq(s)[i]).width()
        == g.token_num() as nat by {
        assert(la_seq(s)[i] == s[i].lookahead);
    }
}


/// The dot of the item sits on symbol `mov`.
pub open spec fn dot_on(g: &Grammar, k: Lr0Item, mov: u32) -> bool {
    k.dot < g.rhs_of(k.prod_id as int).len() && g.rhs_of(k.prod_id as int)[k.dot as int] == mov
}

/// The item with the dot moved back by one.
pub open spec fn unshift(k: Lr0Item) -> Lr0Item {
    Lr0Item { prod_id: k.prod_id, dot: (k.dot - 1) as u32 }
}

/// The item with the dot advanced by one.
pub open spec fn shift_key(k: Lr0Item) -> Lr0Item {
    Lr0Item { prod_id: k.prod_id, dot: (k.dot + 1) as u32 }
}

/// The kernel of the transition of `m` on `mov`: every item with its dot on
/// `mov`, advanced by one, with its lookahead kept.
pub open spec fn shifted_map(
    g: &Grammar,
    m: Map<Lr0Item, Set<int>>,
    mov: u32,
) -> Map<Lr0Item, Set<int>> {
    Map::new(
        |k: Lr0Item|
            k.dot >= 1 && m.dom().contains(unshift(k)) && dot_on(g, unshift(k), mov),
        |k: Lr0Item| m[unshift(k)],
    )
}

} // verus!
