//! The target-agnostic side of code emission: the semantic-type index and
//! the packed artifact that a language-specific emitter consumes.
//!
//! Template expansion itself is an outside concern; what is assembled here
//! is the §-style artifact: flat action and goto tables (one resolved
//! action per cell, error as the default), production metadata
//! `(lhs, rhs_len, precedence)`, and the minimum unsigned widths needed to
//! index each dimension.

use vstd::prelude::*;
use crate::conflict::{Act, TableEntry};
use crate::grammar::Grammar;

verus! {

/// Configuration of the Rust emitter; the emitter itself lives with the
/// unverified template code.
pub struct RustCodegen {
    pub log_token: bool,
    pub log_reduce: bool,
    pub use_unsafe: bool,
    pub show_token_prod: bool,
}

/// The minimum unsigned width (in bits: 8, 16 or 32) that can index a
/// dimension of `x` entries.
pub open spec fn min_u_spec(x: int) -> int {
    if x <= 0x100 {
        8
    } else if x <= 0x1_0000 {
        16
    } else {
        32
    }
}

pub fn min_u(x: u32) -> (r: u32)
    ensures
        r == min_u_spec(x as int),
{
    if x <= 0x100 {
        8
    } else if x <= 0x1_0000 {
        16
    } else {
        32
    }
}

impl RustCodegen {
    /// Deduplicate the semantic value types of the non-terminals, in
    /// order of first occurrence, and map each non-terminal to its
    /// type's dense index.
    pub fn gather_types(&self, g: &Grammar) -> (r: (Vec<String>, Vec<u32>))
        requires
            g.wf(),
        ensures
            r.1@.len() == g.nt_num,
            r.0@.len() <= g.nt_num,
            forall|i: int| 0 <= i < r.1@.len() ==> (#[trigger] r.1@[i] as int) < r.0@.len()
                && r.0@[r.1@[i] as int]@ == g.nt_types@[i]@,
            forall|a: int, b: int| 0 <= a < b < r.0@.len() ==> (#[trigger] r.0@[a])@ != (
            #[trigger] r.0@[b])@,
            forall|i: int, i2: int|
                #![trigger r.1@[i], r.1@[i2]]
                0 <= i2 < i < r.1@.len() && g.nt_types@[i2]@ == g.nt_types@[i]@ ==> r.1@[i2]
                    == r.1@[i],
            forall|i: int, i2: int|
                #![trigger r.1@[i], r.1@[i2]]
                0 <= i2 < i < r.1@.len() && (forall|i3: int|
                    0 <= i3 < i ==> (#[trigger] g.nt_types@[i3])@ != g.nt_types@[i]@)
                    ==> r.1@[i2] < r.1@[i],
    {
        let mut types: Vec<String> = Vec::new();
        let mut ids: Vec<u32> = Vec::new();
        // witness map: occ[w] is a non-terminal whose id is type index w
        let ghost mut occ: Seq<int> = Seq::empty();
        let mut i: usize = 0;
        while i < g.nt_types.len()
            invariant
                g.wf(),
                i <= g.nt_types@.len(),
                ids@.len() == i,
                types@.len() <= i,
                g.nt_types@.len() <= 0xFFFF_FFFF,
                i <= 0xFFFF_FFFF,
                forall|k: int| 0 <= k < ids@.len() ==> (#[trigger] ids@[k] as int)
                    < types@.len() && types@[ids@[k] as int]@ == g.nt_types@[k]@,
                forall|a: int, b: int| 0 <= a < b < types@.len() ==> (#[trigger] types@[a])@
                    != (#[trigger] types@[b])@,
                forall|k: int, k2: int|
                    #![trigger ids@[k], ids@[k2]]
                    0 <= k2 < k < ids@.len() && g.nt_types@[k2]@ == g.nt_types@[k]@
                        ==> ids@[k2] == ids@[k],
                forall|k: int, k2: int|
                    #![trigger ids@[k], ids@[k2]]
                    0 <= k2 < k < ids@.len() && (forall|k3: int|
                        0 <= k3 < k ==> (#[trigger] g.nt_types@[k3])@ != g.nt_types@[k]@)
                        ==> ids@[k2] < ids@[k],
                occ.len() == types@.len(),
                forall|w: int| 0 <= w < occ.len() ==> 0 <= #[trigger] occ[w] < ids@.len()
                    && ids@[occ[w]] as int == w,
            decreases g.nt_types@.len() - i,
        {
            let ty = &g.nt_types[i];
            let mut k: usize = 0;
            let mut found = false;
            let mut id: u32 = 0;
            while k < types.len() && !found
                invariant
                    k <= types@.len(),
                    types@.len() <= i,
                    i <= 0xFFFF_FFFF,
                    i < g.nt_types@.len(),
                    ty == &g.nt_types@[i as int],
                    !found ==> forall|a: int| 0 <= a < k ==> (#[trigger] types@[a])@ != ty@,
                    found ==> (id as int) < types@.len() && types@[id as int]@ == ty@,
                decreases types@.len() - k,
            {
                if types[k] == *ty {
                    found = true;
                    id = k as u32;
                }
                k += 1;
            }
            if found {
                let ghost oldids = ids@;
                ids.push(id);
                proof {
                    // an earlier occurrence of the same type got the same
                    // id, since ids point at a duplicate-free type list
                    assert forall|k: int, k2: int|
                        #![trigger ids@[k], ids@[k2]]
                        0 <= k2 < k < ids@.len() && g.nt_types@[k2]@ == g.nt_types@[k]@
                        implies ids@[k2] == ids@[k] by {
                        if k < oldids.len() {
                            assert(ids@[k] == oldids[k] && ids@[k2] == oldids[k2]);
                        } else {
                            assert(ids@[k] == id);
                            assert(ids@[k2] == oldids[k2]);
                            assert(types@[oldids[k2] as int]@ == g.nt_types@[k2]@);
                            assert(types@[id as int]@ == g.nt_types@[k as int]@);
                            if oldids[k2] != id {
                                if oldids[k2] < id {
                                    assert(types@[oldids[k2] as int]@ != types@[id as int]@);
                                } else {
                                    assert(types@[id as int]@ != types@[oldids[k2] as int]@);
                                }
                            }
                        }
                    }
                    // this occurrence is not the first of its type
                    assert forall|k: int, k2: int|
                        #![trigger ids@[k], ids@[k2]]
                        0 <= k2 < k < ids@.len() && (forall|k3: int|
                            0 <= k3 < k ==> (#[trigger] g.nt_types@[k3])@ != g.nt_types@[k]@)
                        implies ids@[k2] < ids@[k] by {
                        if k < oldids.len() {
                            assert(ids@[k] == oldids[k] && ids@[k2] == oldids[k2]);
                        } else {
                            // impossible: the type was found in the list,
                            // so some earlier non-terminal carries it
                            assert(false) by {
                                let k0 = occ[id as int];
                                assert(oldids[k0] as int == id);
                                assert(types@[oldids[k0] as int]@ == g.nt_types@[k0]@);
                                assert(g.nt_types@[k0]@ == ty@);
                            }
                        }
                    }
                    // the witness map still points at the same ids
                    assert forall|w: int| 0 <= w < occ.len() implies 0 <= #[trigger] occ[w]
                        < ids@.len() && ids@[occ[w]] as int == w by {
                        assert(ids@[occ[w]] == oldids[occ[w]]);
                    }
                }
            } else {
                let ghost oldt = types@;
                types.push(ty.clone());
                let ghost oldids = ids@;
                ids.push((types.len() - 1) as u32);
                proof {
                    assert(types@[types@.len() - 1]@ == ty@);
                    let newid = (types@.len() - 1) as u32;
                    assert forall|k: int, k2: int|
                        #![trigger ids@[k], ids@[k2]]
                        0 <= k2 < k < ids@.len() && g.nt_types@[k2]@ == g.nt_types@[k]@
                        implies ids@[k2] == ids@[k] by {
                        if k < oldids.len() {
                            assert(ids@[k] == oldids[k] && ids@[k2] == oldids[k2]);
                        } else {
                            // impossible: no earlier type equals this one
                            assert(ids@[k2] == oldids[k2]);
                            assert(types@[oldids[k2] as int]@ == g.nt_types@[k2]@);
                            assert((oldids[k2] as int) < types@.len() - 1);
                            assert(types@[oldids[k2] as int]@ != ty@);
                        }
                    }
                    assert forall|k: int, k2: int|
                        #![trigger ids@[k], ids@[k2]]
                        0 <= k2 < k < ids@.len() && (forall|k3: int|
                            0 <= k3 < k ==> (#[trigger] g.nt_types@[k3])@ != g.nt_types@[k]@)
                        implies ids@[k2] < ids@[k] by {
                        if k < oldids.len() {
                            assert(ids@[k] == oldids[k] && ids@[k2] == oldids[k2]);
                        } else {
                            assert(ids@[k] == newid);
                            assert(ids@[k2] == oldids[k2]);
                            assert((oldids[k2] as int) < types@.len() - 1);
                        }
                    }
                    occ = occ.push(ids@.len() - 1);
                    assert forall|w: int| 0 <= w < occ.len() implies 0 <= #[trigger] occ[w]
                        < ids@.len() && ids@[occ[w]] as int == w by {
                        if w < occ.len() - 1 {
                            assert(occ[w] == occ.drop_last()[w]);
                            assert(ids@[occ[w]] == oldids[occ[w]]);
                        } else {
                            assert(occ[w] == ids@.len() - 1);
                        }
                    }
                    assert forall|a: int, b: int|
                        0 <= a < b < types@.len() implies (#[trigger] types@[a])@ != (
                    #[trigger] types@[b])@ by {
                        if b < oldt.len() {
                            assert(types@[a] == oldt[a] && types@[b] == oldt[b]);
                        } else {
                            assert(types@[a] == oldt[a]);
                            assert(types@[b]@ == ty@);
                        }
                    }
                }
            }
            i += 1;
        }
        (types, ids)
    }
}

/// The longest right-hand side among the first `n` productions.
pub open spec fn max_rhs_upto(g: &Grammar, n: int) -> int
    decreases n,
{
    if n <= 0 {
        0
    } else {
        let m = max_rhs_upto(g, n - 1);
        if g.rhs_of(n - 1).len() > m {
            g.rhs_of(n - 1).len() as int
        } else {
            m
        }
    }
}

/// The packed, target-agnostic LR artifact: one resolved action per
/// (state, terminal) cell with error as the default, the goto table, the
/// production metadata, and the width hints.
pub struct LrArtifact {
    pub fsm_size: u32,
    pub term_num: u32,
    pub nt_num: u32,
    pub action: Vec<Vec<Act>>,
    pub goto_tbl: Vec<Vec<Option<u32>>>,
    pub prods: Vec<(u32, u32, Option<u32>)>,
    pub u_fsm: u32,
    pub u_prod_len: u32,
}

/// Pack a resolved table into the flat artifact.  Every action cell of
/// the result is the single resolved action of the corresponding table
/// cell, or the error action where the cell is empty; the production
/// metadata records each production's head, length and effective
/// precedence row.
pub fn assemble_lalr(g: &Grammar, table: &Vec<TableEntry>) -> (r: LrArtifact)
    requires
        g.wf(),
        table@.len() <= 0xFFFF_FFFF,
        forall|i: int| 0 <= i < table@.len() ==> (#[trigger] table@[i]).act@.len()
            == g.term_num,
        forall|i: int, t: int|
            #![trigger table@[i].act@[t]]
            0 <= i < table@.len() && 0 <= t < g.term_num ==> table@[i].act@[t]@.len() <= 1,
    ensures
        r.fsm_size == table@.len(),
        r.term_num == g.term_num,
        r.nt_num == g.nt_num,
        r.u_fsm == min_u_spec(table@.len() as int),
        r.u_prod_len == min_u_spec(max_rhs_upto(g, g.prod_num())),
        r.action@.len() == table@.len(),
        r.goto_tbl@.len() == table@.len(),
        forall|i: int| 0 <= i < table@.len() ==> (#[trigger] r.action@[i])@.len() == g.term_num
            && r.goto_tbl@[i]@ == table@[i].goto_@,
        forall|i: int, t: int|
            #![trigger r.action@[i]@[t]]
            0 <= i < table@.len() && 0 <= t < g.term_num ==> r.action@[i]@[t] == (
            if table@[i].act@[t]@.len() == 1 {
                table@[i].act@[t]@[0]
            } else {
                Act::Error
            }),
        r.prods@.len() == g.prod_num(),
        forall|p: int| 0 <= p < g.prod_num() ==> #[trigger] r.prods@[p] == (
            g.prods@[p].lhs,
            g.rhs_of(p).len() as u32,
            (match g.prod_prec(p) {
                Some(w) => Some(w as u32),
                None => None::<u32>,
            }),
        ),
{
    let mut action: Vec<Vec<Act>> = Vec::new();
    let mut goto_tbl: Vec<Vec<Option<u32>>> = Vec::new();
    let mut i: usize = 0;
    while i < table.len()
        invariant
            g.wf(),
            i <= table@.len(),
            action@.len() == i,
            goto_tbl@.len() == i,
            forall|i2: int| 0 <= i2 < table@.len() ==> (#[trigger] table@[i2]).act@.len()
                == g.term_num,
            forall|i2: int, t: int|
                #![trigger table@[i2].act@[t]]
                0 <= i2 < table@.len() && 0 <= t < g.term_num ==> table@[i2].act@[t]@.len()
                    <= 1,
            forall|i2: int| 0 <= i2 < i ==> (#[trigger] action@[i2])@.len() == g.term_num
                && goto_tbl@[i2]@ == table@[i2].goto_@,
            forall|i2: int, t: int|
                #![trigger action@[i2]@[t]]
                0 <= i2 < i && 0 <= t < g.term_num ==> action@[i2]@[t] == (
                if table@[i2].act@[t]@.len() == 1 {
                    table@[i2].act@[t]@[0]
                } else {
                    Act::Error
                }),
        decreases table@.len() - i,
    {
        let entry = &table[i];
        let mut row: Vec<Act> = Vec::new();
        let mut t: usize = 0;
        while t < entry.act.len()
            invariant
                g.wf(),
                i < table@.len(),
                entry == &table@[i as int],
                entry.act@.len() == g.term_num,
                t <= entry.act@.len(),
                row@.len() == t,
                forall|t2: int| #![trigger row@[t2]] 0 <= t2 < t ==> row@[t2] == (
                if table@[i as int].act@[t2]@.len() == 1 {
                    table@[i as int].act@[t2]@[0]
                } else {
                    Act::Error
                }),
            decreases entry.act@.len() - t,
        {
            let cell = &entry.act[t];
            if cell.len() == 1 {
                row.push(cell[0]);
            } else {
                row.push(Act::Error);
            }
            t += 1;
        }
        let ghost olda = action@;
        let ghost oldg = goto_tbl@;
        action.push(row);
        goto_tbl.push(crate::conflict::copy_goto(&entry.goto_));
        proof {
            assert forall|i2: int| 0 <= i2 < i + 1 implies (#[trigger] action@[i2])@.len()
                == g.term_num && goto_tbl@[i2]@ == table@[i2].goto_@ by {
                if i2 < i as int {
                    assert(action@[i2] == olda[i2]);
                    assert(goto_tbl@[i2] == oldg[i2]);
                } else {
                    assert(action@[i2]@ == row@);
                }
            }
            assert forall|i2: int, t: int|
                #![trigger action@[i2]@[t]]
                0 <= i2 < i + 1 && 0 <= t < g.term_num implies action@[i2]@[t] == (
            if table@[i2].act@[t]@.len() == 1 {
                table@[i2].act@[t]@[0]
            } else {
                Act::Error
            }) by {
                if i2 < i as int {
                    assert(action@[i2] == olda[i2]);
                } else {
                    assert(action@[i2]@ == row@);
                }
            }
        }
        i += 1;
    }
    let mut prods: Vec<(u32, u32, Option<u32>)> = Vec::new();
    let mut maxlen: u32 = 0;
    let mut p: usize = 0;
    while p < g.prods.len()
        invariant
            g.wf(),
            p <= g.prods@.len(),
            prods@.len() == p,
            maxlen == max_rhs_upto(g, p as int),
            forall|p2: int| 0 <= p2 < p ==> #[trigger] prods@[p2] == (
                g.prods@[p2].lhs,
                g.rhs_of(p2).len() as u32,
                (match g.prod_prec(p2) {
                    Some(w) => Some(w as u32),
                    None => None::<u32>,
                }),
            ),
        decreases g.prods@.len() - p,
    {
        let lhs = g.prods[p].lhs;
        let len = g.prods[p].rhs.len() as u32;
        let prec = g.lookup_prod_prec(p);
        proof {
            assert(g.rhs_of(p as int).len() < 0x4000_0000);
        }
        if len > maxlen {
            maxlen = len;
        }
        prods.push((lhs, len, prec));
        p += 1;
    }
    let fsm_size = table.len() as u32;
    LrArtifact {
        fsm_size,
        term_num: g.term_num,
        nt_num: g.nt_num,
        action,
        goto_tbl,
        prods,
        u_fsm: min_u(fsm_size),
        u_prod_len: min_u(maxlen),
    }
}

} // verus!
