//! Parse actions and the conflict resolver.
//!
//! After action construction a cell may hold several candidate actions.
//! Resolution, per cell: an accept always stands; a shift/reduce pair is
//! decided by comparing the effective precedence of the reducing
//! production with the precedence of the incoming terminal, equal rows
//! falling back to the row's associativity (left reduces, right shifts,
//! non-associative drops both); reduce/reduce keeps the earliest-declared
//! production; a side without precedence keeps the shift as the default.
//! Every multi-action cell is reported, one conflict per (state,
//! terminal).  Resolution is idempotent: re-resolving a resolved table
//! changes nothing.

use vstd::prelude::*;
use crate::grammar::{Assoc, Grammar};

verus! {

#[derive(Clone, Copy, PartialEq, Eq, Structural, Debug)]
pub enum Act {
    Shift(u32),
    Reduce(u32),
    Acc,
    Error,
}

/// One action table row: candidate actions per terminal (indexed by
/// terminal offset, i.e. token id minus `nt_num`) and goto targets per
/// non-terminal.
pub struct TableEntry {
    pub act: Vec<Vec<Act>>,
    pub goto_: Vec<Option<u32>>,
}

/// A reported conflict: the cell it arose in.
#[derive(Clone, Copy, PartialEq, Eq, Structural, Debug)]
pub struct Conflict {
    pub state: u32,
    pub term: u32,
}

/// Conflicts ordered by state, then terminal.
pub open spec fn conflict_lt(a: Conflict, b: Conflict) -> bool {
    a.state < b.state || (a.state == b.state && a.term < b.term)
}

/// A strictly ascending conflict list: one report per (state, terminal)
/// cell, in table order.
pub open spec fn conflicts_ascending(cs: Seq<Conflict>) -> bool {
    forall|c1: int, c2: int| #![trigger cs[c1], cs[c2]]
        0 <= c1 < c2 < cs.len() ==> conflict_lt(cs[c1], cs[c2])
}

/// The earliest-declared reduction of the cell.
pub open spec fn min_reduce(cell: Seq<Act>) -> Option<u32>
    decreases cell.len(),
{
    if cell.len() == 0 {
        None
    } else {
        let rest = min_reduce(cell.drop_first());
        match cell[0] {
            Act::Reduce(p) => match rest {
                Some(p2) => if p <= p2 {
                    Some(p)
                } else {
                    Some(p2)
                },
                None => Some(p),
            },
            _ => rest,
        }
    }
}

/// The first shift of the cell.
pub open spec fn first_shift(cell: Seq<Act>) -> Option<u32>
    decreases cell.len(),
{
    if cell.len() == 0 {
        None
    } else {
        match cell[0] {
            Act::Shift(s) => Some(s),
            _ => first_shift(cell.drop_first()),
        }
    }
}

/// Whether the cell holds an accept.
pub open spec fn has_acc(cell: Seq<Act>) -> bool
    decreases cell.len(),
{
    if cell.len() == 0 {
        false
    } else {
        cell[0] == Act::Acc || has_acc(cell.drop_first())
    }
}

/// The resolved contents of one cell at terminal `t`: a cell with at
/// most one action stands; an accept wins; a shift against the earliest
/// reduction goes by precedence and associativity; reduce/reduce keeps
/// the earliest production.
pub open spec fn resolved_cell(g: &Grammar, t: int, cell: Seq<Act>) -> Seq<Act> {
    if cell.len() <= 1 {
        cell
    } else if has_acc(cell) {
        seq![Act::Acc]
    } else {
        match (first_shift(cell), min_reduce(cell)) {
            (Some(s), Some(p)) => match (g.prod_prec(p as int), g.term_row(t)) {
                (Some(pp), Some(tp)) => if pp > tp {
                    seq![Act::Reduce(p)]
                } else if tp > pp {
                    seq![Act::Shift(s)]
                } else {
                    match g.prio@[pp].assoc {
                        Assoc::Left => seq![Act::Reduce(p)],
                        Assoc::Right => seq![Act::Shift(s)],
                        Assoc::NoAssoc => Seq::<Act>::empty(),
                    }
                },
                _ => seq![Act::Shift(s)],
            },
            (Some(s), None) => seq![Act::Shift(s)],
            (None, Some(p)) => seq![Act::Reduce(p)],
            (None, None) => cell,
        }
    }
}

/// Conflict resolution is idempotent: a resolved cell resolves to itself.
pub proof fn lemma_resolve_idempotent(g: &Grammar, t: int, cell: Seq<Act>)
    ensures
        resolved_cell(g, t, resolved_cell(g, t, cell)) == resolved_cell(g, t, cell),
{
    let r = resolved_cell(g, t, cell);
    if cell.len() <= 1 {
    } else if r.len() <= 1 {
    } else {
        // a multi-action cell resolves to at most one action, except when
        // it holds neither shift nor reduce nor accept; such a cell is
        // all errors and resolves to itself again
        assert(first_shift(cell) is None && min_reduce(cell) is None && !has_acc(cell));
        assert(r == cell);
    }
}

/// Find the earliest-declared reduction of a cell.
fn scan_min_reduce(cell: &Vec<Act>) -> (r: Option<u32>)
    ensures
        r == min_reduce(cell@),
{
    let mut r: Option<u32> = None;
    let mut i: usize = cell.len();
    while i > 0
        invariant
            i <= cell@.len(),
            r == min_reduce(cell@.skip(i as int)),
        decreases i,
    {
        i = i - 1;
        proof {
            assert(cell@.skip(i as int)[0] == cell@[i as int]);
            assert(cell@.skip(i as int).drop_first() =~= cell@.skip(i + 1));
        }
        match cell[i] {
            Act::Reduce(p) => {
                r = match r {
                    Some(p2) => if p <= p2 {
                        Some(p)
                    } else {
                        Some(p2)
                    },
                    None => Some(p),
                };
            },
            _ => {},
        }
    }
    proof {
        assert(cell@.skip(0) =~= cell@);
    }
    r
}

/// Find the first shift of a cell.
fn scan_first_shift(cell: &Vec<Act>) -> (r: Option<u32>)
    ensures
        r == first_shift(cell@),
{
    let mut r: Option<u32> = None;
    let mut i: usize = cell.len();
    while i > 0
        invariant
            i <= cell@.len(),
            r == first_shift(cell@.skip(i as int)),
        decreases i,
    {
        i = i - 1;
        proof {
            assert(cell@.skip(i as int)[0] == cell@[i as int]);
            assert(cell@.skip(i as int).drop_first() =~= cell@.skip(i + 1));
        }
        match cell[i] {
            Act::Shift(s) => {
                r = Some(s);
            },
            _ => {},
        }
    }
    proof {
        assert(cell@.skip(0) =~= cell@);
    }
    r
}

/// Whether a cell holds an accept.
fn scan_has_acc(cell: &Vec<Act>) -> (r: bool)
    ensures
        r == has_acc(cell@),
{
    let mut r = false;
    let mut i: usize = cell.len();
    while i > 0
        invariant
            i <= cell@.len(),
            r == has_acc(cell@.skip(i as int)),
        decreases i,
    {
        i = i - 1;
        proof {
            assert(cell@.skip(i as int)[0] == cell@[i as int]);
            assert(cell@.skip(i as int).drop_first() =~= cell@.skip(i + 1));
        }
        match cell[i] {
            Act::Acc => {
                r = true;
            },
            _ => {},
        }
    }
    proof {
        assert(cell@.skip(0) =~= cell@);
    }
    r
}

/// Resolve one cell.
fn resolve_one(g: &Grammar, t: u32, cell: &Vec<Act>) -> (r: Vec<Act>)
    requires
        g.wf(),
        forall|i: int| 0 <= i < cell@.len() ==> (match #[trigger] cell@[i] {
            Act::Reduce(p) => p < g.prod_num(),
            _ => true,
        }),
    ensures
        r@ == resolved_cell(g, t as int, cell@),
{
    if cell.len() <= 1 {
        let mut out: Vec<Act> = Vec::new();
        if cell.len() == 1 {
            out.push(cell[0]);
        }
        proof {
            assert(out@ =~= cell@);
        }
        return out;
    }
    let mut out: Vec<Act> = Vec::new();
    if scan_has_acc(cell) {
        out.push(Act::Acc);
        proof {
            assert(out@ =~= seq![Act::Acc]);
        }
        return out;
    }
    let sh = scan_first_shift(cell);
    let rd = scan_min_reduce(cell);
    match (sh, rd) {
        (Some(s), Some(p)) => {
            proof {
                lemma_min_reduce_in_range(g, cell@);
                g.lemma_term_row_in_range(t as int, 0);
                match g.prods@[p as int].prec {
                    Some(pt) => {
                        g.lemma_term_row_in_range(pt as int, 0);
                    },
                    None => {
                        match g.rightmost_term(g.rhs_of(p as int)) {
                            Some(rt) => {
                                g.lemma_term_row_in_range(rt, 0);
                            },
                            None => {},
                        }
                    },
                }
            }
            let pp = g.lookup_prod_prec(p as usize);
            let tp = g.lookup_term_row(t);
            match (pp, tp) {
                (Some(ppv), Some(tpv)) => {
                    if ppv > tpv {
                        out.push(Act::Reduce(p));
                    } else if tpv > ppv {
                        out.push(Act::Shift(s));
                    } else {
                        let assoc = g.prio[ppv as usize].assoc;
                        match assoc {
                            Assoc::Left => out.push(Act::Reduce(p)),
                            Assoc::Right => out.push(Act::Shift(s)),
                            Assoc::NoAssoc => {},
                        }
                    }
                },
                _ => {
                    out.push(Act::Shift(s));
                },
            }
        },
        (Some(s), None) => {
            out.push(Act::Shift(s));
        },
        (None, Some(p)) => {
            out.push(Act::Reduce(p));
        },
        (None, None) => {
            let mut i: usize = 0;
            while i < cell.len()
                invariant
                    i <= cell@.len(),
                    out@ == cell@.subrange(0, i as int),
                decreases cell@.len() - i,
            {
                out.push(cell[i]);
                proof {
                    assert(out@ =~= cell@.subrange(0, i + 1));
                }
                i += 1;
            }
            proof {
                assert(out@ =~= cell@);
            }
        },
    }
    proof {
        assert(out@ =~= resolved_cell(g, t as int, cell@));
    }
    out
}

/// A cell's minimal reduction refers to a real production when every
/// reduction of the cell does.
proof fn lemma_min_reduce_in_range(g: &Grammar, cell: Seq<Act>)
    requires
        forall|i: int| 0 <= i < cell.len() ==> (match #[trigger] cell[i] {
            Act::Reduce(p) => p < g.prod_num(),
            _ => true,
        }),
    ensures
        (match min_reduce(cell) {
            Some(p) => p < g.prod_num(),
            None => true,
        }),
    decreases cell.len(),
{
    if cell.len() > 0 {
        assert(cell.drop_first() =~= cell.skip(1));
        assert forall|i: int| 0 <= i < cell.drop_first().len() implies (
        match #[trigger] cell.drop_first()[i] {
            Act::Reduce(p) => p < g.prod_num(),
            _ => true,
        }) by {
            assert(cell.drop_first()[i] == cell[i + 1]);
        }
        lemma_min_reduce_in_range(g, cell.drop_first());
    }
}

/// Resolve a whole action table.  Every cell becomes its resolved value;
/// goto columns are untouched; exactly the cells that held two or more
/// candidate actions are reported, one conflict per (state, terminal)
/// pair, in ascending order.
pub fn resolve(g: &Grammar, table: Vec<TableEntry>) -> (r: (Vec<TableEntry>, Vec<Conflict>))
    requires
        g.wf(),
        table@.len() <= 0xFFFF_FFFF,
        forall|i: int| 0 <= i < table@.len() ==> (#[trigger] table@[i]).act@.len()
            == g.term_num,
        forall|i: int, t: int, w: int|
            #![trigger table@[i].act@[t]@[w]]
            0 <= i < table@.len() && 0 <= t < g.term_num && 0 <= w < table@[i].act@[t]@.len()
                ==> (match table@[i].act@[t]@[w] {
                Act::Reduce(p) => p < g.prod_num(),
                _ => true,
            }),
    ensures
        r.0@.len() == table@.len(),
        forall|i: int| 0 <= i < table@.len() ==> (#[trigger] r.0@[i]).act@.len() == g.term_num
            && r.0@[i].goto_@ == table@[i].goto_@,
        forall|i: int, t: int|
            #![trigger r.0@[i].act@[t]]
            0 <= i < table@.len() && 0 <= t < g.term_num ==> r.0@[i].act@[t]@ == resolved_cell(
                g,
                g.nt_num + t,
                table@[i].act@[t]@,
            ),
        forall|c: int| 0 <= c < r.1@.len() ==> {
            let cf = #[trigger] r.1@[c];
            &&& (cf.state as int) < table@.len()
            &&& g.nt_num <= cf.term < g.token_num()
            &&& table@[cf.state as int].act@[cf.term - g.nt_num]@.len() >= 2
        },
        forall|i: int, t: int|
            #![trigger table@[i].act@[t]]
            0 <= i < table@.len() && 0 <= t < g.term_num && table@[i].act@[t]@.len() >= 2
                ==> r.1@.contains(Conflict { state: i as u32, term: (g.nt_num + t) as u32 }),
        conflicts_ascending(r.1@),
{
    let mut table = table;
    let mut out: Vec<TableEntry> = Vec::new();
    let mut conflicts: Vec<Conflict> = Vec::new();
    let ghost orig = table@;
    let mut i: usize = 0;
    while i < table.len()
        invariant
            g.wf(),
            table@ == orig,
            orig.len() <= 0xFFFF_FFFF,
            i <= orig.len(),
            out@.len() == i,
            forall|i2: int| 0 <= i2 < orig.len() ==> (#[trigger] orig[i2]).act@.len()
                == g.term_num,
            forall|i2: int, t: int, w: int|
                #![trigger orig[i2].act@[t]@[w]]
                0 <= i2 < orig.len() && 0 <= t < g.term_num && 0 <= w < orig[i2].act@[t]@.len()
                    ==> (match orig[i2].act@[t]@[w] {
                    Act::Reduce(p) => p < g.prod_num(),
                    _ => true,
                }),
            forall|i2: int| 0 <= i2 < i ==> (#[trigger] out@[i2]).act@.len() == g.term_num
                && out@[i2].goto_@ == orig[i2].goto_@,
            forall|i2: int, t: int|
                #![trigger out@[i2].act@[t]]
                0 <= i2 < i && 0 <= t < g.term_num ==> out@[i2].act@[t]@ == resolved_cell(
                    g,
                    g.nt_num + t,
                    orig[i2].act@[t]@,
                ),
            forall|c: int| 0 <= c < conflicts@.len() ==> {
                let cf = #[trigger] conflicts@[c];
                &&& (cf.state as int) < orig.len()
                &&& g.nt_num <= cf.term < g.token_num()
                &&& orig[cf.state as int].act@[cf.term - g.nt_num]@.len() >= 2
            },
            forall|i2: int, t: int|
                #![trigger orig[i2].act@[t]]
                0 <= i2 < i && 0 <= t < g.term_num && orig[i2].act@[t]@.len() >= 2
                    ==> conflicts@.contains(
                    Conflict { state: i2 as u32, term: (g.nt_num + t) as u32 },
                ),
            conflicts_ascending(conflicts@),
            forall|c: int| 0 <= c < conflicts@.len() ==> (#[trigger] conflicts@[c]).state < i,
        decreases orig.len() - i,
    {
        let entry = &table[i];
        let mut acts: Vec<Vec<Act>> = Vec::new();
        let mut t: usize = 0;
        while t < entry.act.len()
            invariant
                g.wf(),
                table@ == orig,
                orig.len() <= 0xFFFF_FFFF,
                i < orig.len(),
                entry == &orig[i as int],
                entry.act@.len() == g.term_num,
                t <= entry.act@.len(),
                acts@.len() == t,
                forall|i2: int, tt: int, w: int|
                    #![trigger orig[i2].act@[tt]@[w]]
                    0 <= i2 < orig.len() && 0 <= tt < g.term_num && 0 <= w < orig[i2]
                        .act@[tt]@.len() ==> (match orig[i2].act@[tt]@[w] {
                        Act::Reduce(p) => p < g.prod_num(),
                        _ => true,
                    }),
                forall|tt: int| #![trigger acts@[tt]] 0 <= tt < t ==> acts@[tt]@
                    == resolved_cell(g, g.nt_num + tt, orig[i as int].act@[tt]@),
                forall|c: int| 0 <= c < conflicts@.len() ==> {
                    let cf = #[trigger] conflicts@[c];
                    &&& (cf.state as int) < orig.len()
                    &&& g.nt_num <= cf.term < g.token_num()
                    &&& orig[cf.state as int].act@[cf.term - g.nt_num]@.len() >= 2
                },
                forall|i2: int, tt: int|
                    #![trigger orig[i2].act@[tt]]
                    0 <= i2 < i && 0 <= tt < g.term_num && orig[i2].act@[tt]@.len() >= 2
                        ==> conflicts@.contains(
                        Conflict { state: i2 as u32, term: (g.nt_num + tt) as u32 },
                    ),
                forall|tt: int|
                    #![trigger orig[i as int].act@[tt]]
                    0 <= tt < t && orig[i as int].act@[tt]@.len() >= 2 ==> conflicts@.contains(
                        Conflict { state: i as u32, term: (g.nt_num + tt) as u32 },
                    ),
                conflicts_ascending(conflicts@),
                forall|c: int| 0 <= c < conflicts@.len() ==> ((#[trigger] conflicts@[c]).state
                    < i || (conflicts@[c].state == i && conflicts@[c].term < g.nt_num + t)),
            decreases entry.act@.len() - t,
        {
            let cell = &entry.act[t];
            let term_id = g.nt_num + t as u32;
            if cell.len() >= 2 {
                let ghost oldconf = conflicts@;
                conflicts.push(Conflict { state: i as u32, term: term_id });
                proof {
                    assert(conflicts@ == oldconf.push(
                        Conflict { state: i as u32, term: term_id },
                    ));
                    assert forall|c1: int, c2: int| #![trigger conflicts@[c1], conflicts@[c2]]
                        0 <= c1 < c2 < conflicts@.len() implies conflict_lt(
                        conflicts@[c1],
                        conflicts@[c2],
                    ) by {
                        if c2 < oldconf.len() {
                            assert(conflicts@[c1] == oldconf[c1]);
                            assert(conflicts@[c2] == oldconf[c2]);
                        } else {
                            assert(conflicts@[c1] == oldconf[c1]);
                            assert(conflicts@[c2] == Conflict { state: i as u32, term: term_id });
                        }
                    }
                    assert forall|i2: int, tt: int|
                        #![trigger orig[i2].act@[tt]]
                        0 <= i2 < i && 0 <= tt < g.term_num && orig[i2].act@[tt]@.len() >= 2
                        implies conflicts@.contains(
                        Conflict { state: i2 as u32, term: (g.nt_num + tt) as u32 },
                    ) by {
                        let cf = Conflict { state: i2 as u32, term: (g.nt_num + tt) as u32 };
                        assert(oldconf.contains(cf));
                        let w = choose|w: int| 0 <= w < oldconf.len() && oldconf[w] == cf;
                        assert(conflicts@[w] == cf);
                    }
                    assert forall|tt: int|
                        #![trigger orig[i as int].act@[tt]]
                        0 <= tt < t + 1 && orig[i as int].act@[tt]@.len() >= 2
                        implies conflicts@.contains(
                        Conflict { state: i as u32, term: (g.nt_num + tt) as u32 },
                    ) by {
                        let cf = Conflict { state: i as u32, term: (g.nt_num + tt) as u32 };
                        if tt == t as int {
                            assert(conflicts@[conflicts@.len() - 1] == cf);
                        } else {
                            assert(oldconf.contains(cf));
                            let w = choose|w: int| 0 <= w < oldconf.len() && oldconf[w] == cf;
                            assert(conflicts@[w] == cf);
                        }
                    }
                }
            }
            let resolved = resolve_one(g, term_id, cell);
            acts.push(resolved);
            t += 1;
        }
        let goto_copy = copy_goto(&entry.goto_);
        out.push(TableEntry { act: acts, goto_: goto_copy });
        i += 1;
    }
    (out, conflicts)
}

/// Copy a goto row.
pub fn copy_goto(v: &Vec<Option<u32>>) -> (r: Vec<Option<u32>>)
    ensures
        r@ == v@,
{
    let mut r: Vec<Option<u32>> = Vec::new();
    let mut i: usize = 0;
    while i < v.len()
        invariant
            i <= v@.len(),
            r@ == v@.subrange(0, i as int),
        decreases v@.len() - i,
    {
        r.push(v[i]);
        proof {
            assert(r@ =~= v@.subrange(0, i + 1));
        }
        i += 1;
    }
    proof {
        assert(r@ =~= v@);
    }
    r
}

} // verus!
