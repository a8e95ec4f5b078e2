//! The grammar model: symbols, productions, and the precedence table.
//!
//! Every symbol is a dense integer identifier.  Non-terminals occupy
//! `[0, nt_num)`; terminals occupy `[nt_num, nt_num + term_num)`.  The two
//! distinguished terminals are `eps` (the empty token, id `nt_num`) and
//! `eof` (end of input, id `nt_num + 1`).  The synthetic start symbol is the
//! last non-terminal, and production 0 is the synthetic start production;
//! the end-of-input terminal is supplied by the driver, so the synthetic
//! production derives the user start symbol alone and the follow engine
//! seeds `eof` explicitly.

use vstd::prelude::*;

verus! {

#[derive(Clone, Copy, PartialEq, Eq, Structural, Debug)]
pub enum Assoc {
    Left,
    Right,
    NoAssoc,
}

pub struct Production {
    /// Non-terminal on the left-hand side.
    pub lhs: u32,
    /// Symbol identifiers of the right-hand side; empty for an
    /// epsilon production.
    pub rhs: Vec<u32>,
    /// Optional explicit precedence terminal.
    pub prec: Option<u32>,
    /// Opaque semantic payload, handed through to emission.
    pub act: String,
}

pub struct PriorityRow {
    pub assoc: Assoc,
    /// Terminals sharing this priority row.
    pub terms: Vec<u32>,
}

pub struct Grammar {
    pub nt_num: u32,
    pub term_num: u32,
    /// All productions; index 0 is the synthetic start production.
    pub prods: Vec<Production>,
    /// Priority rows in ascending binding strength.
    pub prio: Vec<PriorityRow>,
    /// Semantic value type of each non-terminal, opaque to the core.
    pub nt_types: Vec<String>,
}

impl Grammar {
    pub open spec fn token_num(&self) -> int {
        self.nt_num + self.term_num
    }

    pub open spec fn eps_idx(&self) -> int {
        self.nt_num as int
    }

    pub open spec fn eof_idx(&self) -> int {
        self.nt_num + 1
    }

    /// The synthetic start non-terminal, always the last one.
    pub open spec fn start_nt(&self) -> int {
        self.nt_num - 1
    }

    pub open spec fn is_nt(&self, x: int) -> bool {
        0 <= x < self.nt_num
    }

    pub open spec fn is_term(&self, x: int) -> bool {
        self.nt_num <= x < self.token_num()
    }

    pub open spec fn rhs_of(&self, p: int) -> Seq<u32> {
        self.prods[p].rhs@
    }

    pub open spec fn lhs_of(&self, p: int) -> int {
        self.prods[p].lhs as int
    }

    pub open spec fn prod_num(&self) -> int {
        self.prods@.len() as int
    }

    /// Well-formedness: symbol identifiers in range, the synthetic start
    /// production in place, and neither `eps`, `eof` nor the synthetic
    /// start symbol on any right-hand side.
    pub open spec fn wf(&self) -> bool {
        &&& self.nt_num >= 1
        &&& self.term_num >= 2
        &&& self.token_num() < 0x4000_0000
        &&& 1 <= self.prods@.len() < 0x4000_0000
        &&& self.lhs_of(0) == self.start_nt()
        &&& self.rhs_of(0).len() == 1
        &&& self.is_nt(self.rhs_of(0)[0] as int)
        &&& self.prods[0].prec is None
        &&& forall|p: int|
            0 <= p < self.prods@.len() ==> self.is_nt(#[trigger] self.lhs_of(p))
        &&& forall|p: int|
            0 <= p < self.prods@.len() ==> (#[trigger] self.rhs_of(p)).len() < 0x4000_0000
        &&& forall|p: int, j: int|
            0 <= p < self.prods@.len() && 0 <= j < self.rhs_of(p).len() ==> {
                let s = #[trigger] self.rhs_of(p)[j] as int;
                &&& 0 <= s < self.token_num()
                &&& s != self.eps_idx()
                &&& s != self.eof_idx()
                &&& s != self.start_nt()
            }
        &&& forall|r: int, j: int|
            0 <= r < self.prio@.len() && 0 <= j < self.prio@[r].terms@.len()
                ==> self.is_term(#[trigger] self.prio@[r].terms@[j] as int)
        &&& self.prio@.len() < 0x4000_0000
        &&& self.nt_types@.len() == self.nt_num
    }

    /// The priority row of terminal `t`: the first row that lists it,
    /// scanning from row `i` upward.
    pub open spec fn term_row_from(&self, t: int, i: int) -> Option<int>
        decreases self.prio@.len() - i,
    {
        if i < 0 || i >= self.prio@.len() {
            None
        } else if self.prio@[i].terms@.contains(t as u32) {
            Some(i)
        } else {
            self.term_row_from(t, i + 1)
        }
    }

    /// The priority row of terminal `t`, if any.
    pub open spec fn term_row(&self, t: int) -> Option<int> {
        self.term_row_from(t, 0)
    }

    /// A found priority row is a real row index.
    pub proof fn lemma_term_row_in_range(&self, t: int, i: int)
        ensures
            (match self.term_row_from(t, i) {
                Some(j) => 0 <= j < self.prio@.len(),
                None => true,
            }),
        decreases self.prio@.len() - i,
    {
        if i < 0 || i >= self.prio@.len() {
        } else if self.prio@[i].terms@.contains(t as u32) {
        } else {
            self.lemma_term_row_in_range(t, i + 1);
        }
    }

    /// The right-most terminal of a symbol string, if any.
    pub open spec fn rightmost_term(&self, rhs: Seq<u32>) -> Option<int>
        decreases rhs.len(),
    {
        if rhs.len() == 0 {
            None
        } else if self.is_term(rhs.last() as int) {
            Some(rhs.last() as int)
        } else {
            self.rightmost_term(rhs.drop_last())
        }
    }

    /// Effective precedence row of production `p`: the row of its explicit
    /// precedence terminal if present, else the row of the right-most
    /// terminal of its right-hand side, else undefined.
    pub open spec fn prod_prec(&self, p: int) -> Option<int> {
        match self.prods[p].prec {
            Some(t) => self.term_row(t as int),
            None => match self.rightmost_term(self.rhs_of(p)) {
                Some(t) => self.term_row(t),
                None => None,
            },
        }
    }

    /// Executable token count.
    pub fn token_count(&self) -> (r: u32)
        requires
            self.wf(),
        ensures
            r == self.token_num(),
    {
        self.nt_num + self.term_num
    }

    /// Executable priority-row lookup, matching `term_row`.
    pub fn lookup_term_row(&self, t: u32) -> (r: Option<u32>)
        requires
            self.wf(),
        ensures
            match r {
                Some(i) => self.term_row(t as int) == Some(i as int),
                None => self.term_row(t as int) is None,
            },
    {
        let mut i: usize = 0;
        while i < self.prio.len()
            invariant
                self.wf(),
                i <= self.prio@.len(),
                self.term_row_from(t as int, 0) == self.term_row_from(t as int, i as int),
            decreases self.prio@.len() - i,
        {
            let row = &self.prio[i];
            let mut j: usize = 0;
            let mut found = false;
            while j < row.terms.len()
                invariant
                    self.wf(),
                    i < self.prio@.len(),
                    row == self.prio@[i as int],
                    j <= row.terms@.len(),
                    found == exists|k: int| 0 <= k < j && row.terms@[k] == t,
                decreases row.terms@.len() - j,
            {
                if row.terms[j] == t {
                    found = true;
                    proof {
                        assert(row.terms@[j as int] == t);
                    }
                }
                j += 1;
            }
            if found {
                proof {
                    assert(self.prio@[i as int].terms@.contains(t));
                }
                return Some(i as u32);
            }
            proof {
                assert(!self.prio@[i as int].terms@.contains(t)) by {
                    if self.prio@[i as int].terms@.contains(t) {
                        let k = choose|k: int|
                            0 <= k < row.terms@.len() && row.terms@[k] == t;
                        assert(false);
                    }
                }
            }
            i += 1;
        }
        None
    }

    /// Executable effective precedence of production `p`.
    pub fn lookup_prod_prec(&self, p: usize) -> (r: Option<u32>)
        requires
            self.wf(),
            p < self.prods@.len(),
        ensures
            match r {
                Some(i) => self.prod_prec(p as int) == Some(i as int),
                None => self.prod_prec(p as int) is None,
            },
    {
        let prod = &self.prods[p];
        match prod.prec {
            Some(t) => self.lookup_term_row(t),
            None => {
                let rhs = &prod.rhs;
                proof {
                    assert(rhs@.subrange(0, rhs@.len() as int) =~= rhs@);
                }
                let mut k: usize = rhs.len();
                while k > 0
                    invariant
                        self.wf(),
                        p < self.prods@.len(),
                        rhs == &self.prods@[p as int].rhs,
                        self.prods@[p as int].prec is None,
                        k <= rhs@.len(),
                        self.rightmost_term(rhs@) == self.rightmost_term(
                            rhs@.subrange(0, k as int),
                        ),
                    decreases k,
                {
                    proof {
                        assert(rhs@.subrange(0, k as int).last() == rhs@[k - 1]);
                        assert(rhs@.subrange(0, k as int).drop_last() =~= rhs@.subrange(
                            0,
                            k - 1,
                        ));
                    }
                    if self.nt_num <= rhs[k - 1] {
                        let t = rhs[k - 1];
                        proof {
                            assert(self.rhs_of(p as int)[k - 1] == t);
                            assert(self.is_term(t as int));
                            assert(self.rightmost_term(rhs@.subrange(0, k as int))
                                == Some(t as int));
                            assert(self.rightmost_term(self.rhs_of(p as int))
                                == Some(t as int));
                        }
                        return self.lookup_term_row(t);
                    }
                    k -= 1;
                }
                proof {
                    assert(rhs@.subrange(0, 0) =~= Seq::<u32>::empty());
                }
                None
            },
        }
    }

    /// Executable well-formedness check, for callers that assemble a
    /// grammar from identifiers directly.
    pub fn wf_check(&self) -> (r: bool)
        ensures
            r == self.wf(),
    {
        if !(self.nt_num >= 1 && self.term_num >= 2) {
            return false;
        }
        let tn64: u64 = self.nt_num as u64 + self.term_num as u64;
        if tn64 >= 0x4000_0000 {
            return false;
        }
        if self.prods.len() == 0 || self.prods.len() >= 0x4000_0000 {
            return false;
        }
        if self.prio.len() >= 0x4000_0000 {
            return false;
        }
        if self.nt_types.len() != self.nt_num as usize {
            return false;
        }
        let p0 = &self.prods[0];
        if !(p0.lhs == self.nt_num - 1 && p0.rhs.len() == 1 && p0.rhs[0] < self.nt_num
            && p0.prec.is_none()) {
            return false;
        }
        let tn = self.nt_num + self.term_num;
        let mut p: usize = 0;
        while p < self.prods.len()
            invariant
                tn == self.token_num(),
                p <= self.prods@.len(),
                self.prods@.len() < 0x4000_0000,
                self.nt_num >= 1,
                self.term_num >= 2,
                forall|q: int| 0 <= q < p ==> self.is_nt(#[trigger] self.lhs_of(q)),
                forall|q: int|
                    0 <= q < p ==> (#[trigger] self.rhs_of(q)).len() < 0x4000_0000,
                forall|q: int, j: int|
                    0 <= q < p && 0 <= j < self.rhs_of(q).len() ==> {
                        let s = #[trigger] self.rhs_of(q)[j] as int;
                        &&& 0 <= s < self.token_num()
                        &&& s != self.eps_idx()
                        &&& s != self.eof_idx()
                        &&& s != self.start_nt()
                    },
            decreases self.prods@.len() - p,
        {
            let prod = &self.prods[p];
            if prod.lhs >= self.nt_num {
                proof {
                    assert(self.lhs_of(p as int) == prod.lhs as int);
                    assert(!self.wf());
                }
                return false;
            }
            if prod.rhs.len() >= 0x4000_0000 {
                proof {
                    assert(self.rhs_of(p as int).len() >= 0x4000_0000);
                    assert(!self.wf());
                }
                return false;
            }
            let mut j: usize = 0;
            while j < prod.rhs.len()
                invariant
                    tn == self.token_num(),
                    prod == &self.prods@[p as int],
                    p < self.prods@.len(),
                    self.nt_num >= 1,
                    self.term_num >= 2,
                    j <= prod.rhs@.len(),
                    forall|i: int|
                        0 <= i < j ==> {
                            let s = #[trigger] self.rhs_of(p as int)[i] as int;
                            &&& 0 <= s < self.token_num()
                            &&& s != self.eps_idx()
                            &&& s != self.eof_idx()
                            &&& s != self.start_nt()
                        },
                decreases prod.rhs@.len() - j,
            {
                let s = prod.rhs[j];
                if s >= tn || s == self.nt_num || s == self.nt_num + 1
                    || s == self.nt_num - 1 {
                    proof {
                        assert(self.rhs_of(p as int)[j as int] == s);
                        assert(!self.wf());
                    }
                    return false;
                }
                j += 1;
            }
            p += 1;
        }
        let mut r: usize = 0;
        while r < self.prio.len()
            invariant
                tn == self.token_num(),
                r <= self.prio@.len(),
                forall|q: int, j: int|
                    0 <= q < r && 0 <= j < self.prio@[q].terms@.len()
                        ==> self.is_term(#[trigger] self.prio@[q].terms@[j] as int),
            decreases self.prio@.len() - r,
        {
            let row = &self.prio[r];
            let mut j: usize = 0;
            while j < row.terms.len()
                invariant
                    tn == self.token_num(),
                    row == &self.prio@[r as int],
                    r < self.prio@.len(),
                    j <= row.terms@.len(),
                    forall|i: int|
                        0 <= i < j ==> self.is_term(
                            #[trigger] self.prio@[r as int].terms@[i] as int,
                        ),
                decreases row.terms@.len() - j,
            {
                let t = row.terms[j];
                if t < self.nt_num || t >= tn {
                    proof {
                        assert(self.prio@[r as int].terms@[j as int] == t);
                        assert(!self.wf());
                    }
                    return false;
                }
                j += 1;
            }
            r += 1;
        }
        true
    }
}

} // verus!
