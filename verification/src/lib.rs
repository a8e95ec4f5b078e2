//! A parser-generator core: grammar model with precedence, FIRST and
//! FOLLOW engines, LR(1) item-set construction (closure, goto, canonical
//! collection), conflict resolution over action tables, LL(1) PREDICT
//! table construction, the packed emission artifact, and the lexer of the
//! toolchain's own front end.
//!
//! The LALR(1) kernel-merging reduction and the action-table builder that
//! feed the resolver are not part of this crate yet; the resolver and the
//! assembler consume any action table of the shared shape.

pub mod bitset;
pub mod codegen;
pub mod conflict;
pub mod first;
pub mod follow;
pub mod grammar;
pub mod fsm;
pub mod lexer;
pub mod ll1;
pub mod lr1;

use vstd::prelude::*;

verus! {

} // verus!
