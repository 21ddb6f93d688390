//! A small domain-specific language for describing finite-state machines
//! (deterministic and nondeterministic automata, pushdown automata and
//! tape machines), together with validators and simulators for each kind.
//!
//! The pipeline is: source text -> lexer -> token stream -> section parser
//! -> intermediate description -> one validator -> validated `Info` ->
//! one `Machine` -> boolean accept/reject result.

use vstd::prelude::*;

pub mod machine;
pub mod parser;

verus! {

/// A half-open region of the source buffer: `offset` is the index of the
/// first character, `len` the number of characters covered.
#[derive(Debug, Clone, Copy, PartialEq, Eq, Structural)]
pub struct Span {
    pub offset: usize,
    pub len: usize,
}

} // verus!
