//! Failures that end the operation under way.

use crate::dependency::CellId;
use crate::parser::ast::Expr;
use vstd::prelude::*;

verus! {

#[derive(Debug, PartialEq, Eq)]
pub enum Error {
    /// The cell could not be calculated, for the reason given.
    Calculation(CellId, Box<Error>),
    /// The function has no entry in the function library.
    FunctionNotSupport(Vec<u8>),
    /// The tokens of the text are no formula.
    UnableToParse(Vec<u8>),
    /// The text holds a byte that starts no token.
    UnableToLex(Vec<u8>),
    /// A formula has come to point to cells that are not calculated yet:
    /// the reference that it points to has to become a precedent of its
    /// cell before the cell can be calculated. The recalculation answers
    /// this signal itself.
    Volatile(Box<Expr>),
    /// The cells depend on themselves; the node lies on the cycle.
    Cycle(CellId),
}

} // verus!
