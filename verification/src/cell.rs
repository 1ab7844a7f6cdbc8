//! Cell coordinates on a sheet.

use vstd::prelude::*;
use vstd::std_specs::convert::FromSpecImpl;

verus! {

/// A cell coordinate, counted from 1. Row `0` stands for a whole column and
/// column `0` for a whole row.
#[derive(Clone, Copy, Debug, PartialEq, Eq, Hash, Structural)]
pub struct CellIndex {
    pub row: usize,
    pub column: usize,
}

impl CellIndex {
    /// A whole row: a row number without a column.
    pub open spec fn spec_is_hrange(self) -> bool {
        self.row > 0 && self.column == 0
    }

    /// A whole column: a column number without a row.
    pub open spec fn spec_is_vrange(self) -> bool {
        self.column > 0 && self.row == 0
    }

    /// Whether `self` comes before `other` going down each column, column
    /// by column from the left.
    pub open spec fn spec_precedes(self, other: CellIndex) -> bool {
        self.column < other.column || (self.column == other.column && self.row < other.row)
    }

    #[verifier::when_used_as_spec(spec_is_hrange)]
    pub fn is_hrange(self) -> (r: bool)
        ensures
            r == self.spec_is_hrange(),
    {
        self.row > 0 && self.column == 0
    }

    #[verifier::when_used_as_spec(spec_is_vrange)]
    pub fn is_vrange(self) -> (r: bool)
        ensures
            r == self.spec_is_vrange(),
    {
        self.column > 0 && self.row == 0
    }

    pub fn as_tuple(self) -> (r: (usize, usize))
        ensures
            r == (self.row, self.column),
    {
        (self.row, self.column)
    }

    #[verifier::when_used_as_spec(spec_precedes)]
    pub fn precedes(self, other: CellIndex) -> (r: bool)
        ensures
            r == self.spec_precedes(other),
    {
        self.column < other.column || (self.column == other.column && self.row < other.row)
    }
}

impl From<(usize, usize)> for CellIndex {
    fn from(coords: (usize, usize)) -> (r: CellIndex) {
        CellIndex { row: coords.0, column: coords.1 }
    }
}

impl FromSpecImpl<(usize, usize)> for CellIndex {
    open spec fn obeys_from_spec() -> bool {
        true
    }

    open spec fn from_spec(coords: (usize, usize)) -> CellIndex {
        CellIndex { row: coords.0, column: coords.1 }
    }
}

} // verus!
