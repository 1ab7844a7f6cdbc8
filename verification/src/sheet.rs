//! A sheet: a grid of cell records that only ever grows.

use crate::evaluate::value::{Value, ValueView};
use crate::text::copy_bytes;
use vstd::prelude::*;

verus! {

/// The grid of a sheet: for each cell the number of its record, or `0`
/// where the cell has none. The numbers are kept in an `ndarray::Array2`.
#[verifier::external_body]
pub struct Slots {
    inner: ndarray::Array2<usize>,
}

/// What the grid holds, row by row.
pub uninterp spec fn slot_rows(s: Slots) -> Seq<Seq<usize>>;

/// The number of columns of the grid, which it has even without rows.
pub uninterp spec fn slot_columns(s: Slots) -> nat;

/// Every row has `columns` slots.
pub open spec fn rows_of_width(rows: Seq<Seq<usize>>, columns: int) -> bool {
    forall|r: int| 0 <= r < rows.len() ==> (#[trigger] rows[r]).len() == columns
}

/// A grid of `rows` by `columns` slots does not exceed what the machine
/// can address.
pub open spec fn extent_fits(rows: int, columns: int) -> bool {
    &&& 0 <= rows && rows * 8 <= isize::MAX
    &&& 0 <= columns && columns * 8 <= isize::MAX
    &&& rows * columns * 8 <= isize::MAX
}

/// `ndarray::Array2::from_elem` with the element `0`: a grid of `rows` by
/// `columns` slots, all `0`. The function panics where the number of
/// elements exceeds `isize::MAX`; `requires` keeps such sizes out.
#[verifier::external_body]
fn slots_new(rows: usize, columns: usize) -> (s: Slots)
    requires
        extent_fits(rows as int, columns as int),
    ensures
        slot_rows(s).len() == rows,
        slot_columns(s) == columns,
        rows_of_width(slot_rows(s), columns as int),
        forall|r: int, c: int|
            0 <= r < rows && 0 <= c < columns ==> (#[trigger] slot_rows(s)[r][c]) == 0,
{
    Slots { inner: ndarray::Array2::from_elem((rows, columns), 0) }
}

/// Indexing an `ndarray::Array2` by `[row, column]`: the slot there.
/// Indexing panics beyond the grid; `requires` keeps such indices out.
#[verifier::external_body]
fn slots_get(s: &Slots, row: usize, column: usize) -> (v: usize)
    requires
        row < slot_rows(*s).len(),
        column < slot_columns(*s),
        column < slot_rows(*s)[row as int].len(),
    ensures
        v == slot_rows(*s)[row as int][column as int],
{
    s.inner[[row, column]]
}

/// Assigning to an `ndarray::Array2` at `[row, column]`: that slot
/// becomes `v`, every other slot stays.
#[verifier::external_body]
fn slots_set(s: &mut Slots, row: usize, column: usize, v: usize)
    requires
        row < slot_rows(*old(s)).len(),
        column < slot_columns(*old(s)),
        column < slot_rows(*old(s))[row as int].len(),
    ensures
        slot_columns(*final(s)) == slot_columns(*old(s)),
        slot_rows(*final(s)) == slot_rows(*old(s)).update(
            row as int,
            slot_rows(*old(s))[row as int].update(column as int, v),
        ),
{
    s.inner[[row, column]] = v;
}

/// `ndarray::Array2::push_row`: the grid gets `row` as a new last row. It
/// fails, and leaves the grid as it is, where the length of `row` is not
/// the number of columns of the grid. `requires` keeps out sizes beyond
/// `isize::MAX`, for which it fails too.
#[verifier::external_body]
fn slots_push_row(s: &mut Slots, row: &Vec<usize>) -> (ok: bool)
    requires
        extent_fits(slot_rows(*old(s)).len() as int + 1, slot_columns(*old(s)) as int),
    ensures
        ok == (row@.len() == slot_columns(*old(s))),
        slot_columns(*final(s)) == slot_columns(*old(s)),
        ok ==> slot_rows(*final(s)) == slot_rows(*old(s)).push(row@),
        !ok ==> slot_rows(*final(s)) == slot_rows(*old(s)),
{
    s.inner.push_row(ndarray::ArrayView::from(row.as_slice())).is_ok()
}

/// `ndarray::Array2::push_column`: every row of the grid gets its item of
/// `column` as a new last slot, and the grid has one column more. It
/// fails, and leaves the grid as it is, where the length of `column` is
/// not the number of rows. `requires` keeps out sizes beyond `isize::MAX`,
/// for which it fails too.
#[verifier::external_body]
fn slots_push_column(s: &mut Slots, column: &Vec<usize>) -> (ok: bool)
    requires
        extent_fits(slot_rows(*old(s)).len() as int, slot_columns(*old(s)) as int + 1),
    ensures
        ok == (column@.len() == slot_rows(*old(s)).len()),
        ok ==> slot_columns(*final(s)) == slot_columns(*old(s)) + 1 && slot_rows(*final(s)).len()
            == slot_rows(*old(s)).len() && forall|r: int|
            0 <= r < slot_rows(*old(s)).len() ==> (#[trigger] slot_rows(*final(s))[r]) == slot_rows(
                *old(s),
            )[r].push(column@[r]),
        !ok ==> slot_rows(*final(s)) == slot_rows(*old(s)) && slot_columns(*final(s))
            == slot_columns(*old(s)),
{
    s.inner.push_column(ndarray::ArrayView::from(column.as_slice())).is_ok()
}

/// The record of a cell: what was entered, what it evaluates to, and
/// whether that has yet to be computed.
#[derive(Debug, PartialEq, Eq)]
pub struct SheetValue {
    pub value: Value,
    pub calculated: Value,
    pub dirty: bool,
}

pub struct SheetValueView {
    pub value: ValueView,
    pub calculated: ValueView,
    pub dirty: bool,
}

impl View for SheetValue {
    type V = SheetValueView;

    open spec fn view(&self) -> SheetValueView {
        SheetValueView { value: self.value@, calculated: self.calculated@, dirty: self.dirty }
    }
}

/// The record of a cell that nothing was entered in.
pub open spec fn blank() -> SheetValueView {
    SheetValueView { value: ValueView::Empty, calculated: ValueView::Empty, dirty: false }
}

/// What a cell shows: its result where that is calculated, else what was
/// entered.
pub open spec fn shown(record: SheetValueView) -> ValueView {
    if record.dirty {
        record.value
    } else {
        record.calculated
    }
}

/// The record of a cell that `value` is entered in: a formula waits to be
/// calculated, any other value is its own result.
pub open spec fn entered(value: ValueView) -> SheetValueView {
    if value is Formula {
        SheetValueView { value, calculated: ValueView::Empty, dirty: true }
    } else {
        SheetValueView { value, calculated: value, dirty: false }
    }
}

impl SheetValue {
    pub fn new() -> (r: SheetValue)
        ensures
            r@ == blank(),
    {
        SheetValue { value: Value::Empty, calculated: Value::Empty, dirty: false }
    }

    /// What the cell shows: its result where that is calculated, else
    /// what was entered.
    pub fn show(&self) -> (r: Value)
        ensures
            r@ == shown(self@),
    {
        if self.dirty {
            self.value.duplicate()
        } else {
            self.calculated.duplicate()
        }
    }

    /// The record of a cell that `value` is entered in.
    pub fn enter(value: Value) -> (r: SheetValue)
        ensures
            r@ == entered(value@),
    {
        if value.is_formula() {
            SheetValue { value, calculated: Value::Empty, dirty: true }
        } else {
            let calculated = value.duplicate();
            SheetValue { value, calculated, dirty: false }
        }
    }

    pub fn is_calculated(&self) -> (r: bool)
        ensures
            r == !self.dirty,
    {
        !self.dirty
    }

    pub fn duplicate(&self) -> (r: SheetValue)
        ensures
            r@ == self@,
    {
        SheetValue {
            value: self.value.duplicate(),
            calculated: self.calculated.duplicate(),
            dirty: self.dirty,
        }
    }
}

pub struct Sheet {
    pub name: Vec<u8>,
    pub idx: usize,
    pub max_rows: usize,
    pub max_columns: usize,
    pub slots: Slots,
    pub records: Vec<SheetValue>,
}

/// A run of `n` zeros.
fn zeros(n: usize) -> (r: Vec<usize>)
    ensures
        r@.len() == n,
        forall|i: int| 0 <= i < n ==> r@[i] == 0,
{
    let mut out: Vec<usize> = Vec::new();
    let mut i: usize = 0;
    while i < n
        invariant
            i <= n,
            out@.len() == i,
            forall|j: int| 0 <= j < i ==> out@[j] == 0,
        decreases n - i,
    {
        out.push(0);
        i = i + 1;
    }
    out
}

/// Whether a grid of `rows` by `columns` slots is within what the machine
/// can address.
fn fits(rows: usize, columns: usize) -> (r: bool)
    ensures
        r == extent_fits(rows as int, columns as int),
{
    let limit: usize = isize::MAX as usize;
    let by_row: Option<usize> = rows.checked_mul(8);
    let by_column: Option<usize> = columns.checked_mul(8);
    let cells: Option<usize> = rows.checked_mul(columns);
    match (by_row, by_column, cells) {
        (Some(a), Some(b), Some(n)) => {
            match n.checked_mul(8) {
                Some(bytes) => {
                    assert(rows * columns * 8 == n * 8) by (nonlinear_arith)
                        requires
                            n == rows * columns,
                    ;
                    a <= limit && b <= limit && bytes <= limit
                },
                None => {
                    assert(rows * columns * 8 == n * 8) by (nonlinear_arith)
                        requires
                            n == rows * columns,
                    ;
                    false
                },
            }
        },
        (Some(a), Some(b), None) => {
            assert(rows * columns * 8 >= rows * columns) by (nonlinear_arith);
            false
        },
        _ => false,
    }
}

proof fn lemma_extent_monotone(rows: int, columns: int, more_rows: int, more_columns: int)
    requires
        0 <= rows <= more_rows,
        0 <= columns <= more_columns,
        extent_fits(more_rows, more_columns),
    ensures
        extent_fits(rows, columns),
{
    assert(rows * columns <= more_rows * more_columns) by (nonlinear_arith)
        requires
            0 <= rows <= more_rows,
            0 <= columns <= more_columns,
    ;
}

impl Sheet {
    /// The slot of the cell at `row` and `column`.
    pub closed spec fn slot(&self, row: int, column: int) -> usize {
        slot_rows(self.slots)[row][column]
    }

    pub open spec fn within(&self, row: int, column: int) -> bool {
        0 <= row < self.max_rows && 0 <= column < self.max_columns
    }

    /// Whether the cell at `row` and `column`, counted from 0, has a
    /// record of its own.
    pub closed spec fn occupied(&self, row: int, column: int) -> bool {
        self.within(row, column) && self.slot(row, column) > 0
    }

    /// Whether the grid can be made to reach the cell at `row` and
    /// `column`, counted from 1.
    pub open spec fn reaches(&self, row: usize, column: usize) -> bool {
        row >= 1 && column >= 1 && extent_fits(
            vstd::math::max(self.max_rows as int, row as int),
            vstd::math::max(self.max_columns as int, column as int),
        )
    }

    /// The number of rows after a value was entered at `row` and
    /// `column`: the grid grows to reach the cell where it can, and is as
    /// it was for a cell within it.
    pub open spec fn rows_with(&self, row: usize, column: usize) -> int {
        if self.reaches(row, column) {
            vstd::math::max(self.max_rows as int, row as int)
        } else {
            self.max_rows as int
        }
    }

    /// The number of columns after a value was entered at `row` and
    /// `column`.
    pub open spec fn columns_with(&self, row: usize, column: usize) -> int {
        if self.reaches(row, column) {
            vstd::math::max(self.max_columns as int, column as int)
        } else {
            self.max_columns as int
        }
    }

    /// Whether the sheet can take a value in the cell at `row` and
    /// `column`, counted from 1: there is such a cell, the grid that
    /// reaches it is within what the machine can address, and the cell
    /// has a record or one more record can be counted.
    pub open spec fn takes(&self, row: usize, column: usize) -> bool {
        &&& row >= 1
        &&& column >= 1
        &&& extent_fits(
            vstd::math::max(self.max_rows as int, row as int),
            vstd::math::max(self.max_columns as int, column as int),
        )
        &&& (self.occupied(row - 1, column - 1) || self.records@.len() < usize::MAX)
    }

    /// The grid is `max_rows` by `max_columns` and addressable; every slot
    /// is `0` or the number of a record, and no two cells share a record.
    pub closed spec fn wf(&self) -> bool {
        &&& slot_rows(self.slots).len() == self.max_rows
        &&& slot_columns(self.slots) == self.max_columns
        &&& rows_of_width(slot_rows(self.slots), self.max_columns as int)
        &&& extent_fits(self.max_rows as int, self.max_columns as int)
        &&& forall|r: int, c: int|
            self.within(r, c) ==> #[trigger] self.slot(r, c) <= self.records@.len()
        &&& forall|r1: int, c1: int, r2: int, c2: int|
            self.within(r1, c1) && self.within(r2, c2) && #[trigger] self.slot(r1, c1) != 0
                && self.slot(r1, c1) == #[trigger] self.slot(r2, c2) ==> r1 == r2 && c1 == c2
    }

    /// The record of the cell in row `row` and column `column`, both
    /// counted from 0; cells beyond the grid are blank.
    pub closed spec fn cell(&self, row: int, column: int) -> SheetValueView {
        if self.within(row, column) && 0 < self.slot(row, column) <= self.records@.len() {
            self.records@[self.slot(row, column) - 1]@
        } else {
            blank()
        }
    }

    /// The grid of a well-formed sheet is within what the machine can
    /// address.
    pub proof fn lemma_extent(&self)
        requires
            self.wf(),
        ensures
            extent_fits(self.max_rows as int, self.max_columns as int),
    {
    }

    /// Cells beyond the grid are blank.
    pub proof fn lemma_cell_beyond(&self, row: int, column: int)
        requires
            !self.within(row, column),
        ensures
            self.cell(row, column) == blank(),
    {
    }

    /// A sheet without cells.
    pub fn new(name: Vec<u8>, idx: usize) -> (r: Sheet)
        ensures
            r.wf(),
            r.name == name,
            r.idx == idx,
            r.max_rows == 0,
            r.max_columns == 0,
    {
        Sheet { name, idx, max_rows: 0, max_columns: 0, slots: slots_new(0, 0), records: Vec::new() }
    }

    /// A copy of the record at `row` and `column`, counted from 0.
    pub fn get(&self, row: usize, column: usize) -> (r: SheetValue)
        requires
            self.wf(),
        ensures
            r@ == self.cell(row as int, column as int),
    {
        if row < self.max_rows && column < self.max_columns {
            let slot: usize = slots_get(&self.slots, row, column);
            assert(slot == self.slot(row as int, column as int));
            if slot > 0 {
                self.records[slot - 1].duplicate()
            } else {
                SheetValue::new()
            }
        } else {
            SheetValue::new()
        }
    }

    /// Puts `record` at `row` and `column`, counted from 0, within the
    /// grid. Nothing else changes. `false`, and nothing changes, where the
    /// sheet already holds as many records as the machine can count.
    pub(crate) fn put(&mut self, row: usize, column: usize, record: SheetValue) -> (stored: bool)
        requires
            old(self).wf(),
            old(self).within(row as int, column as int),
        ensures
            final(self).wf(),
            final(self).name == old(self).name,
            final(self).idx == old(self).idx,
            final(self).max_rows == old(self).max_rows,
            final(self).max_columns == old(self).max_columns,
            stored == (old(self).occupied(row as int, column as int) || old(self).records@.len()
                < usize::MAX),
            stored ==> final(self).cell(row as int, column as int) == record@,
            stored ==> forall|r: int, c: int|
                !(r == row && c == column) ==> final(self).cell(r, c) == old(self).cell(r, c),
            !stored ==> forall|r: int, c: int| final(self).cell(r, c) == old(self).cell(r, c),
    {
        let slot: usize = slots_get(&self.slots, row, column);
        assert(slot == self.slot(row as int, column as int));
        if slot > 0 {
            self.records.set(slot - 1, record);
            assert forall|r: int, c: int| self.within(r, c) implies #[trigger] self.slot(r, c)
                <= self.records@.len() by {
                assert(old(self).slot(r, c) <= old(self).records@.len());
            }
            assert forall|r1: int, c1: int, r2: int, c2: int|
                self.within(r1, c1) && self.within(r2, c2) && #[trigger] self.slot(r1, c1) != 0
                    && self.slot(r1, c1) == #[trigger] self.slot(r2, c2) implies r1 == r2 && c1
                == c2 by {
                assert(old(self).slot(r1, c1) == self.slot(r1, c1));
                assert(old(self).slot(r2, c2) == self.slot(r2, c2));
            }
            assert(self.wf());
            assert forall|r: int, c: int| !(r == row && c == column) implies self.cell(r, c)
                == old(self).cell(r, c) by {
                if self.within(r, c) {
                    assert(old(self).slot(r, c) != slot || old(self).slot(r, c) == 0);
                }
            }
            true
        } else if self.records.len() == usize::MAX {
            false
        } else {
            self.records.push(record);
            let number: usize = self.records.len();
            slots_set(&mut self.slots, row, column, number);
            assert forall|r: int, c: int| self.within(r, c) implies #[trigger] self.slot(r, c)
                == (if r == row && c == column {
                number
            } else {
                old(self).slot(r, c)
            }) by {}
            assert(rows_of_width(slot_rows(self.slots), self.max_columns as int)) by {
                assert forall|r: int| 0 <= r < slot_rows(self.slots).len() implies (
                #[trigger] slot_rows(self.slots)[r]).len() == self.max_columns by {
                    assert(slot_rows(old(self).slots)[r].len() == self.max_columns);
                }
            }
            assert forall|r: int, c: int| self.within(r, c) implies #[trigger] self.slot(r, c)
                <= self.records@.len() by {
                if !(r == row && c == column) {
                    assert(old(self).slot(r, c) <= old(self).records@.len());
                }
            }
            assert forall|r1: int, c1: int, r2: int, c2: int|
                self.within(r1, c1) && self.within(r2, c2) && #[trigger] self.slot(r1, c1) != 0
                    && self.slot(r1, c1) == #[trigger] self.slot(r2, c2) implies r1 == r2 && c1
                == c2 by {
                if !(r1 == row && c1 == column) {
                    assert(old(self).slot(r1, c1) <= old(self).records@.len());
                }
                if !(r2 == row && c2 == column) {
                    assert(old(self).slot(r2, c2) <= old(self).records@.len());
                }
            }
            assert forall|r: int, c: int| !(r == row && c == column) implies self.cell(r, c)
                == old(self).cell(r, c) by {
                if self.within(r, c) {
                    assert(self.slot(r, c) == old(self).slot(r, c));
                    assert(old(self).slot(r, c) <= old(self).records@.len());
                }
            }
            assert(self.wf());
            true
        }
    }

    /// Stores the result of the formula at `row` and `column`, counted
    /// from 0: the cell keeps what was entered, shows `result` and is
    /// calculated. Nothing else changes.
    pub(crate) fn store_result(&mut self, row: usize, column: usize, result: Value)
        requires
            old(self).wf(),
            old(self).within(row as int, column as int),
            old(self).cell(row as int, column as int).value is Formula,
        ensures
            final(self).wf(),
            final(self).name == old(self).name,
            final(self).idx == old(self).idx,
            final(self).max_rows == old(self).max_rows,
            final(self).max_columns == old(self).max_columns,
            final(self).cell(row as int, column as int) == (SheetValueView {
                value: old(self).cell(row as int, column as int).value,
                calculated: result@,
                dirty: false,
            }),
            forall|r: int, c: int|
                !(r == row && c == column) ==> final(self).cell(r, c) == old(self).cell(r, c),
    {
        let slot: usize = slots_get(&self.slots, row, column);
        assert(slot == self.slot(row as int, column as int));
        assert(slot > 0);
        let entered = self.records[slot - 1].value.duplicate();
        self.records.set(slot - 1, SheetValue { value: entered, calculated: result, dirty: false });
        assert forall|r: int, c: int| self.within(r, c) implies #[trigger] self.slot(r, c)
            <= self.records@.len() by {
            assert(old(self).slot(r, c) <= old(self).records@.len());
        }
        assert forall|r1: int, c1: int, r2: int, c2: int|
            self.within(r1, c1) && self.within(r2, c2) && #[trigger] self.slot(r1, c1) != 0
                && self.slot(r1, c1) == #[trigger] self.slot(r2, c2) implies r1 == r2 && c1
            == c2 by {
            assert(old(self).slot(r1, c1) == self.slot(r1, c1));
            assert(old(self).slot(r2, c2) == self.slot(r2, c2));
        }
        assert(self.wf());
        assert forall|r: int, c: int| !(r == row && c == column) implies self.cell(r, c) == old(
            self,
        ).cell(r, c) by {
            if self.within(r, c) {
                assert(old(self).slot(r, c) != slot || old(self).slot(r, c) == 0);
            }
        }
    }

    /// Grows the grid so that it has at least `row` rows and `column`
    /// columns. The cells that it had keep their records; the new ones are
    /// blank. `false`, and nothing changes, where a grid of that size is
    /// beyond what the machine can address.
    pub fn resize(&mut self, row: usize, column: usize) -> (grown: bool)
        requires
            old(self).wf(),
        ensures
            final(self).wf(),
            final(self).name == old(self).name,
            final(self).idx == old(self).idx,
            grown == extent_fits(
                vstd::math::max(old(self).max_rows as int, row as int),
                vstd::math::max(old(self).max_columns as int, column as int),
            ),
            grown ==> final(self).max_rows == vstd::math::max(old(self).max_rows as int, row as int),
            grown ==> final(self).max_columns == vstd::math::max(
                old(self).max_columns as int,
                column as int,
            ),
            !grown ==> final(self).max_rows == old(self).max_rows && final(self).max_columns == old(
                self,
            ).max_columns,
            forall|r: int, c: int| final(self).cell(r, c) == old(self).cell(r, c),
            forall|r: int, c: int| final(self).occupied(r, c) == old(self).occupied(r, c),
            final(self).records == old(self).records,
    {
        let rows: usize = if row > self.max_rows {
            row
        } else {
            self.max_rows
        };
        let columns: usize = if column > self.max_columns {
            column
        } else {
            self.max_columns
        };
        if !fits(rows, columns) {
            return false;
        }
        if self.max_rows == 0 && self.max_columns == 0 {
            self.slots = slots_new(rows, columns);
            self.max_rows = rows;
            self.max_columns = columns;
            assert forall|r: int, c: int| self.within(r, c) implies #[trigger] self.slot(r, c)
                == 0 by {}
            return true;
        }
        let blank_row = zeros(self.max_columns);
        while self.max_rows < rows
            invariant
                self.wf(),
                self.name == old(self).name,
                self.idx == old(self).idx,
                self.max_columns == old(self).max_columns,
                old(self).max_rows <= self.max_rows <= rows,
                self.max_columns <= columns,
                extent_fits(rows as int, columns as int),
                blank_row@.len() == self.max_columns,
                forall|i: int| 0 <= i < blank_row@.len() ==> blank_row@[i] == 0,
                forall|r: int, c: int| self.cell(r, c) == old(self).cell(r, c),
                forall|r: int, c: int| self.occupied(r, c) == old(self).occupied(r, c),
                self.records == old(self).records,
            decreases rows - self.max_rows,
        {
            proof {
                lemma_extent_monotone(
                    self.max_rows + 1,
                    self.max_columns as int,
                    rows as int,
                    columns as int,
                );
            }
            let ghost before = *self;
            let ok = slots_push_row(&mut self.slots, &blank_row);
            assert(ok);
            self.max_rows = self.max_rows + 1;
            proof {
                assert forall|r: int, c: int| self.within(r, c) implies #[trigger] self.slot(r, c)
                    == (if r < before.max_rows {
                    before.slot(r, c)
                } else {
                    0usize
                }) by {}
                assert(rows_of_width(slot_rows(self.slots), self.max_columns as int));
                assert forall|r: int, c: int| self.cell(r, c) == before.cell(r, c) by {}
                assert forall|r: int, c: int| self.occupied(r, c) == before.occupied(r, c) by {}
            }
        }
        while self.max_columns < columns
            invariant
                self.wf(),
                self.name == old(self).name,
                self.idx == old(self).idx,
                self.max_rows == rows,
                old(self).max_columns <= self.max_columns <= columns,
                extent_fits(rows as int, columns as int),
                forall|r: int, c: int| self.cell(r, c) == old(self).cell(r, c),
                forall|r: int, c: int| self.occupied(r, c) == old(self).occupied(r, c),
                self.records == old(self).records,
            decreases columns - self.max_columns,
        {
            proof {
                lemma_extent_monotone(
                    self.max_rows as int,
                    self.max_columns + 1,
                    rows as int,
                    columns as int,
                );
            }
            let blank_column = zeros(self.max_rows);
            let ghost before = *self;
            let ok = slots_push_column(&mut self.slots, &blank_column);
            assert(ok);
            self.max_columns = self.max_columns + 1;
            proof {
                assert forall|r: int, c: int| self.within(r, c) implies #[trigger] self.slot(r, c)
                    == (if c < before.max_columns {
                    before.slot(r, c)
                } else {
                    0usize
                }) by {}
                assert(rows_of_width(slot_rows(self.slots), self.max_columns as int)) by {
                    assert forall|r: int| 0 <= r < slot_rows(self.slots).len() implies (
                    #[trigger] slot_rows(self.slots)[r]).len() == self.max_columns by {}
                }
                assert forall|r: int, c: int| self.cell(r, c) == before.cell(r, c) by {}
                assert forall|r: int, c: int| self.occupied(r, c) == before.occupied(r, c) by {}
            }
        }
        true
    }

    /// Enters `value` in the cell at `row` and `column`, counted from 1,
    /// growing the grid where the cell lies beyond it: a formula waits to
    /// be calculated, any other value is its own result. `false`, and no
    /// cell changes, where the sheet cannot take the value: a row or
    /// column `0`, or a grid beyond what the machine can address or count.
    pub fn set_value(&mut self, row: usize, column: usize, value: Value) -> (stored: bool)
        requires
            old(self).wf(),
        ensures
            final(self).wf(),
            final(self).name == old(self).name,
            final(self).idx == old(self).idx,
            stored ==> row >= 1 && column >= 1 && final(self).cell(row - 1, column - 1) == entered(
                value@,
            ),
            stored ==> forall|r: int, c: int|
                !(r == row - 1 && c == column - 1) ==> final(self).cell(r, c) == old(self).cell(
                    r,
                    c,
                ),
            !stored ==> forall|r: int, c: int| final(self).cell(r, c) == old(self).cell(r, c),
            final(self).max_rows == old(self).rows_with(row, column),
            final(self).max_columns == old(self).columns_with(row, column),
            stored == old(self).takes(row, column),
    {
        if row == 0 || column == 0 {
            return false;
        }
        if !self.resize(row, column) {
            return false;
        }
        self.put(row - 1, column - 1, SheetValue::enter(value))
    }

    /// A copy of the name.
    pub fn name_text(&self) -> (r: Vec<u8>)
        ensures
            r@ == self.name@,
    {
        copy_bytes(self.name.as_slice())
    }
}

} // verus!
