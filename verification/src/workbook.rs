//! The workbook: its sheets, the sheet that unqualified references point
//! to, and the dependency graph of its cells.

use crate::coherence::{
    changed_at, entry_tame, extends, grew_by, new_edges, same_cells, same_entries, same_unparsed,
};
use crate::dependency::{
    expression_edges, formula_body, is_path, is_topological, node_of_range, on_cycle, order_keys,
    range_node, reachable, target_sheet, CellId, DependencyTree, NodeKey,
};
use crate::cell::CellIndex;
use crate::errors::Error;
use crate::evaluate::kernel::Kernel;
use crate::evaluate::value::{
    lemma_view_of_array2, single_of, value_views, Array2, Date, Double, Value, ValueView,
};
use crate::utils::{adjust_formula, adjusted, format_expr, formula_value, without_prefix};
use crate::evaluate::{ensure_non_range, unwrap_range};
use crate::parser::ast::{
    all_ranges_wf, ranges_wf, Error as ExcelError, Expr, ExprView, Infix, Number,
};
use crate::parser::{parse_bytes, parse_outcome, parse_str, parse_text_spec};
use crate::range::{displaced, Range};
use crate::sheet::{blank, shown, Sheet, SheetValue, SheetValueView};
use crate::text::{bytes_eq, copy_bytes, copy_range};
use vstd::arithmetic::div_mod::lemma_fundamental_div_mod_converse;
use vstd::prelude::*;
use vstd::string::StringSliceAdditionalSpecFns;

verus! {

/// A text of the table of shared strings.
#[derive(Debug, Clone, PartialEq, Eq)]
pub struct SharedString(pub Vec<u8>);

/// A cell style, as far as it tells dates from numbers.
#[derive(Debug, Clone, Copy, PartialEq, Eq)]
pub struct Style {
    pub number_format_id: usize,
    pub apply_number_format: bool,
}

impl Style {
    pub fn new() -> (r: Style)
        ensures
            r.number_format_id == 0,
            !r.apply_number_format,
    {
        Style { number_format_id: 0, apply_number_format: false }
    }

    /// Whether a number in a cell of this style is a date: the number
    /// format applies and is one of the date formats, 14 to 22.
    pub open spec fn spec_is_date(&self) -> bool {
        self.apply_number_format && 14 <= self.number_format_id <= 22
    }

    #[verifier::when_used_as_spec(spec_is_date)]
    pub fn is_date(&self) -> (r: bool)
        ensures
            r == self.spec_is_date(),
    {
        self.apply_number_format && self.number_format_id >= 14 && self.number_format_id <= 22
    }
}

impl Default for Style {
    fn default() -> (r: Style)
        ensures
            r.number_format_id == 0,
            !r.apply_number_format,
    {
        Style::new()
    }
}

/// The part of a sheet that a range covers: first row and first column,
/// counted from 0, number of rows and number of columns. Whole rows and
/// whole columns are cut to the size of the sheet.
pub open spec fn region_of(range: Range, sheet: Sheet) -> (int, int, int, int) {
    let whole_columns = range.start_cell.spec_is_vrange();
    let whole_rows = range.start_cell.spec_is_hrange();
    (
        if whole_columns {
            0
        } else {
            range.start_cell.row - 1
        },
        if whole_rows {
            0
        } else {
            range.start_cell.column - 1
        },
        if whole_columns {
            sheet.max_rows as int
        } else {
            range.spec_num_rows()
        },
        if whole_rows {
            sheet.max_columns as int
        } else {
            range.spec_num_cols()
        },
    )
}

/// What the cells of a region show, row after row. Cells beyond the grid
/// of the sheet are empty.
pub open spec fn region_cells(
    sheet: Sheet,
    first_row: int,
    first_column: int,
    rows: int,
    columns: int,
) -> Seq<ValueView> {
    Seq::new(
        (rows * columns) as nat,
        |k: int| shown(sheet.cell(first_row + k / columns, first_column + k % columns)),
    )
}

/// Whether no cell of the region waits to be calculated.
pub open spec fn region_clean(
    sheet: Sheet,
    first_row: int,
    first_column: int,
    rows: int,
    columns: int,
) -> bool {
    forall|r: int, c: int|
        first_row <= r < first_row + rows && first_column <= c < first_column + columns ==> !(
        #[trigger] sheet.cell(r, c)).dirty
}

pub struct Book {
    pub sheets: Vec<Sheet>,
    pub shared_strings: Vec<SharedString>,
    pub styles: Vec<Style>,
    /// The formula cells that have yet to be registered in the graph.
    pub formulas: Vec<(CellId, Vec<u8>)>,
    /// The sheet that a reference without a sheet name points to.
    pub current_sheet: usize,
    pub dependencies: DependencyTree,
}

impl Book {
    pub open spec fn wf(&self) -> bool {
        &&& forall|i: int| 0 <= i < self.sheets@.len() ==> (#[trigger] self.sheets@[i]).wf()
        &&& self.dependencies.wf()
    }

    /// The sheet that a reference points to.
    pub open spec fn target_of(&self, sheet: Option<Seq<u8>>) -> Option<int> {
        target_sheet(sheet, self.current_sheet, self.sheets@)
    }

    /// What a range resolves to: the rectangle of what its cells show.
    /// `Ref` where the sheet does not exist, `Num` where the rectangle has
    /// more cells than the machine can count.
    pub open spec fn resolve_spec(&self, sheet: Option<Seq<u8>>, range: Range) -> Result<
        ValueView,
        ExcelError,
    > {
        match self.target_of(sheet) {
            None => Err(ExcelError::Ref),
            Some(id) => {
                let (first_row, first_column, rows, columns) = region_of(range, self.sheets@[id]);
                if rows * columns > usize::MAX {
                    Err(ExcelError::Num)
                } else {
                    Ok(
                        ValueView::Array2 {
                            rows: rows as nat,
                            columns: columns as nat,
                            cells: region_cells(
                                self.sheets@[id],
                                first_row,
                                first_column,
                                rows,
                                columns,
                            ),
                        },
                    )
                }
            },
        }
    }

    /// Whether every cell of the range is calculated; `false` where the
    /// sheet does not exist.
    pub open spec fn calculated_spec(&self, sheet: Option<Seq<u8>>, range: Range) -> bool {
        match self.target_of(sheet) {
            None => false,
            Some(id) => {
                let (first_row, first_column, rows, columns) = region_of(range, self.sheets@[id]);
                region_clean(self.sheets@[id], first_row, first_column, rows, columns)
            },
        }
    }

    /// A workbook without sheets.
    pub fn new() -> (r: Book)
        ensures
            r.wf(),
            r.registered(),
            r.sheets@.len() == 0,
            r.current_sheet == 0,
            r.fresh(),
            r.kept(),
    {
        let r = Book {
            sheets: Vec::new(),
            shared_strings: Vec::new(),
            styles: Vec::new(),
            formulas: Vec::new(),
            current_sheet: 0,
            dependencies: DependencyTree::new(),
        };
        proof {
            r.lemma_fresh_without_formulas();
        }
        r
    }

    /// Adds an empty sheet behind the others and gives its index.
    pub fn add_sheet(&mut self, name: Vec<u8>) -> (idx: usize)
        requires
            old(self).wf(),
        ensures
            final(self).wf(),
            idx == old(self).sheets@.len(),
            final(self).sheets@.len() == idx + 1,
            final(self).sheets@[idx as int].name == name,
            final(self).sheets@[idx as int].max_rows == 0,
            final(self).sheets@[idx as int].max_columns == 0,
            forall|i: int| 0 <= i < idx ==> final(self).sheets@[i] == old(self).sheets@[i],
            final(self).current_sheet == old(self).current_sheet,
            final(self).dependencies == old(self).dependencies,
            old(self).registered() ==> final(self).registered(),
            old(self).fresh() ==> final(self).fresh(),
            old(self).kept() ==> final(self).kept(),
    {
        let idx: usize = self.sheets.len();
        let sheet = Sheet::new(name, idx);
        self.sheets.push(sheet);
        proof {
            if old(self).kept() {
                assert forall|s: int, r: int, c: int| #[trigger]
                    self.record(s, r, c) == old(self).record(s, r, c) by {
                    if s == idx && r >= 1 && c >= 1 {
                        self.sheets@[idx as int].lemma_cell_beyond(r - 1, c - 1);
                    }
                }
                crate::coherence::lemma_same_kept(*old(self), *self);
            }
            if old(self).fresh() {
                assert forall|s: usize, r: usize, c: usize|
                    (#[trigger] self.record(s as int, r as int, c as int)).value
                        is Formula implies self.record(s as int, r as int, c as int) == old(
                    self,
                ).record(s as int, r as int, c as int) by {
                    if s == idx {
                        self.sheets@[idx as int].lemma_cell_beyond(r - 1, c - 1);
                    }
                }
                Book::lemma_fresh_kept(*old(self), *self);
            }
            if old(self).registered() {
                assert forall|s: usize, r: usize, c: usize| #[trigger]
                    self.waiting(s, r, c) implies self.dependencies.dirty().contains(
                    cell_key(s, r, c),
                ) && self.dependencies.nodes().contains(cell_key(s, r, c)) by {
                    if s == idx {
                        self.sheets@[idx as int].lemma_cell_beyond(r - 1, c - 1);
                    } else {
                        assert(old(self).waiting(s, r, c));
                    }
                }
            }
        }
        idx
    }

    /// Index of the sheet that a reference points to: the first sheet of
    /// that name, or the current sheet where no sheet is named.
    pub fn find_target(&self, sheet: &Option<Vec<u8>>) -> (r: Option<usize>)
        ensures
            match r {
                Some(id) => self.target_of(crate::evaluate::value::opt_text_view(*sheet)) == Some(
                    id as int,
                ) && id < self.sheets@.len(),
                None => self.target_of(crate::evaluate::value::opt_text_view(*sheet)).is_none(),
            },
    {
        match sheet {
            Some(name) => {
                let mut i: usize = 0;
                while i < self.sheets.len()
                    invariant
                        i <= self.sheets.len(),
                        *sheet == Some(*name),
                        crate::dependency::first_named(self.sheets@, name@, 0)
                            == crate::dependency::first_named(self.sheets@, name@, i as int),
                    decreases self.sheets.len() - i,
                {
                    if bytes_eq(self.sheets[i].name.as_slice(), name.as_slice()) {
                        assert(crate::dependency::first_named(self.sheets@, name@, i as int)
                            == Some(i as int));
                        assert(crate::evaluate::value::opt_text_view(*sheet) == Some(name@));
                        return Some(i);
                    }
                    i = i + 1;
                }
                None
            },
            None => {
                if self.current_sheet < self.sheets.len() {
                    Some(self.current_sheet)
                } else {
                    None
                }
            },
        }
    }

    pub fn get_sheet_by_idx(&self, idx: usize) -> (r: &Sheet)
        requires
            idx < self.sheets@.len(),
        ensures
            *r == self.sheets@[idx as int],
    {
        &self.sheets[idx]
    }

    /// The first sheet of that name, if there is one.
    pub fn get_sheet_by_name(&self, name: &Vec<u8>) -> (r: Option<&Sheet>)
        ensures
            match r {
                Some(sheet) => self.target_of(Some(name@)) matches Some(id) && *sheet
                    == self.sheets@[id],
                None => self.target_of(Some(name@)).is_none(),
            },
    {
        let wanted: Option<Vec<u8>> = Some(copy_bytes(name.as_slice()));
        match self.find_target(&wanted) {
            Some(id) => Some(&self.sheets[id]),
            None => None,
        }
    }

    /// The sheet at `idx`, to be changed: the workbook is then what it was
    /// but for that sheet.
    pub fn get_mut_sheet_by_idx(&mut self, idx: usize) -> (r: &mut Sheet)
        requires
            idx < old(self).sheets@.len(),
        ensures
            *r == old(self).sheets@[idx as int],
            final(self).sheets@ == old(self).sheets@.update(idx as int, *final(r)),
            final(self).dependencies == old(self).dependencies,
            final(self).current_sheet == old(self).current_sheet,
            final(self).shared_strings == old(self).shared_strings,
            final(self).styles == old(self).styles,
            final(self).formulas == old(self).formulas,
    {
        &mut self.sheets[idx]
    }

    /// The first sheet called `name`, to be changed: the workbook is then
    /// what it was but for that sheet.
    pub fn get_mut_sheet_by_name(&mut self, name: &Vec<u8>) -> (r: &mut Sheet)
        requires
            old(self).target_of(Some(name@)) is Some,
        ensures
            *r == old(self).sheets@[old(self).target_of(Some(name@)).unwrap()],
            final(self).sheets@ == old(self).sheets@.update(
                old(self).target_of(Some(name@)).unwrap(),
                *final(r),
            ),
            final(self).dependencies == old(self).dependencies,
            final(self).current_sheet == old(self).current_sheet,
            final(self).shared_strings == old(self).shared_strings,
            final(self).styles == old(self).styles,
            final(self).formulas == old(self).formulas,
    {
        let wanted: Option<Vec<u8>> = Some(copy_bytes(name.as_slice()));
        let id: usize = match self.find_target(&wanted) {
            Some(id) => id,
            None => 0,
        };
        &mut self.sheets[id]
    }

    /// The zero-based region of `range` on sheet `id`.
    fn region(&self, id: usize, range: &Range) -> (r: (usize, usize, usize, usize))
        requires
            self.wf(),
            range.wf(),
            id < self.sheets@.len(),
        ensures
            (r.0 as int, r.1 as int, r.2 as int, r.3 as int) == region_of(
                *range,
                self.sheets@[id as int],
            ),
            r.0 + r.2 <= usize::MAX,
            r.1 + r.3 <= usize::MAX,
    {
        let sheet = &self.sheets[id];
        proof {
            sheet.lemma_extent();
        }
        let whole_columns = range.is_vrange();
        let whole_rows = range.is_hrange();
        let first_row: usize = if whole_columns {
            0
        } else {
            range.row() - 1
        };
        let first_column: usize = if whole_rows {
            0
        } else {
            range.column() - 1
        };
        let rows: usize = if whole_columns {
            sheet.max_rows
        } else {
            range.num_rows()
        };
        let columns: usize = if whole_rows {
            sheet.max_columns
        } else {
            range.num_cols()
        };
        (first_row, first_column, rows, columns)
    }

    /// What the cells of a range show, as a rectangle. Cells beyond the
    /// grid of the sheet are empty; whole rows and columns are cut to the
    /// size of the sheet. `Ref` where the sheet does not exist, `Num`
    /// where the rectangle has more cells than the machine can count.
    pub fn resolve(&self, sheet: &Option<Vec<u8>>, range: &Range) -> (r: Result<Array2, ExcelError>)
        requires
            self.wf(),
            range.wf(),
        ensures
            match r {
                Ok(grid) => self.resolve_spec(crate::evaluate::value::opt_text_view(*sheet), *range)
                    == Ok::<ValueView, ExcelError>((Value::Array2(grid))@),
                Err(e) => self.resolve_spec(crate::evaluate::value::opt_text_view(*sheet), *range)
                    == Err::<ValueView, ExcelError>(e),
            },
    {
        let id: usize = match self.find_target(sheet) {
            Some(id) => id,
            None => {
                return Err(ExcelError::Ref);
            },
        };
        let (first_row, first_column, rows, columns) = self.region(id, range);
        let total: usize = match rows.checked_mul(columns) {
            Some(n) => n,
            None => {
                return Err(ExcelError::Num);
            },
        };
        let source = &self.sheets[id];
        let mut cells: Vec<Value> = Vec::new();
        let mut i: usize = 0;
        while i < rows
            invariant
                i <= rows,
                source.wf(),
                total == rows * columns,
                first_row + rows <= usize::MAX,
                first_column + columns <= usize::MAX,
                cells@.len() == i * columns,
                forall|k: int|
                    0 <= k < cells@.len() ==> (#[trigger] cells@[k])@ == shown(
                        source.cell(first_row + k / (columns as int), first_column + k % (
                        columns as int)),
                    ),
            decreases rows - i,
        {
            let mut j: usize = 0;
            while j < columns
                invariant
                    i < rows,
                    j <= columns,
                    source.wf(),
                    total == rows * columns,
                    first_row + rows <= usize::MAX,
                    first_column + columns <= usize::MAX,
                    cells@.len() == i * columns + j,
                    forall|k: int|
                        0 <= k < cells@.len() ==> (#[trigger] cells@[k])@ == shown(
                            source.cell(first_row + k / (columns as int), first_column + k % (
                            columns as int)),
                        ),
                decreases columns - j,
            {
                let value = source.get(first_row + i, first_column + j).show();
                proof {
                    lemma_fundamental_div_mod_converse(
                        i * columns + j,
                        columns as int,
                        i as int,
                        j as int,
                    );
                }
                cells.push(value);
                j = j + 1;
            }
            assert(i * columns + columns == (i + 1) * columns) by (nonlinear_arith);
            i = i + 1;
        }
        let grid = Array2 { rows, columns, cells };
        proof {
            lemma_view_of_array2(grid);
            assert(value_views(grid.cells@) =~= region_cells(
                self.sheets@[id as int],
                first_row as int,
                first_column as int,
                rows as int,
                columns as int,
            ));
        }
        Ok(grid)
    }

    /// Resolves a reference expression as `resolve` does; any other
    /// expression gives `Value`.
    pub fn resolve_ref(&self, expr: &Expr) -> (r: Result<Array2, ExcelError>)
        requires
            self.wf(),
            crate::parser::ast::ranges_wf(expr@),
        ensures
            match expr@ {
                ExprView::Reference { sheet, range } => match r {
                    Ok(grid) => self.resolve_spec(sheet, range) == Ok::<ValueView, ExcelError>(
                        (Value::Array2(grid))@,
                    ),
                    Err(e) => self.resolve_spec(sheet, range) == Err::<ValueView, ExcelError>(e),
                },
                _ => r == Err::<Array2, ExcelError>(ExcelError::Value),
            },
    {
        match expr {
            Expr::Reference { sheet, range } => self.resolve(sheet, range),
            _ => Err(ExcelError::Value),
        }
    }

    /// Whether every cell of the range is calculated.
    pub fn is_calculated(&self, sheet: &Option<Vec<u8>>, range: &Range) -> (r: bool)
        requires
            self.wf(),
            range.wf(),
        ensures
            r == self.calculated_spec(crate::evaluate::value::opt_text_view(*sheet), *range),
    {
        let id: usize = match self.find_target(sheet) {
            Some(id) => id,
            None => {
                return false;
            },
        };
        let (first_row, first_column, rows, columns) = self.region(id, range);
        clean_region(&self.sheets[id], first_row, first_column, rows, columns)
    }
}

/// Whether no cell of the region waits to be calculated.
pub(crate) fn clean_region(
    source: &Sheet,
    first_row: usize,
    first_column: usize,
    rows: usize,
    columns: usize,
) -> (r: bool)
    requires
        source.wf(),
        first_row + rows <= usize::MAX,
        first_column + columns <= usize::MAX,
    ensures
        r == region_clean(
            *source,
            first_row as int,
            first_column as int,
            rows as int,
            columns as int,
        ),
{
    let mut i: usize = 0;
    while i < rows
        invariant
            i <= rows,
            source.wf(),
            first_row + rows <= usize::MAX,
            first_column + columns <= usize::MAX,
            region_clean(
                *source,
                first_row as int,
                first_column as int,
                i as int,
                columns as int,
            ),
        decreases rows - i,
    {
        let mut j: usize = 0;
        while j < columns
            invariant
                i < rows,
                j <= columns,
                source.wf(),
                first_row + rows <= usize::MAX,
                first_column + columns <= usize::MAX,
                region_clean(
                    *source,
                    first_row as int,
                    first_column as int,
                    i as int,
                    columns as int,
                ),
                region_clean(*source, first_row + i, first_column as int, 1, j as int),
            decreases columns - j,
        {
            let record = source.get(first_row + i, first_column + j);
            if record.dirty {
                assert(source.cell(first_row + i, first_column + j).dirty);
                assert(!region_clean(
                    *source,
                    first_row as int,
                    first_column as int,
                    rows as int,
                    columns as int,
                ));
                return false;
            }
            j = j + 1;
        }
        i = i + 1;
    }
    true
}

/// The node of the single cell at `row` and `column`, counted from 1, of
/// sheet `sheet`.
pub open spec fn cell_key(sheet: usize, row: usize, column: usize) -> NodeKey {
    (sheet, row, column, 1, 1)
}

/// The record of a cell whose formula has given `v`: it shows the single
/// value that stands for `v`.
pub open spec fn calculated_record(entered: ValueView, v: ValueView) -> SheetValueView {
    SheetValueView { value: entered, calculated: single_of(unwrap_range(v)), dirty: false }
}

impl Book {
    /// The record of the cell at `row` and `column`, counted from 1, of
    /// sheet `sheet`; blank where there is no such cell.
    pub open spec fn record(&self, sheet: int, row: int, column: int) -> SheetValueView {
        if 0 <= sheet < self.sheets@.len() && row >= 1 && column >= 1 {
            self.sheets@[sheet].cell(row - 1, column - 1)
        } else {
            blank()
        }
    }

    /// Whether the cell holds a formula that waits to be calculated.
    pub open spec fn waiting(&self, sheet: usize, row: usize, column: usize) -> bool {
        self.record(sheet as int, row as int, column as int).value is Formula && self.record(
            sheet as int,
            row as int,
            column as int,
        ).dirty
    }

    /// Every formula that waits to be calculated is a marked node of the
    /// graph.
    pub open spec fn registered(&self) -> bool {
        forall|s: usize, r: usize, c: usize| #[trigger]
            self.waiting(s, r, c) ==> self.dependencies.dirty().contains(cell_key(s, r, c))
                && self.dependencies.nodes().contains(cell_key(s, r, c))
    }

    /// The graph has an order of calculation, and none of its nodes is
    /// marked: there is nothing to calculate.
    pub open spec fn settled(&self) -> bool {
        &&& !crate::dependency::has_cycle(self.dependencies.edges())
        &&& forall|n: NodeKey|
            self.dependencies.nodes().contains(n) ==> !self.dependencies.dirty().contains(n)
    }

    /// No formula waits to be calculated.
    pub open spec fn all_calculated(&self) -> bool {
        forall|s: usize, r: usize, c: usize| !#[trigger] self.waiting(s, r, c)
    }

    /// The workbook with `sheet` as the sheet that references without a
    /// sheet name point to.
    pub open spec fn at_sheet(&self, sheet: usize) -> Book {
        Book {
            sheets: self.sheets,
            shared_strings: self.shared_strings,
            styles: self.styles,
            formulas: self.formulas,
            current_sheet: sheet,
            dependencies: self.dependencies,
        }
    }

    /// The same sheets by name and size, and the same graph.
    pub open spec fn same_frame(&self, other: &Book) -> bool {
        &&& self.sheets@.len() == other.sheets@.len()
        &&& forall|i: int|
            0 <= i < self.sheets@.len() ==> (#[trigger] self.sheets@[i]).name == other.sheets@[i].name
                && self.sheets@[i].max_rows == other.sheets@[i].max_rows
                && self.sheets@[i].max_columns == other.sheets@[i].max_columns
    }

    /// The text of the formula that the node stands for, where the node is
    /// marked and is a single cell that holds a formula.
    pub open spec fn formula_of(&self, cell: CellId) -> Option<Seq<u8>> {
        if cell.dirty && cell.num_row == 1 && cell.num_col == 1 {
            match self.record(cell.sheet as int, cell.row as int, cell.column as int).value {
                ValueView::Formula(text) => Some(text),
                _ => None,
            }
        } else {
            None
        }
    }

    /// Calculates the formula of one node. A node that is not marked, that
    /// is no single cell or that holds no formula is left alone. The
    /// formula is parsed, without the `=` that it begins with, and
    /// evaluated with the sheet of the cell as the current sheet; the
    /// cell then shows the single value that stands for the result and is
    /// calculated. Formula text that does not parse fails with
    /// `Calculation`, holding the error of the parser; an evaluation that
    /// ends with the signal `Volatile` fails with that signal. On failure
    /// no cell changes.
    pub fn calculate_cell<FN, FA, FT, FL>(
        &mut self,
        cell_id: &CellId,
        kernel: &Kernel<FN, FA, FT, FL>,
    ) -> (r: Result<(), Error>) where
        FN: Fn(&Number) -> Option<Double>,
        FA: Fn(Infix, Double, Double) -> Double,
        FT: Fn(Double) -> i64,
        FL: Fn(&Vec<u8>, Vec<Value>) -> Option<Value>,

        requires
            old(self).wf(),
            kernel.ok(),
        ensures
            final(self).wf(),
            final(self).same_frame(old(self)),
            final(self).dependencies == old(self).dependencies,
            forall|s: int, r: int, c: int|
                !(s == cell_id.sheet && r == cell_id.row && c == cell_id.column)
                    ==> final(self).record(s, r, c) == old(self).record(s, r, c),
            r.is_ok() ==> kernel.stored(*old(self), *final(self), *cell_id),
            r is Err ==> *final(self) == *old(self),
            same_entries(*old(self), *final(self)),
            same_unparsed(*old(self), *final(self)),
            r matches Err(Error::Volatile(x)) ==> kernel.signals(*old(self), *cell_id, x@),
            match old(self).formula_of(*cell_id) {
                None => r.is_ok() && final(self).record(
                    cell_id.sheet as int,
                    cell_id.row as int,
                    cell_id.column as int,
                ) == old(self).record(
                    cell_id.sheet as int,
                    cell_id.row as int,
                    cell_id.column as int,
                ),
                Some(text) => match parse_text_spec(formula_body(text)) {
                    None => r matches Err(Error::Calculation(c, cause)) && c == *cell_id
                        && parse_outcome(formula_body(text), Err::<Expr, Error>(*cause))
                        && final(self).record(
                        cell_id.sheet as int,
                        cell_id.row as int,
                        cell_id.column as int,
                    ) == old(self).record(
                        cell_id.sheet as int,
                        cell_id.row as int,
                        cell_id.column as int,
                    ),
                    Some(e) => match kernel.eval_spec(
                        Some(old(self).at_sheet(cell_id.sheet)),
                        e,
                    ) {
                        Ok(v) => r.is_ok() && final(self).record(
                            cell_id.sheet as int,
                            cell_id.row as int,
                            cell_id.column as int,
                        ) == calculated_record(ValueView::Formula(text), v),
                        Err(pending) => r matches Err(Error::Volatile(x)) && x@ == pending
                            && ranges_wf(x@) && final(self).record(
                            cell_id.sheet as int,
                            cell_id.row as int,
                            cell_id.column as int,
                        ) == old(self).record(
                            cell_id.sheet as int,
                            cell_id.row as int,
                            cell_id.column as int,
                        ),
                    },
                },
            },
    {
        let text: Vec<u8> = match self.node_formula(cell_id) {
            Some(text) => text,
            None => {
                return Ok(());
            },
        };
        let id: usize = cell_id.sheet;
        let from: usize = if text.len() > 0 && text[0] == 0x3D {
            1
        } else {
            0
        };
        let body = copy_range(text.as_slice(), from, text.len());
        assert(body@ =~= formula_body(text@));
        let expression = match parse_bytes(body.as_slice()) {
            Ok(expression) => expression,
            Err(e) => {
                return Err(Error::Calculation(*cell_id, Box::new(e)));
            },
        };
        let ghost before = *self;
        let home: usize = self.current_sheet;
        self.current_sheet = id;
        assert(*self == before.at_sheet(id));
        let value = match kernel.evaluate(Some(&*self), &expression) {
            Ok(value) => value,
            Err(e) => {
                self.current_sheet = home;
                proof {
                    assert(*self == before);
                    lemma_signal_wf(kernel, before.at_sheet(id), expression@);
                }
                return Err(e);
            },
        };
        let result = ensure_non_range(value).ensure_single();
        self.keep_result(cell_id, result);
        Ok(())
    }

    /// The text of the formula that the node stands for, where the node is
    /// marked and is a single cell that holds a formula.
    fn node_formula(&self, cell_id: &CellId) -> (r: Option<Vec<u8>>)
        requires
            self.wf(),
        ensures
            match r {
                Some(text) => self.formula_of(*cell_id) == Some(text@) && cell_id.sheet
                    < self.sheets@.len() && 1 <= cell_id.row <= self.sheets@[cell_id.sheet as int].max_rows
                    && 1 <= cell_id.column <= self.sheets@[cell_id.sheet as int].max_columns,
                None => self.formula_of(*cell_id) is None,
            },
    {
        if !(cell_id.dirty && cell_id.num_row == 1 && cell_id.num_col == 1) {
            return None;
        }
        let id: usize = cell_id.sheet;
        if id >= self.sheets.len() || cell_id.row == 0 || cell_id.column == 0 {
            return None;
        }
        let row: usize = cell_id.row - 1;
        let column: usize = cell_id.column - 1;
        if row >= self.sheets[id].max_rows || column >= self.sheets[id].max_columns {
            proof {
                self.sheets@[id as int].lemma_cell_beyond(row as int, column as int);
            }
            return None;
        }
        let record = self.sheets[id].get(row, column);
        match record.value {
            Value::Formula(text) => Some(text),
            _ => None,
        }
    }

    /// Stores the result of the formula in the cell of the node: the cell
    /// keeps what was entered, shows `result` and is calculated. Nothing
    /// else changes.
    fn keep_result(&mut self, cell_id: &CellId, result: Value)
        requires
            old(self).wf(),
            cell_id.sheet < old(self).sheets@.len(),
            1 <= cell_id.row <= old(self).sheets@[cell_id.sheet as int].max_rows,
            1 <= cell_id.column <= old(self).sheets@[cell_id.sheet as int].max_columns,
            old(self).record(
                cell_id.sheet as int,
                cell_id.row as int,
                cell_id.column as int,
            ).value is Formula,
        ensures
            final(self).wf(),
            final(self).same_frame(old(self)),
            final(self).dependencies == old(self).dependencies,
            final(self).record(cell_id.sheet as int, cell_id.row as int, cell_id.column as int)
                == (SheetValueView {
                value: old(self).record(
                    cell_id.sheet as int,
                    cell_id.row as int,
                    cell_id.column as int,
                ).value,
                calculated: result@,
                dirty: false,
            }),
            forall|s: int, r: int, c: int|
                !(s == cell_id.sheet && r == cell_id.row && c == cell_id.column)
                    ==> #[trigger] final(self).record(s, r, c) == old(self).record(s, r, c),
    {
        let ghost before = *self;
        let id: usize = cell_id.sheet;
        let mut sheet = self.sheets.remove(id);
        sheet.store_result(cell_id.row - 1, cell_id.column - 1, result);
        self.sheets.insert(id, sheet);
        proof {
            assert forall|i: int| 0 <= i < self.sheets@.len() implies (
            #[trigger] self.sheets@[i]).wf() by {
                if i != id {
                    assert(self.sheets@[i] == before.sheets@[i]);
                }
            }
            assert forall|s: int, r: int, c: int|
                !(s == cell_id.sheet && r == cell_id.row && c == cell_id.column) implies self.record(
                s,
                r,
                c,
            ) == before.record(s, r, c) by {
                if 0 <= s < self.sheets@.len() && s != id {
                    assert(self.sheets@[s] == before.sheets@[s]);
                }
            }
            assert forall|i: int| 0 <= i < self.sheets@.len() implies (
            #[trigger] self.sheets@[i]).name == before.sheets@[i].name
                && self.sheets@[i].max_rows == before.sheets@[i].max_rows
                && self.sheets@[i].max_columns == before.sheets@[i].max_columns by {
                if i != id {
                    assert(self.sheets@[i] == before.sheets@[i]);
                }
            }
        }
    }
}

/// What one step of the calculation leaves of the workbook `before`: the
/// graph, and every record but that of the cell of the node, which is as
/// it was unless the node is marked and is a single cell with a formula.
pub open spec fn stepped(before: Book, mid: Book, cell: CellId) -> bool {
    &&& mid.dependencies == before.dependencies
    &&& forall|s: int, r: int, c: int|
        !(s == cell.sheet && r == cell.row && c == cell.column) ==> #[trigger] mid.record(s, r, c)
            == before.record(s, r, c)
    &&& before.formula_of(cell).is_none() ==> mid.record(
        cell.sheet as int,
        cell.row as int,
        cell.column as int,
    ) == before.record(cell.sheet as int, cell.row as int, cell.column as int)
    &&& before.formula_of(cell).is_some() ==> !mid.record(
        cell.sheet as int,
        cell.row as int,
        cell.column as int,
    ).dirty
}

/// After the step of a node whose mark said whether it was marked, the
/// node is done.
proof fn lemma_step_done(before: Book, mid: Book, cell: CellId)
    requires
        before.registered(),
        stepped(before, mid, cell),
        cell.dirty == before.dependencies.dirty().contains(cell.key()),
    ensures
        done(mid, cell),
{
    if cell.num_row == 1 && cell.num_col == 1 && mid.waiting(cell.sheet, cell.row, cell.column) {
        assert(before.formula_of(cell).is_none());
        assert(before.waiting(cell.sheet, cell.row, cell.column));
        assert(cell.key() == cell_key(cell.sheet, cell.row, cell.column));
    }
}

/// A step leaves the nodes done that were done.
proof fn lemma_step_keeps_done(before: Book, mid: Book, cell: CellId, other: CellId)
    requires
        stepped(before, mid, cell),
        done(before, other),
    ensures
        done(mid, other),
{
    if other.num_row == 1 && other.num_col == 1 {
        if other.sheet == cell.sheet && other.row == cell.row && other.column == cell.column {
        } else {
            assert(mid.record(other.sheet as int, other.row as int, other.column as int)
                == before.record(other.sheet as int, other.row as int, other.column as int));
        }
    }
}

/// After a step and the clearing of the mark of its node, every formula
/// that waits is still a marked node.
proof fn lemma_step_registered(before: Book, mid: Book, after: Book, cell: CellId)
    requires
        before.registered(),
        stepped(before, mid, cell),
        done(mid, cell),
        after.sheets == mid.sheets,
        after.dependencies.tree == mid.dependencies.tree,
        after.dependencies.dirty() == mid.dependencies.dirty().remove(cell.key()),
    ensures
        after.registered(),
{
    assert forall|s: usize, r: usize, c: usize| #[trigger] after.waiting(s, r, c) implies
        after.dependencies.dirty().contains(cell_key(s, r, c))
        && after.dependencies.nodes().contains(cell_key(s, r, c)) by {
        assert(after.record(s as int, r as int, c as int) == mid.record(
            s as int,
            r as int,
            c as int,
        ));
        assert(mid.waiting(s, r, c));
        if s == cell.sheet && r == cell.row && c == cell.column {
            assert(!(cell.num_row == 1 && cell.num_col == 1));
            assert(before.formula_of(cell).is_none());
            assert(before.waiting(s, r, c));
        } else {
            assert(before.waiting(s, r, c));
        }
        assert(cell_key(s, r, c) != cell.key());
    }
}

/// A workbook with the records and the graph of a workbook in which
/// every formula that waits is a marked node is such a workbook.
proof fn lemma_same_records_registered(before: Book, after: Book)
    requires
        before.registered(),
        after.dependencies == before.dependencies,
        forall|s: int, r: int, c: int| #[trigger] after.record(s, r, c) == before.record(s, r, c),
    ensures
        after.registered(),
{
    assert forall|s: usize, r: usize, c: usize| #[trigger] after.waiting(s, r, c) implies
        after.dependencies.dirty().contains(cell_key(s, r, c))
        && after.dependencies.nodes().contains(cell_key(s, r, c)) by {
        assert(after.record(s as int, r as int, c as int) == before.record(
            s as int,
            r as int,
            c as int,
        ));
        assert(before.waiting(s, r, c));
    }
}

/// A step and the clearing of the mark of its node change the record of
/// the cell of the node at most.
proof fn lemma_step_changes(before: Book, mid: Book, after: Book, cell: CellId)
    requires
        mid.same_frame(&before),
        forall|s: int, r: int, c: int|
            !(s == cell.sheet && r == cell.row && c == cell.column) ==> mid.record(s, r, c)
                == before.record(s, r, c),
        after.sheets == mid.sheets,
    ensures
        changed_at(before, after, (cell.sheet, cell.row, cell.column)),
        forall|s: int, r: int, c: int| #[trigger] after.record(s, r, c) == mid.record(s, r, c),
{
    assert forall|i: int| 0 <= i < before.sheets@.len() implies (
    #[trigger] before.sheets@[i]).name == after.sheets@[i].name && before.sheets@[i].max_rows
        == after.sheets@[i].max_rows && before.sheets@[i].max_columns
        == after.sheets@[i].max_columns by {
        assert(mid.sheets@[i].name == before.sheets@[i].name);
    }
    assert forall|s: int, r: int, c: int|
        !(s == cell.sheet && r == cell.row && c == cell.column) implies #[trigger] after.record(
        s,
        r,
        c,
    ) == before.record(s, r, c) by {
        assert(mid.record(s, r, c) == before.record(s, r, c));
    }
}

/// A step that failed has changed no cell.
proof fn lemma_step_nothing(before: Book, after: Book, cell: CellId)
    requires
        after.same_frame(&before),
        forall|s: int, r: int, c: int| #[trigger] after.record(s, r, c) == before.record(s, r, c),
    ensures
        same_cells(before, after),
{
    assert forall|i: int| 0 <= i < before.sheets@.len() implies (
    #[trigger] before.sheets@[i]).name == after.sheets@[i].name && before.sheets@[i].max_rows
        == after.sheets@[i].max_rows && before.sheets@[i].max_columns
        == after.sheets@[i].max_columns by {
        assert(after.sheets@[i].name == before.sheets@[i].name);
    }
}

/// The failure names a marked cell with a formula that does not parse,
/// and holds the error of the parser.
pub open spec fn unparsed_formula(book: Book, e: Error) -> bool {
    e matches Error::Calculation(cell, cause) && book.formula_of(cell) matches Some(text)
        && parse_outcome(formula_body(text), Err::<Expr, Error>(*cause))
}

/// The edges that a restart has added are edges that the calculation may
/// install, and so are those that it had added before.
proof fn lemma_installed<FN, FA, FT, FL>(
    kernel: &Kernel<FN, FA, FT, FL>,
    first: Book,
    mid: Book,
    now: Book,
    cell: CellId,
    pending: ExprView,
) where
    FN: Fn(&Number) -> Option<Double>,
    FA: Fn(Infix, Double, Double) -> Double,
    FT: Fn(Double) -> i64,
    FL: Fn(&Vec<u8>, Vec<Value>) -> Option<Value>,

    requires
        mid.same_frame(&first),
        same_entries(first, mid),
        kernel.signals(mid, cell, pending),
        mid.signal_edge(cell, pending) is Some,
        now.dependencies.edges() == mid.dependencies.edges().union(
            expression_edges(pending, cell.sheet, cell.key(), mid.sheets@),
        ).insert(mid.signal_edge(cell, pending)->Some_0),
        forall|e: (NodeKey, NodeKey)| #[trigger]
            mid.dependencies.edges().contains(e) ==> first.dependencies.edges().contains(e)
                || kernel.installs(first, e),
    ensures
        forall|e: (NodeKey, NodeKey)| #[trigger]
            now.dependencies.edges().contains(e) ==> first.dependencies.edges().contains(e)
                || kernel.installs(first, e),
{
    crate::coherence::lemma_edges_alike(
        pending,
        cell.sheet,
        cell.key(),
        mid.sheets@,
        first.sheets@,
    );
    crate::coherence::lemma_signal_edge_alike(mid, first, cell, pending);
    assert forall|e: (NodeKey, NodeKey)| #[trigger]
        now.dependencies.edges().contains(e) implies first.dependencies.edges().contains(e)
        || kernel.installs(first, e) by {
        if !mid.dependencies.edges().contains(e) {
            assert(kernel.signals(mid, cell, pending));
        }
    }
}

/// Formulas that do not parse stay as they are through steps that leave
/// them.
proof fn lemma_unparsed_chain(a: Book, b: Book, c: Book, d: Book)
    requires
        same_entries(a, b),
        same_unparsed(a, b),
        same_unparsed(b, c),
        forall|s: int, r: int, k: int| #[trigger] d.record(s, r, k) == c.record(s, r, k),
    ensures
        same_unparsed(a, d),
{
    assert forall|s: usize, r: usize, k: usize|
        a.record(s as int, r as int, k as int).value is Formula && a.formula_at(s, r, k)
            is None implies #[trigger] d.record(s as int, r as int, k as int) == a.record(
        s as int,
        r as int,
        k as int,
    ) by {
        assert(d.record(s as int, r as int, k as int) == c.record(s as int, r as int, k as int));
        assert(b.record(s as int, r as int, k as int) == a.record(s as int, r as int, k as int));
        assert(b.formula_at(s, r, k) is None);
        assert(c.record(s as int, r as int, k as int) == b.record(s as int, r as int, k as int));
    }
}

/// What was entered stays through steps that leave it.
proof fn lemma_entries_chain(a: Book, b: Book, c: Book, d: Book)
    requires
        same_entries(a, b),
        same_entries(b, c),
        forall|s: int, r: int, k: int| #[trigger] d.record(s, r, k) == c.record(s, r, k),
    ensures
        same_entries(a, d),
{
    assert forall|s: int, r: int, k: int| (#[trigger] d.record(s, r, k)).value == a.record(
        s,
        r,
        k,
    ).value by {
        assert(d.record(s, r, k) == c.record(s, r, k));
        assert(c.record(s, r, k).value == b.record(s, r, k).value);
        assert(b.record(s, r, k).value == a.record(s, r, k).value);
    }
}

/// No node of the run is marked.
pub open spec fn unmarked(order: Seq<CellId>) -> bool {
    forall|i: int| 0 <= i < order.len() ==> !(#[trigger] order[i]).dirty
}

/// Every cell has the same record in both workbooks.
pub open spec fn same_records(a: Book, b: Book) -> bool {
    forall|s: int, r: int, c: int| #[trigger] a.record(s, r, c) == b.record(s, r, c)
}

/// A node that stands for a single cell holds no formula that waits.
pub open spec fn done(book: Book, cell: CellId) -> bool {
    cell.num_row == 1 && cell.num_col == 1 ==> !book.waiting(cell.sheet, cell.row, cell.column)
}

impl Book {
    /// Calculates the nodes of `order` one after the other and clears the
    /// mark of each. `None` where it came to the end; else the node whose
    /// evaluation ended with the signal `Volatile`, and the reference of
    /// the signal.
    fn calculate_pass<FN, FA, FT, FL>(
        &mut self,
        order: &Vec<CellId>,
        kernel: &Kernel<FN, FA, FT, FL>,
    ) -> (r: Result<Option<(CellId, Expr)>, Error>) where
        FN: Fn(&Number) -> Option<Double>,
        FA: Fn(Infix, Double, Double) -> Double,
        FT: Fn(Double) -> i64,
        FL: Fn(&Vec<u8>, Vec<Value>) -> Option<Value>,

        requires
            old(self).wf(),
            old(self).registered(),
            kernel.ok(),
            is_topological(
                order_keys(order@),
                old(self).dependencies.nodes(),
                old(self).dependencies.edges(),
            ),
            forall|i: int|
                0 <= i < order@.len() ==> (#[trigger] order@[i]).dirty == old(
                    self,
                ).dependencies.dirty().contains(order@[i].key()),
        ensures
            final(self).wf(),
            final(self).registered(),
            final(self).same_frame(old(self)),
            final(self).dependencies.tree == old(self).dependencies.tree,
            same_entries(*old(self), *final(self)),
            same_unparsed(*old(self), *final(self)),
            kernel.sound(*old(self)) ==> kernel.sound(*final(self)),
            old(self).kept() ==> final(self).kept(),
            old(self).kept() ==> (r matches Ok(Some((cell, expression))) ==> !final(self).stuck(
                cell,
                expression@,
            )),
            match r {
                Ok(None) => forall|i: int|
                    0 <= i < order@.len() ==> done(*final(self), #[trigger] order@[i])
                        && !final(self).dependencies.dirty().contains(order@[i].key()),
                Ok(Some((cell, expression))) => ranges_wf(expression@) && kernel.signals(
                    *final(self),
                    cell,
                    expression@,
                ) && final(self).dependencies.dirty().contains(cell.key()),
                Err(e) => unparsed_formula(*final(self), e),
            },
            unmarked(order@) ==> (r matches Ok(None)) && final(self).dependencies.dirty() == old(
                self,
            ).dependencies.dirty() && same_records(*final(self), *old(self)),
    {
        let mut i: usize = 0;
        while i < order.len()
            invariant
                i <= order.len(),
                self.wf(),
                self.registered(),
                kernel.ok(),
                self.same_frame(old(self)),
                self.dependencies.tree == old(self).dependencies.tree,
                same_entries(*old(self), *self),
                same_unparsed(*old(self), *self),
                kernel.sound(*old(self)) ==> kernel.sound(*self),
                old(self).kept() ==> self.kept(),
                is_topological(
                    order_keys(order@),
                    self.dependencies.nodes(),
                    self.dependencies.edges(),
                ),
                forall|k: int| 0 <= k < i ==> done(*self, #[trigger] order@[k]),
                forall|k: int|
                    0 <= k < i ==> !self.dependencies.dirty().contains((#[trigger] order@[k]).key()),
                unmarked(order@) ==> self.dependencies.dirty() == old(self).dependencies.dirty()
                    && same_records(*self, *old(self)),
                forall|j: int|
                    i <= j < order@.len() ==> (#[trigger] order@[j]).dirty
                        == self.dependencies.dirty().contains(order@[j].key()),
            decreases order.len() - i,
        {
            let cell: CellId = order[i];
            let ghost before = *self;
            match self.calculate_cell(&cell, kernel) {
                Ok(()) => {
                    let ghost mid = *self;
                    self.dependencies.clear_dirty(&cell);
                    proof {
                        lemma_entries_chain(*old(self), before, mid, *self);
                        lemma_unparsed_chain(*old(self), before, mid, *self);
                        if before.kept() {
                            kernel.lemma_stored_kept(before, mid, cell);
                            assert forall|s: int, r: int, c: int| #[trigger]
                                self.record(s, r, c) == mid.record(s, r, c) by {}
                            crate::coherence::lemma_same_kept(mid, *self);
                        }
                        if kernel.sound(before) {
                            lemma_step_changes(before, mid, *self, cell);
                            kernel.lemma_step(before, *self, order@, i as int);
                        }
                        lemma_step_done(before, mid, cell);
                        lemma_step_registered(before, mid, *self, cell);
                        assert forall|k: int| 0 <= k < i + 1 implies done(
                            *self,
                            #[trigger] order@[k],
                        ) by {
                            if k < i {
                                lemma_step_keeps_done(before, mid, cell, order@[k]);
                            }
                        }
                        assert forall|j: int| i + 1 <= j < order@.len() implies (
                        #[trigger] order@[j]).dirty == self.dependencies.dirty().contains(
                            order@[j].key(),
                        ) by {
                            assert(order_keys(order@)[j] == order@[j].key());
                            assert(order_keys(order@)[i as int] == cell.key());
                        }
                        assert forall|k: int| 0 <= k < i + 1 implies !self.dependencies.dirty().contains(
                            (#[trigger] order@[k]).key(),
                        ) by {
                            assert(order_keys(order@)[k] == order@[k].key());
                            assert(order_keys(order@)[i as int] == cell.key());
                        }
                        if unmarked(order@) {
                            assert(!order@[i as int].dirty);
                            assert(before.formula_of(cell).is_none());
                            assert(self.dependencies.dirty() =~= before.dependencies.dirty());
                            assert forall|s: int, r: int, c: int| #[trigger]
                                self.record(s, r, c) == old(self).record(s, r, c) by {
                                assert(mid.record(s, r, c) == before.record(s, r, c));
                            }
                        }
                    }
                },
                Err(Error::Volatile(pending)) => {
                    proof {
                        if unmarked(order@) {
                            assert(!order@[i as int].dirty);
                            assert(before.formula_of(cell).is_none());
                        }
                        lemma_same_records_registered(before, *self);
                        if kernel.sound(before) {
                            lemma_step_nothing(before, *self, cell);
                            kernel.lemma_same_cells_sound(before, *self);
                        }
                        if before.kept() {
                            kernel.lemma_signal_is_new(before, order@, i as int, pending@);
                        }
                    }
                    return Ok(Some((cell, *pending)));
                },
                Err(e) => {
                    proof {
                        if unmarked(order@) {
                            assert(!order@[i as int].dirty);
                            assert(before.formula_of(cell).is_none());
                        }
                        lemma_same_records_registered(before, *self);
                        if kernel.sound(before) {
                            lemma_step_nothing(before, *self, cell);
                            kernel.lemma_same_cells_sound(before, *self);
                        }
                    }
                    return Err(e);
                },
            }
            i = i + 1;
        }
        Ok(None)
    }

    /// Recalculates the workbook: the nodes of the graph are calculated in
    /// an order in which every precedent comes before the cells that
    /// refer to it. Where a formula has come to point to cells that are
    /// not calculated yet, that reference becomes a precedent of its
    /// cell, and the calculation starts again in the new order. A formula
    /// that has come to point to its own cell gets an edge from the cell
    /// to itself, so that the cycle is found.
    ///
    /// When it ends well, no formula waits to be calculated. It fails with
    /// `Cycle` where the cells depend on themselves, and with
    /// `Calculation` where the text of a formula does not parse, or, with
    /// the signal as the cause, where a formula points to cells that are
    /// not calculated although the graph has that reference as its
    /// precedent already. Every edge that it adds to the graph comes from
    /// such a signal. It fails with `Volatile` only where it has added as
    /// many edges as the machine can count.
    ///
    /// In a workbook that is kept as the functions of the workbook leave
    /// it, where nothing but a formula waits and every node of a range
    /// has the edges from its cells, a signal always brings a new edge:
    /// the calculation then fails only with `Cycle`, with `Calculation`
    /// for a formula that does not parse, or with `Volatile`. So where
    /// every formula parses, it ends well unless the graph, as it is in
    /// the end, has a cycle or has grown by as many edges as the machine
    /// can count.
    pub fn calculate<FN, FA, FT, FL>(&mut self, kernel: &Kernel<FN, FA, FT, FL>) -> (r: Result<
        (),
        Error,
    >) where
        FN: Fn(&Number) -> Option<Double>,
        FA: Fn(Infix, Double, Double) -> Double,
        FT: Fn(Double) -> i64,
        FL: Fn(&Vec<u8>, Vec<Value>) -> Option<Value>,

        requires
            old(self).wf(),
            old(self).registered(),
            kernel.ok(),
        ensures
            final(self).wf(),
            final(self).registered(),
            final(self).same_frame(old(self)),
            old(self).dependencies.edges().subset_of(final(self).dependencies.edges()),
            match r {
                Ok(()) => final(self).all_calculated() && final(self).settled(),
                Err(Error::Cycle(n)) => on_cycle(final(self).dependencies.edges(), n.key()),
                Err(Error::Volatile(x)) => grew_by(
                    old(self).dependencies.edges(),
                    final(self).dependencies.edges(),
                    usize::MAX as nat,
                ),
                Err(e) => unparsed_formula(*final(self), e) || kernel.stuck_formula(
                    *final(self),
                    e,
                ),
            },
            forall|e: (NodeKey, NodeKey)| #[trigger]
                final(self).dependencies.edges().contains(e) ==> old(
                    self,
                ).dependencies.edges().contains(e) || kernel.installs(*old(self), e),
            (exists|s: usize, r: usize, c: usize| #[trigger]
                old(self).waiting(s, r, c) && old(self).formula_at(s, r, c) is None) ==> r is Err,
            crate::dependency::has_cycle(old(self).dependencies.edges()) ==> r is Err,
            same_entries(*old(self), *final(self)),
            final(self).dependencies.edges() == old(self).dependencies.edges() || kernel.signalled(
                *old(self),
            ),
            old(self).plain() && !crate::dependency::has_cycle(old(self).dependencies.edges())
                ==> r is Ok,
            old(self).plain() ==> (r matches Err(Error::Cycle(_))) == crate::dependency::has_cycle(
                old(self).dependencies.edges(),
            ),
            old(self).settled() ==> r.is_ok() && final(self).dependencies.edges() == old(
                self,
            ).dependencies.edges() && same_records(*final(self), *old(self)),
            kernel.sound(*old(self)) ==> kernel.sound(*final(self)) && (r.is_ok()
                ==> kernel.shows_results(*final(self))),
            old(self).kept() ==> final(self).kept(),
            old(self).kept() ==> (r matches Err(e) ==> e is Cycle || e is Volatile
                || unparsed_formula(*final(self), e)),
            old(self).kept() && old(self).parses() && !crate::dependency::has_cycle(
                final(self).dependencies.edges(),
            ) && !grew_by(
                old(self).dependencies.edges(),
                final(self).dependencies.edges(),
                usize::MAX as nat,
            ) ==> r is Ok,
    {
        let mut restarts: usize = 0;
        let ghost mut added: Seq<(NodeKey, NodeKey)> = Seq::empty();
        loop
            invariant
                self.wf(),
                self.registered(),
                kernel.ok(),
                self.same_frame(old(self)),
                old(self).dependencies.edges().subset_of(self.dependencies.edges()),
                restarts == 0 ==> self.dependencies == old(self).dependencies && same_records(
                    *self,
                    *old(self),
                ),
                restarts > 0 ==> !old(self).settled(),
                restarts > 0 ==> !crate::dependency::has_cycle(old(self).dependencies.edges()),
                same_entries(*old(self), *self),
                same_unparsed(*old(self), *self),
                added.len() == restarts,
                new_edges(old(self).dependencies.edges(), self.dependencies.edges(), added),
                forall|e: (NodeKey, NodeKey)| #[trigger]
                    self.dependencies.edges().contains(e) ==> old(
                        self,
                    ).dependencies.edges().contains(e) || kernel.installs(*old(self), e),
                self.dependencies.edges() == old(self).dependencies.edges() || kernel.signalled(
                    *old(self),
                ),
                kernel.sound(*old(self)) ==> kernel.sound(*self),
                old(self).kept() ==> self.kept(),
            decreases usize::MAX - restarts,
        {
            let order = match self.dependencies.order_or_cycle() {
                Ok(order) => order,
                Err(n) => {
                    assert(crate::dependency::has_cycle(self.dependencies.edges()));
                    proof {
                        if old(self).plain() {
                            kernel.lemma_plain_never_signals(*old(self));
                        }
                    }
                    return Err(Error::Cycle(n));
                },
            };
            let ghost start = *self;
            assert(!crate::dependency::has_cycle(self.dependencies.edges()));
            let ghost entered = same_entries(*old(self), start);
            proof {
                if restarts == 0 && old(self).settled() {
                    assert forall|i: int| 0 <= i < order@.len() implies !(
                    #[trigger] order@[i]).dirty by {
                        assert(order_keys(order@)[i] == order@[i].key());
                        assert(order_keys(order@).contains(order@[i].key()));
                    }
                }
            }
            match self.calculate_pass(&order, kernel) {
                Ok(None) => {
                    proof {
                        if restarts == 0 && old(self).settled() {
                            assert forall|s: int, r: int, c: int| #[trigger]
                                self.record(s, r, c) == old(self).record(s, r, c) by {
                                assert(start.record(s, r, c) == old(self).record(s, r, c));
                            }
                        }
                        assert forall|n: NodeKey| self.dependencies.nodes().contains(n) implies
                            !self.dependencies.dirty().contains(n) by {
                            assert(order_keys(order@).contains(n));
                            let i = choose|i: int|
                                0 <= i < order_keys(order@).len() && order_keys(order@)[i] == n;
                            assert(order@[i].key() == n);
                        }
                        assert forall|s: usize, r: usize, c: usize| !#[trigger] self.waiting(
                            s,
                            r,
                            c,
                        ) by {
                            if self.waiting(s, r, c) {
                                let key = cell_key(s, r, c);
                                assert(self.dependencies.nodes().contains(key));
                                assert(order_keys(order@).contains(key));
                                let i = choose|i: int|
                                    0 <= i < order_keys(order@).len() && order_keys(order@)[i]
                                        == key;
                                assert(order@[i].key() == key);
                                assert(done(*self, order@[i]));
                            }
                        }
                    }
                    proof {
                        if kernel.sound(*old(self)) {
                            kernel.lemma_shows_results(*self);
                        }
                        lemma_unparsed_chain(*old(self), start, *self, *self);
                        assert forall|s: usize, r: usize, c: usize|
                            !(#[trigger] old(self).waiting(s, r, c) && old(self).formula_at(
                                s,
                                r,
                                c,
                            ) is None) by {
                            if old(self).waiting(s, r, c) && old(self).formula_at(s, r, c) is None {
                                assert(self.record(s as int, r as int, c as int) == old(
                                    self,
                                ).record(s as int, r as int, c as int));
                                assert(self.waiting(s, r, c));
                            }
                        }
                    }
                    return Ok(());
                },
                Ok(Some((cell, expression))) => {
                    proof {
                        if old(self).plain() {
                            lemma_entries_chain(*old(self), start, *self, *self);
                            kernel.lemma_signalled(*old(self), *self, cell, expression@);
                            kernel.lemma_plain_never_signals(*old(self));
                        }
                    }
                    proof {
                        lemma_entries_chain(*old(self), start, *self, *self);
                        lemma_unparsed_chain(*old(self), start, *self, *self);
                    }
                    if restarts == usize::MAX {
                        return Err(Error::Volatile(Box::new(expression)));
                    }
                    let ghost mid = *self;
                    match self.install(kernel, &cell, &expression) {
                        Ok(()) => {
                            proof {
                                let edge = mid.signal_edge(cell, expression@)->Some_0;
                                lemma_installed(kernel, *old(self), mid, *self, cell, expression@);
                                let longer = added.push(edge);
                                assert forall|i: int| 0 <= i < longer.len() implies
                                    self.dependencies.edges().contains(#[trigger] longer[i]) && !old(
                                    self,
                                ).dependencies.edges().contains(longer[i]) by {
                                    if i < added.len() {
                                        assert(longer[i] == added[i]);
                                        assert(mid.dependencies.edges().contains(added[i]));
                                    }
                                }
                                assert forall|i: int, j: int|
                                    0 <= i < longer.len() && 0 <= j < longer.len() && i
                                        != j implies longer[i] != longer[j] by {
                                    if i < added.len() {
                                        assert(mid.dependencies.edges().contains(added[i]));
                                    }
                                    if j < added.len() {
                                        assert(mid.dependencies.edges().contains(added[j]));
                                    }
                                }
                                added = longer;
                                assert forall|s: int, r: int, c: int| #[trigger]
                                    self.record(s, r, c) == mid.record(s, r, c) by {}
                                lemma_entries_chain(*old(self), mid, mid, *self);
                                lemma_unparsed_chain(*old(self), mid, mid, *self);
                                if old(self).plain() {
                                    kernel.lemma_plain_never_signals(*old(self));
                                } else {
                                }
                                kernel.lemma_signalled(*old(self), mid, cell, expression@);
                            }
                        },
                        Err(e) => {
                            return Err(e);
                        },
                    }
                    restarts = restarts + 1;
                },
                Err(e) => {
                    proof {
                        lemma_entries_chain(*old(self), start, *self, *self);
                        if old(self).parses() {
                            let failed = e->Calculation_0;
                            assert(old(self).record(
                                failed.sheet as int,
                                failed.row as int,
                                failed.column as int,
                            ).value == self.record(
                                failed.sheet as int,
                                failed.row as int,
                                failed.column as int,
                            ).value);
                            assert(old(self).formula_at(failed.sheet, failed.row, failed.column)
                                is Some);
                        }
                        if old(self).plain() {
                            kernel.lemma_plain_parses(*old(self), *self, e->Calculation_0);
                        }
                    }
                    return Err(e);
                },
            }
        }
    }

    /// The edge that a reference stands for which the formula of `cell`
    /// has come to point to: from the node of the reference to the cell.
    /// `None` for what is no reference, or a reference to a sheet that
    /// there is not.
    pub open spec fn signal_edge(&self, cell: CellId, e: ExprView) -> Option<(NodeKey, NodeKey)> {
        match e {
            ExprView::Reference { sheet, range } => match target_sheet(
                sheet,
                cell.sheet,
                self.sheets@,
            ) {
                Some(id) => Some(
                    (
                        range_node(
                            range,
                            id as usize,
                            self.sheets@[id].max_rows,
                            self.sheets@[id].max_columns,
                        ),
                        cell.key(),
                    ),
                ),
                None => None,
            },
            _ => None,
        }
    }

    /// Whether the graph has the reference of a signal as a precedent of
    /// the cell already, so that starting again cannot help.
    pub open spec fn stuck(&self, cell: CellId, e: ExprView) -> bool {
        match self.signal_edge(cell, e) {
            Some(edge) => self.dependencies.edges().contains(edge),
            None => true,
        }
    }

    /// The node of the reference that the formula of `cell` has come to
    /// point to.
    fn signal_node(&self, cell: &CellId, expression: &Expr) -> (r: Option<CellId>)
        requires
            ranges_wf(expression@),
        ensures
            match r {
                Some(pre) => self.signal_edge(*cell, expression@) == Some((pre.key(), cell.key())),
                None => self.signal_edge(*cell, expression@) is None,
            },
    {
        match expression {
            Expr::Reference { sheet, range } => {
                let target: Option<usize> = match sheet {
                    Some(_) => self.find_target(sheet),
                    None => if cell.sheet < self.sheets.len() {
                        Some(cell.sheet)
                    } else {
                        None
                    },
                };
                match target {
                    Some(id) => Some(
                        node_of_range(
                            range,
                            id,
                            self.sheets[id].max_rows,
                            self.sheets[id].max_columns,
                        ),
                    ),
                    None => None,
                }
            },
            _ => None,
        }
    }

    /// Makes the reference that the formula of `cell` has come to point
    /// to a precedent of the cell: the edges that the reference stands
    /// for, and the edge from its node to the cell, be it the cell
    /// itself. Where the graph has that edge already, nothing changes and
    /// the calculation of the cell fails with the signal as its cause.
    fn install<FN, FA, FT, FL>(
        &mut self,
        kernel: &Kernel<FN, FA, FT, FL>,
        cell: &CellId,
        expression: &Expr,
    ) -> (r: Result<(), Error>) where
        FN: Fn(&Number) -> Option<Double>,
        FA: Fn(Infix, Double, Double) -> Double,
        FT: Fn(Double) -> i64,
        FL: Fn(&Vec<u8>, Vec<Value>) -> Option<Value>,

        requires
            old(self).wf(),
            old(self).registered(),
            ranges_wf(expression@),
            cell.num_row == 1 && cell.num_col == 1,
        ensures
            final(self).wf(),
            final(self).registered(),
            final(self).sheets == old(self).sheets,
            final(self).current_sheet == old(self).current_sheet,
            old(self).dependencies.edges().subset_of(final(self).dependencies.edges()),
            kernel.sound(*old(self)) ==> kernel.sound(*final(self)),
            old(self).kept() ==> final(self).kept(),
            match r {
                Ok(()) => old(self).signal_edge(*cell, expression@) matches Some(edge) && !old(
                    self,
                ).dependencies.edges().contains(edge) && final(self).dependencies.edges()
                    == old(self).dependencies.edges().union(
                    expression_edges(expression@, cell.sheet, cell.key(), old(self).sheets@),
                ).insert(edge),
                Err(e) => *final(self) == *old(self) && old(self).stuck(*cell, expression@) && (
                e matches Error::Calculation(c, cause) && c == *cell && (
                *cause matches Error::Volatile(x) && x@ == expression@)),
            },
    {
        let pre: CellId = match self.signal_node(cell, expression) {
            Some(pre) => pre,
            None => {
                return Err(
                    Error::Calculation(
                        *cell,
                        Box::new(Error::Volatile(Box::new(expression.duplicate()))),
                    ),
                );
            },
        };
        if self.dependencies.is_precedent_of(&pre, cell) {
            return Err(
                Error::Calculation(
                    *cell,
                    Box::new(Error::Volatile(Box::new(expression.duplicate()))),
                ),
            );
        }
        let ghost before = *self;
        let ghost edges = expression_edges(expression@, cell.sheet, cell.key(), self.sheets@);
        self.dependencies.add_expression(*cell, expression, &self.sheets);
        let ghost mid = *self;
        proof {
            if kernel.sound(before) {
                lemma_step_nothing(before, mid, *cell);
                kernel.lemma_regraph(before, mid, edges);
            }
        }
        self.dependencies.add_precedent(&pre, cell);
        proof {
            if kernel.sound(mid) {
                lemma_step_nothing(mid, *self, *cell);
                kernel.lemma_regraph(mid, *self, set![(pre.key(), cell.key())]);
            }
            assert forall|s: usize, r: usize, c: usize| #[trigger]
                self.waiting(s, r, c) implies self.dependencies.dirty().contains(
                cell_key(s, r, c),
            ) && self.dependencies.nodes().contains(cell_key(s, r, c)) by {
                assert(before.waiting(s, r, c));
            }
            assert(self.dependencies.edges() =~= before.dependencies.edges().union(edges).insert(
                (pre.key(), cell.key()),
            ));
            if before.kept() {
                let edge = (pre.key(), cell.key());
                let all = edges.insert(edge);
                crate::coherence::lemma_expression_self_ranged(
                    expression@,
                    cell.sheet,
                    cell.key(),
                    self.sheets@,
                );
                if pre.key() == cell.key() {
                    crate::coherence::lemma_self_edge_ranged(edges, cell.key());
                } else {
                    assert(edges.contains(edge));
                    assert(all =~= edges);
                }
                assert(all.contains(edge));
                assert(crate::dependency::touches(all, pre.key()));
                assert(self.dependencies.edges() =~= before.dependencies.edges().union(all));
                assert forall|n: NodeKey| #[trigger]
                    self.dependencies.nodes().contains(n) implies before.dependencies.nodes().contains(
                    n,
                ) || crate::dependency::touches(all, n) || n == cell.key() by {
                    if n != pre.key() && n != cell.key() {
                        assert(mid.dependencies.nodes().contains(n));
                        if !before.dependencies.nodes().contains(n) {
                            assert(crate::dependency::touches(edges, n));
                            let e = choose|e: (NodeKey, NodeKey)| #[trigger]
                                edges.contains(e) && (e.0 == n || e.1 == n);
                            assert(all.contains(e));
                        }
                    }
                }
                crate::coherence::lemma_ranged_grows(before, *self, all, cell.key());
                assert forall|s: int, r: int, c: int| #[trigger]
                    self.record(s, r, c) == before.record(s, r, c) by {}
            }
        }
        Ok(())
    }

    /// Puts `value` in the cell at `row` and `column`, counted from 1, of
    /// sheet `sheet`, and leaves the graph as it is. `false`, and no cell
    /// changes, where the sheet cannot hold the cell.
    fn place(&mut self, sheet: usize, row: usize, column: usize, value: Value) -> (stored: bool)
        requires
            old(self).wf(),
            sheet < old(self).sheets@.len(),
        ensures
            final(self).wf(),
            final(self).sheets@.len() == old(self).sheets@.len(),
            final(self).current_sheet == old(self).current_sheet,
            final(self).dependencies == old(self).dependencies,
            final(self).formulas == old(self).formulas,
            extends(old(self).sheets@, final(self).sheets@),
            old(self).kept() ==> final(self).kept(),
            stored == old(self).sheets@[sheet as int].takes(row, column),
            sizes_after(*old(self), *final(self), sheet, row, column),
            stored ==> row >= 1 && column >= 1 && final(self).record(
                sheet as int,
                row as int,
                column as int,
            ) == crate::sheet::entered(value@),
            forall|s: int, r: int, c: int|
                !(stored && s == sheet && r == row && c == column)
                    ==> #[trigger] final(self).record(s, r, c) == old(self).record(s, r, c),
    {
        let ghost before = *self;
        let mut target = self.sheets.remove(sheet);
        let stored = target.set_value(row, column, value);
        self.sheets.insert(sheet, target);
        proof {
            assert forall|i: int| 0 <= i < self.sheets@.len() implies (
            #[trigger] self.sheets@[i]).wf() by {
                if i != sheet {
                    assert(self.sheets@[i] == before.sheets@[i]);
                }
            }
            assert forall|s: int, r: int, c: int|
                !(stored && s == sheet && r == row && c == column) implies #[trigger] self.record(
                s,
                r,
                c,
            ) == before.record(s, r, c) by {
                if 0 <= s < self.sheets@.len() && s != sheet {
                    assert(self.sheets@[s] == before.sheets@[s]);
                }
            }
            lemma_sheet_swapped(before.sheets@, self.sheets@, sheet as int);
            if before.kept() {
                assert forall|s: int, r: int, c: int| (#[trigger] self.record(s, r, c)).dirty implies
                    self.record(s, r, c).value is Formula by {
                    if !(stored && s == sheet && r == row && c == column) {
                        assert(self.record(s, r, c) == before.record(s, r, c));
                    }
                }
            }
        }
        stored
    }

    /// Registers what was entered in `cell` in the graph: the references
    /// of the formula, if a formula was entered, become precedents of the
    /// cell, and the cell a node; the cell and all that depends on it are
    /// marked.
    fn register(&mut self, cell: CellId, expression: &Option<Expr>)
        requires
            old(self).wf(),
            cell.dirty,
            cell.num_row == 1 && cell.num_col == 1,
            expression matches Some(e) ==> ranges_wf(e@),
        ensures
            final(self).wf(),
            final(self).sheets == old(self).sheets,
            final(self).current_sheet == old(self).current_sheet,
            final(self).formulas == old(self).formulas,
            old(self).kept() ==> final(self).kept(),
            old(self).dependencies.nodes().subset_of(final(self).dependencies.nodes()),
            old(self).dependencies.edges().subset_of(final(self).dependencies.edges()),
            old(self).dependencies.dirty().subset_of(final(self).dependencies.dirty()),
            final(self).dependencies.dirty().contains(cell.key()),
            expression matches Some(e) ==> final(self).dependencies.nodes().contains(cell.key())
                && expression_edges(e@, cell.sheet, cell.key(), old(self).sheets@).subset_of(
                final(self).dependencies.edges(),
            ),
            final(self).dependencies.edges() == old(self).dependencies.edges().union(
                match expression {
                    Some(e) => expression_edges(e@, cell.sheet, cell.key(), old(self).sheets@),
                    None => Set::empty(),
                },
            ),
            forall|k: NodeKey|
                reachable(final(self).dependencies.edges(), cell.key(), k)
                    ==> final(self).dependencies.dirty().contains(k),
            forall|k: NodeKey| #[trigger]
                final(self).dependencies.dirty().contains(k) ==> old(
                    self,
                ).dependencies.dirty().contains(k) || reachable(
                    final(self).dependencies.edges(),
                    cell.key(),
                    k,
                ) || !old(self).dependencies.nodes().contains(k),
    {
        match expression {
            Some(expression) => {
                self.dependencies.add_expression(cell, expression, &self.sheets);
                self.dependencies.add_cell(cell);
            },
            None => {},
        }
        self.dependencies.mark_for_recalculation(&cell);
        proof {
            if old(self).kept() {
                let added = match expression {
                    Some(e) => expression_edges(e@, cell.sheet, cell.key(), old(self).sheets@),
                    None => Set::empty(),
                };
                if expression is Some {
                    crate::coherence::lemma_expression_self_ranged(
                        expression->Some_0@,
                        cell.sheet,
                        cell.key(),
                        old(self).sheets@,
                    );
                }
                assert(self.dependencies.edges() =~= old(self).dependencies.edges().union(added));
                crate::coherence::lemma_ranged_grows(*old(self), *self, added, cell.key());
                assert forall|s: int, r: int, c: int| #[trigger]
                    self.record(s, r, c) == old(self).record(s, r, c) by {}
            }
            if expression is None {
                assert(self.dependencies.edges() =~= old(self).dependencies.edges().union(
                    Set::empty(),
                ));
            }
            assert(is_path(self.dependencies.edges(), seq![cell.key()]));
            assert(reachable(self.dependencies.edges(), cell.key(), cell.key())) by {
                let path = seq![cell.key()];
                assert(is_path(self.dependencies.edges(), path) && path[0] == cell.key()
                    && path.last() == cell.key());
            }
        }
    }

    /// Enters `value` in the cell at `row` and `column`, counted from 1,
    /// of sheet `sheet`. A formula is parsed and its references become
    /// precedents of the cell; the cell becomes a marked node. All that
    /// depends on the cell is marked. `Ok(false)`, and no cell changes,
    /// where no such cell can be held; the error of the parser, and
    /// nothing changes, where a formula does not parse.
    pub fn enter(&mut self, sheet: usize, row: usize, column: usize, value: Value) -> (r: Result<
        bool,
        Error,
    >)
        requires
            old(self).wf(),
            old(self).registered(),
        ensures
            final(self).wf(),
            final(self).registered(),
            final(self).sheets@.len() == old(self).sheets@.len(),
            final(self).current_sheet == old(self).current_sheet,
            final(self).formulas == old(self).formulas,
            extends(old(self).sheets@, final(self).sheets@),
            old(self).dependencies.nodes().subset_of(final(self).dependencies.nodes()),
            old(self).dependencies.edges().subset_of(final(self).dependencies.edges()),
            old(self).fresh() && entry_tame(*old(self), sheet, row, column, value@)
                ==> final(self).fresh(),
            old(self).kept() ==> final(self).kept(),
            entry_outcome(*old(self), sheet, row, column, value@, r),
            entry_effect(*old(self), *final(self), sheet, row, column, value@, r),
    {
        if sheet >= self.sheets.len() || row == 0 || column == 0 {
            return Ok(false);
        }
        let cell = CellId { sheet, row, column, num_row: 1, num_col: 1, dirty: true };
        let expression: Option<Expr> = match &value {
            Value::Formula(text) => {
                let from: usize = if text.len() > 0 && text[0] == 0x3D {
                    1
                } else {
                    0
                };
                let body = copy_range(text.as_slice(), from, text.len());
                assert(body@ =~= formula_body(text@));
                match parse_bytes(body.as_slice()) {
                    Ok(expression) => Some(expression),
                    Err(e) => {
                        return Err(e);
                    },
                }
            },
            _ => None,
        };
        let ghost before = *self;
        let ghost view = value@;
        if !self.place(sheet, row, column, value) {
            proof {
                lemma_same_records_registered(before, *self);
                if before.fresh() {
                    Book::lemma_fresh_kept(before, *self);
                }
            }
            return Ok(false);
        }
        let ghost mid = *self;
        self.register(cell, &expression);
        proof {
            assert(cell.key() == cell_key(sheet, row, column));
            assert forall|s: int, r: int, c: int| #[trigger]
                self.record(s, r, c) == mid.record(s, r, c) by {}
            assert forall|s: usize, r: usize, c: usize| #[trigger]
                self.waiting(s, r, c) implies self.dependencies.dirty().contains(
                cell_key(s, r, c),
            ) && self.dependencies.nodes().contains(cell_key(s, r, c)) by {
                if !(s == sheet && r == row && c == column) {
                    assert(mid.record(s as int, r as int, c as int) == before.record(
                        s as int,
                        r as int,
                        c as int,
                    ));
                    assert(before.waiting(s, r, c));
                }
            }
            if before.fresh() && entry_tame(before, sheet, row, column, view) {
                assert forall|s: int, r: int, c: int|
                    !(s == sheet && r == row && c == column) implies #[trigger] self.record(
                    s,
                    r,
                    c,
                ) == before.record(s, r, c) by {
                    assert(mid.record(s, r, c) == before.record(s, r, c));
                }
                Book::lemma_fresh_entered(before, *self, (sheet, row, column), view);
            }
        }
        Ok(true)
    }
}

/// What taking a cell of a workbook file does to the list of formulas: a
/// formula that was stored joins the list with its cell; else the list is
/// as it was.
pub open spec fn listed(
    before: Seq<(CellId, Vec<u8>)>,
    now: Seq<(CellId, Vec<u8>)>,
    cell: CellId,
    value: Option<ValueView>,
    r: Result<bool, Error>,
) -> bool {
    match value {
        Some(ValueView::Formula(text)) => if r == Ok::<bool, Error>(true) {
            now.len() == before.len() + 1 && now.drop_last() == before && now.last().0 == cell
                && now.last().1@ == text
        } else {
            now == before
        },
        _ => now == before,
    }
}

/// How entering `value` in the cell at `row` and `column` of sheet `sheet`
/// ends: with the error of the parser where there is such a cell and the
/// value is a formula that does not parse; else with whether the value
/// was stored, which it is where the sheet is there and can take it.
pub open spec fn entry_outcome(
    book: Book,
    sheet: usize,
    row: usize,
    column: usize,
    value: ValueView,
    r: Result<bool, Error>,
) -> bool {
    let unparsed = value matches ValueView::Formula(text) && parse_text_spec(formula_body(text))
        is None;
    match r {
        Err(_) => sheet < book.sheets@.len() && row >= 1 && column >= 1 && unparsed,
        Ok(stored) => !(sheet < book.sheets@.len() && row >= 1 && column >= 1 && unparsed)
            && stored == (sheet < book.sheets@.len() && book.sheets@[sheet as int].takes(
            row,
            column,
        )),
    }
}

/// What entering `value` in the cell at `row` and `column` of sheet
/// `sheet` does to the workbook `before`. Where the value was stored: the
/// cell holds it, every other cell holds what it held, the sheet has
/// grown to reach the cell, the graph has the edges of the formula too,
/// and the cell and all that depends on it are marked; no other node
/// that the graph had is newly marked. Where it was not
/// stored: no cell and nothing in the graph has changed. Where the
/// formula did not parse: nothing has changed at all.
pub open spec fn entry_effect(
    before: Book,
    now: Book,
    sheet: usize,
    row: usize,
    column: usize,
    value: ValueView,
    r: Result<bool, Error>,
) -> bool {
    match r {
        Ok(true) => {
            &&& sheet < before.sheets@.len() && row >= 1 && column >= 1
            &&& now.record(sheet as int, row as int, column as int) == crate::sheet::entered(value)
            &&& forall|s: int, r: int, c: int|
                !(s == sheet && r == row && c == column) ==> now.record(s, r, c) == before.record(
                    s,
                    r,
                    c,
                )
            &&& sizes_after(before, now, sheet, row, column)
            &&& now.dependencies.edges() == before.dependencies.edges().union(
                entry_edges(value, sheet, row, column, now.sheets@),
            )
            &&& forall|k: NodeKey|
                reachable(now.dependencies.edges(), cell_key(sheet, row, column), k)
                    ==> now.dependencies.dirty().contains(k)
            &&& forall|k: NodeKey| #[trigger]
                now.dependencies.dirty().contains(k) ==> before.dependencies.dirty().contains(k)
                    || reachable(now.dependencies.edges(), cell_key(sheet, row, column), k)
                    || !before.dependencies.nodes().contains(k)
            &&& before.dependencies.dirty().subset_of(now.dependencies.dirty())
            &&& before.dependencies.nodes().subset_of(now.dependencies.nodes())
            &&& value is Formula ==> now.dependencies.nodes().contains(
                cell_key(sheet, row, column),
            )
        },
        Ok(false) => {
            &&& now.dependencies == before.dependencies
            &&& forall|s: int, r: int, c: int| now.record(s, r, c) == before.record(s, r, c)
            &&& sheet < before.sheets@.len() ==> sizes_after(before, now, sheet, row, column)
        },
        Err(e) => now == before && (value matches ValueView::Formula(text) && parse_outcome(
            formula_body(text),
            Err::<Expr, Error>(e),
        )),
    }
}

/// The sizes of the sheets after a value was entered at `row` and
/// `column` of sheet `sheet`: that sheet has grown to reach the cell
/// where it can, and is as large as it was for a cell within it; every
/// other sheet is the sheet that it was.
pub open spec fn sizes_after(before: Book, now: Book, sheet: usize, row: usize, column: usize) -> bool {
    &&& now.sheets@.len() == before.sheets@.len()
    &&& sheet < before.sheets@.len()
    &&& now.sheets@[sheet as int].name == before.sheets@[sheet as int].name
    &&& now.sheets@[sheet as int].max_rows == before.sheets@[sheet as int].rows_with(row, column)
    &&& now.sheets@[sheet as int].max_columns == before.sheets@[sheet as int].columns_with(
        row,
        column,
    )
    &&& forall|i: int|
        0 <= i < before.sheets@.len() && i != sheet ==> now.sheets@[i] == before.sheets@[i]
}

/// The edges that `value`, entered in the cell at `row` and `column` of
/// sheet `sheet`, stands for: those of its references, if it is a formula.
pub open spec fn entry_edges(
    value: ValueView,
    sheet: usize,
    row: usize,
    column: usize,
    sheets: Seq<Sheet>,
) -> Set<(NodeKey, NodeKey)> {
    match value {
        ValueView::Formula(text) => match parse_text_spec(formula_body(text)) {
            Some(e) => expression_edges(e, sheet, cell_key(sheet, row, column), sheets),
            None => Set::empty(),
        },
        _ => Set::empty(),
    }
}

/// Sheets of which one was taken out and put back under its name are
/// the same sheets by name.
proof fn lemma_sheet_swapped(before: Seq<Sheet>, after: Seq<Sheet>, at: int)
    requires
        0 <= at < before.len(),
        after.len() == before.len(),
        after[at].name == before[at].name,
        forall|i: int| 0 <= i < before.len() && i != at ==> after[i] == before[i],
    ensures
        extends(before, after),
{
    assert forall|i: int| 0 <= i < before.len() implies (#[trigger] before[i]).name
        == after[i].name by {
        if i != at {
            assert(after[i] == before[i]);
        }
    }
}

/// The reference that an evaluation ends with as a signal is well formed.
pub proof fn lemma_signal_wf<FN, FA, FT, FL>(kernel: &Kernel<FN, FA, FT, FL>, book: Book, e: ExprView) where
    FN: Fn(&Number) -> Option<Double>,
    FA: Fn(Infix, Double, Double) -> Double,
    FT: Fn(Double) -> i64,
    FL: Fn(&Vec<u8>, Vec<Value>) -> Option<Value>,

    requires
        ranges_wf(e),
    ensures
        kernel.eval_spec(Some(book), e) matches Err(pending) ==> ranges_wf(pending),
    decreases e, 2int,
{
    match e {
        ExprView::Prefix(op, a) => {
            lemma_signal_wf(kernel, book, *a);
        },
        ExprView::Infix(op, a, b) => {
            lemma_signal_wf(kernel, book, *a);
            lemma_signal_wf(kernel, book, *b);
        },
        ExprView::Func { name, args } => {
            assert(all_ranges_wf(args)) by {
                reveal_with_fuel(ranges_wf, 2);
            }
            if name == "OFFSET".spec_bytes() {
                lemma_offset_signal_wf(kernel, book, args);
            } else {
                lemma_signals_wf(kernel, book, args);
            }
        },
        ExprView::Array(items) => {
            assert(all_ranges_wf(items)) by {
                reveal_with_fuel(ranges_wf, 2);
            }
            lemma_signals_wf(kernel, book, items);
        },
        _ => {},
    }
}

proof fn lemma_offset_signal_wf<FN, FA, FT, FL>(kernel: &Kernel<FN, FA, FT, FL>, book: Book, args: Seq<ExprView>) where
    FN: Fn(&Number) -> Option<Double>,
    FA: Fn(Infix, Double, Double) -> Double,
    FT: Fn(Double) -> i64,
    FL: Fn(&Vec<u8>, Vec<Value>) -> Option<Value>,

    requires
        all_ranges_wf(args),
    ensures
        kernel.offset_spec(book, args) matches Err(pending) ==> ranges_wf(pending),
    decreases args, 0int,
{
    if args.len() == 3 {
        assert(ranges_wf(args[0]) && ranges_wf(args[1]) && ranges_wf(args[2]));
        match args[0] {
            ExprView::Reference { sheet, range } => {
                lemma_signal_wf(kernel, book, args[1]);
                lemma_signal_wf(kernel, book, args[2]);
                match kernel.eval_spec(Some(book), args[1]) {
                    Ok(rows) => match kernel.eval_spec(Some(book), args[2]) {
                        Ok(columns) => match (kernel.num_of(rows), kernel.num_of(columns)) {
                            (Ok(r), Ok(c)) => {
                                lemma_displaced_wf(
                                    range,
                                    crate::evaluate::kernel::truncate_model(kernel.truncate, r) as int,
                                    crate::evaluate::kernel::truncate_model(kernel.truncate, c) as int,
                                );
                            },
                            _ => {},
                        },
                        Err(_) => {},
                    },
                    Err(_) => {},
                }
            },
            _ => {},
        }
    }
}

proof fn lemma_signals_wf<FN, FA, FT, FL>(kernel: &Kernel<FN, FA, FT, FL>, book: Book, items: Seq<ExprView>) where
    FN: Fn(&Number) -> Option<Double>,
    FA: Fn(Infix, Double, Double) -> Double,
    FT: Fn(Double) -> i64,
    FL: Fn(&Vec<u8>, Vec<Value>) -> Option<Value>,

    requires
        all_ranges_wf(items),
    ensures
        kernel.eval_all_spec(Some(book), items) matches Err(pending) ==> ranges_wf(pending),
    decreases items, 1int,
{
    if items.len() > 0 {
        assert(ranges_wf(items.last()));
        assert(all_ranges_wf(items.drop_last())) by {
            assert forall|i: int| 0 <= i < items.drop_last().len() implies ranges_wf(
                #[trigger] items.drop_last()[i],
            ) by {
                assert(items.drop_last()[i] == items[i]);
            }
        }
        lemma_signals_wf(kernel, book, items.drop_last());
        lemma_signal_wf(kernel, book, items.last());
    }
}

/// A range that was moved is well formed.
pub proof fn lemma_displaced_wf(range: Range, rows: int, columns: int)
    requires
        range.wf(),
    ensures
        displaced(range, rows, columns) matches Some(moved) ==> moved.wf(),
{
}

/// The formula parses, the edges that its references stand for are in the
/// graph, and so is its cell.
pub open spec fn formula_in_graph(
    formula: (CellId, Vec<u8>),
    sheets: Seq<Sheet>,
    graph: DependencyTree,
) -> bool {
    match parse_text_spec(formula_body(formula.1@)) {
        Some(e) => crate::dependency::expression_edges(
            e,
            formula.0.sheet,
            formula.0.key(),
            sheets,
        ).subset_of(graph.edges()) && graph.nodes().contains(formula.0.key()),
        None => false,
    }
}

impl Book {
    /// The cell that the text `range` names, where it names a single
    /// cell of a sheet of the workbook: sheet, row and column.
    pub open spec fn entry_cell(&self, range: Seq<u8>) -> Option<(usize, usize, usize)> {
        match parse_text_spec(range) {
            Some(ExprView::Reference { sheet, range: cell }) => match self.target_of(sheet) {
                Some(id) => if cell.spec_is_multi_cell() {
                    None
                } else {
                    Some((id as usize, cell.start_cell.row, cell.start_cell.column))
                },
                None => None,
            },
            _ => None,
        }
    }

    /// Enters `value` in the single cell that the text `range` refers to,
    /// on the sheet that it names or on the current sheet, as `enter`
    /// does. `Ok(false)`, and nothing changes, where the text refers to no
    /// single cell of a sheet of the workbook; the error of the parser
    /// where it does not parse.
    pub fn set_value(&mut self, range: &str, value: Value) -> (r: Result<bool, Error>)
        requires
            old(self).wf(),
            old(self).registered(),
        ensures
            final(self).wf(),
            final(self).registered(),
            final(self).sheets@.len() == old(self).sheets@.len(),
            old(self).kept() ==> final(self).kept(),
            match parse_text_spec(range.spec_bytes()) {
                None => r matches Err(e) && parse_outcome(range.spec_bytes(), Err::<Expr, Error>(e))
                    && *final(self) == *old(self),
                Some(ExprView::Reference { sheet, range: cell }) => match old(self).target_of(sheet) {
                    Some(id) => if cell.spec_is_multi_cell() {
                        r == Ok::<bool, Error>(false) && *final(self) == *old(self)
                    } else {
                        match r {
                            Ok(true) => final(self).record(
                                id,
                                cell.start_cell.row as int,
                                cell.start_cell.column as int,
                            ) == crate::sheet::entered(value@),
                            Ok(false) => forall|s: int, r: int, c: int|
                                final(self).record(s, r, c) == old(self).record(s, r, c),
                            Err(e) => *final(self) == *old(self) && (
                            value@ matches ValueView::Formula(text) && parse_outcome(
                                formula_body(text),
                                Err::<Expr, Error>(e),
                            )),
                        }
                    },
                    None => r == Ok::<bool, Error>(false) && *final(self) == *old(self),
                },
                Some(_) => r == Ok::<bool, Error>(false) && *final(self) == *old(self),
            },
            old(self).fresh() && (old(self).entry_cell(range.spec_bytes()) matches Some(cell)
                ==> entry_tame(*old(self), cell.0, cell.1, cell.2, value@))
                ==> final(self).fresh(),
            old(self).entry_cell(range.spec_bytes()) matches Some(cell) ==> entry_outcome(
                *old(self),
                cell.0,
                cell.1,
                cell.2,
                value@,
                r,
            ) && entry_effect(*old(self), *final(self), cell.0, cell.1, cell.2, value@, r),
    {
        let expression = match parse_str(range) {
            Ok(expression) => expression,
            Err(e) => {
                return Err(e);
            },
        };
        match &expression {
            Expr::Reference { sheet, range: cell } => {
                match self.find_target(sheet) {
                    Some(id) => {
                        if cell.is_multi_cell() {
                            Ok(false)
                        } else {
                            self.enter(id, cell.row(), cell.column(), value)
                        }
                    },
                    None => Ok(false),
                }
            },
            _ => Ok(false),
        }
    }

    /// What the cells show that the text `s` refers to: the rectangle of
    /// their values, or the error that resolving gives; `Value` where the
    /// text is a formula but no reference. The error of the parser where
    /// the text does not parse.
    pub fn resolve_str_ref(&self, s: &str) -> (r: Result<Value, Error>)
        requires
            self.wf(),
        ensures
            match parse_text_spec(s.spec_bytes()) {
                None => r matches Err(e) && parse_outcome(s.spec_bytes(), Err::<Expr, Error>(e)),
                Some(ExprView::Reference { sheet, range }) => r matches Ok(v) && match self.resolve_spec(
                    sheet,
                    range,
                ) {
                    Ok(grid) => v@ == grid,
                    Err(e) => v@ == ValueView::Error(e),
                },
                Some(_) => r matches Ok(v) && v@ == ValueView::Error(ExcelError::Value),
            },
    {
        let expression = match parse_str(s) {
            Ok(expression) => expression,
            Err(e) => {
                return Err(e);
            },
        };
        match &expression {
            Expr::Reference { sheet, range } => match self.resolve(sheet, range) {
                Ok(grid) => Ok(Value::Array2(grid)),
                Err(e) => Ok(Value::Error(e)),
            },
            _ => Ok(Value::Error(ExcelError::Value)),
        }
    }

    /// Registers the formulas of the list `formulas` in the graph, each as
    /// `add_formula` does, and each cell as a marked node. It stops at the
    /// first formula that does not parse, with the error of the parser.
    pub fn load_dependencies(&mut self) -> (r: Result<(), Error>)
        requires
            old(self).wf(),
            old(self).registered(),
        ensures
            final(self).wf(),
            final(self).registered(),
            final(self).sheets == old(self).sheets,
            final(self).formulas == old(self).formulas,
            old(self).dependencies.edges().subset_of(final(self).dependencies.edges()),
            old(self).dependencies.nodes().subset_of(final(self).dependencies.nodes()),
            old(self).kept() && (forall|i: int|
                0 <= i < old(self).formulas@.len() ==> (#[trigger] old(self).formulas@[i]).0.num_row
                    == 1 && old(self).formulas@[i].0.num_col == 1) ==> final(self).kept(),
            match r {
                Ok(()) => forall|i: int|
                    0 <= i < old(self).formulas@.len() ==> formula_in_graph(
                        #[trigger] old(self).formulas@[i],
                        old(self).sheets@,
                        final(self).dependencies,
                    ),
                Err(e) => exists|i: int| #[trigger] first_unparsed(old(self).formulas@, i, e),
            },
    {
        let mut i: usize = 0;
        while i < self.formulas.len()
            invariant
                i <= self.formulas.len(),
                self.wf(),
                self.registered(),
                self.sheets == old(self).sheets,
                self.formulas == old(self).formulas,
                old(self).dependencies.edges().subset_of(self.dependencies.edges()),
                old(self).dependencies.nodes().subset_of(self.dependencies.nodes()),
                old(self).kept() && (forall|i: int|
                    0 <= i < old(self).formulas@.len() ==> (
                    #[trigger] old(self).formulas@[i]).0.num_row == 1 && old(
                        self,
                    ).formulas@[i].0.num_col == 1) ==> self.kept(),
                forall|k: int|
                    0 <= k < i ==> formula_in_graph(
                        #[trigger] old(self).formulas@[k],
                        old(self).sheets@,
                        self.dependencies,
                    ),
                forall|k: int|
                    0 <= k < i ==> parse_text_spec(
                        formula_body((#[trigger] old(self).formulas@[k]).1@),
                    ) is Some,
            decreases self.formulas.len() - i,
        {
            let cell: CellId = self.formulas[i].0;
            let ghost before = *self;
            match self.dependencies.add_formula(cell, self.formulas[i].1.as_slice(), &self.sheets) {
                Ok(()) => {},
                Err(e) => {
                    proof {
                        lemma_same_records_registered(before, *self);
                        assert(first_unparsed(old(self).formulas@, i as int, e));
                    }
                    return Err(e);
                },
            }
            self.dependencies.add_cell(cell);
            proof {
                assert forall|s: usize, r: usize, c: usize| #[trigger]
                    self.waiting(s, r, c) implies self.dependencies.dirty().contains(
                    cell_key(s, r, c),
                ) && self.dependencies.nodes().contains(cell_key(s, r, c)) by {
                    assert(before.waiting(s, r, c));
                }
                if before.kept() && cell.num_row == 1 && cell.num_col == 1 {
                    let parsed = parse_text_spec(formula_body(before.formulas@[i as int].1@))->Some_0;
                    let added = expression_edges(parsed, cell.sheet, cell.key(), self.sheets@);
                    crate::parser::lemma_parsed_ranges_wf(formula_body(before.formulas@[i as int].1@));
                    crate::coherence::lemma_expression_self_ranged(
                        parsed,
                        cell.sheet,
                        cell.key(),
                        self.sheets@,
                    );
                    crate::coherence::lemma_ranged_grows(before, *self, added, cell.key());
                    assert forall|s: int, r: int, c: int| #[trigger]
                        self.record(s, r, c) == before.record(s, r, c) by {}
                }
            }
            i = i + 1;
        }
        Ok(())
    }
}

/// The formula at place `i` of the list is the first that does not
/// parse, and `e` is the error of the parser on it.
pub open spec fn first_unparsed(formulas: Seq<(CellId, Vec<u8>)>, i: int, e: Error) -> bool {
    &&& 0 <= i < formulas.len()
    &&& parse_outcome(formula_body(formulas[i].1@), Err::<Expr, Error>(e))
    &&& forall|k: int|
        0 <= k < i ==> parse_text_spec(formula_body((#[trigger] formulas[k]).1@)) is Some
}

/// What a workbook file holds for one cell.
#[derive(Debug, PartialEq, Eq)]
pub enum CellRecord {
    /// The number of a text in the table of shared strings.
    SharedString(usize),
    /// A text of the cell's own.
    InlineString(Vec<u8>),
    /// A number, the date that it is the serial number of where one has
    /// been worked out, and the number of the style of the cell. The date
    /// is needed only where the style is a date style.
    Number { number: Double, date: Option<Date>, style: usize },
    Boolean(bool),
    /// The text of a formula; `shared` where other cells share it.
    Formula { text: Vec<u8>, shared: bool },
    /// The number of the shared formula that the cell takes.
    SharedFormula(usize),
}

/// A formula that cells share: the cell that holds it, and its text.
pub struct SharedFormula {
    pub base: CellIndex,
    pub text: Vec<u8>,
}

/// The value that a record stands for in the cell at `row` and `column`:
/// a shared string by its number, a number as a date where the style of
/// the cell is a date style, a formula as its text behind `=`, a shared
/// formula moved from its base to the cell. `None` where the table of
/// shared strings, the styles or the shared formulas have no such entry,
/// where a date style comes without a date, or where a shared formula
/// does not parse.
pub open spec fn record_value(
    strings: Seq<SharedString>,
    styles: Seq<Style>,
    shared: Seq<SharedFormula>,
    row: usize,
    column: usize,
    record: CellRecord,
) -> Option<ValueView> {
    match record {
        CellRecord::SharedString(i) => if i < strings.len() {
            Some(ValueView::Text(strings[i as int].0@))
        } else {
            None
        },
        CellRecord::InlineString(t) => Some(ValueView::Text(t@)),
        CellRecord::Number { number, date, style } => if style < styles.len() {
            if styles[style as int].spec_is_date() {
                match date {
                    Some(day) => Some(ValueView::Date(day)),
                    None => None,
                }
            } else {
                Some(ValueView::Num(number))
            }
        } else {
            None
        },
        CellRecord::Boolean(b) => Some(ValueView::Bool(b)),
        CellRecord::Formula { text, shared } => Some(
            ValueView::Formula(seq![0x3Du8] + without_prefix(text@, 0)),
        ),
        CellRecord::SharedFormula(i) => if i < shared.len() {
            match parse_text_spec(shared[i as int].text@) {
                Some(e) => Some(
                    ValueView::Formula(
                        seq![0x3Du8] + without_prefix(
                            format_expr(
                                adjusted(
                                    e,
                                    row - shared[i as int].base.row,
                                    column - shared[i as int].base.column,
                                ),
                            ),
                            0,
                        ),
                    ),
                ),
                None => None,
            }
        } else {
            None
        },
    }
}

impl Book {
    /// The value that a record of a workbook file stands for in the cell
    /// at `row` and `column`.
    pub fn value_of_record(
        &self,
        shared: &Vec<SharedFormula>,
        row: usize,
        column: usize,
        record: &CellRecord,
    ) -> (r: Option<Value>)
        ensures
            crate::evaluate::kernel::option_value_view(r) == record_value(
                self.shared_strings@,
                self.styles@,
                shared@,
                row,
                column,
                *record,
            ),
    {
        match record {
            CellRecord::SharedString(i) => {
                if *i < self.shared_strings.len() {
                    Some(Value::Text(copy_bytes(self.shared_strings[*i].0.as_slice())))
                } else {
                    None
                }
            },
            CellRecord::InlineString(t) => Some(Value::Text(copy_bytes(t.as_slice()))),
            CellRecord::Number { number, date, style } => {
                if *style < self.styles.len() {
                    if self.styles[*style].is_date() {
                        match date {
                            Some(day) => Some(Value::Date(*day)),
                            None => None,
                        }
                    } else {
                        Some(Value::Num(*number))
                    }
                } else {
                    None
                }
            },
            CellRecord::Boolean(b) => Some(Value::Bool(*b)),
            CellRecord::Formula { text, shared } => Some(
                Value::Formula(formula_value(text.as_slice())),
            ),
            CellRecord::SharedFormula(i) => {
                if *i < shared.len() {
                    match adjust_formula(
                        shared[*i].base,
                        CellIndex { row, column },
                        shared[*i].text.as_slice(),
                    ) {
                        Ok(text) => Some(Value::Formula(formula_value(text.as_slice()))),
                        Err(_) => None,
                    }
                } else {
                    None
                }
            },
        }
    }

    /// Takes one cell of a workbook file into sheet `sheet`: the value
    /// that `record` stands for is entered in the cell at `row` and
    /// `column`, as `enter` does; a formula that other cells share joins
    /// `shared`; a formula that was stored joins the list `formulas` with
    /// its cell, to be registered once more when the sheets have their
    /// final sizes. `Ok(false)`, and no cell changes, where the record stands
    /// for no value or the cell cannot be held.
    pub fn load_cell(
        &mut self,
        shared: &mut Vec<SharedFormula>,
        sheet: usize,
        row: usize,
        column: usize,
        record: CellRecord,
    ) -> (r: Result<bool, Error>)
        requires
            old(self).wf(),
            old(self).registered(),
        ensures
            final(self).wf(),
            final(self).registered(),
            final(self).sheets@.len() == old(self).sheets@.len(),
            old(self).kept() ==> final(self).kept(),
            match record_value(
                old(self).shared_strings@,
                old(self).styles@,
                old(shared)@,
                row,
                column,
                record,
            ) {
                Some(value) => match r {
                    Ok(true) => final(self).record(sheet as int, row as int, column as int)
                        == crate::sheet::entered(value),
                    Ok(false) => forall|s: int, r: int, c: int|
                        final(self).record(s, r, c) == old(self).record(s, r, c),
                    Err(e) => *final(self) == *old(self) && (value matches ValueView::Formula(text)
                        && parse_outcome(formula_body(text), Err::<Expr, Error>(e))),
                },
                None => r == Ok::<bool, Error>(false) && *final(self) == *old(self),
            },
            final(shared)@.len() == old(shared)@.len() + (if record matches CellRecord::Formula {
                text,
                shared: true,
            } {
                1int
            } else {
                0int
            }),
            forall|i: int| 0 <= i < old(shared)@.len() ==> final(shared)@[i] == old(shared)@[i],
            old(self).fresh() && (record_value(
                old(self).shared_strings@,
                old(self).styles@,
                old(shared)@,
                row,
                column,
                record,
            ) matches Some(value) ==> entry_tame(*old(self), sheet, row, column, value))
                ==> final(self).fresh(),
            record_value(
                old(self).shared_strings@,
                old(self).styles@,
                old(shared)@,
                row,
                column,
                record,
            ) matches Some(value) ==> entry_outcome(*old(self), sheet, row, column, value, r)
                && entry_effect(*old(self), *final(self), sheet, row, column, value, r),
            record matches CellRecord::Formula { text, shared: true } ==> final(shared)@.last()
                == (SharedFormula { base: CellIndex { row, column }, text }),
            listed(
                old(self).formulas@,
                final(self).formulas@,
                CellId { sheet, row, column, num_row: 1, num_col: 1, dirty: true },
                record_value(
                    old(self).shared_strings@,
                    old(self).styles@,
                    old(shared)@,
                    row,
                    column,
                    record,
                ),
                r,
            ),
    {
        let value = match self.value_of_record(shared, row, column, &record) {
            Some(value) => value,
            None => {
                return Ok(false);
            },
        };
        match record {
            CellRecord::Formula { text, shared: true } => {
                shared.push(SharedFormula { base: CellIndex { row, column }, text });
            },
            _ => {},
        }
        let listed: Option<Vec<u8>> = match &value {
            Value::Formula(text) => Some(copy_bytes(text.as_slice())),
            _ => None,
        };
        let ghost view = value@;
        let r = self.enter(sheet, row, column, value);
        let stored: bool = match &r {
            Ok(stored) => *stored,
            Err(_) => false,
        };
        if stored {
            match listed {
                Some(text) => {
                    let ghost before = *self;
                    let cell = CellId { sheet, row, column, num_row: 1, num_col: 1, dirty: true };
                    self.formulas.push((cell, text));
                    proof {
                        assert(self.formulas@.drop_last() =~= before.formulas@);
                        assert forall|s: int, r: int, c: int| #[trigger]
                            self.record(s, r, c) == before.record(s, r, c) by {}
                        lemma_same_records_registered(before, *self);
                        assert(extends(before.sheets@, self.sheets@));
                        if before.fresh() {
                            Book::lemma_fresh_kept(before, *self);
                        }
                    }
                },
                None => {},
            }
        }
        r
    }
}

} // verus!
