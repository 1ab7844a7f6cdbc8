//! Why a calculated workbook shows what its formulas evaluate to.
//!
//! An evaluation reads cells: those of the references of the formula,
//! and those that an `OFFSET` comes to point to. A cell that an evaluation
//! does not read can change without changing what the evaluation gives.
//! The order of calculation puts every cell that a formula reads before
//! the formula; so a result, once stored, stays the result of its formula
//! while the cells behind it are calculated.

use crate::dependency::{
    expression_edges, first_named, formula_body, grown, is_constituent, is_path, is_topological,
    items_edges, order_keys, range_node, reachable, reference_edges, touches, CellId, NodeKey,
};
use crate::evaluate::kernel::{truncate_model, Kernel};
use crate::evaluate::value::{single_of, Double, Value, ValueView};
use crate::evaluate::{reference_spec, unwrap_range};
use crate::parser::ast::{all_ranges_wf, ranges_wf, ExprView, Infix, Number};
use crate::parser::{lemma_parsed_ranges_wf, parse_text_spec};
use crate::range::{displaced, Range};
use crate::sheet::{shown, Sheet};
use crate::errors::Error;
use crate::workbook::{
    calculated_record, cell_key, entry_effect, lemma_displaced_wf, region_cells, region_clean,
    region_of, Book,
};
use vstd::arithmetic::div_mod::{lemma_div_pos_is_pos, lemma_fundamental_div_mod, lemma_mod_bound};
use vstd::prelude::*;
use vstd::string::StringSliceAdditionalSpecFns;

verus! {

/// Whether the cell in row `r` and column `c`, counted from 1, of sheet
/// `s` lies in the region that the reference resolves to.
pub open spec fn covers(
    book: Book,
    sheet: Option<Seq<u8>>,
    range: Range,
    s: int,
    r: int,
    c: int,
) -> bool {
    match book.target_of(sheet) {
        None => false,
        Some(id) => {
            let (first_row, first_column, rows, columns) = region_of(range, book.sheets@[id]);
            id == s && first_row < r <= first_row + rows && first_column < c <= first_column
                + columns
        },
    }
}

/// Two workbooks with the same sheets by name and size and the same
/// current sheet, whose cells hold the same but for the cell in row `r`
/// and column `c` of sheet `s`.
pub open spec fn alike(a: Book, b: Book, s: int, r: int, c: int) -> bool {
    &&& a.same_frame(&b)
    &&& a.current_sheet == b.current_sheet
    &&& forall|s2: int, r2: int, c2: int|
        !(s2 == s && r2 == r && c2 == c) ==> #[trigger] b.record(s2, r2, c2) == a.record(
            s2,
            r2,
            c2,
        )
}

/// Where in its rectangle the item `k` of a region stands.
proof fn lemma_region_index(k: int, rows: int, columns: int)
    requires
        0 <= rows,
        0 <= columns,
        0 <= k < rows * columns,
    ensures
        0 < columns,
        0 <= k / columns < rows,
        0 <= k % columns < columns,
{
    assert(columns > 0) by (nonlinear_arith)
        requires
            0 <= rows,
            0 <= columns,
            0 <= k < rows * columns,
    ;
    lemma_fundamental_div_mod(k, columns);
    lemma_mod_bound(k, columns);
    lemma_div_pos_is_pos(k, columns);
    let q = k / columns;
    assert(q < rows) by (nonlinear_arith)
        requires
            0 <= q,
            0 < columns,
            0 <= k % columns,
            k == columns * q + k % columns,
            k < rows * columns,
    ;
}

/// Sheets with the same names give the same sheet for a name.
proof fn lemma_same_named(a: Seq<Sheet>, b: Seq<Sheet>, name: Seq<u8>, from: int)
    requires
        a.len() == b.len(),
        forall|i: int| 0 <= i < a.len() ==> (#[trigger] a[i]).name == b[i].name,
    ensures
        first_named(a, name, from) == first_named(b, name, from),
    decreases a.len() - from,
{
    if 0 <= from < a.len() {
        assert(a[from].name == b[from].name);
        lemma_same_named(a, b, name, from + 1);
    }
}

/// A reference whose region leaves out the only cell in which two
/// workbooks differ resolves to the same in both.
pub proof fn lemma_same_region(
    a: Book,
    b: Book,
    sheet: Option<Seq<u8>>,
    range: Range,
    s: int,
    r: int,
    c: int,
)
    requires
        alike(a, b, s, r, c),
        range.wf(),
        !covers(a, sheet, range, s, r, c) || a.record(s, r, c) == b.record(s, r, c),
    ensures
        b.target_of(sheet) == a.target_of(sheet),
        b.resolve_spec(sheet, range) == a.resolve_spec(sheet, range),
        b.calculated_spec(sheet, range) == a.calculated_spec(sheet, range),
        reference_spec(Some(b), sheet, range) == reference_spec(Some(a), sheet, range),
        forall|s2: int, r2: int, c2: int|
            covers(b, sheet, range, s2, r2, c2) == covers(a, sheet, range, s2, r2, c2),
{
    match sheet {
        Some(name) => {
            lemma_same_named(a.sheets@, b.sheets@, name, 0);
        },
        None => {},
    }
    match a.target_of(sheet) {
        None => {},
        Some(id) => {
            lemma_target_is_sheet(a, sheet);
            let sa = a.sheets@[id];
            let sb = b.sheets@[id];
            assert(sa.max_rows == sb.max_rows && sa.max_columns == sb.max_columns);
            let (first_row, first_column, rows, columns) = region_of(range, sa);
            assert(region_of(range, sb) == (first_row, first_column, rows, columns));
            assert(0 <= first_row && 0 <= first_column && 0 <= rows && 0 <= columns);
            assert forall|i: int, j: int|
                first_row <= i < first_row + rows && first_column <= j < first_column
                    + columns implies #[trigger] sb.cell(i, j) == sa.cell(i, j) by {
                assert(b.record(id, i + 1, j + 1) == a.record(id, i + 1, j + 1));
            }
            if rows * columns <= usize::MAX {
                let ca = region_cells(sa, first_row, first_column, rows, columns);
                let cb = region_cells(sb, first_row, first_column, rows, columns);
                assert(ca.len() == cb.len());
                assert forall|k: int| 0 <= k < ca.len() implies ca[k] == cb[k] by {
                    lemma_region_index(k, rows, columns);
                    assert(sb.cell(first_row + k / columns, first_column + k % columns) == sa.cell(
                        first_row + k / columns,
                        first_column + k % columns,
                    ));
                }
                assert(ca =~= cb);
            }
            assert forall|i: int, j: int|
                first_row <= i < first_row + rows && first_column <= j < first_column
                    + columns implies #[trigger] sa.cell(i, j) == sb.cell(i, j) by {
                assert(b.record(id, i + 1, j + 1) == a.record(id, i + 1, j + 1));
            }
            assert(region_clean(sb, first_row, first_column, rows, columns) == region_clean(
                sa,
                first_row,
                first_column,
                rows,
                columns,
            ));
        },
    }
}

/// The sheet that a reference points to is one of the sheets.
pub proof fn lemma_target_is_sheet(book: Book, sheet: Option<Seq<u8>>)
    ensures
        book.target_of(sheet) matches Some(id) ==> 0 <= id < book.sheets@.len(),
{
    match sheet {
        Some(name) => {
            lemma_named_is_sheet(book.sheets@, name, 0);
        },
        None => {},
    }
}

proof fn lemma_named_is_sheet(sheets: Seq<Sheet>, name: Seq<u8>, from: int)
    requires
        0 <= from,
    ensures
        first_named(sheets, name, from) matches Some(id) ==> from <= id < sheets.len(),
    decreases sheets.len() - from,
{
    if from < sheets.len() && sheets[from].name@ != name {
        lemma_named_is_sheet(sheets, name, from + 1);
    }
}

/// Whether no reference written in `e` has the cell in row `r` and
/// column `c` of sheet `s` in its region.
pub open spec fn spares(book: Book, e: ExprView, s: int, r: int, c: int) -> bool
    decreases e, 1int,
{
    match e {
        ExprView::Reference { sheet, range } => !covers(book, sheet, range, s, r, c),
        ExprView::Prefix(_, a) => spares(book, *a, s, r, c),
        ExprView::Infix(_, a, b) => spares(book, *a, s, r, c) && spares(book, *b, s, r, c),
        ExprView::Func { name, args } => all_spare(book, args, s, r, c),
        ExprView::Array(items) => all_spare(book, items, s, r, c),
        _ => true,
    }
}

/// Whether no reference written in any of `items` has the cell in its
/// region.
pub open spec fn all_spare(book: Book, items: Seq<ExprView>, s: int, r: int, c: int) -> bool
    decreases items, 0int,
{
    forall|i: int| 0 <= i < items.len() ==> spares(book, #[trigger] items[i], s, r, c)
}

/// Whether one edge, or two edges in a row, lead from `from` to `to`.
pub open spec fn feeds(edges: Set<(NodeKey, NodeKey)>, from: NodeKey, to: NodeKey) -> bool {
    edges.contains((from, to)) || exists|via: NodeKey|
        edges.contains((from, via)) && #[trigger] edges.contains((via, to))
}

/// In an order of calculation a node stands before what it feeds.
pub proof fn lemma_feeds_before(
    order: Seq<NodeKey>,
    nodes: Set<NodeKey>,
    edges: Set<(NodeKey, NodeKey)>,
    from: NodeKey,
    to: NodeKey,
    i: int,
    j: int,
)
    requires
        is_topological(order, nodes, edges),
        crate::dependency::ends_are_nodes(nodes, edges),
        feeds(edges, from, to),
        0 <= i < order.len(),
        0 <= j < order.len(),
        order[i] == from,
        order[j] == to,
    ensures
        i < j,
{
    if !edges.contains((from, to)) {
        let via = choose|via: NodeKey|
            edges.contains((from, via)) && #[trigger] edges.contains((via, to));
        assert(nodes.contains(via));
        assert(order.contains(via));
        let m = choose|m: int| 0 <= m < order.len() && order[m] == via;
        assert(edges.contains((order[i], order[m])));
        assert(edges.contains((order[m], order[j])));
    }
}

/// The edges of one of the items are among the edges of them all.
proof fn lemma_item_edges(
    items: Seq<ExprView>,
    home: usize,
    cell: NodeKey,
    sheets: Seq<Sheet>,
    i: int,
)
    requires
        0 <= i < items.len(),
    ensures
        expression_edges(items[i], home, cell, sheets).subset_of(
            items_edges(items, home, cell, sheets),
        ),
    decreases items.len(),
{
    if i < items.len() - 1 {
        lemma_item_edges(items.drop_last(), home, cell, sheets, i);
        assert(items.drop_last()[i] == items[i]);
    }
}

/// A cell in the region of a reference written in the formula of another
/// cell feeds that cell by the edges of the formula.
pub proof fn lemma_named_cell_feeds(
    book: Book,
    e: ExprView,
    x: (usize, usize, usize),
    y: (usize, usize, usize),
)
    requires
        ranges_wf(e),
        book.current_sheet == x.0,
        !spares(book, e, y.0 as int, y.1 as int, y.2 as int),
        x != y,
    ensures
        feeds(
            expression_edges(e, x.0, cell_key(x.0, x.1, x.2), book.sheets@),
            cell_key(y.0, y.1, y.2),
            cell_key(x.0, x.1, x.2),
        ),
    decreases e, 1int,
{
    let cell = cell_key(x.0, x.1, x.2);
    let from = cell_key(y.0, y.1, y.2);
    let all = expression_edges(e, x.0, cell, book.sheets@);
    match e {
        ExprView::Reference { sheet, range } => {
            lemma_target_is_sheet(book, sheet);
            let id = book.target_of(sheet).unwrap();
            let on = book.sheets@[id];
            let pre = range_node(range, id as usize, on.max_rows, on.max_columns);
            assert(all == reference_edges(range, id as usize, on.max_rows, on.max_columns, cell));
            if from == pre {
                assert(all.contains((from, cell)));
            } else {
                assert(range.spec_is_multi_cell());
                assert(is_constituent(pre, from));
                assert(pre != cell);
                assert(all.contains((from, pre)));
                assert(all.contains((pre, cell)));
            }
        },
        ExprView::Prefix(_, inner) => {
            lemma_named_cell_feeds(book, *inner, x, y);
        },
        ExprView::Infix(_, left, right) => {
            if !spares(book, *left, y.0 as int, y.1 as int, y.2 as int) {
                lemma_named_cell_feeds(book, *left, x, y);
                lemma_feeds_more(expression_edges(*left, x.0, cell, book.sheets@), all, from, cell);
            } else {
                lemma_named_cell_feeds(book, *right, x, y);
                lemma_feeds_more(
                    expression_edges(*right, x.0, cell, book.sheets@),
                    all,
                    from,
                    cell,
                );
            }
        },
        ExprView::Func { name, args } => {
            assert(all_ranges_wf(args)) by {
                reveal_with_fuel(ranges_wf, 2);
            }
            lemma_named_item_feeds(book, args, x, y);
        },
        ExprView::Array(items) => {
            assert(all_ranges_wf(items)) by {
                reveal_with_fuel(ranges_wf, 2);
            }
            lemma_named_item_feeds(book, items, x, y);
        },
        _ => {},
    }
}

proof fn lemma_named_item_feeds(
    book: Book,
    items: Seq<ExprView>,
    x: (usize, usize, usize),
    y: (usize, usize, usize),
)
    requires
        all_ranges_wf(items),
        book.current_sheet == x.0,
        !all_spare(book, items, y.0 as int, y.1 as int, y.2 as int),
        x != y,
    ensures
        feeds(
            items_edges(items, x.0, cell_key(x.0, x.1, x.2), book.sheets@),
            cell_key(y.0, y.1, y.2),
            cell_key(x.0, x.1, x.2),
        ),
    decreases items, 0int,
{
    let cell = cell_key(x.0, x.1, x.2);
    let i = choose|i: int|
        0 <= i < items.len() && !spares(book, #[trigger] items[i], y.0 as int, y.1 as int, y.2 as int);
    lemma_named_cell_feeds(book, items[i], x, y);
    lemma_item_edges(items, x.0, cell, book.sheets@, i);
    lemma_feeds_more(
        expression_edges(items[i], x.0, cell, book.sheets@),
        items_edges(items, x.0, cell, book.sheets@),
        cell_key(y.0, y.1, y.2),
        cell,
    );
}

/// What feeds by some edges feeds by more edges.
pub proof fn lemma_feeds_more(
    few: Set<(NodeKey, NodeKey)>,
    many: Set<(NodeKey, NodeKey)>,
    from: NodeKey,
    to: NodeKey,
)
    requires
        few.subset_of(many),
        feeds(few, from, to),
    ensures
        feeds(many, from, to),
{
    if !few.contains((from, to)) {
        let via = choose|via: NodeKey|
            few.contains((from, via)) && #[trigger] few.contains((via, to));
        assert(many.contains((from, via)) && many.contains((via, to)));
    }
}

impl<FN, FA, FT, FL> Kernel<FN, FA, FT, FL> where
    FN: Fn(&Number) -> Option<Double>,
    FA: Fn(Infix, Double, Double) -> Double,
    FT: Fn(Double) -> i64,
    FL: Fn(&Vec<u8>, Vec<Value>) -> Option<Value>,
 {
    /// The reference that `OFFSET` with the arguments `args` comes to
    /// point to in `book`, if it comes to point to any.
    pub open spec fn offset_target(&self, book: Book, args: Seq<ExprView>) -> Option<
        (Option<Seq<u8>>, Range),
    > {
        if args.len() != 3 {
            None
        } else {
            match (
                args[0],
                self.eval_spec(Some(book), args[1]),
                self.eval_spec(Some(book), args[2]),
            ) {
                (ExprView::Reference { sheet, range }, Ok(rows), Ok(columns)) => match (
                    self.num_of(rows),
                    self.num_of(columns),
                ) {
                    (Ok(r), Ok(c)) => match displaced(
                        range,
                        truncate_model(self.truncate, r) as int,
                        truncate_model(self.truncate, c) as int,
                    ) {
                        Some(moved) => Some((sheet, moved)),
                        None => None,
                    },
                    _ => None,
                },
                _ => None,
            }
        }
    }

    /// Whether the evaluation of `e` in `book` leaves the cell in row `r`
    /// and column `c` of sheet `s` unread: the cell lies in the region of
    /// no reference that is evaluated, and of no reference that an
    /// `OFFSET` comes to point to.
    pub open spec fn avoids(&self, book: Book, e: ExprView, s: int, r: int, c: int) -> bool
        decreases e, 2int,
    {
        match e {
            ExprView::Reference { sheet, range } => !covers(book, sheet, range, s, r, c),
            ExprView::Prefix(_, a) => self.avoids(book, *a, s, r, c),
            ExprView::Infix(_, a, b) => self.avoids(book, *a, s, r, c) && self.avoids(
                book,
                *b,
                s,
                r,
                c,
            ),
            ExprView::Func { name, args } => if name == "OFFSET".spec_bytes() {
                self.offset_avoids(book, args, s, r, c)
            } else {
                self.all_avoid(book, args, s, r, c)
            },
            ExprView::Array(items) => self.all_avoid(book, items, s, r, c),
            _ => true,
        }
    }

    /// Whether the evaluation of each of `items` leaves the cell unread.
    pub open spec fn all_avoid(&self, book: Book, items: Seq<ExprView>, s: int, r: int, c: int) -> bool
        decreases items, 1int,
    {
        forall|i: int| 0 <= i < items.len() ==> self.avoids(book, #[trigger] items[i], s, r, c)
    }

    /// Whether `OFFSET` with the arguments `args` leaves the cell unread:
    /// the evaluation of the two distances does, and the cell is none of
    /// those that the moved reference points to.
    pub open spec fn offset_avoids(&self, book: Book, args: Seq<ExprView>, s: int, r: int, c: int) -> bool
        decreases args, 0int,
    {
        if args.len() == 3 && args[0] is Reference {
            &&& self.avoids(book, args[1], s, r, c)
            &&& self.avoids(book, args[2], s, r, c)
            &&& match self.offset_target(book, args) {
                Some((sheet, moved)) => !covers(book, sheet, moved, s, r, c),
                None => true,
            }
        } else {
            true
        }
    }

    /// An evaluation that does not read the only cell in which two
    /// workbooks differ gives the same in both, and reads the same cells
    /// in both.
    pub proof fn lemma_frame(
        &self,
        a: Book,
        b: Book,
        e: ExprView,
        x: (int, int, int),
        y: (int, int, int),
    )
        requires
            alike(a, b, x.0, x.1, x.2),
            ranges_wf(e),
            self.avoids(a, e, x.0, x.1, x.2) || a.record(x.0, x.1, x.2) == b.record(x.0, x.1, x.2),
        ensures
            self.eval_spec(Some(b), e) == self.eval_spec(Some(a), e),
            self.avoids(b, e, y.0, y.1, y.2) == self.avoids(a, e, y.0, y.1, y.2),
        decreases e, 2int,
    {
        match e {
            ExprView::Reference { sheet, range } => {
                lemma_same_region(a, b, sheet, range, x.0, x.1, x.2);
            },
            ExprView::Prefix(_, inner) => {
                self.lemma_frame(a, b, *inner, x, y);
            },
            ExprView::Infix(_, left, right) => {
                self.lemma_frame(a, b, *left, x, y);
                self.lemma_frame(a, b, *right, x, y);
            },
            ExprView::Func { name, args } => {
                assert(all_ranges_wf(args)) by {
                    reveal_with_fuel(ranges_wf, 2);
                }
                if name == "OFFSET".spec_bytes() {
                    self.lemma_frame_offset(a, b, args, x, y);
                } else {
                    self.lemma_frame_all(a, b, args, x, y);
                }
            },
            ExprView::Array(items) => {
                assert(all_ranges_wf(items)) by {
                    reveal_with_fuel(ranges_wf, 2);
                }
                self.lemma_frame_all(a, b, items, x, y);
            },
            _ => {},
        }
    }

    proof fn lemma_frame_all(
        &self,
        a: Book,
        b: Book,
        items: Seq<ExprView>,
        x: (int, int, int),
        y: (int, int, int),
    )
        requires
            alike(a, b, x.0, x.1, x.2),
            all_ranges_wf(items),
            self.all_avoid(a, items, x.0, x.1, x.2) || a.record(x.0, x.1, x.2) == b.record(
                x.0,
                x.1,
                x.2,
            ),
        ensures
            self.eval_all_spec(Some(b), items) == self.eval_all_spec(Some(a), items),
            self.all_avoid(b, items, y.0, y.1, y.2) == self.all_avoid(a, items, y.0, y.1, y.2),
        decreases items, 1int,
    {
        if items.len() > 0 {
            let front = items.drop_last();
            assert forall|i: int| 0 <= i < front.len() implies ranges_wf(#[trigger] front[i]) by {
                assert(front[i] == items[i]);
            }
            if self.all_avoid(a, items, x.0, x.1, x.2) {
                assert forall|i: int| 0 <= i < front.len() implies self.avoids(
                    a,
                    #[trigger] front[i],
                    x.0,
                    x.1,
                    x.2,
                ) by {
                    assert(front[i] == items[i]);
                }
            }
            self.lemma_frame_all(a, b, front, x, y);
            self.lemma_frame(a, b, items.last(), x, y);
        }
        assert forall|i: int| 0 <= i < items.len() implies self.avoids(
            b,
            #[trigger] items[i],
            y.0,
            y.1,
            y.2,
        ) == self.avoids(a, items[i], y.0, y.1, y.2) by {
            self.lemma_frame(a, b, items[i], x, y);
        }
    }

    proof fn lemma_frame_offset(
        &self,
        a: Book,
        b: Book,
        args: Seq<ExprView>,
        x: (int, int, int),
        y: (int, int, int),
    )
        requires
            alike(a, b, x.0, x.1, x.2),
            all_ranges_wf(args),
            self.offset_avoids(a, args, x.0, x.1, x.2) || a.record(x.0, x.1, x.2) == b.record(
                x.0,
                x.1,
                x.2,
            ),
        ensures
            self.offset_spec(b, args) == self.offset_spec(a, args),
            self.offset_avoids(b, args, y.0, y.1, y.2) == self.offset_avoids(
                a,
                args,
                y.0,
                y.1,
                y.2,
            ),
        decreases args, 0int,
    {
        if args.len() == 3 {
            assert(ranges_wf(args[0]) && ranges_wf(args[1]) && ranges_wf(args[2]));
            match args[0] {
                ExprView::Reference { sheet, range } => {
                    self.lemma_frame(a, b, args[1], x, y);
                    self.lemma_frame(a, b, args[2], x, y);
                    assert(self.offset_target(b, args) == self.offset_target(a, args));
                    match self.offset_target(a, args) {
                        Some((target, moved)) => {
                            assert(target == sheet);
                            let rows = self.eval_spec(Some(a), args[1])->Ok_0;
                            let columns = self.eval_spec(Some(a), args[2])->Ok_0;
                            lemma_displaced_wf(
                                range,
                                truncate_model(self.truncate, self.num_of(rows)->Ok_0) as int,
                                truncate_model(self.truncate, self.num_of(columns)->Ok_0) as int,
                            );
                            lemma_same_region(a, b, sheet, moved, x.0, x.1, x.2);
                        },
                        None => {},
                    }
                },
                _ => {},
            }
        }
    }

    /// Where all of the items evaluate to values, each of them does.
    proof fn lemma_all_ok(&self, book: Option<Book>, items: Seq<ExprView>, i: int)
        requires
            self.eval_all_spec(book, items) is Ok,
            0 <= i < items.len(),
        ensures
            self.eval_spec(book, items[i]) is Ok,
        decreases items.len(),
    {
        if i < items.len() - 1 {
            self.lemma_all_ok(book, items.drop_last(), i);
            assert(items.drop_last()[i] == items[i]);
        }
    }

    /// An evaluation that ends with a value has read no cell that waits
    /// to be calculated, unless a reference written in the formula has
    /// that cell in its region.
    pub proof fn lemma_quiet(&self, a: Book, e: ExprView, s: int, r: int, c: int)
        requires
            ranges_wf(e),
            self.eval_spec(Some(a), e) is Ok,
            spares(a, e, s, r, c),
            a.record(s, r, c).dirty,
        ensures
            self.avoids(a, e, s, r, c),
        decreases e, 2int,
    {
        match e {
            ExprView::Prefix(_, inner) => {
                self.lemma_quiet(a, *inner, s, r, c);
            },
            ExprView::Infix(_, left, right) => {
                self.lemma_quiet(a, *left, s, r, c);
                self.lemma_quiet(a, *right, s, r, c);
            },
            ExprView::Func { name, args } => {
                assert(all_ranges_wf(args)) by {
                    reveal_with_fuel(ranges_wf, 2);
                }
                if name == "OFFSET".spec_bytes() {
                    self.lemma_quiet_offset(a, args, s, r, c);
                } else {
                    self.lemma_quiet_all(a, args, s, r, c);
                }
            },
            ExprView::Array(items) => {
                assert(all_ranges_wf(items)) by {
                    reveal_with_fuel(ranges_wf, 2);
                }
                self.lemma_quiet_all(a, items, s, r, c);
            },
            _ => {},
        }
    }

    proof fn lemma_quiet_all(&self, a: Book, items: Seq<ExprView>, s: int, r: int, c: int)
        requires
            all_ranges_wf(items),
            self.eval_all_spec(Some(a), items) is Ok,
            all_spare(a, items, s, r, c),
            a.record(s, r, c).dirty,
        ensures
            self.all_avoid(a, items, s, r, c),
        decreases items, 1int,
    {
        assert forall|i: int| 0 <= i < items.len() implies self.avoids(
            a,
            #[trigger] items[i],
            s,
            r,
            c,
        ) by {
            self.lemma_all_ok(Some(a), items, i);
            self.lemma_quiet(a, items[i], s, r, c);
        }
    }

    proof fn lemma_quiet_offset(&self, a: Book, args: Seq<ExprView>, s: int, r: int, c: int)
        requires
            all_ranges_wf(args),
            self.offset_spec(a, args) is Ok,
            all_spare(a, args, s, r, c),
            a.record(s, r, c).dirty,
        ensures
            self.offset_avoids(a, args, s, r, c),
        decreases args, 0int,
    {
        if args.len() == 3 {
            assert(ranges_wf(args[0]) && ranges_wf(args[1]) && ranges_wf(args[2]));
            assert(spares(a, args[1], s, r, c) && spares(a, args[2], s, r, c));
            match args[0] {
                ExprView::Reference { sheet, range } => {
                    self.lemma_quiet(a, args[1], s, r, c);
                    self.lemma_quiet(a, args[2], s, r, c);
                    match self.offset_target(a, args) {
                        Some((target, moved)) => {
                            assert(target == sheet);
                            let rows = self.eval_spec(Some(a), args[1])->Ok_0;
                            let columns = self.eval_spec(Some(a), args[2])->Ok_0;
                            lemma_displaced_wf(
                                range,
                                truncate_model(self.truncate, self.num_of(rows)->Ok_0) as int,
                                truncate_model(self.truncate, self.num_of(columns)->Ok_0) as int,
                            );
                            lemma_target_is_sheet(a, sheet);
                            if covers(a, sheet, moved, s, r, c) {
                                let on = a.sheets@[s];
                                assert(on.cell(r - 1, c - 1).dirty);
                            }
                        },
                        None => {},
                    }
                },
                _ => {},
            }
        }
    }
}

/// Whether the references written in `e` cover the same cells in two
/// workbooks with the same sheets by name and size.
proof fn lemma_spares_alike(a: Book, b: Book, e: ExprView, s: int, r: int, c: int)
    requires
        a.same_frame(&b),
        a.current_sheet == b.current_sheet,
    ensures
        spares(b, e, s, r, c) == spares(a, e, s, r, c),
    decreases e, 1int,
{
    match e {
        ExprView::Reference { sheet, range } => {
            match sheet {
                Some(name) => {
                    lemma_same_named(a.sheets@, b.sheets@, name, 0);
                },
                None => {},
            }
            lemma_target_is_sheet(a, sheet);
        },
        ExprView::Prefix(_, inner) => {
            lemma_spares_alike(a, b, *inner, s, r, c);
        },
        ExprView::Infix(_, left, right) => {
            lemma_spares_alike(a, b, *left, s, r, c);
            lemma_spares_alike(a, b, *right, s, r, c);
        },
        ExprView::Func { name, args } => {
            lemma_all_spare_alike(a, b, args, s, r, c);
        },
        ExprView::Array(items) => {
            lemma_all_spare_alike(a, b, items, s, r, c);
        },
        _ => {},
    }
}

proof fn lemma_all_spare_alike(a: Book, b: Book, items: Seq<ExprView>, s: int, r: int, c: int)
    requires
        a.same_frame(&b),
        a.current_sheet == b.current_sheet,
    ensures
        all_spare(b, items, s, r, c) == all_spare(a, items, s, r, c),
    decreases items, 0int,
{
    assert forall|i: int| 0 <= i < items.len() implies spares(b, #[trigger] items[i], s, r, c)
        == spares(a, items[i], s, r, c) by {
        lemma_spares_alike(a, b, items[i], s, r, c);
    }
}

/// The references of a formula stand for the same edges over sheets of
/// the same names and sizes.
pub proof fn lemma_edges_alike(
    e: ExprView,
    home: usize,
    cell: NodeKey,
    a: Seq<Sheet>,
    b: Seq<Sheet>,
)
    requires
        a.len() == b.len(),
        forall|i: int|
            0 <= i < a.len() ==> (#[trigger] a[i]).name == b[i].name && a[i].max_rows
                == b[i].max_rows && a[i].max_columns == b[i].max_columns,
    ensures
        expression_edges(e, home, cell, b) == expression_edges(e, home, cell, a),
    decreases e, 1int,
{
    match e {
        ExprView::Reference { sheet, range } => {
            match sheet {
                Some(name) => {
                    lemma_same_named(a, b, name, 0);
                    lemma_named_is_sheet(a, name, 0);
                },
                None => {},
            }
        },
        ExprView::Prefix(_, inner) => {
            lemma_edges_alike(*inner, home, cell, a, b);
        },
        ExprView::Infix(_, left, right) => {
            lemma_edges_alike(*left, home, cell, a, b);
            lemma_edges_alike(*right, home, cell, a, b);
        },
        ExprView::Func { name, args } => {
            lemma_items_edges_alike(args, home, cell, a, b);
        },
        ExprView::Array(items) => {
            lemma_items_edges_alike(items, home, cell, a, b);
        },
        _ => {},
    }
}

proof fn lemma_items_edges_alike(
    items: Seq<ExprView>,
    home: usize,
    cell: NodeKey,
    a: Seq<Sheet>,
    b: Seq<Sheet>,
)
    requires
        a.len() == b.len(),
        forall|i: int|
            0 <= i < a.len() ==> (#[trigger] a[i]).name == b[i].name && a[i].max_rows
                == b[i].max_rows && a[i].max_columns == b[i].max_columns,
    ensures
        items_edges(items, home, cell, b) == items_edges(items, home, cell, a),
    decreases items, 0int,
{
    if items.len() > 0 {
        lemma_items_edges_alike(items.drop_last(), home, cell, a, b);
        lemma_edges_alike(items.last(), home, cell, a, b);
    }
}

impl Book {
    /// The expression of the formula in the cell in row `r` and column
    /// `c`, counted from 1, of sheet `s`, where the cell holds a formula
    /// that parses.
    pub open spec fn formula_at(&self, s: usize, r: usize, c: usize) -> Option<ExprView> {
        match self.record(s as int, r as int, c as int).value {
            ValueView::Formula(text) => parse_text_spec(formula_body(text)),
            _ => None,
        }
    }

    /// Every formula of the workbook parses and is written without
    /// `OFFSET`.
    pub open spec fn plain(&self) -> bool {
        forall|s: usize, r: usize, c: usize|
            (#[trigger] self.record(s as int, r as int, c as int)).value matches ValueView::Formula(
                text,
            ) ==> parse_text_spec(formula_body(text)) matches Some(e) && offset_free(e)
    }

    /// Every formula of the workbook parses.
    pub open spec fn parses(&self) -> bool {
        forall|s: usize, r: usize, c: usize|
            (#[trigger] self.record(s as int, r as int, c as int)).value is Formula
                ==> self.formula_at(s, r, c) is Some
    }

    /// Every cell that shows no result holds a formula: nothing but a
    /// formula waits.
    pub open spec fn tidy(&self) -> bool {
        forall|s: int, r: int, c: int| (#[trigger] self.record(s, r, c)).dirty ==> self.record(
            s,
            r,
            c,
        ).value is Formula
    }

    /// Every node of the graph has an edge from each of the single cells
    /// that it is made of.
    pub open spec fn ranged(&self) -> bool {
        forall|pre: NodeKey, z: NodeKey|
            self.dependencies.nodes().contains(pre) && #[trigger] is_constituent(pre, z)
                ==> self.dependencies.edges().contains((z, pre))
    }

    /// Nothing but a formula waits, and every node of the graph has an
    /// edge from each of the single cells that it is made of. A new
    /// workbook is kept so, and entering values, loading cells and
    /// calculating keep it so.
    pub open spec fn kept(&self) -> bool {
        self.tidy() && self.ranged()
    }

    /// Whether the node of the cell is marked.
    pub open spec fn marked(&self, s: usize, r: usize, c: usize) -> bool {
        self.dependencies.dirty().contains(cell_key(s, r, c))
    }

    /// Whether the cell holds a formula that has to be calculated: its
    /// node is marked.
    pub open spec fn pending(&self, s: usize, r: usize, c: usize) -> bool {
        self.record(s as int, r as int, c as int).value is Formula && self.marked(s, r, c)
    }

    /// Every cell whose formula has to be calculated waits: it shows no
    /// result.
    pub open spec fn flagged(&self) -> bool {
        forall|s: usize, r: usize, c: usize| #[trigger]
            self.pending(s, r, c) ==> self.record(s as int, r as int, c as int).dirty
    }

    /// The graph knows the formula of the cell, if it holds one: the
    /// cell is a node; the edges that the references of the formula stand
    /// for are in the graph; and no reference of the formula has the cell
    /// itself in its region.
    pub open spec fn cell_grounded(&self, s: usize, r: usize, c: usize) -> bool {
        self.record(s as int, r as int, c as int).value is Formula ==> {
            &&& self.dependencies.nodes().contains(cell_key(s, r, c))
            &&& match self.formula_at(s, r, c) {
                Some(e) => expression_edges(e, s, cell_key(s, r, c), self.sheets@).subset_of(
                    self.dependencies.edges(),
                ) && spares(self.at_sheet(s), e, s as int, r as int, c as int),
                None => true,
            }
        }
    }

    /// The graph knows the formula of every cell that holds one.
    pub open spec fn grounded(&self) -> bool {
        forall|s: usize, r: usize, c: usize| #[trigger] self.cell_grounded(s, r, c)
    }
}

impl<FN, FA, FT, FL> Kernel<FN, FA, FT, FL> where
    FN: Fn(&Number) -> Option<Double>,
    FA: Fn(Infix, Double, Double) -> Double,
    FT: Fn(Double) -> i64,
    FL: Fn(&Vec<u8>, Vec<Value>) -> Option<Value>,
 {
    /// The evaluation of `e`, written in a cell of sheet `home`, reads no
    /// cell whose formula has to be calculated.
    pub open spec fn reads_settled(&self, book: Book, home: usize, e: ExprView) -> bool {
        forall|s: usize, r: usize, c: usize|
            book.pending(s, r, c) ==> #[trigger] self.avoids(
                book.at_sheet(home),
                e,
                s as int,
                r as int,
                c as int,
            )
    }

    /// A cell that holds a formula, does not wait and whose node is not
    /// marked shows the single value that stands for what the formula
    /// evaluates to in the workbook as it is, and that evaluation reads no
    /// cell whose formula has to be calculated.
    pub open spec fn cell_coherent(&self, book: Book, s: usize, r: usize, c: usize) -> bool {
        match book.formula_at(s, r, c) {
            Some(e) => !book.record(s as int, r as int, c as int).dirty && !book.marked(s, r, c)
                ==> {
                &&& self.eval_spec(Some(book.at_sheet(s)), e) matches Ok(v) && book.record(
                    s as int,
                    r as int,
                    c as int,
                ).calculated == single_of(unwrap_range(v))
                &&& self.reads_settled(book, s, e)
            },
            None => true,
        }
    }

    /// Every calculated formula shows what it evaluates to.
    pub open spec fn coherent(&self, book: Book) -> bool {
        forall|s: usize, r: usize, c: usize| #[trigger] self.cell_coherent(book, s, r, c)
    }

    /// The graph and the results are in accord: the graph knows every
    /// formula; every calculated formula whose node is not marked shows
    /// what it evaluates to; and either every formula that has to be
    /// calculated waits, or no formula is written with `OFFSET`.
    pub closed spec fn sound(&self, book: Book) -> bool {
        book.grounded() && self.coherent(book) && (book.flagged() || book.plain())
    }

    /// What it is for the graph and the results to be in accord.
    pub proof fn lemma_sound(&self, book: Book)
        ensures
            self.sound(book) == (book.grounded() && self.coherent(book) && (book.flagged()
                || book.plain())),
    {
    }
}

/// Workbooks with the same records, the same sheets by name and size and
/// the same current sheet.
pub open spec fn same_cells(a: Book, b: Book) -> bool {
    &&& a.same_frame(&b)
    &&& b.same_frame(&a)
    &&& forall|s: int, r: int, c: int| #[trigger] b.record(s, r, c) == a.record(s, r, c)
}

/// Every cell holds in `b` what was entered in it in `a`: the results may
/// differ, what was entered does not.
pub open spec fn same_entries(a: Book, b: Book) -> bool {
    forall|s: int, r: int, c: int| (#[trigger] b.record(s, r, c)).value == a.record(s, r, c).value
}

/// Every cell with a formula that does not parse holds in `b` the record
/// that it held in `a`.
pub open spec fn same_unparsed(a: Book, b: Book) -> bool {
    forall|s: usize, r: usize, c: usize|
        a.record(s as int, r as int, c as int).value is Formula && a.formula_at(s, r, c) is None
            ==> #[trigger] b.record(s as int, r as int, c as int) == a.record(
            s as int,
            r as int,
            c as int,
        )
}

/// The edges of `added` are `added.len()` different edges that `after`
/// has and `before` had not.
pub open spec fn new_edges(
    before: Set<(NodeKey, NodeKey)>,
    after: Set<(NodeKey, NodeKey)>,
    added: Seq<(NodeKey, NodeKey)>,
) -> bool {
    &&& added.no_duplicates()
    &&& forall|i: int|
        0 <= i < added.len() ==> after.contains(#[trigger] added[i]) && !before.contains(added[i])
}

/// Whether `after` has at least `n` edges that `before` had not.
pub open spec fn grew_by(
    before: Set<(NodeKey, NodeKey)>,
    after: Set<(NodeKey, NodeKey)>,
    n: nat,
) -> bool {
    exists|added: Seq<(NodeKey, NodeKey)>| #[trigger]
        new_edges(before, after, added) && added.len() == n
}

/// Whether no call of `OFFSET` is written in `e`.
pub open spec fn offset_free(e: ExprView) -> bool
    decreases e, 1int,
{
    match e {
        ExprView::Prefix(_, a) => offset_free(*a),
        ExprView::Infix(_, a, b) => offset_free(*a) && offset_free(*b),
        ExprView::Func { name, args } => name != "OFFSET".spec_bytes() && all_offset_free(args),
        ExprView::Array(items) => all_offset_free(items),
        _ => true,
    }
}

/// Whether no call of `OFFSET` is written in any of `items`.
pub open spec fn all_offset_free(items: Seq<ExprView>) -> bool
    decreases items, 0int,
{
    forall|i: int| 0 <= i < items.len() ==> offset_free(#[trigger] items[i])
}

/// The workbook `after` is `before` but for the record of the cell `x`.
pub open spec fn changed_at(before: Book, after: Book, x: (usize, usize, usize)) -> bool {
    &&& before.same_frame(&after)
    &&& after.same_frame(&before)
    &&& forall|s: int, r: int, c: int|
        !(s == x.0 && r == x.1 && c == x.2) ==> #[trigger] after.record(s, r, c) == before.record(
            s,
            r,
            c,
        )
}

impl<FN, FA, FT, FL> Kernel<FN, FA, FT, FL> where
    FN: Fn(&Number) -> Option<Double>,
    FA: Fn(Infix, Double, Double) -> Double,
    FT: Fn(Double) -> i64,
    FL: Fn(&Vec<u8>, Vec<Value>) -> Option<Value>,
 {
    /// The node is a marked single cell with a formula that parses, and
    /// the evaluation of the formula in `book` ends with the signal
    /// `pending`: a reference that it has come to point to and whose
    /// cells are not calculated.
    pub open spec fn signals(&self, book: Book, cell: CellId, pending: ExprView) -> bool {
        book.formula_of(cell) matches Some(text) && parse_text_spec(formula_body(text))
            matches Some(e) && self.eval_spec(Some(book.at_sheet(cell.sheet)), e) == Err::<
            ValueView,
            ExprView,
        >(pending)
    }

    /// A formula without `OFFSET` evaluates to a value: it never ends with
    /// a signal, whatever the workbook holds.
    pub proof fn lemma_offset_free_evaluates(&self, book: Option<Book>, e: ExprView)
        requires
            offset_free(e),
        ensures
            self.eval_spec(book, e) is Ok,
        decreases e, 2int,
    {
        match e {
            ExprView::Prefix(_, a) => {
                self.lemma_offset_free_evaluates(book, *a);
            },
            ExprView::Infix(_, a, b) => {
                self.lemma_offset_free_evaluates(book, *a);
                self.lemma_offset_free_evaluates(book, *b);
            },
            ExprView::Func { name, args } => {
                self.lemma_all_offset_free_evaluate(book, args);
            },
            ExprView::Array(items) => {
                self.lemma_all_offset_free_evaluate(book, items);
            },
            _ => {},
        }
    }

    proof fn lemma_all_offset_free_evaluate(&self, book: Option<Book>, items: Seq<ExprView>)
        requires
            all_offset_free(items),
        ensures
            self.eval_all_spec(book, items) is Ok,
        decreases items, 1int,
    {
        if items.len() > 0 {
            let front = items.drop_last();
            assert forall|i: int| 0 <= i < front.len() implies offset_free(#[trigger] front[i]) by {
                assert(front[i] == items[i]);
            }
            self.lemma_all_offset_free_evaluate(book, front);
            self.lemma_offset_free_evaluates(book, items.last());
        }
    }

    /// A step of the calculation leaves what was entered in every cell.
    pub proof fn lemma_stored_entries(&self, before: Book, after: Book, cell: CellId)
        requires
            self.stored(before, after, cell),
            forall|s: int, r: int, c: int|
                !(s == cell.sheet && r == cell.row && c == cell.column) ==> #[trigger] after.record(
                    s,
                    r,
                    c,
                ) == before.record(s, r, c),
        ensures
            same_entries(before, after),
    {
        assert forall|s: int, r: int, c: int| (#[trigger] after.record(s, r, c)).value
            == before.record(s, r, c).value by {
            if !(s == cell.sheet && r == cell.row && c == cell.column) {
                assert(after.record(s, r, c) == before.record(s, r, c));
            }
        }
    }

    /// Whether, in some workbook with the sheets of `book` by name and
    /// size and with what was entered in its cells, the evaluation of the
    /// formula of some cell ends with a signal.
    pub open spec fn signalled(&self, book: Book) -> bool {
        exists|other: Book, cell: CellId, pending: ExprView|
            other.same_frame(&book) && same_entries(book, other) && #[trigger] self.signals(
                other,
                cell,
                pending,
            )
    }

    /// In a workbook whose formulas are written without `OFFSET` no
    /// evaluation ends with a signal, whatever the results in its cells.
    pub proof fn lemma_plain_never_signals(&self, book: Book)
        requires
            book.plain(),
        ensures
            !self.signalled(book),
    {
        assert forall|other: Book, cell: CellId, pending: ExprView|
            other.same_frame(&book) && same_entries(book, other) implies !#[trigger] self.signals(
            other,
            cell,
            pending,
        ) by {
            if self.signals(other, cell, pending) {
                let text = other.formula_of(cell)->Some_0;
                let e = parse_text_spec(formula_body(text))->Some_0;
                assert(other.record(cell.sheet as int, cell.row as int, cell.column as int).value
                    == book.record(cell.sheet as int, cell.row as int, cell.column as int).value);
                assert(book.record(
                    cell.sheet as int,
                    cell.row as int,
                    cell.column as int,
                ).value matches ValueView::Formula(t) && t == text);
                self.lemma_offset_free_evaluates(Some(other.at_sheet(cell.sheet)), e);
            }
        }
    }

    /// In a workbook whose formulas parse, no formula fails to parse,
    /// whatever the results in its cells.
    pub proof fn lemma_plain_parses(&self, book: Book, other: Book, cell: CellId)
        requires
            book.plain(),
            same_entries(book, other),
        ensures
            other.formula_of(cell) matches Some(text) ==> parse_text_spec(formula_body(text))
                is Some,
    {
        if other.formula_of(cell) is Some {
            assert(other.record(cell.sheet as int, cell.row as int, cell.column as int).value
                == book.record(cell.sheet as int, cell.row as int, cell.column as int).value);
        }
    }

    /// A signal in a workbook with the same entries is a signal.
    pub proof fn lemma_signalled(&self, book: Book, other: Book, cell: CellId, pending: ExprView)
        requires
            other.same_frame(&book),
            same_entries(book, other),
            self.signals(other, cell, pending),
        ensures
            self.signalled(book),
    {
    }

    /// The failure names a marked cell whose formula ends with a signal
    /// although the graph has the reference of the signal as a precedent
    /// of the cell already, and holds the signal as its cause.
    pub open spec fn stuck_formula(&self, book: Book, e: Error) -> bool {
        e matches Error::Calculation(cell, cause) && (*cause matches Error::Volatile(x)
            && self.signals(book, cell, x@) && book.dependencies.dirty().contains(cell.key())
            && book.stuck(cell, x@))
    }

    /// An edge that the calculation may install: in some workbook with
    /// the sheets of `book` by name and size and with what was entered in
    /// its cells, the formula of a cell ends with a signal, and the edge
    /// is one of those that the reference of the signal stands for as a
    /// precedent of the cell, or the edge from the node of that reference
    /// to the cell, be it the cell itself.
    pub open spec fn installs(&self, book: Book, edge: (NodeKey, NodeKey)) -> bool {
        exists|other: Book, cell: CellId, pending: ExprView|
            other.same_frame(&book) && same_entries(book, other) && #[trigger] self.signals(
                other,
                cell,
                pending,
            ) && (expression_edges(pending, cell.sheet, cell.key(), book.sheets@).contains(edge)
                || book.signal_edge(cell, pending) == Some(edge))
    }

    /// A step of the calculation keeps a workbook kept: it makes no cell
    /// wait and leaves the graph.
    pub proof fn lemma_stored_kept(&self, before: Book, after: Book, cell: CellId)
        requires
            before.kept(),
            self.stored(before, after, cell),
            after.dependencies.tree == before.dependencies.tree,
            forall|s: int, r: int, c: int|
                !(s == cell.sheet && r == cell.row && c == cell.column) ==> #[trigger] after.record(
                    s,
                    r,
                    c,
                ) == before.record(s, r, c),
        ensures
            after.kept(),
    {
        assert forall|s: int, r: int, c: int|
            (#[trigger] after.record(s, r, c)).value == before.record(s, r, c).value && (
            after.record(s, r, c).dirty ==> before.record(s, r, c).dirty) by {
            if !(s == cell.sheet && r == cell.row && c == cell.column) {
                assert(after.record(s, r, c) == before.record(s, r, c));
            }
        }
        lemma_settled_kept(before, after);
    }

    /// A step of the calculation leaves every formula that does not parse
    /// as it is.
    pub proof fn lemma_stored_unparsed(&self, before: Book, after: Book, cell: CellId)
        requires
            self.stored(before, after, cell),
            forall|s: int, r: int, c: int|
                !(s == cell.sheet && r == cell.row && c == cell.column) ==> #[trigger] after.record(
                    s,
                    r,
                    c,
                ) == before.record(s, r, c),
        ensures
            same_unparsed(before, after),
    {
        assert forall|s: usize, r: usize, c: usize|
            before.record(s as int, r as int, c as int).value is Formula && before.formula_at(
                s,
                r,
                c,
            ) is None implies #[trigger] after.record(s as int, r as int, c as int)
            == before.record(s as int, r as int, c as int) by {
            if !(s == cell.sheet && r == cell.row && c == cell.column) {
                assert(after.record(s as int, r as int, c as int) == before.record(
                    s as int,
                    r as int,
                    c as int,
                ));
            }
        }
    }

    /// What the calculation of a node leaves in its cell: the record as
    /// it was, unless the node is marked and is a single cell with a
    /// formula; then the result of the formula.
    pub open spec fn stored(&self, before: Book, after: Book, cell: CellId) -> bool {
        match before.formula_of(cell) {
            None => after.record(cell.sheet as int, cell.row as int, cell.column as int)
                == before.record(cell.sheet as int, cell.row as int, cell.column as int),
            Some(text) => match parse_text_spec(formula_body(text)) {
                Some(e) => self.eval_spec(Some(before.at_sheet(cell.sheet)), e) matches Ok(v)
                    && after.record(cell.sheet as int, cell.row as int, cell.column as int)
                    == calculated_record(ValueView::Formula(text), v),
                None => false,
            },
        }
    }

    /// For a formula without `OFFSET` the cells that its evaluation reads
    /// are those in the regions of its references.
    pub proof fn lemma_static_avoids(&self, a: Book, e: ExprView, s: int, r: int, c: int)
        requires
            offset_free(e),
        ensures
            self.avoids(a, e, s, r, c) == spares(a, e, s, r, c),
        decreases e, 2int,
    {
        match e {
            ExprView::Prefix(_, inner) => {
                self.lemma_static_avoids(a, *inner, s, r, c);
            },
            ExprView::Infix(_, left, right) => {
                self.lemma_static_avoids(a, *left, s, r, c);
                self.lemma_static_avoids(a, *right, s, r, c);
            },
            ExprView::Func { name, args } => {
                self.lemma_static_avoid_all(a, args, s, r, c);
            },
            ExprView::Array(items) => {
                self.lemma_static_avoid_all(a, items, s, r, c);
            },
            _ => {},
        }
    }

    proof fn lemma_static_avoid_all(&self, a: Book, items: Seq<ExprView>, s: int, r: int, c: int)
        requires
            all_offset_free(items),
        ensures
            self.all_avoid(a, items, s, r, c) == all_spare(a, items, s, r, c),
        decreases items, 1int,
    {
        assert forall|i: int| 0 <= i < items.len() implies self.avoids(
            a,
            #[trigger] items[i],
            s,
            r,
            c,
        ) == spares(a, items[i], s, r, c) by {
            self.lemma_static_avoids(a, items[i], s, r, c);
        }
    }

    /// At its turn in an order of calculation, a formula that evaluates
    /// to a value reads no cell whose formula has to be calculated.
    proof fn lemma_turn_reads(
        &self,
        before: Book,
        order: Seq<CellId>,
        i: int,
        e: ExprView,
        y: (usize, usize, usize),
    )
        requires
            before.dependencies.wf(),
            before.grounded(),
            before.flagged() || before.plain(),
            is_topological(
                order_keys(order),
                before.dependencies.nodes(),
                before.dependencies.edges(),
            ),
            0 <= i < order.len(),
            forall|k: int|
                0 <= k < i ==> !before.dependencies.dirty().contains((#[trigger] order[k]).key()),
            order[i].num_row == 1 && order[i].num_col == 1,
            before.formula_at(order[i].sheet, order[i].row, order[i].column) == Some(e),
            self.eval_spec(Some(before.at_sheet(order[i].sheet)), e) is Ok,
            before.pending(y.0, y.1, y.2),
        ensures
            self.avoids(before.at_sheet(order[i].sheet), e, y.0 as int, y.1 as int, y.2 as int),
    {
        let x = order[i];
        let at = before.at_sheet(x.sheet);
        let text = before.record(x.sheet as int, x.row as int, x.column as int).value->Formula_0;
        lemma_parsed_ranges_wf(formula_body(text));
        assert(before.cell_grounded(x.sheet, x.row, x.column));
        assert(before.cell_grounded(y.0, y.1, y.2));
        let from = cell_key(y.0, y.1, y.2);
        let to = cell_key(x.sheet, x.row, x.column);
        if !spares(at, e, y.0 as int, y.1 as int, y.2 as int) {
            assert((x.sheet, x.row, x.column) != y);
            lemma_named_cell_feeds(at, e, (x.sheet, x.row, x.column), y);
            lemma_feeds_more(
                expression_edges(e, x.sheet, to, before.sheets@),
                before.dependencies.edges(),
                from,
                to,
            );
            let keys = order_keys(order);
            assert(before.dependencies.nodes().contains(from));
            assert(keys.contains(from));
            let j = choose|j: int| 0 <= j < keys.len() && keys[j] == from;
            assert(keys[i] == to);
            lemma_feeds_before(
                keys,
                before.dependencies.nodes(),
                before.dependencies.edges(),
                from,
                to,
                j,
                i,
            );
            assert(order[j].key() == from);
            assert(false);
        }
        assert(at.record(y.0 as int, y.1 as int, y.2 as int) == before.record(
            y.0 as int,
            y.1 as int,
            y.2 as int,
        ));
        if before.record(y.0 as int, y.1 as int, y.2 as int).dirty {
            self.lemma_quiet(at, e, y.0 as int, y.1 as int, y.2 as int);
        } else {
            assert(before.plain());
            assert(before.record(x.sheet as int, x.row as int, x.column as int).value
                matches ValueView::Formula(t) && t == text);
            self.lemma_static_avoids(at, e, y.0 as int, y.1 as int, y.2 as int);
        }
    }

    /// A calculated formula whose record and mark are kept, and whose
    /// evaluation did not read the cell that changed, still shows what it
    /// evaluates to.
    proof fn lemma_cell_kept(
        &self,
        before: Book,
        after: Book,
        x: (usize, usize, usize),
        w: (usize, usize, usize),
    )
        requires
            changed_at(before, after, x),
            after.record(w.0 as int, w.1 as int, w.2 as int) == before.record(
                w.0 as int,
                w.1 as int,
                w.2 as int,
            ),
            !after.marked(w.0, w.1, w.2) ==> !before.marked(w.0, w.1, w.2),
            self.cell_coherent(before, w.0, w.1, w.2),
            before.pending(x.0, x.1, x.2) || after.record(x.0 as int, x.1 as int, x.2 as int)
                == before.record(x.0 as int, x.1 as int, x.2 as int),
            forall|s: usize, r: usize, c: usize|
                #[trigger] after.pending(s, r, c) ==> before.pending(s, r, c),
        ensures
            self.cell_coherent(after, w.0, w.1, w.2),
    {
        match before.formula_at(w.0, w.1, w.2) {
            Some(e) => {
                if !before.record(w.0 as int, w.1 as int, w.2 as int).dirty && !after.marked(
                    w.0,
                    w.1,
                    w.2,
                ) {
                    let text = before.record(
                        w.0 as int,
                        w.1 as int,
                        w.2 as int,
                    ).value->Formula_0;
                    lemma_parsed_ranges_wf(formula_body(text));
                    let a = before.at_sheet(w.0);
                    let b = after.at_sheet(w.0);
                    let xi = (x.0 as int, x.1 as int, x.2 as int);
                    assert(alike(a, b, xi.0, xi.1, xi.2)) by {
                        assert forall|s2: int, r2: int, c2: int|
                            !(s2 == xi.0 && r2 == xi.1 && c2 == xi.2) implies #[trigger] b.record(
                            s2,
                            r2,
                            c2,
                        ) == a.record(s2, r2, c2) by {
                            assert(after.record(s2, r2, c2) == before.record(s2, r2, c2));
                        }
                    }
                    if before.pending(x.0, x.1, x.2) {
                        assert(self.avoids(a, e, xi.0, xi.1, xi.2));
                    }
                    self.lemma_frame(a, b, e, xi, xi);
                    assert forall|s: usize, r: usize, c: usize| after.pending(s, r, c) implies
                        #[trigger] self.avoids(b, e, s as int, r as int, c as int) by {
                        assert(before.pending(s, r, c));
                        assert(self.avoids(a, e, s as int, r as int, c as int));
                        self.lemma_frame(a, b, e, xi, (s as int, r as int, c as int));
                    }
                }
            },
            None => {},
        }
    }

    /// One step of the calculation, the clearing of the mark of its node
    /// included, keeps the graph and the results in accord: the result
    /// that the step stores is what its formula evaluates to in the
    /// workbook after the step, and the earlier results stay what their
    /// formulas evaluate to.
    pub proof fn lemma_step(&self, before: Book, after: Book, order: Seq<CellId>, i: int)
        requires
            before.registered(),
            before.dependencies.wf(),
            self.sound(before),
            is_topological(
                order_keys(order),
                before.dependencies.nodes(),
                before.dependencies.edges(),
            ),
            0 <= i < order.len(),
            forall|k: int|
                0 <= k < i ==> !before.dependencies.dirty().contains((#[trigger] order[k]).key()),
            order[i].dirty == before.dependencies.dirty().contains(order[i].key()),
            changed_at(before, after, (order[i].sheet, order[i].row, order[i].column)),
            after.dependencies.tree == before.dependencies.tree,
            after.dependencies.dirty() == before.dependencies.dirty().remove(order[i].key()),
            self.stored(before, after, order[i]),
        ensures
            self.sound(after),
    {
        self.lemma_step_pending(before, after, order, i);
        self.lemma_step_coherent(before, after, order, i);
        self.lemma_step_grounded(before, after, order, i);
        self.lemma_step_mode(before, after, order, i);
    }

    /// After a step a formula has to be calculated only where it had to
    /// before, and the formula of the step had to.
    proof fn lemma_step_pending(&self, before: Book, after: Book, order: Seq<CellId>, i: int)
        requires
            before.registered(),
            before.dependencies.wf(),
            before.grounded(),
            self.coherent(before),
            before.flagged() || before.plain(),
            is_topological(
                order_keys(order),
                before.dependencies.nodes(),
                before.dependencies.edges(),
            ),
            0 <= i < order.len(),
            forall|k: int|
                0 <= k < i ==> !before.dependencies.dirty().contains((#[trigger] order[k]).key()),
            order[i].dirty == before.dependencies.dirty().contains(order[i].key()),
            changed_at(before, after, (order[i].sheet, order[i].row, order[i].column)),
            after.dependencies.tree == before.dependencies.tree,
            after.dependencies.dirty() == before.dependencies.dirty().remove(order[i].key()),
            self.stored(before, after, order[i]),
        ensures
            forall|s: usize, r: usize, c: usize|
                #[trigger] after.pending(s, r, c) ==> before.pending(s, r, c),
            before.formula_of(order[i]) is Some ==> before.pending(
                order[i].sheet,
                order[i].row,
                order[i].column,
            ) && !after.marked(order[i].sheet, order[i].row, order[i].column),
    {
        let x = order[i];
        let xp = (x.sheet, x.row, x.column);
        if before.formula_of(x) is Some {
            assert(x.key() == cell_key(x.sheet, x.row, x.column));
        }
        assert forall|s: usize, r: usize, c: usize| #[trigger] after.pending(s, r, c) implies
            before.pending(s, r, c) by {
            if (s, r, c) != xp {
                assert(after.record(s as int, r as int, c as int) == before.record(
                    s as int,
                    r as int,
                    c as int,
                ));
            }
        }
    }

    proof fn lemma_step_coherent(&self, before: Book, after: Book, order: Seq<CellId>, i: int)
        requires
            before.registered(),
            before.dependencies.wf(),
            before.grounded(),
            self.coherent(before),
            before.flagged() || before.plain(),
            is_topological(
                order_keys(order),
                before.dependencies.nodes(),
                before.dependencies.edges(),
            ),
            0 <= i < order.len(),
            forall|k: int|
                0 <= k < i ==> !before.dependencies.dirty().contains((#[trigger] order[k]).key()),
            order[i].dirty == before.dependencies.dirty().contains(order[i].key()),
            changed_at(before, after, (order[i].sheet, order[i].row, order[i].column)),
            after.dependencies.tree == before.dependencies.tree,
            after.dependencies.dirty() == before.dependencies.dirty().remove(order[i].key()),
            self.stored(before, after, order[i]),
            forall|s: usize, r: usize, c: usize|
                #[trigger] after.pending(s, r, c) ==> before.pending(s, r, c),
            before.formula_of(order[i]) is Some ==> before.pending(
                order[i].sheet,
                order[i].row,
                order[i].column,
            ),
        ensures
            self.coherent(after),
    {
        let x = order[i];
        let xp = (x.sheet, x.row, x.column);
        let fresh = before.formula_of(x) is Some;
        assert forall|s: usize, r: usize, c: usize| #[trigger]
            self.cell_coherent(after, s, r, c) by {
            if fresh && (s, r, c) == xp {
                self.lemma_step_result(before, after, order, i);
            } else {
                assert(self.cell_coherent(before, s, r, c));
                if (s, r, c) != xp {
                    assert(after.record(s as int, r as int, c as int) == before.record(
                        s as int,
                        r as int,
                        c as int,
                    ));
                    assert(cell_key(s, r, c) != x.key());
                }
                if after.formula_at(s, r, c) is Some {
                    self.lemma_cell_kept(before, after, xp, (s, r, c));
                }
            }
        }
    }

    proof fn lemma_step_grounded(&self, before: Book, after: Book, order: Seq<CellId>, i: int)
        requires
            before.registered(),
            before.dependencies.wf(),
            before.grounded(),
            self.coherent(before),
            before.flagged() || before.plain(),
            is_topological(
                order_keys(order),
                before.dependencies.nodes(),
                before.dependencies.edges(),
            ),
            0 <= i < order.len(),
            forall|k: int|
                0 <= k < i ==> !before.dependencies.dirty().contains((#[trigger] order[k]).key()),
            order[i].dirty == before.dependencies.dirty().contains(order[i].key()),
            changed_at(before, after, (order[i].sheet, order[i].row, order[i].column)),
            after.dependencies.tree == before.dependencies.tree,
            after.dependencies.dirty() == before.dependencies.dirty().remove(order[i].key()),
            self.stored(before, after, order[i]),
        ensures
            after.grounded(),
    {
        let x = order[i];
        let xp = (x.sheet, x.row, x.column);
        assert forall|s: usize, r: usize, c: usize| #[trigger] after.cell_grounded(s, r, c) by {
            assert(before.cell_grounded(s, r, c));
            if (s, r, c) != xp {
                assert(after.record(s as int, r as int, c as int) == before.record(
                    s as int,
                    r as int,
                    c as int,
                ));
            }
            match after.formula_at(s, r, c) {
                Some(e) => {
                    lemma_edges_alike(e, s, cell_key(s, r, c), before.sheets@, after.sheets@);
                    lemma_spares_alike(
                        before.at_sheet(s),
                        after.at_sheet(s),
                        e,
                        s as int,
                        r as int,
                        c as int,
                    );
                },
                None => {},
            }
        }
    }

    proof fn lemma_step_mode(&self, before: Book, after: Book, order: Seq<CellId>, i: int)
        requires
            before.registered(),
            before.dependencies.wf(),
            before.grounded(),
            self.coherent(before),
            before.flagged() || before.plain(),
            is_topological(
                order_keys(order),
                before.dependencies.nodes(),
                before.dependencies.edges(),
            ),
            0 <= i < order.len(),
            forall|k: int|
                0 <= k < i ==> !before.dependencies.dirty().contains((#[trigger] order[k]).key()),
            order[i].dirty == before.dependencies.dirty().contains(order[i].key()),
            changed_at(before, after, (order[i].sheet, order[i].row, order[i].column)),
            after.dependencies.tree == before.dependencies.tree,
            after.dependencies.dirty() == before.dependencies.dirty().remove(order[i].key()),
            self.stored(before, after, order[i]),
            forall|s: usize, r: usize, c: usize|
                #[trigger] after.pending(s, r, c) ==> before.pending(s, r, c),
            before.formula_of(order[i]) is Some ==> !after.marked(
                order[i].sheet,
                order[i].row,
                order[i].column,
            ),
        ensures
            after.flagged() || after.plain(),
    {
        let x = order[i];
        let xp = (x.sheet, x.row, x.column);
        if before.flagged() {
            assert forall|s: usize, r: usize, c: usize| #[trigger] after.pending(s, r, c) implies
                after.record(s as int, r as int, c as int).dirty by {
                assert(before.pending(s, r, c));
                if (s, r, c) != xp {
                    assert(after.record(s as int, r as int, c as int) == before.record(
                        s as int,
                        r as int,
                        c as int,
                    ));
                }
            }
        } else {
            self.lemma_stored_entries(before, after, x);
            lemma_plain_kept(before, after);
        }
    }

    /// The result that a step stores is what its formula evaluates to in
    /// the workbook after the step.
    proof fn lemma_step_result(&self, before: Book, after: Book, order: Seq<CellId>, i: int)
        requires
            before.dependencies.wf(),
            before.grounded(),
            before.flagged() || before.plain(),
            is_topological(
                order_keys(order),
                before.dependencies.nodes(),
                before.dependencies.edges(),
            ),
            0 <= i < order.len(),
            forall|k: int|
                0 <= k < i ==> !before.dependencies.dirty().contains((#[trigger] order[k]).key()),
            changed_at(before, after, (order[i].sheet, order[i].row, order[i].column)),
            self.stored(before, after, order[i]),
            before.formula_of(order[i]) is Some,
            before.pending(order[i].sheet, order[i].row, order[i].column),
            forall|s: usize, r: usize, c: usize|
                #[trigger] after.pending(s, r, c) ==> before.pending(s, r, c),
        ensures
            self.cell_coherent(after, order[i].sheet, order[i].row, order[i].column),
    {
        let x = order[i];
        let xi = (x.sheet as int, x.row as int, x.column as int);
        let text = before.formula_of(x)->Some_0;
        let e = parse_text_spec(formula_body(text))->Some_0;
        lemma_parsed_ranges_wf(formula_body(text));
        let a = before.at_sheet(x.sheet);
        let b = after.at_sheet(x.sheet);
        assert(alike(a, b, xi.0, xi.1, xi.2)) by {
            assert forall|s2: int, r2: int, c2: int|
                !(s2 == xi.0 && r2 == xi.1 && c2 == xi.2) implies #[trigger] b.record(s2, r2, c2)
                == a.record(s2, r2, c2) by {
                assert(after.record(s2, r2, c2) == before.record(s2, r2, c2));
            }
        }
        self.lemma_turn_reads(before, order, i, e, (x.sheet, x.row, x.column));
        self.lemma_frame(a, b, e, xi, xi);
        assert forall|s: usize, r: usize, c: usize| after.pending(s, r, c) implies #[trigger]
            self.avoids(b, e, s as int, r as int, c as int) by {
            assert(before.pending(s, r, c));
            self.lemma_turn_reads(before, order, i, e, (s, r, c));
            self.lemma_frame(a, b, e, xi, (s as int, r as int, c as int));
        }
    }

    /// New edges in the graph leave the graph and the results in accord,
    /// as long as every cell holds what it held.
    pub proof fn lemma_regraph(
        &self,
        before: Book,
        after: Book,
        added: Set<(NodeKey, NodeKey)>,
    )
        requires
            self.sound(before),
            same_cells(before, after),
            grown(
                after.dependencies,
                before.dependencies.nodes(),
                before.dependencies.edges(),
                before.dependencies.dirty(),
                added,
            ),
        ensures
            self.sound(after),
    {
        assert(changed_at(before, after, (0, 0, 0)));
        assert forall|s: usize, r: usize, c: usize| #[trigger] after.pending(s, r, c) implies
            before.pending(s, r, c) by {
            assert(before.cell_grounded(s, r, c));
            assert(after.record(s as int, r as int, c as int) == before.record(
                s as int,
                r as int,
                c as int,
            ));
        }
        assert forall|s: usize, r: usize, c: usize| #[trigger]
            self.cell_coherent(after, s, r, c) by {
            assert(self.cell_coherent(before, s, r, c));
            self.lemma_cell_kept(before, after, (0, 0, 0), (s, r, c));
        }
        assert forall|s: usize, r: usize, c: usize| #[trigger] after.cell_grounded(s, r, c) by {
            assert(before.cell_grounded(s, r, c));
            match after.formula_at(s, r, c) {
                Some(e) => {
                    lemma_edges_alike(e, s, cell_key(s, r, c), before.sheets@, after.sheets@);
                    lemma_spares_alike(
                        before.at_sheet(s),
                        after.at_sheet(s),
                        e,
                        s as int,
                        r as int,
                        c as int,
                    );
                },
                None => {},
            }
        }
        if before.flagged() {
            assert forall|s: usize, r: usize, c: usize| #[trigger] after.pending(s, r, c) implies
                after.record(s as int, r as int, c as int).dirty by {
                assert(before.pending(s, r, c));
                assert(after.record(s as int, r as int, c as int) == before.record(
                    s as int,
                    r as int,
                    c as int,
                ));
            }
        } else {
            assert(same_entries(before, after)) by {
                assert forall|s: int, r: int, c: int| (#[trigger] after.record(s, r, c)).value
                    == before.record(s, r, c).value by {
                    assert(after.record(s, r, c) == before.record(s, r, c));
                }
            }
            lemma_plain_kept(before, after);
        }
    }

    /// A workbook with the graph and the cells of one in which the graph
    /// and the results are in accord is such a workbook.
    pub proof fn lemma_same_cells_sound(&self, before: Book, after: Book)
        requires
            self.sound(before),
            same_cells(before, after),
            before.dependencies.wf(),
            after.dependencies == before.dependencies,
        ensures
            self.sound(after),
    {
        crate::dependency::lemma_grown_by_nothing(after.dependencies);
        self.lemma_regraph(before, after, Set::empty());
    }

    /// A cell with a formula that does not wait and whose node is not
    /// marked shows the single value that stands for what the formula
    /// evaluates to in the workbook as it is.
    pub proof fn lemma_calculated_values(&self, book: Book, s: usize, r: usize, c: usize)
        requires
            self.coherent(book),
            !book.waiting(s, r, c),
            !book.marked(s, r, c),
            book.formula_at(s, r, c) is Some,
        ensures
            !book.record(s as int, r as int, c as int).dirty,
            self.eval_spec(Some(book.at_sheet(s)), book.formula_at(s, r, c).unwrap())
                matches Ok(v) && book.record(s as int, r as int, c as int).calculated
                == single_of(unwrap_range(v)),
    {
        assert(self.cell_coherent(book, s, r, c));
    }

    /// A workbook in which every formula waits to be calculated has no
    /// result that could differ from what its formula evaluates to.
    pub proof fn lemma_nothing_calculated(&self, book: Book)
        requires
            forall|s: usize, r: usize, c: usize|
                book.record(s as int, r as int, c as int).value is Formula ==> #[trigger] book.waiting(
                    s,
                    r,
                    c,
                ),
        ensures
            self.coherent(book),
    {
        assert forall|s: usize, r: usize, c: usize| #[trigger]
            self.cell_coherent(book, s, r, c) by {
            if book.record(s as int, r as int, c as int).value is Formula {
                assert(book.waiting(s, r, c));
            }
        }
    }

    /// Every cell with a formula is calculated and shows the single value
    /// that stands for what the formula evaluates to in the workbook as
    /// it is.
    pub open spec fn shows_results(&self, book: Book) -> bool {
        forall|s: usize, r: usize, c: usize|
            (#[trigger] book.formula_at(s, r, c)) matches Some(e) ==> {
                &&& !book.record(s as int, r as int, c as int).dirty
                &&& self.eval_spec(Some(book.at_sheet(s)), e) matches Ok(v) && book.record(
                    s as int,
                    r as int,
                    c as int,
                ).calculated == single_of(unwrap_range(v))
            }
    }

    /// Where no formula waits, no node is marked, and the graph and the
    /// results are in accord, every formula shows what it evaluates to.
    pub proof fn lemma_shows_results(&self, book: Book)
        requires
            self.sound(book),
            book.all_calculated(),
            book.settled(),
        ensures
            self.shows_results(book),
    {
        assert forall|s: usize, r: usize, c: usize|
            (#[trigger] book.formula_at(s, r, c)) is Some implies {
            &&& !book.record(s as int, r as int, c as int).dirty
            &&& self.eval_spec(Some(book.at_sheet(s)), book.formula_at(s, r, c).unwrap())
                matches Ok(v) && book.record(s as int, r as int, c as int).calculated
                == single_of(unwrap_range(v))
        } by {
            assert(book.cell_grounded(s, r, c));
            assert(!book.waiting(s, r, c));
            self.lemma_calculated_values(book, s, r, c);
        }
    }
}

/// A walk that is taken one edge further is a walk.
proof fn lemma_walk_on(edges: Set<(NodeKey, NodeKey)>, from: NodeKey, at: NodeKey, next: NodeKey)
    requires
        reachable(edges, from, at),
        edges.contains((at, next)),
    ensures
        reachable(edges, from, next),
{
    let path = choose|path: Seq<NodeKey>| #[trigger]
        is_path(edges, path) && path[0] == from && path.last() == at;
    let longer = path.push(next);
    assert forall|i: int| 0 <= i < longer.len() - 1 implies edges.contains(
        (#[trigger] longer[i], longer[i + 1]),
    ) by {
        if i < path.len() - 1 {
            assert(edges.contains((path[i], path[i + 1])));
        }
    }
    assert(is_path(edges, longer) && longer[0] == from && longer.last() == next);
}

/// What is reached reaches what it feeds.
pub proof fn lemma_reach_on(
    edges: Set<(NodeKey, NodeKey)>,
    from: NodeKey,
    at: NodeKey,
    to: NodeKey,
)
    requires
        reachable(edges, from, at),
        feeds(edges, at, to),
    ensures
        reachable(edges, from, to),
{
    if edges.contains((at, to)) {
        lemma_walk_on(edges, from, at, to);
    } else {
        let via = choose|via: NodeKey|
            edges.contains((at, via)) && #[trigger] edges.contains((via, to));
        lemma_walk_on(edges, from, at, via);
        lemma_walk_on(edges, from, via, to);
    }
}

/// A node reaches itself.
pub proof fn lemma_reach_self(edges: Set<(NodeKey, NodeKey)>, n: NodeKey)
    ensures
        reachable(edges, n, n),
{
    let path = seq![n];
    assert(is_path(edges, path) && path[0] == n && path.last() == n);
}

/// Whether `value`, entered in the cell at `row` and `column` of sheet
/// `sheet`, is no formula, or a formula that parses, is written without
/// `OFFSET`, and has no reference with the cell itself in its region.
pub open spec fn entry_plain(
    book: Book,
    sheet: usize,
    row: usize,
    column: usize,
    value: ValueView,
) -> bool {
    match value {
        ValueView::Formula(text) => parse_text_spec(formula_body(text)) matches Some(e)
            && offset_free(e) && spares(
            book.at_sheet(sheet),
            e,
            sheet as int,
            row as int,
            column as int,
        ),
        _ => true,
    }
}

/// A reference that a formula has come to point to stands for the same
/// edge in workbooks with the same sheets by name and size.
pub proof fn lemma_signal_edge_alike(a: Book, b: Book, cell: CellId, e: ExprView)
    requires
        a.same_frame(&b),
    ensures
        b.signal_edge(cell, e) == a.signal_edge(cell, e),
{
    match e {
        ExprView::Reference { sheet, range } => {
            match sheet {
                Some(name) => {
                    lemma_same_named(a.sheets@, b.sheets@, name, 0);
                    lemma_named_is_sheet(a.sheets@, name, 0);
                },
                None => {},
            }
        },
        _ => {},
    }
}

/// A workbook with the entries of one whose formulas parse and are written
/// without `OFFSET` is such a workbook.
pub proof fn lemma_plain_kept(before: Book, after: Book)
    requires
        before.plain(),
        same_entries(before, after),
    ensures
        after.plain(),
{
    assert forall|s: usize, r: usize, c: usize|
        (#[trigger] after.record(s as int, r as int, c as int)).value is Formula implies (
        parse_text_spec(
            formula_body(after.record(s as int, r as int, c as int).value->Formula_0),
        ) matches Some(e) && offset_free(e)) by {
        assert(after.record(s as int, r as int, c as int).value == before.record(
            s as int,
            r as int,
            c as int,
        ).value);
    }
}

/// Whether every reference written in `e`, the formula of the cell in
/// row `r` and column `c` of sheet `s`, points to a sheet that there is,
/// is no whole row or column, and leaves out the cell itself.
pub open spec fn tame(book: Book, e: ExprView, s: int, r: int, c: int) -> bool
    decreases e, 1int,
{
    match e {
        ExprView::Reference { sheet, range } => {
            &&& book.target_of(sheet) is Some
            &&& !range.start_cell.spec_is_vrange()
            &&& !range.start_cell.spec_is_hrange()
            &&& !covers(book, sheet, range, s, r, c)
        },
        ExprView::Prefix(_, a) => tame(book, *a, s, r, c),
        ExprView::Infix(_, a, b) => tame(book, *a, s, r, c) && tame(book, *b, s, r, c),
        ExprView::Func { name, args } => all_tame(book, args, s, r, c),
        ExprView::Array(items) => all_tame(book, items, s, r, c),
        _ => true,
    }
}

/// Whether every reference written in any of `items` is tame.
pub open spec fn all_tame(book: Book, items: Seq<ExprView>, s: int, r: int, c: int) -> bool
    decreases items, 0int,
{
    forall|i: int| 0 <= i < items.len() ==> tame(book, #[trigger] items[i], s, r, c)
}

/// The sheets of `a` are the first sheets of `b`, by name.
pub open spec fn extends(a: Seq<Sheet>, b: Seq<Sheet>) -> bool {
    &&& a.len() <= b.len()
    &&& forall|i: int| 0 <= i < a.len() ==> (#[trigger] a[i]).name == b[i].name
}

/// A name that is found among the first sheets is found there among all.
proof fn lemma_named_extends(a: Seq<Sheet>, b: Seq<Sheet>, name: Seq<u8>, from: int)
    requires
        extends(a, b),
        0 <= from,
        first_named(a, name, from) is Some,
    ensures
        first_named(b, name, from) == first_named(a, name, from),
    decreases a.len() - from,
{
    if from < a.len() {
        assert(a[from].name == b[from].name);
        if a[from].name@ != name {
            lemma_named_extends(a, b, name, from + 1);
        }
    }
}

/// Tame references are tame, and stand for the same edges, whatever the
/// sizes of the sheets and whatever sheets come behind them.
proof fn lemma_tame_extends(a: Book, b: Book, e: ExprView, cell: (usize, usize, usize))
    requires
        extends(a.sheets@, b.sheets@),
        a.current_sheet == b.current_sheet,
        tame(a, e, cell.0 as int, cell.1 as int, cell.2 as int),
    ensures
        tame(b, e, cell.0 as int, cell.1 as int, cell.2 as int),
        expression_edges(e, b.current_sheet, cell_key(cell.0, cell.1, cell.2), b.sheets@)
            == expression_edges(e, a.current_sheet, cell_key(cell.0, cell.1, cell.2), a.sheets@),
    decreases e, 1int,
{
    match e {
        ExprView::Reference { sheet, range } => {
            match sheet {
                Some(name) => {
                    lemma_named_extends(a.sheets@, b.sheets@, name, 0);
                },
                None => {},
            }
            lemma_target_is_sheet(a, sheet);
        },
        ExprView::Prefix(_, inner) => {
            lemma_tame_extends(a, b, *inner, cell);
        },
        ExprView::Infix(_, left, right) => {
            lemma_tame_extends(a, b, *left, cell);
            lemma_tame_extends(a, b, *right, cell);
        },
        ExprView::Func { name, args } => {
            lemma_all_tame_extend(a, b, args, cell);
        },
        ExprView::Array(items) => {
            lemma_all_tame_extend(a, b, items, cell);
        },
        _ => {},
    }
}

proof fn lemma_all_tame_extend(a: Book, b: Book, items: Seq<ExprView>, cell: (usize, usize, usize))
    requires
        extends(a.sheets@, b.sheets@),
        a.current_sheet == b.current_sheet,
        all_tame(a, items, cell.0 as int, cell.1 as int, cell.2 as int),
    ensures
        all_tame(b, items, cell.0 as int, cell.1 as int, cell.2 as int),
        items_edges(items, b.current_sheet, cell_key(cell.0, cell.1, cell.2), b.sheets@)
            == items_edges(items, a.current_sheet, cell_key(cell.0, cell.1, cell.2), a.sheets@),
    decreases items, 0int,
{
    assert forall|i: int| 0 <= i < items.len() implies tame(
        b,
        #[trigger] items[i],
        cell.0 as int,
        cell.1 as int,
        cell.2 as int,
    ) by {
        lemma_tame_extends(a, b, items[i], cell);
    }
    if items.len() > 0 {
        let front = items.drop_last();
        assert forall|i: int| 0 <= i < front.len() implies tame(
            a,
            #[trigger] front[i],
            cell.0 as int,
            cell.1 as int,
            cell.2 as int,
        ) by {
            assert(front[i] == items[i]);
        }
        lemma_all_tame_extend(a, b, front, cell);
        lemma_tame_extends(a, b, items.last(), cell);
    }
}

/// No tame reference has the cell of its formula in its region.
proof fn lemma_tame_spares(book: Book, e: ExprView, s: int, r: int, c: int)
    requires
        tame(book, e, s, r, c),
    ensures
        spares(book, e, s, r, c),
    decreases e, 1int,
{
    match e {
        ExprView::Prefix(_, inner) => {
            lemma_tame_spares(book, *inner, s, r, c);
        },
        ExprView::Infix(_, left, right) => {
            lemma_tame_spares(book, *left, s, r, c);
            lemma_tame_spares(book, *right, s, r, c);
        },
        ExprView::Func { name, args } => {
            assert(all_tame(book, args, s, r, c));
            assert forall|i: int| 0 <= i < args.len() implies spares(
                book,
                #[trigger] args[i],
                s,
                r,
                c,
            ) by {
                lemma_tame_spares(book, args[i], s, r, c);
            }
            assert(all_spare(book, args, s, r, c));
        },
        ExprView::Array(items) => {
            assert(all_tame(book, items, s, r, c));
            assert forall|i: int| 0 <= i < items.len() implies spares(
                book,
                #[trigger] items[i],
                s,
                r,
                c,
            ) by {
                lemma_tame_spares(book, items[i], s, r, c);
            }
            assert(all_spare(book, items, s, r, c));
        },
        _ => {},
    }
}

/// Whether `value`, to be entered in the cell in row `row` and column
/// `column` of sheet `sheet`, is no formula, or a formula whose
/// references are tame there. A formula that does not parse counts.
pub open spec fn entry_tame(
    book: Book,
    sheet: usize,
    row: usize,
    column: usize,
    value: ValueView,
) -> bool {
    match value {
        ValueView::Formula(text) => match parse_text_spec(formula_body(text)) {
            Some(e) => tame(book.at_sheet(sheet), e, sheet as int, row as int, column as int),
            None => true,
        },
        _ => true,
    }
}

impl Book {
    /// A cell that holds a formula waits to be calculated and is a node;
    /// if the formula parses, its references are tame and the edges that
    /// they stand for are in the graph.
    pub open spec fn cell_fresh(&self, s: usize, r: usize, c: usize) -> bool {
        self.record(s as int, r as int, c as int).value is Formula ==> {
            &&& self.record(s as int, r as int, c as int).dirty
            &&& self.dependencies.nodes().contains(cell_key(s, r, c))
            &&& match self.formula_at(s, r, c) {
                Some(e) => expression_edges(e, s, cell_key(s, r, c), self.sheets@).subset_of(
                    self.dependencies.edges(),
                ) && tame(self.at_sheet(s), e, s as int, r as int, c as int),
                None => true,
            }
        }
    }

    /// Nothing is calculated yet, and the graph knows every formula: each
    /// cell that holds a formula waits to be calculated and is a node of
    /// the graph, with the edges that its references stand for; and every
    /// reference points to cells of a sheet that there is, the cell of
    /// its formula not among them.
    pub closed spec fn fresh(&self) -> bool {
        forall|s: usize, r: usize, c: usize| #[trigger] self.cell_fresh(s, r, c)
    }

    /// What it is for a workbook to be fresh.
    pub proof fn lemma_fresh(&self)
        ensures
            self.fresh() == (forall|s: usize, r: usize, c: usize| #[trigger]
                self.cell_fresh(s, r, c)),
    {
    }

    /// A workbook without a formula is fresh.
    pub proof fn lemma_fresh_without_formulas(&self)
        requires
            forall|s: int, r: int, c: int| !(#[trigger] self.record(s, r, c).value is Formula),
        ensures
            self.fresh(),
    {
        assert forall|s: usize, r: usize, c: usize| #[trigger] self.cell_fresh(s, r, c) by {
            assert(!(self.record(s as int, r as int, c as int).value is Formula));
        }
    }

    /// A fresh workbook stays fresh where sheets come behind its sheets,
    /// sheets change their size, and the graph grows, as long as every
    /// cell with a formula holds what it held and no other cell holds a
    /// formula.
    pub proof fn lemma_fresh_kept(before: Book, after: Book)
        requires
            before.fresh(),
            extends(before.sheets@, after.sheets@),
            before.dependencies.nodes().subset_of(after.dependencies.nodes()),
            before.dependencies.edges().subset_of(after.dependencies.edges()),
            forall|s: usize, r: usize, c: usize|
                (#[trigger] after.record(s as int, r as int, c as int)).value is Formula
                    ==> after.record(s as int, r as int, c as int) == before.record(
                    s as int,
                    r as int,
                    c as int,
                ),
        ensures
            after.fresh(),
    {
        assert forall|s: usize, r: usize, c: usize| #[trigger] after.cell_fresh(s, r, c) by {
            if after.record(s as int, r as int, c as int).value is Formula {
                assert(before.cell_fresh(s, r, c));
                match after.formula_at(s, r, c) {
                    Some(e) => {
                        lemma_tame_extends(before.at_sheet(s), after.at_sheet(s), e, (s, r, c));
                    },
                    None => {},
                }
            }
        }
    }

    /// A fresh workbook in which a value is entered in one cell is fresh,
    /// if it is no formula, or a formula that is registered in the graph
    /// and whose references are tame.
    pub proof fn lemma_fresh_entered(
        before: Book,
        after: Book,
        cell: (usize, usize, usize),
        value: ValueView,
    )
        requires
            before.fresh(),
            entry_tame(before, cell.0, cell.1, cell.2, value),
            extends(before.sheets@, after.sheets@),
            before.dependencies.nodes().subset_of(after.dependencies.nodes()),
            before.dependencies.edges().subset_of(after.dependencies.edges()),
            forall|s: int, r: int, c: int|
                !(s == cell.0 && r == cell.1 && c == cell.2) ==> #[trigger] after.record(s, r, c)
                    == before.record(s, r, c),
            after.record(cell.0 as int, cell.1 as int, cell.2 as int) == crate::sheet::entered(
                value,
            ),
            value is Formula ==> after.dependencies.nodes().contains(
                cell_key(cell.0, cell.1, cell.2),
            ),
            after.formula_at(cell.0, cell.1, cell.2) matches Some(e) ==> expression_edges(
                e,
                cell.0,
                cell_key(cell.0, cell.1, cell.2),
                after.sheets@,
            ).subset_of(after.dependencies.edges()),
        ensures
            after.fresh(),
    {
        assert forall|s: usize, r: usize, c: usize| #[trigger] after.cell_fresh(s, r, c) by {
            if after.record(s as int, r as int, c as int).value is Formula {
                if (s, r, c) != cell {
                    assert(after.record(s as int, r as int, c as int) == before.record(
                        s as int,
                        r as int,
                        c as int,
                    ));
                    assert(before.cell_fresh(s, r, c));
                }
                match after.formula_at(s, r, c) {
                    Some(e) => {
                        lemma_tame_extends(before.at_sheet(s), after.at_sheet(s), e, (s, r, c));
                    },
                    None => {},
                }
            }
        }
    }
}

impl<FN, FA, FT, FL> Kernel<FN, FA, FT, FL> where
    FN: Fn(&Number) -> Option<Double>,
    FA: Fn(Infix, Double, Double) -> Double,
    FT: Fn(Double) -> i64,
    FL: Fn(&Vec<u8>, Vec<Value>) -> Option<Value>,
 {
    /// In a fresh workbook the graph and the results are in accord.
    pub proof fn lemma_fresh_sound(&self, book: Book)
        requires
            book.registered(),
            book.fresh(),
        ensures
            self.sound(book),
    {
        assert forall|s: usize, r: usize, c: usize| #[trigger] book.cell_grounded(s, r, c) by {
            assert(book.cell_fresh(s, r, c));
            match book.formula_at(s, r, c) {
                Some(e) => {
                    if book.record(s as int, r as int, c as int).value is Formula {
                        lemma_tame_spares(book.at_sheet(s), e, s as int, r as int, c as int);
                    }
                },
                None => {},
            }
        }
        assert forall|s: usize, r: usize, c: usize|
            book.record(s as int, r as int, c as int).value is Formula implies #[trigger] book.waiting(
            s,
            r,
            c,
        ) by {
            assert(book.cell_fresh(s, r, c));
        }
        assert forall|s: usize, r: usize, c: usize| #[trigger] book.pending(s, r, c) implies book.record(
            s as int,
            r as int,
            c as int,
        ).dirty by {
            assert(book.cell_fresh(s, r, c));
        }
        self.lemma_nothing_calculated(book);
    }
}

impl<FN, FA, FT, FL> Kernel<FN, FA, FT, FL> where
    FN: Fn(&Number) -> Option<Double>,
    FA: Fn(Infix, Double, Double) -> Double,
    FT: Fn(Double) -> i64,
    FL: Fn(&Vec<u8>, Vec<Value>) -> Option<Value>,
 {
    /// A cell in the region of a reference of a formula reaches, along
    /// the edges of the graph, whatever the cell of the formula is
    /// reached from.
    proof fn lemma_read_is_reached(
        &self,
        before: Book,
        edges: Set<(NodeKey, NodeKey)>,
        from: NodeKey,
        y: (usize, usize, usize),
        w: (usize, usize, usize),
    )
        requires
            before.cell_grounded(w.0, w.1, w.2),
            before.formula_at(w.0, w.1, w.2) is Some,
            before.dependencies.edges().subset_of(edges),
            reachable(edges, from, cell_key(y.0, y.1, y.2)),
            y != w,
            !spares(
                before.at_sheet(w.0),
                before.formula_at(w.0, w.1, w.2).unwrap(),
                y.0 as int,
                y.1 as int,
                y.2 as int,
            ),
        ensures
            reachable(edges, from, cell_key(w.0, w.1, w.2)),
    {
        let e = before.formula_at(w.0, w.1, w.2).unwrap();
        let text = before.record(w.0 as int, w.1 as int, w.2 as int).value->Formula_0;
        lemma_parsed_ranges_wf(formula_body(text));
        lemma_named_cell_feeds(before.at_sheet(w.0), e, w, y);
        lemma_feeds_more(
            expression_edges(e, w.0, cell_key(w.0, w.1, w.2), before.sheets@),
            edges,
            cell_key(y.0, y.1, y.2),
            cell_key(w.0, w.1, w.2),
        );
        lemma_reach_on(edges, from, cell_key(y.0, y.1, y.2), cell_key(w.0, w.1, w.2));
    }

    /// After a value was entered in a cell within the grid, a calculated
    /// formula whose node is not marked still shows what it evaluates to.
    proof fn lemma_entered_cell(
        &self,
        before: Book,
        after: Book,
        x: (usize, usize, usize),
        value: ValueView,
        w: (usize, usize, usize),
    )
        requires
            before.grounded(),
            self.coherent(before),
            before.plain(),
            changed_at(before, after, x),
            entry_effect(before, after, x.0, x.1, x.2, value, Ok::<bool, Error>(true)),
            after.formula_at(w.0, w.1, w.2) is Some,
            !after.record(w.0 as int, w.1 as int, w.2 as int).dirty,
            !after.marked(w.0, w.1, w.2),
        ensures
            self.cell_coherent(after, w.0, w.1, w.2),
    {
        let xk = cell_key(x.0, x.1, x.2);
        let xi = (x.0 as int, x.1 as int, x.2 as int);
        let edges = after.dependencies.edges();
        assert(w != x);
        assert(after.record(w.0 as int, w.1 as int, w.2 as int) == before.record(
            w.0 as int,
            w.1 as int,
            w.2 as int,
        ));
        let e = before.formula_at(w.0, w.1, w.2).unwrap();
        let text = before.record(w.0 as int, w.1 as int, w.2 as int).value->Formula_0;
        lemma_parsed_ranges_wf(formula_body(text));
        assert(offset_free(e));
        assert(before.cell_grounded(w.0, w.1, w.2));
        assert(self.cell_coherent(before, w.0, w.1, w.2));
        assert(!before.marked(w.0, w.1, w.2));
        let a = before.at_sheet(w.0);
        let b = after.at_sheet(w.0);
        lemma_reach_self(edges, xk);
        if !spares(a, e, xi.0, xi.1, xi.2) {
            self.lemma_read_is_reached(before, edges, xk, x, w);
            assert(false);
        }
        self.lemma_static_avoids(a, e, xi.0, xi.1, xi.2);
        assert(alike(a, b, xi.0, xi.1, xi.2)) by {
            assert forall|s2: int, r2: int, c2: int|
                !(s2 == xi.0 && r2 == xi.1 && c2 == xi.2) implies #[trigger] b.record(s2, r2, c2)
                == a.record(s2, r2, c2) by {
                assert(after.record(s2, r2, c2) == before.record(s2, r2, c2));
            }
        }
        self.lemma_frame(a, b, e, xi, xi);
        assert forall|s: usize, r: usize, c: usize| after.pending(s, r, c) implies #[trigger]
            self.avoids(b, e, s as int, r as int, c as int) by {
            let y = (s, r, c);
            let yk = cell_key(s, r, c);
            if y != x && !spares(a, e, s as int, r as int, c as int) {
                assert(after.record(s as int, r as int, c as int) == before.record(
                    s as int,
                    r as int,
                    c as int,
                ));
                assert(before.cell_grounded(s, r, c));
                if before.marked(s, r, c) {
                    assert(before.pending(s, r, c));
                    assert(self.avoids(a, e, s as int, r as int, c as int));
                    self.lemma_static_avoids(a, e, s as int, r as int, c as int);
                } else {
                    assert(after.dependencies.dirty().contains(yk));
                    assert(reachable(edges, xk, yk));
                    self.lemma_read_is_reached(before, edges, xk, y, w);
                }
                assert(false);
            }
            self.lemma_static_avoids(a, e, s as int, r as int, c as int);
            self.lemma_frame(a, b, e, xi, (s as int, r as int, c as int));
        }
    }

    /// Entering a value in a cell within the grid keeps the graph and the
    /// results in accord, in a workbook whose formulas are written
    /// without `OFFSET`: the formulas that the value reaches are marked,
    /// and every other result is still what its formula evaluates to.
    pub proof fn lemma_entered_sound(
        &self,
        before: Book,
        after: Book,
        cell: (usize, usize, usize),
        value: ValueView,
    )
        requires
            self.sound(before),
            before.plain(),
            entry_effect(before, after, cell.0, cell.1, cell.2, value, Ok::<bool, Error>(true)),
            cell.1 <= before.sheets@[cell.0 as int].max_rows,
            cell.2 <= before.sheets@[cell.0 as int].max_columns,
            entry_plain(after, cell.0, cell.1, cell.2, value),
        ensures
            self.sound(after),
            after.plain(),
    {
        assert(changed_at(before, after, cell)) by {
            assert forall|i: int| 0 <= i < before.sheets@.len() implies (
            #[trigger] before.sheets@[i]).name == after.sheets@[i].name
                && before.sheets@[i].max_rows == after.sheets@[i].max_rows
                && before.sheets@[i].max_columns == after.sheets@[i].max_columns by {
                if i != cell.0 {
                    assert(after.sheets@[i] == before.sheets@[i]);
                }
            }
            assert forall|i: int| 0 <= i < after.sheets@.len() implies (
            #[trigger] after.sheets@[i]).name == before.sheets@[i].name
                && after.sheets@[i].max_rows == before.sheets@[i].max_rows
                && after.sheets@[i].max_columns == before.sheets@[i].max_columns by {
                if i != cell.0 {
                    assert(after.sheets@[i] == before.sheets@[i]);
                }
            }
        }
        assert forall|s: usize, r: usize, c: usize|
            (#[trigger] after.record(s as int, r as int, c as int)).value is Formula implies (
            parse_text_spec(
                formula_body(after.record(s as int, r as int, c as int).value->Formula_0),
            ) matches Some(e) && offset_free(e)) by {
            if (s, r, c) != cell {
                assert(after.record(s as int, r as int, c as int) == before.record(
                    s as int,
                    r as int,
                    c as int,
                ));
            }
        }
        assert forall|s: usize, r: usize, c: usize| #[trigger] after.cell_grounded(s, r, c) by {
            if (s, r, c) != cell {
                assert(before.cell_grounded(s, r, c));
                assert(after.record(s as int, r as int, c as int) == before.record(
                    s as int,
                    r as int,
                    c as int,
                ));
                match after.formula_at(s, r, c) {
                    Some(e) => {
                        lemma_edges_alike(e, s, cell_key(s, r, c), before.sheets@, after.sheets@);
                        lemma_spares_alike(
                            before.at_sheet(s),
                            after.at_sheet(s),
                            e,
                            s as int,
                            r as int,
                            c as int,
                        );
                    },
                    None => {},
                }
            }
        }
        assert forall|s: usize, r: usize, c: usize| #[trigger]
            self.cell_coherent(after, s, r, c) by {
            if after.formula_at(s, r, c) is Some && !after.record(
                s as int,
                r as int,
                c as int,
            ).dirty && !after.marked(s, r, c) {
                self.lemma_entered_cell(before, after, cell, value, (s, r, c));
            }
        }
    }
}

/// Whether every node at an end of one of `edges`, but for `cell`, has
/// among them an edge from each of the single cells that it is made of.
pub open spec fn self_ranged(edges: Set<(NodeKey, NodeKey)>, cell: NodeKey) -> bool {
    forall|n: NodeKey, z: NodeKey|
        touches(edges, n) && n != cell && #[trigger] is_constituent(n, z) ==> edges.contains(
            (z, n),
        )
}

/// The edges of two sets that have the edges of their nodes have them
/// together.
proof fn lemma_self_ranged_union(
    a: Set<(NodeKey, NodeKey)>,
    b: Set<(NodeKey, NodeKey)>,
    cell: NodeKey,
)
    requires
        self_ranged(a, cell),
        self_ranged(b, cell),
    ensures
        self_ranged(a.union(b), cell),
{
    let both = a.union(b);
    assert forall|n: NodeKey, z: NodeKey|
        touches(both, n) && n != cell && #[trigger] is_constituent(n, z) implies both.contains(
        (z, n),
    ) by {
        let e = choose|e: (NodeKey, NodeKey)| #[trigger] both.contains(e) && (e.0 == n || e.1 == n);
        if a.contains(e) {
            assert(touches(a, n));
        } else {
            assert(b.contains(e));
            assert(touches(b, n));
        }
    }
}

/// An edge from a cell to itself adds no node but the cell.
pub proof fn lemma_self_edge_ranged(edges: Set<(NodeKey, NodeKey)>, cell: NodeKey)
    requires
        self_ranged(edges, cell),
    ensures
        self_ranged(edges.insert((cell, cell)), cell),
{
    let more = edges.insert((cell, cell));
    assert forall|n: NodeKey, z: NodeKey|
        touches(more, n) && n != cell && #[trigger] is_constituent(n, z) implies more.contains(
        (z, n),
    ) by {
        let e = choose|e: (NodeKey, NodeKey)| #[trigger] more.contains(e) && (e.0 == n || e.1 == n);
        assert(edges.contains(e));
        assert(touches(edges, n));
    }
}

/// The edges that the references of a formula stand for have, for each
/// node of a reference, the edges from the single cells that it is made
/// of.
pub proof fn lemma_expression_self_ranged(
    e: ExprView,
    home: usize,
    cell: NodeKey,
    sheets: Seq<Sheet>,
)
    requires
        ranges_wf(e),
    ensures
        self_ranged(expression_edges(e, home, cell, sheets), cell),
    decreases e, 1int,
{
    let all = expression_edges(e, home, cell, sheets);
    match e {
        ExprView::Reference { sheet, range } => {
            assert forall|n: NodeKey, z: NodeKey|
                touches(all, n) && n != cell && #[trigger] is_constituent(n, z) implies all.contains(
                (z, n),
            ) by {
                let edge = choose|edge: (NodeKey, NodeKey)| #[trigger]
                    all.contains(edge) && (edge.0 == n || edge.1 == n);
            }
        },
        ExprView::Prefix(_, inner) => {
            lemma_expression_self_ranged(*inner, home, cell, sheets);
        },
        ExprView::Infix(_, left, right) => {
            lemma_expression_self_ranged(*left, home, cell, sheets);
            lemma_expression_self_ranged(*right, home, cell, sheets);
            lemma_self_ranged_union(
                expression_edges(*left, home, cell, sheets),
                expression_edges(*right, home, cell, sheets),
                cell,
            );
        },
        ExprView::Func { name, args } => {
            assert(all_ranges_wf(args)) by {
                reveal_with_fuel(ranges_wf, 2);
            }
            lemma_items_self_ranged(args, home, cell, sheets);
        },
        ExprView::Array(items) => {
            assert(all_ranges_wf(items)) by {
                reveal_with_fuel(ranges_wf, 2);
            }
            lemma_items_self_ranged(items, home, cell, sheets);
        },
        _ => {},
    }
}

proof fn lemma_items_self_ranged(
    items: Seq<ExprView>,
    home: usize,
    cell: NodeKey,
    sheets: Seq<Sheet>,
)
    requires
        all_ranges_wf(items),
    ensures
        self_ranged(items_edges(items, home, cell, sheets), cell),
    decreases items, 0int,
{
    if items.len() > 0 {
        let front = items.drop_last();
        assert forall|i: int| 0 <= i < front.len() implies ranges_wf(#[trigger] front[i]) by {
            assert(front[i] == items[i]);
        }
        lemma_items_self_ranged(front, home, cell, sheets);
        lemma_expression_self_ranged(items.last(), home, cell, sheets);
        lemma_self_ranged_union(
            items_edges(front, home, cell, sheets),
            expression_edges(items.last(), home, cell, sheets),
            cell,
        );
    }
}

/// A graph that has the edges of its nodes still has them when it has
/// grown by edges that have the edges of their nodes, as precedents of a
/// single cell.
pub proof fn lemma_ranged_grows(
    before: Book,
    after: Book,
    added: Set<(NodeKey, NodeKey)>,
    cell: NodeKey,
)
    requires
        before.ranged(),
        cell.3 == 1 && cell.4 == 1,
        self_ranged(added, cell),
        after.dependencies.edges() == before.dependencies.edges().union(added),
        forall|n: NodeKey| #[trigger]
            after.dependencies.nodes().contains(n) ==> before.dependencies.nodes().contains(n)
                || touches(added, n) || n == cell,
    ensures
        after.ranged(),
{
    assert forall|pre: NodeKey, z: NodeKey|
        after.dependencies.nodes().contains(pre) && #[trigger] is_constituent(
            pre,
            z,
        ) implies after.dependencies.edges().contains((z, pre)) by {
        if before.dependencies.nodes().contains(pre) {
            assert(before.dependencies.edges().contains((z, pre)));
        }
    }
}

/// A workbook with the records and the graph of one that is kept is
/// kept.
pub proof fn lemma_same_kept(before: Book, after: Book)
    requires
        before.kept(),
        forall|s: int, r: int, c: int| #[trigger] after.record(s, r, c) == before.record(s, r, c),
        after.dependencies.nodes() == before.dependencies.nodes(),
        after.dependencies.edges() == before.dependencies.edges(),
    ensures
        after.kept(),
{
    assert forall|s: int, r: int, c: int| (#[trigger] after.record(s, r, c)).dirty implies after.record(
        s,
        r,
        c,
    ).value is Formula by {
        assert(after.record(s, r, c) == before.record(s, r, c));
    }
}

/// A workbook in which records changed only so that what was entered
/// stayed and nothing began to wait is kept, if it was.
pub proof fn lemma_settled_kept(before: Book, after: Book)
    requires
        before.kept(),
        forall|s: int, r: int, c: int|
            (#[trigger] after.record(s, r, c)).value == before.record(s, r, c).value && (
            after.record(s, r, c).dirty ==> before.record(s, r, c).dirty),
        after.dependencies.nodes() == before.dependencies.nodes(),
        after.dependencies.edges() == before.dependencies.edges(),
    ensures
        after.kept(),
{
    assert forall|s: int, r: int, c: int| (#[trigger] after.record(s, r, c)).dirty implies after.record(
        s,
        r,
        c,
    ).value is Formula by {
        assert(before.record(s, r, c).dirty);
    }
}

/// A region that is not calculated has a cell that waits.
pub proof fn lemma_dirty_in_region(book: Book, sheet: Option<Seq<u8>>, range: Range)
    requires
        book.tidy(),
        range.wf(),
        book.target_of(sheet) is Some,
        !book.calculated_spec(sheet, range),
    ensures
        exists|z: (usize, usize, usize)| #[trigger]
            book.waiting(z.0, z.1, z.2) && covers(
                book,
                sheet,
                range,
                z.0 as int,
                z.1 as int,
                z.2 as int,
            ),
{
    lemma_target_is_sheet(book, sheet);
    let id = book.target_of(sheet)->Some_0;
    let on = book.sheets@[id];
    let (first_row, first_column, rows, columns) = region_of(range, on);
    assert(!region_clean(on, first_row, first_column, rows, columns));
    assert(exists|r0: int, c0: int|
        first_row <= r0 < first_row + rows && first_column <= c0 < first_column + columns && (
        #[trigger] on.cell(r0, c0)).dirty);
    let (r0, c0) = choose|r0: int, c0: int|
        first_row <= r0 < first_row + rows && first_column <= c0 < first_column + columns && (
        #[trigger] on.cell(r0, c0)).dirty;
    if !on.within(r0, c0) {
        on.lemma_cell_beyond(r0, c0);
    }
    assert(on.within(r0, c0));
    assert(0 <= first_row && 0 <= first_column);
    assert(book.sheets@.len() == book.sheets.len());
    let z = (id as usize, (r0 + 1) as usize, (c0 + 1) as usize);
    assert(0 <= id < book.sheets.len());
    assert(r0 < on.max_rows && c0 < on.max_columns);
    assert(z.0 == id);
    assert(z.1 == r0 + 1);
    assert(z.2 == c0 + 1);
    assert(book.record(z.0 as int, z.1 as int, z.2 as int) == on.cell(r0, c0));
    assert(book.waiting(z.0, z.1, z.2) && covers(
        book,
        sheet,
        range,
        z.0 as int,
        z.1 as int,
        z.2 as int,
    ));
}

/// A cell in the region of a reference is the node of the reference, or
/// one of the single cells that the node is made of.
pub proof fn lemma_covered_cell(
    book: Book,
    sheet: Option<Seq<u8>>,
    range: Range,
    z: (usize, usize, usize),
)
    requires
        range.wf(),
        covers(book, sheet, range, z.0 as int, z.1 as int, z.2 as int),
    ensures
        book.target_of(sheet) matches Some(id) && 0 <= id < book.sheets@.len() && ({
            let pre = range_node(
                range,
                id as usize,
                book.sheets@[id].max_rows,
                book.sheets@[id].max_columns,
            );
            cell_key(z.0, z.1, z.2) == pre || is_constituent(pre, cell_key(z.0, z.1, z.2))
        }),
{
    lemma_target_is_sheet(book, sheet);
}

impl<FN, FA, FT, FL> Kernel<FN, FA, FT, FL> where
    FN: Fn(&Number) -> Option<Double>,
    FA: Fn(Infix, Double, Double) -> Double,
    FT: Fn(Double) -> i64,
    FL: Fn(&Vec<u8>, Vec<Value>) -> Option<Value>,
 {
    /// A signal is a reference to cells of a sheet that there is, not all
    /// of them calculated.
    pub proof fn lemma_signal_shape(&self, b: Book, e: ExprView)
        requires
            ranges_wf(e),
            self.eval_spec(Some(b), e) is Err,
        ensures
            self.eval_spec(Some(b), e)->Err_0 matches ExprView::Reference { sheet, range }
                && b.target_of(sheet) is Some && !b.calculated_spec(sheet, range) && range.wf(),
        decreases e, 2int,
    {
        match e {
            ExprView::Prefix(_, inner) => {
                self.lemma_signal_shape(b, *inner);
            },
            ExprView::Infix(_, left, right) => {
                if self.eval_spec(Some(b), *left) is Err {
                    self.lemma_signal_shape(b, *left);
                } else {
                    self.lemma_signal_shape(b, *right);
                }
            },
            ExprView::Func { name, args } => {
                assert(all_ranges_wf(args)) by {
                    reveal_with_fuel(ranges_wf, 2);
                }
                if name == "OFFSET".spec_bytes() {
                    self.lemma_signal_shape_offset(b, args);
                } else {
                    self.lemma_signal_shape_all(b, args);
                }
            },
            ExprView::Array(items) => {
                assert(all_ranges_wf(items)) by {
                    reveal_with_fuel(ranges_wf, 2);
                }
                self.lemma_signal_shape_all(b, items);
            },
            _ => {},
        }
    }

    proof fn lemma_signal_shape_all(&self, b: Book, items: Seq<ExprView>)
        requires
            all_ranges_wf(items),
            self.eval_all_spec(Some(b), items) is Err,
        ensures
            self.eval_all_spec(Some(b), items)->Err_0 matches ExprView::Reference { sheet, range }
                && b.target_of(sheet) is Some && !b.calculated_spec(sheet, range) && range.wf(),
        decreases items, 1int,
    {
        if items.len() > 0 {
            let front = items.drop_last();
            assert forall|i: int| 0 <= i < front.len() implies ranges_wf(#[trigger] front[i]) by {
                assert(front[i] == items[i]);
            }
            if self.eval_all_spec(Some(b), front) is Err {
                self.lemma_signal_shape_all(b, front);
            } else {
                self.lemma_signal_shape(b, items.last());
            }
        }
    }

    proof fn lemma_signal_shape_offset(&self, b: Book, args: Seq<ExprView>)
        requires
            all_ranges_wf(args),
            self.offset_spec(b, args) is Err,
        ensures
            self.offset_spec(b, args)->Err_0 matches ExprView::Reference { sheet, range }
                && b.target_of(sheet) is Some && !b.calculated_spec(sheet, range) && range.wf(),
        decreases args, 0int,
    {
        if args.len() == 3 {
            assert(ranges_wf(args[0]) && ranges_wf(args[1]) && ranges_wf(args[2]));
            match args[0] {
                ExprView::Reference { sheet, range } => {
                    if self.eval_spec(Some(b), args[1]) is Err {
                        self.lemma_signal_shape(b, args[1]);
                    } else if self.eval_spec(Some(b), args[2]) is Err {
                        self.lemma_signal_shape(b, args[2]);
                    } else {
                        let rows = self.eval_spec(Some(b), args[1])->Ok_0;
                        let columns = self.eval_spec(Some(b), args[2])->Ok_0;
                        lemma_displaced_wf(
                            range,
                            truncate_model(self.truncate, self.num_of(rows)->Ok_0) as int,
                            truncate_model(self.truncate, self.num_of(columns)->Ok_0) as int,
                        );
                    }
                },
                _ => {},
            }
        }
    }

    /// Where the formula of a node ends with a signal, some cell in the
    /// region of the signalled reference waits to be calculated.
    proof fn lemma_signal_waits(&self, book: Book, x: CellId, pending: ExprView)
        requires
            book.tidy(),
            self.signals(book, x, pending),
        ensures
            pending matches ExprView::Reference { sheet, range } && range.wf() && exists|
                z: (usize, usize, usize),
            | #[trigger]
                book.waiting(z.0, z.1, z.2) && covers(
                    book.at_sheet(x.sheet),
                    sheet,
                    range,
                    z.0 as int,
                    z.1 as int,
                    z.2 as int,
                ),
    {
        let text = book.formula_of(x)->Some_0;
        let e = parse_text_spec(formula_body(text))->Some_0;
        lemma_parsed_ranges_wf(formula_body(text));
        let at = book.at_sheet(x.sheet);
        self.lemma_signal_shape(at, e);
        let sheet = pending->Reference_sheet;
        let moved = pending->Reference_range;
        assert(at.tidy()) by {
            assert forall|s: int, r: int, c: int| (#[trigger] at.record(s, r, c)).dirty implies at.record(
                s,
                r,
                c,
            ).value is Formula by {
                assert(at.record(s, r, c) == book.record(s, r, c));
            }
        }
        lemma_dirty_in_region(at, sheet, moved);
        let z = choose|z: (usize, usize, usize)| #[trigger]
            at.waiting(z.0, z.1, z.2) && covers(
                at,
                sheet,
                moved,
                z.0 as int,
                z.1 as int,
                z.2 as int,
            );
        assert(book.waiting(z.0, z.1, z.2));
    }

    /// A cell that waits does not stand in the region of a reference
    /// that is a precedent of the node whose turn it is.
    proof fn lemma_waiting_blocks(
        &self,
        book: Book,
        order: Seq<CellId>,
        i: int,
        sheet: Option<Seq<u8>>,
        range: Range,
        z: (usize, usize, usize),
    )
        requires
            book.registered(),
            book.dependencies.wf(),
            book.ranged(),
            is_topological(order_keys(order), book.dependencies.nodes(), book.dependencies.edges()),
            0 <= i < order.len(),
            forall|k: int|
                0 <= k < i ==> !book.dependencies.dirty().contains((#[trigger] order[k]).key()),
            range.wf(),
            book.waiting(z.0, z.1, z.2),
            covers(book.at_sheet(order[i].sheet), sheet, range, z.0 as int, z.1 as int, z.2 as int),
        ensures
            !book.stuck(order[i], ExprView::Reference { sheet, range }),
    {
        let x = order[i];
        let pending = ExprView::Reference { sheet, range };
        let at = book.at_sheet(x.sheet);
        let zk = cell_key(z.0, z.1, z.2);
        let xk = x.key();
        let keys = order_keys(order);
        assert(keys[i] == xk);
        lemma_covered_cell(at, sheet, range, z);
        let id = at.target_of(sheet)->Some_0;
        let on = book.sheets@[id];
        let pre = range_node(range, id as usize, on.max_rows, on.max_columns);
        if book.stuck(x, pending) {
            assert(book.signal_edge(x, pending) == Some((pre, xk)));
            assert(book.dependencies.edges().contains((pre, xk)));
            assert(keys.contains(zk));
            let j = choose|j: int| 0 <= j < keys.len() && keys[j] == zk;
            assert(order[j].key() == zk);
            if zk == pre {
                assert(book.dependencies.edges().contains((keys[j], keys[i])));
            } else {
                assert(book.dependencies.nodes().contains(pre));
                assert(keys.contains(pre));
                let m = choose|m: int| 0 <= m < keys.len() && keys[m] == pre;
                assert(book.dependencies.edges().contains((keys[j], keys[m])));
                assert(book.dependencies.edges().contains((keys[m], keys[i])));
            }
            assert(j < i);
            assert(false);
        }
    }

    /// At its turn in an order of calculation, a formula signals only a
    /// reference that the graph does not have as its precedent yet: were
    /// it a precedent, its cells would stand before the formula in the
    /// order, and would be calculated.
    pub proof fn lemma_signal_is_new(
        &self,
        book: Book,
        order: Seq<CellId>,
        i: int,
        pending: ExprView,
    )
        requires
            book.registered(),
            book.dependencies.wf(),
            book.tidy(),
            book.ranged(),
            is_topological(order_keys(order), book.dependencies.nodes(), book.dependencies.edges()),
            0 <= i < order.len(),
            forall|k: int|
                0 <= k < i ==> !book.dependencies.dirty().contains((#[trigger] order[k]).key()),
            self.signals(book, order[i], pending),
        ensures
            !book.stuck(order[i], pending),
    {
        self.lemma_signal_waits(book, order[i], pending);
        let sheet = pending->Reference_sheet;
        let range = pending->Reference_range;
        let z = choose|z: (usize, usize, usize)| #[trigger]
            book.waiting(z.0, z.1, z.2) && covers(
                book.at_sheet(order[i].sheet),
                sheet,
                range,
                z.0 as int,
                z.1 as int,
                z.2 as int,
            );
        self.lemma_waiting_blocks(book, order, i, sheet, range, z);
    }
}

} // verus!
