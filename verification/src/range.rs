//! Ranges as they are written in formulas: a single cell (`A1`), a pair of
//! cells (`A1:B2`), whole columns (`A:B`) or whole rows (`1:2`), each part
//! with its `$` anchors.

use crate::cell::CellIndex;
use crate::parser::ast::Error;
use crate::text::{
    all_digits, all_upper, append_bytes, byte_is_digit, byte_is_upper, canonical_text,
    canonicalize, column_letters, column_number_to_letter, copy_range, decimal_digits,
    digits_value, format_decimal, is_digit, is_upper, lemma_column_of_letters_value,
    lemma_decimal_of_digits_value, letters_value, parse_decimal, parse_letters,
};
use vstd::prelude::*;

verus! {

/// Which components of a range part carry a `$`.
#[derive(Debug, Clone, Copy, PartialEq, Eq, Structural)]
pub enum AnchorType {
    Row,
    Column,
    Cell,
    /// No component is anchored.
    Relative,
}

#[derive(Debug, Clone, Copy, PartialEq, Eq)]
pub struct Range {
    pub start_cell: CellIndex,
    pub start_anchor: AnchorType,
    pub end_cell: Option<CellIndex>,
    pub end_anchor: Option<AnchorType>,
}

pub open spec fn column_anchored(anchor: AnchorType) -> bool {
    anchor == AnchorType::Column || anchor == AnchorType::Cell
}

pub open spec fn row_anchored(anchor: AnchorType) -> bool {
    anchor == AnchorType::Row || anchor == AnchorType::Cell
}

pub open spec fn anchor_of(column: bool, row: bool) -> AnchorType {
    if column && row {
        AnchorType::Cell
    } else if column {
        AnchorType::Column
    } else if row {
        AnchorType::Row
    } else {
        AnchorType::Relative
    }
}

/// A part is a cell, a whole column or a whole row, and carries only the
/// anchors that its text can show.
pub open spec fn part_wf(cell: CellIndex, anchor: AnchorType) -> bool {
    if cell.row > 0 && cell.column > 0 {
        true
    } else if cell.column > 0 {
        anchor == AnchorType::Column || anchor == AnchorType::Relative
    } else if cell.row > 0 {
        anchor == AnchorType::Row || anchor == AnchorType::Relative
    } else {
        false
    }
}

/// Both parts are cells, both are columns, or both are rows.
pub open spec fn same_kind(a: CellIndex, b: CellIndex) -> bool {
    (a.row > 0) == (b.row > 0) && (a.column > 0) == (b.column > 0)
}

pub open spec fn dollar(on: bool) -> Seq<u8> {
    if on {
        seq![0x24u8]
    } else {
        Seq::empty()
    }
}

/// The text of one range part.
pub open spec fn format_part(cell: CellIndex, anchor: AnchorType) -> Seq<u8> {
    if cell.row != 0 && cell.column != 0 {
        dollar(column_anchored(anchor)) + column_letters(cell.column as nat) + dollar(
            row_anchored(anchor),
        ) + decimal_digits(cell.row as nat)
    } else if cell.column != 0 {
        dollar(anchor == AnchorType::Column) + column_letters(cell.column as nat)
    } else {
        dollar(anchor == AnchorType::Row) + decimal_digits(cell.row as nat)
    }
}

/// The text of a range: its start, and after a colon its end where it has
/// one.
pub open spec fn format_range(r: Range) -> Seq<u8> {
    match (r.end_cell, r.end_anchor) {
        (Some(end_cell), Some(end_anchor)) => format_part(r.start_cell, r.start_anchor)
            + seq![0x3Au8] + format_part(end_cell, end_anchor),
        _ => format_part(r.start_cell, r.start_anchor),
    }
}

/// Length of the longest run of upper-case letters that starts at `from`.
pub open spec fn upper_run(p: Seq<u8>, from: int) -> int
    decreases p.len() - from,
{
    if 0 <= from < p.len() && is_upper(p[from]) {
        1 + upper_run(p, from + 1)
    } else {
        0
    }
}

/// Length of the longest run of digits that starts at `from`.
pub open spec fn digit_run(p: Seq<u8>, from: int) -> int
    decreases p.len() - from,
{
    if 0 <= from < p.len() && is_digit(p[from]) {
        1 + digit_run(p, from + 1)
    } else {
        0
    }
}

/// Index of the first colon at or after `from`, or the length of `c`.
pub open spec fn find_colon(c: Seq<u8>, from: int) -> int
    decreases c.len() - from,
{
    if 0 <= from < c.len() && c[from] != 0x3A {
        find_colon(c, from + 1)
    } else if from < c.len() {
        from
    } else {
        c.len() as int
    }
}

/// What one part of canonical range text denotes: `$?LETTERS$?DIGITS`,
/// `$?LETTERS` or `$?DIGITS`, the letters in upper case, the digits read
/// as a decimal number, both numbers within the machine's range.
pub open spec fn parse_part_spec(p: Seq<u8>) -> Option<(CellIndex, AnchorType)> {
    let a0: int = if p.len() > 0 && p[0] == 0x24 {
        1
    } else {
        0
    };
    let i2 = a0 + upper_run(p, a0);
    let a1: int = if i2 < p.len() && p[i2] == 0x24 {
        1
    } else {
        0
    };
    let i3 = i2 + a1;
    let end = i3 + digit_run(p, i3);
    let letters = p.subrange(a0, i2);
    let digits = p.subrange(i3, end);
    let col = letters_value(letters);
    let row = digits_value(digits);
    if end != p.len() || col > usize::MAX || row > usize::MAX {
        None
    } else if letters.len() > 0 && digits.len() > 0 {
        Some((CellIndex { row: row as usize, column: col as usize }, anchor_of(a0 == 1, a1 == 1)))
    } else if a1 == 1 {
        None
    } else if letters.len() > 0 {
        Some((CellIndex { row: 0, column: col as usize }, anchor_of(a0 == 1, false)))
    } else if digits.len() > 0 {
        Some((CellIndex { row: row as usize, column: 0 }, anchor_of(false, a0 == 1)))
    } else {
        None
    }
}

/// Whether the digits of a part of canonical range text are written
/// without a leading zero.
pub open spec fn plain_part(p: Seq<u8>) -> bool {
    let a0: int = if p.len() > 0 && p[0] == 0x24 {
        1
    } else {
        0
    };
    let i2 = a0 + upper_run(p, a0);
    let a1: int = if i2 < p.len() && p[i2] == 0x24 {
        1
    } else {
        0
    };
    let i3 = i2 + a1;
    !(0 <= i3 < p.len() && p[i3] == 0x30)
}

/// Whether the digits of range text are written without a leading zero.
pub open spec fn plain_text(s: Seq<u8>) -> bool {
    let c = canonicalize(s);
    let k = find_colon(c, 0);
    if k >= c.len() {
        plain_part(c)
    } else {
        plain_part(c.subrange(0, k)) && plain_part(c.subrange(k + 1, c.len() as int))
    }
}

/// Whether `a` comes before `b` or is `b`, reading row after row.
pub open spec fn row_major(a: CellIndex, b: CellIndex) -> bool {
    a.row < b.row || (a.row == b.row && a.column <= b.column)
}

/// What range text denotes. Whitespace and letter case are ignored; each
/// part is a cell, a whole column or a whole row with the anchors that
/// such a part can have; the two parts of a pair are of one kind, and the
/// end does not come before the start, reading row after row.
pub open spec fn parse_range_spec(s: Seq<u8>) -> Option<Range> {
    let c = canonicalize(s);
    let k = find_colon(c, 0);
    if k >= c.len() {
        match parse_part_spec(c) {
            Some((cell, anchor)) => if part_wf(cell, anchor) {
                Some(
                    Range {
                        start_cell: cell,
                        start_anchor: anchor,
                        end_cell: None,
                        end_anchor: None,
                    },
                )
            } else {
                None
            },
            None => None,
        }
    } else {
        match (parse_part_spec(c.subrange(0, k)), parse_part_spec(c.subrange(k + 1, c.len() as int))) {
            (Some((a, a_anchor)), Some((b, b_anchor))) => {
                if part_wf(a, a_anchor) && part_wf(b, b_anchor) && same_kind(a, b) && row_major(
                    a,
                    b,
                ) {
                    Some(
                        Range {
                            start_cell: a,
                            start_anchor: a_anchor,
                            end_cell: Some(b),
                            end_anchor: Some(b_anchor),
                        },
                    )
                } else {
                    None
                }
            },
            _ => None,
        }
    }
}

/// The range that text denotes where a formula can refer to it: a range
/// whose end lies neither above nor left of its start, so that it is a
/// rectangle of cells.
pub open spec fn reference_range(s: Seq<u8>) -> Option<Range> {
    match parse_range_spec(s) {
        Some(range) => if range.wf() {
            Some(range)
        } else {
            None
        },
        None => None,
    }
}

/// One component moved by `delta`; an anchored component and the `0` of a
/// whole row or column stay. `None` where the result would leave the sheet.
pub open spec fn shift(index: usize, anchored: bool, delta: int) -> Option<usize> {
    if index == 0 || anchored {
        Some(index)
    } else if 1 <= index + delta <= usize::MAX {
        Some((index + delta) as usize)
    } else {
        None
    }
}

pub open spec fn offset_part(cell: CellIndex, anchor: AnchorType, rows: int, columns: int) -> Option<
    CellIndex,
> {
    match (
        shift(cell.row, row_anchored(anchor), rows),
        shift(cell.column, column_anchored(anchor), columns),
    ) {
        (Some(row), Some(column)) => Some(CellIndex { row, column }),
        _ => None,
    }
}

/// The range moved by `rows` and `columns`. `None` where a component would
/// leave the sheet, or where the end would come to lie above or left of
/// the start.
pub open spec fn offset_spec(r: Range, rows: int, columns: int) -> Option<Range> {
    match offset_part(r.start_cell, r.start_anchor, rows, columns) {
        None => None,
        Some(start) => match (r.end_cell, r.end_anchor) {
            (Some(end_cell), Some(end_anchor)) => match offset_part(
                end_cell,
                end_anchor,
                rows,
                columns,
            ) {
                None => None,
                Some(end) => if start.row <= end.row && start.column <= end.column {
                    Some(
                        Range {
                            start_cell: start,
                            start_anchor: r.start_anchor,
                            end_cell: Some(end),
                            end_anchor: Some(end_anchor),
                        },
                    )
                } else {
                    None
                },
            },
            _ => Some(
                Range {
                    start_cell: start,
                    start_anchor: r.start_anchor,
                    end_cell: r.end_cell,
                    end_anchor: r.end_anchor,
                },
            ),
        },
    }
}

/// The range moved by `rows` and `columns` whether its parts are anchored
/// or not.
pub open spec fn displaced(range: Range, rows: int, columns: int) -> Option<Range> {
    offset_spec(
        Range {
            start_cell: range.start_cell,
            start_anchor: AnchorType::Relative,
            end_cell: range.end_cell,
            end_anchor: match range.end_anchor {
                Some(_) => Some(AnchorType::Relative),
                None => None,
            },
        },
        rows,
        columns,
    )
}

proof fn lemma_upper_run(p: Seq<u8>, from: int)
    requires
        0 <= from <= p.len(),
    ensures
        0 <= upper_run(p, from) <= p.len() - from,
        all_upper(p.subrange(from, from + upper_run(p, from))),
        from + upper_run(p, from) < p.len() ==> !is_upper(p[from + upper_run(p, from)]),
    decreases p.len() - from,
{
    if from < p.len() && is_upper(p[from]) {
        lemma_upper_run(p, from + 1);
        let n = upper_run(p, from);
        let run = p.subrange(from, from + n);
        let rest = p.subrange(from + 1, from + n);
        assert forall|i: int| 0 <= i < run.len() implies is_upper(#[trigger] run[i]) by {
            if i > 0 {
                assert(run[i] == rest[i - 1]);
            }
        }
    }
}

proof fn lemma_digit_run(p: Seq<u8>, from: int)
    requires
        0 <= from <= p.len(),
    ensures
        0 <= digit_run(p, from) <= p.len() - from,
        all_digits(p.subrange(from, from + digit_run(p, from))),
        from + digit_run(p, from) < p.len() ==> !is_digit(p[from + digit_run(p, from)]),
    decreases p.len() - from,
{
    if from < p.len() && is_digit(p[from]) {
        lemma_digit_run(p, from + 1);
        let n = digit_run(p, from);
        let run = p.subrange(from, from + n);
        let rest = p.subrange(from + 1, from + n);
        assert forall|i: int| 0 <= i < run.len() implies is_digit(#[trigger] run[i]) by {
            if i > 0 {
                assert(run[i] == rest[i - 1]);
            }
        }
    }
}

proof fn lemma_find_colon(c: Seq<u8>, from: int)
    requires
        0 <= from <= c.len(),
    ensures
        from <= find_colon(c, from) <= c.len(),
        find_colon(c, from) < c.len() ==> c[find_colon(c, from)] == 0x3A,
    decreases c.len() - from,
{
    if from < c.len() && c[from] != 0x3A {
        lemma_find_colon(c, from + 1);
    }
}

fn scan_upper(p: &[u8], from: usize) -> (to: usize)
    requires
        from <= p.len(),
    ensures
        to == from + upper_run(p@, from as int),
        from <= to <= p.len(),
{
    let mut i: usize = from;
    while i < p.len() && byte_is_upper(p[i])
        invariant
            from <= i <= p.len(),
            upper_run(p@, from as int) == (i - from) + upper_run(p@, i as int),
        decreases p.len() - i,
    {
        i = i + 1;
    }
    i
}

fn scan_digits(p: &[u8], from: usize) -> (to: usize)
    requires
        from <= p.len(),
    ensures
        to == from + digit_run(p@, from as int),
        from <= to <= p.len(),
{
    let mut i: usize = from;
    while i < p.len() && byte_is_digit(p[i])
        invariant
            from <= i <= p.len(),
            digit_run(p@, from as int) == (i - from) + digit_run(p@, i as int),
        decreases p.len() - i,
    {
        i = i + 1;
    }
    i
}

fn scan_colon(c: &[u8]) -> (k: usize)
    ensures
        k == find_colon(c@, 0),
        k <= c.len(),
{
    let mut i: usize = 0;
    while i < c.len() && c[i] != 0x3A
        invariant
            i <= c.len(),
            find_colon(c@, 0) == find_colon(c@, i as int),
        decreases c.len() - i,
    {
        i = i + 1;
    }
    i
}

fn anchor_from(column: bool, row: bool) -> (r: AnchorType)
    ensures
        r == anchor_of(column, row),
{
    if column && row {
        AnchorType::Cell
    } else if column {
        AnchorType::Column
    } else if row {
        AnchorType::Row
    } else {
        AnchorType::Relative
    }
}

fn part_is_wf(cell: CellIndex, anchor: AnchorType) -> (r: bool)
    ensures
        r == part_wf(cell, anchor),
{
    if cell.row > 0 && cell.column > 0 {
        true
    } else if cell.column > 0 {
        matches!(anchor, AnchorType::Column | AnchorType::Relative)
    } else if cell.row > 0 {
        matches!(anchor, AnchorType::Row | AnchorType::Relative)
    } else {
        false
    }
}

/// Reads one part of canonical range text.
fn parse_canonical_part(p: &[u8]) -> (r: Result<(CellIndex, AnchorType), Error>)
    ensures
        r == match parse_part_spec(p@) {
            Some(part) => Ok::<(CellIndex, AnchorType), Error>(part),
            None => Err(Error::Ref),
        },
{
    let a0: usize = if p.len() > 0 && p[0] == 0x24 {
        1
    } else {
        0
    };
    let i2: usize = scan_upper(p, a0);
    let a1: usize = if i2 < p.len() && p[i2] == 0x24 {
        1
    } else {
        0
    };
    let i3: usize = i2 + a1;
    let end: usize = scan_digits(p, i3);
    proof {
        lemma_upper_run(p@, a0 as int);
        lemma_digit_run(p@, i3 as int);
    }
    let col = parse_letters(p, a0, i2);
    let row = parse_decimal(p, i3, end);
    if end != p.len() {
        return Err(Error::Ref);
    }
    match (col, row) {
        (Some(column), Some(row)) => {
            let has_letters: bool = i2 > a0;
            let has_digits: bool = end > i3;
            if has_letters && has_digits {
                Ok((CellIndex { row, column }, anchor_from(a0 == 1, a1 == 1)))
            } else if a1 == 1 {
                Err(Error::Ref)
            } else if has_letters {
                Ok((CellIndex { row: 0, column }, anchor_from(a0 == 1, false)))
            } else if has_digits {
                Ok((CellIndex { row, column: 0 }, anchor_from(false, a0 == 1)))
            } else {
                Err(Error::Ref)
            }
        },
        _ => Err(Error::Ref),
    }
}

/// Reads a single range part such as `A1`, `$B$12`, `C` or `$7`.
/// Whitespace and letter case are ignored; the digits are read as a
/// decimal number. Text of any other shape and a number beyond the
/// machine's range give `Error::Ref`.
pub fn parse_range_part(range_part: &[u8]) -> (r: Result<(CellIndex, AnchorType), Error>)
    ensures
        r == match parse_part_spec(canonicalize(range_part@)) {
            Some(part) => Ok::<(CellIndex, AnchorType), Error>(part),
            None => Err(Error::Ref),
        },
{
    let c = canonical_text(range_part);
    parse_canonical_part(c.as_slice())
}

/// The text of one range part.
pub fn format_range_part(cell_index: &CellIndex, anchor_type: &AnchorType) -> (r: Vec<u8>)
    ensures
        r@ == format_part(*cell_index, *anchor_type),
{
    let mut out: Vec<u8> = Vec::new();
    let column_fixed: bool = match anchor_type {
        AnchorType::Column => true,
        AnchorType::Cell => true,
        _ => false,
    };
    let row_fixed: bool = match anchor_type {
        AnchorType::Row => true,
        AnchorType::Cell => true,
        _ => false,
    };
    if cell_index.row != 0 && cell_index.column != 0 {
        if column_fixed {
            out.push(0x24);
        }
        assert(out@ =~= dollar(column_anchored(*anchor_type)));
        let letters = column_number_to_letter(cell_index.column);
        append_bytes(&mut out, letters.as_slice());
        let ghost before = out@;
        if row_fixed {
            out.push(0x24);
        }
        assert(out@ =~= before + dollar(row_anchored(*anchor_type)));
        let digits = format_decimal(cell_index.row);
        append_bytes(&mut out, digits.as_slice());
    } else if cell_index.column != 0 {
        if matches!(anchor_type, AnchorType::Column) {
            out.push(0x24);
        }
        assert(out@ =~= dollar(*anchor_type == AnchorType::Column));
        let letters = column_number_to_letter(cell_index.column);
        append_bytes(&mut out, letters.as_slice());
    } else {
        if matches!(anchor_type, AnchorType::Row) {
            out.push(0x24);
        }
        assert(out@ =~= dollar(*anchor_type == AnchorType::Row));
        let digits = format_decimal(cell_index.row);
        append_bytes(&mut out, digits.as_slice());
    }
    out
}

fn shift_index(index: usize, anchored: bool, delta: i128) -> (r: Option<usize>)
    ensures
        r == shift(index, anchored, delta as int),
{
    if index == 0 || anchored {
        Some(index)
    } else {
        match (index as i128).checked_add(delta) {
            Some(moved) => if 1 <= moved && moved <= usize::MAX as i128 {
                Some(moved as usize)
            } else {
                None
            },
            None => None,
        }
    }
}

fn offset_cell(cell: CellIndex, anchor: AnchorType, rows: i128, columns: i128) -> (r: Option<
    CellIndex,
>)
    ensures
        r == offset_part(cell, anchor, rows as int, columns as int),
{
    let row_fixed: bool = match anchor {
        AnchorType::Row => true,
        AnchorType::Cell => true,
        _ => false,
    };
    let column_fixed: bool = match anchor {
        AnchorType::Column => true,
        AnchorType::Cell => true,
        _ => false,
    };
    match (shift_index(cell.row, row_fixed, rows), shift_index(cell.column, column_fixed, columns)) {
        (Some(row), Some(column)) => Some(CellIndex { row, column }),
        _ => None,
    }
}

impl Range {
    /// The range is a cell, whole columns or whole rows; an end has its
    /// anchor, is of the kind of the start, and lies neither above nor
    /// left of it.
    pub open spec fn wf(self) -> bool {
        &&& part_wf(self.start_cell, self.start_anchor)
        &&& self.end_cell.is_some() == self.end_anchor.is_some()
        &&& match (self.end_cell, self.end_anchor) {
            (Some(end_cell), Some(end_anchor)) => {
                &&& part_wf(end_cell, end_anchor)
                &&& same_kind(self.start_cell, end_cell)
                &&& self.start_cell.row <= end_cell.row
                &&& self.start_cell.column <= end_cell.column
            },
            _ => true,
        }
    }

    /// The range is one that text can denote: each part is a cell, a
    /// whole column or a whole row with the anchors that it can have; an
    /// end is of the kind of the start and does not come before it,
    /// reading row after row.
    pub open spec fn ordered(self) -> bool {
        &&& part_wf(self.start_cell, self.start_anchor)
        &&& self.end_cell.is_some() == self.end_anchor.is_some()
        &&& match (self.end_cell, self.end_anchor) {
            (Some(end_cell), Some(end_anchor)) => {
                &&& part_wf(end_cell, end_anchor)
                &&& same_kind(self.start_cell, end_cell)
                &&& row_major(self.start_cell, end_cell)
            },
            _ => true,
        }
    }

    /// Whether the end, if there is one, lies neither above nor left of
    /// the start.
    pub open spec fn spec_is_rectangle(self) -> bool {
        match self.end_cell {
            Some(end_cell) => self.start_cell.row <= end_cell.row && self.start_cell.column
                <= end_cell.column,
            None => true,
        }
    }

    #[verifier::when_used_as_spec(spec_is_rectangle)]
    pub fn is_rectangle(self) -> (r: bool)
        ensures
            r == self.spec_is_rectangle(),
            self.ordered() ==> r == self.wf(),
    {
        match self.end_cell {
            Some(end_cell) => self.start_cell.row <= end_cell.row && self.start_cell.column
                <= end_cell.column,
            None => true,
        }
    }

    pub open spec fn spec_is_multi_cell(&self) -> bool {
        self.end_cell.is_some() || self.start_cell.spec_is_hrange()
            || self.start_cell.spec_is_vrange()
    }

    /// Number of rows; `usize::MAX` stands for the unbounded height of
    /// whole columns.
    pub open spec fn spec_num_rows(self) -> int {
        if self.start_cell.spec_is_vrange() {
            usize::MAX as int
        } else {
            match self.end_cell {
                Some(end_cell) => end_cell.row - self.start_cell.row + 1,
                None => 1,
            }
        }
    }

    /// Number of columns; `usize::MAX` stands for the unbounded width of
    /// whole rows.
    pub open spec fn spec_num_cols(self) -> int {
        if self.start_cell.spec_is_hrange() {
            usize::MAX as int
        } else {
            match self.end_cell {
                Some(end_cell) => end_cell.column - self.start_cell.column + 1,
                None => 1,
            }
        }
    }

    /// Reads range text: a part, or two parts of one kind around a colon,
    /// the second not before the first, reading row after row. Whitespace
    /// and letter case are ignored; digits are read as a decimal number.
    /// Anything else gives `Error::Ref`.
    pub fn parse(text: &[u8]) -> (r: Result<Range, Error>)
        ensures
            r == match parse_range_spec(text@) {
                Some(range) => Ok::<Range, Error>(range),
                None => Err(Error::Ref),
            },
            r matches Ok(range) ==> range.ordered(),
    {
        let c = canonical_text(text);
        let k: usize = scan_colon(c.as_slice());
        proof {
            lemma_find_colon(c@, 0);
        }
        if k >= c.len() {
            match parse_canonical_part(c.as_slice()) {
                Ok((cell, anchor)) => if part_is_wf(cell, anchor) {
                    Ok(
                        Range {
                            start_cell: cell,
                            start_anchor: anchor,
                            end_cell: None,
                            end_anchor: None,
                        },
                    )
                } else {
                    Err(Error::Ref)
                },
                Err(e) => Err(e),
            }
        } else {
            let first = copy_range(c.as_slice(), 0, k);
            let second = copy_range(c.as_slice(), k + 1, c.len());
            match (parse_canonical_part(first.as_slice()), parse_canonical_part(second.as_slice())) {
                (Ok((a, a_anchor)), Ok((b, b_anchor))) => {
                    let alike: bool = ((a.row > 0) == (b.row > 0)) && ((a.column > 0) == (b.column
                        > 0));
                    if part_is_wf(a, a_anchor) && part_is_wf(b, b_anchor) && alike && (a.row
                        < b.row || (a.row == b.row && a.column <= b.column)) {
                        Ok(
                            Range {
                                start_cell: a,
                                start_anchor: a_anchor,
                                end_cell: Some(b),
                                end_anchor: Some(b_anchor),
                            },
                        )
                    } else {
                        Err(Error::Ref)
                    }
                },
                _ => Err(Error::Ref),
            }
        }
    }

    /// The text of the range, in canonical form.
    pub fn format(&self) -> (r: Vec<u8>)
        ensures
            r@ == format_range(*self),
    {
        let mut out: Vec<u8> = format_range_part(&self.start_cell, &self.start_anchor);
        match (self.end_cell, self.end_anchor) {
            (Some(end_cell), Some(end_anchor)) => {
                out.push(0x3A);
                let tail = format_range_part(&end_cell, &end_anchor);
                append_bytes(&mut out, tail.as_slice());
                assert(out@ =~= format_part(self.start_cell, self.start_anchor) + seq![0x3Au8]
                    + format_part(end_cell, end_anchor));
            },
            _ => {},
        }
        out
    }

    pub fn row(&self) -> (r: usize)
        ensures
            r == self.start_cell.row,
    {
        self.start_cell.row
    }

    pub fn column(&self) -> (r: usize)
        ensures
            r == self.start_cell.column,
    {
        self.start_cell.column
    }

    pub fn is_single_cell(&self) -> (r: bool)
        ensures
            r == !self.spec_is_multi_cell(),
    {
        self.end_cell.is_none() && !self.start_cell.is_hrange() && !self.start_cell.is_vrange()
    }

    #[verifier::when_used_as_spec(spec_is_multi_cell)]
    pub fn is_multi_cell(&self) -> (r: bool)
        ensures
            r == self.spec_is_multi_cell(),
    {
        self.end_cell.is_some() || self.start_cell.is_hrange() || self.start_cell.is_vrange()
    }

    pub fn is_hrange(&self) -> (r: bool)
        ensures
            r == self.start_cell.spec_is_hrange(),
    {
        self.start_cell.is_hrange()
    }

    pub fn is_vrange(&self) -> (r: bool)
        ensures
            r == self.start_cell.spec_is_vrange(),
    {
        self.start_cell.is_vrange()
    }

    /// Number of rows. The end of a range that text denotes does not lie
    /// above its start, so it can be asked of every such range.
    pub fn num_rows(&self) -> (r: usize)
        requires
            self.ordered(),
        ensures
            r == self.spec_num_rows(),
    {
        if self.start_cell.is_vrange() {
            usize::MAX
        } else {
            match self.end_cell {
                Some(end_cell) => end_cell.row - self.start_cell.row + 1,
                None => 1,
            }
        }
    }

    pub fn num_cols(&self) -> (r: usize)
        requires
            self.wf(),
        ensures
            r == self.spec_num_cols(),
    {
        if self.start_cell.is_hrange() {
            usize::MAX
        } else {
            match self.end_cell {
                Some(end_cell) => end_cell.column - self.start_cell.column + 1,
                None => 1,
            }
        }
    }

    /// Start row, start column, number of rows, number of columns.
    pub fn get_dimensions(&self) -> (r: (usize, usize, usize, usize))
        requires
            self.wf(),
        ensures
            r == (
                self.start_cell.row,
                self.start_cell.column,
                self.spec_num_rows() as usize,
                self.spec_num_cols() as usize,
            ),
    {
        (self.row(), self.column(), self.num_rows(), self.num_cols())
    }

    /// Moves the range by `rows` and `columns` whether its parts are
    /// anchored or not; the result has no anchors. A component that would
    /// come to lie before row or column 1 gives `Error::Ref`.
    pub fn displace(&self, rows: i64, columns: i64) -> (r: Result<Range, Error>)
        requires
            self.wf(),
        ensures
            r == match displaced(*self, rows as int, columns as int) {
                Some(moved) => Ok::<Range, Error>(moved),
                None => Err(Error::Ref),
            },
            r matches Ok(moved) ==> moved.wf(),
    {
        let start = match (
            shift_index(self.start_cell.row, false, rows as i128),
            shift_index(self.start_cell.column, false, columns as i128),
        ) {
            (Some(row), Some(column)) => CellIndex { row, column },
            _ => {
                return Err(Error::Ref);
            },
        };
        match (self.end_cell, self.end_anchor) {
            (Some(end_cell), Some(_)) => {
                match (
                    shift_index(end_cell.row, false, rows as i128),
                    shift_index(end_cell.column, false, columns as i128),
                ) {
                    (Some(row), Some(column)) => {
                        if start.row <= row && start.column <= column {
                            Ok(
                                Range {
                                    start_cell: start,
                                    start_anchor: AnchorType::Relative,
                                    end_cell: Some(CellIndex { row, column }),
                                    end_anchor: Some(AnchorType::Relative),
                                },
                            )
                        } else {
                            Err(Error::Ref)
                        }
                    },
                    _ => Err(Error::Ref),
                }
            },
            _ => Ok(
                Range {
                    start_cell: start,
                    start_anchor: AnchorType::Relative,
                    end_cell: self.end_cell,
                    end_anchor: self.end_anchor,
                },
            ),
        }
    }

    /// Moves the range by `rows` and `columns`. Anchored components stay
    /// where they are. A component that would come to lie before row or
    /// column 1, and an end that would come to lie above or left of the
    /// start, give `Error::Ref`.
    pub fn offset(&self, rows: i64, columns: i64) -> (r: Result<Range, Error>)
        requires
            self.wf(),
        ensures
            r == match offset_spec(*self, rows as int, columns as int) {
                Some(moved) => Ok::<Range, Error>(moved),
                None => Err(Error::Ref),
            },
            r matches Ok(moved) ==> moved.wf(),
    {
        self.offset_by(rows as i128, columns as i128)
    }

    /// Moves the range as `offset` does, by distances as large as that
    /// between any two cells.
    pub fn offset_by(&self, rows: i128, columns: i128) -> (r: Result<Range, Error>)
        requires
            self.wf(),
        ensures
            r == match offset_spec(*self, rows as int, columns as int) {
                Some(moved) => Ok::<Range, Error>(moved),
                None => Err(Error::Ref),
            },
            r matches Ok(moved) ==> moved.wf(),
    {
        let start = match offset_cell(self.start_cell, self.start_anchor, rows, columns) {
            Some(start) => start,
            None => {
                return Err(Error::Ref);
            },
        };
        match (self.end_cell, self.end_anchor) {
            (Some(end_cell), Some(end_anchor)) => {
                match offset_cell(end_cell, end_anchor, rows, columns) {
                    Some(end) => {
                        if start.row <= end.row && start.column <= end.column {
                            Ok(
                                Range {
                                    start_cell: start,
                                    start_anchor: self.start_anchor,
                                    end_cell: Some(end),
                                    end_anchor: Some(end_anchor),
                                },
                            )
                        } else {
                            Err(Error::Ref)
                        }
                    },
                    None => Err(Error::Ref),
                }
            },
            _ => Ok(
                Range {
                    start_cell: start,
                    start_anchor: self.start_anchor,
                    end_cell: self.end_cell,
                    end_anchor: self.end_anchor,
                },
            ),
        }
    }
}

/// Writing out what a part of canonical text denotes gives the text back.
pub proof fn lemma_format_parsed_part(p: Seq<u8>)
    requires
        parse_part_spec(p).is_some(),
        plain_part(p),
        part_wf(parse_part_spec(p).unwrap().0, parse_part_spec(p).unwrap().1),
    ensures
        format_part(parse_part_spec(p).unwrap().0, parse_part_spec(p).unwrap().1) == p,
{
    let a0: int = if p.len() > 0 && p[0] == 0x24 {
        1
    } else {
        0
    };
    lemma_upper_run(p, a0);
    let i2 = a0 + upper_run(p, a0);
    let a1: int = if i2 < p.len() && p[i2] == 0x24 {
        1
    } else {
        0
    };
    let i3 = i2 + a1;
    lemma_digit_run(p, i3);
    let end = i3 + digit_run(p, i3);
    let letters = p.subrange(a0, i2);
    let digits = p.subrange(i3, end);
    let (cell, anchor) = parse_part_spec(p).unwrap();
    lemma_column_of_letters_value(letters);
    if digits.len() > 0 {
        lemma_decimal_of_digits_value(digits);
    }
    assert(format_part(cell, anchor) =~= p);
}

/// The two parts of a pair, written out with the colon between them, are
/// the text that they were read from.
proof fn lemma_format_parsed_pair(c: Seq<u8>, k: int)
    requires
        0 <= k < c.len(),
        c[k] == 0x3A,
        parse_part_spec(c.subrange(0, k)) matches Some(a) && part_wf(a.0, a.1),
        parse_part_spec(c.subrange(k + 1, c.len() as int)) matches Some(b) && part_wf(b.0, b.1),
        plain_part(c.subrange(0, k)),
        plain_part(c.subrange(k + 1, c.len() as int)),
    ensures
        ({
            let a = parse_part_spec(c.subrange(0, k)).unwrap();
            let b = parse_part_spec(c.subrange(k + 1, c.len() as int)).unwrap();
            format_part(a.0, a.1) + seq![0x3Au8] + format_part(b.0, b.1) == c
        }),
{
    let first = c.subrange(0, k);
    let second = c.subrange(k + 1, c.len() as int);
    lemma_format_parsed_part(first);
    lemma_format_parsed_part(second);
    assert(c =~= first + seq![0x3Au8] + second);
}

/// Reading range text and writing the result out gives the canonical form
/// of the text: the text without its whitespace and with its letters in
/// upper case. This holds of text whose digits are written without a
/// leading zero: `A01` is read as `A1` and written as `A1`.
pub proof fn lemma_format_parse_round_trip(s: Seq<u8>)
    requires
        parse_range_spec(s).is_some(),
        plain_text(s),
    ensures
        format_range(parse_range_spec(s).unwrap()) == canonicalize(s),
{
    let c = canonicalize(s);
    lemma_find_colon(c, 0);
    let k = find_colon(c, 0);
    if k >= c.len() {
        lemma_format_parsed_part(c);
    } else {
        lemma_format_parsed_pair(c, k);
    }
}

/// A range that text denotes is one that text can denote, and a range
/// that a formula can refer to is well formed.
pub proof fn lemma_parsed_range_wf(s: Seq<u8>)
    ensures
        parse_range_spec(s) matches Some(range) ==> range.ordered(),
        reference_range(s) matches Some(range) ==> range.wf(),
{
}

} // verus!
