//! Formulas as text: writing an expression out, and moving the references
//! of a formula that several cells share.

use crate::cell::CellIndex;
use crate::errors::Error;
use crate::lexer::token::{Token, TokenView};
use crate::lexer::{in_class, ByteClass};
use crate::parser::ast::{
    all_ranges_wf, expr_views, lemma_views_of_args, lemma_views_of_items, ranges_wf,
    Error as ExcelError, Expr, ExprView, Infix, Literal, LiteralView, Number, NumberView, Prefix,
};
use crate::parser::{parse_bytes, parse_outcome, parse_text_spec};
use crate::range::{format_range, offset_spec, Range};
use crate::text::{append_bytes, copy_bytes, decimal_digits, format_decimal};
use vstd::prelude::*;
use vstd::string::StringSliceAdditionalSpecFns;

verus! {

pub use crate::text::column_number_to_letter;

/// The text of a whole number.
pub open spec fn integer_text(i: i64) -> Seq<u8> {
    if i < 0 {
        seq![0x2Du8] + decimal_digits((-i) as nat)
    } else {
        decimal_digits(i as nat)
    }
}

/// The text between the quotes of a string: `"` and `\` each behind a
/// backslash.
pub open spec fn escaped(t: Seq<u8>) -> Seq<u8>
    decreases t.len(),
{
    if t.len() == 0 {
        Seq::empty()
    } else if t.last() == 0x22 || t.last() == 0x5C {
        escaped(t.drop_last()).push(0x5C).push(t.last())
    } else {
        escaped(t.drop_last()).push(t.last())
    }
}

/// How a spreadsheet error is written.
pub open spec fn error_text(kind: ExcelError) -> Seq<u8> {
    match kind {
        ExcelError::Null => "#NULL!".spec_bytes(),
        ExcelError::Div => "#DIV/0!".spec_bytes(),
        ExcelError::Value => "#VALUE!".spec_bytes(),
        ExcelError::Ref => "#REF!".spec_bytes(),
        ExcelError::Name => "#NAME!".spec_bytes(),
        ExcelError::Num => "#NUM!".spec_bytes(),
        ExcelError::NA => "#N/A".spec_bytes(),
        ExcelError::GettingData => "#GETTING_DATA".spec_bytes(),
    }
}

/// How a prefix operator is written.
pub open spec fn prefix_text(op: Prefix) -> Seq<u8> {
    match op {
        Prefix::Plus => "+".spec_bytes(),
        Prefix::Minus => "-".spec_bytes(),
    }
}

/// How an infix operator is written.
pub open spec fn infix_text(op: Infix) -> Seq<u8> {
    match op {
        Infix::Plus => "+".spec_bytes(),
        Infix::Minus => "-".spec_bytes(),
        Infix::Divide => "/".spec_bytes(),
        Infix::Multiply => "*".spec_bytes(),
        Infix::Exponent => "^".spec_bytes(),
        Infix::Ampersand => "&".spec_bytes(),
        Infix::Equal => "=".spec_bytes(),
        Infix::NotEqual => "<>".spec_bytes(),
        Infix::GreaterThanEqual => ">=".spec_bytes(),
        Infix::LessThanEqual => "<=".spec_bytes(),
        Infix::GreaterThan => ">".spec_bytes(),
        Infix::LessThan => "<".spec_bytes(),
    }
}

/// Whether a sheet name is written as it is: one that holds only bytes
/// that need no quotes, or that holds a quote or a colon and so is a span
/// of sheets as it was written.
pub open spec fn written_plain(name: Seq<u8>) -> bool {
    (exists|i: int| 0 <= i < name.len() && (#[trigger] name[i] == 0x27 || name[i] == 0x3A)) || (
    forall|i: int| 0 <= i < name.len() ==> in_class(ByteClass::SheetName, #[trigger] name[i]))
}

/// How the sheet of a reference is written: its name, between single
/// quotes where it needs them, and `!`.
pub open spec fn sheet_text(name: Seq<u8>) -> Seq<u8> {
    if written_plain(name) {
        name.push(0x21)
    } else {
        seq![0x27u8] + name + seq![0x27u8, 0x21u8]
    }
}

/// The text of an expression: numbers as they are written, text between
/// double quotes, an infix operator with its operands in parentheses, the
/// arguments of calls and the items of arrays behind `, `.
pub open spec fn format_expr(e: ExprView) -> Seq<u8>
    decreases e, 1int,
{
    match e {
        ExprView::Literal(LiteralView::Number(NumberView::Integer(i))) => integer_text(i),
        ExprView::Literal(LiteralView::Number(NumberView::Decimal(t))) => t,
        ExprView::Literal(LiteralView::Boolean(b)) => if b {
            "TRUE".spec_bytes()
        } else {
            "FALSE".spec_bytes()
        },
        ExprView::Literal(LiteralView::Text(t)) => seq![0x22u8] + escaped(t) + seq![0x22u8],
        ExprView::Prefix(op, a) => prefix_text(op) + format_expr(*a),
        ExprView::Infix(op, a, b) => seq![0x28u8] + format_expr(*a) + infix_text(op) + format_expr(
            *b,
        ) + seq![0x29u8],
        ExprView::Func { name, args } => name + seq![0x28u8] + format_items(args) + seq![0x29u8],
        ExprView::Reference { sheet, range } => match sheet {
            Some(name) => sheet_text(name) + format_range(range),
            None => format_range(range),
        },
        ExprView::Array(items) => seq![0x7Bu8] + format_items(items) + seq![0x7Du8],
        ExprView::Error(kind) => error_text(kind),
    }
}

/// The texts of expressions, each behind `, ` but the first.
pub open spec fn format_items(items: Seq<ExprView>) -> Seq<u8>
    decreases items, 0int,
{
    if items.len() == 0 {
        Seq::empty()
    } else if items.len() == 1 {
        format_expr(items[0])
    } else {
        format_items(items.drop_last()) + seq![0x2Cu8, 0x20u8] + format_expr(items.last())
    }
}

/// The expression with every reference moved by `rows` and `columns`, as
/// far as its parts are not anchored. A reference that would leave the
/// sheet becomes the error `Ref`.
pub open spec fn adjusted(e: ExprView, rows: int, columns: int) -> ExprView
    decreases e, 1int,
{
    match e {
        ExprView::Reference { sheet, range } => match offset_spec(range, rows, columns) {
            Some(moved) => ExprView::Reference { sheet, range: moved },
            None => ExprView::Error(ExcelError::Ref),
        },
        ExprView::Infix(op, a, b) => ExprView::Infix(
            op,
            Box::new(adjusted(*a, rows, columns)),
            Box::new(adjusted(*b, rows, columns)),
        ),
        ExprView::Prefix(op, a) => ExprView::Prefix(op, Box::new(adjusted(*a, rows, columns))),
        ExprView::Func { name, args } => ExprView::Func {
            name,
            args: adjusted_items(args, rows, columns),
        },
        ExprView::Array(items) => ExprView::Array(adjusted_items(items, rows, columns)),
        other => other,
    }
}

pub open spec fn adjusted_items(items: Seq<ExprView>, rows: int, columns: int) -> Seq<ExprView>
    decreases items, 0int,
{
    Seq::new(
        items.len(),
        |i: int|
            if 0 <= i < items.len() {
                adjusted(items[i], rows, columns)
            } else {
                ExprView::Error(ExcelError::Null)
            },
    )
}

fn format_integer(i: i64) -> (r: Vec<u8>)
    ensures
        r@ == integer_text(i),
{
    if i < 0 {
        let mut out: Vec<u8> = Vec::new();
        out.push(0x2D);
        let magnitude: u64 = if i == i64::MIN {
            0x8000_0000_0000_0000u64
        } else {
            (-i) as u64
        };
        let digits = format_u64(magnitude);
        append_bytes(&mut out, digits.as_slice());
        assert(out@ =~= seq![0x2Du8] + decimal_digits((-i) as nat));
        out
    } else {
        format_u64(i as u64)
    }
}

fn format_u64(n: u64) -> (r: Vec<u8>)
    ensures
        r@ == decimal_digits(n as nat),
    decreases n,
{
    if n < 10 {
        let mut out: Vec<u8> = Vec::new();
        out.push(0x30 + n as u8);
        assert(out@ =~= seq![(0x30 + n) as u8]);
        out
    } else {
        let mut out: Vec<u8> = format_u64(n / 10);
        out.push(0x30 + (n % 10) as u8);
        out
    }
}

fn escape(t: &[u8]) -> (r: Vec<u8>)
    ensures
        r@ == escaped(t@),
{
    let mut out: Vec<u8> = Vec::new();
    let mut i: usize = 0;
    while i < t.len()
        invariant
            i <= t.len(),
            out@ == escaped(t@.take(i as int)),
        decreases t.len() - i,
    {
        assert(t@.take(i + 1).drop_last() =~= t@.take(i as int));
        if t[i] == 0x22 || t[i] == 0x5C {
            out.push(0x5C);
        }
        out.push(t[i]);
        i = i + 1;
    }
    assert(t@.take(t.len() as int) =~= t@);
    out
}

fn format_sheet(name: &[u8]) -> (r: Vec<u8>)
    ensures
        r@ == sheet_text(name@),
{
    let mut marked: bool = false;
    let mut bare: bool = true;
    let mut i: usize = 0;
    while i < name.len()
        invariant
            i <= name.len(),
            marked == exists|k: int|
                0 <= k < i && (#[trigger] name@[k] == 0x27 || name@[k] == 0x3A),
            bare == forall|k: int|
                0 <= k < i ==> in_class(ByteClass::SheetName, #[trigger] name@[k]),
        decreases name.len() - i,
    {
        let b: u8 = name[i];
        if b == 0x27 || b == 0x3A {
            marked = true;
        }
        let digit: bool = 0x30 <= b && b <= 0x39;
        let alpha: bool = (0x41 <= b && b <= 0x5A) || (0x61 <= b && b <= 0x7A);
        let punct: bool = b == '`' as u8 || b == '~' as u8 || b == '@' as u8 || b == '#' as u8
            || b == '$' as u8 || b == '%' as u8 || b == '^' as u8 || b == '_' as u8 || b
            == '{' as u8 || b == '}' as u8 || b == '|' as u8 || b == ';' as u8 || b == '.' as u8;
        if !(digit || alpha || punct) {
            bare = false;
        }
        i = i + 1;
    }
    let mut out: Vec<u8> = Vec::new();
    if marked || bare {
        append_bytes(&mut out, name);
        out.push(0x21);
        assert(out@ =~= name@.push(0x21));
    } else {
        out.push(0x27);
        append_bytes(&mut out, name);
        out.push(0x27);
        out.push(0x21);
        assert(out@ =~= seq![0x27u8] + name@ + seq![0x27u8, 0x21u8]);
    }
    out
}

fn error_bytes(kind: ExcelError) -> (r: &'static str)
    ensures
        r.spec_bytes() == error_text(kind),
{
    match kind {
        ExcelError::Null => "#NULL!",
        ExcelError::Div => "#DIV/0!",
        ExcelError::Value => "#VALUE!",
        ExcelError::Ref => "#REF!",
        ExcelError::Name => "#NAME!",
        ExcelError::Num => "#NUM!",
        ExcelError::NA => "#N/A",
        ExcelError::GettingData => "#GETTING_DATA",
    }
}

fn infix_bytes(op: Infix) -> (r: &'static str)
    ensures
        r.spec_bytes() == infix_text(op),
{
    match op {
        Infix::Plus => "+",
        Infix::Minus => "-",
        Infix::Divide => "/",
        Infix::Multiply => "*",
        Infix::Exponent => "^",
        Infix::Ampersand => "&",
        Infix::Equal => "=",
        Infix::NotEqual => "<>",
        Infix::GreaterThanEqual => ">=",
        Infix::LessThanEqual => "<=",
        Infix::GreaterThan => ">",
        Infix::LessThan => "<",
    }
}

fn format_all(items: &Vec<Expr>) -> (r: Vec<u8>)
    ensures
        r@ == format_items(expr_views(items@)),
    decreases items, 0int,
{
    let ghost views = expr_views(items@);
    let mut out: Vec<u8> = Vec::new();
    let mut i: usize = 0;
    assert(views.take(0) =~= Seq::<ExprView>::empty());
    while i < items.len()
        invariant
            i <= items.len(),
            views == expr_views(items@),
            out@ == format_items(views.take(i as int)),
        decreases items.len() - i,
    {
        let ghost next = views.take(i + 1);
        assert(next.drop_last() =~= views.take(i as int));
        assert(next.last() == items@[i as int]@);
        assert(next[0] == views[0]);
        if i > 0 {
            out.push(0x2C);
            out.push(0x20);
        }
        let item = exprs_string(&items[i]);
        let ghost before = out@;
        append_bytes(&mut out, item.as_slice());
        proof {
            if i == 0 {
                assert(out@ =~= format_expr(next[0]));
            } else {
                assert(out@ =~= format_items(views.take(i as int)) + seq![0x2Cu8, 0x20u8]
                    + format_expr(next.last()));
            }
        }
        i = i + 1;
    }
    assert(views.take(items.len() as int) =~= views);
    out
}

/// The text of an expression.
pub fn exprs_string(expr: &Expr) -> (r: Vec<u8>)
    ensures
        r@ == format_expr(expr@),
    decreases expr, 1int,
{
    match expr {
        Expr::Literal(Literal::Number(Number::Integer(i))) => format_integer(*i),
        Expr::Literal(Literal::Number(Number::Decimal(t))) => copy_bytes(t.as_slice()),
        Expr::Literal(Literal::Boolean(b)) => {
            if *b {
                copy_bytes("TRUE".as_bytes())
            } else {
                copy_bytes("FALSE".as_bytes())
            }
        },
        Expr::Literal(Literal::Text(t)) => {
            let mut out: Vec<u8> = Vec::new();
            out.push(0x22);
            let inner = escape(t.as_slice());
            append_bytes(&mut out, inner.as_slice());
            out.push(0x22);
            assert(out@ =~= seq![0x22u8] + escaped(t@) + seq![0x22u8]);
            out
        },
        Expr::Prefix(op, a) => {
            let mut out: Vec<u8> = match op {
                Prefix::Plus => copy_bytes("+".as_bytes()),
                Prefix::Minus => copy_bytes("-".as_bytes()),
            };
            let inner = exprs_string(a);
            append_bytes(&mut out, inner.as_slice());
            out
        },
        Expr::Infix(op, a, b) => {
            let mut out: Vec<u8> = Vec::new();
            out.push(0x28);
            let left = exprs_string(a);
            append_bytes(&mut out, left.as_slice());
            append_bytes(&mut out, infix_bytes(*op).as_bytes());
            let right = exprs_string(b);
            append_bytes(&mut out, right.as_slice());
            out.push(0x29);
            assert(out@ =~= seq![0x28u8] + format_expr(a@) + infix_text(*op) + format_expr(b@)
                + seq![0x29u8]);
            out
        },
        Expr::Func { name, args } => {
            proof {
                lemma_views_of_args(*name, *args);
            }
            let mut out: Vec<u8> = copy_bytes(name.as_slice());
            out.push(0x28);
            let inner = format_all(args);
            append_bytes(&mut out, inner.as_slice());
            out.push(0x29);
            assert(out@ =~= name@ + seq![0x28u8] + format_items(expr_views(args@)) + seq![
                0x29u8,
            ]);
            out
        },
        Expr::Reference { sheet, range } => {
            let mut out: Vec<u8> = match sheet {
                Some(name) => format_sheet(name.as_slice()),
                None => Vec::new(),
            };
            let tail = range.format();
            append_bytes(&mut out, tail.as_slice());
            assert(sheet.is_none() ==> out@ =~= format_range(*range));
            out
        },
        Expr::Array(items) => {
            proof {
                lemma_views_of_items(*items);
            }
            let mut out: Vec<u8> = Vec::new();
            out.push(0x7B);
            let inner = format_all(items);
            append_bytes(&mut out, inner.as_slice());
            out.push(0x7D);
            assert(out@ =~= seq![0x7Bu8] + format_items(expr_views(items@)) + seq![0x7Du8]);
            out
        },
        Expr::Error(kind) => copy_bytes(error_bytes(*kind).as_bytes()),
    }
}

fn adjust_all(row_offset: i128, column_offset: i128, items: &Vec<Expr>) -> (r: Vec<Expr>)
    requires
        all_ranges_wf(expr_views(items@)),
    ensures
        expr_views(r@) == adjusted_items(
            expr_views(items@),
            row_offset as int,
            column_offset as int,
        ),
    decreases items, 0int,
{
    let mut out: Vec<Expr> = Vec::new();
    let mut i: usize = 0;
    while i < items.len()
        invariant
            i <= items.len(),
            out@.len() == i,
            all_ranges_wf(expr_views(items@)),
            forall|k: int|
                0 <= k < i ==> (#[trigger] out@[k])@ == adjusted(
                    items@[k]@,
                    row_offset as int,
                    column_offset as int,
                ),
        decreases items.len() - i,
    {
        assert(ranges_wf(expr_views(items@)[i as int]));
        out.push(adjust_expression(row_offset, column_offset, &items[i]));
        i = i + 1;
    }
    assert(expr_views(out@) =~= adjusted_items(
        expr_views(items@),
        row_offset as int,
        column_offset as int,
    ));
    out
}

/// The expression with every reference moved by `row_offset` and
/// `column_offset`, as far as its parts are not anchored. A reference
/// that would leave the sheet becomes the error `Ref`.
pub fn adjust_expression(row_offset: i128, column_offset: i128, expression: &Expr) -> (r: Expr)
    requires
        ranges_wf(expression@),
    ensures
        r@ == adjusted(expression@, row_offset as int, column_offset as int),
    decreases expression, 1int,
{
    match expression {
        Expr::Reference { sheet, range } => match range.offset_by(row_offset, column_offset) {
            Ok(moved) => {
                let name: Option<Vec<u8>> = match sheet {
                    Some(s) => Some(copy_bytes(s.as_slice())),
                    None => None,
                };
                Expr::Reference { sheet: name, range: moved }
            },
            Err(_) => Expr::Error(ExcelError::Ref),
        },
        Expr::Infix(op, a, b) => Expr::Infix(
            *op,
            Box::new(adjust_expression(row_offset, column_offset, a)),
            Box::new(adjust_expression(row_offset, column_offset, b)),
        ),
        Expr::Prefix(op, a) => Expr::Prefix(
            *op,
            Box::new(adjust_expression(row_offset, column_offset, a)),
        ),
        Expr::Func { name, args } => {
            proof {
                lemma_views_of_args(*name, *args);
                reveal_with_fuel(ranges_wf, 2);
            }
            let moved = adjust_all(row_offset, column_offset, args);
            let name = copy_bytes(name.as_slice());
            proof {
                lemma_views_of_args(name, moved);
            }
            Expr::Func { name, args: moved }
        },
        Expr::Array(items) => {
            proof {
                lemma_views_of_items(*items);
                reveal_with_fuel(ranges_wf, 2);
            }
            let moved = adjust_all(row_offset, column_offset, items);
            proof {
                lemma_views_of_items(moved);
            }
            Expr::Array(moved)
        },
        other => other.duplicate(),
    }
}

/// The formula of a cell that shares the formula of the cell
/// `base_reference`: the text of that formula with every reference moved
/// by as much as `current_reference` lies from `base_reference`, anchored
/// parts staying. Text that is no formula gives the error of the parser.
pub fn adjust_formula(
    base_reference: CellIndex,
    current_reference: CellIndex,
    formula_text: &[u8],
) -> (r: Result<Vec<u8>, Error>)
    ensures
        match r {
            Ok(text) => parse_text_spec(formula_text@) matches Some(e) && text@ == format_expr(
                adjusted(
                    e,
                    current_reference.row - base_reference.row,
                    current_reference.column - base_reference.column,
                ),
            ),
            Err(e) => parse_outcome(formula_text@, Err::<Expr, Error>(e)),
        },
{
    let row_offset: i128 = current_reference.row as i128 - base_reference.row as i128;
    let column_offset: i128 = current_reference.column as i128 - base_reference.column as i128;
    match parse_bytes(formula_text) {
        Ok(expression) => {
            let moved = adjust_expression(row_offset, column_offset, &expression);
            Ok(exprs_string(&moved))
        },
        Err(e) => Err(e),
    }
}

/// The text of a formula cell as a workbook file holds it, made the value
/// of the cell: `=`, and the text without the prefix `_xlfn.` wherever it
/// stands.
pub open spec fn without_prefix(t: Seq<u8>, from: int) -> Seq<u8>
    decreases t.len() - from,
{
    if from < 0 || from >= t.len() {
        Seq::empty()
    } else if crate::lexer::tag_at(t, from, "_xlfn.") && "_xlfn.".spec_bytes().len() > 0 {
        without_prefix(t, from + "_xlfn.".spec_bytes().len())
    } else {
        seq![t[from]] + without_prefix(t, from + 1)
    }
}

/// The raw value of a formula cell: `=` and the text, without the prefix
/// `_xlfn.` wherever it stands.
pub fn formula_value(text: &[u8]) -> (r: Vec<u8>)
    ensures
        r@ == seq![0x3Du8] + without_prefix(text@, 0),
{
    let tag = "_xlfn.".as_bytes();
    let mut out: Vec<u8> = Vec::new();
    out.push(0x3D);
    let mut i: usize = 0;
    while i < text.len()
        invariant
            i <= text.len(),
            tag@ == "_xlfn.".spec_bytes(),
            seq![0x3Du8] + without_prefix(text@, 0) == out@ + without_prefix(text@, i as int),
        decreases text.len() - i,
    {
        if tag.len() > 0 && crate::lexer::has_tag(text, i, "_xlfn.") {
            i = i + tag.len();
        } else {
            let ghost before = out@;
            out.push(text[i]);
            assert(before + (seq![text@[i as int]] + without_prefix(text@, i + 1)) =~= out@
                + without_prefix(text@, i + 1));
            i = i + 1;
        }
    }
    assert(out@ + Seq::<u8>::empty() =~= out@);
    out
}

/// How a token is written: a literal as its text, a named error and a
/// symbol as in a formula; the end of the input as nothing.
pub open spec fn token_text(t: TokenView) -> Seq<u8> {
    match t {
        TokenView::Integer(i) => integer_text(i),
        TokenView::Float(text) => text,
        TokenView::Boolean(b) => if b {
            "TRUE".spec_bytes()
        } else {
            "FALSE".spec_bytes()
        },
        TokenView::Text(text) => text,
        TokenView::Null => error_text(ExcelError::Null),
        TokenView::Div => error_text(ExcelError::Div),
        TokenView::Value => error_text(ExcelError::Value),
        TokenView::Ref => error_text(ExcelError::Ref),
        TokenView::Name => error_text(ExcelError::Name),
        TokenView::Num => error_text(ExcelError::Num),
        TokenView::NA => error_text(ExcelError::NA),
        TokenView::GettingData => error_text(ExcelError::GettingData),
        TokenView::MultiSheet(text) => text,
        TokenView::Sheet(text) => text,
        TokenView::Range(text) => text,
        TokenView::Cell(text) => text,
        TokenView::VRange(text) => text,
        TokenView::HRange(text) => text,
        TokenView::Plus => "+".spec_bytes(),
        TokenView::Minus => "-".spec_bytes(),
        TokenView::Divide => "/".spec_bytes(),
        TokenView::Multiply => "*".spec_bytes(),
        TokenView::Exponent => "^".spec_bytes(),
        TokenView::Ampersand => "&".spec_bytes(),
        TokenView::Equal => "=".spec_bytes(),
        TokenView::Exclamation => "!".spec_bytes(),
        TokenView::Comma => ",".spec_bytes(),
        TokenView::Period => ".".spec_bytes(),
        TokenView::Colon => ":".spec_bytes(),
        TokenView::SemiColon => ";".spec_bytes(),
        TokenView::LAngle => "<".spec_bytes(),
        TokenView::RAngle => ">".spec_bytes(),
        TokenView::LParen => "(".spec_bytes(),
        TokenView::RParen => ")".spec_bytes(),
        TokenView::LBrace => "{".spec_bytes(),
        TokenView::RBrace => "}".spec_bytes(),
        TokenView::LBracket => "[".spec_bytes(),
        TokenView::RBracket => "]".spec_bytes(),
        TokenView::Ident(text) => text,
        TokenView::EOF => Seq::empty(),
    }
}

fn symbol_bytes(token: &Token) -> (r: &'static str)
    requires
        !(token@ is Integer || token@ is Float || token@ is Boolean || token@ is Text || token@
            is MultiSheet || token@ is Sheet || token@ is Range || token@ is Cell || token@
            is VRange || token@ is HRange || token@ is Ident || token@ is EOF),
    ensures
        r.spec_bytes() == token_text(token@),
{
    match token {
        Token::Null => "#NULL!",
        Token::Div => "#DIV/0!",
        Token::Value => "#VALUE!",
        Token::Ref => "#REF!",
        Token::Name => "#NAME!",
        Token::Num => "#NUM!",
        Token::NA => "#N/A",
        Token::GettingData => "#GETTING_DATA",
        Token::Plus => "+",
        Token::Minus => "-",
        Token::Divide => "/",
        Token::Multiply => "*",
        Token::Exponent => "^",
        Token::Ampersand => "&",
        Token::Equal => "=",
        Token::Exclamation => "!",
        Token::Comma => ",",
        Token::Period => ".",
        Token::Colon => ":",
        Token::SemiColon => ";",
        Token::LAngle => "<",
        Token::RAngle => ">",
        Token::LParen => "(",
        Token::RParen => ")",
        Token::LBrace => "{",
        Token::RBrace => "}",
        Token::LBracket => "[",
        _ => "]",
    }
}

/// A token as it is written.
pub fn token_string(token: &Token) -> (r: Vec<u8>)
    ensures
        r@ == token_text(token@),
{
    match token {
        Token::Integer(i) => format_integer(*i),
        Token::Boolean(b) => if *b {
            copy_bytes("TRUE".as_bytes())
        } else {
            copy_bytes("FALSE".as_bytes())
        },
        Token::Float(text) | Token::Text(text) | Token::MultiSheet(text) | Token::Sheet(text)
        | Token::Range(text) | Token::Cell(text) | Token::VRange(text) | Token::HRange(text)
        | Token::Ident(text) => copy_bytes(text.as_slice()),
        Token::EOF => Vec::new(),
        _ => copy_bytes(symbol_bytes(token).as_bytes()),
    }
}

} // verus!
