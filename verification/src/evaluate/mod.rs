//! Evaluation of formulas: from the syntax tree to a value, with or
//! without a workbook to resolve references in.

pub mod kernel;
pub mod value;

use crate::errors::Error;
use crate::evaluate::kernel::{
    arith_model, library_model, number_model, option_value_view, truncate_model, Kernel,
};
use crate::evaluate::value::{
    lemma_view_of_array, lemma_view_of_array2, single_of, text_of, value_order, value_views,
    Array2, Date, Double, Order, Value, ValueView, MINUS_ONE_BITS, ONE_BITS, ZERO_BITS,
};
use crate::parser::ast::{
    all_ranges_wf, expr_views, lemma_views_of_args, lemma_views_of_items, ranges_wf,
    Error as ExcelError, Expr, ExprView, Infix, Literal, LiteralView, Number, NumberView, Prefix,
};
use crate::parser::{parse_outcome, parse_str, parse_text_spec};
use crate::evaluate::value::opt_text_view;
use crate::range::{displaced, Range};
use crate::text::{append_bytes, bytes_eq, copy_bytes};
use crate::workbook::Book;
use crate::calendar::{days_after, shifted};
use vstd::prelude::*;
use vstd::string::StringSliceAdditionalSpecFns;

verus! {

/// The date `days` days after `d`; `Num` where the calendar has no such
/// date.
pub open spec fn date_shift(d: Date, days: int) -> ValueView {
    match shifted(d.days, days) {
        Some(moved) => ValueView::Date(moved),
        None => ValueView::Error(ExcelError::Num),
    }
}

/// The text of `a` followed by the text of `b`; the error of the first of
/// them that is no text.
pub open spec fn concat_spec(a: ValueView, b: ValueView) -> ValueView {
    match (text_of(a), text_of(b)) {
        (Ok(x), Ok(y)) => ValueView::Text(x + y),
        (Err(e), _) => ValueView::Error(e),
        (_, Err(e)) => ValueView::Error(e),
    }
}

/// `&`: concatenation, item by item where one side is an array.
pub open spec fn ampersand_spec(a: ValueView, b: ValueView) -> ValueView {
    match (a, b) {
        (ValueView::Array(items), _) => ValueView::Array(
            Seq::new(items.len(), |i: int| concat_spec(items[i], b)),
        ),
        (_, ValueView::Array(items)) => ValueView::Array(
            Seq::new(items.len(), |i: int| concat_spec(a, items[i])),
        ),
        _ => concat_spec(a, b),
    }
}

/// Whether two values without an order are the same: two empty values,
/// or two formulas of the same text.
pub open spec fn same_scalar(x: ValueView, y: ValueView) -> bool {
    match (x, y) {
        (ValueView::Empty, ValueView::Empty) => true,
        (ValueView::Formula(s), ValueView::Formula(t)) => s == t,
        _ => false,
    }
}

/// Whether the comparison `op` holds of two single values.
pub open spec fn holds(op: Infix, x: ValueView, y: ValueView) -> bool {
    let order = value_order(x, y);
    let equal = match order {
        Some(o) => o == Order::Equal,
        None => same_scalar(x, y),
    };
    match op {
        Infix::Equal => equal,
        Infix::NotEqual => !equal,
        Infix::LessThan => order == Some(Order::Less),
        Infix::LessThanEqual => order == Some(Order::Less) || order == Some(Order::Equal),
        Infix::GreaterThan => order == Some(Order::Greater),
        Infix::GreaterThanEqual => order == Some(Order::Greater) || order == Some(Order::Equal),
        _ => false,
    }
}

/// A comparison: of the single values that stand for `a` and `b`; an
/// error where one of them is an error.
pub open spec fn compare_spec(op: Infix, a: ValueView, b: ValueView) -> ValueView {
    let x = single_of(a);
    let y = single_of(b);
    if x is Error {
        x
    } else if y is Error {
        y
    } else {
        ValueView::Bool(holds(op, x, y))
    }
}

pub open spec fn is_comparison(op: Infix) -> bool {
    op == Infix::Equal || op == Infix::NotEqual || op == Infix::LessThan || op
        == Infix::LessThanEqual || op == Infix::GreaterThan || op == Infix::GreaterThanEqual
}

/// A reference kept as a reference gives what it resolved to, and `Ref`
/// if it has not been resolved; any other value is itself.
pub open spec fn unwrap_range(v: ValueView) -> ValueView {
    match v {
        ValueView::Range { sheet, range, value } => match value {
            Some(inner) => *inner,
            None => ValueView::Error(ExcelError::Ref),
        },
        other => other,
    }
}

/// The error of the first of `vals` that is an error.
pub open spec fn first_error(vals: Seq<ValueView>) -> Option<ExcelError>
    decreases vals.len(),
{
    if vals.len() == 0 {
        None
    } else {
        match first_error(vals.drop_last()) {
            Some(e) => Some(e),
            None => match vals.last() {
                ValueView::Error(e) => Some(e),
                _ => None,
            },
        }
    }
}

/// What a reference evaluates to: without a workbook `Ref`; with one, of
/// a single cell what the cell shows, of more cells the reference itself
/// with the rectangle of what they show.
pub open spec fn reference_spec(book: Option<Book>, sheet: Option<Seq<u8>>, range: Range) -> ValueView {
    match book {
        None => ValueView::Error(ExcelError::Ref),
        Some(b) => match b.resolve_spec(sheet, range) {
            Err(e) => ValueView::Error(e),
            Ok(grid) => if range.spec_is_multi_cell() {
                ValueView::Range { sheet, range, value: Some(Box::new(grid)) }
            } else {
                single_of(grid)
            },
        },
    }
}

/// The workbook that an evaluation runs in, if it runs in one.
pub open spec fn opt_book(book: Option<&Book>) -> Option<Book> {
    match book {
        Some(b) => Some(*b),
        None => None,
    }
}

/// The value that an evaluation ended with, or the reference that it has
/// come to point to without being able to read it.
pub open spec fn outcome(r: Result<Value, Error>) -> Result<ValueView, ExprView> {
    match r {
        Ok(v) => Ok(v@),
        Err(Error::Volatile(e)) => Err(e@),
        Err(_) => Err(ExprView::Error(ExcelError::Null)),
    }
}

impl<FN, FA, FT, FL> Kernel<FN, FA, FT, FL> where
    FN: Fn(&Number) -> Option<Double>,
    FA: Fn(Infix, Double, Double) -> Double,
    FT: Fn(Double) -> i64,
    FL: Fn(&Vec<u8>, Vec<Value>) -> Option<Value>,
 {
    /// What a value is as a number: a number itself, a boolean one or
    /// zero, text the number that it spells, an empty value zero, an array
    /// what its first item is. An error stays that error; anything else
    /// fails with `Value`.
    pub open spec fn num_of(&self, v: ValueView) -> Result<Double, ExcelError>
        decreases v,
    {
        match v {
            ValueView::Num(n) => Ok(n),
            ValueView::Bool(b) => Ok(
                Double {
                    bits: if b {
                        ONE_BITS
                    } else {
                        ZERO_BITS
                    },
                },
            ),
            ValueView::Text(t) => match number_model(self.number, NumberView::Decimal(t)) {
                Some(d) => Ok(d),
                None => Err(ExcelError::Value),
            },
            ValueView::Empty => Ok(Double { bits: ZERO_BITS }),
            ValueView::Array(items) => if items.len() > 0 {
                self.num_of(items[0])
            } else {
                Err(ExcelError::Value)
            },
            ValueView::Array2 { rows, columns, cells } => if cells.len() > 0 {
                self.num_of(cells[0])
            } else {
                Err(ExcelError::Value)
            },
            ValueView::Error(e) => Err(e),
            _ => Err(ExcelError::Value),
        }
    }

    /// The whole number `n` as a value.
    pub open spec fn number_value(&self, n: i64) -> ValueView {
        match number_model(self.number, NumberView::Integer(n)) {
            Some(d) => ValueView::Num(d),
            None => ValueView::Error(ExcelError::Value),
        }
    }

    /// `+`, `-`, `*`, `/` and `^` on the single values that stand for `a`
    /// and `b`. Text plus text is their concatenation; a date plus or
    /// minus a number is the date so many days later or earlier; a date
    /// minus a date is the number of days between them. Anything else is
    /// taken as numbers; division by zero gives `Div`.
    pub open spec fn arith_spec(&self, op: Infix, a: ValueView, b: ValueView) -> ValueView {
        let x = single_of(a);
        let y = single_of(b);
        match (op, x, y) {
            (Infix::Plus, ValueView::Text(_), _) => concat_spec(x, y),
            (Infix::Plus, ValueView::Date(d), _) => match self.num_of(y) {
                Ok(n) => date_shift(d, truncate_model(self.truncate, n) as int),
                Err(e) => ValueView::Error(e),
            },
            (Infix::Minus, ValueView::Date(d), ValueView::Date(other)) => self.number_value(
                (d.days - other.days) as i64,
            ),
            (Infix::Minus, ValueView::Date(d), _) => match self.num_of(y) {
                Ok(n) => date_shift(d, -(truncate_model(self.truncate, n) as int)),
                Err(e) => ValueView::Error(e),
            },
            _ => match (self.num_of(x), self.num_of(y)) {
                (Ok(p), Ok(q)) => if op == Infix::Divide && q.spec_is_zero() {
                    ValueView::Error(ExcelError::Div)
                } else {
                    ValueView::Num(arith_model(self.arith, op, p, q))
                },
                (Err(e), _) => ValueView::Error(e),
                (_, Err(e)) => ValueView::Error(e),
            },
        }
    }

    /// An infix operator on two values. An error on the left is the
    /// result, else an error on the right.
    pub open spec fn infix_spec(&self, op: Infix, a: ValueView, b: ValueView) -> ValueView {
        if a is Error {
            a
        } else if b is Error {
            b
        } else if op == Infix::Ampersand {
            ampersand_spec(a, b)
        } else if is_comparison(op) {
            compare_spec(op, a, b)
        } else {
            self.arith_spec(op, a, b)
        }
    }

    /// A prefix operator on a value taken as a number: `+` gives the
    /// number without its sign, `-` the number times minus one.
    pub open spec fn prefix_spec(&self, op: Prefix, x: ValueView) -> ValueView {
        match self.num_of(x) {
            Err(e) => ValueView::Error(e),
            Ok(n) => match op {
                Prefix::Plus => ValueView::Num(Double { bits: n.bits & 0x7FFF_FFFF_FFFF_FFFFu64 }),
                Prefix::Minus => ValueView::Num(
                    arith_model(self.arith, Infix::Multiply, n, Double { bits: MINUS_ONE_BITS }),
                ),
            },
        }
    }

    /// A function call on evaluated arguments. `IFERROR` gives its second
    /// argument where the first is an error, else the first. Any other
    /// function gets references as what they resolved to (`INDEX` as
    /// references), gives the first error among its arguments if there is
    /// one, and else what the function gives: one that the evaluator
    /// knows by itself, or else one of the library; `Name` where the
    /// library does not have it either.
    pub open spec fn call_spec(&self, name: Seq<u8>, vals: Seq<ValueView>) -> ValueView {
        if name == "IFERROR".spec_bytes() {
            if vals.len() >= 2 {
                if vals[0] is Error {
                    vals[1]
                } else {
                    vals[0]
                }
            } else {
                ValueView::Error(ExcelError::Value)
            }
        } else {
            let given = if name == "INDEX".spec_bytes() {
                vals
            } else {
                Seq::new(vals.len(), |i: int| unwrap_range(vals[i]))
            };
            match first_error(given) {
                Some(e) => ValueView::Error(e),
                None => match self.builtin_spec(name, given) {
                    Some(v) => v,
                    None => match library_model(self.library, name, given) {
                        Some(v) => v,
                        None => ValueView::Error(ExcelError::Name),
                    },
                },
            }
        }
    }

    /// `OFFSET(reference, rows, columns)` in a workbook: the reference
    /// moved by so many rows and columns. Where a cell that it then
    /// points to is not calculated, the result is not a value but the
    /// moved reference itself.
    pub open spec fn offset_spec(&self, book: Book, args: Seq<ExprView>) -> Result<
        ValueView,
        ExprView,
    >
        decreases args, 0int,
    {
        if args.len() != 3 {
            Ok(ValueView::Error(ExcelError::Value))
        } else {
            match args[0] {
                ExprView::Reference { sheet, range } => match self.eval_spec(Some(book), args[1]) {
                    Err(pending) => Err(pending),
                    Ok(rows) => match self.eval_spec(Some(book), args[2]) {
                        Err(pending) => Err(pending),
                        Ok(columns) => match (self.num_of(rows), self.num_of(columns)) {
                            (Ok(r), Ok(c)) => match displaced(
                                range,
                                truncate_model(self.truncate, r) as int,
                                truncate_model(self.truncate, c) as int,
                            ) {
                                Some(moved) => if book.target_of(sheet).is_some()
                                    && !book.calculated_spec(sheet, moved) {
                                    Err(ExprView::Reference { sheet, range: moved })
                                } else {
                                    Ok(reference_spec(Some(book), sheet, moved))
                                },
                                None => Ok(ValueView::Error(ExcelError::Ref)),
                            },
                            (Err(e), _) => Ok(ValueView::Error(e)),
                            (_, Err(e)) => Ok(ValueView::Error(e)),
                        },
                    },
                },
                _ => Ok(ValueView::Error(ExcelError::Value)),
            }
        }
    }

    /// What the expressions evaluate to, from left to right.
    pub open spec fn eval_all_spec(&self, book: Option<Book>, items: Seq<ExprView>) -> Result<
        Seq<ValueView>,
        ExprView,
    >
        decreases items, 1int,
    {
        if items.len() == 0 {
            Ok(Seq::empty())
        } else {
            match self.eval_all_spec(book, items.drop_last()) {
                Err(pending) => Err(pending),
                Ok(vals) => match self.eval_spec(book, items.last()) {
                    Err(pending) => Err(pending),
                    Ok(v) => Ok(vals.push(v)),
                },
            }
        }
    }

    /// What an expression evaluates to.
    pub open spec fn eval_spec(&self, book: Option<Book>, e: ExprView) -> Result<
        ValueView,
        ExprView,
    >
        decreases e, 2int,
    {
        match e {
            ExprView::Literal(LiteralView::Number(n)) => Ok(
                match number_model(self.number, n) {
                    Some(d) => ValueView::Num(
                        if d.spec_is_nan() {
                            Double { bits: ZERO_BITS }
                        } else {
                            d
                        },
                    ),
                    None => ValueView::Error(ExcelError::Value),
                },
            ),
            ExprView::Literal(LiteralView::Boolean(b)) => Ok(ValueView::Bool(b)),
            ExprView::Literal(LiteralView::Text(t)) => Ok(ValueView::Text(t)),
            ExprView::Error(kind) => Ok(ValueView::Error(kind)),
            ExprView::Reference { sheet, range } => Ok(reference_spec(book, sheet, range)),
            ExprView::Prefix(op, a) => match self.eval_spec(book, *a) {
                Err(pending) => Err(pending),
                Ok(x) => Ok(self.prefix_spec(op, x)),
            },
            ExprView::Infix(op, a, b) => match self.eval_spec(book, *a) {
                Err(pending) => Err(pending),
                Ok(x) => match self.eval_spec(book, *b) {
                    Err(pending) => Err(pending),
                    Ok(y) => Ok(self.infix_spec(op, x, y)),
                },
            },
            ExprView::Func { name, args } => if book.is_some() && name == "OFFSET".spec_bytes() {
                self.offset_spec(book.unwrap(), args)
            } else {
                match self.eval_all_spec(book, args) {
                    Err(pending) => Err(pending),
                    Ok(vals) => Ok(self.call_spec(name, vals)),
                }
            },
            ExprView::Array(items) => match self.eval_all_spec(book, items) {
                Err(pending) => Err(pending),
                Ok(vals) => Ok(ValueView::Array(vals)),
            },
        }
    }
}

fn shift_date(d: Date, days: i64, forward: bool) -> (r: Value)
    ensures
        r@ == date_shift(
            d,
            if forward {
                days as int
            } else {
                -(days as int)
            },
        ),
{
    if !forward && days == -0x8000_0000_0000_0000i64 {
        return Value::Error(ExcelError::Num);
    }
    let by: i64 = if forward {
        days
    } else {
        -days
    };
    match days_after(d, by) {
        Some(moved) => Value::Date(moved),
        None => Value::Error(ExcelError::Num),
    }
}

/// The text of `a` followed by the text of `b`.
pub fn concat(a: &Value, b: &Value) -> (r: Value)
    ensures
        r@ == concat_spec(a@, b@),
{
    match a.as_text() {
        Ok(x) => match b.as_text() {
            Ok(y) => {
                let mut joined = x;
                append_bytes(&mut joined, y.as_slice());
                Value::Text(joined)
            },
            Err(e) => Value::Error(e),
        },
        Err(e) => Value::Error(e),
    }
}

/// `&`: concatenation, item by item where one side is an array.
pub fn ampersand(a: &Value, b: &Value) -> (r: Value)
    ensures
        r@ == ampersand_spec(a@, b@),
{
    match a {
        Value::Array(items) => {
            let mut out: Vec<Value> = Vec::new();
            let mut i: usize = 0;
            while i < items.len()
                invariant
                    i <= items.len(),
                    out@.len() == i,
                    forall|j: int| 0 <= j < i ==> (#[trigger] out@[j])@ == concat_spec(items@[j]@, b@),
                decreases items.len() - i,
            {
                out.push(concat(&items[i], b));
                i = i + 1;
            }
            proof {
                lemma_view_of_array(*items);
                lemma_view_of_array(out);
                assert(value_views(out@) =~= Seq::new(
                    items@.len(),
                    |i: int| concat_spec(value_views(items@)[i], b@),
                ));
            }
            Value::Array(out)
        },
        _ => match b {
            Value::Array(items) => {
                let mut out: Vec<Value> = Vec::new();
                let mut i: usize = 0;
                while i < items.len()
                    invariant
                        i <= items.len(),
                        out@.len() == i,
                        forall|j: int|
                            0 <= j < i ==> (#[trigger] out@[j])@ == concat_spec(a@, items@[j]@),
                    decreases items.len() - i,
                {
                    out.push(concat(a, &items[i]));
                    i = i + 1;
                }
                proof {
                    lemma_view_of_array(*items);
                    lemma_view_of_array(out);
                    assert(value_views(out@) =~= Seq::new(
                        items@.len(),
                        |i: int| concat_spec(a@, value_views(items@)[i]),
                    ));
                }
                Value::Array(out)
            },
            _ => concat(a, b),
        },
    }
}

/// A comparison of the single values that stand for `a` and `b`.
pub fn compare_values(op: Infix, a: &Value, b: &Value) -> (r: Value)
    ensures
        r@ == compare_spec(op, a@, b@),
{
    let x = a.ensure_single();
    let y = b.ensure_single();
    if x.is_err() {
        return x;
    }
    if y.is_err() {
        return y;
    }
    let order = x.compare(&y);
    let equal: bool = match order {
        Some(Order::Equal) => true,
        Some(_) => false,
        None => match (&x, &y) {
            (Value::Empty, Value::Empty) => true,
            (Value::Formula(s), Value::Formula(t)) => bytes_eq(s.as_slice(), t.as_slice()),
            _ => false,
        },
    };
    let less: bool = match order {
        Some(Order::Less) => true,
        _ => false,
    };
    let greater: bool = match order {
        Some(Order::Greater) => true,
        _ => false,
    };
    let ordered_equal: bool = match order {
        Some(Order::Equal) => true,
        _ => false,
    };
    let result: bool = match op {
        Infix::Equal => equal,
        Infix::NotEqual => !equal,
        Infix::LessThan => less,
        Infix::LessThanEqual => less || ordered_equal,
        Infix::GreaterThan => greater,
        Infix::GreaterThanEqual => greater || ordered_equal,
        _ => false,
    };
    Value::Bool(result)
}

/// A reference kept as a reference gives what it resolved to; any other
/// value is itself.
pub fn ensure_non_range(v: Value) -> (r: Value)
    ensures
        r@ == unwrap_range(v@),
{
    match v {
        Value::Range { sheet, range, value } => match value {
            Some(inner) => *inner,
            None => Value::Error(ExcelError::Ref),
        },
        other => other,
    }
}

fn find_error(vals: &Vec<Value>) -> (r: Option<ExcelError>)
    ensures
        r == first_error(value_views(vals@)),
{
    let ghost views = value_views(vals@);
    let mut i: usize = 0;
    assert(views.take(0) =~= Seq::<ValueView>::empty());
    while i < vals.len()
        invariant
            i <= vals.len(),
            views == value_views(vals@),
            first_error(views.take(i as int)).is_none(),
        decreases vals.len() - i,
    {
        assert(views.take(i + 1).drop_last() =~= views.take(i as int));
        assert(views.take(i + 1).last() == vals@[i as int]@);
        match &vals[i] {
            Value::Error(e) => {
                proof {
                    lemma_first_error_stays(views, i + 1);
                }
                return Some(*e);
            },
            _ => {},
        }
        i = i + 1;
    }
    assert(views.take(vals.len() as int) =~= views);
    None
}

/// An error found among the first `k` values is the first error of all.
proof fn lemma_first_error_stays(vals: Seq<ValueView>, k: int)
    requires
        0 <= k <= vals.len(),
        first_error(vals.take(k)).is_some(),
    ensures
        first_error(vals) == first_error(vals.take(k)),
    decreases vals.len() - k,
{
    if k < vals.len() {
        assert(vals.take(k + 1).drop_last() =~= vals.take(k));
        lemma_first_error_stays(vals, k + 1);
    } else {
        assert(vals.take(k) =~= vals);
    }
}

/// What a reference evaluates to.
pub fn reference_value(book: Option<&Book>, sheet: &Option<Vec<u8>>, range: &Range) -> (r: Value)
    requires
        range.wf(),
        book matches Some(b) ==> b.wf(),
    ensures
        r@ == reference_spec(opt_book(book), opt_text_view(*sheet), *range),
{
    match book {
        None => Value::Error(ExcelError::Ref),
        Some(b) => match b.resolve(sheet, range) {
            Err(e) => Value::Error(e),
            Ok(grid) => {
                let whole = Value::Array2(grid);
                if range.is_multi_cell() {
                    let name: Option<Vec<u8>> = match sheet {
                        Some(s) => Some(copy_bytes(s.as_slice())),
                        None => None,
                    };
                    Value::Range { sheet: name, range: *range, value: Some(Box::new(whole)) }
                } else {
                    whole.ensure_single()
                }
            },
        },
    }
}

impl<FN, FA, FT, FL> Kernel<FN, FA, FT, FL> where
    FN: Fn(&Number) -> Option<Double>,
    FA: Fn(Infix, Double, Double) -> Double,
    FT: Fn(Double) -> i64,
    FL: Fn(&Vec<u8>, Vec<Value>) -> Option<Value>,
 {
    /// The value as a number: a number itself, a boolean one or zero,
    /// text the number that it spells, an empty value zero, an array what
    /// its first item is. An error stays that error; anything else fails
    /// with `Value`.
    pub fn as_num(&self, v: &Value) -> (r: Result<Double, ExcelError>)
        requires
            self.ok(),
        ensures
            r == self.num_of(v@),
        decreases v,
    {
        match v {
            Value::Num(n) => Ok(*n),
            Value::Bool(b) => Ok(
                Double {
                    bits: if *b {
                        ONE_BITS
                    } else {
                        ZERO_BITS
                    },
                },
            ),
            Value::Text(t) => {
                let numeral = Number::Decimal(copy_bytes(t.as_slice()));
                match self.to_number(&numeral) {
                    Some(d) => Ok(d),
                    None => Err(ExcelError::Value),
                }
            },
            Value::Empty => Ok(Double { bits: ZERO_BITS }),
            Value::Array(items) => {
                proof {
                    lemma_view_of_array(*items);
                }
                if items.len() > 0 {
                    self.as_num(&items[0])
                } else {
                    Err(ExcelError::Value)
                }
            },
            Value::Array2(grid) => {
                proof {
                    lemma_view_of_array2(*grid);
                }
                if grid.cells.len() > 0 {
                    self.as_num(&grid.cells[0])
                } else {
                    Err(ExcelError::Value)
                }
            },
            Value::Error(e) => Err(*e),
            _ => Err(ExcelError::Value),
        }
    }

    fn number_from(&self, n: i64) -> (r: Value)
        requires
            self.ok(),
        ensures
            r@ == self.number_value(n),
    {
        match self.to_number(&Number::Integer(n)) {
            Some(d) => Value::Num(d),
            None => Value::Error(ExcelError::Value),
        }
    }

    fn numeric(&self, op: Infix, x: &Value, y: &Value) -> (r: Value)
        requires
            self.ok(),
        ensures
            r@ == match (self.num_of(x@), self.num_of(y@)) {
                (Ok(p), Ok(q)) => if op == Infix::Divide && q.spec_is_zero() {
                    ValueView::Error(ExcelError::Div)
                } else {
                    ValueView::Num(arith_model(self.arith, op, p, q))
                },
                (Err(e), _) => ValueView::Error(e),
                (_, Err(e)) => ValueView::Error(e),
            },
    {
        match self.as_num(x) {
            Ok(p) => match self.as_num(y) {
                Ok(q) => {
                    let dividing: bool = match op {
                        Infix::Divide => true,
                        _ => false,
                    };
                    if dividing && q.is_zero() {
                        Value::Error(ExcelError::Div)
                    } else {
                        Value::Num(self.compute(op, p, q))
                    }
                },
                Err(e) => Value::Error(e),
            },
            Err(e) => Value::Error(e),
        }
    }

    /// `+`, `-`, `*`, `/` and `^` on the single values that stand for `a`
    /// and `b`.
    pub fn arithmetic(&self, op: Infix, a: &Value, b: &Value) -> (r: Value)
        requires
            self.ok(),
        ensures
            r@ == self.arith_spec(op, a@, b@),
    {
        let x = a.ensure_single();
        let y = b.ensure_single();
        match (op, &x) {
            (Infix::Plus, Value::Text(_)) => concat(&x, &y),
            (Infix::Plus, Value::Date(d)) => match self.as_num(&y) {
                Ok(n) => shift_date(*d, self.whole(n), true),
                Err(e) => Value::Error(e),
            },
            (Infix::Minus, Value::Date(d)) => match &y {
                Value::Date(other) => self.number_from(d.days as i64 - other.days as i64),
                _ => match self.as_num(&y) {
                    Ok(n) => shift_date(*d, self.whole(n), false),
                    Err(e) => Value::Error(e),
                },
            },
            _ => self.numeric(op, &x, &y),
        }
    }

    /// An infix operator on two values. An error on the left is the
    /// result, else an error on the right.
    pub fn apply_infix(&self, op: Infix, a: &Value, b: &Value) -> (r: Value)
        requires
            self.ok(),
        ensures
            r@ == self.infix_spec(op, a@, b@),
    {
        if a.is_err() {
            return a.duplicate();
        }
        if b.is_err() {
            return b.duplicate();
        }
        match op {
            Infix::Ampersand => ampersand(a, b),
            Infix::Equal | Infix::NotEqual | Infix::LessThan | Infix::LessThanEqual
            | Infix::GreaterThan | Infix::GreaterThanEqual => compare_values(op, a, b),
            _ => self.arithmetic(op, a, b),
        }
    }

    /// A prefix operator on a value taken as a number.
    pub fn apply_prefix(&self, op: Prefix, x: &Value) -> (r: Value)
        requires
            self.ok(),
        ensures
            r@ == self.prefix_spec(op, x@),
    {
        match self.as_num(x) {
            Err(e) => Value::Error(e),
            Ok(n) => match op {
                Prefix::Plus => Value::Num(n.abs()),
                Prefix::Minus => Value::Num(
                    self.compute(Infix::Multiply, n, Double { bits: MINUS_ONE_BITS }),
                ),
            },
        }
    }

    /// A function call on evaluated arguments.
    pub fn call_function(&self, name: &Vec<u8>, vals: Vec<Value>) -> (r: Value)
        requires
            self.ok(),
        ensures
            r@ == self.call_spec(name@, value_views(vals@)),
    {
        if bytes_eq(name.as_slice(), "IFERROR".as_bytes()) {
            if vals.len() >= 2 {
                if vals[0].is_err() {
                    vals[1].duplicate()
                } else {
                    vals[0].duplicate()
                }
            } else {
                Value::Error(ExcelError::Value)
            }
        } else {
            let keep: bool = bytes_eq(name.as_slice(), "INDEX".as_bytes());
            let ghost views = value_views(vals@);
            let mut given: Vec<Value> = Vec::new();
            let mut i: usize = 0;
            while i < vals.len()
                invariant
                    i <= vals.len(),
                    given@.len() == i,
                    forall|j: int|
                        0 <= j < i ==> (#[trigger] given@[j])@ == if keep {
                            vals@[j]@
                        } else {
                            unwrap_range(vals@[j]@)
                        },
                decreases vals.len() - i,
            {
                let item = vals[i].duplicate();
                if keep {
                    given.push(item);
                } else {
                    given.push(ensure_non_range(item));
                }
                i = i + 1;
            }
            proof {
                if keep {
                    assert(value_views(given@) =~= views);
                } else {
                    assert(value_views(given@) =~= Seq::new(
                        views.len(),
                        |i: int| unwrap_range(views[i]),
                    ));
                }
            }
            match find_error(&given) {
                Some(e) => Value::Error(e),
                None => match self.builtin(name, &given) {
                    Some(v) => v,
                    None => match self.call(name, given) {
                        Some(v) => v,
                        None => Value::Error(ExcelError::Name),
                    },
                },
            }
        }
    }

    /// An error in the evaluation of the items so far is the error of the
    /// evaluation of them all.
    proof fn lemma_eval_all_stays(&self, book: Option<Book>, items: Seq<ExprView>, k: int)
        requires
            0 <= k <= items.len(),
            self.eval_all_spec(book, items.take(k)).is_err(),
        ensures
            self.eval_all_spec(book, items) == self.eval_all_spec(book, items.take(k)),
        decreases items.len() - k,
    {
        if k < items.len() {
            assert(items.take(k + 1).drop_last() =~= items.take(k));
            self.lemma_eval_all_stays(book, items, k + 1);
        } else {
            assert(items.take(k) =~= items);
        }
    }

    fn evaluate_all(&self, book: Option<&Book>, items: &Vec<Expr>) -> (r: Result<Vec<Value>, Error>)
        requires
            self.ok(),
            all_ranges_wf(expr_views(items@)),
            book matches Some(b) ==> b.wf(),
        ensures
            match r {
                Ok(vals) => self.eval_all_spec(opt_book(book), expr_views(items@)) == Ok::<
                    Seq<ValueView>,
                    ExprView,
                >(value_views(vals@)),
                Err(Error::Volatile(e)) => self.eval_all_spec(opt_book(book), expr_views(items@))
                    == Err::<Seq<ValueView>, ExprView>(e@),
                Err(_) => false,
            },
        decreases items, 1int,
    {
        let ghost views = expr_views(items@);
        let mut vals: Vec<Value> = Vec::new();
        let mut i: usize = 0;
        assert(views.take(0) =~= Seq::<ExprView>::empty());
        assert(value_views(vals@) =~= Seq::<ValueView>::empty());
        while i < items.len()
            invariant
                i <= items.len(),
                self.ok(),
                views == expr_views(items@),
                all_ranges_wf(views),
                book matches Some(b) ==> b.wf(),
                self.eval_all_spec(opt_book(book), views.take(i as int)) == Ok::<
                    Seq<ValueView>,
                    ExprView,
                >(value_views(vals@)),
            decreases items.len() - i,
        {
            assert(views.take(i + 1).drop_last() =~= views.take(i as int));
            assert(views.take(i + 1).last() == items@[i as int]@);
            assert(ranges_wf(views[i as int]));
            match self.evaluate(book, &items[i]) {
                Ok(v) => {
                    let ghost before = value_views(vals@);
                    let ghost view = v@;
                    vals.push(v);
                    assert(value_views(vals@) =~= before.push(view));
                },
                Err(e) => {
                    proof {
                        self.lemma_eval_all_stays(opt_book(book), views, i + 1);
                    }
                    return Err(e);
                },
            }
            i = i + 1;
        }
        assert(views.take(items.len() as int) =~= views);
        Ok(vals)
    }

    fn evaluate_offset(&self, book: &Book, args: &Vec<Expr>) -> (r: Result<Value, Error>)
        requires
            self.ok(),
            all_ranges_wf(expr_views(args@)),
            book.wf(),
        ensures
            match r {
                Ok(_) => true,
                Err(Error::Volatile(_)) => true,
                Err(_) => false,
            },
            outcome(r) == self.offset_spec(*book, expr_views(args@)),
        decreases args, 0int,
    {
        let ghost views = expr_views(args@);
        if args.len() != 3 {
            return Ok(Value::Error(ExcelError::Value));
        }
        assert(views[0] == args@[0]@ && views[1] == args@[1]@ && views[2] == args@[2]@);
        assert(ranges_wf(views[0]) && ranges_wf(views[1]) && ranges_wf(views[2]));
        match &args[0] {
            Expr::Reference { sheet, range } => {
                let rows = match self.evaluate(Some(book), &args[1]) {
                    Ok(v) => v,
                    Err(e) => {
                        return Err(e);
                    },
                };
                let columns = match self.evaluate(Some(book), &args[2]) {
                    Ok(v) => v,
                    Err(e) => {
                        return Err(e);
                    },
                };
                match self.as_num(&rows) {
                    Ok(r) => match self.as_num(&columns) {
                        Ok(c) => {
                            match range.displace(self.whole(r), self.whole(c)) {
                                Ok(moved) => {
                                    if book.find_target(sheet).is_some() && !book.is_calculated(
                                        sheet,
                                        &moved,
                                    ) {
                                        let name: Option<Vec<u8>> = match sheet {
                                            Some(s) => Some(copy_bytes(s.as_slice())),
                                            None => None,
                                        };
                                        Err(
                                            Error::Volatile(
                                                Box::new(
                                                    Expr::Reference { sheet: name, range: moved },
                                                ),
                                            ),
                                        )
                                    } else {
                                        Ok(reference_value(Some(book), sheet, &moved))
                                    }
                                },
                                Err(_) => Ok(Value::Error(ExcelError::Ref)),
                            }
                        },
                        Err(e) => Ok(Value::Error(e)),
                    },
                    Err(e) => Ok(Value::Error(e)),
                }
            },
            _ => Ok(Value::Error(ExcelError::Value)),
        }
    }

    /// Evaluates an expression, in a workbook or without one. Without a
    /// workbook a reference is `Ref`. The one failure is the signal that
    /// `OFFSET` has come to point to cells that are not calculated yet.
    pub fn evaluate(&self, book: Option<&Book>, expr: &Expr) -> (r: Result<Value, Error>)
        requires
            self.ok(),
            ranges_wf(expr@),
            book matches Some(b) ==> b.wf(),
        ensures
            match r {
                Ok(_) => true,
                Err(Error::Volatile(_)) => true,
                Err(_) => false,
            },
            outcome(r) == self.eval_spec(opt_book(book), expr@),
        decreases expr, 2int,
    {
        match expr {
            Expr::Literal(Literal::Number(n)) => Ok(
                match self.to_number(n) {
                    Some(d) => Value::Num(
                        if d.is_nan() {
                            Double { bits: ZERO_BITS }
                        } else {
                            d
                        },
                    ),
                    None => Value::Error(ExcelError::Value),
                },
            ),
            Expr::Literal(Literal::Boolean(b)) => Ok(Value::Bool(*b)),
            Expr::Literal(Literal::Text(t)) => Ok(Value::Text(copy_bytes(t.as_slice()))),
            Expr::Error(kind) => Ok(Value::Error(*kind)),
            Expr::Reference { sheet, range } => Ok(reference_value(book, sheet, range)),
            Expr::Prefix(op, a) => match self.evaluate(book, a) {
                Err(e) => Err(e),
                Ok(x) => Ok(self.apply_prefix(*op, &x)),
            },
            Expr::Infix(op, a, b) => match self.evaluate(book, a) {
                Err(e) => Err(e),
                Ok(x) => match self.evaluate(book, b) {
                    Err(e) => Err(e),
                    Ok(y) => Ok(self.apply_infix(*op, &x, &y)),
                },
            },
            Expr::Func { name, args } => {
                proof {
                    lemma_views_of_args(*name, *args);
                    reveal_with_fuel(ranges_wf, 2);
                }
                let offset: bool = bytes_eq(name.as_slice(), "OFFSET".as_bytes());
                match book {
                    Some(b) => {
                        if offset {
                            return self.evaluate_offset(b, args);
                        }
                    },
                    None => {},
                }
                match self.evaluate_all(book, args) {
                    Err(e) => Err(e),
                    Ok(vals) => Ok(self.call_function(name, vals)),
                }
            },
            Expr::Array(items) => {
                proof {
                    lemma_views_of_items(*items);
                    reveal_with_fuel(ranges_wf, 2);
                }
                match self.evaluate_all(book, items) {
                    Err(e) => Err(e),
                    Ok(vals) => {
                        proof {
                            lemma_view_of_array(vals);
                        }
                        Ok(Value::Array(vals))
                    },
                }
            },
        }
    }

    /// Evaluates an expression without a workbook.
    pub fn evaluate_expr(&self, expr: &Expr) -> (r: Value)
        requires
            self.ok(),
            ranges_wf(expr@),
        ensures
            Ok::<ValueView, ExprView>(r@) == self.eval_spec(None, expr@),
    {
        proof {
            self.lemma_no_signal_without_book(expr@);
        }
        match self.evaluate(None, expr) {
            Ok(v) => v,
            Err(_) => Value::Error(ExcelError::Ref),
        }
    }

    /// Parses and evaluates formula text without a workbook.
    pub fn evaluate_str(&self, s: &str) -> (r: Result<Value, Error>)
        requires
            self.ok(),
        ensures
            match r {
                Ok(v) => parse_text_spec(s.spec_bytes()) matches Some(e) && Ok::<
                    ValueView,
                    ExprView,
                >(v@) == self.eval_spec(None, e),
                Err(e) => parse_outcome(s.spec_bytes(), Err::<Expr, Error>(e)),
            },
    {
        match parse_str(s) {
            Ok(expr) => Ok(self.evaluate_expr(&expr)),
            Err(e) => Err(e),
        }
    }

    /// Without a workbook an evaluation always ends with a value.
    pub proof fn lemma_no_signal_without_book(&self, e: ExprView)
        ensures
            self.eval_spec(None, e).is_ok(),
        decreases e, 2int,
    {
        match e {
            ExprView::Prefix(op, a) => {
                self.lemma_no_signal_without_book(*a);
            },
            ExprView::Infix(op, a, b) => {
                self.lemma_no_signal_without_book(*a);
                self.lemma_no_signal_without_book(*b);
            },
            ExprView::Func { name, args } => {
                self.lemma_no_signal_in_items(args);
            },
            ExprView::Array(items) => {
                self.lemma_no_signal_in_items(items);
            },
            _ => {},
        }
    }

    proof fn lemma_no_signal_in_items(&self, items: Seq<ExprView>)
        ensures
            self.eval_all_spec(None, items).is_ok(),
        decreases items, 1int,
    {
        if items.len() > 0 {
            self.lemma_no_signal_in_items(items.drop_last());
            self.lemma_no_signal_without_book(items.last());
        }
    }
}

} // verus!
