//! The values of cells and formulas.

use crate::parser::ast::Error;
use crate::range::Range;
use crate::text::{bytes_eq, copy_bytes};
use vstd::prelude::*;
use vstd::std_specs::convert::FromSpecImpl;

verus! {

/// A number: the bit pattern of an IEEE-754 double. The library carries
/// numbers and compares them; arithmetic on them is done by its caller.
#[derive(Clone, Copy, Debug, PartialEq, Eq, Hash, Structural)]
pub struct Double {
    pub bits: u64,
}

/// A calendar date: its day number, day 1 being January 1 of year 1.
#[derive(Clone, Copy, Debug, PartialEq, Eq, Hash, Structural)]
pub struct Date {
    pub days: i32,
}

/// A rectangle of values, row after row.
#[derive(PartialEq, Eq, Debug)]
pub struct Array2 {
    pub rows: usize,
    pub columns: usize,
    pub cells: Vec<Value>,
}

#[derive(PartialEq, Eq, Debug)]
pub enum Value {
    Num(Double),
    Bool(bool),
    Text(Vec<u8>),
    Date(Date),
    Array(Vec<Value>),
    Array2(Array2),
    /// The text of a formula that has not been evaluated.
    Formula(Vec<u8>),
    Error(Error),
    /// A reference kept as a reference, with what it resolved to, if it
    /// has been resolved.
    Range { sheet: Option<Vec<u8>>, range: Range, value: Option<Box<Value>> },
    Empty,
}

/// A value as a mathematical value.
pub enum ValueView {
    Num(Double),
    Bool(bool),
    Text(Seq<u8>),
    Date(Date),
    Array(Seq<ValueView>),
    Array2 { rows: nat, columns: nat, cells: Seq<ValueView> },
    Formula(Seq<u8>),
    Error(Error),
    Range { sheet: Option<Seq<u8>>, range: Range, value: Option<Box<ValueView>> },
    Empty,
}

pub open spec fn opt_text_view(o: Option<Vec<u8>>) -> Option<Seq<u8>> {
    match o {
        Some(v) => Some(v@),
        None => None,
    }
}

/// The mathematical value of a value.
pub open spec fn value_view(v: Value) -> ValueView
    decreases v,
{
    match v {
        Value::Num(n) => ValueView::Num(n),
        Value::Bool(b) => ValueView::Bool(b),
        Value::Text(t) => ValueView::Text(t@),
        Value::Date(d) => ValueView::Date(d),
        Value::Array(items) => ValueView::Array(
            Seq::new(
                items@.len(),
                |i: int|
                    if 0 <= i < items@.len() {
                        value_view(items@[i])
                    } else {
                        ValueView::Empty
                    },
            ),
        ),
        Value::Array2(grid) => ValueView::Array2 {
            rows: grid.rows as nat,
            columns: grid.columns as nat,
            cells: Seq::new(
                grid.cells@.len(),
                |i: int|
                    if 0 <= i < grid.cells@.len() {
                        value_view(grid.cells@[i])
                    } else {
                        ValueView::Empty
                    },
            ),
        },
        Value::Formula(t) => ValueView::Formula(t@),
        Value::Error(e) => ValueView::Error(e),
        Value::Range { sheet, range, value } => ValueView::Range {
            sheet: opt_text_view(sheet),
            range,
            value: match value {
                Some(inner) => Some(Box::new(value_view(*inner))),
                None => None,
            },
        },
        Value::Empty => ValueView::Empty,
    }
}

impl View for Value {
    type V = ValueView;

    open spec fn view(&self) -> ValueView {
        value_view(*self)
    }
}

/// The views of a run of values.
pub open spec fn value_views(items: Seq<Value>) -> Seq<ValueView> {
    Seq::new(items.len(), |i: int| items[i]@)
}

pub proof fn lemma_view_of_array(items: Vec<Value>)
    ensures
        (Value::Array(items))@ == ValueView::Array(value_views(items@)),
{
    assert((Value::Array(items))@->Array_0 =~= value_views(items@));
}

pub proof fn lemma_view_of_array2(grid: Array2)
    ensures
        (Value::Array2(grid))@ == (ValueView::Array2 {
            rows: grid.rows as nat,
            columns: grid.columns as nat,
            cells: value_views(grid.cells@),
        }),
{
    assert((Value::Array2(grid))@->Array2_cells =~= value_views(grid.cells@));
}

/// The bits of `0.0`, `-0.0`, `1.0` and `-1.0`.
pub const ZERO_BITS: u64 = 0;

pub const NEGATIVE_ZERO_BITS: u64 = 0x8000_0000_0000_0000;

pub const ONE_BITS: u64 = 0x3FF0_0000_0000_0000;

pub const MINUS_ONE_BITS: u64 = 0xBFF0_0000_0000_0000;

/// The bits of the exponent field; all set for infinities and NaN.
pub const EXPONENT_MASK: u64 = 0x7FF0_0000_0000_0000;

pub const FRACTION_MASK: u64 = 0x000F_FFFF_FFFF_FFFF;

/// The order of two values.
#[derive(Clone, Copy, Debug, PartialEq, Eq, Structural)]
pub enum Order {
    Less,
    Equal,
    Greater,
}

impl Double {
    pub open spec fn spec_is_nan(self) -> bool {
        (self.bits & EXPONENT_MASK) == EXPONENT_MASK && (self.bits & FRACTION_MASK) != 0
    }

    pub open spec fn spec_is_zero(self) -> bool {
        self.bits == ZERO_BITS || self.bits == NEGATIVE_ZERO_BITS
    }

    /// A key that orders the numbers as the numbers they stand for: the
    /// magnitude bits above the midpoint for positive numbers, mirrored
    /// below it for negative ones; both zeros share a key, and every NaN
    /// has the key above all numbers.
    pub open spec fn order_key(self) -> int {
        let magnitude = (self.bits & 0x7FFF_FFFF_FFFF_FFFFu64) as int;
        if self.spec_is_nan() {
            0x1_0000_0000_0000_0000
        } else if self.bits >= NEGATIVE_ZERO_BITS {
            0x7FFF_FFFF_FFFF_FFFF - magnitude
        } else {
            0x7FFF_FFFF_FFFF_FFFF + magnitude
        }
    }

    /// The order of two numbers.
    pub open spec fn spec_compare(self, other: Double) -> Order {
        if self.order_key() < other.order_key() {
            Order::Less
        } else if self.order_key() > other.order_key() {
            Order::Greater
        } else {
            Order::Equal
        }
    }

    /// Whether the bits stand for no number.
    #[verifier::when_used_as_spec(spec_is_nan)]
    pub fn is_nan(self) -> (r: bool)
        ensures
            r == self.spec_is_nan(),
    {
        (self.bits & EXPONENT_MASK) == EXPONENT_MASK && (self.bits & FRACTION_MASK) != 0
    }

    /// Whether the number is zero, of either sign.
    #[verifier::when_used_as_spec(spec_is_zero)]
    pub fn is_zero(self) -> (r: bool)
        ensures
            r == self.spec_is_zero(),
    {
        self.bits == ZERO_BITS || self.bits == NEGATIVE_ZERO_BITS
    }

    /// The number without its sign.
    pub fn abs(self) -> (r: Double)
        ensures
            r.bits == self.bits & 0x7FFF_FFFF_FFFF_FFFFu64,
    {
        Double { bits: self.bits & 0x7FFF_FFFF_FFFF_FFFFu64 }
    }

    /// Compares two numbers as the numbers they stand for. The two zeros
    /// are equal; NaN is equal to NaN and greater than every number.
    pub fn compare(self, other: Double) -> (r: Order)
        ensures
            r == self.spec_compare(other),
    {
        let a: u128 = self.key();
        let b: u128 = other.key();
        if a < b {
            Order::Less
        } else if a > b {
            Order::Greater
        } else {
            Order::Equal
        }
    }

    fn key(self) -> (r: u128)
        ensures
            r == self.order_key(),
    {
        let bits: u64 = self.bits;
        let magnitude: u64 = bits & 0x7FFF_FFFF_FFFF_FFFFu64;
        assert(magnitude <= 0x7FFF_FFFF_FFFF_FFFFu64) by (bit_vector)
            requires
                magnitude == bits & 0x7FFF_FFFF_FFFF_FFFFu64,
        ;
        if self.is_nan() {
            0x1_0000_0000_0000_0000
        } else if self.bits >= NEGATIVE_ZERO_BITS {
            (0x7FFF_FFFF_FFFF_FFFFu64 - magnitude) as u128
        } else {
            0x7FFF_FFFF_FFFF_FFFFu128 + magnitude as u128
        }
    }
}

/// Position of a variant in the order across variants: booleans, text,
/// numbers, dates, then everything else.
pub open spec fn variant_rank(v: ValueView) -> int {
    match v {
        ValueView::Bool(_) => 0,
        ValueView::Text(_) => 1,
        ValueView::Num(_) => 2,
        ValueView::Date(_) => 3,
        _ => 4,
    }
}

/// The order of two byte strings, byte by byte; of a string and its
/// extension the shorter comes first.
pub open spec fn text_order(a: Seq<u8>, b: Seq<u8>) -> Order
    decreases a.len(),
{
    if a.len() == 0 && b.len() == 0 {
        Order::Equal
    } else if a.len() == 0 {
        Order::Less
    } else if b.len() == 0 {
        Order::Greater
    } else if a[0] < b[0] {
        Order::Less
    } else if a[0] > b[0] {
        Order::Greater
    } else {
        text_order(a.subrange(1, a.len() as int), b.subrange(1, b.len() as int))
    }
}

/// The order of two values: by variant first, within a variant by the
/// values held. `None` where both are of a variant that has no order.
pub open spec fn value_order(a: ValueView, b: ValueView) -> Option<Order> {
    if variant_rank(a) < variant_rank(b) {
        Some(Order::Less)
    } else if variant_rank(a) > variant_rank(b) {
        Some(Order::Greater)
    } else {
        match (a, b) {
            (ValueView::Bool(x), ValueView::Bool(y)) => Some(
                if x == y {
                    Order::Equal
                } else if y {
                    Order::Less
                } else {
                    Order::Greater
                },
            ),
            (ValueView::Text(x), ValueView::Text(y)) => Some(text_order(x, y)),
            (ValueView::Num(x), ValueView::Num(y)) => Some(x.spec_compare(y)),
            (ValueView::Date(x), ValueView::Date(y)) => Some(
                if x.days < y.days {
                    Order::Less
                } else if x.days > y.days {
                    Order::Greater
                } else {
                    Order::Equal
                },
            ),
            _ => None,
        }
    }
}

/// The single value that stands for `v` where one value is wanted: the
/// first item of an array, and of that again; any other value itself. An
/// array without items gives `Error::Value`.
pub open spec fn single_of(v: ValueView) -> ValueView
    decreases v,
{
    match v {
        ValueView::Array(items) => if items.len() > 0 {
            single_of(items[0])
        } else {
            ValueView::Error(Error::Value)
        },
        ValueView::Array2 { rows, columns, cells } => if cells.len() > 0 {
            single_of(cells[0])
        } else {
            ValueView::Error(Error::Value)
        },
        other => other,
    }
}

/// What a value is as a truth value: a boolean itself, the number one
/// true, the number zero false; anything else fails with `Error::Value`.
pub open spec fn truth_of(v: ValueView) -> Result<bool, Error> {
    match v {
        ValueView::Bool(b) => Ok(b),
        ValueView::Num(n) => if n.bits == ONE_BITS {
            Ok(true)
        } else if n.spec_is_zero() {
            Ok(false)
        } else {
            Err(Error::Value)
        },
        _ => Err(Error::Value),
    }
}

/// What a value is as text: text and formula text themselves, of a
/// rectangle its first value; anything else fails with `Error::Value`.
pub open spec fn text_of(v: ValueView) -> Result<Seq<u8>, Error>
    decreases v,
{
    match v {
        ValueView::Text(t) => Ok(t),
        ValueView::Formula(t) => Ok(t),
        ValueView::Array2 { rows, columns, cells } => if cells.len() > 0 {
            text_of(cells[0])
        } else {
            Err(Error::Value)
        },
        _ => Err(Error::Value),
    }
}

/// What a value is as a date: a date itself, of a rectangle its first
/// value; anything else fails with `Error::Value`.
pub open spec fn date_of(v: ValueView) -> Result<Date, Error>
    decreases v,
{
    match v {
        ValueView::Date(d) => Ok(d),
        ValueView::Array2 { rows, columns, cells } => if cells.len() > 0 {
            date_of(cells[0])
        } else {
            Err(Error::Value)
        },
        _ => Err(Error::Value),
    }
}

fn compare_text(a: &[u8], b: &[u8]) -> (r: Order)
    ensures
        r == text_order(a@, b@),
{
    let mut i: usize = 0;
    assert(a@.subrange(0, a.len() as int) =~= a@);
    assert(b@.subrange(0, b.len() as int) =~= b@);
    while i < a.len() && i < b.len()
        invariant
            i <= a.len(),
            i <= b.len(),
            text_order(a@, b@) == text_order(
                a@.subrange(i as int, a.len() as int),
                b@.subrange(i as int, b.len() as int),
            ),
        decreases a.len() - i,
    {
        let ghost ra = a@.subrange(i as int, a.len() as int);
        let ghost rb = b@.subrange(i as int, b.len() as int);
        assert(ra[0] == a@[i as int] && rb[0] == b@[i as int]);
        if a[i] < b[i] {
            return Order::Less;
        }
        if a[i] > b[i] {
            return Order::Greater;
        }
        assert(ra.subrange(1, ra.len() as int) =~= a@.subrange(i + 1, a.len() as int));
        assert(rb.subrange(1, rb.len() as int) =~= b@.subrange(i + 1, b.len() as int));
        i = i + 1;
    }
    if i < b.len() {
        Order::Less
    } else if i < a.len() {
        Order::Greater
    } else {
        Order::Equal
    }
}

/// Copies of the values of `items`.
pub fn duplicate_values(items: &Vec<Value>) -> (r: Vec<Value>)
    ensures
        value_views(r@) == value_views(items@),
    decreases items,
{
    let mut out: Vec<Value> = Vec::new();
    let mut i: usize = 0;
    while i < items.len()
        invariant
            i <= items.len(),
            out.len() == i,
            forall|j: int| 0 <= j < i ==> out@[j]@ == items@[j]@,
        decreases items.len() - i,
    {
        let copy = items[i].duplicate();
        out.push(copy);
        i = i + 1;
    }
    assert(value_views(out@) =~= value_views(items@));
    out
}

impl Value {
    pub fn is_num(&self) -> (r: bool)
        ensures
            r == (self@ is Num),
    {
        matches!(self, Value::Num(_))
    }

    pub fn is_bool(&self) -> (r: bool)
        ensures
            r == (self@ is Bool),
    {
        matches!(self, Value::Bool(_))
    }

    pub fn is_text(&self) -> (r: bool)
        ensures
            r == (self@ is Text),
    {
        matches!(self, Value::Text(_))
    }

    pub fn is_date(&self) -> (r: bool)
        ensures
            r == (self@ is Date),
    {
        matches!(self, Value::Date(_))
    }

    pub fn is_array(&self) -> (r: bool)
        ensures
            r == (self@ is Array),
    {
        matches!(self, Value::Array(_))
    }

    pub fn is_array2(&self) -> (r: bool)
        ensures
            r == (self@ is Array2),
    {
        matches!(self, Value::Array2(_))
    }

    pub fn is_empty(&self) -> (r: bool)
        ensures
            r == (self@ is Empty),
    {
        matches!(self, Value::Empty)
    }

    pub fn is_formula(&self) -> (r: bool)
        ensures
            r == (self@ is Formula),
    {
        matches!(self, Value::Formula(_))
    }

    pub fn is_range(&self) -> (r: bool)
        ensures
            r == (self@ is Range),
    {
        matches!(self, Value::Range { .. })
    }

    pub fn is_err(&self) -> (r: bool)
        ensures
            r == (self@ is Error),
    {
        matches!(self, Value::Error(_))
    }

    /// A copy of the value.
    pub fn duplicate(&self) -> (r: Value)
        ensures
            r@ == self@,
        decreases self,
    {
        match self {
            Value::Num(n) => Value::Num(*n),
            Value::Bool(b) => Value::Bool(*b),
            Value::Text(t) => Value::Text(copy_bytes(t.as_slice())),
            Value::Date(d) => Value::Date(*d),
            Value::Array(items) => {
                let copies = duplicate_values(items);
                proof {
                    lemma_view_of_array(*items);
                    lemma_view_of_array(copies);
                }
                Value::Array(copies)
            },
            Value::Array2(grid) => {
                let copies = duplicate_values(&grid.cells);
                let copy = Array2 { rows: grid.rows, columns: grid.columns, cells: copies };
                proof {
                    lemma_view_of_array2(*grid);
                    lemma_view_of_array2(copy);
                }
                Value::Array2(copy)
            },
            Value::Formula(t) => Value::Formula(copy_bytes(t.as_slice())),
            Value::Error(e) => Value::Error(*e),
            Value::Range { sheet, range, value } => {
                let new_sheet: Option<Vec<u8>> = match sheet {
                    Some(s) => Some(copy_bytes(s.as_slice())),
                    None => None,
                };
                let new_value: Option<Box<Value>> = match value {
                    Some(inner) => Some(Box::new(inner.duplicate())),
                    None => None,
                };
                Value::Range { sheet: new_sheet, range: *range, value: new_value }
            },
            Value::Empty => Value::Empty,
        }
    }

    /// The single value that stands for this one where one value is
    /// wanted: the first item of an array, and of that again; any other
    /// value itself. An array without items gives `Error::Value`.
    pub fn ensure_single(&self) -> (r: Value)
        ensures
            r@ == single_of(self@),
        decreases self,
    {
        match self {
            Value::Array(items) => {
                proof {
                    lemma_view_of_array(*items);
                }
                if items.len() > 0 {
                    items[0].ensure_single()
                } else {
                    Value::Error(Error::Value)
                }
            },
            Value::Array2(grid) => {
                proof {
                    lemma_view_of_array2(*grid);
                }
                if grid.cells.len() > 0 {
                    grid.cells[0].ensure_single()
                } else {
                    Value::Error(Error::Value)
                }
            },
            other => other.duplicate(),
        }
    }

    /// The value as a truth value: a boolean itself, the number one true,
    /// the number zero false; anything else fails with `Error::Value`.
    pub fn as_bool(&self) -> (r: Result<bool, Error>)
        ensures
            r == truth_of(self@),
    {
        match self {
            Value::Bool(b) => Ok(*b),
            Value::Num(n) => {
                if n.bits == ONE_BITS {
                    Ok(true)
                } else if n.is_zero() {
                    Ok(false)
                } else {
                    Err(Error::Value)
                }
            },
            _ => Err(Error::Value),
        }
    }

    /// The value as text: text and formula text themselves, of a rectangle
    /// its first value; anything else fails with `Error::Value`.
    pub fn as_text(&self) -> (r: Result<Vec<u8>, Error>)
        ensures
            match r {
                Ok(t) => text_of(self@) == Ok::<Seq<u8>, Error>(t@),
                Err(e) => text_of(self@) == Err::<Seq<u8>, Error>(e),
            },
        decreases self,
    {
        match self {
            Value::Text(t) => Ok(copy_bytes(t.as_slice())),
            Value::Formula(t) => Ok(copy_bytes(t.as_slice())),
            Value::Array2(grid) => {
                proof {
                    lemma_view_of_array2(*grid);
                }
                if grid.cells.len() > 0 {
                    grid.cells[0].as_text()
                } else {
                    Err(Error::Value)
                }
            },
            _ => Err(Error::Value),
        }
    }

    /// The value as a date: a date itself, of a rectangle its first value;
    /// anything else fails with `Error::Value`.
    pub fn as_date(&self) -> (r: Result<Date, Error>)
        ensures
            r == date_of(self@),
        decreases self,
    {
        match self {
            Value::Date(d) => Ok(*d),
            Value::Array2(grid) => {
                proof {
                    lemma_view_of_array2(*grid);
                }
                if grid.cells.len() > 0 {
                    grid.cells[0].as_date()
                } else {
                    Err(Error::Value)
                }
            },
            _ => Err(Error::Value),
        }
    }

    /// A copy of the rectangle that the value is; anything else fails
    /// with `Error::Value`.
    pub fn as_array2(&self) -> (r: Result<Array2, Error>)
        ensures
            match r {
                Ok(grid) => (Value::Array2(grid))@ == self@,
                Err(e) => e == Error::Value && !(self@ is Array2),
            },
    {
        match self {
            Value::Array2(grid) => {
                let copy = grid.clone();
                proof {
                    lemma_view_of_array2(*grid);
                    lemma_view_of_array2(copy);
                }
                Ok(copy)
            },
            _ => Err(Error::Value),
        }
    }

    /// The items of an array, or of a rectangle row after row; anything
    /// else fails with `Error::Value`.
    pub fn as_array(&self) -> (r: Result<Vec<Value>, Error>)
        ensures
            match r {
                Ok(items) => match self@ {
                    ValueView::Array(all) => value_views(items@) == all,
                    ValueView::Array2 { rows, columns, cells } => value_views(items@) == cells,
                    _ => false,
                },
                Err(e) => e == Error::Value && !(self@ is Array) && !(self@ is Array2),
            },
    {
        match self {
            Value::Array(items) => {
                proof {
                    lemma_view_of_array(*items);
                }
                Ok(duplicate_values(items))
            },
            Value::Array2(grid) => {
                proof {
                    lemma_view_of_array2(*grid);
                }
                Ok(duplicate_values(&grid.cells))
            },
            _ => Err(Error::Value),
        }
    }

    /// The error that the value holds, if it holds one.
    pub fn as_err(&self) -> (r: Option<Error>)
        ensures
            r == match self@ {
                ValueView::Error(e) => Some(e),
                _ => None,
            },
    {
        match self {
            Value::Error(e) => Some(*e),
            _ => None,
        }
    }

    /// Compares two values: by variant first (booleans before text before
    /// numbers before dates before the rest), within a variant by the
    /// values held. `None` where both are of a variant that has no order.
    pub fn compare(&self, other: &Value) -> (r: Option<Order>)
        ensures
            r == value_order(self@, other@),
    {
        let a: u8 = variant_ord(self);
        let b: u8 = variant_ord(other);
        if a < b {
            return Some(Order::Less);
        }
        if a > b {
            return Some(Order::Greater);
        }
        match (self, other) {
            (Value::Bool(x), Value::Bool(y)) => Some(
                if *x == *y {
                    Order::Equal
                } else if *y {
                    Order::Less
                } else {
                    Order::Greater
                },
            ),
            (Value::Text(x), Value::Text(y)) => Some(compare_text(x.as_slice(), y.as_slice())),
            (Value::Num(x), Value::Num(y)) => Some(x.compare(*y)),
            (Value::Date(x), Value::Date(y)) => Some(
                if x.days < y.days {
                    Order::Less
                } else if x.days > y.days {
                    Order::Greater
                } else {
                    Order::Equal
                },
            ),
            _ => None,
        }
    }
}

/// Position of the variant of `v` in the order across variants.
pub fn variant_ord(v: &Value) -> (r: u8)
    ensures
        r == variant_rank(v@),
{
    match v {
        Value::Bool(_) => 0,
        Value::Text(_) => 1,
        Value::Num(_) => 2,
        Value::Date(_) => 3,
        _ => 4,
    }
}

impl Clone for Value {
    fn clone(&self) -> (r: Value)
        ensures
            r@ == self@,
    {
        self.duplicate()
    }
}

impl Clone for Array2 {
    fn clone(&self) -> (r: Array2)
        ensures
            r.rows == self.rows,
            r.columns == self.columns,
            value_views(r.cells@) == value_views(self.cells@),
    {
        Array2 { rows: self.rows, columns: self.columns, cells: duplicate_values(&self.cells) }
    }
}

impl From<bool> for Value {
    fn from(b: bool) -> (r: Value) {
        Value::Bool(b)
    }
}

impl FromSpecImpl<bool> for Value {
    open spec fn obeys_from_spec() -> bool {
        true
    }

    open spec fn from_spec(b: bool) -> Value {
        Value::Bool(b)
    }
}

impl From<Double> for Value {
    fn from(d: Double) -> (r: Value) {
        Value::Num(d)
    }
}

impl FromSpecImpl<Double> for Value {
    open spec fn obeys_from_spec() -> bool {
        true
    }

    open spec fn from_spec(d: Double) -> Value {
        Value::Num(d)
    }
}

impl From<Date> for Value {
    fn from(d: Date) -> (r: Value) {
        Value::Date(d)
    }
}

impl FromSpecImpl<Date> for Value {
    open spec fn obeys_from_spec() -> bool {
        true
    }

    open spec fn from_spec(d: Date) -> Value {
        Value::Date(d)
    }
}

impl From<Vec<Value>> for Value {
    fn from(items: Vec<Value>) -> (r: Value) {
        Value::Array(items)
    }
}

impl FromSpecImpl<Vec<Value>> for Value {
    open spec fn obeys_from_spec() -> bool {
        true
    }

    open spec fn from_spec(items: Vec<Value>) -> Value {
        Value::Array(items)
    }
}

impl From<Array2> for Value {
    fn from(grid: Array2) -> (r: Value) {
        Value::Array2(grid)
    }
}

impl FromSpecImpl<Array2> for Value {
    open spec fn obeys_from_spec() -> bool {
        true
    }

    open spec fn from_spec(grid: Array2) -> Value {
        Value::Array2(grid)
    }
}

} // verus!
