//! The functions that look a value up: `MATCH` finds the place of a
//! value among others, `INDEX` the value at a place.
use crate::evaluate::kernel::{truncate_model, Kernel};
use crate::evaluate::unwrap_range;
use crate::evaluate::value::{
    lemma_view_of_array, lemma_view_of_array2, single_of, value_order, value_views, Double, Order,
    Value, ValueView, MINUS_ONE_BITS,
};
use crate::parser::ast::{Error, Infix, Number};
use vstd::prelude::*;

verus! {

/// The items that a function looks through: those of an array, those of
/// a rectangle row after row, and any other value as the one item.
pub open spec fn items_of(v: ValueView) -> Seq<ValueView> {
    match v {
        ValueView::Array(items) => items,
        ValueView::Array2 { rows, columns, cells } => cells,
        other => seq![other],
    }
}

/// Whether `x` is `y` or comes after it in the order of values.
pub open spec fn at_least(x: ValueView, y: ValueView) -> bool {
    value_order(x, y) == Some(Order::Greater) || value_order(x, y) == Some(Order::Equal)
}

/// Whether `x` is `y` or comes before it in the order of values.
pub open spec fn at_most(x: ValueView, y: ValueView) -> bool {
    value_order(x, y) == Some(Order::Less) || value_order(x, y) == Some(Order::Equal)
}

/// The place, counted from 0, of the last item that is at least `lookup`.
pub open spec fn last_at_least(items: Seq<ValueView>, lookup: ValueView) -> Option<int>
    decreases items.len(),
{
    if items.len() == 0 {
        None
    } else if at_least(items.last(), lookup) {
        Some(items.len() - 1)
    } else {
        last_at_least(items.drop_last(), lookup)
    }
}

/// The place, counted from 0, of the first item that is equal to `lookup`
/// in the order of values.
pub open spec fn first_equal(items: Seq<ValueView>, lookup: ValueView) -> Option<int>
    decreases items.len(),
{
    if items.len() == 0 {
        None
    } else {
        match first_equal(items.drop_last(), lookup) {
            Some(i) => Some(i),
            None => if value_order(items.last(), lookup) == Some(Order::Equal) {
                Some(items.len() - 1)
            } else {
                None
            },
        }
    }
}

/// How many of the items are at most `lookup`.
pub open spec fn count_at_most(items: Seq<ValueView>, lookup: ValueView) -> nat
    decreases items.len(),
{
    if items.len() == 0 {
        0
    } else {
        count_at_most(items.drop_last(), lookup) + if at_most(items.last(), lookup) {
            1nat
        } else {
            0nat
        }
    }
}

/// The place, counted from 0, that `MATCH` finds for a mode of match.
/// Mode `-1`: the last item that is at least `lookup`. Mode `0`: the
/// first item equal to it. Any other mode: the place, with the items in
/// rising order, of the last item that is at most `lookup`, which is the
/// number of such items less one.
pub open spec fn match_place(items: Seq<ValueView>, lookup: ValueView, mode: Double) -> Option<
    int,
> {
    if mode.bits == MINUS_ONE_BITS {
        last_at_least(items, lookup)
    } else if mode.spec_is_zero() {
        first_equal(items, lookup)
    } else if count_at_most(items, lookup) > 0 {
        Some(count_at_most(items, lookup) - 1)
    } else {
        None
    }
}

/// A place that a number names: the whole number, and 0 for one below 0.
pub open spec fn to_place(n: i64) -> usize {
    if n < 0 {
        0
    } else {
        n as usize
    }
}

/// The value at `row` and `column`, counted from 1, of `source`: of a
/// rectangle its cell there, of an array, which is one row, its item in
/// that column, of any other value, which is one cell, the value. `Ref`
/// where there is no such place.
pub open spec fn value_at(source: ValueView, row: usize, column: usize) -> ValueView {
    if row == 0 || column == 0 {
        ValueView::Error(Error::Ref)
    } else {
        match source {
            ValueView::Array2 { rows, columns, cells } => if row <= rows && column <= columns && (
            row - 1) * columns + (column - 1) < cells.len() {
                cells[(row - 1) * columns + (column - 1)]
            } else {
                ValueView::Error(Error::Ref)
            },
            ValueView::Array(items) => if row == 1 && column <= items.len() {
                items[column - 1]
            } else {
                ValueView::Error(Error::Ref)
            },
            single => if row == 1 && column == 1 {
                single
            } else {
                ValueView::Error(Error::Ref)
            },
        }
    }
}

/// The items that a function looks through.
pub fn value_items(v: &Value) -> (r: Vec<Value>)
    ensures
        value_views(r@) == items_of(v@),
{
    match v {
        Value::Array(_) | Value::Array2(_) => match v.as_array() {
            Ok(items) => items,
            Err(_) => Vec::new(),
        },
        other => {
            let mut one: Vec<Value> = Vec::new();
            one.push(other.duplicate());
            assert(value_views(one@) =~= seq![v@]);
            one
        },
    }
}

fn is_at_least(x: &Value, y: &Value) -> (r: bool)
    ensures
        r == at_least(x@, y@),
{
    match x.compare(y) {
        Some(Order::Greater) => true,
        Some(Order::Equal) => true,
        _ => false,
    }
}

fn is_at_most(x: &Value, y: &Value) -> (r: bool)
    ensures
        r == at_most(x@, y@),
{
    match x.compare(y) {
        Some(Order::Less) => true,
        Some(Order::Equal) => true,
        _ => false,
    }
}

fn is_equal(x: &Value, y: &Value) -> (r: bool)
    ensures
        r == (value_order(x@, y@) == Some(Order::Equal)),
{
    match x.compare(y) {
        Some(Order::Equal) => true,
        _ => false,
    }
}

/// The place that `MATCH` finds.
pub fn find_place(items: &Vec<Value>, lookup: &Value, mode: Double) -> (r: Option<usize>)
    ensures
        match r {
            Some(i) => match_place(value_views(items@), lookup@, mode) == Some(i as int) && i
                < items@.len(),
            None => match_place(value_views(items@), lookup@, mode) is None,
        },
{
    let ghost all = value_views(items@);
    let mut last: Option<usize> = None;
    let mut first: Option<usize> = None;
    let mut count: usize = 0;
    let mut i: usize = 0;
    while i < items.len()
        invariant
            i <= items.len(),
            all == value_views(items@),
            count <= i,
            count == count_at_most(all.take(i as int), lookup@),
            match last {
                Some(k) => last_at_least(all.take(i as int), lookup@) == Some(k as int) && k < i,
                None => last_at_least(all.take(i as int), lookup@) is None,
            },
            match first {
                Some(k) => first_equal(all.take(i as int), lookup@) == Some(k as int) && k < i,
                None => first_equal(all.take(i as int), lookup@) is None,
            },
        decreases items.len() - i,
    {
        proof {
            assert(all.take(i + 1).drop_last() =~= all.take(i as int));
            assert(all.take(i + 1).last() == items@[i as int]@);
        }
        if is_at_least(&items[i], lookup) {
            last = Some(i);
        }
        if first.is_none() && is_equal(&items[i], lookup) {
            first = Some(i);
        }
        if is_at_most(&items[i], lookup) {
            count = count + 1;
        }
        i = i + 1;
    }
    proof {
        assert(all.take(items.len() as int) =~= all);
    }
    if mode.bits == MINUS_ONE_BITS {
        last
    } else if mode.is_zero() {
        first
    } else if count > 0 {
        Some(count - 1)
    } else {
        None
    }
}

/// The place that a whole number names.
pub fn place_number(n: i64) -> (r: usize)
    ensures
        r == to_place(n),
{
    if n < 0 {
        0
    } else {
        n as usize
    }
}

/// The value at a place of `source`.
pub fn pick_at(source: &Value, row: usize, column: usize) -> (r: Value)
    ensures
        r@ == value_at(source@, row, column),
{
    if row == 0 || column == 0 {
        return Value::Error(Error::Ref);
    }
    match source {
        Value::Array2(grid) => {
            proof {
                lemma_view_of_array2(*grid);
            }
            if row <= grid.rows && column <= grid.columns {
                assert((row - 1) * grid.columns <= 0xFFFF_FFFF_FFFF_FFFF * 0xFFFF_FFFF_FFFF_FFFF)
                    by (nonlinear_arith)
                    requires
                        1 <= row <= 0xFFFF_FFFF_FFFF_FFFF,
                        0 <= grid.columns <= 0xFFFF_FFFF_FFFF_FFFF,
                ;
                let place: u128 = (row as u128 - 1) * (grid.columns as u128) + (column as u128 - 1);
                if place < grid.cells.len() as u128 {
                    return grid.cells[place as usize].duplicate();
                }
            }
            Value::Error(Error::Ref)
        },
        Value::Array(items) => {
            proof {
                lemma_view_of_array(*items);
            }
            if row == 1 && column <= items.len() {
                items[column - 1].duplicate()
            } else {
                Value::Error(Error::Ref)
            }
        },
        single => if row == 1 && column == 1 {
            single.duplicate()
        } else {
            Value::Error(Error::Ref)
        },
    }
}

impl<FN, FA, FT, FL> Kernel<FN, FA, FT, FL> where
    FN: Fn(&Number) -> Option<Double>,
    FA: Fn(Infix, Double, Double) -> Double,
    FT: Fn(Double) -> i64,
    FL: Fn(&Vec<u8>, Vec<Value>) -> Option<Value>,
 {
    /// `MATCH(lookup, items, mode)`: the place, counted from 1, that the
    /// single value of `lookup` has among the items, for the mode of
    /// match; `NA` where it has none. `Value` for fewer than three
    /// arguments; the error of a mode that is no number.
    pub open spec fn match_spec(&self, vals: Seq<ValueView>) -> ValueView {
        if vals.len() < 3 {
            ValueView::Error(Error::Value)
        } else {
            match self.num_of(vals[2]) {
                Err(e) => ValueView::Error(e),
                Ok(mode) => match match_place(items_of(vals[1]), single_of(vals[0]), mode) {
                    Some(i) => self.count_value((i + 1) as nat),
                    None => ValueView::Error(Error::NA),
                },
            }
        }
    }

    /// `INDEX(source, row, column)`: the value at a row and a column of
    /// the source, each taken as a number and cut to a whole number; the
    /// column is 1 where none is given. `Value` for fewer than two
    /// arguments; the error of a row or column that is no number; `Ref`
    /// where the source has no such place.
    pub open spec fn index_spec(&self, vals: Seq<ValueView>) -> ValueView {
        if vals.len() < 2 {
            ValueView::Error(Error::Value)
        } else {
            match self.num_of(vals[1]) {
                Err(e) => ValueView::Error(e),
                Ok(row) => if vals.len() < 3 {
                    value_at(
                        unwrap_range(vals[0]),
                        to_place(truncate_model(self.truncate, row)),
                        1,
                    )
                } else {
                    match self.num_of(vals[2]) {
                        Err(e) => ValueView::Error(e),
                        Ok(column) => value_at(
                            unwrap_range(vals[0]),
                            to_place(truncate_model(self.truncate, row)),
                            to_place(truncate_model(self.truncate, column)),
                        ),
                    }
                },
            }
        }
    }

    /// `MATCH`.
    pub fn matchfn(&self, vals: &Vec<Value>) -> (r: Value)
        requires
            self.ok(),
        ensures
            r@ == self.match_spec(value_views(vals@)),
    {
        if vals.len() < 3 {
            return Value::Error(Error::Value);
        }
        let mode = match self.as_num(&vals[2]) {
            Ok(mode) => mode,
            Err(e) => {
                return Value::Error(e);
            },
        };
        let lookup = vals[0].ensure_single();
        let items = value_items(&vals[1]);
        assert(items@.len() == value_views(items@).len());
        assert(items@.len() == items.len());
        match find_place(&items, &lookup, mode) {
            Some(i) => self.count_of(i + 1),
            None => Value::Error(Error::NA),
        }
    }

    /// `INDEX`.
    pub fn index(&self, vals: &Vec<Value>) -> (r: Value)
        requires
            self.ok(),
        ensures
            r@ == self.index_spec(value_views(vals@)),
    {
        if vals.len() < 2 {
            return Value::Error(Error::Value);
        }
        let row = match self.as_num(&vals[1]) {
            Ok(n) => place_number(self.whole(n)),
            Err(e) => {
                return Value::Error(e);
            },
        };
        let column: usize = if vals.len() < 3 {
            1
        } else {
            match self.as_num(&vals[2]) {
                Ok(n) => place_number(self.whole(n)),
                Err(e) => {
                    return Value::Error(e);
                },
            }
        };
        let source = crate::evaluate::ensure_non_range(vals[0].duplicate());
        pick_at(&source, row, column)
    }
}

} // verus!
