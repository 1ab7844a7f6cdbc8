//! Calendar dates: the date of a year, a month and a day, the parts of a
//! date, and the functions `DATE`, `DATEDIF`, `EOMONTH`, `YEARFRAC`,
//! `YEAR` and `MONTH`.
//!
//! A date is held as its day number. What day number a year, a month and
//! a day have, and back, is the calendar's business: `chrono` computes it.
use crate::evaluate::kernel::{arith_model, number_model, truncate_model, Kernel};
use crate::evaluate::value::{
    date_of, text_of, value_views, Date, Double, Order, Value, ValueView, MINUS_ONE_BITS, ONE_BITS,
    ZERO_BITS,
};
use crate::parser::ast::{Error, Infix, Number, NumberView};
use crate::text::bytes_eq;
use vstd::prelude::*;
use vstd::string::StringSliceAdditionalSpecFns;

verus! {

/// The day number of the date that `chrono` makes of a year, a month and
/// a day; `None` where it makes none.
pub uninterp spec fn day_number(year: i32, month: u32, day: u32) -> Option<i32>;

/// The year of the date with the day number `days`, as `chrono` gives it;
/// `None` where it has no date with that number.
pub uninterp spec fn calendar_year(days: i32) -> Option<i32>;

/// The month, counted from 1, of the date with the day number `days`.
pub uninterp spec fn calendar_month(days: i32) -> Option<u32>;

/// The day of the month, counted from 1, of the date with the day number
/// `days`.
pub uninterp spec fn calendar_day(days: i32) -> Option<u32>;

/// The day of the year, counted from 1, of the date with the day number
/// `days`.
pub uninterp spec fn calendar_ordinal(days: i32) -> Option<u32>;

/// The day number of the date so many months after the date with the day
/// number `days`, as `chrono` gives it; `None` where it gives none.
pub uninterp spec fn day_months_after(days: i32, months: u32) -> Option<i32>;

/// The day number of the date so many months before the date with the
/// day number `days`.
pub uninterp spec fn day_months_before(days: i32, months: u32) -> Option<i32>;

/// The date of a day number that may be missing.
pub open spec fn date_at(days: Option<i32>) -> Option<Date> {
    match days {
        Some(days) => Some(Date { days }),
        None => None,
    }
}

/// The date so many days after the date with the day number `days`, or
/// before it for a number below zero: the date with the day number that
/// is so much larger, where the calendar has both dates.
pub open spec fn shifted(days: i32, by: int) -> Option<Date> {
    if calendar_year(days) is Some && i32::MIN <= days + by <= i32::MAX && calendar_year(
        (days + by) as i32,
    ) is Some {
        Some(Date { days: (days + by) as i32 })
    } else {
        None
    }
}

/// `chrono::NaiveDate::checked_add_signed` with the span that
/// `chrono::Duration::try_days` makes of the number of days, on the date
/// that `from_num_days_from_ce_opt` makes of the day number: the date
/// whose day number is larger by the number of days, and `None` where
/// one of the two dates is not in the calendar.
#[verifier::external_body]
pub(crate) fn days_after(date: Date, days: i64) -> (r: Option<Date>)
    ensures
        r == shifted(date.days, days as int),
{
    match (chrono::NaiveDate::from_num_days_from_ce_opt(date.days), chrono::Duration::try_days(days)) {
        (Some(date), Some(span)) => match date.checked_add_signed(span) {
            Some(moved) => Some(Date { days: chrono::Datelike::num_days_from_ce(&moved) }),
            None => None,
        },
        _ => None,
    }
}

/// `chrono::NaiveDate::checked_add_months` on the date that
/// `from_num_days_from_ce_opt` makes of the day number, taken by its day
/// number: the result is a function of the day number and the months.
#[verifier::external_body]
fn months_after(date: Date, months: u32) -> (r: Option<Date>)
    ensures
        r == date_at(day_months_after(date.days, months)),
{
    match chrono::NaiveDate::from_num_days_from_ce_opt(date.days) {
        Some(date) => match date.checked_add_months(chrono::Months::new(months)) {
            Some(moved) => Some(Date { days: chrono::Datelike::num_days_from_ce(&moved) }),
            None => None,
        },
        None => None,
    }
}

/// `chrono::NaiveDate::checked_sub_months`, in the same way.
#[verifier::external_body]
fn months_before(date: Date, months: u32) -> (r: Option<Date>)
    ensures
        r == date_at(day_months_before(date.days, months)),
{
    match chrono::NaiveDate::from_num_days_from_ce_opt(date.days) {
        Some(date) => match date.checked_sub_months(chrono::Months::new(months)) {
            Some(moved) => Some(Date { days: chrono::Datelike::num_days_from_ce(&moved) }),
            None => None,
        },
        None => None,
    }
}

/// `chrono::NaiveDate::pred_opt` on the date that
/// `from_num_days_from_ce_opt` makes of the day number: the date whose
/// day number is smaller by one, and `None` where one of the two dates
/// is not in the calendar.
#[verifier::external_body]
fn date_before(date: Date) -> (r: Option<Date>)
    ensures
        r == shifted(date.days, -1),
{
    match chrono::NaiveDate::from_num_days_from_ce_opt(date.days) {
        Some(date) => match date.pred_opt() {
            Some(moved) => Some(Date { days: chrono::Datelike::num_days_from_ce(&moved) }),
            None => None,
        },
        None => None,
    }
}

/// `chrono::NaiveDate::from_ymd_opt`, the date taken by its day number
/// (`num_days_from_ce`): the result is a function of the three numbers.
#[verifier::external_body]
fn date_from_parts(year: i32, month: u32, day: u32) -> (r: Option<Date>)
    ensures
        r == match day_number(year, month, day) {
            Some(days) => Some(Date { days }),
            None => None,
        },
{
    match chrono::NaiveDate::from_ymd_opt(year, month, day) {
        Some(date) => Some(Date { days: chrono::Datelike::num_days_from_ce(&date) }),
        None => None,
    }
}

/// `chrono::Datelike::year` of the date that
/// `chrono::NaiveDate::from_num_days_from_ce_opt` makes of the day number:
/// the result is a function of the day number.
#[verifier::external_body]
fn year_of(date: Date) -> (r: Option<i32>)
    ensures
        r == calendar_year(date.days),
{
    match chrono::NaiveDate::from_num_days_from_ce_opt(date.days) {
        Some(date) => Some(chrono::Datelike::year(&date)),
        None => None,
    }
}

/// `chrono::Datelike::month` of the date with the day number.
#[verifier::external_body]
fn month_of(date: Date) -> (r: Option<u32>)
    ensures
        r == calendar_month(date.days),
{
    match chrono::NaiveDate::from_num_days_from_ce_opt(date.days) {
        Some(date) => Some(chrono::Datelike::month(&date)),
        None => None,
    }
}

/// `chrono::Datelike::day` of the date with the day number.
#[verifier::external_body]
fn day_of(date: Date) -> (r: Option<u32>)
    ensures
        r == calendar_day(date.days),
{
    match chrono::NaiveDate::from_num_days_from_ce_opt(date.days) {
        Some(date) => Some(chrono::Datelike::day(&date)),
        None => None,
    }
}

/// `chrono::Datelike::ordinal` of the date with the day number.
#[verifier::external_body]
fn ordinal_of(date: Date) -> (r: Option<u32>)
    ensures
        r == calendar_ordinal(date.days),
{
    match chrono::NaiveDate::from_num_days_from_ce_opt(date.days) {
        Some(date) => Some(chrono::Datelike::ordinal(&date)),
        None => None,
    }
}

/// A date by its parts.
#[derive(Clone, Copy, Debug, PartialEq, Eq)]
pub struct Parts {
    pub days: i32,
    pub year: i32,
    pub month: u32,
    pub day: u32,
    /// The day of the year.
    pub ordinal: u32,
}

/// The parts of the date with the day number `days`; `None` where the
/// calendar has no such date.
pub open spec fn parts_of(days: i32) -> Option<Parts> {
    match (calendar_year(days), calendar_month(days), calendar_day(days), calendar_ordinal(days)) {
        (Some(year), Some(month), Some(day), Some(ordinal)) => Some(
            Parts { days, year, month, day, ordinal },
        ),
        _ => None,
    }
}

/// The parts of a date.
pub fn date_parts(date: Date) -> (r: Option<Parts>)
    ensures
        r == parts_of(date.days),
{
    let year = year_of(date);
    let month = month_of(date);
    let day = day_of(date);
    let ordinal = ordinal_of(date);
    match (year, month, day, ordinal) {
        (Some(year), Some(month), Some(day), Some(ordinal)) => Some(
            Parts { days: date.days, year, month, day, ordinal },
        ),
        _ => None,
    }
}

/// The whole number `n`, held to the range of a year.
pub open spec fn to_year(n: i64) -> i32 {
    if n < i32::MIN {
        i32::MIN
    } else if n > i32::MAX {
        i32::MAX
    } else {
        n as i32
    }
}

/// The whole number `n`, held to the range of a month or a day.
pub open spec fn to_count(n: i64) -> u32 {
    if n < 0 {
        0
    } else if n > u32::MAX {
        u32::MAX
    } else {
        n as u32
    }
}

fn year_number(n: i64) -> (r: i32)
    ensures
        r == to_year(n),
{
    if n < -0x8000_0000i64 {
        -0x8000_0000i32
    } else if n > 0x7FFF_FFFFi64 {
        0x7FFF_FFFFi32
    } else {
        n as i32
    }
}

fn count_number(n: i64) -> (r: u32)
    ensures
        r == to_count(n),
{
    if n < 0 {
        0
    } else if n > 0xFFFF_FFFFi64 {
        0xFFFF_FFFFu32
    } else {
        n as u32
    }
}

/// The difference that `DATEDIF` gives for a unit: `Y` the years between
/// the two dates by their year numbers, `M` the months by year and month
/// numbers, `D` the days, `MD` the difference of the days of the month,
/// `YM` that of the months, `YD` that of the days of the year; each unit
/// all in capitals or all in small letters. `None` for any other unit.
pub open spec fn unit_difference(unit: Seq<u8>, start: Parts, end: Parts) -> Option<int> {
    if unit == "Y".spec_bytes() || unit == "y".spec_bytes() {
        Some(end.year - start.year)
    } else if unit == "M".spec_bytes() || unit == "m".spec_bytes() {
        Some((end.year - start.year) * 12 + (end.month - start.month))
    } else if unit == "D".spec_bytes() || unit == "d".spec_bytes() {
        Some(end.days - start.days)
    } else if unit == "MD".spec_bytes() || unit == "md".spec_bytes() {
        Some(end.day - start.day)
    } else if unit == "YM".spec_bytes() || unit == "ym".spec_bytes() {
        Some(end.month - start.month)
    } else if unit == "YD".spec_bytes() || unit == "yd".spec_bytes() {
        Some(end.ordinal - start.ordinal)
    } else {
        None
    }
}

/// The difference of two dates in a unit.
pub fn difference(unit: &[u8], start: Parts, end: Parts) -> (r: Option<i64>)
    ensures
        match r {
            Some(n) => unit_difference(unit@, start, end) == Some(n as int),
            None => unit_difference(unit@, start, end) is None,
        },
{
    let years: i64 = end.year as i64 - start.year as i64;
    let months: i64 = end.month as i64 - start.month as i64;
    if bytes_eq(unit, "Y".as_bytes()) || bytes_eq(unit, "y".as_bytes()) {
        Some(years)
    } else if bytes_eq(unit, "M".as_bytes()) || bytes_eq(unit, "m".as_bytes()) {
        Some(years * 12 + months)
    } else if bytes_eq(unit, "D".as_bytes()) || bytes_eq(unit, "d".as_bytes()) {
        Some(end.days as i64 - start.days as i64)
    } else if bytes_eq(unit, "MD".as_bytes()) || bytes_eq(unit, "md".as_bytes()) {
        Some(end.day as i64 - start.day as i64)
    } else if bytes_eq(unit, "YM".as_bytes()) || bytes_eq(unit, "ym".as_bytes()) {
        Some(months)
    } else if bytes_eq(unit, "YD".as_bytes()) || bytes_eq(unit, "yd".as_bytes()) {
        Some(end.ordinal as i64 - start.ordinal as i64)
    } else {
        None
    }
}

/// The date that a value stands for, by its parts: the error of the
/// value where it is no date, `Num` where the calendar has no such date.
pub open spec fn parts_in(v: ValueView) -> Result<Parts, Error> {
    match date_of(v) {
        Ok(date) => match parts_of(date.days) {
            Some(parts) => Ok(parts),
            None => Err(Error::Num),
        },
        Err(e) => Err(e),
    }
}

/// The parts of the date that a value stands for.
pub fn value_parts(v: &Value) -> (r: Result<Parts, Error>)
    ensures
        r == parts_in(v@),
{
    match v.as_date() {
        Ok(date) => match date_parts(date) {
            Some(parts) => Ok(parts),
            None => Err(Error::Num),
        },
        Err(e) => Err(e),
    }
}

impl<FN, FA, FT, FL> Kernel<FN, FA, FT, FL> where
    FN: Fn(&Number) -> Option<Double>,
    FA: Fn(Infix, Double, Double) -> Double,
    FT: Fn(Double) -> i64,
    FL: Fn(&Vec<u8>, Vec<Value>) -> Option<Value>,
 {
    /// `DATE`: the date of a year, a month and a day, each taken as a
    /// number and cut to a whole number. `Value` for fewer than three
    /// arguments, the error of the first argument that is no number, `Num`
    /// where there is no such date.
    pub open spec fn date_spec(&self, vals: Seq<ValueView>) -> ValueView {
        if vals.len() < 3 {
            ValueView::Error(Error::Value)
        } else {
            match (self.num_of(vals[0]), self.num_of(vals[1]), self.num_of(vals[2])) {
                (Err(e), _, _) => ValueView::Error(e),
                (Ok(_), Err(e), _) => ValueView::Error(e),
                (Ok(_), Ok(_), Err(e)) => ValueView::Error(e),
                (Ok(year), Ok(month), Ok(day)) => match day_number(
                    to_year(truncate_model(self.truncate, year)),
                    to_count(truncate_model(self.truncate, month)),
                    to_count(truncate_model(self.truncate, day)),
                ) {
                    Some(days) => ValueView::Date(Date { days }),
                    None => ValueView::Error(Error::Num),
                },
            }
        }
    }

    /// `DATEDIF`: the difference of a first and a second date in the unit
    /// that the third argument names. The arguments are taken in turn: a
    /// missing one gives `Value`, one that is no date or no text its
    /// error, a date that the calendar has not `Num`; a unit that there
    /// is not gives `Value`.
    pub open spec fn datedif_spec(&self, vals: Seq<ValueView>) -> ValueView {
        if vals.len() < 1 {
            ValueView::Error(Error::Value)
        } else {
            match parts_in(vals[0]) {
                Err(e) => ValueView::Error(e),
                Ok(start) => if vals.len() < 2 {
                    ValueView::Error(Error::Value)
                } else {
                    match parts_in(vals[1]) {
                        Err(e) => ValueView::Error(e),
                        Ok(end) => if vals.len() < 3 {
                            ValueView::Error(Error::Value)
                        } else {
                            match text_of(vals[2]) {
                                Err(e) => ValueView::Error(e),
                                Ok(unit) => match unit_difference(unit, start, end) {
                                    Some(n) => self.number_value(n as i64),
                                    None => ValueView::Error(Error::Value),
                                },
                            }
                        },
                    }
                },
            }
        }
    }

    /// How many months the first day of a month is moved for `EOMONTH`,
    /// and whether forward: one month more than a number of months above
    /// zero, forward; one month less than a number below zero turned
    /// about, backward; one month forward for anything else.
    pub open spec fn month_shift(&self, months: Double) -> (bool, u32) {
        let zero = Double { bits: ZERO_BITS };
        let one = Double { bits: ONE_BITS };
        if !months.spec_is_nan() && months.spec_compare(zero) == Order::Greater {
            (
                true,
                to_count(
                    truncate_model(self.truncate, arith_model(self.arith, Infix::Plus, months, one)),
                ),
            )
        } else if months.spec_compare(zero) == Order::Less {
            (
                false,
                to_count(
                    truncate_model(
                        self.truncate,
                        arith_model(
                            self.arith,
                            Infix::Minus,
                            arith_model(
                                self.arith,
                                Infix::Multiply,
                                months,
                                Double { bits: MINUS_ONE_BITS },
                            ),
                            one,
                        ),
                    ),
                ),
            )
        } else {
            (true, 1)
        }
    }

    /// `EOMONTH(date, months)`: the last day of the month that lies so
    /// many months after the month of the date, or before it for a number
    /// below zero: the day before the first day of the month behind it.
    /// The arguments are taken in turn: a missing one gives `Value`, one
    /// that is no date or no number its error; `Num` where the calendar
    /// has no such date.
    pub open spec fn eomonth_spec(&self, vals: Seq<ValueView>) -> ValueView {
        if vals.len() < 1 {
            ValueView::Error(Error::Value)
        } else {
            match parts_in(vals[0]) {
                Err(e) => ValueView::Error(e),
                Ok(start) => if vals.len() < 2 {
                    ValueView::Error(Error::Value)
                } else {
                    match self.num_of(vals[1]) {
                        Err(e) => ValueView::Error(e),
                        Ok(months) => match day_number(start.year, start.month, 1) {
                            None => ValueView::Error(Error::Num),
                            Some(first) => {
                                let shift = self.month_shift(months);
                                let moved = if shift.0 {
                                    day_months_after(first, shift.1)
                                } else {
                                    day_months_before(first, shift.1)
                                };
                                match moved {
                                    None => ValueView::Error(Error::Num),
                                    Some(next) => match shifted(next, -1) {
                                        Some(last) => ValueView::Date(last),
                                        None => ValueView::Error(Error::Num),
                                    },
                                }
                            },
                        },
                    }
                },
            }
        }
    }

    /// `YEARFRAC(start, end)`: the years between two dates as a fraction,
    /// a year counted as 360 days: the difference of the year numbers
    /// times 360 and the difference of the days of the year, divided by
    /// 360. The arguments are taken in turn: a missing one gives `Value`,
    /// one that is no date its error, a date that the calendar has not
    /// `Num`.
    pub open spec fn yearfrac_spec(&self, vals: Seq<ValueView>) -> ValueView {
        if vals.len() < 1 {
            ValueView::Error(Error::Value)
        } else {
            match parts_in(vals[0]) {
                Err(e) => ValueView::Error(e),
                Ok(start) => if vals.len() < 2 {
                    ValueView::Error(Error::Value)
                } else {
                    match parts_in(vals[1]) {
                        Err(e) => ValueView::Error(e),
                        Ok(end) => match (
                            number_model(
                                self.number,
                                NumberView::Integer(
                                    (((end.year - start.year) * 360) + (end.ordinal
                                        - start.ordinal)) as i64,
                                ),
                            ),
                            number_model(self.number, NumberView::Integer(360)),
                        ) {
                            (Some(days), Some(year)) => ValueView::Num(
                                arith_model(self.arith, Infix::Divide, days, year),
                            ),
                            _ => ValueView::Error(Error::Value),
                        },
                    }
                },
            }
        }
    }

    /// `YEAR`: the year of a date.
    pub open spec fn year_spec(&self, vals: Seq<ValueView>) -> ValueView {
        if vals.len() < 1 {
            ValueView::Error(Error::Value)
        } else {
            match parts_in(vals[0]) {
                Err(e) => ValueView::Error(e),
                Ok(parts) => self.number_value(parts.year as i64),
            }
        }
    }

    /// `MONTH`: the month of a date, counted from 1.
    pub open spec fn month_spec(&self, vals: Seq<ValueView>) -> ValueView {
        if vals.len() < 1 {
            ValueView::Error(Error::Value)
        } else {
            match parts_in(vals[0]) {
                Err(e) => ValueView::Error(e),
                Ok(parts) => self.number_value(parts.month as i64),
            }
        }
    }

    /// A whole number as a value.
    pub fn number_of(&self, n: i64) -> (r: Value)
        requires
            self.ok(),
        ensures
            r@ == self.number_value(n),
    {
        match self.to_number(&Number::Integer(n)) {
            Some(d) => Value::Num(d),
            None => Value::Error(Error::Value),
        }
    }

    /// `DATE`.
    pub fn date(&self, vals: &Vec<Value>) -> (r: Value)
        requires
            self.ok(),
        ensures
            r@ == self.date_spec(value_views(vals@)),
    {
        if vals.len() < 3 {
            return Value::Error(Error::Value);
        }
        let year = match self.as_num(&vals[0]) {
            Ok(n) => n,
            Err(e) => {
                return Value::Error(e);
            },
        };
        let month = match self.as_num(&vals[1]) {
            Ok(n) => n,
            Err(e) => {
                return Value::Error(e);
            },
        };
        let day = match self.as_num(&vals[2]) {
            Ok(n) => n,
            Err(e) => {
                return Value::Error(e);
            },
        };
        match date_from_parts(
            year_number(self.whole(year)),
            count_number(self.whole(month)),
            count_number(self.whole(day)),
        ) {
            Some(date) => Value::Date(date),
            None => Value::Error(Error::Num),
        }
    }

    /// `DATEDIF`.
    pub fn datedif(&self, vals: &Vec<Value>) -> (r: Value)
        requires
            self.ok(),
        ensures
            r@ == self.datedif_spec(value_views(vals@)),
    {
        if vals.len() < 1 {
            return Value::Error(Error::Value);
        }
        let start = match value_parts(&vals[0]) {
            Ok(parts) => parts,
            Err(e) => {
                return Value::Error(e);
            },
        };
        if vals.len() < 2 {
            return Value::Error(Error::Value);
        }
        let end = match value_parts(&vals[1]) {
            Ok(parts) => parts,
            Err(e) => {
                return Value::Error(e);
            },
        };
        if vals.len() < 3 {
            return Value::Error(Error::Value);
        }
        let unit = match vals[2].as_text() {
            Ok(text) => text,
            Err(e) => {
                return Value::Error(e);
            },
        };
        match difference(unit.as_slice(), start, end) {
            Some(n) => self.number_of(n),
            None => Value::Error(Error::Value),
        }
    }

    /// How the first day of a month is moved for `EOMONTH`.
    pub fn shift_of(&self, months: Double) -> (r: (bool, u32))
        requires
            self.ok(),
        ensures
            r == self.month_shift(months),
    {
        let zero = Double { bits: ZERO_BITS };
        let one = Double { bits: ONE_BITS };
        let order = months.compare(zero);
        if !months.is_nan() && order == Order::Greater {
            (true, count_number(self.whole(self.compute(Infix::Plus, months, one))))
        } else if order == Order::Less {
            let turned = self.compute(Infix::Multiply, months, Double { bits: MINUS_ONE_BITS });
            (false, count_number(self.whole(self.compute(Infix::Minus, turned, one))))
        } else {
            (true, 1)
        }
    }

    /// `EOMONTH`.
    pub fn eomonth(&self, vals: &Vec<Value>) -> (r: Value)
        requires
            self.ok(),
        ensures
            r@ == self.eomonth_spec(value_views(vals@)),
    {
        if vals.len() < 1 {
            return Value::Error(Error::Value);
        }
        let start = match value_parts(&vals[0]) {
            Ok(parts) => parts,
            Err(e) => {
                return Value::Error(e);
            },
        };
        if vals.len() < 2 {
            return Value::Error(Error::Value);
        }
        let months = match self.as_num(&vals[1]) {
            Ok(n) => n,
            Err(e) => {
                return Value::Error(e);
            },
        };
        let first = match date_from_parts(start.year, start.month, 1) {
            Some(first) => first,
            None => {
                return Value::Error(Error::Num);
            },
        };
        let shift = self.shift_of(months);
        let moved = if shift.0 {
            months_after(first, shift.1)
        } else {
            months_before(first, shift.1)
        };
        match moved {
            None => Value::Error(Error::Num),
            Some(next) => match date_before(next) {
                Some(last) => Value::Date(last),
                None => Value::Error(Error::Num),
            },
        }
    }

    /// `YEARFRAC`.
    pub fn yearfrac(&self, vals: &Vec<Value>) -> (r: Value)
        requires
            self.ok(),
        ensures
            r@ == self.yearfrac_spec(value_views(vals@)),
    {
        if vals.len() < 1 {
            return Value::Error(Error::Value);
        }
        let start = match value_parts(&vals[0]) {
            Ok(parts) => parts,
            Err(e) => {
                return Value::Error(e);
            },
        };
        if vals.len() < 2 {
            return Value::Error(Error::Value);
        }
        let end = match value_parts(&vals[1]) {
            Ok(parts) => parts,
            Err(e) => {
                return Value::Error(e);
            },
        };
        let days: i64 = (end.year as i64 - start.year as i64) * 360 + (end.ordinal as i64
            - start.ordinal as i64);
        match (self.to_number(&Number::Integer(days)), self.to_number(&Number::Integer(360))) {
            (Some(days), Some(year)) => Value::Num(self.compute(Infix::Divide, days, year)),
            _ => Value::Error(Error::Value),
        }
    }

    /// `YEAR`.
    pub fn year(&self, vals: &Vec<Value>) -> (r: Value)
        requires
            self.ok(),
        ensures
            r@ == self.year_spec(value_views(vals@)),
    {
        if vals.len() < 1 {
            return Value::Error(Error::Value);
        }
        match value_parts(&vals[0]) {
            Ok(parts) => self.number_of(parts.year as i64),
            Err(e) => Value::Error(e),
        }
    }

    /// `MONTH`.
    pub fn month(&self, vals: &Vec<Value>) -> (r: Value)
        requires
            self.ok(),
        ensures
            r@ == self.month_spec(value_views(vals@)),
    {
        if vals.len() < 1 {
            return Value::Error(Error::Value);
        }
        match value_parts(&vals[0]) {
            Ok(parts) => self.number_of(parts.month as i64),
            Err(e) => Value::Error(e),
        }
    }
}

} // verus!
