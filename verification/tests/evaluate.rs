use excel_emulator::errors::Error;
use excel_emulator::evaluate::kernel::Kernel;
use excel_emulator::evaluate::value::{Array2, Date, Double, Value};
use excel_emulator::parser::ast::{Error as ExcelError, Infix, Number};

fn dbl(x: f64) -> Double {
    Double { bits: x.to_bits() }
}

fn num(x: f64) -> Value {
    Value::Num(dbl(x))
}

fn txt(s: &str) -> Value {
    Value::Text(s.as_bytes().to_vec())
}

fn float(d: Double) -> f64 {
    f64::from_bits(d.bits)
}

fn number(n: &Number) -> Option<Double> {
    match n {
        Number::Integer(i) => Some(dbl(*i as f64)),
        Number::Decimal(t) => std::str::from_utf8(t).ok()?.parse::<f64>().ok().map(dbl),
    }
}

fn arith(op: Infix, a: Double, b: Double) -> Double {
    let (x, y) = (float(a), float(b));
    dbl(match op {
        Infix::Plus => x + y,
        Infix::Minus => x - y,
        Infix::Multiply => x * y,
        Infix::Divide => x / y,
        Infix::Exponent => x.powf(y),
        _ => f64::NAN,
    })
}

fn truncate(a: Double) -> i64 {
    float(a) as i64
}

// A small library for the tests: enough functions to show how calls are
// handed on.
fn library(name: &Vec<u8>, args: Vec<Value>) -> Option<Value> {
    match name.as_slice() {
        b"COUNTARGS" => Some(num(args.len() as f64)),
        b"FIRST" => args.into_iter().next(),
        _ => None,
    }
}

fn evaluate_str(s: &str) -> Result<Value, Error> {
    let kernel = Kernel { number, arith, truncate, library };
    kernel.evaluate_str(s)
}

#[test]
fn test_op_codes() {
    assert_eq!(evaluate_str(" 1 + 1 ").unwrap(), num(2.0));
    assert_eq!(evaluate_str(" 1 - 1 ").unwrap(), num(0.0));
    assert_eq!(evaluate_str(" 2 * 2 ").unwrap(), num(4.0));
    assert_eq!(evaluate_str(" (2 + 1) * 2 ").unwrap(), num(6.0));
    assert_eq!(evaluate_str(" 8 / 4 ").unwrap(), num(2.0));
    assert_eq!(evaluate_str(" 8^2 ").unwrap(), num(64.0));
}

#[test]
fn test_conditionals() {
    assert_eq!(evaluate_str(" 1=1 ").unwrap(), Value::Bool(true));
}

#[test]
fn mod_test_infix_precedence() {
    assert_eq!(evaluate_str(" -(1+1)-2 ").unwrap(), num(-4.0));
}

#[test]
fn test_formula() {
    assert_eq!(evaluate_str(" SUM(1, 1) ").unwrap(), num(2.0));
    assert_eq!(evaluate_str(" SUM(SUM(1, 2), 1) ").unwrap(), num(4.0));
}

#[test]
fn test_iferror() {
    assert_eq!(evaluate_str("IFERROR(#VALUE!, 1)").unwrap(), num(1.0));
    assert_eq!(evaluate_str("IFERROR(2, 1)").unwrap(), num(2.0));
    assert_eq!(evaluate_str("IFERROR(1)").unwrap(), Value::Error(ExcelError::Value));
}

#[test]
fn test_match() {
    assert_eq!(evaluate_str("MATCH(3, {1,2,3,4,5}, 0)").unwrap(), num(3.0));
}

#[test]
fn array_broadcasting() {
    assert_eq!(
        evaluate_str("\"x\" & {\"a\",\"b\"}").unwrap(),
        Value::Array(vec![txt("xa"), txt("xb")])
    );
    assert_eq!(
        evaluate_str("{\"a\",\"b\"} & \"x\"").unwrap(),
        Value::Array(vec![txt("ax"), txt("bx")])
    );
    assert_eq!(evaluate_str("\"a\" & \"b\"").unwrap(), txt("ab"));
    assert_eq!(evaluate_str("\"a\" & 1").unwrap(), Value::Error(ExcelError::Value));
}

#[test]
fn error_propagation() {
    assert_eq!(evaluate_str("1 + #DIV/0!").unwrap(), Value::Error(ExcelError::Div));
    assert_eq!(evaluate_str("#REF! + #DIV/0!").unwrap(), Value::Error(ExcelError::Ref));
    assert_eq!(evaluate_str("#N/A = 1").unwrap(), Value::Error(ExcelError::NA));
    assert_eq!(evaluate_str("-#NUM!").unwrap(), Value::Error(ExcelError::Num));
    assert_eq!(evaluate_str("SUM(1, #NAME!)").unwrap(), Value::Error(ExcelError::Name));
}

#[test]
fn division_by_zero_is_an_error() {
    assert_eq!(evaluate_str("1 / 0").unwrap(), Value::Error(ExcelError::Div));
    assert_eq!(evaluate_str("1 / (1 - 1)").unwrap(), Value::Error(ExcelError::Div));
    assert_eq!(evaluate_str("0 / 2").unwrap(), num(0.0));
}

#[test]
fn unknown_function_is_a_name_error() {
    assert_eq!(evaluate_str("NOSUCH(1)").unwrap(), Value::Error(ExcelError::Name));
}

#[test]
fn reference_without_workbook_is_a_ref_error() {
    assert_eq!(evaluate_str("A1").unwrap(), Value::Error(ExcelError::Ref));
    assert_eq!(evaluate_str("Sheet1!A1:B2").unwrap(), Value::Error(ExcelError::Ref));
    assert_eq!(evaluate_str("OFFSET(A1, 1, 1)").unwrap(), Value::Error(ExcelError::Ref));
    assert_eq!(evaluate_str("OFFSET(1, 1, 1)").unwrap(), Value::Error(ExcelError::Name));
}

#[test]
fn numeric_coercion() {
    assert_eq!(evaluate_str("TRUE + 1").unwrap(), num(2.0));
    assert_eq!(evaluate_str("1 + \"2\"").unwrap(), num(3.0));
    assert_eq!(evaluate_str("1 + \"x\"").unwrap(), Value::Error(ExcelError::Value));
    assert_eq!(evaluate_str("{3,4} * 2").unwrap(), num(6.0));
    assert_eq!(evaluate_str("{} * 2").unwrap(), Value::Error(ExcelError::Value));
    assert_eq!(evaluate_str("\"a\" + \"b\"").unwrap(), txt("ab"));
    assert_eq!(evaluate_str("1.5 + 1").unwrap(), num(2.5));
}

#[test]
fn prefix_operators() {
    assert_eq!(evaluate_str("-3").unwrap(), num(-3.0));
    assert_eq!(evaluate_str("+3").unwrap(), num(3.0));
    assert_eq!(evaluate_str("-TRUE").unwrap(), num(-1.0));
    assert_eq!(evaluate_str("-\"x\"").unwrap(), Value::Error(ExcelError::Value));
}

#[test]
fn comparisons_across_variants() {
    assert_eq!(evaluate_str("1 < 2").unwrap(), Value::Bool(true));
    assert_eq!(evaluate_str("2 <= 2").unwrap(), Value::Bool(true));
    assert_eq!(evaluate_str("1 <> 1").unwrap(), Value::Bool(false));
    assert_eq!(evaluate_str("-1 < 0").unwrap(), Value::Bool(true));
    assert_eq!(evaluate_str("-2 < -1").unwrap(), Value::Bool(true));
    assert_eq!(evaluate_str("0.5 > 0.25").unwrap(), Value::Bool(true));
    assert_eq!(evaluate_str("\"a\" < \"b\"").unwrap(), Value::Bool(true));
    assert_eq!(evaluate_str("\"a\" < \"ab\"").unwrap(), Value::Bool(true));
    assert_eq!(evaluate_str("TRUE < \"a\"").unwrap(), Value::Bool(true));
    assert_eq!(evaluate_str("\"z\" < 1").unwrap(), Value::Bool(true));
    assert_eq!(evaluate_str("1 < DATE(2020,1,1)").unwrap(), Value::Bool(true));
    assert_eq!(evaluate_str("FALSE < TRUE").unwrap(), Value::Bool(true));
    assert_eq!(evaluate_str("1 = \"1\"").unwrap(), Value::Bool(false));
}

#[test]
fn date_arithmetic() {
    let day = |y, m, d| {
        chrono::Datelike::num_days_from_ce(&chrono::NaiveDate::from_ymd_opt(y, m, d).unwrap())
    };
    assert_eq!(
        evaluate_str("DATE(2020,1,31) + 1").unwrap(),
        Value::Date(Date { days: day(2020, 2, 1) })
    );
    assert_eq!(
        evaluate_str("DATE(2020,3,1) - 1").unwrap(),
        Value::Date(Date { days: day(2020, 2, 29) })
    );
    assert_eq!(evaluate_str("DATE(2020,3,1) - DATE(2020,2,1)").unwrap(), num(29.0));
}

#[test]
fn arguments_reach_the_library_in_order() {
    assert_eq!(evaluate_str("COUNTARGS(1, \"a\", {1,2})").unwrap(), num(3.0));
    assert_eq!(evaluate_str("FIRST(4, 5)").unwrap(), num(4.0));
    assert_eq!(evaluate_str("FIRST({4, 5}, 6)").unwrap(), Value::Array(vec![num(4.0), num(5.0)]));
}

#[test]
fn value_lattice_helpers() {
    let grid = Value::Array2(Array2 { rows: 1, columns: 2, cells: vec![txt("a"), txt("b")] });
    assert_eq!(grid.ensure_single(), txt("a"));
    assert_eq!(Value::Array(vec![]).ensure_single(), Value::Error(ExcelError::Value));
    assert_eq!(num(1.0).as_bool(), Ok(true));
    assert_eq!(num(0.0).as_bool(), Ok(false));
    assert_eq!(num(-0.0).as_bool(), Ok(false));
    assert_eq!(num(2.0).as_bool(), Err(ExcelError::Value));
    assert_eq!(txt("x").as_bool(), Err(ExcelError::Value));
    assert_eq!(grid.as_text(), Ok(b"a".to_vec()));
    assert_eq!(num(1.0).as_text(), Err(ExcelError::Value));
    assert_eq!(dbl(f64::NAN).is_nan(), true);
    assert_eq!(dbl(f64::INFINITY).is_nan(), false);
    assert_eq!(dbl(-3.5).abs(), dbl(3.5));
}

#[test]
fn parse_errors_come_back_from_evaluate_str() {
    assert_eq!(evaluate_str("1 +"), Err(Error::UnableToParse(b"1 +".to_vec())));
    assert_eq!(evaluate_str("1 ? 2"), Err(Error::UnableToLex(b"1 ? 2".to_vec())));
}

#[test]
fn values_as_dates_and_rectangles() {
    let day = Date { days: 738000 };
    let grid = Array2 { rows: 1, columns: 2, cells: vec![Value::Date(day), num(1.0)] };
    assert_eq!(Value::Date(day).as_date(), Ok(day));
    assert_eq!(Value::Array2(grid.clone()).as_date(), Ok(day));
    assert_eq!(num(1.0).as_date(), Err(ExcelError::Value));
    assert_eq!(
        Value::Array2(Array2 { rows: 0, columns: 0, cells: vec![] }).as_date(),
        Err(ExcelError::Value)
    );
    assert_eq!(Value::Array(vec![Value::Date(day)]).as_date(), Err(ExcelError::Value));
    assert_eq!(Value::Array2(grid.clone()).as_array2(), Ok(grid));
    assert_eq!(txt("a").as_array2(), Err(ExcelError::Value));
}

#[test]
fn values_from_what_they_hold() {
    let day = Date { days: 738000 };
    assert_eq!(Value::from(true), Value::Bool(true));
    assert_eq!(Value::from(dbl(2.5)), num(2.5));
    assert_eq!(Value::from(day), Value::Date(day));
    assert_eq!(Value::from(vec![num(1.0)]), Value::Array(vec![num(1.0)]));
    let grid = Array2 { rows: 1, columns: 1, cells: vec![num(1.0)] };
    assert_eq!(Value::from(grid.clone()), Value::Array2(grid));
}
