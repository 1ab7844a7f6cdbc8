use excel_emulator::errors::Error;
use excel_emulator::evaluate::kernel::Kernel;
use excel_emulator::evaluate::value::{Array2, Double, Value};
use excel_emulator::parser::ast::{Error as ExcelError, Infix, Number};
use excel_emulator::lookup::{find_place, pick_at, value_items};

fn dbl(x: f64) -> Double {
    Double { bits: x.to_bits() }
}

fn num(x: f64) -> Value {
    Value::Num(dbl(x))
}

fn float(d: Double) -> f64 {
    f64::from_bits(d.bits)
}

fn number(n: &Number) -> Option<Double> {
    match n {
        Number::Integer(i) => Some(dbl(*i as f64)),
        Number::Decimal(t) => std::str::from_utf8(t).ok()?.parse::<f64>().ok().map(dbl),
    }
}

fn arith(op: Infix, a: Double, b: Double) -> Double {
    let (x, y) = (float(a), float(b));
    dbl(match op {
        Infix::Plus => x + y,
        Infix::Minus => x - y,
        Infix::Multiply => x * y,
        Infix::Divide => x / y,
        Infix::Exponent => x.powf(y),
        _ => f64::NAN,
    })
}

fn truncate(a: Double) -> i64 {
    float(a) as i64
}

fn nothing(_name: &Vec<u8>, _args: Vec<Value>) -> Option<Value> {
    None
}

fn evaluate_str(s: &str) -> Result<Value, Error> {
    let kernel = Kernel { number, arith, truncate, library: nothing };
    kernel.evaluate_str(s)
}

fn txt(s: &str) -> Value {
    Value::Text(s.as_bytes().to_vec())
}

fn error(kind: ExcelError) -> Value {
    Value::Error(kind)
}

#[test]
fn function_test_match() {
    assert_eq!(evaluate_str("MATCH(3, {1,2,3,4,5}, 0)").unwrap(), num(3.0));
}

#[test]
fn mod_test_match() {
    assert_eq!(evaluate_str("MATCH(3, {1,2,3,4,5}, 0)").unwrap(), num(3.0));
}

#[test]
fn modes_of_match() {
    assert_eq!(evaluate_str("MATCH(3, {5,4,3,2,1}, -1)").unwrap(), num(3.0));
    assert_eq!(evaluate_str("MATCH(3.5, {5,4,3,2,1}, -1)").unwrap(), num(2.0));
    assert_eq!(evaluate_str("MATCH(3.5, {1,2,3,4,5}, 1)").unwrap(), num(3.0));
    assert_eq!(evaluate_str("MATCH(3, {4,1,3,2}, 1)").unwrap(), num(3.0));
    assert_eq!(evaluate_str("MATCH(3, {1,3,3,4}, 0)").unwrap(), num(2.0));
    assert_eq!(evaluate_str("MATCH(\"b\", {\"a\",\"b\"}, 0)").unwrap(), num(2.0));
    assert_eq!(evaluate_str("MATCH(2, 2, 0)").unwrap(), num(1.0));
    assert_eq!(evaluate_str("MATCH({3,9}, {1,2,3}, 0)").unwrap(), num(3.0));
}

#[test]
fn matches_that_there_are_not() {
    assert_eq!(evaluate_str("MATCH(9, {1,2}, 0)").unwrap(), error(ExcelError::NA));
    assert_eq!(evaluate_str("MATCH(0, {1,2}, 1)").unwrap(), error(ExcelError::NA));
    assert_eq!(evaluate_str("MATCH(9, {1,2}, -1)").unwrap(), error(ExcelError::NA));
    assert_eq!(evaluate_str("MATCH(1, {1,2})").unwrap(), error(ExcelError::Value));
    assert_eq!(evaluate_str("MATCH(1, {1,2}, \"x\")").unwrap(), error(ExcelError::Value));
}

#[test]
fn places_among_items() {
    let items = vec![num(1.0), txt("a"), Value::Bool(true), num(3.0)];
    assert_eq!(find_place(&items, &num(2.0), dbl(-1.0)), Some(3));
    assert_eq!(find_place(&items, &num(2.0), dbl(1.0)), Some(2));
    assert_eq!(find_place(&items, &num(2.0), dbl(0.0)), None);
    assert_eq!(find_place(&items, &txt("a"), dbl(-0.0)), Some(1));
    assert_eq!(find_place(&vec![], &num(2.0), dbl(1.0)), None);
    assert_eq!(find_place(&vec![Value::Empty], &Value::Empty, dbl(0.0)), None);
}

#[test]
fn values_at_places() {
    let kernel = Kernel { number, arith, truncate, library: nothing };
    let grid = Value::Array2(Array2 {
        rows: 2,
        columns: 2,
        cells: vec![num(1.0), num(2.0), num(3.0), num(4.0)],
    });
    assert_eq!(kernel.index(&vec![grid.clone(), num(2.0), num(1.0)]), num(3.0));
    assert_eq!(kernel.index(&vec![grid.clone(), num(1.0), num(2.0)]), num(2.0));
    assert_eq!(kernel.index(&vec![grid.clone(), num(2.9), num(1.9)]), num(3.0));
    assert_eq!(kernel.index(&vec![grid.clone(), num(2.0)]), num(3.0));
    assert_eq!(kernel.index(&vec![grid.clone(), num(3.0), num(1.0)]), error(ExcelError::Ref));
    assert_eq!(kernel.index(&vec![grid, num(1.0), num(3.0)]), error(ExcelError::Ref));
    assert_eq!(evaluate_str("INDEX({1,2,3}, 1, 2)").unwrap(), num(2.0));
    assert_eq!(evaluate_str("INDEX({1,2;3,4}, 1, 3)").unwrap(), num(3.0));
    assert_eq!(evaluate_str("INDEX({1,2,3}, 1)").unwrap(), num(1.0));
    assert_eq!(evaluate_str("INDEX(5, 1, 1)").unwrap(), num(5.0));
}

#[test]
fn places_that_there_are_not() {
    assert_eq!(evaluate_str("INDEX({1,2;3,4}, 2, 1)").unwrap(), error(ExcelError::Ref));
    assert_eq!(evaluate_str("INDEX({1,2;3,4}, 1, 5)").unwrap(), error(ExcelError::Ref));
    assert_eq!(evaluate_str("INDEX({1,2;3,4}, 0, 1)").unwrap(), error(ExcelError::Ref));
    assert_eq!(evaluate_str("INDEX({1,2;3,4}, -1, 1)").unwrap(), error(ExcelError::Ref));
    assert_eq!(evaluate_str("INDEX({1,2,3}, 2, 1)").unwrap(), error(ExcelError::Ref));
    assert_eq!(evaluate_str("INDEX(5, 1, 2)").unwrap(), error(ExcelError::Ref));
    assert_eq!(evaluate_str("INDEX({1,2,3})").unwrap(), error(ExcelError::Value));
    assert_eq!(evaluate_str("INDEX({1,2,3}, \"x\")").unwrap(), error(ExcelError::Value));
    let short = Value::Array2(Array2 { rows: 2, columns: 2, cells: vec![num(1.0)] });
    assert_eq!(pick_at(&short, 2, 2), error(ExcelError::Ref));
    assert_eq!(pick_at(&short, 1, 1), num(1.0));
}

#[test]
fn items_of_values() {
    let grid = Value::Array2(Array2 { rows: 1, columns: 2, cells: vec![num(1.0), num(2.0)] });
    assert_eq!(value_items(&grid), vec![num(1.0), num(2.0)]);
    assert_eq!(value_items(&Value::Array(vec![txt("a")])), vec![txt("a")]);
    assert_eq!(value_items(&txt("a")), vec![txt("a")]);
    assert_eq!(value_items(&Value::Array(vec![])), Vec::<Value>::new());
}
