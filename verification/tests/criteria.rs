use excel_emulator::evaluate::kernel::Kernel;
use excel_emulator::evaluate::value::{Double, Value};
use excel_emulator::parser::ast::{Error as ExcelError, Infix, Number};
use excel_emulator::criteria::{choose_items, count_flags};

fn dbl(x: f64) -> Double {
    Double { bits: x.to_bits() }
}

fn num(x: f64) -> Value {
    Value::Num(dbl(x))
}

fn float(d: Double) -> f64 {
    f64::from_bits(d.bits)
}

fn number(n: &Number) -> Option<Double> {
    match n {
        Number::Integer(i) => Some(dbl(*i as f64)),
        Number::Decimal(t) => std::str::from_utf8(t).ok()?.parse::<f64>().ok().map(dbl),
    }
}

fn arith(op: Infix, a: Double, b: Double) -> Double {
    let (x, y) = (float(a), float(b));
    dbl(match op {
        Infix::Plus => x + y,
        Infix::Minus => x - y,
        Infix::Multiply => x * y,
        Infix::Divide => x / y,
        Infix::Exponent => x.powf(y),
        _ => f64::NAN,
    })
}

fn truncate(a: Double) -> i64 {
    float(a) as i64
}

fn nothing(_name: &Vec<u8>, _args: Vec<Value>) -> Option<Value> {
    None
}

fn txt(s: &str) -> Value {
    Value::Text(s.as_bytes().to_vec())
}

fn texts(items: &[&str]) -> Value {
    Value::Array(items.iter().map(|s| txt(s)).collect())
}

#[test]
fn items_that_meet_a_criterion() {
    let kernel = Kernel { number, arith, truncate, library: nothing };
    let items = vec![txt("a"), txt("b"), txt("a")];
    assert_eq!(kernel.verdicts(b"a", &items), Ok(vec![true, false, true]));
    assert_eq!(kernel.verdicts(b"<>a", &items), Ok(vec![false, true, false]));
    assert_eq!(kernel.verdicts(b"a", &vec![]), Ok(vec![]));
    assert_eq!(kernel.verdicts(b"a", &vec![txt("a"), num(1.0)]), Err(ExcelError::Value));
}

#[test]
fn places_that_pairs_keep() {
    let kernel = Kernel { number, arith, truncate, library: nothing };
    let first = texts(&["a", "b", "a", "a"]);
    let second = texts(&["x", "x", "y"]);
    assert_eq!(
        kernel.kept_by_pairs(&vec![first.clone(), txt("a")]),
        Ok(vec![true, false, true, true])
    );
    assert_eq!(
        kernel.kept_by_pairs(&vec![first.clone(), txt("a"), second.clone(), txt("x")]),
        Ok(vec![true, false, false, true])
    );
    assert_eq!(kernel.kept_by_pairs(&vec![]), Ok(vec![]));
    assert_eq!(kernel.kept_by_pairs(&vec![first.clone()]), Err(ExcelError::Value));
    assert_eq!(
        kernel.kept_by_pairs(&vec![first.clone(), txt("a"), second]),
        Err(ExcelError::Value)
    );
    assert_eq!(kernel.kept_by_pairs(&vec![first, num(1.0)]), Err(ExcelError::Value));
}

#[test]
fn counts_and_sums_over_kept_places() {
    let kernel = Kernel { number, arith, truncate, library: nothing };
    let names = texts(&["a", "b", "a"]);
    let amounts = Value::Array(vec![num(1.0), num(10.0), num(100.0)]);
    assert_eq!(kernel.countifs(&vec![names.clone(), txt("a")]), num(2.0));
    assert_eq!(kernel.countifs(&vec![names.clone(), txt("c")]), num(0.0));
    assert_eq!(kernel.countifs(&vec![]), num(0.0));
    assert_eq!(kernel.countifs(&vec![names.clone()]), Value::Error(ExcelError::Value));
    assert_eq!(kernel.sumifs(&vec![amounts.clone(), names.clone(), txt("a")]), num(101.0));
    assert_eq!(kernel.sumifs(&vec![amounts.clone(), names.clone(), txt("<>a")]), num(10.0));
    assert_eq!(kernel.sumifs(&vec![amounts.clone()]), num(0.0));
    assert_eq!(kernel.sumifs(&vec![]), Value::Error(ExcelError::Value));
    assert_eq!(
        kernel.sumifs(&vec![texts(&["x", "y", "z"]), names, txt("a")]),
        Value::Error(ExcelError::Value)
    );
}

#[test]
fn flags_choose_items() {
    let items = vec![num(1.0), num(2.0), num(3.0)];
    assert_eq!(choose_items(&items, &vec![true, false, true]), vec![num(1.0), num(3.0)]);
    assert_eq!(choose_items(&items, &vec![false, true]), vec![num(2.0)]);
    assert_eq!(choose_items(&items, &vec![]), Vec::<Value>::new());
    assert_eq!(choose_items(&items, &vec![true, true, true, true]), items);
    assert_eq!(count_flags(&vec![true, false, true]), 2);
    assert_eq!(count_flags(&vec![]), 0);
}

#[test]
fn counts_sums_and_averages_by_one_criterion() {
    let kernel = Kernel { number, arith, truncate, library: nothing };
    let names = texts(&["a", "b", "a", "c"]);
    let amounts = Value::Array(vec![num(1.0), num(10.0), num(100.0), num(1000.0)]);
    let digits = texts(&["1", "2", "3"]);
    assert_eq!(kernel.countif(&vec![names.clone(), txt("a")]), num(2.0));
    assert_eq!(kernel.countif(&vec![names.clone(), txt("<>a")]), num(2.0));
    assert_eq!(kernel.countif(&vec![names.clone()]), Value::Error(ExcelError::Value));
    assert_eq!(kernel.countif(&vec![names.clone(), num(1.0)]), Value::Error(ExcelError::Value));
    assert_eq!(kernel.countif(&vec![amounts.clone(), txt("a")]), Value::Error(ExcelError::Value));
    assert_eq!(kernel.sumif(&vec![names.clone(), txt("a"), amounts.clone()]), num(101.0));
    assert_eq!(kernel.sumif(&vec![digits.clone(), txt("<>2")]), num(4.0));
    assert_eq!(
        kernel.sumif(&vec![names.clone(), txt("a")]),
        Value::Error(ExcelError::Value)
    );
    assert_eq!(kernel.sumif(&vec![names.clone()]), Value::Error(ExcelError::Value));
    assert_eq!(kernel.averageif(&vec![names.clone(), txt("a"), amounts.clone()]), num(50.5));
    assert_eq!(kernel.averageif(&vec![digits, txt("<>2")]), num(2.0));
    assert_eq!(kernel.averageif(&vec![names.clone()]), Value::Error(ExcelError::Value));
    match kernel.averageif(&vec![names, txt("z"), amounts]) {
        Value::Num(mean) => assert!(float(mean).is_nan()),
        other => panic!("{:?}", other),
    }
}

#[test]
fn averages_over_places_that_one_pair_keeps() {
    let kernel = Kernel { number, arith, truncate, library: nothing };
    let names = texts(&["a", "b", "a", "c"]);
    let marks = texts(&["x", "y", "y"]);
    let amounts = Value::Array(vec![num(1.0), num(10.0), num(100.0), num(1000.0)]);
    assert_eq!(
        kernel.kept_by_any(&vec![names.clone(), txt("a"), marks.clone(), txt("y")]),
        Ok(vec![true, true, true, false])
    );
    assert_eq!(
        kernel.kept_by_any(&vec![marks.clone(), txt("x"), names.clone(), txt("c")]),
        Ok(vec![true, false, false, true])
    );
    assert_eq!(kernel.kept_by_any(&vec![names.clone()]), Err(ExcelError::Value));
    assert_eq!(kernel.averageifs(&vec![amounts.clone(), names.clone(), txt("a")]), num(50.5));
    assert_eq!(
        kernel.averageifs(&vec![amounts.clone(), names.clone(), txt("a"), marks, txt("y")]),
        num(37.0)
    );
    assert_eq!(kernel.averageifs(&vec![]), Value::Error(ExcelError::Value));
    assert_eq!(
        kernel.averageifs(&vec![amounts, names]),
        Value::Error(ExcelError::Value)
    );
}
