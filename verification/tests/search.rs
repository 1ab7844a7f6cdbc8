use excel_emulator::errors::Error;
use excel_emulator::evaluate::kernel::Kernel;
use excel_emulator::evaluate::value::{Double, Value};
use excel_emulator::parser::ast::{Error as ExcelError, Infix, Number};
use excel_emulator::search::{find_text, skip_chars, value_word};

fn dbl(x: f64) -> Double {
    Double { bits: x.to_bits() }
}

fn num(x: f64) -> Value {
    Value::Num(dbl(x))
}

fn float(d: Double) -> f64 {
    f64::from_bits(d.bits)
}

fn number(n: &Number) -> Option<Double> {
    match n {
        Number::Integer(i) => Some(dbl(*i as f64)),
        Number::Decimal(t) => std::str::from_utf8(t).ok()?.parse::<f64>().ok().map(dbl),
    }
}

fn arith(op: Infix, a: Double, b: Double) -> Double {
    let (x, y) = (float(a), float(b));
    dbl(match op {
        Infix::Plus => x + y,
        Infix::Minus => x - y,
        Infix::Multiply => x * y,
        Infix::Divide => x / y,
        Infix::Exponent => x.powf(y),
        _ => f64::NAN,
    })
}

fn truncate(a: Double) -> i64 {
    float(a) as i64
}

fn nothing(_name: &Vec<u8>, _args: Vec<Value>) -> Option<Value> {
    None
}

fn evaluate_str(s: &str) -> Result<Value, Error> {
    let kernel = Kernel { number, arith, truncate, library: nothing };
    kernel.evaluate_str(s)
}

fn txt(s: &str) -> Value {
    Value::Text(s.as_bytes().to_vec())
}

fn error(kind: ExcelError) -> Value {
    Value::Error(kind)
}

#[test]
fn test_search() {
    assert_eq!(evaluate_str("SEARCH(\"a\",\"Apple\") ").unwrap(), num(1.0));
    assert_eq!(evaluate_str("SEARCH(\"the\",\"The cat in the hat\")").unwrap(), num(1.0));
    assert_eq!(evaluate_str("SEARCH(\"the\",\"The cat in the hat\",4)").unwrap(), num(12.0));
}

#[test]
fn texts_that_are_not_found() {
    assert_eq!(evaluate_str("SEARCH(\"x\",\"Apple\")").unwrap(), error(ExcelError::Value));
    assert_eq!(evaluate_str("SEARCH(\"a\",\"Apple\",2)").unwrap(), error(ExcelError::Value));
    assert_eq!(evaluate_str("SEARCH(\"a\",\"Apple\",99)").unwrap(), error(ExcelError::Value));
    assert_eq!(evaluate_str("SEARCH(\"a\")").unwrap(), error(ExcelError::Value));
    assert_eq!(evaluate_str("SEARCH()").unwrap(), error(ExcelError::Value));
    assert_eq!(evaluate_str("SEARCH(1,\"Apple\")").unwrap(), error(ExcelError::Value));
    assert_eq!(evaluate_str("SEARCH(\"a\",\"Apple\",\"x\")").unwrap(), error(ExcelError::Value));
}

#[test]
fn places_of_texts() {
    let kernel = Kernel { number, arith, truncate, library: nothing };
    assert_eq!(evaluate_str("SEARCH(\"PL\",\"apple\")").unwrap(), num(3.0));
    assert_eq!(evaluate_str("SEARCH(\"a\",\"banana\",3)").unwrap(), num(4.0));
    assert_eq!(evaluate_str("SEARCH(\"a\",\"banana\",0)").unwrap(), num(2.0));
    assert_eq!(evaluate_str("SEARCH(\"a\",\"banana\",-5)").unwrap(), num(2.0));
    assert_eq!(evaluate_str("SEARCH(\"\",\"banana\")").unwrap(), num(1.0));
    assert_eq!(evaluate_str("SEARCH(\"\",\"banana\",9)").unwrap(), num(9.0));
    assert_eq!(kernel.search(&vec![txt("\u{e9}"), txt("caf\u{c9}")]), num(4.0));
    assert_eq!(kernel.search(&vec![txt("x"), txt("\u{c9}\u{c9}x")]), num(5.0));
    assert_eq!(kernel.search(&vec![txt("x"), txt("\u{c9}\u{c9}x"), num(3.0)]), num(3.0));
    assert_eq!(kernel.search(&vec![txt("x"), txt("\u{c9}\u{c9}x"), num(2.0)]), num(4.0));
    let broken = Value::Text(vec![0x61, 0xFF]);
    assert_eq!(kernel.search(&vec![txt("a"), broken.clone()]), error(ExcelError::Value));
    assert_eq!(kernel.search(&vec![broken, txt("a")]), error(ExcelError::Value));
}

#[test]
fn words_in_small_letters() {
    assert_eq!(value_word(&txt("AbC")), Ok(b"abc".to_vec()));
    assert_eq!(value_word(&txt("\u{c9}")), Ok("\u{e9}".as_bytes().to_vec()));
    assert_eq!(value_word(&txt("")), Ok(vec![]));
    assert_eq!(value_word(&num(1.0)), Err(ExcelError::Value));
    assert_eq!(value_word(&Value::Text(vec![0xC3])), Err(ExcelError::Value));
}

#[test]
fn characters_are_skipped_and_texts_found_on_bytes() {
    assert_eq!(skip_chars(b"abc", 0), 0);
    assert_eq!(skip_chars(b"abc", 2), 2);
    assert_eq!(skip_chars(b"abc", 3), 3);
    assert_eq!(skip_chars(b"abc", 9), 3);
    assert_eq!(skip_chars("\u{e9}a".as_bytes(), 1), 2);
    assert_eq!(skip_chars("a\u{20ac}b".as_bytes(), 2), 4);
    assert_eq!(skip_chars(b"", 0), 0);
    assert_eq!(find_text(b"banana", b"na"), Some(2));
    assert_eq!(find_text(b"banana", b"banana"), Some(0));
    assert_eq!(find_text(b"banana", b"nab"), None);
    assert_eq!(find_text(b"banana", b"bananas"), None);
    assert_eq!(find_text(b"banana", b""), Some(0));
    assert_eq!(find_text(b"", b""), Some(0));
    assert_eq!(find_text(b"", b"a"), None);
    assert_eq!(find_text(b"aab", b"ab"), Some(1));
}
