use excel_emulator::errors::Error;
use excel_emulator::evaluate::kernel::Kernel;
use excel_emulator::evaluate::value::{Array2, Double, Value};
use excel_emulator::function::{
    andfunc, criteria_text, iffunc, max, min, orfunc, spread_values, Keep,
};
use excel_emulator::parser::ast::{Error as ExcelError, Infix, Number};

fn dbl(x: f64) -> Double {
    Double { bits: x.to_bits() }
}

fn num(x: f64) -> Value {
    Value::Num(dbl(x))
}

fn txt(s: &str) -> Value {
    Value::Text(s.as_bytes().to_vec())
}

fn float(d: Double) -> f64 {
    f64::from_bits(d.bits)
}

fn number(n: &Number) -> Option<Double> {
    match n {
        Number::Integer(i) => Some(dbl(*i as f64)),
        Number::Decimal(t) => std::str::from_utf8(t).ok()?.parse::<f64>().ok().map(dbl),
    }
}

fn arith(op: Infix, a: Double, b: Double) -> Double {
    let (x, y) = (float(a), float(b));
    dbl(match op {
        Infix::Plus => x + y,
        Infix::Minus => x - y,
        Infix::Multiply => x * y,
        Infix::Divide => x / y,
        Infix::Exponent => x.powf(y),
        _ => f64::NAN,
    })
}

fn truncate(a: Double) -> i64 {
    float(a) as i64
}

fn nothing(_name: &Vec<u8>, _args: Vec<Value>) -> Option<Value> {
    None
}

fn evaluate_str(s: &str) -> Result<Value, Error> {
    let kernel = Kernel { number, arith, truncate, library: nothing };
    kernel.evaluate_str(s)
}

fn sums() {
    assert_eq!(evaluate_str("SUM(1,2,3,4,5)").unwrap(), num(15.0));
    assert_eq!(evaluate_str("SUM({1,2;3,4})").unwrap(), num(10.0));
    assert_eq!(evaluate_str("SUM({1,2,3,4,5},6,\"7\")").unwrap(), num(28.0));
    assert_eq!(evaluate_str("SUM({1,\"2\",TRUE,4})").unwrap(), num(5.0));
}

#[test]
fn function_test_sum() {
    sums();
}

#[test]
fn mod_test_sum() {
    sums();
}

fn averages() {
    assert_eq!(evaluate_str("AVERAGE(1,2,3,4,5)").unwrap(), num(3.0));
    assert_eq!(evaluate_str("AVERAGE({1,2;3,4})").unwrap(), num(2.5));
    assert_eq!(evaluate_str("AVERAGE({1,2,3,4,5},6,\"7\")").unwrap(), num(4.0));
    assert_eq!(evaluate_str("AVERAGE({1,\"2\",TRUE,4})").unwrap(), num(2.5));
}

#[test]
fn function_test_average() {
    averages();
}

#[test]
fn mod_test_average() {
    averages();
}

fn counts() {
    assert_eq!(evaluate_str("COUNT(1,2,3,4,5)").unwrap(), num(5.0));
    assert_eq!(evaluate_str("COUNT({1,2,3,4,5})").unwrap(), num(5.0));
    assert_eq!(evaluate_str("COUNT({1,2,3,4,5},6,\"7\")").unwrap(), num(7.0));
}

#[test]
fn function_test_count() {
    counts();
}

#[test]
fn mod_test_count() {
    counts();
}

#[test]
fn function_test_concat() {
    assert_eq!(evaluate_str("CONCAT(\"test\", \"func\")").unwrap(), txt("testfunc"));
}

#[test]
fn mod_test_concat() {
    assert_eq!(evaluate_str("CONCAT(\"test\", \"func\")").unwrap(), txt("testfunc"));
}

#[test]
fn function_test_and() {
    assert_eq!(evaluate_str("AND(TRUE, TRUE)").unwrap(), Value::Bool(true));
}

#[test]
fn mod_test_and() {
    assert_eq!(evaluate_str("AND(TRUE, TRUE)").unwrap(), Value::Bool(true));
}

#[test]
fn function_test_or() {
    assert_eq!(evaluate_str("OR(TRUE, FALSE)").unwrap(), Value::Bool(true));
}

#[test]
fn mod_test_or() {
    assert_eq!(evaluate_str("OR(TRUE, FALSE)").unwrap(), Value::Bool(true));
}

#[test]
fn function_test_max_min() {
    assert_eq!(evaluate_str("MAX(1, 5, 10)").unwrap(), num(10.0));
    assert_eq!(evaluate_str("MIN(1, 5, 10)").unwrap(), num(1.0));
}

#[test]
fn mod_test_max_min() {
    assert_eq!(evaluate_str("MAX(1, 5, 10)").unwrap(), num(10.0));
    assert_eq!(evaluate_str("MIN(1, 5, 10)").unwrap(), num(1.0));
}

#[test]
fn test_counta() {
    assert_eq!(evaluate_str("COUNTA(1,2,3,4,5)").unwrap(), num(5.0));
    assert_eq!(evaluate_str("COUNTA({1,2,3,4,5})").unwrap(), num(5.0));
    assert_eq!(evaluate_str("COUNTA({1,2,3,4,5},6,\"7\")").unwrap(), num(7.0));
}

#[test]
fn test_if() {
    assert_eq!(evaluate_str("IF(TRUE, 1, 2)").unwrap(), num(1.0));
    assert_eq!(evaluate_str("IF(FALSE, 1, 2)").unwrap(), num(2.0));
}

#[test]
fn arguments_that_are_no_truth_values() {
    assert_eq!(evaluate_str("IF(2, 1, 2)").unwrap(), Value::Error(ExcelError::Value));
    assert_eq!(evaluate_str("IF(TRUE, 1)").unwrap(), Value::Error(ExcelError::Value));
    assert_eq!(evaluate_str("IF(1, \"a\", \"b\")").unwrap(), txt("a"));
    assert_eq!(evaluate_str("AND(FALSE, \"x\")").unwrap(), Value::Bool(false));
    assert_eq!(evaluate_str("AND(TRUE, \"x\")").unwrap(), Value::Error(ExcelError::Value));
    assert_eq!(evaluate_str("AND(TRUE)").unwrap(), Value::Error(ExcelError::Value));
    assert_eq!(evaluate_str("OR(TRUE, \"x\")").unwrap(), Value::Bool(true));
    assert_eq!(evaluate_str("OR(FALSE, \"x\")").unwrap(), Value::Error(ExcelError::Value));
    assert_eq!(evaluate_str("OR(0, 0)").unwrap(), Value::Bool(false));
    assert_eq!(andfunc(&vec![]), Value::Error(ExcelError::Value));
    assert_eq!(orfunc(&vec![Value::Bool(true)]), Value::Error(ExcelError::Value));
    assert_eq!(iffunc(&vec![Value::Bool(false), num(1.0), num(2.0), num(3.0)]), num(2.0));
}

#[test]
fn sums_and_averages_of_what_is_no_number() {
    assert_eq!(evaluate_str("SUM()").unwrap(), num(0.0));
    assert_eq!(evaluate_str("SUM(\"a\")").unwrap(), Value::Error(ExcelError::Value));
    assert_eq!(evaluate_str("SUM(TRUE, 1)").unwrap(), num(2.0));
    assert_eq!(evaluate_str("SUM(1, #N/A)").unwrap(), Value::Error(ExcelError::NA));
    assert_eq!(evaluate_str("SUM(SUM(1,2), 1)").unwrap(), num(4.0));
    assert_eq!(evaluate_str("AVERAGE(\"a\", 1)").unwrap(), Value::Error(ExcelError::Value));
    assert!(match evaluate_str("AVERAGE()").unwrap() {
        Value::Num(d) => float(d).is_nan(),
        _ => false,
    });
    assert_eq!(evaluate_str("EXPONENT(2, 10)").unwrap(), num(1024.0));
    assert_eq!(evaluate_str("EXPONENT(2)").unwrap(), Value::Error(ExcelError::Value));
    assert_eq!(evaluate_str("CONCAT(\"a\")").unwrap(), Value::Error(ExcelError::Value));
    assert_eq!(evaluate_str("CONCAT(\"a\", 1)").unwrap(), Value::Error(ExcelError::Value));
}

#[test]
fn rectangles_count_for_sums_but_not_for_averages() {
    let kernel = Kernel { number, arith, truncate, library: nothing };
    let grid = Value::Array2(Array2 {
        rows: 2,
        columns: 2,
        cells: vec![num(1.0), txt("x"), Value::Empty, num(3.0)],
    });
    let args = vec![grid, num(10.0)];
    assert_eq!(kernel.sum(&args), num(14.0));
    assert_eq!(kernel.average(&args), num(5.5));
    assert_eq!(kernel.count(&args), num(2.0));
    assert_eq!(kernel.counta(&args), num(4.0));
    assert_eq!(max(&args), args[0]);
    assert_eq!(min(&args), num(1.0));
    assert_eq!(max(&vec![num(2.0), args[0].clone()]), num(3.0));
    assert_eq!(min(&args[1..].to_vec()), num(10.0));
    assert_eq!(
        spread_values(&args, true, Keep::Numbers),
        vec![num(1.0), num(3.0), num(10.0)]
    );
    assert_eq!(
        spread_values(&args, true, Keep::Filled),
        vec![num(1.0), txt("x"), num(3.0), num(10.0)]
    );
    assert_eq!(spread_values(&args, false, Keep::Numbers).len(), 2);
}

#[test]
fn largest_and_smallest() {
    assert_eq!(
        evaluate_str("MAX({1, 7, \"z\"}, 3)").unwrap(),
        Value::Array(vec![num(1.0), num(7.0), txt("z")])
    );
    assert_eq!(evaluate_str("MIN({1, 7, \"z\"}, 3)").unwrap(), num(1.0));
    assert_eq!(evaluate_str("MAX(3, {1, 7, \"z\"})").unwrap(), num(7.0));
    assert_eq!(evaluate_str("MIN(3, {1, 7, \"z\"})").unwrap(), num(1.0));
    assert_eq!(evaluate_str("MAX(1, \"a\")").unwrap(), num(1.0));
    assert_eq!(evaluate_str("MIN(1, \"a\")").unwrap(), txt("a"));
    assert_eq!(evaluate_str("MAX(TRUE, \"a\")").unwrap(), txt("a"));
    assert_eq!(evaluate_str("MAX()").unwrap(), Value::Error(ExcelError::Value));
    assert_eq!(max(&vec![]), Value::Error(ExcelError::Value));
}

#[test]
fn criteria_become_formulas() {
    assert_eq!(criteria_text(b">5", b"7"), b"\"5\">\"7\"".to_vec());
    assert_eq!(criteria_text(b"apple", b"apple"), b"\"apple\"=\"apple\"".to_vec());
    assert_eq!(criteria_text(b"<>a", b"b"), b"\"a\"<>\"b\"".to_vec());
    assert_eq!(criteria_text(b"<=a", b"b"), b"\"a\"<=\"b\"".to_vec());
    assert_eq!(criteria_text(b">=a", b"b"), b"\"a\">=\"b\"".to_vec());
    assert_eq!(criteria_text(b"<a", b"b"), b"\"a\"<\"b\"".to_vec());
    assert_eq!(criteria_text(b"=\"x\"", b"\"y\""), b"\"x\"=\"y\"".to_vec());
    assert_eq!(criteria_text(b"=a=b", b"c"), b"\"a\"=\"c\"".to_vec());
    assert_eq!(criteria_text(b"a<", b"c"), b"\"\"<\"c\"".to_vec());
    assert_eq!(criteria_text(b"", b""), b"\"\"=\"\"".to_vec());
}

#[test]
fn cells_meet_criteria_as_texts() {
    let kernel = Kernel { number, arith, truncate, library: nothing };
    assert_eq!(kernel.parse_criteria(b"apple", &txt("apple")), Ok(true));
    assert_eq!(kernel.parse_criteria(b"apple", &txt("pear")), Ok(false));
    assert_eq!(kernel.parse_criteria(b"<>a", &txt("b")), Ok(true));
    assert_eq!(kernel.parse_criteria(b">5", &txt("7")), Ok(false));
    assert_eq!(kernel.parse_criteria(b"<5", &txt("7")), Ok(true));
    assert_eq!(kernel.parse_criteria(b"=x", &Value::Array(vec![txt("x"), txt("y")])), Ok(true));
    assert_eq!(kernel.parse_criteria(b"=x", &num(1.0)), Err(ExcelError::Value));
    assert_eq!(kernel.parse_criteria(b"=x", &Value::Empty), Err(ExcelError::Value));
}
