use excel_emulator::errors::Error;
use excel_emulator::evaluate::kernel::Kernel;
use excel_emulator::evaluate::value::{Date, Double, Value};
use excel_emulator::parser::ast::{Error as ExcelError, Infix, Number};
use excel_emulator::calendar::{date_parts, difference, Parts};

fn dbl(x: f64) -> Double {
    Double { bits: x.to_bits() }
}

fn num(x: f64) -> Value {
    Value::Num(dbl(x))
}

fn float(d: Double) -> f64 {
    f64::from_bits(d.bits)
}

fn number(n: &Number) -> Option<Double> {
    match n {
        Number::Integer(i) => Some(dbl(*i as f64)),
        Number::Decimal(t) => std::str::from_utf8(t).ok()?.parse::<f64>().ok().map(dbl),
    }
}

fn arith(op: Infix, a: Double, b: Double) -> Double {
    let (x, y) = (float(a), float(b));
    dbl(match op {
        Infix::Plus => x + y,
        Infix::Minus => x - y,
        Infix::Multiply => x * y,
        Infix::Divide => x / y,
        Infix::Exponent => x.powf(y),
        _ => f64::NAN,
    })
}

fn truncate(a: Double) -> i64 {
    float(a) as i64
}

fn nothing(_name: &Vec<u8>, _args: Vec<Value>) -> Option<Value> {
    None
}

fn evaluate_str(s: &str) -> Result<Value, Error> {
    let kernel = Kernel { number, arith, truncate, library: nothing };
    kernel.evaluate_str(s)
}

fn date(y: i32, m: u32, d: u32) -> Value {
    Value::Date(Date {
        days: chrono::Datelike::num_days_from_ce(&chrono::NaiveDate::from_ymd_opt(y, m, d).unwrap()),
    })
}

fn error(kind: ExcelError) -> Value {
    Value::Error(kind)
}

#[test]
fn test_date() {
    assert_eq!(evaluate_str("DATE(2022, 1, 1)").unwrap(), date(2022, 1, 1));
}

#[test]
fn test_datedif() {
    assert_eq!(
        evaluate_str("DATEDIF(DATE(2004, 2, 10), DATE(2020, 3, 10), \"Y\")").unwrap(),
        num(16.0)
    );
    assert_eq!(
        evaluate_str("DATEDIF(DATE(2004, 2, 10), DATE(2020, 3, 10), \"M\")").unwrap(),
        num(193.0)
    );
    assert_eq!(
        evaluate_str("DATEDIF(DATE(2004, 2, 10), DATE(2020, 3, 10), \"D\")").unwrap(),
        num(5873.0)
    );
    assert_eq!(
        evaluate_str("DATEDIF(DATE(2004, 2, 10), DATE(2020, 3, 10), \"YM\")").unwrap(),
        num(1.0)
    );
    assert_eq!(
        evaluate_str("DATEDIF(DATE(2004, 2, 10), DATE(2020, 3, 10), \"MD\")").unwrap(),
        num(0.0)
    );
    assert_eq!(
        evaluate_str("DATEDIF(DATE(2004, 2, 10), DATE(2020, 3, 10), \"YD\")").unwrap(),
        num(29.0)
    );
}

#[test]
fn test_eomonth() {
    assert_eq!(evaluate_str("EOMONTH(DATE(2004, 2, 29), 12)").unwrap(), date(2005, 2, 28));
    assert_eq!(evaluate_str("EOMONTH(DATE(2004, 2, 28), 12)").unwrap(), date(2005, 2, 28));
    assert_eq!(evaluate_str("EOMONTH(DATE(2004, 1, 15), -23)").unwrap(), date(2002, 2, 28));
    assert_eq!(evaluate_str("EOMONTH(DATE(2004, 1, 15), 0)").unwrap(), date(2004, 1, 31));
}

#[test]
fn test_yearfrac() {
    let kernel = Kernel { number, arith, truncate, library: nothing };
    let value = evaluate_str("YEARFRAC(DATE(2012, 1, 1), DATE(2012, 7, 30))").unwrap();
    let fraction = float(kernel.as_num(&value).unwrap());
    assert!(0.58055 - fraction < 0.01);
    assert_eq!(value, num(211.0 / 360.0));
}

#[test]
fn years_and_months_of_dates() {
    assert_eq!(evaluate_str("YEAR(DATE(2020, 3, 10))").unwrap(), num(2020.0));
    assert_eq!(evaluate_str("MONTH(DATE(2020, 3, 10))").unwrap(), num(3.0));
    assert_eq!(evaluate_str("YEAR(1)").unwrap(), error(ExcelError::Value));
    assert_eq!(evaluate_str("MONTH()").unwrap(), error(ExcelError::Value));
}

#[test]
fn dates_that_the_calendar_has_not() {
    assert_eq!(evaluate_str("DATE(2022, 13, 1)").unwrap(), error(ExcelError::Num));
    assert_eq!(evaluate_str("DATE(2022, 2, 30)").unwrap(), error(ExcelError::Num));
    assert_eq!(evaluate_str("DATE(2022, 0, 1)").unwrap(), error(ExcelError::Num));
    assert_eq!(evaluate_str("DATE(2022, -1, 1)").unwrap(), error(ExcelError::Num));
    assert_eq!(evaluate_str("DATE(400000, 1, 1)").unwrap(), error(ExcelError::Num));
    assert_eq!(evaluate_str("DATE(2022, 1)").unwrap(), error(ExcelError::Value));
    assert_eq!(evaluate_str("DATE(2022, \"x\", 1)").unwrap(), error(ExcelError::Value));
    assert_eq!(evaluate_str("DATE(2022.9, 1.5, 1.2)").unwrap(), date(2022, 1, 1));
    let kernel = Kernel { number, arith, truncate, library: nothing };
    let far = Value::Date(Date { days: i32::MAX });
    assert_eq!(kernel.year(&vec![far]), error(ExcelError::Num));
    assert_eq!(date_parts(Date { days: i32::MIN }), None);
}

#[test]
fn units_of_a_difference() {
    assert_eq!(
        evaluate_str("DATEDIF(DATE(2004, 2, 10), DATE(2020, 3, 10), \"m\")").unwrap(),
        num(193.0)
    );
    assert_eq!(
        evaluate_str("DATEDIF(DATE(2020, 3, 10), DATE(2004, 2, 10), \"yd\")").unwrap(),
        num(-29.0)
    );
    assert_eq!(
        evaluate_str("DATEDIF(DATE(2004, 2, 10), DATE(2020, 3, 10), \"Md\")").unwrap(),
        error(ExcelError::Value)
    );
    assert_eq!(
        evaluate_str("DATEDIF(DATE(2004, 2, 10), DATE(2020, 3, 10), \"W\")").unwrap(),
        error(ExcelError::Value)
    );
    assert_eq!(
        evaluate_str("DATEDIF(DATE(2004, 2, 10), DATE(2020, 3, 10))").unwrap(),
        error(ExcelError::Value)
    );
    assert_eq!(
        evaluate_str("DATEDIF(1, DATE(2020, 3, 10), \"M\")").unwrap(),
        error(ExcelError::Value)
    );
    assert_eq!(
        evaluate_str("DATEDIF(DATE(2004, 2, 10), DATE(2020, 3, 10), 1)").unwrap(),
        error(ExcelError::Value)
    );
}

#[test]
fn parts_of_a_date() {
    let parts = date_parts(Date { days: 1 }).unwrap();
    assert_eq!(parts, Parts { days: 1, year: 1, month: 1, day: 1, ordinal: 1 });
    let leap = date_parts(Date { days: 731_640 }).unwrap();
    assert_eq!((leap.year, leap.month, leap.day, leap.ordinal), (2004, 2, 29, 60));
    assert_eq!(difference(b"D", parts, leap), Some(731_639));
    assert_eq!(difference(b"Y", parts, leap), Some(2003));
    assert_eq!(difference(b"", parts, leap), None);
}

#[test]
fn ends_of_months() {
    assert_eq!(evaluate_str("EOMONTH(DATE(2004, 1, 31), 1)").unwrap(), date(2004, 2, 29));
    assert_eq!(evaluate_str("EOMONTH(DATE(2004, 3, 31), -1)").unwrap(), date(2004, 2, 29));
    assert_eq!(evaluate_str("EOMONTH(DATE(2004, 12, 1), 0.5)").unwrap(), date(2004, 12, 31));
    assert_eq!(evaluate_str("EOMONTH(DATE(2004, 1, 15))").unwrap(), error(ExcelError::Value));
    assert_eq!(evaluate_str("EOMONTH(1, 1)").unwrap(), error(ExcelError::Value));
    assert_eq!(
        evaluate_str("EOMONTH(DATE(2004, 1, 15), 9000000)").unwrap(),
        error(ExcelError::Num)
    );
}

#[test]
fn days_after_and_before_a_date() {
    assert_eq!(evaluate_str("DATE(2020, 2, 28) + 1").unwrap(), date(2020, 2, 29));
    assert_eq!(evaluate_str("DATE(2020, 3, 1) - 1").unwrap(), date(2020, 2, 29));
    assert_eq!(evaluate_str("DATE(2019, 12, 31) + 366").unwrap(), date(2020, 12, 31));
    assert_eq!(evaluate_str("DATE(2020, 1, 1) + 0.9").unwrap(), date(2020, 1, 1));
    assert_eq!(evaluate_str("DATE(2020, 1, 1) - -1").unwrap(), date(2020, 1, 2));
}

#[test]
fn days_beyond_the_calendar() {
    let kernel = Kernel { number, arith, truncate, library: nothing };
    let day = date(2020, 1, 1);
    let far = Value::Date(Date { days: i32::MAX });
    assert_eq!(kernel.arithmetic(Infix::Plus, &day, &num(1.0e9)), error(ExcelError::Num));
    assert_eq!(kernel.arithmetic(Infix::Minus, &day, &num(1.0e9)), error(ExcelError::Num));
    assert_eq!(kernel.arithmetic(Infix::Plus, &day, &num(1.0e300)), error(ExcelError::Num));
    assert_eq!(kernel.arithmetic(Infix::Minus, &day, &num(-1.0e300)), error(ExcelError::Num));
    assert_eq!(kernel.arithmetic(Infix::Minus, &day, &num(1.0e300)), error(ExcelError::Num));
    assert_eq!(kernel.arithmetic(Infix::Plus, &far, &num(0.0)), error(ExcelError::Num));
    assert_eq!(kernel.arithmetic(Infix::Minus, &far, &num(1.0)), error(ExcelError::Num));
    assert_eq!(kernel.arithmetic(Infix::Plus, &day, &num(0.0)), day);
}
