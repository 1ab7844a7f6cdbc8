use excel_emulator::cell::CellIndex;
use excel_emulator::errors::Error;
use excel_emulator::evaluate::value::{Date, Double, Value};
use excel_emulator::parser::parse_str;
use excel_emulator::range::Range;
use excel_emulator::utils::{
    adjust_expression, adjust_formula, column_number_to_letter, exprs_string, formula_value,
};
use excel_emulator::workbook::{Book, CellRecord, SharedFormula, SharedString, Style};

fn written(formula: &str) -> String {
    String::from_utf8(exprs_string(&parse_str(formula).unwrap())).unwrap()
}

fn adjusted(base: (usize, usize), current: (usize, usize), formula: &str) -> String {
    let base = CellIndex { row: base.0, column: base.1 };
    let current = CellIndex { row: current.0, column: current.1 };
    String::from_utf8(adjust_formula(base, current, formula.as_bytes()).unwrap()).unwrap()
}

#[test]
fn test_adjust_formula() {
    assert_eq!(adjusted((1, 1), (2, 1), "Sheet1!A1"), "Sheet1!A2");
    assert_eq!(adjusted((1, 1), (2, 1), "A1+A2"), "(A2+A3)");
    assert_eq!(adjusted((1, 1), (2, 1), "SUM(A1+A2)"), "SUM((A2+A3))");
    assert_eq!(adjusted((1, 1), (2, 1), "{A1, A2}"), "{A2, A3}");
}

#[test]
fn test_adjust_formula_anchored() {
    assert_eq!(adjusted((1, 1), (2, 2), "Sheet1!$A$1"), "Sheet1!$A$1");
    assert_eq!(adjusted((1, 1), (2, 2), "$A$1+A2"), "($A$1+B3)");
    assert_eq!(adjusted((1, 1), (2, 2), "SUM(A$1+A$2)"), "SUM((B$1+B$2))");
    assert_eq!(adjusted((1, 1), (2, 2), "{A1, A2}"), "{B2, B3}");
}

#[test]
fn adjusting_off_the_sheet_gives_a_ref_error() {
    assert_eq!(adjusted((2, 2), (1, 1), "A1+B2"), "(#REF!+A1)");
    assert_eq!(adjusted((2, 2), (1, 1), "SUM(A:A, B:C)"), "SUM(#REF!, A:B)");
    assert_eq!(
        adjust_formula(CellIndex { row: 1, column: 1 }, CellIndex { row: 1, column: 1 }, b"1 +"),
        Err(Error::UnableToParse(b"1 +".to_vec()))
    );
    let moved = adjust_expression(0, -1, &parse_str("B1:$C$2").unwrap());
    assert_eq!(moved, parse_str("A1:$C$2").unwrap());
}

#[test]
fn lib_test_num() {
    assert_eq!(written(" 1 "), "1");
    assert_eq!(written(" 150 "), "150");
}

#[test]
fn lib_test_operators() {
    assert_eq!(written("1 + 1"), "(1+1)");
    assert_eq!(written("1 - 1"), "(1-1)");
    assert_eq!(written("1 / 1"), "(1/1)");
    assert_eq!(written("1 * 1"), "(1*1)");
    assert_eq!(written("1 ^ 1"), "(1^1)");
    assert_eq!(written("1 = 1"), "(1=1)");
    assert_eq!(written("1 < 1"), "(1<1)");
    assert_eq!(written("1 <= 1"), "(1<=1)");
    assert_eq!(written("1 > 1"), "(1>1)");
    assert_eq!(written("1 >= 1"), "(1>=1)");
    assert_eq!(written("1 <> 1"), "(1<>1)");
    assert_eq!(written("22 * 44 + 66"), "((22*44)+66)");
}

#[test]
fn lib_test_errors() {
    assert_eq!(written("#NULL!"), "#NULL!");
    assert_eq!(written("#DIV/0!"), "#DIV/0!");
    assert_eq!(written("#VALUE!"), "#VALUE!");
    assert_eq!(written("#REF!"), "#REF!");
    assert_eq!(written("#NAME!"), "#NAME!");
    assert_eq!(written("#NUM!"), "#NUM!");
    assert_eq!(written("#N/A"), "#N/A");
    assert_eq!(written("#GETTING_DATA"), "#GETTING_DATA");
}

#[test]
fn parse_test_cell() {
    assert_eq!(written(" Sheet!A1 "), "Sheet!A1");
    assert_eq!(written(" 'Sheet 1'!A1 "), "'Sheet 1'!A1");
    assert_eq!(written(" 'Sheet 1':'Sheet 2'!A1 "), "'Sheet 1':'Sheet 2'!A1");
    assert_eq!(written(" Sheet1:Sheet2!A1 "), "Sheet1:Sheet2!A1");
    assert_eq!(written(" Sheet1!A1:A2 "), "Sheet1!A1:A2");
    assert_eq!(written(" Sheet1!$A$1:A2 "), "Sheet1!$A$1:A2");
    assert_eq!(written(" A1 "), "A1");
}

#[test]
fn lib_test_bool() {
    assert_eq!(written(" TRUE "), "TRUE");
    assert_eq!(written(" FALSE "), "FALSE");
}

#[test]
fn parse_test_function() {
    assert_eq!(written(" test(\"a\", \"b\") "), "test(\"a\", \"b\")");
}

#[test]
fn parse_test_array() {
    assert_eq!(written(" {1, 2, 3, 4} "), "{1, 2, 3, 4}");
}

#[test]
fn test_mix() {
    assert_eq!(written("test({1, 2, 3, 4}, 1, \"a\")"), "test({1, 2, 3, 4}, 1, \"a\")");
}

#[test]
fn written_formulas_parse_back() {
    for formula in [
        "-(1+1)-2",
        "2^3^2",
        "\"a \\\"quoted\\\" text\" & \"\\\\\"",
        "IF(A1<>\"\", 'My Sheet'!$B$2:C3, {1;2.50;TRUE})",
        "SUM(A:A, 1:2, $B:$C) >= -+3",
    ] {
        let first = parse_str(formula).unwrap();
        let text = String::from_utf8(exprs_string(&first)).unwrap();
        assert_eq!(parse_str(&text).unwrap(), first, "{}", text);
    }
}

#[test]
fn column_letters() {
    assert_eq!(column_number_to_letter(1), b"A".to_vec());
    assert_eq!(column_number_to_letter(26), b"Z".to_vec());
    assert_eq!(column_number_to_letter(27), b"AA".to_vec());
    assert_eq!(column_number_to_letter(52), b"AZ".to_vec());
    assert_eq!(column_number_to_letter(702), b"ZZ".to_vec());
    assert_eq!(column_number_to_letter(703), b"AAA".to_vec());
    assert_eq!(column_number_to_letter(16384), b"XFD".to_vec());
    assert_eq!(column_number_to_letter(0), b"".to_vec());
}

#[test]
fn formula_cells_lose_the_function_prefix() {
    assert_eq!(formula_value(b"_xlfn.XIRR(A1)+_xlfn.X(1)"), b"=XIRR(A1)+X(1)".to_vec());
    assert_eq!(formula_value(b"B2+1"), b"=B2+1".to_vec());
    assert_eq!(formula_value(b"_xlfn"), b"=_xlfn".to_vec());
    assert_eq!(formula_value(b""), b"=".to_vec());
}

#[test]
fn records_of_a_workbook_file() {
    let mut book = Book::new();
    book.add_sheet(b"test 1".to_vec());
    book.shared_strings.push(SharedString(b"Text".to_vec()));
    book.styles.push(Style { number_format_id: 0, apply_number_format: false });
    book.styles.push(Style { number_format_id: 14, apply_number_format: true });
    let mut shared: Vec<SharedFormula> = Vec::new();
    let number = Double { bits: 44562.0f64.to_bits() };
    let date = Date { days: 738156 };
    let cells = vec![
        (1, 1, CellRecord::SharedString(0)),
        (2, 1, CellRecord::InlineString(b"a".to_vec())),
        (2, 2, CellRecord::Number { number, date: Some(date), style: 0 }),
        (3, 2, CellRecord::Number { number, date: Some(date), style: 1 }),
        (4, 2, CellRecord::Boolean(true)),
        (2, 5, CellRecord::Formula { text: b"B2+1".to_vec(), shared: true }),
        (3, 5, CellRecord::SharedFormula(0)),
        (4, 6, CellRecord::SharedFormula(0)),
        (5, 5, CellRecord::Formula { text: b"_xlfn.SUM($B$2:B4)".to_vec(), shared: false }),
    ];
    for (row, column, record) in cells {
        assert_eq!(book.load_cell(&mut shared, 0, row, column, record), Ok(true));
    }
    assert_eq!(shared.len(), 1);
    assert_eq!(book.load_cell(&mut shared, 0, 9, 9, CellRecord::SharedString(7)), Ok(false));
    assert_eq!(book.load_cell(&mut shared, 0, 9, 9, CellRecord::SharedFormula(3)), Ok(false));
    assert_eq!(
        book.load_cell(&mut shared, 0, 9, 9, CellRecord::Number { number, date: Some(date), style: 5 }),
        Ok(false)
    );
    assert_eq!(book.load_cell(&mut shared, 4, 1, 1, CellRecord::Boolean(true)), Ok(false));
    let sheet = book.get_sheet_by_idx(0);
    let value = |row: usize, column: usize| sheet.get(row - 1, column - 1).value;
    assert_eq!(value(1, 1), Value::Text(b"Text".to_vec()));
    assert_eq!(value(2, 1), Value::Text(b"a".to_vec()));
    assert_eq!(value(2, 2), Value::Num(number));
    assert_eq!(value(3, 2), Value::Date(date));
    assert_eq!(value(4, 2), Value::Bool(true));
    assert_eq!(value(2, 5), Value::Formula(b"=B2+1".to_vec()));
    assert_eq!(value(3, 5), Value::Formula(b"=(B3+1)".to_vec()));
    assert_eq!(value(4, 6), Value::Formula(b"=(C4+1)".to_vec()));
    assert_eq!(value(5, 5), Value::Formula(b"=SUM($B$2:B4)".to_vec()));
    assert_eq!(value(9, 9), Value::Empty);
    assert!(sheet.get(2, 4).dirty);
    assert!(!sheet.get(2, 1).dirty);
    assert_eq!(Range::parse(b"E3").unwrap().row(), 3);
}

#[test]
fn values_entered_by_reference_text() {
    let mut book = Book::new();
    book.add_sheet(b"Sheet1".to_vec());
    book.add_sheet(b"Two".to_vec());
    let one = Value::Num(Double { bits: 1.0f64.to_bits() });
    assert_eq!(book.set_value("Two!B2", one.clone()), Ok(true));
    assert_eq!(book.set_value("C3", one.clone()), Ok(true));
    assert_eq!(book.set_value("A1:B2", one.clone()), Ok(false));
    assert_eq!(book.set_value("Three!A1", one.clone()), Ok(false));
    assert_eq!(book.set_value("1+1", one.clone()), Ok(false));
    assert_eq!(book.set_value("1+", one.clone()), Err(Error::UnableToParse(b"1+".to_vec())));
    assert_eq!(book.get_sheet_by_idx(1).get(1, 1).value, one);
    assert_eq!(book.get_sheet_by_idx(0).get(2, 2).value, one);
    assert_eq!(book.resolve_str_ref("Two!B2").unwrap().ensure_single(), one);
    assert_eq!(
        book.resolve_str_ref("Three!B2").unwrap(),
        Value::Error(excel_emulator::parser::ast::Error::Ref)
    );
    assert_eq!(
        book.resolve_str_ref("1+1").unwrap(),
        Value::Error(excel_emulator::parser::ast::Error::Value)
    );
}

#[test]
fn formulas_of_the_list_are_registered() {
    let mut book = Book::new();
    book.add_sheet(b"Sheet1".to_vec());
    let cell = excel_emulator::dependency::CellId::from((0, 1, 2, 1, 1, true));
    book.formulas.push((cell, b"=A1+1".to_vec()));
    assert_eq!(book.load_dependencies(), Ok(()));
    let precedent = excel_emulator::dependency::CellId::from((0, 1, 1, 1, 1, true));
    assert!(book.dependencies.is_precedent_of(&precedent, &cell));
    book.formulas.push((cell, b"=A1+".to_vec()));
    assert_eq!(book.load_dependencies(), Err(Error::UnableToParse(b"A1+".to_vec())));
}
