use excel_emulator::dependency::CellId;
use excel_emulator::errors::Error;
use excel_emulator::evaluate::kernel::Kernel;
use excel_emulator::evaluate::value::{Array2, Double, Value};
use excel_emulator::parser::ast::{Error as ExcelError, Infix, Number};
use excel_emulator::parser::parse_str;
use excel_emulator::range::Range;
use excel_emulator::sheet::{Sheet, SheetValue};
use excel_emulator::workbook::{Book, Style};

fn dbl(x: f64) -> Double {
    Double { bits: x.to_bits() }
}

fn num(x: f64) -> Value {
    Value::Num(dbl(x))
}

fn float(d: Double) -> f64 {
    f64::from_bits(d.bits)
}

fn formula(s: &str) -> Value {
    Value::Formula(s.as_bytes().to_vec())
}

fn number(n: &Number) -> Option<Double> {
    match n {
        Number::Integer(i) => Some(dbl(*i as f64)),
        Number::Decimal(t) => std::str::from_utf8(t).ok()?.parse::<f64>().ok().map(dbl),
    }
}

fn arith(op: Infix, a: Double, b: Double) -> Double {
    let (x, y) = (float(a), float(b));
    dbl(match op {
        Infix::Plus => x + y,
        Infix::Minus => x - y,
        Infix::Multiply => x * y,
        Infix::Divide => x / y,
        Infix::Exponent => x.powf(y),
        _ => f64::NAN,
    })
}

fn truncate(a: Double) -> i64 {
    float(a) as i64
}

fn library(_name: &Vec<u8>, _args: Vec<Value>) -> Option<Value> {
    None
}

fn calculate(book: &mut Book) -> Result<(), Error> {
    let kernel = Kernel { number, arith, truncate, library };
    book.calculate(&kernel)
}

fn shown(book: &Book, reference: &str) -> Value {
    match parse_str(reference).unwrap() {
        excel_emulator::parser::ast::Expr::Reference { sheet, range } => {
            Value::Array2(book.resolve(&sheet, &range).unwrap()).ensure_single()
        }
        _ => panic!("not a reference"),
    }
}

fn book() -> Book {
    let mut book = Book::new();
    assert_eq!(book.add_sheet(b"Sheet1".to_vec()), 0);
    assert_eq!(book.add_sheet(b"Sheet2".to_vec()), 1);
    book
}

#[test]
fn workbook_scenario() {
    let mut book = book();
    assert_eq!(book.enter(0, 1, 1, num(1.0)), Ok(true));
    assert_eq!(book.enter(0, 2, 1, num(2.0)), Ok(true));
    assert_eq!(book.enter(0, 1, 2, formula("=A1+A2")), Ok(true));
    assert_eq!(book.enter(0, 2, 2, formula("=B1*2")), Ok(true));
    calculate(&mut book).unwrap();
    assert_eq!(shown(&book, "A1"), num(1.0));
    assert_eq!(shown(&book, "A2"), num(2.0));
    assert_eq!(shown(&book, "B1"), num(3.0));
    assert_eq!(shown(&book, "B2"), num(6.0));
    assert_eq!(book.enter(0, 1, 1, num(10.0)), Ok(true));
    calculate(&mut book).unwrap();
    assert_eq!(shown(&book, "B1"), num(12.0));
    assert_eq!(shown(&book, "B2"), num(24.0));
}

#[test]
fn formulas_are_calculated_in_order_whatever_the_order_of_entry() {
    let mut book = book();
    assert_eq!(book.enter(0, 3, 1, formula("=A2+1")), Ok(true));
    assert_eq!(book.enter(0, 2, 1, formula("=A1+1")), Ok(true));
    assert_eq!(book.enter(0, 1, 1, num(1.0)), Ok(true));
    let sheet = book.get_sheet_by_idx(0);
    assert_eq!(sheet.get(2, 0).dirty, true);
    assert_eq!(sheet.get(2, 0).calculated, Value::Empty);
    calculate(&mut book).unwrap();
    let sheet = book.get_sheet_by_idx(0);
    assert_eq!(
        sheet.get(2, 0),
        SheetValue { value: formula("=A2+1"), calculated: num(3.0), dirty: false }
    );
    assert_eq!(
        sheet.get(0, 0),
        SheetValue { value: num(1.0), calculated: num(1.0), dirty: false }
    );
}

#[test]
fn ranges_across_sheets() {
    let mut book = book();
    assert_eq!(book.enter(1, 1, 1, num(1.0)), Ok(true));
    assert_eq!(book.enter(1, 2, 1, num(2.0)), Ok(true));
    assert_eq!(book.enter(1, 3, 1, formula("=A1+A2")), Ok(true));
    assert_eq!(book.enter(0, 1, 1, formula("=SUM(Sheet2!A1:A3)")), Ok(true));
    assert_eq!(book.enter(0, 1, 2, formula("=SUM(Sheet2!A:A) + 1")), Ok(true));
    calculate(&mut book).unwrap();
    assert_eq!(shown(&book, "Sheet1!A1"), num(6.0));
    assert_eq!(shown(&book, "Sheet1!B1"), num(7.0));
}

#[test]
fn circular_formulas_fail() {
    let mut book = book();
    assert_eq!(book.enter(0, 1, 1, formula("=B1")), Ok(true));
    assert_eq!(book.enter(0, 1, 2, formula("=A1")), Ok(true));
    match calculate(&mut book) {
        Err(Error::Cycle(node)) => assert_eq!((node.sheet, node.row), (0, 1)),
        other => panic!("{:?}", other),
    }
}

#[test]
fn offset_installs_its_precedent_and_settles() {
    let mut book = book();
    assert_eq!(book.enter(0, 2, 3, formula("=2+3")), Ok(true));
    assert_eq!(book.enter(0, 1, 1, formula("=OFFSET(B1, 1, 1)")), Ok(true));
    let cell = CellId::from((0, 1, 1, 1, 1, true));
    let target = CellId::from((0, 2, 3, 1, 1, true));
    assert!(!book.dependencies.is_precedent_of(&target, &cell));
    calculate(&mut book).unwrap();
    assert_eq!(shown(&book, "A1"), num(5.0));
    assert!(book.dependencies.is_precedent_of(&target, &cell));
    let order = book.dependencies.get_order().unwrap();
    assert_eq!(book.enter(0, 2, 3, formula("=2+4")), Ok(true));
    calculate(&mut book).unwrap();
    assert_eq!(shown(&book, "A1"), num(6.0));
    let keys = |nodes: &Vec<CellId>| nodes.iter().map(|n| n.node_key()).collect::<Vec<_>>();
    assert_eq!(keys(&book.dependencies.get_order().unwrap()), keys(&order));
}

#[test]
fn offset_signals_while_its_target_waits() {
    let mut book = book();
    assert_eq!(book.enter(0, 1, 1, formula("=OFFSET(B1, 1, 1)")), Ok(true));
    assert_eq!(book.enter(0, 2, 3, formula("=2+3")), Ok(true));
    let kernel = Kernel { number, arith, truncate, library };
    let cell = CellId::from((0, 1, 1, 1, 1, true));
    match book.calculate_cell(&cell, &kernel) {
        Err(Error::Volatile(reference)) => {
            assert_eq!(*reference, parse_str("C2").unwrap());
        }
        other => panic!("{:?}", other),
    }
    assert_eq!(book.get_sheet_by_idx(0).get(0, 0).dirty, true);
}

#[test]
fn formula_that_does_not_parse() {
    let mut book = book();
    assert_eq!(
        book.enter(0, 1, 1, formula("=1 +")),
        Err(Error::UnableToParse(b"1 +".to_vec()))
    );
    assert_eq!(book.get_sheet_by_idx(0).max_rows, 0);
    let mut sheet = Sheet::new(b"Sheet1".to_vec(), 0);
    assert!(sheet.set_value(1, 1, formula("=1 +")));
    let mut broken = Book::new();
    broken.sheets.push(sheet);
    let cell = CellId::from((0, 1, 1, 1, 1, true));
    broken.dependencies.add_cell(cell);
    assert_eq!(
        calculate(&mut broken),
        Err(Error::Calculation(cell, Box::new(Error::UnableToParse(b"1 +".to_vec()))))
    );
}

#[test]
fn resolve_pads_with_empty_cells() {
    let mut book = book();
    assert_eq!(book.enter(1, 2, 2, num(55.0)), Ok(true));
    let resolve = |text: &str| match parse_str(text).unwrap() {
        excel_emulator::parser::ast::Expr::Reference { sheet, range } => {
            book.resolve(&sheet, &range)
        }
        _ => panic!("not a reference"),
    };
    assert_eq!(
        resolve("Sheet2!B2"),
        Ok(Array2 { rows: 1, columns: 1, cells: vec![num(55.0)] })
    );
    assert_eq!(
        resolve("Sheet2!A1:B2"),
        Ok(Array2 {
            rows: 2,
            columns: 2,
            cells: vec![Value::Empty, Value::Empty, Value::Empty, num(55.0)]
        })
    );
    assert_eq!(
        resolve("Sheet2!C5:D6"),
        Ok(Array2 { rows: 2, columns: 2, cells: vec![Value::Empty; 4] })
    );
    assert_eq!(
        resolve("Sheet2!B:B"),
        Ok(Array2 { rows: 2, columns: 1, cells: vec![Value::Empty, num(55.0)] })
    );
    assert_eq!(
        resolve("Sheet2!2:2"),
        Ok(Array2 { rows: 1, columns: 2, cells: vec![Value::Empty, num(55.0)] })
    );
    assert_eq!(resolve("Nowhere!A1"), Err(ExcelError::Ref));
    assert_eq!(
        book.resolve_ref(&parse_str("1+1").unwrap()),
        Err(ExcelError::Value)
    );
}

#[test]
fn is_calculated_looks_at_every_cell() {
    let mut book = book();
    assert_eq!(book.enter(0, 1, 1, num(1.0)), Ok(true));
    assert_eq!(book.enter(0, 2, 2, formula("=A1")), Ok(true));
    let range = |text: &str| Range::parse(text.as_bytes()).unwrap();
    assert!(book.is_calculated(&None, &range("A1")));
    assert!(book.is_calculated(&None, &range("A1:B1")));
    assert!(!book.is_calculated(&None, &range("A1:B2")));
    assert!(!book.is_calculated(&None, &range("B:B")));
    assert!(book.is_calculated(&None, &range("D4:E5")));
    assert!(!book.is_calculated(&Some(b"Nowhere".to_vec()), &range("A1")));
    calculate(&mut book).unwrap();
    assert!(book.is_calculated(&None, &range("A1:B2")));
}

#[test]
fn sheets_grow_and_keep_their_cells() {
    let mut sheet = Sheet::new(b"S".to_vec(), 0);
    assert!(sheet.set_value(2, 3, num(7.0)));
    assert_eq!((sheet.max_rows, sheet.max_columns), (2, 3));
    assert!(sheet.resize(1, 1));
    assert_eq!((sheet.max_rows, sheet.max_columns), (2, 3));
    assert!(sheet.resize(4, 2));
    assert_eq!((sheet.max_rows, sheet.max_columns), (4, 3));
    assert!(sheet.resize(4, 5));
    assert_eq!((sheet.max_rows, sheet.max_columns), (4, 5));
    assert_eq!(sheet.get(1, 2).value, num(7.0));
    assert_eq!(sheet.get(3, 4), SheetValue::new());
    assert_eq!(sheet.get(9, 9), SheetValue::new());
    assert!(sheet.set_value(2, 3, num(8.0)));
    assert_eq!(sheet.get(1, 2).calculated, num(8.0));
    assert!(!sheet.set_value(0, 1, num(1.0)));
    assert!(!sheet.resize(usize::MAX, 2));
    assert_eq!((sheet.max_rows, sheet.max_columns), (4, 5));
}

#[test]
fn sheets_are_found_by_name() {
    let book = book();
    assert_eq!(book.find_target(&Some(b"Sheet2".to_vec())), Some(1));
    assert_eq!(book.find_target(&Some(b"sheet2".to_vec())), None);
    assert_eq!(book.find_target(&None), Some(0));
    assert_eq!(book.get_sheet_by_name(&b"Sheet2".to_vec()).unwrap().idx, 1);
    assert!(book.get_sheet_by_name(&b"Sheet3".to_vec()).is_none());
}

#[test]
fn date_styles() {
    assert_eq!(Style::new(), Style { number_format_id: 0, apply_number_format: false });
    assert!(Style { number_format_id: 14, apply_number_format: true }.is_date());
    assert!(Style { number_format_id: 22, apply_number_format: true }.is_date());
    assert!(!Style { number_format_id: 13, apply_number_format: true }.is_date());
    assert!(!Style { number_format_id: 23, apply_number_format: true }.is_date());
    assert!(!Style { number_format_id: 14, apply_number_format: false }.is_date());
}

#[test]
fn calculated_cells_show_what_their_formulas_evaluate_to() {
    let mut book = book();
    let formulas = [
        (1, 2, "=A1+A2"),
        (2, 2, "=B1*2"),
        (3, 2, "=SUM(A1:B2)"),
        (4, 2, "=OFFSET(A1,1,1)"),
        (1, 3, "=A3&\"x\""),
        (2, 3, "=Sheet2!A1+B3"),
    ];
    for (row, column, text) in formulas.iter().rev() {
        assert_eq!(book.enter(0, *row, *column, formula(text)), Ok(true));
    }
    assert_eq!(book.enter(0, 1, 1, num(1.0)), Ok(true));
    assert_eq!(book.enter(0, 2, 1, num(2.0)), Ok(true));
    assert_eq!(book.enter(1, 1, 1, num(5.0)), Ok(true));
    assert_eq!(book.enter(0, 3, 1, Value::Text(b"t".to_vec())), Ok(true));
    calculate(&mut book).unwrap();
    let kernel = Kernel { number, arith, truncate, library };
    for (row, column, text) in formulas.iter() {
        let record = book.get_sheet_by_idx(0).get(row - 1, column - 1);
        assert_eq!(record.dirty, false);
        assert_eq!(record.value, formula(text));
        let expression = parse_str(&text[1..]).unwrap();
        book.current_sheet = 0;
        let value = kernel.evaluate(Some(&book), &expression).unwrap();
        assert_eq!(
            record.calculated,
            excel_emulator::evaluate::ensure_non_range(value).ensure_single()
        );
    }
    assert_eq!(shown(&book, "B3"), num(12.0));
    assert_eq!(shown(&book, "B4"), num(6.0));
    assert_eq!(shown(&book, "C1"), Value::Text(b"tx".to_vec()));
    assert_eq!(shown(&book, "C2"), num(17.0));
}

#[test]
fn entering_says_whether_the_value_was_stored() {
    let mut book = book();
    assert_eq!(book.enter(2, 1, 1, num(1.0)), Ok(false));
    assert_eq!(book.enter(0, 0, 1, num(1.0)), Ok(false));
    assert_eq!(book.enter(0, 1, 0, num(1.0)), Ok(false));
    assert_eq!(book.enter(0, 0, 1, formula("=1+")), Ok(false));
    assert_eq!(
        book.enter(0, 1, 1, formula("=1+")),
        Err(Error::UnableToParse(b"1+".to_vec()))
    );
    assert_eq!(book.enter(0, 1, 1, formula("=1+1")), Ok(true));
    assert_eq!(book.enter(0, 1, 1, num(3.0)), Ok(true));
    assert_eq!(shown(&book, "A1"), num(3.0));
}

#[test]
fn a_cycle_is_found_before_anything_is_calculated() {
    let mut book = book();
    assert_eq!(book.enter(0, 1, 1, formula("=B1+1")), Ok(true));
    assert_eq!(book.enter(0, 1, 2, formula("=A1+1")), Ok(true));
    assert_eq!(book.enter(0, 1, 3, formula("=1+1")), Ok(true));
    assert!(matches!(calculate(&mut book), Err(Error::Cycle(_))));
    assert_eq!(book.get_sheet_by_idx(0).get(0, 2).dirty, true);
}

#[test]
fn a_sheet_can_be_changed_in_place() {
    let mut book = book();
    assert_eq!(book.enter(1, 1, 1, num(1.0)), Ok(true));
    let sheet = book.get_mut_sheet_by_idx(1);
    assert_eq!(sheet.set_value(2, 2, num(4.0)), true);
    assert_eq!(book.get_sheet_by_idx(1).max_rows, 2);
    assert_eq!(shown(&book, "Sheet2!B2"), num(4.0));
    assert_eq!(shown(&book, "Sheet2!A1"), num(1.0));
    let sheet = book.get_mut_sheet_by_name(&b"Sheet1".to_vec());
    assert_eq!(sheet.set_value(1, 1, Value::Bool(true)), true);
    assert_eq!(shown(&book, "Sheet1!A1"), Value::Bool(true));
    assert_eq!(book.get_sheet_by_idx(0).idx, 0);
}

#[test]
fn test_resolve_ref() {
    let mut book = book();
    assert_eq!(book.enter(1, 2, 2, num(55.0)), Ok(true));
    calculate(&mut book).unwrap();
    assert_eq!(
        book.resolve_ref(&parse_str("Sheet2!B2").unwrap()),
        Ok(Array2 { rows: 1, columns: 1, cells: vec![num(55.0)] })
    );
    assert_eq!(
        book.resolve_ref(&parse_str("Sheet2!A1:B2").unwrap()),
        Ok(Array2 {
            rows: 2,
            columns: 2,
            cells: vec![Value::Empty, Value::Empty, Value::Empty, num(55.0)]
        })
    );
    assert_eq!(
        book.resolve_ref(&parse_str("Sheet2!C5:D6").unwrap()),
        Ok(Array2 {
            rows: 2,
            columns: 2,
            cells: vec![Value::Empty, Value::Empty, Value::Empty, Value::Empty]
        })
    );
    assert_eq!(
        book.resolve_ref(&parse_str("Sheet2!B:B").unwrap()),
        Ok(Array2 { rows: 2, columns: 1, cells: vec![Value::Empty, num(55.0)] })
    );
}

#[test]
fn entering_within_the_grid_leaves_its_size() {
    let mut sheet = Sheet::new(b"S".to_vec(), 0);
    assert_eq!(sheet.set_value(3, 2, num(1.0)), true);
    assert_eq!((sheet.max_rows, sheet.max_columns), (3, 2));
    assert_eq!(sheet.set_value(1, 1, num(2.0)), true);
    assert_eq!((sheet.max_rows, sheet.max_columns), (3, 2));
    assert_eq!(sheet.set_value(2, 5, num(3.0)), true);
    assert_eq!((sheet.max_rows, sheet.max_columns), (3, 5));
    assert_eq!(sheet.set_value(0, 9, num(3.0)), false);
    assert_eq!((sheet.max_rows, sheet.max_columns), (3, 5));
    assert_eq!(sheet.get(2, 1).value, num(1.0));
    assert_eq!(sheet.get(1, 4).value, num(3.0));
}

#[test]
fn a_grid_without_rows_takes_rows_of_its_width() {
    let mut sheet = Sheet::new(b"S".to_vec(), 0);
    assert_eq!(sheet.resize(0, 4), true);
    assert_eq!((sheet.max_rows, sheet.max_columns), (0, 4));
    assert_eq!(sheet.resize(2, 0), true);
    assert_eq!((sheet.max_rows, sheet.max_columns), (2, 4));
    assert_eq!(sheet.set_value(2, 4, num(7.0)), true);
    assert_eq!(sheet.get(1, 3).value, num(7.0));
    assert_eq!(sheet.resize(3, 6), true);
    assert_eq!((sheet.max_rows, sheet.max_columns), (3, 6));
    assert_eq!(sheet.get(1, 3).value, num(7.0));
    assert_eq!(sheet.get(2, 5).value, Value::Empty);
}

#[test]
fn a_formula_that_comes_to_point_at_itself_is_a_cycle() {
    let mut book = book();
    assert_eq!(book.enter(0, 1, 1, formula("=OFFSET(A1,0,0)")), Ok(true));
    assert!(matches!(calculate(&mut book), Err(Error::Cycle(_))));
    let mut other = Book::new();
    other.add_sheet(b"Sheet1".to_vec());
    assert_eq!(other.enter(0, 2, 2, formula("=OFFSET(A1,1,1)+1")), Ok(true));
    assert!(matches!(calculate(&mut other), Err(Error::Cycle(_))));
}

#[test]
fn recalculation_keeps_what_was_entered() {
    let mut book = book();
    assert_eq!(book.enter(0, 1, 1, num(1.0)), Ok(true));
    assert_eq!(book.enter(0, 1, 2, formula("=A1+1")), Ok(true));
    calculate(&mut book).unwrap();
    assert_eq!(book.get_sheet_by_idx(0).get(0, 1).value, formula("=A1+1"));
    assert_eq!(book.get_sheet_by_idx(0).get(0, 1).calculated, num(2.0));
    assert_eq!(book.enter(0, 1, 1, num(5.0)), Ok(true));
    assert_eq!(book.get_sheet_by_idx(0).max_rows, 1);
    assert_eq!(book.get_sheet_by_idx(0).max_columns, 2);
    calculate(&mut book).unwrap();
    assert_eq!(book.get_sheet_by_idx(0).get(0, 1).value, formula("=A1+1"));
    assert_eq!(book.get_sheet_by_idx(0).get(0, 1).calculated, num(6.0));
    assert_eq!(book.get_sheet_by_idx(0).get(0, 0).value, num(5.0));
}

#[test]
fn formulas_of_a_file_are_listed_and_registered_at_the_final_size() {
    let mut book = Book::new();
    book.add_sheet(b"Sheet1".to_vec());
    let mut shared: Vec<excel_emulator::workbook::SharedFormula> = Vec::new();
    let formula_record =
        excel_emulator::workbook::CellRecord::Formula { text: b"SUM(A:A)".to_vec(), shared: false };
    assert_eq!(book.load_cell(&mut shared, 0, 1, 2, formula_record), Ok(true));
    for row in 1..=3 {
        let record = excel_emulator::workbook::CellRecord::InlineString(b"x".to_vec());
        assert_eq!(book.load_cell(&mut shared, 0, row, 1, record), Ok(true));
    }
    let cell = CellId { sheet: 0, row: 1, column: 2, num_row: 1, num_col: 1, dirty: true };
    assert_eq!(book.formulas, vec![(cell, b"=SUM(A:A)".to_vec())]);
    let column = CellId { sheet: 0, row: 1, column: 1, num_row: 3, num_col: 1, dirty: false };
    assert_eq!(book.dependencies.is_precedent_of(&column, &cell), false);
    assert_eq!(book.load_dependencies(), Ok(()));
    assert_eq!(book.dependencies.is_precedent_of(&column, &cell), true);
    let third = CellId { sheet: 0, row: 3, column: 1, num_row: 1, num_col: 1, dirty: true };
    assert_eq!(book.dependencies.is_precedent_of(&third, &column), true);
    assert_eq!(book.formulas.len(), 1);
}

#[test]
fn the_order_is_the_same_whenever_it_is_asked() {
    let mut book = book();
    assert_eq!(book.enter(0, 1, 1, formula("=B1+C1")), Ok(true));
    assert_eq!(book.enter(0, 1, 2, formula("=C1")), Ok(true));
    assert_eq!(book.enter(0, 1, 3, num(1.0)), Ok(true));
    assert_eq!(book.enter(0, 2, 1, formula("=SUM(A1:C1)")), Ok(true));
    let first = book.dependencies.get_order().unwrap();
    let second = book.dependencies.get_order().unwrap();
    assert_eq!(first, second);
    let mut other = Book::new();
    other.add_sheet(b"Sheet1".to_vec());
    other.add_sheet(b"Sheet2".to_vec());
    assert_eq!(other.enter(0, 1, 1, formula("=B1+C1")), Ok(true));
    assert_eq!(other.enter(0, 1, 2, formula("=C1")), Ok(true));
    assert_eq!(other.enter(0, 1, 3, num(1.0)), Ok(true));
    assert_eq!(other.enter(0, 2, 1, formula("=SUM(A1:C1)")), Ok(true));
    assert_eq!(other.dependencies.get_order().unwrap(), first);
}

#[test]
fn a_workbook_with_a_signal_settles() {
    let mut book = book();
    assert_eq!(book.enter(0, 1, 1, formula("=OFFSET(B1,0,1)")), Ok(true));
    assert_eq!(book.enter(0, 1, 3, formula("=1+1")), Ok(true));
    calculate(&mut book).unwrap();
    assert_eq!(shown(&book, "A1"), num(2.0));
    let order = book.dependencies.get_order().unwrap();
    calculate(&mut book).unwrap();
    assert_eq!(book.dependencies.get_order().unwrap(), order);
}
