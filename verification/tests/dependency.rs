use excel_emulator::dependency::{CellId, DependencyTree};
use excel_emulator::parser::ast::Error as ExcelError;
use excel_emulator::parser::parse_str;
use excel_emulator::sheet::Sheet;

fn id(sheet: usize, row: usize, column: usize) -> CellId {
    CellId::from((sheet, row, column, 1, 1, true))
}

#[test]
fn test_precedent() {
    let mut tree = DependencyTree::new();
    let a = CellId::from((0, 0, 0, 1, 1, true));
    let b = CellId::from((1, 0, 0, 1, 1, true));
    let c = CellId::from((2, 0, 0, 1, 1, true));
    tree.add_precedent(&a, &b); // A must calculate before B
    tree.add_precedent(&c, &b); // C must calculate before B
    assert!(tree.is_dependent_of(&b, &a));
    assert_eq!(tree.is_dependent_of(&a, &b), false);
    assert!(tree.is_precedent_of(&a, &b));
    assert!(tree.cell_exists(&a));
    assert!(tree.cell_exists(&c));
}

#[test]
fn test_order() {
    let mut tree = DependencyTree::new();
    let a = CellId::from((0, 0, 0, 1, 1, true));
    let b = CellId::from((1, 0, 0, 1, 1, true));
    let c = CellId::from((2, 0, 0, 1, 1, true));
    tree.add_precedent(&a, &b); // A must calculate before B
    tree.add_precedent(&b, &c); // B must calculate before C
    let mut order: Vec<CellId> = tree.get_order().unwrap();
    assert_eq!(order.pop().unwrap(), c);
    assert_eq!(order.pop().unwrap(), b);
    assert_eq!(order.pop().unwrap(), a);
}

#[test]
fn cycle_is_a_num_error() {
    let mut tree = DependencyTree::new();
    tree.add_precedent(&id(0, 1, 1), &id(0, 1, 2));
    tree.add_precedent(&id(0, 1, 2), &id(0, 1, 1));
    assert_eq!(tree.get_order(), Err(ExcelError::Num));
    let cycle = tree.order_or_cycle().unwrap_err();
    assert!(cycle == id(0, 1, 1) || cycle == id(0, 1, 2));
    let mut own = DependencyTree::new();
    own.add_precedent(&id(0, 1, 1), &id(0, 1, 1));
    assert_eq!(own.get_order(), Err(ExcelError::Num));
}

#[test]
fn add_cell_is_idempotent() {
    let mut tree = DependencyTree::new();
    tree.add_cell(id(0, 1, 1));
    tree.add_cell(id(0, 1, 1));
    tree.add_cell_if_missing(&id(0, 1, 1));
    assert_eq!(tree.get_order().unwrap(), vec![id(0, 1, 1)]);
}

#[test]
fn marks_follow_the_edges() {
    let mut tree = DependencyTree::new();
    let a = CellId::from((0, 1, 1, 1, 1, false));
    let b = CellId::from((0, 1, 2, 1, 1, false));
    let c = CellId::from((0, 1, 3, 1, 1, false));
    let d = CellId::from((0, 1, 4, 1, 1, false));
    tree.add_precedent(&a, &b);
    tree.add_precedent(&b, &c);
    tree.add_cell(d);
    assert!(!tree.is_dirty(&a));
    tree.mark_for_recalculation(&b);
    assert!(!tree.is_dirty(&a));
    assert!(tree.is_dirty(&b));
    assert!(tree.is_dirty(&c));
    assert!(!tree.is_dirty(&d));
    tree.clear_dirty(&b);
    assert!(!tree.is_dirty(&b));
    assert!(tree.is_dirty(&c));
    let order = tree.get_order().unwrap();
    let marked: Vec<bool> = order.iter().map(|n| n.dirty).collect();
    let expected: Vec<bool> = order.iter().map(|n| n.column == 3).collect();
    assert_eq!(marked, expected);
}

fn sheets() -> Vec<Sheet> {
    let mut first = Sheet::new(b"Sheet1".to_vec(), 0);
    assert!(first.resize(10, 3));
    let mut second = Sheet::new(b"Other".to_vec(), 1);
    assert!(second.resize(2, 2));
    vec![first, second]
}

#[test]
fn formula_references_become_precedents() {
    let sheets = sheets();
    let mut tree = DependencyTree::new();
    let cell = id(0, 1, 3);
    tree.add_formula(cell, b"=A1+Other!B2", &sheets).unwrap();
    assert!(tree.is_precedent_of(&id(0, 1, 1), &cell));
    assert!(tree.is_precedent_of(&id(1, 2, 2), &cell));
    assert!(!tree.is_precedent_of(&id(0, 2, 2), &cell));
    assert!(tree.is_dirty(&cell));
}

#[test]
fn ranges_become_aggregate_nodes() {
    let sheets = sheets();
    let mut tree = DependencyTree::new();
    let cell = id(0, 1, 3);
    let expression = parse_str("SUM(A1:A3)").unwrap();
    tree.add_expression(cell, &expression, &sheets);
    let aggregate = CellId::from((0, 1, 1, 3, 1, false));
    assert!(tree.is_precedent_of(&aggregate, &cell));
    assert!(tree.is_precedent_of(&id(0, 1, 1), &aggregate));
    assert!(tree.is_precedent_of(&id(0, 2, 1), &aggregate));
    assert!(tree.is_precedent_of(&id(0, 3, 1), &aggregate));
    assert!(!tree.is_precedent_of(&id(0, 4, 1), &aggregate));
    assert!(!tree.is_precedent_of(&id(0, 1, 1), &cell));
    assert!(!tree.is_dirty(&aggregate));
    let order = tree.get_order().unwrap();
    assert_eq!(order.len(), 5);
    assert_eq!(order.last().unwrap().node_key(), (0, 1, 3, 1, 1));
}

#[test]
fn whole_columns_are_cut_to_the_sheet() {
    let sheets = sheets();
    let mut tree = DependencyTree::new();
    let cell = id(0, 1, 3);
    let expression = parse_str("SUM(Other!A:A)").unwrap();
    tree.add_expression(cell, &expression, &sheets);
    let aggregate = CellId::from((1, 1, 1, 2, 1, false));
    assert!(tree.is_precedent_of(&aggregate, &cell));
    assert!(tree.is_precedent_of(&id(1, 1, 1), &aggregate));
    assert!(tree.is_precedent_of(&id(1, 2, 1), &aggregate));
    assert_eq!(tree.get_order().unwrap().len(), 4);
}

#[test]
fn adding_a_formula_twice_adds_nothing() {
    let sheets = sheets();
    let mut tree = DependencyTree::new();
    let cell = id(0, 1, 3);
    tree.add_formula(cell, b"=OFFSET(A1, B1, 0) + SUM(A1:B2)", &sheets).unwrap();
    let first = tree.get_order().unwrap();
    tree.add_formula(cell, b"=OFFSET(A1, B1, 0) + SUM(A1:B2)", &sheets).unwrap();
    assert_eq!(tree.get_order().unwrap(), first);
}

#[test]
fn unknown_sheets_and_own_cell_register_nothing() {
    let sheets = sheets();
    let mut tree = DependencyTree::new();
    let cell = id(0, 1, 3);
    tree.add_formula(cell, b"=Nowhere!A1 + C1", &sheets).unwrap();
    assert_eq!(tree.get_order().unwrap(), vec![]);
    assert!(tree.add_formula(cell, b"=1 +", &sheets).is_err());
}
