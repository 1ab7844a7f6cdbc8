use excel_emulator::cell::CellIndex;
use excel_emulator::parser::ast::Error;
use excel_emulator::range::{parse_range_part, AnchorType, Range};

fn round_trip(text: &str) -> Vec<u8> {
    Range::parse(text.as_bytes()).unwrap().format()
}

#[test]
fn parse_from_string() {
    assert_eq!(round_trip("A1"), b"A1".to_vec());
    assert_eq!(round_trip("B21"), b"B21".to_vec());
    assert_eq!(round_trip("AA1"), b"AA1".to_vec());
    assert_eq!(round_trip("CB100"), b"CB100".to_vec());
    assert_eq!(round_trip("DD2"), b"DD2".to_vec());
    assert_eq!(round_trip("AAA10"), b"AAA10".to_vec());
    assert_eq!(round_trip("GM1"), b"GM1".to_vec());
    assert_eq!(round_trip("ZZ30"), b"ZZ30".to_vec());
    assert_eq!(round_trip("KJ15"), b"KJ15".to_vec());
    assert_eq!(round_trip("A"), b"A".to_vec());
    assert_eq!(round_trip("12"), b"12".to_vec());
}

#[test]
fn range_part_values() {
    assert_eq!(
        parse_range_part(b"$B$12"),
        Ok((CellIndex { row: 12, column: 2 }, AnchorType::Cell))
    );
    assert_eq!(
        parse_range_part(b"aa7"),
        Ok((CellIndex { row: 7, column: 27 }, AnchorType::Relative))
    );
    assert_eq!(
        parse_range_part(b"A01"),
        Ok((CellIndex { row: 1, column: 1 }, AnchorType::Relative))
    );
    assert_eq!(
        parse_range_part(b"$b$007"),
        Ok((CellIndex { row: 7, column: 2 }, AnchorType::Cell))
    );
    assert_eq!(
        parse_range_part(b"A0"),
        Ok((CellIndex { row: 0, column: 1 }, AnchorType::Relative))
    );
    assert_eq!(
        parse_range_part(b"A$0"),
        Ok((CellIndex { row: 0, column: 1 }, AnchorType::Row))
    );
    assert_eq!(parse_range_part(b"1A"), Err(Error::Ref));
}

fn index(row: usize, column: usize) -> CellIndex {
    CellIndex { row, column }
}

#[test]
fn parse_accepts_the_four_shapes() {
    let range = Range::parse(b" $a1 : b$2 ").unwrap();
    assert_eq!(range.start_cell, index(1, 1));
    assert_eq!(range.start_anchor, AnchorType::Column);
    assert_eq!(range.end_cell, Some(index(2, 2)));
    assert_eq!(range.end_anchor, Some(AnchorType::Row));
    assert_eq!(range.format(), b"$A1:B$2".to_vec());
    assert_eq!(Range::parse(b"$A:$C").unwrap().format(), b"$A:$C".to_vec());
    assert_eq!(Range::parse(b"$1:3").unwrap().format(), b"$1:3".to_vec());
    assert_eq!(Range::parse(b"xfd1048576").unwrap().start_cell, index(1048576, 16384));
}

#[test]
fn parse_rejects_other_shapes() {
    for text in ["", "A1:", ":A1", "A1:B", "A:1", "1:A", "A1:B2:C3", "B2:A1", "B:A", "2:1", "A-1",
        "$$A1", "A$$1", "A1$", "A$0", "0", "00", "A1B", "99999999999999999999999999",
        "ZZZZZZZZZZZZZZZZZZZZZZZZZZZZ1"]
    {
        assert_eq!(Range::parse(text.as_bytes()), Err(Error::Ref), "{}", text);
    }
}

#[test]
fn dimensions() {
    let dims = |text: &str| Range::parse(text.as_bytes()).unwrap().get_dimensions();
    assert_eq!(dims("B3"), (3, 2, 1, 1));
    assert_eq!(dims("B3:D7"), (3, 2, 5, 3));
    assert_eq!(dims("B:D"), (0, 2, usize::MAX, 3));
    assert_eq!(dims("3:7"), (3, 0, 5, usize::MAX));
    assert_eq!(dims("C"), (0, 3, usize::MAX, 1));
    assert_eq!(dims("12"), (12, 0, 1, usize::MAX));
    let cell = Range::parse(b"B3").unwrap();
    assert!(cell.is_single_cell() && !cell.is_multi_cell());
    assert!(!cell.is_hrange() && !cell.is_vrange());
    let column = Range::parse(b"B:B").unwrap();
    assert!(column.is_vrange() && column.is_multi_cell() && !column.is_single_cell());
    assert!(Range::parse(b"2:3").unwrap().is_hrange());
    assert_eq!((cell.row(), cell.column()), (3, 2));
}

#[test]
fn offset_moves_what_is_not_anchored() {
    let moved = |text: &str, rows: i64, columns: i64| {
        Range::parse(text.as_bytes()).unwrap().offset(rows, columns).map(|r| r.format())
    };
    assert_eq!(moved("A1", 1, 2), Ok(b"C2".to_vec()));
    assert_eq!(moved("$A1", 1, 2), Ok(b"$A2".to_vec()));
    assert_eq!(moved("A$1", 1, 2), Ok(b"C$1".to_vec()));
    assert_eq!(moved("$A$1", 1, 2), Ok(b"$A$1".to_vec()));
    assert_eq!(moved("B2:C3", -1, -1), Ok(b"A1:B2".to_vec()));
    assert_eq!(moved("B2:C3", -2, 0), Err(Error::Ref));
    assert_eq!(moved("B2:C3", 0, -2), Err(Error::Ref));
    assert_eq!(moved("B:C", 5, 1), Ok(b"C:D".to_vec()));
    assert_eq!(moved("2:3", 1, 5), Ok(b"3:4".to_vec()));
    assert_eq!(moved("A1:$B$2", 5, 0), Err(Error::Ref));
    assert_eq!(moved("A1", i64::MAX, 0).is_ok(), usize::MAX as u128 > i64::MAX as u128);
    let displaced = Range::parse(b"$B$2:C3").unwrap().displace(1, -1).unwrap();
    assert_eq!(displaced.format(), b"A3:B4".to_vec());
    assert_eq!(Range::parse(b"$B$2").unwrap().displace(-2, 0), Err(Error::Ref));
}

#[test]
fn cell_index_helpers() {
    assert_eq!(CellIndex::from((2, 3)), index(2, 3));
    assert_eq!(index(2, 3).as_tuple(), (2, 3));
    assert!(index(2, 0).is_hrange() && !index(2, 0).is_vrange());
    assert!(index(0, 3).is_vrange() && !index(0, 3).is_hrange());
    assert!(!index(2, 3).is_hrange() && !index(2, 3).is_vrange());
    assert!(index(9, 1).precedes(index(1, 2)));
    assert!(index(1, 2).precedes(index(2, 2)));
    assert!(!index(2, 2).precedes(index(2, 2)));
}

#[test]
fn row_digits_are_read_as_a_decimal_number() {
    let range = Range::parse(b"A01").unwrap();
    assert_eq!(range.start_cell, index(1, 1));
    assert_eq!(range.format(), b"A1".to_vec());
    let pair = Range::parse(b"a001:$b$010").unwrap();
    assert_eq!(pair.start_cell, index(1, 1));
    assert_eq!(pair.end_cell, Some(index(10, 2)));
    assert_eq!(pair.format(), b"A1:$B$10".to_vec());
    let column = Range::parse(b"A0").unwrap();
    assert_eq!(column.start_cell, index(0, 1));
    assert_eq!(column.is_vrange(), true);
    assert_eq!(column.format(), b"A".to_vec());
    assert_eq!(Range::parse(b"007").unwrap().format(), b"7".to_vec());
}

#[test]
fn a_pair_is_read_in_row_major_order() {
    let range = Range::parse(b"B1:A2").unwrap();
    assert_eq!(range.start_cell, index(1, 2));
    assert_eq!(range.end_cell, Some(index(2, 1)));
    assert_eq!(range.format(), b"B1:A2".to_vec());
    assert_eq!(range.is_rectangle(), false);
    assert_eq!(Range::parse(b"A1:B2").unwrap().is_rectangle(), true);
    assert_eq!(Range::parse(b"C3").unwrap().is_rectangle(), true);
    assert_eq!(Range::parse(b"C1:A1"), Err(Error::Ref));
    assert_eq!(Range::parse(b"A2:B1"), Err(Error::Ref));
}

#[test]
fn rows_of_a_pair_in_row_major_order() {
    assert_eq!(Range::parse(b"B1:A2").unwrap().num_rows(), 2);
    assert_eq!(Range::parse(b"C3:A7").unwrap().num_rows(), 5);
    assert_eq!(Range::parse(b"A1:B2").unwrap().num_rows(), 2);
    assert_eq!(Range::parse(b"A:B").unwrap().num_rows(), usize::MAX);
}
