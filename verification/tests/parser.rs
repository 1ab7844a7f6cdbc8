use excel_emulator::cell::CellIndex;
use excel_emulator::errors::Error;
use excel_emulator::parser::ast::{Error as ExcelError, Expr, Infix, Literal, Number, Prefix};
use excel_emulator::parser::parse_str;
use excel_emulator::range::{AnchorType, Range};

fn num(i: i64) -> Expr {
    Expr::Literal(Literal::Number(Number::Integer(i)))
}

fn dec(s: &str) -> Expr {
    Expr::Literal(Literal::Number(Number::Decimal(s.as_bytes().to_vec())))
}

fn txt(s: &str) -> Expr {
    Expr::Literal(Literal::Text(s.as_bytes().to_vec()))
}

fn infix(op: Infix, a: Expr, b: Expr) -> Expr {
    Expr::Infix(op, Box::new(a), Box::new(b))
}

fn cell(row: usize, column: usize) -> Range {
    Range {
        start_cell: CellIndex { row, column },
        start_anchor: AnchorType::Relative,
        end_cell: None,
        end_anchor: None,
    }
}

fn pair(r1: usize, c1: usize, r2: usize, c2: usize) -> Range {
    Range {
        start_cell: CellIndex { row: r1, column: c1 },
        start_anchor: AnchorType::Relative,
        end_cell: Some(CellIndex { row: r2, column: c2 }),
        end_anchor: Some(AnchorType::Relative),
    }
}

#[test]
fn test_literal() {
    assert_eq!(parse_str("123").unwrap(), num(123));
    assert_eq!(parse_str("1").unwrap(), num(1));
    assert_eq!(parse_str("123.12").unwrap(), dec("123.12"));
    assert_eq!(parse_str("123.123").unwrap(), dec("123.123"));
    assert_eq!(parse_str("\"Test\"").unwrap(), txt("Test"));
    assert_eq!(parse_str("TRUE").unwrap(), Expr::Literal(Literal::Boolean(true)));
}

#[test]
fn mod_test_errors() {
    assert_eq!(parse_str("#NULL!").unwrap(), Expr::Error(ExcelError::Null));
    assert_eq!(parse_str("#DIV/0!").unwrap(), Expr::Error(ExcelError::Div));
    assert_eq!(parse_str("#VALUE!").unwrap(), Expr::Error(ExcelError::Value));
    assert_eq!(parse_str("#REF!").unwrap(), Expr::Error(ExcelError::Ref));
    assert_eq!(parse_str("#NAME!").unwrap(), Expr::Error(ExcelError::Name));
    assert_eq!(parse_str("#NUM!").unwrap(), Expr::Error(ExcelError::Num));
    assert_eq!(parse_str("#N/A").unwrap(), Expr::Error(ExcelError::NA));
    assert_eq!(parse_str("#GETTING_DATA").unwrap(), Expr::Error(ExcelError::GettingData));
}

#[test]
fn test_function() {
    assert_eq!(
        parse_str("test(\"a\", \"b\")").unwrap(),
        Expr::Func { name: b"test".to_vec(), args: vec![txt("a"), txt("b")] }
    );
    assert_eq!(
        parse_str("test()").unwrap(),
        Expr::Func { name: b"test".to_vec(), args: vec![] }
    );
}

#[test]
fn test_reference() {
    assert_eq!(
        parse_str("test!A1").unwrap(),
        Expr::Reference { sheet: Some(b"test".to_vec()), range: cell(1, 1) }
    );
    assert_eq!(
        parse_str("test!A1:B2").unwrap(),
        Expr::Reference { sheet: Some(b"test".to_vec()), range: pair(1, 1, 2, 2) }
    );
}

#[test]
fn test_array() {
    assert_eq!(
        parse_str("{1, 2, 3, 4}").unwrap(),
        Expr::Array(vec![num(1), num(2), num(3), num(4)])
    );
    assert_eq!(
        parse_str("{(1+2), 2, 3, 4}").unwrap(),
        Expr::Array(vec![infix(Infix::Plus, num(1), num(2)), num(2), num(3), num(4)])
    );
    assert_eq!(
        parse_str("{1,2;3,4}").unwrap(),
        Expr::Array(vec![num(1), num(2), num(3), num(4)])
    );
}

#[test]
fn test_prefix() {
    assert_eq!(parse_str("+1").unwrap(), Expr::Prefix(Prefix::Plus, Box::new(num(1))));
}

#[test]
fn test_infix() {
    assert_eq!(parse_str("1+1").unwrap(), infix(Infix::Plus, num(1), num(1)));
    assert_eq!(parse_str("(1+1)").unwrap(), infix(Infix::Plus, num(1), num(1)));
    assert_eq!(parse_str("1 - 1").unwrap(), infix(Infix::Minus, num(1), num(1)));
    assert_eq!(parse_str("1 / 1").unwrap(), infix(Infix::Divide, num(1), num(1)));
    assert_eq!(parse_str("1 ^ 1").unwrap(), infix(Infix::Exponent, num(1), num(1)));
    assert_eq!(parse_str("1 * 1").unwrap(), infix(Infix::Multiply, num(1), num(1)));
    assert_eq!(parse_str("1 = 1").unwrap(), infix(Infix::Equal, num(1), num(1)));
    assert_eq!(parse_str("1 < 1").unwrap(), infix(Infix::LessThan, num(1), num(1)));
    assert_eq!(parse_str("1 <= 1").unwrap(), infix(Infix::LessThanEqual, num(1), num(1)));
    assert_eq!(parse_str("1 > 1").unwrap(), infix(Infix::GreaterThan, num(1), num(1)));
    assert_eq!(parse_str("1 >= 1").unwrap(), infix(Infix::GreaterThanEqual, num(1), num(1)));
    assert_eq!(parse_str("1 <> 1").unwrap(), infix(Infix::NotEqual, num(1), num(1)));
    assert_eq!(parse_str("1 <> 1").unwrap(), infix(Infix::NotEqual, num(1), num(1)));
    assert_eq!(
        parse_str("(1+2)*(3+5)").unwrap(),
        infix(
            Infix::Multiply,
            infix(Infix::Plus, num(1), num(2)),
            infix(Infix::Plus, num(3), num(5))
        )
    );
    assert_eq!(
        parse_str("(1+(2*1))").unwrap(),
        infix(Infix::Plus, num(1), infix(Infix::Multiply, num(2), num(1)))
    );
}

#[test]
fn test_reference_formula() {
    assert_eq!(
        parse_str("SUM(Sheet1!A1:A10)").unwrap(),
        Expr::Func {
            name: b"SUM".to_vec(),
            args: vec![Expr::Reference {
                sheet: Some(b"Sheet1".to_vec()),
                range: pair(1, 1, 10, 1)
            }]
        }
    );
}

#[test]
fn test_floor() {
    assert_eq!(
        parse_str("FLOOR(3.7, 1)").unwrap(),
        Expr::Func { name: b"FLOOR".to_vec(), args: vec![dec("3.7"), num(1)] }
    );
}

#[test]
fn test_infix_precedence() {
    assert_eq!(
        parse_str("-(1+1)-2").unwrap(),
        infix(
            Infix::Minus,
            Expr::Prefix(Prefix::Minus, Box::new(infix(Infix::Plus, num(1), num(1)))),
            num(2)
        )
    );
}

#[test]
fn test_complex() {
    assert_eq!(
        parse_str("1*1*1*1").unwrap(),
        infix(
            Infix::Multiply,
            infix(Infix::Multiply, infix(Infix::Multiply, num(1), num(1)), num(1)),
            num(1)
        )
    );
}

#[test]
fn precedence_levels() {
    assert_eq!(
        parse_str("1+2*3").unwrap(),
        infix(Infix::Plus, num(1), infix(Infix::Multiply, num(2), num(3)))
    );
    assert_eq!(
        parse_str("1&2+3").unwrap(),
        infix(Infix::Ampersand, num(1), infix(Infix::Plus, num(2), num(3)))
    );
    assert_eq!(
        parse_str("1=2&3").unwrap(),
        infix(Infix::Equal, num(1), infix(Infix::Ampersand, num(2), num(3)))
    );
    assert_eq!(
        parse_str("2*3^4").unwrap(),
        infix(Infix::Multiply, num(2), infix(Infix::Exponent, num(3), num(4)))
    );
    assert_eq!(
        parse_str("-2^2").unwrap(),
        infix(Infix::Exponent, Expr::Prefix(Prefix::Minus, Box::new(num(2))), num(2))
    );
}

#[test]
fn exponent_groups_to_the_right() {
    assert_eq!(
        parse_str("2^3^2").unwrap(),
        infix(Infix::Exponent, num(2), infix(Infix::Exponent, num(3), num(2)))
    );
    assert_eq!(
        parse_str("8-3-2").unwrap(),
        infix(Infix::Minus, infix(Infix::Minus, num(8), num(3)), num(2))
    );
}

#[test]
fn parse_failures() {
    assert_eq!(parse_str("1 +"), Err(Error::UnableToParse(b"1 +".to_vec())));
    assert_eq!(parse_str("(1"), Err(Error::UnableToParse(b"(1".to_vec())));
    assert_eq!(parse_str("SUM"), Err(Error::UnableToParse(b"SUM".to_vec())));
    assert_eq!(parse_str(""), Err(Error::UnableToParse(b"".to_vec())));
    assert_eq!(parse_str("B2:A1"), Err(Error::UnableToParse(b"B2:A1".to_vec())));
    assert_eq!(parse_str("#N/A!"), Err(Error::UnableToLex(b"#N/A!".to_vec())));
    assert_eq!(parse_str("1 ? 2"), Err(Error::UnableToLex(b"1 ? 2".to_vec())));
}

#[test]
fn anchors_and_whole_columns() {
    assert_eq!(
        parse_str("$A$1").unwrap(),
        Expr::Reference {
            sheet: None,
            range: Range {
                start_cell: CellIndex { row: 1, column: 1 },
                start_anchor: AnchorType::Cell,
                end_cell: None,
                end_anchor: None
            }
        }
    );
    assert_eq!(
        parse_str("B:C").unwrap(),
        Expr::Reference {
            sheet: None,
            range: Range {
                start_cell: CellIndex { row: 0, column: 2 },
                start_anchor: AnchorType::Relative,
                end_cell: Some(CellIndex { row: 0, column: 3 }),
                end_anchor: Some(AnchorType::Relative)
            }
        }
    );
}

#[test]
fn every_sentence_of_the_grammar_parses() {
    let sentences = [
        "1",
        "-1",
        "+-1",
        "1.5",
        "\"a\"",
        "TRUE",
        "#N/A",
        "#DIV/0!",
        "A1",
        "$A$1:B$2",
        "A:B",
        "1:2",
        "Sheet1!A1",
        "'My sheet'!A1:B2",
        "(1)",
        "((1+2))",
        "1+2*3^4^5-6/7&8",
        "1<2",
        "1<=2",
        "1>=2",
        "1<>2",
        "1>2",
        "1=2",
        "1<-2",
        "1>+2",
        "-(1+1)-2",
        "SUM()",
        "SUM(1)",
        "SUM(1,2;3)",
        "SUM(SUM(1,2),{1,2;3},-A1,(B2))",
        "{}",
        "{1}",
        "{1,\"a\";TRUE}",
        "IF(A1>=1,\"yes\",\"no\")&\"!\"",
    ];
    for text in sentences {
        assert!(excel_emulator::parser::parse_str(text).is_ok(), "{}", text);
    }
}

#[test]
fn a_formula_refers_to_rectangles_only() {
    assert!(excel_emulator::parser::parse_str("SUM(A1:B2)").is_ok());
    assert!(excel_emulator::parser::parse_str("SUM(A01:B02)").is_ok());
    assert_eq!(
        excel_emulator::parser::parse_str("B1:A2"),
        Err(excel_emulator::errors::Error::UnableToParse(b"B1:A2".to_vec()))
    );
}
