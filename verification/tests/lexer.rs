use excel_emulator::errors::Error;
use excel_emulator::lexer::token::Token;
use excel_emulator::lexer::{lex_syntax, Lexer};
use excel_emulator::utils::token_string;

fn lex(b: &[u8]) -> Result<Vec<Token>, Error> {
    Lexer::lex_tokens(b)
}

fn text(s: &str) -> Vec<u8> {
    s.as_bytes().to_vec()
}

#[test]
fn test_symbols() {
    assert_eq!(
        lex(b"=+(){},;").unwrap(),
        vec![
            Token::Equal,
            Token::Plus,
            Token::LParen,
            Token::RParen,
            Token::LBrace,
            Token::RBrace,
            Token::Comma,
            Token::SemiColon,
            Token::EOF,
        ]
    );
}

#[test]
fn test_strings() {
    assert_eq!(
        lex(b"\"this is a test\"").unwrap(),
        vec![Token::Text(text("this is a test")), Token::EOF]
    );
    assert_eq!(
        lex(b"\"this\", \"is\" \"a\" \"test\"").unwrap(),
        vec![
            Token::Text(text("this")),
            Token::Comma,
            Token::Text(text("is")),
            Token::Text(text("a")),
            Token::Text(text("test")),
            Token::EOF,
        ]
    );
}

#[test]
fn test_ints() {
    assert_eq!(lex(b"123").unwrap(), vec![Token::Integer(123), Token::EOF]);
    assert_eq!(lex(b"0.05").unwrap(), vec![Token::Float(text("0.05")), Token::EOF]);
    assert_eq!(lex(b"12.30").unwrap(), vec![Token::Float(text("12.30")), Token::EOF]);
}

#[test]
fn test_errors() {
    assert_eq!(lex(b"#NUM!").unwrap(), vec![Token::Num, Token::EOF]);
    assert_eq!(lex(b"#DIV/0!").unwrap(), vec![Token::Div, Token::EOF]);
    assert_eq!(lex(b"#VALUE!").unwrap(), vec![Token::Value, Token::EOF]);
    assert_eq!(lex(b"#REF!").unwrap(), vec![Token::Ref, Token::EOF]);
    assert_eq!(lex(b"#NAME!").unwrap(), vec![Token::Name, Token::EOF]);
    assert_eq!(lex(b"#N/A").unwrap(), vec![Token::NA, Token::EOF]);
    assert_eq!(lex(b"#GETTING_DATA").unwrap(), vec![Token::GettingData, Token::EOF]);
    assert_eq!(lex(b"#NULL!").unwrap(), vec![Token::Null, Token::EOF]);
}

#[test]
fn test_bool() {
    assert_eq!(lex(b"TRUE").unwrap(), vec![Token::Boolean(true), Token::EOF]);
    assert_eq!(lex(b"FALSE").unwrap(), vec![Token::Boolean(false), Token::EOF]);
}

#[test]
fn test_multisheet() {
    assert_eq!(
        lex(b"test:test!").unwrap(),
        vec![Token::MultiSheet(text("test:test")), Token::EOF]
    );
}

#[test]
fn test_sheet() {
    assert_eq!(lex(b"'Test'!").unwrap(), vec![Token::Sheet(text("Test")), Token::EOF]);
    assert_eq!(
        lex(b"'Sheet 1'!A1").unwrap(),
        vec![Token::Sheet(text("Sheet 1")), Token::Cell(text("A1")), Token::EOF]
    );
}

#[test]
fn test_vrange() {
    assert_eq!(lex(b"A:A").unwrap(), vec![Token::VRange(text("A:A")), Token::EOF]);
    assert_eq!(lex(b"$A:$A").unwrap(), vec![Token::VRange(text("$A:$A")), Token::EOF]);
}

#[test]
fn test_hrange() {
    assert_eq!(lex(b"1:1").unwrap(), vec![Token::HRange(text("1:1")), Token::EOF]);
    assert_eq!(lex(b"$1:$1").unwrap(), vec![Token::HRange(text("$1:$1")), Token::EOF]);
}

#[test]
fn test_range() {
    assert_eq!(lex(b"A1:A1").unwrap(), vec![Token::Range(text("A1:A1")), Token::EOF]);
}

#[test]
fn test_cell() {
    assert_eq!(lex(b"A1").unwrap(), vec![Token::Cell(text("A1")), Token::EOF]);
}

#[test]
fn test_ident() {
    assert_eq!(lex(b"test").unwrap(), vec![Token::Ident(text("test")), Token::EOF]);
}

#[test]
fn lex_skips_whitespace_between_tokens() {
    assert_eq!(
        lex(b"  1 \t+\n 2  ").unwrap(),
        vec![Token::Integer(1), Token::Plus, Token::Integer(2), Token::EOF]
    );
    assert_eq!(lex(b"").unwrap(), vec![Token::EOF]);
}

#[test]
fn lex_fails_on_a_byte_that_starts_no_token() {
    assert_eq!(lex(b"1 + ?"), Err(Error::UnableToLex(text("1 + ?"))));
    assert_eq!(lex(b"\"open"), Err(Error::UnableToLex(text("\"open"))));
}

#[test]
fn lex_string_escapes() {
    assert_eq!(
        lex(b"\"a\\\"b\"").unwrap(),
        vec![Token::Text(text("a\"b")), Token::EOF]
    );
}

#[test]
fn lex_whole_number_beyond_64_bits_is_a_name() {
    assert_eq!(
        lex(b"99999999999999999999").unwrap(),
        vec![Token::Ident(text("99999999999999999999")), Token::EOF]
    );
    assert_eq!(
        lex(b"9223372036854775807").unwrap(),
        vec![Token::Integer(i64::MAX), Token::EOF]
    );
}

#[test]
fn lex_syntax_gives_the_end_of_the_token() {
    assert_eq!(lex_syntax(b"<= 1", 0), Some((Token::LAngle, 1)));
    assert_eq!(lex_syntax(b"x#REF!", 1), Some((Token::Ref, 6)));
    assert_eq!(lex_syntax(b"abc", 0), None);
}

#[test]
fn tokens_as_they_are_written() {
    assert_eq!(token_string(&Token::Integer(-12)), b"-12".to_vec());
    assert_eq!(token_string(&Token::Integer(0)), b"0".to_vec());
    assert_eq!(token_string(&Token::Float(b"1.50".to_vec())), b"1.50".to_vec());
    assert_eq!(token_string(&Token::Boolean(true)), b"TRUE".to_vec());
    assert_eq!(token_string(&Token::Boolean(false)), b"FALSE".to_vec());
    assert_eq!(token_string(&Token::NA), b"#N/A".to_vec());
    assert_eq!(token_string(&Token::Div), b"#DIV/0!".to_vec());
    assert_eq!(token_string(&Token::GettingData), b"#GETTING_DATA".to_vec());
    assert_eq!(token_string(&Token::LBrace), b"{".to_vec());
    assert_eq!(token_string(&Token::RBracket), b"]".to_vec());
    assert_eq!(token_string(&Token::LBracket), b"[".to_vec());
    assert_eq!(token_string(&Token::EOF), Vec::<u8>::new());
    let tokens = Lexer::lex_tokens(b" SUM( A1 , 2 ) <> {1;2} ").unwrap();
    let written: Vec<u8> = tokens.iter().flat_map(|t| token_string(t)).collect();
    assert_eq!(written, b"SUM(A1,2)<>{1;2}".to_vec());
}
