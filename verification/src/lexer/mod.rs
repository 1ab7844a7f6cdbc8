//! The lexer: from the bytes of a formula to its tokens.

pub mod token;

use crate::errors::Error;
use crate::lexer::token::{token_views, Token, TokenView};
use crate::text::{copy_range, digits_value, is_alpha, is_digit, is_space};
use vstd::prelude::*;
use vstd::string::StringSliceAdditionalSpecFns;

verus! {

/// The classes of bytes that the grammar takes runs of.
#[derive(Clone, Copy, PartialEq, Eq, Debug, Structural)]
pub enum ByteClass {
    Digit,
    Alpha,
    AlphaNumeric,
    Space,
    /// Bytes of a sheet name written without quotes.
    SheetName,
    /// Bytes of a sheet name written between single quotes.
    QuotedSheetName,
}

/// Punctuation that a sheet name may hold without quotes: `` `~@#$%^_{}|;. ``
pub open spec fn is_sheet_punct(b: u8) -> bool {
    b == '`' as u8 || b == '~' as u8 || b == '@' as u8 || b == '#' as u8 || b == '$' as u8 || b
        == '%' as u8 || b == '^' as u8 || b == '_' as u8 || b == '{' as u8 || b == '}' as u8 || b
        == '|' as u8 || b == ';' as u8 || b == '.' as u8
}

/// Punctuation that a quoted sheet name may hold: that of an unquoted
/// name, and `&-=+,<>() `.
pub open spec fn is_quoted_sheet_punct(b: u8) -> bool {
    is_sheet_punct(b) || b == '&' as u8 || b == '-' as u8 || b == '=' as u8 || b == '+' as u8 || b
        == ',' as u8 || b == '<' as u8 || b == '>' as u8 || b == '(' as u8 || b == ')' as u8 || b
        == ' ' as u8
}

pub open spec fn in_class(class: ByteClass, b: u8) -> bool {
    match class {
        ByteClass::Digit => is_digit(b),
        ByteClass::Alpha => is_alpha(b),
        ByteClass::AlphaNumeric => is_digit(b) || is_alpha(b),
        ByteClass::Space => is_space(b),
        ByteClass::SheetName => is_digit(b) || is_alpha(b) || is_sheet_punct(b),
        ByteClass::QuotedSheetName => is_digit(b) || is_alpha(b) || is_quoted_sheet_punct(b),
    }
}

/// Length of the longest run of bytes of `class` that starts at `from`.
pub open spec fn run_len(s: Seq<u8>, from: int, class: ByteClass) -> int
    decreases s.len() - from,
{
    if 0 <= from < s.len() && in_class(class, s[from]) {
        1 + run_len(s, from + 1, class)
    } else {
        0
    }
}

/// Whether the bytes of `tag` stand in `s` at `from`.
pub open spec fn tag_at(s: Seq<u8>, from: int, tag: &str) -> bool {
    0 <= from && from + tag.spec_bytes().len() <= s.len() && s.subrange(
        from,
        from + tag.spec_bytes().len(),
    ) == tag.spec_bytes()
}

pub open spec fn byte_at(s: Seq<u8>, at: int, b: u8) -> bool {
    0 <= at < s.len() && s[at] == b
}

/// Number of fixed spellings.
pub const SYNTAX_COUNT: usize = 29;

/// The fixed spellings, in the order in which they are tried.
pub open spec fn syntax_tag(i: int) -> &'static str {
    if i == 0 {
        "#NULL!"
    } else if i == 1 {
        "#DIV/0!"
    } else if i == 2 {
        "#VALUE!"
    } else if i == 3 {
        "#REF!"
    } else if i == 4 {
        "#NAME!"
    } else if i == 5 {
        "#NUM!"
    } else if i == 6 {
        "#N/A"
    } else if i == 7 {
        "#GETTING_DATA"
    } else if i == 8 {
        "+"
    } else if i == 9 {
        "-"
    } else if i == 10 {
        "/"
    } else if i == 11 {
        "*"
    } else if i == 12 {
        "^"
    } else if i == 13 {
        "&"
    } else if i == 14 {
        "="
    } else if i == 15 {
        ","
    } else if i == 16 {
        ":"
    } else if i == 17 {
        "."
    } else if i == 18 {
        ";"
    } else if i == 19 {
        "<"
    } else if i == 20 {
        ">"
    } else if i == 21 {
        "("
    } else if i == 22 {
        ")"
    } else if i == 23 {
        "{"
    } else if i == 24 {
        "}"
    } else if i == 25 {
        "["
    } else if i == 26 {
        "]"
    } else if i == 27 {
        "TRUE"
    } else {
        "FALSE"
    }
}

/// The token of each fixed spelling.
pub open spec fn syntax_token(i: int) -> TokenView {
    if i == 0 {
        TokenView::Null
    } else if i == 1 {
        TokenView::Div
    } else if i == 2 {
        TokenView::Value
    } else if i == 3 {
        TokenView::Ref
    } else if i == 4 {
        TokenView::Name
    } else if i == 5 {
        TokenView::Num
    } else if i == 6 {
        TokenView::NA
    } else if i == 7 {
        TokenView::GettingData
    } else if i == 8 {
        TokenView::Plus
    } else if i == 9 {
        TokenView::Minus
    } else if i == 10 {
        TokenView::Divide
    } else if i == 11 {
        TokenView::Multiply
    } else if i == 12 {
        TokenView::Exponent
    } else if i == 13 {
        TokenView::Ampersand
    } else if i == 14 {
        TokenView::Equal
    } else if i == 15 {
        TokenView::Comma
    } else if i == 16 {
        TokenView::Colon
    } else if i == 17 {
        TokenView::Period
    } else if i == 18 {
        TokenView::SemiColon
    } else if i == 19 {
        TokenView::LAngle
    } else if i == 20 {
        TokenView::RAngle
    } else if i == 21 {
        TokenView::LParen
    } else if i == 22 {
        TokenView::RParen
    } else if i == 23 {
        TokenView::LBrace
    } else if i == 24 {
        TokenView::RBrace
    } else if i == 25 {
        TokenView::LBracket
    } else if i == 26 {
        TokenView::RBracket
    } else if i == 27 {
        TokenView::Boolean(true)
    } else {
        TokenView::Boolean(false)
    }
}

/// Index of the first fixed spelling from `i` on that stands at `from`, or
/// `SYNTAX_COUNT`.
pub open spec fn syntax_match(s: Seq<u8>, from: int, i: int) -> int
    decreases SYNTAX_COUNT - i,
{
    if i >= SYNTAX_COUNT {
        SYNTAX_COUNT as int
    } else if i >= 0 && tag_at(s, from, syntax_tag(i)) {
        i
    } else if i < 0 {
        SYNTAX_COUNT as int
    } else {
        syntax_match(s, from, i + 1)
    }
}

/// A named error, an operator, a bracket, a separator or a boolean word.
pub open spec fn lex_syntax_spec(s: Seq<u8>, from: int) -> Option<(TokenView, int)> {
    let i = syntax_match(s, from, 0);
    if i < SYNTAX_COUNT {
        Some((syntax_token(i), from + syntax_tag(i).spec_bytes().len()))
    } else {
        None
    }
}

/// The text of a quoted string from `pos` up to its closing quote, and the
/// index of that quote. A backslash takes the byte after it as it is.
pub open spec fn string_body(s: Seq<u8>, pos: int) -> Option<(Seq<u8>, int)>
    decreases s.len() - pos,
{
    if pos < 0 || pos >= s.len() {
        None
    } else if s[pos] == '"' as u8 {
        Some((Seq::empty(), pos))
    } else if s[pos] == '\\' as u8 {
        if pos + 1 >= s.len() {
            None
        } else {
            match string_body(s, pos + 2) {
                Some((rest, close)) => Some((seq![s[pos + 1]] + rest, close)),
                None => None,
            }
        }
    } else {
        match string_body(s, pos + 1) {
            Some((rest, close)) => Some((seq![s[pos]] + rest, close)),
            None => None,
        }
    }
}

/// Text between double quotes.
pub open spec fn lex_string_spec(s: Seq<u8>, from: int) -> Option<(TokenView, int)> {
    if byte_at(s, from, '"' as u8) {
        match string_body(s, from + 1) {
            Some((text, close)) => Some((TokenView::Text(text), close + 1)),
            None => None,
        }
    } else {
        None
    }
}

/// The position behind an optional `$`.
pub open spec fn opt_dollar(s: Seq<u8>, from: int) -> int {
    if byte_at(s, from, '$' as u8) {
        from + 1
    } else {
        from
    }
}

/// End of `$?` and a run of at least one byte of `class`.
pub open spec fn part_end(s: Seq<u8>, from: int, class: ByteClass) -> Option<int> {
    let start = opt_dollar(s, from);
    let n = run_len(s, start, class);
    if n > 0 {
        Some(start + n)
    } else {
        None
    }
}

/// End of a cell: `$?` letters `$?` digits.
pub open spec fn cell_end(s: Seq<u8>, from: int) -> Option<int> {
    match part_end(s, from, ByteClass::Alpha) {
        Some(mid) => part_end(s, mid, ByteClass::Digit),
        None => None,
    }
}

/// End of two column parts, or two row parts, around a colon.
pub open spec fn span_end(s: Seq<u8>, from: int, class: ByteClass) -> Option<int> {
    match part_end(s, from, class) {
        Some(mid) => if byte_at(s, mid, ':' as u8) {
            part_end(s, mid + 1, class)
        } else {
            None
        },
        None => None,
    }
}

/// End of two cells around a colon.
pub open spec fn range_end(s: Seq<u8>, from: int) -> Option<int> {
    match cell_end(s, from) {
        Some(mid) => if byte_at(s, mid, ':' as u8) {
            cell_end(s, mid + 1)
        } else {
            None
        },
        None => None,
    }
}

/// End of a sheet name: a run of unquoted name bytes, or a quoted name
/// with its quotes.
pub open spec fn sheet_name_end(s: Seq<u8>, from: int) -> Option<int> {
    let n = run_len(s, from, ByteClass::SheetName);
    if n > 0 {
        Some(from + n)
    } else if byte_at(s, from, '\'' as u8) {
        let close = from + 1 + run_len(s, from + 1, ByteClass::QuotedSheetName);
        if byte_at(s, close, '\'' as u8) {
            Some(close + 1)
        } else {
            None
        }
    } else {
        None
    }
}

/// The text without its single quotes.
pub open spec fn strip_quotes(t: Seq<u8>) -> Seq<u8>
    decreases t.len(),
{
    if t.len() == 0 {
        Seq::empty()
    } else if t.last() == '\'' as u8 {
        strip_quotes(t.drop_last())
    } else {
        strip_quotes(t.drop_last()).push(t.last())
    }
}

/// Two sheet names around a colon, then `!`.
pub open spec fn lex_multisheet_spec(s: Seq<u8>, from: int) -> Option<(TokenView, int)> {
    match sheet_name_end(s, from) {
        Some(mid) => if byte_at(s, mid, ':' as u8) {
            match sheet_name_end(s, mid + 1) {
                Some(end) => if byte_at(s, end, '!' as u8) {
                    Some((TokenView::MultiSheet(s.subrange(from, end)), end + 1))
                } else {
                    None
                },
                None => None,
            }
        } else {
            None
        },
        None => None,
    }
}

/// A sheet name, then `!` or `\!`. The token holds the name without quotes.
pub open spec fn lex_sheet_spec(s: Seq<u8>, from: int) -> Option<(TokenView, int)> {
    match sheet_name_end(s, from) {
        Some(end) => if tag_at(s, end, "\\!") {
            Some(
                (
                    TokenView::Sheet(strip_quotes(s.subrange(from, end))),
                    end + "\\!".spec_bytes().len(),
                ),
            )
        } else if byte_at(s, end, '!' as u8) {
            Some((TokenView::Sheet(strip_quotes(s.subrange(from, end))), end + 1))
        } else {
            None
        },
        None => None,
    }
}

/// A sheet qualifier, whole rows, whole columns, a pair of cells or a cell,
/// tried in this order.
pub open spec fn lex_references_spec(s: Seq<u8>, from: int) -> Option<(TokenView, int)> {
    if lex_multisheet_spec(s, from).is_some() {
        lex_multisheet_spec(s, from)
    } else if lex_sheet_spec(s, from).is_some() {
        lex_sheet_spec(s, from)
    } else if let Some(end) = span_end(s, from, ByteClass::Digit) {
        Some((TokenView::HRange(s.subrange(from, end)), end))
    } else if let Some(end) = span_end(s, from, ByteClass::Alpha) {
        Some((TokenView::VRange(s.subrange(from, end)), end))
    } else if let Some(end) = range_end(s, from) {
        Some((TokenView::Range(s.subrange(from, end)), end))
    } else if let Some(end) = cell_end(s, from) {
        Some((TokenView::Cell(s.subrange(from, end)), end))
    } else {
        None
    }
}

/// Digits, a period, digits.
pub open spec fn lex_float_spec(s: Seq<u8>, from: int) -> Option<(TokenView, int)> {
    let whole = run_len(s, from, ByteClass::Digit);
    let frac = run_len(s, from + whole + 1, ByteClass::Digit);
    if whole > 0 && byte_at(s, from + whole, '.' as u8) && frac > 0 {
        Some(
            (TokenView::Float(s.subrange(from, from + whole + 1 + frac)), from + whole + 1 + frac),
        )
    } else {
        None
    }
}

/// Digits whose value fits a signed 64-bit number.
pub open spec fn lex_int_spec(s: Seq<u8>, from: int) -> Option<(TokenView, int)> {
    let n = run_len(s, from, ByteClass::Digit);
    let value = digits_value(s.subrange(from, from + n));
    if n > 0 && value <= i64::MAX {
        Some((TokenView::Integer(value as i64), from + n))
    } else {
        None
    }
}

/// Letters and digits.
pub open spec fn lex_ident_spec(s: Seq<u8>, from: int) -> Option<(TokenView, int)> {
    let n = run_len(s, from, ByteClass::AlphaNumeric);
    if n > 0 {
        Some((TokenView::Ident(s.subrange(from, from + n)), from + n))
    } else {
        None
    }
}

/// The token that starts at `from` and the position behind it: the first
/// that fits of fixed spelling, string, reference, decimal number, whole
/// number and identifier.
pub open spec fn lex_token_spec(s: Seq<u8>, from: int) -> Option<(TokenView, int)> {
    if lex_syntax_spec(s, from).is_some() {
        lex_syntax_spec(s, from)
    } else if lex_string_spec(s, from).is_some() {
        lex_string_spec(s, from)
    } else if lex_references_spec(s, from).is_some() {
        lex_references_spec(s, from)
    } else if lex_float_spec(s, from).is_some() {
        lex_float_spec(s, from)
    } else if lex_int_spec(s, from).is_some() {
        lex_int_spec(s, from)
    } else {
        lex_ident_spec(s, from)
    }
}

/// The tokens of `s` from `from` on, ending with `EOF`. Whitespace between
/// tokens is skipped. `None` where a byte starts no token.
pub open spec fn lex_tokens_spec(s: Seq<u8>, from: int) -> Option<Seq<TokenView>>
    decreases s.len() - from,
{
    let start = from + run_len(s, from, ByteClass::Space);
    if from < 0 || start < from {
        None
    } else if start >= s.len() {
        Some(seq![TokenView::EOF])
    } else {
        match lex_token_spec(s, start) {
            Some((token, end)) => if end <= start || end > s.len() {
                None
            } else {
                match lex_tokens_spec(s, end) {
                    Some(rest) => Some(seq![token] + rest),
                    None => None,
                }
            },
            None => None,
        }
    }
}

fn byte_in_class(class: ByteClass, b: u8) -> (r: bool)
    ensures
        r == in_class(class, b),
{
    let digit: bool = 0x30 <= b && b <= 0x39;
    let alpha: bool = (0x41 <= b && b <= 0x5A) || (0x61 <= b && b <= 0x7A);
    let punct: bool = b == '`' as u8 || b == '~' as u8 || b == '@' as u8 || b == '#' as u8 || b
        == '$' as u8 || b == '%' as u8 || b == '^' as u8 || b == '_' as u8 || b == '{' as u8 || b
        == '}' as u8 || b == '|' as u8 || b == ';' as u8 || b == '.' as u8;
    let more: bool = b == '&' as u8 || b == '-' as u8 || b == '=' as u8 || b == '+' as u8 || b
        == ',' as u8 || b == '<' as u8 || b == '>' as u8 || b == '(' as u8 || b == ')' as u8 || b
        == ' ' as u8;
    match class {
        ByteClass::Digit => digit,
        ByteClass::Alpha => alpha,
        ByteClass::AlphaNumeric => digit || alpha,
        ByteClass::Space => b == 0x20 || b == 0x09 || b == 0x0A || b == 0x0D,
        ByteClass::SheetName => digit || alpha || punct,
        ByteClass::QuotedSheetName => digit || alpha || punct || more,
    }
}

proof fn lemma_run_len(s: Seq<u8>, from: int, class: ByteClass)
    requires
        0 <= from <= s.len(),
    ensures
        0 <= run_len(s, from, class) <= s.len() - from,
        forall|i: int|
            from <= i < from + run_len(s, from, class) ==> in_class(class, #[trigger] s[i]),
    decreases s.len() - from,
{
    if from < s.len() && in_class(class, s[from]) {
        lemma_run_len(s, from + 1, class);
    }
}

/// The position behind the longest run of bytes of `class` from `from`.
fn scan(s: &[u8], from: usize, class: ByteClass) -> (to: usize)
    requires
        from <= s.len(),
    ensures
        to == from + run_len(s@, from as int, class),
        from <= to <= s.len(),
{
    let mut i: usize = from;
    while i < s.len() && byte_in_class(class, s[i])
        invariant
            from <= i <= s.len(),
            run_len(s@, from as int, class) == (i - from) + run_len(s@, i as int, class),
        decreases s.len() - i,
    {
        i = i + 1;
    }
    i
}

fn has_byte(s: &[u8], at: usize, b: u8) -> (r: bool)
    ensures
        r == byte_at(s@, at as int, b),
{
    at < s.len() && s[at] == b
}

/// Whether the bytes of `tag` stand in `s` at `from`.
pub(crate) fn has_tag(s: &[u8], from: usize, tag: &str) -> (r: bool)
    requires
        from <= s.len(),
    ensures
        r == tag_at(s@, from as int, tag),
{
    let t = tag.as_bytes();
    if t.len() > s.len() - from {
        return false;
    }
    let mut i: usize = 0;
    while i < t.len()
        invariant
            i <= t.len(),
            from + t.len() <= s.len(),
            t@ == tag.spec_bytes(),
            forall|j: int| 0 <= j < i ==> s@[from + j] == t@[j],
        decreases t.len() - i,
    {
        if s[from + i] != t[i] {
            assert(s@.subrange(from as int, from + t.len())[i as int] != t@[i as int]);
            return false;
        }
        i = i + 1;
    }
    assert(s@.subrange(from as int, from + t.len()) =~= t@);
    true
}

fn syntax_entry(i: usize) -> (r: (&'static str, Token))
    requires
        i < SYNTAX_COUNT,
    ensures
        r.0 == syntax_tag(i as int),
        r.1@ == syntax_token(i as int),
{
    if i == 0 {
        ("#NULL!", Token::Null)
    } else if i == 1 {
        ("#DIV/0!", Token::Div)
    } else if i == 2 {
        ("#VALUE!", Token::Value)
    } else if i == 3 {
        ("#REF!", Token::Ref)
    } else if i == 4 {
        ("#NAME!", Token::Name)
    } else if i == 5 {
        ("#NUM!", Token::Num)
    } else if i == 6 {
        ("#N/A", Token::NA)
    } else if i == 7 {
        ("#GETTING_DATA", Token::GettingData)
    } else if i == 8 {
        ("+", Token::Plus)
    } else if i == 9 {
        ("-", Token::Minus)
    } else if i == 10 {
        ("/", Token::Divide)
    } else if i == 11 {
        ("*", Token::Multiply)
    } else if i == 12 {
        ("^", Token::Exponent)
    } else if i == 13 {
        ("&", Token::Ampersand)
    } else if i == 14 {
        ("=", Token::Equal)
    } else if i == 15 {
        (",", Token::Comma)
    } else if i == 16 {
        (":", Token::Colon)
    } else if i == 17 {
        (".", Token::Period)
    } else if i == 18 {
        (";", Token::SemiColon)
    } else if i == 19 {
        ("<", Token::LAngle)
    } else if i == 20 {
        (">", Token::RAngle)
    } else if i == 21 {
        ("(", Token::LParen)
    } else if i == 22 {
        (")", Token::RParen)
    } else if i == 23 {
        ("{", Token::LBrace)
    } else if i == 24 {
        ("}", Token::RBrace)
    } else if i == 25 {
        ("[", Token::LBracket)
    } else if i == 26 {
        ("]", Token::RBracket)
    } else if i == 27 {
        ("TRUE", Token::Boolean(true))
    } else {
        ("FALSE", Token::Boolean(false))
    }
}

/// Reads a named error, an operator, a bracket, a separator or a boolean
/// word at `from`.
pub fn lex_syntax(input: &[u8], from: usize) -> (r: Option<(Token, usize)>)
    requires
        from <= input.len(),
    ensures
        token_result(r) == lex_syntax_spec(input@, from as int),
        r matches Some((_, end)) ==> end <= input.len(),
{
    let mut i: usize = 0;
    while i < SYNTAX_COUNT
        invariant
            i <= SYNTAX_COUNT,
            from <= input.len(),
            syntax_match(input@, from as int, 0) == syntax_match(input@, from as int, i as int),
        decreases SYNTAX_COUNT - i,
    {
        let (tag, token) = syntax_entry(i);
        if has_tag(input, from, tag) {
            let end: usize = from + tag.as_bytes().len();
            return Some((token, end));
        }
        i = i + 1;
    }
    None
}

/// A lexer result as a mathematical value.
pub open spec fn token_result(r: Option<(Token, usize)>) -> Option<(TokenView, int)> {
    match r {
        Some((token, end)) => Some((token@, end as int)),
        None => None,
    }
}

fn lex_string(s: &[u8], from: usize) -> (r: Option<(Token, usize)>)
    requires
        from <= s.len(),
    ensures
        token_result(r) == lex_string_spec(s@, from as int),
        r matches Some((_, end)) ==> end <= s.len(),
{
    if !has_byte(s, from, '"' as u8) {
        return None;
    }
    let mut text: Vec<u8> = Vec::new();
    let mut i: usize = from + 1;
    loop
        invariant
            from < i <= s.len(),
            byte_at(s@, from as int, '"' as u8),
            string_body(s@, from + 1) == match string_body(s@, i as int) {
                Some((rest, close)) => Some((text@ + rest, close)),
                None => None,
            },
        decreases s.len() - i,
    {
        if i >= s.len() {
            return None;
        }
        let b: u8 = s[i];
        if b == '"' as u8 {
            assert(string_body(s@, i as int) == Some((Seq::<u8>::empty(), i as int)));
            assert(text@ + Seq::<u8>::empty() =~= text@);
            assert(string_body(s@, from + 1) == Some((text@, i as int)));
            return Some((Token::Text(text), i + 1));
        }
        if b == '\\' as u8 {
            if i + 1 >= s.len() {
                return None;
            }
            let ghost before = text@;
            text.push(s[i + 1]);
            proof {
                match string_body(s@, i + 2) {
                    Some((rest, close)) => {
                        assert(before + (seq![s@[i + 1]] + rest) =~= text@ + rest);
                    },
                    None => {},
                }
            }
            i = i + 2;
        } else {
            let ghost before = text@;
            text.push(b);
            proof {
                match string_body(s@, i + 1) {
                    Some((rest, close)) => {
                        assert(before + (seq![s@[i as int]] + rest) =~= text@ + rest);
                    },
                    None => {},
                }
            }
            i = i + 1;
        }
    }
}

fn scan_part(s: &[u8], from: usize, class: ByteClass) -> (r: Option<usize>)
    requires
        from <= s.len(),
    ensures
        r.is_some() == part_end(s@, from as int, class).is_some(),
        r matches Some(end) ==> part_end(s@, from as int, class) == Some(end as int) && from < end
            <= s.len(),
{
    let start: usize = if has_byte(s, from, '$' as u8) {
        from + 1
    } else {
        from
    };
    let end: usize = scan(s, start, class);
    if end > start {
        Some(end)
    } else {
        None
    }
}

fn scan_cell(s: &[u8], from: usize) -> (r: Option<usize>)
    requires
        from <= s.len(),
    ensures
        r.is_some() == cell_end(s@, from as int).is_some(),
        r matches Some(end) ==> cell_end(s@, from as int) == Some(end as int) && from < end
            <= s.len(),
{
    match scan_part(s, from, ByteClass::Alpha) {
        Some(mid) => scan_part(s, mid, ByteClass::Digit),
        None => None,
    }
}

fn scan_span(s: &[u8], from: usize, class: ByteClass) -> (r: Option<usize>)
    requires
        from <= s.len(),
    ensures
        r.is_some() == span_end(s@, from as int, class).is_some(),
        r matches Some(end) ==> span_end(s@, from as int, class) == Some(end as int) && from < end
            <= s.len(),
{
    match scan_part(s, from, class) {
        Some(mid) => if has_byte(s, mid, ':' as u8) {
            scan_part(s, mid + 1, class)
        } else {
            None
        },
        None => None,
    }
}

fn scan_range(s: &[u8], from: usize) -> (r: Option<usize>)
    requires
        from <= s.len(),
    ensures
        r.is_some() == range_end(s@, from as int).is_some(),
        r matches Some(end) ==> range_end(s@, from as int) == Some(end as int) && from < end
            <= s.len(),
{
    match scan_cell(s, from) {
        Some(mid) => if has_byte(s, mid, ':' as u8) {
            scan_cell(s, mid + 1)
        } else {
            None
        },
        None => None,
    }
}

fn scan_sheet_name(s: &[u8], from: usize) -> (r: Option<usize>)
    requires
        from <= s.len(),
    ensures
        r.is_some() == sheet_name_end(s@, from as int).is_some(),
        r matches Some(end) ==> sheet_name_end(s@, from as int) == Some(end as int) && from < end
            <= s.len(),
{
    let plain: usize = scan(s, from, ByteClass::SheetName);
    if plain > from {
        Some(plain)
    } else if has_byte(s, from, '\'' as u8) {
        let close: usize = scan(s, from + 1, ByteClass::QuotedSheetName);
        if has_byte(s, close, '\'' as u8) {
            Some(close + 1)
        } else {
            None
        }
    } else {
        None
    }
}

/// A copy of `t` without its single quotes.
fn without_quotes(t: &[u8]) -> (r: Vec<u8>)
    ensures
        r@ == strip_quotes(t@),
{
    let mut out: Vec<u8> = Vec::new();
    let mut i: usize = 0;
    while i < t.len()
        invariant
            i <= t.len(),
            out@ == strip_quotes(t@.take(i as int)),
        decreases t.len() - i,
    {
        assert(t@.take(i + 1).drop_last() =~= t@.take(i as int));
        if t[i] != '\'' as u8 {
            out.push(t[i]);
        }
        i = i + 1;
    }
    assert(t@.take(t.len() as int) =~= t@);
    out
}

fn lex_multisheet(s: &[u8], from: usize) -> (r: Option<(Token, usize)>)
    requires
        from <= s.len(),
    ensures
        token_result(r) == lex_multisheet_spec(s@, from as int),
        r matches Some((_, end)) ==> end <= s.len(),
{
    match scan_sheet_name(s, from) {
        Some(mid) => {
            if !has_byte(s, mid, ':' as u8) {
                return None;
            }
            match scan_sheet_name(s, mid + 1) {
                Some(end) => {
                    if has_byte(s, end, '!' as u8) {
                        Some((Token::MultiSheet(copy_range(s, from, end)), end + 1))
                    } else {
                        None
                    }
                },
                None => None,
            }
        },
        None => None,
    }
}

fn lex_sheet(s: &[u8], from: usize) -> (r: Option<(Token, usize)>)
    requires
        from <= s.len(),
    ensures
        token_result(r) == lex_sheet_spec(s@, from as int),
        r matches Some((_, end)) ==> end <= s.len(),
{
    match scan_sheet_name(s, from) {
        Some(end) => {
            if has_tag(s, end, "\\!") {
                let name = copy_range(s, from, end);
                let after: usize = end + "\\!".as_bytes().len();
                Some((Token::Sheet(without_quotes(name.as_slice())), after))
            } else if has_byte(s, end, '!' as u8) {
                let name = copy_range(s, from, end);
                Some((Token::Sheet(without_quotes(name.as_slice())), end + 1))
            } else {
                None
            }
        },
        None => None,
    }
}

fn lex_references(s: &[u8], from: usize) -> (r: Option<(Token, usize)>)
    requires
        from <= s.len(),
    ensures
        token_result(r) == lex_references_spec(s@, from as int),
        r matches Some((_, end)) ==> end <= s.len(),
{
    let multi = lex_multisheet(s, from);
    if multi.is_some() {
        return multi;
    }
    let sheet = lex_sheet(s, from);
    if sheet.is_some() {
        return sheet;
    }
    if let Some(end) = scan_span(s, from, ByteClass::Digit) {
        return Some((Token::HRange(copy_range(s, from, end)), end));
    }
    if let Some(end) = scan_span(s, from, ByteClass::Alpha) {
        return Some((Token::VRange(copy_range(s, from, end)), end));
    }
    if let Some(end) = scan_range(s, from) {
        return Some((Token::Range(copy_range(s, from, end)), end));
    }
    if let Some(end) = scan_cell(s, from) {
        return Some((Token::Cell(copy_range(s, from, end)), end));
    }
    None
}

fn lex_float(s: &[u8], from: usize) -> (r: Option<(Token, usize)>)
    requires
        from <= s.len(),
    ensures
        token_result(r) == lex_float_spec(s@, from as int),
        r matches Some((_, end)) ==> end <= s.len(),
{
    let dot: usize = scan(s, from, ByteClass::Digit);
    if dot == from || !has_byte(s, dot, '.' as u8) {
        return None;
    }
    let end: usize = scan(s, dot + 1, ByteClass::Digit);
    if end == dot + 1 {
        return None;
    }
    Some((Token::Float(copy_range(s, from, end)), end))
}

/// The value of the digits `s[from..to]` where it fits a signed 64-bit
/// number.
fn parse_integer(s: &[u8], from: usize, to: usize) -> (r: Option<i64>)
    requires
        from <= to <= s.len(),
        forall|i: int| from <= i < to ==> is_digit(#[trigger] s@[i]),
    ensures
        r == if digits_value(s@.subrange(from as int, to as int)) <= i64::MAX {
            Some(digits_value(s@.subrange(from as int, to as int)) as i64)
        } else {
            None
        },
{
    let mut acc: i64 = 0;
    let mut i: usize = from;
    while i < to
        invariant
            from <= i <= to <= s.len(),
            forall|j: int| from <= j < to ==> is_digit(#[trigger] s@[j]),
            0 <= acc,
            acc == digits_value(s@.subrange(from as int, i as int)),
        decreases to - i,
    {
        let ghost prefix = s@.subrange(from as int, i as int);
        let ghost next = s@.subrange(from as int, i + 1);
        assert(next.drop_last() =~= prefix);
        assert(next.last() == s@[i as int]);
        let d: i64 = (s[i] - 0x30) as i64;
        let step: Option<i64> = match acc.checked_mul(10) {
            Some(t) => t.checked_add(d),
            None => None,
        };
        match step {
            Some(v) => {
                acc = v;
            },
            None => {
                proof {
                    assert(digits_value(next) > i64::MAX);
                    let whole = s@.subrange(from as int, to as int);
                    assert(crate::text::all_digits(whole)) by {
                        assert forall|j: int| 0 <= j < whole.len() implies is_digit(
                            #[trigger] whole[j],
                        ) by {
                            assert(whole[j] == s@[from + j]);
                        }
                    }
                    crate::text::lemma_digits_value_monotone(whole, i + 1 - from);
                    assert(whole.take(i + 1 - from) =~= next);
                }
                return None;
            },
        }
        i = i + 1;
    }
    Some(acc)
}

fn lex_int(s: &[u8], from: usize) -> (r: Option<(Token, usize)>)
    requires
        from <= s.len(),
    ensures
        token_result(r) == lex_int_spec(s@, from as int),
        r matches Some((_, end)) ==> end <= s.len(),
{
    let end: usize = scan(s, from, ByteClass::Digit);
    if end == from {
        return None;
    }
    proof {
        lemma_run_len(s@, from as int, ByteClass::Digit);
    }
    match parse_integer(s, from, end) {
        Some(value) => Some((Token::Integer(value), end)),
        None => None,
    }
}

fn lex_ident(s: &[u8], from: usize) -> (r: Option<(Token, usize)>)
    requires
        from <= s.len(),
    ensures
        token_result(r) == lex_ident_spec(s@, from as int),
        r matches Some((_, end)) ==> end <= s.len(),
{
    let end: usize = scan(s, from, ByteClass::AlphaNumeric);
    if end == from {
        return None;
    }
    Some((Token::Ident(copy_range(s, from, end)), end))
}

fn lex_token(s: &[u8], from: usize) -> (r: Option<(Token, usize)>)
    requires
        from <= s.len(),
    ensures
        token_result(r) == lex_token_spec(s@, from as int),
        r matches Some((_, end)) ==> end <= s.len(),
{
    let syntax = lex_syntax(s, from);
    if syntax.is_some() {
        return syntax;
    }
    let string = lex_string(s, from);
    if string.is_some() {
        return string;
    }
    let reference = lex_references(s, from);
    if reference.is_some() {
        return reference;
    }
    let decimal = lex_float(s, from);
    if decimal.is_some() {
        return decimal;
    }
    let whole = lex_int(s, from);
    if whole.is_some() {
        return whole;
    }
    lex_ident(s, from)
}

pub struct Lexer;

impl Lexer {
    /// The tokens of `bytes`, ending with `Token::EOF`. Whitespace between
    /// tokens is skipped. Where a byte starts no token the whole input
    /// comes back in `Error::UnableToLex`.
    pub fn lex_tokens(bytes: &[u8]) -> (r: Result<Vec<Token>, Error>)
        ensures
            match r {
                Ok(tokens) => lex_tokens_spec(bytes@, 0) == Some(token_views(tokens@)),
                Err(e) => lex_tokens_spec(bytes@, 0).is_none() && (e matches Error::UnableToLex(
                    text,
                ) && text@ == bytes@),
            },
    {
        let mut tokens: Vec<Token> = Vec::new();
        let mut pos: usize = 0;
        loop
            invariant
                pos <= bytes.len(),
                lex_tokens_spec(bytes@, 0) == match lex_tokens_spec(bytes@, pos as int) {
                    Some(rest) => Some(token_views(tokens@) + rest),
                    None => None,
                },
            decreases bytes.len() - pos,
        {
            let start: usize = scan(bytes, pos, ByteClass::Space);
            if start >= bytes.len() {
                let ghost before = tokens@;
                tokens.push(Token::EOF);
                assert(token_views(tokens@) =~= token_views(before) + seq![TokenView::EOF]);
                return Ok(tokens);
            }
            match lex_token(bytes, start) {
                Some((token, end)) => {
                    if end <= start {
                        let text = copy_range(bytes, 0, bytes.len());
                        assert(bytes@.subrange(0, bytes.len() as int) =~= bytes@);
                        return Err(Error::UnableToLex(text));
                    }
                    let ghost before = tokens@;
                    let ghost view = token@;
                    tokens.push(token);
                    proof {
                        assert(token_views(tokens@) =~= token_views(before) + seq![view]);
                        match lex_tokens_spec(bytes@, end as int) {
                            Some(rest) => {
                                assert(token_views(before) + (seq![view] + rest) =~= token_views(
                                    tokens@,
                                ) + rest);
                            },
                            None => {},
                        }
                    }
                    pos = end;
                },
                None => {
                    let text = copy_range(bytes, 0, bytes.len());
                    assert(bytes@.subrange(0, bytes.len() as int) =~= bytes@);
                    return Err(Error::UnableToLex(text));
                },
            }
        }
    }
}

} // verus!
