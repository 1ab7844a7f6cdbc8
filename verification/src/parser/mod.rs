//! The parser: from tokens to the syntax tree, by precedence climbing.

pub mod ast;
pub mod grammar;

use crate::errors::Error;
use crate::lexer::token::{token_views, Token, TokenView, Tokens};
use crate::lexer::{lex_tokens_spec, Lexer};
use crate::parser::ast::{
    all_ranges_wf, expr_views, lemma_views_of_args, ranges_wf, lemma_views_of_items, Error as ExcelError, Expr, ExprView,
    Infix, Literal, LiteralView, Number, NumberView, Precedence, Prefix,
};
use crate::range::{reference_range, Range};
use crate::text::copy_bytes;
use vstd::prelude::*;
use vstd::string::StringSliceAdditionalSpecFns;

verus! {

/// The token at `pos`, if there is one.
pub open spec fn tok(t: Seq<TokenView>, pos: int) -> Option<TokenView> {
    if 0 <= pos < t.len() {
        Some(t[pos])
    } else {
        None
    }
}

/// How tightly each infix operator binds.
pub open spec fn precedence_of(op: Infix) -> Precedence {
    match op {
        Infix::Equal | Infix::NotEqual | Infix::LessThan | Infix::LessThanEqual
        | Infix::GreaterThan | Infix::GreaterThanEqual => Precedence::Comparison,
        Infix::Ampersand => Precedence::Concat,
        Infix::Plus | Infix::Minus => Precedence::PlusMinus,
        Infix::Multiply | Infix::Divide => Precedence::MultDiv,
        Infix::Exponent => Precedence::Exponent,
    }
}

/// The binding strength that an operator's right operand starts from. An
/// operator of the same strength ends the right operand, so operators
/// group to the left; only `^` lets another `^` into its right operand
/// and so groups to the right.
pub open spec fn right_floor(op: Infix) -> Precedence {
    match op {
        Infix::Exponent => Precedence::MultDiv,
        _ => precedence_of(op),
    }
}

/// The infix operator that starts at `pos` and the number of tokens that
/// spell it: `<>`, `<=` and `>=` take two.
pub open spec fn infix_at(t: Seq<TokenView>, pos: int) -> Option<(Infix, int)> {
    match tok(t, pos) {
        Some(TokenView::Plus) => Some((Infix::Plus, 1)),
        Some(TokenView::Minus) => Some((Infix::Minus, 1)),
        Some(TokenView::Divide) => Some((Infix::Divide, 1)),
        Some(TokenView::Multiply) => Some((Infix::Multiply, 1)),
        Some(TokenView::Equal) => Some((Infix::Equal, 1)),
        Some(TokenView::LAngle) => match tok(t, pos + 1) {
            Some(TokenView::RAngle) => Some((Infix::NotEqual, 2)),
            Some(TokenView::Equal) => Some((Infix::LessThanEqual, 2)),
            _ => Some((Infix::LessThan, 1)),
        },
        Some(TokenView::RAngle) => match tok(t, pos + 1) {
            Some(TokenView::Equal) => Some((Infix::GreaterThanEqual, 2)),
            _ => Some((Infix::GreaterThan, 1)),
        },
        Some(TokenView::Exponent) => Some((Infix::Exponent, 1)),
        Some(TokenView::Ampersand) => Some((Infix::Ampersand, 1)),
        _ => None,
    }
}

/// A reference: the range token at `pos`, under the sheet qualifier that
/// came before it, if any. The text of the token has to denote a range
/// that is a rectangle of cells.
pub open spec fn reference_at(t: Seq<TokenView>, pos: int, sheet: Option<Seq<u8>>) -> Option<
    (ExprView, int),
> {
    match tok(t, pos) {
        Some(TokenView::Range(text)) | Some(TokenView::Cell(text)) | Some(TokenView::VRange(text))
        | Some(TokenView::HRange(text)) => match reference_range(text) {
            Some(range) => Some((ExprView::Reference { sheet, range }, pos + 1)),
            None => None,
        },
        _ => None,
    }
}

/// An atom at `pos` and the position behind it: a prefix operator with its
/// atom, an expression in parentheses, a named error, a function call, an
/// array, a reference or a literal.
pub open spec fn parse_atom_spec(t: Seq<TokenView>, pos: int) -> Option<(ExprView, int)>
    decreases t.len() - pos, 0int,
{
    if pos < 0 || pos >= t.len() {
        None
    } else {
        match t[pos] {
            TokenView::Plus => match parse_atom_spec(t, pos + 1) {
                Some((e, end)) => Some((ExprView::Prefix(Prefix::Plus, Box::new(e)), end)),
                None => None,
            },
            TokenView::Minus => match parse_atom_spec(t, pos + 1) {
                Some((e, end)) => Some((ExprView::Prefix(Prefix::Minus, Box::new(e)), end)),
                None => None,
            },
            TokenView::LParen => match parse_expr_spec(t, pos + 1) {
                Some((e, end)) => if tok(t, end) == Some(TokenView::RParen) {
                    Some((e, end + 1))
                } else {
                    None
                },
                None => None,
            },
            TokenView::Null => Some((ExprView::Error(ExcelError::Null), pos + 1)),
            TokenView::Div => Some((ExprView::Error(ExcelError::Div), pos + 1)),
            TokenView::Value => Some((ExprView::Error(ExcelError::Value), pos + 1)),
            TokenView::Ref => Some((ExprView::Error(ExcelError::Ref), pos + 1)),
            TokenView::Name => Some((ExprView::Error(ExcelError::Name), pos + 1)),
            TokenView::Num => Some((ExprView::Error(ExcelError::Num), pos + 1)),
            TokenView::NA => Some((ExprView::Error(ExcelError::NA), pos + 1)),
            TokenView::GettingData => Some((ExprView::Error(ExcelError::GettingData), pos + 1)),
            TokenView::Ident(name) => if tok(t, pos + 1) == Some(TokenView::LParen) {
                let (args, end) = parse_args_spec(t, pos + 2);
                if tok(t, end) == Some(TokenView::RParen) {
                    Some((ExprView::Func { name, args }, end + 1))
                } else {
                    None
                }
            } else {
                None
            },
            TokenView::LBrace => {
                let (items, end) = parse_args_spec(t, pos + 1);
                if tok(t, end) == Some(TokenView::RBrace) {
                    Some((ExprView::Array(items), end + 1))
                } else {
                    None
                }
            },
            TokenView::MultiSheet(name) => reference_at(t, pos + 1, Some(name)),
            TokenView::Sheet(name) => reference_at(t, pos + 1, Some(name)),
            TokenView::Range(_) | TokenView::Cell(_) | TokenView::VRange(_) | TokenView::HRange(
                _,
            ) => reference_at(t, pos, None),
            TokenView::Integer(x) => Some(
                (ExprView::Literal(LiteralView::Number(NumberView::Integer(x))), pos + 1),
            ),
            TokenView::Float(text) => Some(
                (ExprView::Literal(LiteralView::Number(NumberView::Decimal(text))), pos + 1),
            ),
            TokenView::Text(text) => Some((ExprView::Literal(LiteralView::Text(text)), pos + 1)),
            TokenView::Boolean(b) => Some((ExprView::Literal(LiteralView::Boolean(b)), pos + 1)),
            _ => None,
        }
    }
}

/// The operators and right operands that follow the operand `lhs` at
/// `pos`, as far as they bind more tightly than `floor`.
pub open spec fn climb_spec(t: Seq<TokenView>, pos: int, lhs: ExprView, floor: Precedence) -> Option<
    (ExprView, int),
>
    decreases t.len() - pos, 1int,
{
    if pos < 0 || pos >= t.len() {
        None
    } else if t[pos] == TokenView::EOF {
        Some((lhs, pos))
    } else {
        match infix_at(t, pos) {
            Some((op, width)) => if floor.rank() < precedence_of(op).rank() {
                if pos + width > t.len() {
                    None
                } else {
                    match parse_pratt_spec(t, pos + width, right_floor(op)) {
                        Some((rhs, end)) => if pos < end <= t.len() {
                            climb_spec(
                                t,
                                end,
                                ExprView::Infix(op, Box::new(lhs), Box::new(rhs)),
                                floor,
                            )
                        } else {
                            None
                        },
                        None => None,
                    }
                }
            } else {
                Some((lhs, pos))
            },
            None => Some((lhs, pos)),
        }
    }
}

/// An atom and the operators that follow it, as far as they bind more
/// tightly than `floor`.
pub open spec fn parse_pratt_spec(t: Seq<TokenView>, pos: int, floor: Precedence) -> Option<
    (ExprView, int),
>
    decreases t.len() - pos, 2int,
{
    match parse_atom_spec(t, pos) {
        Some((lhs, end)) => if pos < end <= t.len() {
            climb_spec(t, end, lhs, floor)
        } else {
            None
        },
        None => None,
    }
}

/// An expression at `pos` and the position behind it.
pub open spec fn parse_expr_spec(t: Seq<TokenView>, pos: int) -> Option<(ExprView, int)>
    decreases t.len() - pos, 3int,
{
    match parse_pratt_spec(t, pos, Precedence::Lowest) {
        Some(parsed) => Some(parsed),
        None => parse_atom_spec(t, pos),
    }
}

/// The expressions that follow at `pos`, each behind a comma or a
/// semicolon, and the position behind the last of them.
pub open spec fn parse_more_spec(t: Seq<TokenView>, pos: int) -> (Seq<ExprView>, int)
    decreases t.len() - pos, 4int,
{
    if tok(t, pos) == Some(TokenView::Comma) || tok(t, pos) == Some(TokenView::SemiColon) {
        match parse_expr_spec(t, pos + 1) {
            Some((e, end)) => if pos + 1 < end <= t.len() {
                let (rest, last) = parse_more_spec(t, end);
                (seq![e] + rest, last)
            } else {
                (Seq::empty(), pos)
            },
            None => (Seq::empty(), pos),
        }
    } else {
        (Seq::empty(), pos)
    }
}

/// The expressions of a call or an array from `pos` on, separated by
/// commas or semicolons; none where no expression starts at `pos`.
pub open spec fn parse_args_spec(t: Seq<TokenView>, pos: int) -> (Seq<ExprView>, int)
    decreases t.len() - pos, 5int,
{
    match parse_expr_spec(t, pos) {
        Some((first, end)) => if pos < end <= t.len() {
            let (rest, last) = parse_more_spec(t, end);
            (seq![first] + rest, last)
        } else {
            (Seq::empty(), pos)
        },
        None => (Seq::empty(), pos),
    }
}

/// The expression that the tokens spell: an expression, then `EOF`.
pub open spec fn parse_spec(t: Seq<TokenView>) -> Option<ExprView> {
    match parse_expr_spec(t, 0) {
        Some((e, end)) => if tok(t, end) == Some(TokenView::EOF) {
            Some(e)
        } else {
            None
        },
        None => None,
    }
}

/// The expression that formula text spells.
pub open spec fn parse_text_spec(s: Seq<u8>) -> Option<ExprView> {
    match lex_tokens_spec(s, 0) {
        Some(tokens) => parse_spec(tokens),
        None => None,
    }
}

/// A parser result as a mathematical value.
pub open spec fn parsed(r: Option<(Expr, usize)>) -> Option<(ExprView, int)> {
    match r {
        Some((e, end)) => Some((e@, end as int)),
        None => None,
    }
}

pub fn infix_precedence(infix: Infix) -> (r: Precedence)
    ensures
        r == precedence_of(infix),
{
    match infix {
        Infix::Equal | Infix::NotEqual | Infix::LessThan | Infix::LessThanEqual
        | Infix::GreaterThan | Infix::GreaterThanEqual => Precedence::Comparison,
        Infix::Ampersand => Precedence::Concat,
        Infix::Plus | Infix::Minus => Precedence::PlusMinus,
        Infix::Multiply | Infix::Divide => Precedence::MultDiv,
        Infix::Exponent => Precedence::Exponent,
    }
}

fn is_token(t: &[Token], pos: usize, want: &Token) -> (r: bool)
    requires
        want@ == TokenView::RParen || want@ == TokenView::RBrace || want@ == TokenView::LParen
            || want@ == TokenView::EOF || want@ == TokenView::Comma || want@
            == TokenView::SemiColon || want@ == TokenView::RAngle || want@ == TokenView::Equal,
    ensures
        r == (tok(token_views(t@), pos as int) == Some(want@)),
{
    if pos >= t.len() {
        return false;
    }
    match (&t[pos], want) {
        (Token::RParen, Token::RParen) => true,
        (Token::RBrace, Token::RBrace) => true,
        (Token::LParen, Token::LParen) => true,
        (Token::EOF, Token::EOF) => true,
        (Token::Comma, Token::Comma) => true,
        (Token::SemiColon, Token::SemiColon) => true,
        (Token::RAngle, Token::RAngle) => true,
        (Token::Equal, Token::Equal) => true,
        _ => false,
    }
}

fn parse_infix_tags(t: &[Token], pos: usize) -> (r: Option<(Infix, usize)>)
    ensures
        match r {
            Some((op, width)) => infix_at(token_views(t@), pos as int) == Some((op, width as int))
                && 1 <= width && pos + width <= t.len(),
            None => infix_at(token_views(t@), pos as int).is_none(),
        },
{
    if pos >= t.len() {
        return None;
    }
    match &t[pos] {
        Token::Plus => Some((Infix::Plus, 1)),
        Token::Minus => Some((Infix::Minus, 1)),
        Token::Divide => Some((Infix::Divide, 1)),
        Token::Multiply => Some((Infix::Multiply, 1)),
        Token::Equal => Some((Infix::Equal, 1)),
        Token::LAngle => {
            if pos + 1 < t.len() && is_token(t, pos + 1, &Token::RAngle) {
                Some((Infix::NotEqual, 2))
            } else if pos + 1 < t.len() && is_token(t, pos + 1, &Token::Equal) {
                Some((Infix::LessThanEqual, 2))
            } else {
                Some((Infix::LessThan, 1))
            }
        },
        Token::RAngle => {
            if pos + 1 < t.len() && is_token(t, pos + 1, &Token::Equal) {
                Some((Infix::GreaterThanEqual, 2))
            } else {
                Some((Infix::GreaterThan, 1))
            }
        },
        Token::Exponent => Some((Infix::Exponent, 1)),
        Token::Ampersand => Some((Infix::Ampersand, 1)),
        _ => None,
    }
}

fn parse_reference(t: &[Token], pos: usize, sheet: Option<Vec<u8>>) -> (r: Option<(Expr, usize)>)
    ensures
        parsed(r) == reference_at(
            token_views(t@),
            pos as int,
            crate::parser::ast::opt_bytes_view(sheet),
        ),
        r matches Some((e, end)) ==> pos < end <= t.len() && ranges_wf(e@),
{
    if pos >= t.len() {
        return None;
    }
    let text: &Vec<u8> = match &t[pos] {
        Token::Range(text) => text,
        Token::Cell(text) => text,
        Token::VRange(text) => text,
        Token::HRange(text) => text,
        _ => {
            return None;
        },
    };
    match Range::parse(text.as_slice()) {
        Ok(range) => if range.is_rectangle() {
            Some((Expr::Reference { sheet, range }, pos + 1))
        } else {
            None
        },
        Err(_) => None,
    }
}

fn parse_atom(t: &[Token], pos: usize) -> (r: Option<(Expr, usize)>)
    ensures
        parsed(r) == parse_atom_spec(token_views(t@), pos as int),
        r matches Some((e, end)) ==> pos < end <= t.len() && ranges_wf(e@),
    decreases t.len() - pos, 0int,
{
    if pos >= t.len() {
        return None;
    }
    let ghost tv = token_views(t@);
    assert(tv[pos as int] == t@[pos as int]@);
    match &t[pos] {
        Token::Plus => match parse_atom(t, pos + 1) {
            Some((e, end)) => Some((Expr::Prefix(Prefix::Plus, Box::new(e)), end)),
            None => None,
        },
        Token::Minus => match parse_atom(t, pos + 1) {
            Some((e, end)) => Some((Expr::Prefix(Prefix::Minus, Box::new(e)), end)),
            None => None,
        },
        Token::LParen => match parse_expr(t, pos + 1) {
            Some((e, end)) => {
                if is_token(t, end, &Token::RParen) {
                    Some((e, end + 1))
                } else {
                    None
                }
            },
            None => None,
        },
        Token::Null => Some((Expr::Error(ExcelError::Null), pos + 1)),
        Token::Div => Some((Expr::Error(ExcelError::Div), pos + 1)),
        Token::Value => Some((Expr::Error(ExcelError::Value), pos + 1)),
        Token::Ref => Some((Expr::Error(ExcelError::Ref), pos + 1)),
        Token::Name => Some((Expr::Error(ExcelError::Name), pos + 1)),
        Token::Num => Some((Expr::Error(ExcelError::Num), pos + 1)),
        Token::NA => Some((Expr::Error(ExcelError::NA), pos + 1)),
        Token::GettingData => Some((Expr::Error(ExcelError::GettingData), pos + 1)),
        Token::Ident(name) => {
            if !is_token(t, pos + 1, &Token::LParen) {
                return None;
            }
            let (args, end) = parse_args(t, pos + 2);
            if is_token(t, end, &Token::RParen) {
                let name = copy_bytes(name.as_slice());
                proof {
                    lemma_views_of_args(name, args);
                }
                Some((Expr::Func { name, args }, end + 1))
            } else {
                None
            }
        },
        Token::LBrace => {
            let (items, end) = parse_args(t, pos + 1);
            if is_token(t, end, &Token::RBrace) {
                proof {
                    lemma_views_of_items(items);
                }
                Some((Expr::Array(items), end + 1))
            } else {
                None
            }
        },
        Token::MultiSheet(name) => parse_reference(t, pos + 1, Some(copy_bytes(name.as_slice()))),
        Token::Sheet(name) => parse_reference(t, pos + 1, Some(copy_bytes(name.as_slice()))),
        Token::Range(_) => parse_reference(t, pos, None),
        Token::Cell(_) => parse_reference(t, pos, None),
        Token::VRange(_) => parse_reference(t, pos, None),
        Token::HRange(_) => parse_reference(t, pos, None),
        Token::Integer(x) => Some((Expr::Literal(Literal::Number(Number::Integer(*x))), pos + 1)),
        Token::Float(text) => Some(
            (Expr::Literal(Literal::Number(Number::Decimal(copy_bytes(text.as_slice())))), pos + 1),
        ),
        Token::Text(text) => Some(
            (Expr::Literal(Literal::Text(copy_bytes(text.as_slice()))), pos + 1),
        ),
        Token::Boolean(b) => Some((Expr::Literal(Literal::Boolean(*b)), pos + 1)),
        _ => None,
    }
}

fn go_parse_pratt(t: &[Token], pos: usize, lhs: Expr, precedence: Precedence) -> (r: Option<
    (Expr, usize),
>)
    requires
        pos <= t.len(),
        ranges_wf(lhs@),
    ensures
        parsed(r) == climb_spec(token_views(t@), pos as int, lhs@, precedence),
        r matches Some((e, end)) ==> pos <= end <= t.len() && ranges_wf(e@),
    decreases t.len() - pos, 1int,
{
    if pos >= t.len() {
        return None;
    }
    let ghost tv = token_views(t@);
    assert(tv[pos as int] == t@[pos as int]@);
    if is_token(t, pos, &Token::EOF) {
        return Some((lhs, pos));
    }
    match parse_infix_tags(t, pos) {
        Some((infix, width)) => {
            let p = infix_precedence(infix);
            if precedence.weaker_than(p) {
                let floor: Precedence = match infix {
                    Infix::Exponent => Precedence::MultDiv,
                    _ => p,
                };
                match parse_pratt(t, pos + width, floor) {
                    Some((rhs, end)) => go_parse_pratt(
                        t,
                        end,
                        Expr::Infix(infix, Box::new(lhs), Box::new(rhs)),
                        precedence,
                    ),
                    None => None,
                }
            } else {
                Some((lhs, pos))
            }
        },
        None => Some((lhs, pos)),
    }
}

fn parse_pratt(t: &[Token], pos: usize, precedence: Precedence) -> (r: Option<(Expr, usize)>)
    ensures
        parsed(r) == parse_pratt_spec(token_views(t@), pos as int, precedence),
        r matches Some((e, end)) ==> pos < end <= t.len() && ranges_wf(e@),
    decreases t.len() - pos, 2int,
{
    match parse_atom(t, pos) {
        Some((lhs, end)) => go_parse_pratt(t, end, lhs, precedence),
        None => None,
    }
}

fn parse_expr(t: &[Token], pos: usize) -> (r: Option<(Expr, usize)>)
    ensures
        parsed(r) == parse_expr_spec(token_views(t@), pos as int),
        r matches Some((e, end)) ==> pos < end <= t.len() && ranges_wf(e@),
    decreases t.len() - pos, 3int,
{
    match parse_pratt(t, pos, Precedence::Lowest) {
        Some(found) => Some(found),
        None => parse_atom(t, pos),
    }
}

fn parse_more(t: &[Token], pos: usize, items: &mut Vec<Expr>) -> (end: usize)
    requires
        pos <= t.len(),
        all_ranges_wf(expr_views(old(items)@)),
    ensures
        all_ranges_wf(expr_views(final(items)@)),
        expr_views(final(items)@) == expr_views(old(items)@) + parse_more_spec(
            token_views(t@),
            pos as int,
        ).0,
        end == parse_more_spec(token_views(t@), pos as int).1,
        pos <= end <= t.len(),
    decreases t.len() - pos, 4int,
{
    if is_token(t, pos, &Token::Comma) || is_token(t, pos, &Token::SemiColon) {
        match parse_expr(t, pos + 1) {
            Some((e, end)) => {
                let ghost before = items@;
                let ghost view = e@;
                items.push(e);
                assert(expr_views(items@) =~= expr_views(before) + seq![view]);
                let last = parse_more(t, end, items);
                proof {
                    let rest = parse_more_spec(token_views(t@), end as int).0;
                    assert(expr_views(before) + (seq![view] + rest) =~= (expr_views(before)
                        + seq![view]) + rest);
                }
                last
            },
            None => {
                assert(expr_views(items@) + Seq::<ExprView>::empty() =~= expr_views(items@));
                pos
            },
        }
    } else {
        assert(expr_views(items@) + Seq::<ExprView>::empty() =~= expr_views(items@));
        pos
    }
}

fn parse_args(t: &[Token], pos: usize) -> (r: (Vec<Expr>, usize))
    requires
        pos <= t.len(),
    ensures
        all_ranges_wf(expr_views(r.0@)),
        (expr_views(r.0@), r.1 as int) == parse_args_spec(token_views(t@), pos as int),
        pos <= r.1 <= t.len(),
    decreases t.len() - pos, 5int,
{
    let mut items: Vec<Expr> = Vec::new();
    match parse_expr(t, pos) {
        Some((first, end)) => {
            let ghost view = first@;
            items.push(first);
            assert(expr_views(items@) =~= seq![view]);
            let last = parse_more(t, end, &mut items);
            (items, last)
        },
        None => {
            assert(expr_views(items@) =~= Seq::<ExprView>::empty());
            (items, pos)
        },
    }
}

/// Parses a run of tokens that ends with `Token::EOF`. `None` where the
/// tokens are no expression followed by `EOF`.
pub fn parse(input: Tokens) -> (r: Option<Expr>)
    ensures
        match r {
            Some(e) => parse_spec(token_views(input.tok@)) == Some(e@) && ranges_wf(e@),
            None => parse_spec(token_views(input.tok@)).is_none(),
        },
{
    let t = input.tok;
    match parse_expr(t, 0) {
        Some((e, end)) => {
            if is_token(t, end, &Token::EOF) {
                Some(e)
            } else {
                None
            }
        },
        None => None,
    }
}

/// Parses formula text. Text that holds a byte that starts no token comes
/// back in `Error::UnableToLex`; text whose tokens are no expression comes
/// back in `Error::UnableToParse`.
pub fn parse_str(s: &str) -> (r: Result<Expr, Error>)
    ensures
        parse_outcome(s.spec_bytes(), r),
{
    parse_bytes(s.as_bytes())
}

/// What parsing the text `s` gives.
pub open spec fn parse_outcome(s: Seq<u8>, r: Result<Expr, Error>) -> bool {
    match r {
        Ok(e) => parse_text_spec(s) == Some(e@) && ranges_wf(e@),
        Err(Error::UnableToLex(text)) => lex_tokens_spec(s, 0).is_none() && text@ == s,
        Err(Error::UnableToParse(text)) => lex_tokens_spec(s, 0).is_some() && parse_text_spec(
            s,
        ).is_none() && text@ == s,
        Err(_) => false,
    }
}

/// Parses the bytes of formula text, as `parse_str` does.
pub fn parse_bytes(bytes: &[u8]) -> (r: Result<Expr, Error>)
    ensures
        parse_outcome(bytes@, r),
{
    match Lexer::lex_tokens(bytes) {
        Ok(tokens) => {
            match parse(Tokens::new(tokens.as_slice())) {
                Some(e) => Ok(e),
                None => Err(Error::UnableToParse(copy_bytes(bytes))),
            }
        },
        Err(e) => Err(e),
    }
}

/// The ranges of an atom that was parsed are well formed.
proof fn lemma_atom_wf(t: Seq<TokenView>, pos: int)
    ensures
        parse_atom_spec(t, pos) matches Some((e, _)) ==> ranges_wf(e),
    decreases t.len() - pos, 0int,
{
    if 0 <= pos < t.len() {
        match t[pos] {
            TokenView::Plus | TokenView::Minus => {
                lemma_atom_wf(t, pos + 1);
            },
            TokenView::LParen => {
                lemma_expr_wf(t, pos + 1);
            },
            TokenView::Ident(name) => {
                if tok(t, pos + 1) == Some(TokenView::LParen) {
                    lemma_args_wf(t, pos + 2);
                }
            },
            TokenView::LBrace => {
                lemma_args_wf(t, pos + 1);
            },
            TokenView::MultiSheet(_) | TokenView::Sheet(_) => {
                lemma_reference_wf(t, pos + 1);
            },
            TokenView::Range(_) | TokenView::Cell(_) | TokenView::VRange(_) | TokenView::HRange(
                _,
            ) => {
                lemma_reference_wf(t, pos);
            },
            _ => {},
        }
    }
}

proof fn lemma_reference_wf(t: Seq<TokenView>, pos: int)
    ensures
        forall|sheet: Option<Seq<u8>>|
            (#[trigger] reference_at(t, pos, sheet)) matches Some((e, _)) ==> ranges_wf(e),
{
    match tok(t, pos) {
        Some(TokenView::Range(text)) | Some(TokenView::Cell(text)) | Some(TokenView::VRange(text))
        | Some(TokenView::HRange(text)) => {
            crate::range::lemma_parsed_range_wf(text);
        },
        _ => {},
    }
}

proof fn lemma_climb_wf(t: Seq<TokenView>, pos: int, lhs: ExprView, floor: Precedence)
    requires
        ranges_wf(lhs),
    ensures
        climb_spec(t, pos, lhs, floor) matches Some((e, _)) ==> ranges_wf(e),
    decreases t.len() - pos, 1int,
{
    if 0 <= pos < t.len() && t[pos] != TokenView::EOF {
        match infix_at(t, pos) {
            Some((op, width)) => {
                if floor.rank() < precedence_of(op).rank() && pos + width <= t.len() {
                    lemma_pratt_wf(t, pos + width, right_floor(op));
                    match parse_pratt_spec(t, pos + width, right_floor(op)) {
                        Some((rhs, end)) => {
                            if pos < end <= t.len() {
                                lemma_climb_wf(
                                    t,
                                    end,
                                    ExprView::Infix(op, Box::new(lhs), Box::new(rhs)),
                                    floor,
                                );
                            }
                        },
                        None => {},
                    }
                }
            },
            None => {},
        }
    }
}

proof fn lemma_pratt_wf(t: Seq<TokenView>, pos: int, floor: Precedence)
    ensures
        parse_pratt_spec(t, pos, floor) matches Some((e, _)) ==> ranges_wf(e),
    decreases t.len() - pos, 2int,
{
    lemma_atom_wf(t, pos);
    match parse_atom_spec(t, pos) {
        Some((lhs, end)) => {
            if pos < end <= t.len() {
                lemma_climb_wf(t, end, lhs, floor);
            }
        },
        None => {},
    }
}

proof fn lemma_expr_wf(t: Seq<TokenView>, pos: int)
    ensures
        parse_expr_spec(t, pos) matches Some((e, _)) ==> ranges_wf(e),
    decreases t.len() - pos, 3int,
{
    lemma_pratt_wf(t, pos, Precedence::Lowest);
    lemma_atom_wf(t, pos);
}

proof fn lemma_more_wf(t: Seq<TokenView>, pos: int)
    ensures
        all_ranges_wf(parse_more_spec(t, pos).0),
    decreases t.len() - pos, 4int,
{
    if tok(t, pos) == Some(TokenView::Comma) || tok(t, pos) == Some(TokenView::SemiColon) {
        lemma_expr_wf(t, pos + 1);
        match parse_expr_spec(t, pos + 1) {
            Some((e, end)) => {
                if pos + 1 < end <= t.len() {
                    lemma_more_wf(t, end);
                }
            },
            None => {},
        }
    }
}

proof fn lemma_args_wf(t: Seq<TokenView>, pos: int)
    ensures
        all_ranges_wf(parse_args_spec(t, pos).0),
    decreases t.len() - pos, 5int,
{
    lemma_expr_wf(t, pos);
    match parse_expr_spec(t, pos) {
        Some((first, end)) => {
            if pos < end <= t.len() {
                lemma_more_wf(t, end);
            }
        },
        None => {},
    }
}

/// The ranges of an expression that text spells are well formed.
pub proof fn lemma_parsed_ranges_wf(s: Seq<u8>)
    ensures
        parse_text_spec(s) matches Some(e) ==> ranges_wf(e),
{
    match lex_tokens_spec(s, 0) {
        Some(tokens) => {
            lemma_expr_wf(tokens, 0);
        },
        None => {},
    }
}

} // verus!
