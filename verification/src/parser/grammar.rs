//! The grammar of formulas, and the proof that the parser accepts every
//! sentence of it.
//!
//! A `Phrase` is a formula as it is written, parentheses and separators
//! included; `spell` gives its tokens. The grammar is ambiguous on purpose:
//! `1 + 2 * 3` is spelled by two phrases. The parser picks one reading; that
//! it finds a reading at all is what is shown here.

use crate::lexer::lex_tokens_spec;
use crate::lexer::token::TokenView;
use crate::parser::ast::{ExprView, Infix, Precedence, Prefix};
use crate::parser::{
    climb_spec, infix_at, parse_args_spec, parse_atom_spec, parse_expr_spec, parse_more_spec,
    parse_pratt_spec, parse_spec, parse_text_spec, precedence_of, right_floor, tok,
};
use crate::range::reference_range;
use vstd::prelude::*;

verus! {

/// A formula as it is written.
pub enum Phrase {
    /// A literal or a named error: one token.
    Word(TokenView),
    /// A cell or range token.
    Reference(TokenView),
    /// A sheet qualifier and a cell or range token.
    Qualified(TokenView, TokenView),
    /// A sign before a phrase.
    Signed(Prefix, Box<Phrase>),
    /// A phrase in parentheses.
    Group(Box<Phrase>),
    /// Two phrases with an infix operator between them.
    Joined(Box<Phrase>, Infix, Box<Phrase>),
    /// A function call: the name, the arguments, and for each argument
    /// whether a semicolon rather than a comma stands before it (the entry
    /// of the first argument says nothing).
    Call(Seq<u8>, Seq<Phrase>, Seq<bool>),
    /// An array in braces: the items and their separators, as in a call.
    List(Seq<Phrase>, Seq<bool>),
}

/// A token that is an operand by itself: a literal or a named error.
pub open spec fn is_word(t: TokenView) -> bool {
    match t {
        TokenView::Integer(_) | TokenView::Float(_) | TokenView::Boolean(_) | TokenView::Text(_)
        | TokenView::Null | TokenView::Div | TokenView::Value | TokenView::Ref | TokenView::Name
        | TokenView::Num | TokenView::NA | TokenView::GettingData => true,
        _ => false,
    }
}

/// A cell or range token whose text denotes a range that a formula can
/// refer to.
pub open spec fn is_range_token(t: TokenView) -> bool {
    match t {
        TokenView::Range(text) | TokenView::Cell(text) | TokenView::VRange(text)
        | TokenView::HRange(text) => reference_range(text).is_some(),
        _ => false,
    }
}

/// A sheet qualifier.
pub open spec fn is_sheet_token(t: TokenView) -> bool {
    t is Sheet || t is MultiSheet
}

/// The phrase is one of the grammar: its words are operands, its
/// references denote ranges, and each list has a separator for each item.
pub open spec fn well_formed(p: Phrase) -> bool
    decreases p,
{
    match p {
        Phrase::Word(t) => is_word(t),
        Phrase::Reference(t) => is_range_token(t),
        Phrase::Qualified(sheet, t) => is_sheet_token(sheet) && is_range_token(t),
        Phrase::Signed(_, inner) => well_formed(*inner),
        Phrase::Group(inner) => well_formed(*inner),
        Phrase::Joined(left, _, right) => well_formed(*left) && well_formed(*right),
        Phrase::Call(_, items, separators) => separators.len() == items.len()
            && all_well_formed(items),
        Phrase::List(items, separators) => separators.len() == items.len() && all_well_formed(
            items,
        ),
    }
}

/// Each of the phrases is one of the grammar.
pub open spec fn all_well_formed(items: Seq<Phrase>) -> bool
    decreases items,
{
    forall|i: int| 0 <= i < items.len() ==> well_formed(#[trigger] items[i])
}

/// The tokens of a sign.
pub open spec fn spell_sign(op: Prefix) -> TokenView {
    match op {
        Prefix::Plus => TokenView::Plus,
        Prefix::Minus => TokenView::Minus,
    }
}

/// The tokens of an infix operator: one, or two for `<>`, `<=` and `>=`.
pub open spec fn spell_infix(op: Infix) -> Seq<TokenView> {
    match op {
        Infix::Plus => seq![TokenView::Plus],
        Infix::Minus => seq![TokenView::Minus],
        Infix::Divide => seq![TokenView::Divide],
        Infix::Multiply => seq![TokenView::Multiply],
        Infix::Exponent => seq![TokenView::Exponent],
        Infix::Ampersand => seq![TokenView::Ampersand],
        Infix::Equal => seq![TokenView::Equal],
        Infix::NotEqual => seq![TokenView::LAngle, TokenView::RAngle],
        Infix::GreaterThanEqual => seq![TokenView::RAngle, TokenView::Equal],
        Infix::LessThanEqual => seq![TokenView::LAngle, TokenView::Equal],
        Infix::GreaterThan => seq![TokenView::RAngle],
        Infix::LessThan => seq![TokenView::LAngle],
    }
}

/// The separator token.
pub open spec fn spell_separator(semicolon: bool) -> TokenView {
    if semicolon {
        TokenView::SemiColon
    } else {
        TokenView::Comma
    }
}

/// The tokens of a phrase.
pub open spec fn spell(p: Phrase) -> Seq<TokenView>
    decreases p, 0int,
{
    match p {
        Phrase::Word(t) => seq![t],
        Phrase::Reference(t) => seq![t],
        Phrase::Qualified(sheet, t) => seq![sheet, t],
        Phrase::Signed(op, inner) => seq![spell_sign(op)] + spell(*inner),
        Phrase::Group(inner) => seq![TokenView::LParen] + spell(*inner) + seq![TokenView::RParen],
        Phrase::Joined(left, op, right) => spell(*left) + spell_infix(op) + spell(*right),
        Phrase::Call(name, items, separators) => seq![TokenView::Ident(name), TokenView::LParen]
            + spell_items(items, separators) + seq![TokenView::RParen],
        Phrase::List(items, separators) => seq![TokenView::LBrace] + spell_items(
            items,
            separators,
        ) + seq![TokenView::RBrace],
    }
}

/// The tokens of the items of a list, with the separators between them.
pub open spec fn spell_items(items: Seq<Phrase>, separators: Seq<bool>) -> Seq<TokenView>
    decreases items, items.len() + 1,
{
    if items.len() == 0 {
        Seq::empty()
    } else {
        spell(items[0]) + spell_more(items, separators, 1)
    }
}

/// The tokens of the items from the one at `from` on, each behind its
/// separator.
pub open spec fn spell_more(items: Seq<Phrase>, separators: Seq<bool>, from: int) -> Seq<TokenView>
    decreases items, items.len() - from,
{
    if 0 <= from < items.len() && from < separators.len() {
        seq![spell_separator(separators[from])] + spell(items[from]) + spell_more(
            items,
            separators,
            from + 1,
        )
    } else {
        Seq::empty()
    }
}

/// A token stream without syntax errors: the tokens of a phrase of the
/// grammar, then `EOF`.
pub open spec fn sentence(p: Phrase) -> Seq<TokenView> {
    spell(p).push(TokenView::EOF)
}

/// The tokens `y` stand in `s` from `p` on.
spec fn stands_at(s: Seq<TokenView>, p: int, y: Seq<TokenView>) -> bool {
    &&& 0 <= p
    &&& p + y.len() <= s.len()
    &&& forall|i: int| 0 <= i < y.len() ==> s[p + i] == #[trigger] y[i]
}

/// A token that can begin an operand.
spec fn opens(t: TokenView) -> bool {
    is_word(t) || is_range_token(t) || is_sheet_token(t) || t == TokenView::Plus || t
        == TokenView::Minus || t == TokenView::LParen || t == TokenView::LBrace || t is Ident
}

/// From `p` to `end` stand operands with infix operators between them, as
/// the parser reads them: an atom at `p`, and behind it either `end` or an
/// operator and a further such run.
#[verifier::opaque]
spec fn chain(s: Seq<TokenView>, p: int, end: int) -> bool
    decreases end - p,
{
    if 0 <= p < end && end < s.len() {
        match parse_atom_spec(s, p) {
            Some((_, q)) => if p < q <= end {
                q == end || match infix_at(s, q) {
                    Some((_, width)) => if 0 < width && q + width < end {
                        chain(s, q + width, end)
                    } else {
                        false
                    },
                    None => false,
                }
            } else {
                false
            },
            None => false,
        }
    } else {
        false
    }
}

/// Behind `q` stands either `end` or an operator and a run of operands
/// and operators up to `end`.
spec fn tail(s: Seq<TokenView>, q: int, end: int) -> bool {
    q == end || match infix_at(s, q) {
        Some((_, width)) => width > 0 && chain(s, q + width, end),
        None => false,
    }
}

/// Where the parser stops inside a run: at its end, or before an operator
/// that does not bind more tightly than `floor`.
spec fn stops(s: Seq<TokenView>, stop: int, end: int, floor: Precedence) -> bool {
    &&& tail(s, stop, end)
    &&& stop <= end
    &&& stop == end || match infix_at(s, stop) {
        Some((op, _)) => floor.rank() >= precedence_of(op).rank(),
        None => false,
    }
}

proof fn lemma_stands_split(s: Seq<TokenView>, p: int, a: Seq<TokenView>, b: Seq<TokenView>)
    requires
        stands_at(s, p, a + b),
    ensures
        stands_at(s, p, a),
        stands_at(s, p + a.len(), b),
{
    let y = a + b;
    assert forall|i: int| 0 <= i < a.len() implies s[p + i] == #[trigger] a[i] by {
        assert(y[i] == a[i]);
    }
    assert forall|i: int| 0 <= i < b.len() implies s[p + a.len() + i] == #[trigger] b[i] by {
        assert(y[a.len() + i] == b[i]);
    }
}

/// The first token of a phrase can begin an operand.
proof fn lemma_first_token(t: Phrase)
    requires
        well_formed(t),
    ensures
        spell(t).len() > 0,
        opens(spell(t)[0]),
    decreases t,
{
    match t {
        Phrase::Joined(left, op, right) => {
            lemma_first_token(*left);
        },
        _ => {},
    }
}

/// The operators and operands of a run are read up to a stop.
proof fn lemma_climb(s: Seq<TokenView>, q: int, end: int, lhs: ExprView, floor: Precedence)
    requires
        0 <= q <= end < s.len(),
        tail(s, q, end),
        infix_at(s, end) is None,
    ensures
        climb_spec(s, q, lhs, floor) matches Some((_, stop)) && q <= stop && stops(
            s,
            stop,
            end,
            floor,
        ),
    decreases end - q,
{
    reveal(chain);
    if q < end {
        let (op, width) = infix_at(s, q).unwrap();
        assert(s[q] != TokenView::EOF);
        if floor.rank() < precedence_of(op).rank() {
            let start = q + width;
            assert(chain(s, start, end));
            let (first, q2) = parse_atom_spec(s, start).unwrap();
            lemma_climb(s, q2, end, first, right_floor(op));
            let (rhs, q3) = climb_spec(s, q2, first, right_floor(op)).unwrap();
            assert(parse_pratt_spec(s, start, right_floor(op)) == Some((rhs, q3)));
            lemma_climb(s, q3, end, ExprView::Infix(op, Box::new(lhs), Box::new(rhs)), floor);
        }
    }
}

/// A run of operands and operators is read as an expression up to its end.
proof fn lemma_run_parses(s: Seq<TokenView>, p: int, end: int)
    requires
        chain(s, p, end),
        infix_at(s, end) is None,
    ensures
        parse_expr_spec(s, p) matches Some((_, stop)) && stop == end,
{
    reveal(chain);
    let (first, q) = parse_atom_spec(s, p).unwrap();
    lemma_climb(s, q, end, first, Precedence::Lowest);
    let (e, stop) = climb_spec(s, q, first, Precedence::Lowest).unwrap();
    assert(parse_pratt_spec(s, p, Precedence::Lowest) == Some((e, stop)));
    if stop != end {
        let (op, _) = infix_at(s, stop).unwrap();
        assert(precedence_of(op).rank() > 0);
    }
}

/// A word or a reference is an atom.
proof fn lemma_leaf(t: Phrase, s: Seq<TokenView>, p: int, end: int)
    requires
        t is Word || t is Reference || t is Qualified,
        well_formed(t),
        stands_at(s, p, spell(t)),
        p + spell(t).len() <= end < s.len(),
        tail(s, p + spell(t).len(), end),
    ensures
        chain(s, p, end),
{
    reveal(chain);
    let y = spell(t);
    assert(s[p + 0] == y[0]);
    if t is Qualified {
        assert(s[p + 1] == y[1]);
    }
}

/// A sign before an atom makes an atom.
proof fn lemma_signed(s: Seq<TokenView>, p: int, end: int)
    requires
        0 <= p,
        s[p] == TokenView::Plus || s[p] == TokenView::Minus,
        chain(s, p + 1, end),
    ensures
        chain(s, p, end),
{
    reveal(chain);
}

/// An expression between parentheses is an atom.
proof fn lemma_group(s: Seq<TokenView>, p: int, stop: int, end: int)
    requires
        0 <= p < stop < end < s.len(),
        s[p] == TokenView::LParen,
        parse_expr_spec(s, p + 1) matches Some((_, at)) && at == stop,
        s[stop] == TokenView::RParen,
        tail(s, stop + 1, end),
    ensures
        chain(s, p, end),
{
    reveal(chain);
}

/// A name and a list between parentheses are an atom.
proof fn lemma_call(s: Seq<TokenView>, p: int, stop: int, end: int)
    requires
        0 <= p,
        p + 2 <= stop < end < s.len(),
        s[p] is Ident,
        s[p + 1] == TokenView::LParen,
        parse_args_spec(s, p + 2).1 == stop,
        s[stop] == TokenView::RParen,
        tail(s, stop + 1, end),
    ensures
        chain(s, p, end),
{
    reveal(chain);
}

/// A list between braces is an atom.
proof fn lemma_list(s: Seq<TokenView>, p: int, stop: int, end: int)
    requires
        0 <= p < stop < end < s.len(),
        s[p] == TokenView::LBrace,
        parse_args_spec(s, p + 1).1 == stop,
        s[stop] == TokenView::RBrace,
        tail(s, stop + 1, end),
    ensures
        chain(s, p, end),
{
    reveal(chain);
}

/// Where the tokens of an operator stand before a token that begins an
/// operand, the parser reads that operator.
proof fn lemma_operator(s: Seq<TokenView>, at: int, op: Infix)
    requires
        stands_at(s, at, spell_infix(op)),
        at + spell_infix(op).len() < s.len(),
        opens(s[at + spell_infix(op).len()]),
    ensures
        infix_at(s, at) == Some((op, spell_infix(op).len() as int)),
        spell_infix(op).len() > 0,
{
    let o = spell_infix(op);
    assert(s[at + 0] == o[0]);
    if o.len() == 2 {
        assert(s[at + 1] == o[1]);
    }
}

/// Where a phrase stands and a run follows it, the run begins with the
/// phrase.
proof fn lemma_phrase(t: Phrase, s: Seq<TokenView>, p: int, end: int)
    requires
        well_formed(t),
        stands_at(s, p, spell(t)),
        p + spell(t).len() <= end < s.len(),
        tail(s, p + spell(t).len(), end),
        infix_at(s, end) is None,
    ensures
        chain(s, p, end),
    decreases t, 0int,
{
    match t {
        Phrase::Word(_) | Phrase::Reference(_) | Phrase::Qualified(_, _) => {
            lemma_leaf(t, s, p, end);
        },
        Phrase::Signed(op, inner) => {
            let sign = seq![spell_sign(op)];
            lemma_stands_split(s, p, sign, spell(*inner));
            assert(s[p + 0] == sign[0]);
            lemma_phrase(*inner, s, p + 1, end);
            lemma_signed(s, p, end);
        },
        Phrase::Group(inner) => {
            let open = seq![TokenView::LParen];
            let close = seq![TokenView::RParen];
            lemma_stands_split(s, p, open + spell(*inner), close);
            lemma_stands_split(s, p, open, spell(*inner));
            let stop = p + 1 + spell(*inner).len();
            assert(s[stop + 0] == close[0]);
            assert(s[p + 0] == open[0]);
            lemma_first_token(*inner);
            lemma_phrase(*inner, s, p + 1, stop);
            lemma_run_parses(s, p + 1, stop);
            lemma_group(s, p, stop, end);
        },
        Phrase::Joined(left, op, right) => {
            let a = spell(*left);
            let o = spell_infix(op);
            let b = spell(*right);
            lemma_stands_split(s, p, a + o, b);
            lemma_stands_split(s, p, a, o);
            lemma_first_token(*right);
            let at = p + a.len();
            assert(s[at + o.len() + 0] == b[0]);
            lemma_operator(s, at, op);
            lemma_phrase(*right, s, at + o.len(), end);
            lemma_phrase(*left, s, p, end);
        },
        Phrase::Call(name, items, separators) => {
            let head = seq![TokenView::Ident(name), TokenView::LParen];
            let close = seq![TokenView::RParen];
            let list = spell_items(items, separators);
            lemma_stands_split(s, p, head + list, close);
            lemma_stands_split(s, p, head, list);
            assert(s[p + 0] == head[0]);
            assert(s[p + 1] == head[1]);
            let stop = p + 2 + list.len();
            assert(s[stop + 0] == close[0]);
            lemma_items(items, separators, s, p + 2, stop);
            lemma_call(s, p, stop, end);
        },
        Phrase::List(items, separators) => {
            let head = seq![TokenView::LBrace];
            let close = seq![TokenView::RBrace];
            let list = spell_items(items, separators);
            lemma_stands_split(s, p, head + list, close);
            lemma_stands_split(s, p, head, list);
            assert(s[p + 0] == head[0]);
            let stop = p + 1 + list.len();
            assert(s[stop + 0] == close[0]);
            lemma_items(items, separators, s, p + 1, stop);
            lemma_list(s, p, stop, end);
        },
    }
}

/// The items of a list are read up to the token that closes the list.
proof fn lemma_items(
    items: Seq<Phrase>,
    separators: Seq<bool>,
    s: Seq<TokenView>,
    p: int,
    stop: int,
)
    requires
        all_well_formed(items),
        separators.len() == items.len(),
        stands_at(s, p, spell_items(items, separators)),
        stop == p + spell_items(items, separators).len(),
        stop < s.len(),
        s[stop] == TokenView::RParen || s[stop] == TokenView::RBrace,
    ensures
        parse_args_spec(s, p).1 == stop,
    decreases items, items.len() + 1,
{
    if items.len() == 0 {
        assert(parse_atom_spec(s, p) is None);
        assert(parse_pratt_spec(s, p, Precedence::Lowest) is None);
    } else {
        let first = spell(items[0]);
        let rest = spell_more(items, separators, 1);
        lemma_stands_split(s, p, first, rest);
        lemma_first_token(items[0]);
        let next = p + first.len();
        lemma_separated(items, separators, 1, s, next, stop);
        lemma_phrase(items[0], s, p, next);
        lemma_run_parses(s, p, next);
    }
}

/// The items from the one at `from` on are read up to the token that
/// closes the list; before each stands a token that ends an expression.
proof fn lemma_separated(
    items: Seq<Phrase>,
    separators: Seq<bool>,
    from: int,
    s: Seq<TokenView>,
    p: int,
    stop: int,
)
    requires
        all_well_formed(items),
        separators.len() == items.len(),
        1 <= from <= items.len(),
        stands_at(s, p, spell_more(items, separators, from)),
        stop == p + spell_more(items, separators, from).len(),
        stop < s.len(),
        s[stop] == TokenView::RParen || s[stop] == TokenView::RBrace,
    ensures
        parse_more_spec(s, p).1 == stop,
        infix_at(s, p) is None,
        p <= stop,
    decreases items, items.len() - from,
{
    if from < items.len() {
        let mark = seq![spell_separator(separators[from])];
        let item = spell(items[from]);
        let rest = spell_more(items, separators, from + 1);
        lemma_stands_split(s, p, mark + item, rest);
        lemma_stands_split(s, p, mark, item);
        assert(s[p + 0] == mark[0]);
        lemma_first_token(items[from]);
        let next = p + 1 + item.len();
        lemma_separated(items, separators, from + 1, s, next, stop);
        lemma_phrase(items[from], s, p + 1, next);
        lemma_run_parses(s, p + 1, next);
    }
}

/// Every token stream without syntax errors parses: for each phrase of
/// the grammar, the parser finds an expression in its tokens followed by
/// `EOF`.
pub proof fn lemma_sentences_parse(p: Phrase)
    requires
        well_formed(p),
    ensures
        parse_spec(sentence(p)) is Some,
{
    let s = sentence(p);
    let end = spell(p).len() as int;
    assert(s[end] == TokenView::EOF);
    assert forall|i: int| 0 <= i < spell(p).len() implies s[0 + i] == #[trigger] spell(p)[i] by {}
    lemma_phrase(p, s, 0, end);
    lemma_run_parses(s, 0, end);
}

/// Formula text whose tokens are a sentence of the grammar parses.
pub proof fn lemma_formula_text_parses(text: Seq<u8>, p: Phrase)
    requires
        well_formed(p),
        lex_tokens_spec(text, 0) == Some(sentence(p)),
    ensures
        parse_text_spec(text) is Some,
{
    lemma_sentences_parse(p);
}

} // verus!
