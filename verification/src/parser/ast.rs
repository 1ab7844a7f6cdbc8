//! The syntax tree of a formula.

use crate::range::Range;
use crate::text::copy_bytes;
use vstd::prelude::*;

verus! {

/// The spreadsheet errors, carried in band as values.
#[derive(Clone, Copy, Debug, PartialEq, Eq, Structural)]
pub enum Error {
    Null,
    Div,
    Value,
    Ref,
    Name,
    Num,
    NA,
    GettingData,
}

#[derive(Clone, Copy, Debug, PartialEq, Eq, Structural)]
pub enum Prefix {
    Plus,
    Minus,
}

#[derive(Clone, Copy, Debug, PartialEq, Eq, Structural)]
pub enum Infix {
    Plus,
    Minus,
    Divide,
    Multiply,
    Exponent,
    Ampersand,
    Equal,
    NotEqual,
    GreaterThanEqual,
    LessThanEqual,
    GreaterThan,
    LessThan,
}

/// Binding strength of the infix operators, weakest first.
#[derive(Clone, Copy, Debug, PartialEq, Eq, Structural)]
pub enum Precedence {
    Lowest,
    Comparison,
    Concat,
    PlusMinus,
    MultDiv,
    Exponent,
    Percent,
}

impl Precedence {
    /// Position in the order of binding strength.
    pub open spec fn rank(self) -> int {
        match self {
            Precedence::Lowest => 0,
            Precedence::Comparison => 1,
            Precedence::Concat => 2,
            Precedence::PlusMinus => 3,
            Precedence::MultDiv => 4,
            Precedence::Exponent => 5,
            Precedence::Percent => 6,
        }
    }

    /// Whether `self` binds less tightly than `other`.
    pub fn weaker_than(self, other: Precedence) -> (r: bool)
        ensures
            r == (self.rank() < other.rank()),
    {
        let a: u8 = match self {
            Precedence::Lowest => 0,
            Precedence::Comparison => 1,
            Precedence::Concat => 2,
            Precedence::PlusMinus => 3,
            Precedence::MultDiv => 4,
            Precedence::Exponent => 5,
            Precedence::Percent => 6,
        };
        let b: u8 = match other {
            Precedence::Lowest => 0,
            Precedence::Comparison => 1,
            Precedence::Concat => 2,
            Precedence::PlusMinus => 3,
            Precedence::MultDiv => 4,
            Precedence::Exponent => 5,
            Precedence::Percent => 6,
        };
        a < b
    }
}

/// A number as it is written in a formula.
#[derive(PartialEq, Eq, Debug, Clone)]
pub enum Number {
    /// A whole number.
    Integer(i64),
    /// A decimal number, held as its text: digits, a period, digits.
    Decimal(Vec<u8>),
}

#[derive(PartialEq, Eq, Debug, Clone)]
pub enum Literal {
    Number(Number),
    Boolean(bool),
    Text(Vec<u8>),
}

#[derive(PartialEq, Eq, Debug)]
pub enum Expr {
    Literal(Literal),
    Prefix(Prefix, Box<Expr>),
    Infix(Infix, Box<Expr>, Box<Expr>),
    Func { name: Vec<u8>, args: Vec<Expr> },
    Reference { sheet: Option<Vec<u8>>, range: Range },
    Array(Vec<Expr>),
    Error(Error),
}

pub enum NumberView {
    Integer(i64),
    Decimal(Seq<u8>),
}

pub enum LiteralView {
    Number(NumberView),
    Boolean(bool),
    Text(Seq<u8>),
}

/// An expression as a mathematical value.
pub enum ExprView {
    Literal(LiteralView),
    Prefix(Prefix, Box<ExprView>),
    Infix(Infix, Box<ExprView>, Box<ExprView>),
    Func { name: Seq<u8>, args: Seq<ExprView> },
    Reference { sheet: Option<Seq<u8>>, range: Range },
    Array(Seq<ExprView>),
    Error(Error),
}

impl View for Number {
    type V = NumberView;

    open spec fn view(&self) -> NumberView {
        match self {
            Number::Integer(i) => NumberView::Integer(*i),
            Number::Decimal(t) => NumberView::Decimal(t@),
        }
    }
}

impl View for Literal {
    type V = LiteralView;

    open spec fn view(&self) -> LiteralView {
        match self {
            Literal::Number(n) => LiteralView::Number(n@),
            Literal::Boolean(b) => LiteralView::Boolean(*b),
            Literal::Text(t) => LiteralView::Text(t@),
        }
    }
}

pub open spec fn opt_bytes_view(o: Option<Vec<u8>>) -> Option<Seq<u8>> {
    match o {
        Some(v) => Some(v@),
        None => None,
    }
}

/// The mathematical value of an expression.
pub open spec fn expr_view(e: Expr) -> ExprView
    decreases e,
{
    match e {
        Expr::Literal(l) => ExprView::Literal(l@),
        Expr::Prefix(op, inner) => ExprView::Prefix(op, Box::new(expr_view(*inner))),
        Expr::Infix(op, a, b) => ExprView::Infix(
            op,
            Box::new(expr_view(*a)),
            Box::new(expr_view(*b)),
        ),
        Expr::Func { name, args } => ExprView::Func {
            name: name@,
            args: Seq::new(
                args@.len(),
                |i: int|
                    if 0 <= i < args@.len() {
                        expr_view(args@[i])
                    } else {
                        ExprView::Error(Error::Null)
                    },
            ),
        },
        Expr::Reference { sheet, range } => ExprView::Reference {
            sheet: opt_bytes_view(sheet),
            range,
        },
        Expr::Array(items) => ExprView::Array(
            Seq::new(
                items@.len(),
                |i: int|
                    if 0 <= i < items@.len() {
                        expr_view(items@[i])
                    } else {
                        ExprView::Error(Error::Null)
                    },
            ),
        ),
        Expr::Error(kind) => ExprView::Error(kind),
    }
}

impl View for Expr {
    type V = ExprView;

    open spec fn view(&self) -> ExprView {
        expr_view(*self)
    }
}

/// Every range of the expression is well formed.
pub open spec fn ranges_wf(e: ExprView) -> bool
    decreases e,
{
    match e {
        ExprView::Reference { sheet, range } => range.wf(),
        ExprView::Infix(_, a, b) => ranges_wf(*a) && ranges_wf(*b),
        ExprView::Prefix(_, a) => ranges_wf(*a),
        ExprView::Func { name, args } => all_ranges_wf(args),
        ExprView::Array(items) => all_ranges_wf(items),
        _ => true,
    }
}

/// Every range of every expression is well formed.
pub open spec fn all_ranges_wf(items: Seq<ExprView>) -> bool
    decreases items,
{
    forall|i: int| 0 <= i < items.len() ==> ranges_wf(#[trigger] items[i])
}

/// The views of a run of expressions.
pub open spec fn expr_views(items: Seq<Expr>) -> Seq<ExprView> {
    Seq::new(items.len(), |i: int| items[i]@)
}

/// The view of a call or an array holds the views of its items.
pub proof fn lemma_views_of_items(items: Vec<Expr>)
    ensures
        (Expr::Array(items))@ == ExprView::Array(expr_views(items@)),
{
    assert((Expr::Array(items))@->Array_0 =~= expr_views(items@));
}

pub proof fn lemma_views_of_args(name: Vec<u8>, args: Vec<Expr>)
    ensures
        (Expr::Func { name, args })@ == (ExprView::Func { name: name@, args: expr_views(args@) }),
{
    assert((Expr::Func { name, args })@->Func_args =~= expr_views(args@));
}

impl Number {
    /// A copy of the number.
    pub fn duplicate(&self) -> (r: Number)
        ensures
            r@ == self@,
    {
        match self {
            Number::Integer(i) => Number::Integer(*i),
            Number::Decimal(t) => Number::Decimal(copy_bytes(t.as_slice())),
        }
    }
}

impl Literal {
    /// A copy of the literal.
    pub fn duplicate(&self) -> (r: Literal)
        ensures
            r@ == self@,
    {
        match self {
            Literal::Number(n) => Literal::Number(n.duplicate()),
            Literal::Boolean(b) => Literal::Boolean(*b),
            Literal::Text(t) => Literal::Text(copy_bytes(t.as_slice())),
        }
    }
}

/// Copies of the expressions of `items`.
pub fn duplicate_all(items: &Vec<Expr>) -> (r: Vec<Expr>)
    ensures
        expr_views(r@) == expr_views(items@),
    decreases items,
{
    let mut out: Vec<Expr> = Vec::new();
    let mut i: usize = 0;
    while i < items.len()
        invariant
            i <= items.len(),
            out.len() == i,
            forall|j: int| 0 <= j < i ==> out@[j]@ == items@[j]@,
        decreases items.len() - i,
    {
        let copy = items[i].duplicate();
        out.push(copy);
        i = i + 1;
    }
    assert(expr_views(out@) =~= expr_views(items@));
    out
}

impl Expr {
    /// A copy of the expression.
    pub fn duplicate(&self) -> (r: Expr)
        ensures
            r@ == self@,
        decreases self,
    {
        match self {
            Expr::Literal(l) => Expr::Literal(l.duplicate()),
            Expr::Prefix(op, inner) => Expr::Prefix(*op, Box::new(inner.duplicate())),
            Expr::Infix(op, a, b) => Expr::Infix(
                *op,
                Box::new(a.duplicate()),
                Box::new(b.duplicate()),
            ),
            Expr::Func { name, args } => {
                let new_name = copy_bytes(name.as_slice());
                let new_args = duplicate_all(args);
                proof {
                    lemma_views_of_args(*name, *args);
                    lemma_views_of_args(new_name, new_args);
                }
                Expr::Func { name: new_name, args: new_args }
            },
            Expr::Reference { sheet, range } => {
                let new_sheet: Option<Vec<u8>> = match sheet {
                    Some(s) => Some(copy_bytes(s.as_slice())),
                    None => None,
                };
                Expr::Reference { sheet: new_sheet, range: *range }
            },
            Expr::Array(items) => {
                let new_items = duplicate_all(items);
                proof {
                    lemma_views_of_items(*items);
                    lemma_views_of_items(new_items);
                }
                Expr::Array(new_items)
            },
            Expr::Error(kind) => Expr::Error(*kind),
        }
    }
}

impl Clone for Expr {
    fn clone(&self) -> (r: Expr)
        ensures
            r@ == self@,
    {
        self.duplicate()
    }
}

} // verus!
