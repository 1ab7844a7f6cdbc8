//! What the evaluator is handed by its caller: the arithmetic on numbers
//! and the library of functions. The evaluator decides what is computed;
//! these compute it.

use crate::evaluate::value::{value_views, Double, Value, ValueView};
use crate::parser::ast::{Infix, Number, NumberView};
use vstd::prelude::*;

verus! {

/// The operations that the caller supplies.
pub struct Kernel<FN, FA, FT, FL> {
    /// The number that a numeral stands for; `None` for text that is no
    /// number.
    pub number: FN,
    /// The result of `+`, `-`, `*`, `/` or `^` on two numbers.
    pub arith: FA,
    /// The whole part of a number.
    pub truncate: FT,
    /// The value of a function of the library for its arguments; `None`
    /// for a name that the library does not have.
    pub library: FL,
}

pub open spec fn option_value_view(o: Option<Value>) -> Option<ValueView> {
    match o {
        Some(v) => Some(v@),
        None => None,
    }
}

/// `number` accepts every numeral and is a function of what it is given.
pub open spec fn number_ok<FN: Fn(&Number) -> Option<Double>>(f: FN) -> bool {
    &&& forall|n: Number| #[trigger] f.requires((&n,))
    &&& forall|a: Number, b: Number, x: Option<Double>, y: Option<Double>|
        a@ == b@ && #[trigger] f.ensures((&a,), x) && #[trigger] f.ensures((&b,), y) ==> x == y
}

/// `arith` accepts all numbers and is a function of what it is given.
pub open spec fn arith_ok<FA: Fn(Infix, Double, Double) -> Double>(f: FA) -> bool {
    &&& forall|op: Infix, a: Double, b: Double| #[trigger] f.requires((op, a, b))
    &&& forall|op: Infix, a: Double, b: Double, x: Double, y: Double| #[trigger]
        f.ensures((op, a, b), x) && #[trigger] f.ensures((op, a, b), y) ==> x == y
}

/// `truncate` accepts every number and is a function of what it is given.
pub open spec fn truncate_ok<FT: Fn(Double) -> i64>(f: FT) -> bool {
    &&& forall|a: Double| #[trigger] f.requires((a,))
    &&& forall|a: Double, x: i64, y: i64| #[trigger]
        f.ensures((a,), x) && #[trigger] f.ensures((a,), y) ==> x == y
}

/// `library` accepts every name with any arguments and is a function of
/// what it is given.
pub open spec fn library_ok<FL: Fn(&Vec<u8>, Vec<Value>) -> Option<Value>>(f: FL) -> bool {
    &&& forall|name: Vec<u8>, args: Vec<Value>| #[trigger] f.requires((&name, args))
    &&& forall|n1: Vec<u8>, a1: Vec<Value>, r1: Option<Value>, n2: Vec<u8>, a2: Vec<Value>, r2: Option<Value>|
        n1@ == n2@ && value_views(a1@) == value_views(a2@) && #[trigger] f.ensures((&n1, a1), r1)
            && #[trigger] f.ensures((&n2, a2), r2) ==> option_value_view(r1) == option_value_view(
            r2,
        )
}

/// What `number` gives for a numeral.
pub open spec fn number_model<FN: Fn(&Number) -> Option<Double>>(f: FN, n: NumberView) -> Option<
    Double,
> {
    (choose|p: (Number, Option<Double>)| p.0@ == n && #[trigger] f.ensures((&p.0,), p.1)).1
}

/// What `arith` gives for an operator and two numbers.
pub open spec fn arith_model<FA: Fn(Infix, Double, Double) -> Double>(
    f: FA,
    op: Infix,
    a: Double,
    b: Double,
) -> Double {
    choose|r: Double| f.ensures((op, a, b), r)
}

/// What `truncate` gives for a number.
pub open spec fn truncate_model<FT: Fn(Double) -> i64>(f: FT, a: Double) -> i64 {
    choose|r: i64| f.ensures((a,), r)
}

/// What `library` gives for a name and arguments.
pub open spec fn library_model<FL: Fn(&Vec<u8>, Vec<Value>) -> Option<Value>>(
    f: FL,
    name: Seq<u8>,
    args: Seq<ValueView>,
) -> Option<ValueView> {
    option_value_view(
        (choose|p: (Vec<u8>, Vec<Value>, Option<Value>)|
            p.0@ == name && value_views(p.1@) == args && #[trigger] f.ensures((&p.0, p.1), p.2)).2,
    )
}

pub proof fn lemma_number_model<FN: Fn(&Number) -> Option<Double>>(
    f: FN,
    n: Number,
    r: Option<Double>,
)
    requires
        number_ok(f),
        f.ensures((&n,), r),
    ensures
        r == number_model(f, n@),
{
    let found = (n, r);
    assert(found.0@ == n@ && f.ensures((&found.0,), found.1));
    let p = choose|p: (Number, Option<Double>)| p.0@ == n@ && #[trigger] f.ensures((&p.0,), p.1);
    assert(f.ensures((&p.0,), p.1));
}

pub proof fn lemma_library_model<FL: Fn(&Vec<u8>, Vec<Value>) -> Option<Value>>(
    f: FL,
    name: Vec<u8>,
    args: Vec<Value>,
    r: Option<Value>,
)
    requires
        library_ok(f),
        f.ensures((&name, args), r),
    ensures
        option_value_view(r) == library_model(f, name@, value_views(args@)),
{
    let found = (name, args, r);
    assert(found.0@ == name@ && value_views(found.1@) == value_views(args@) && f.ensures(
        (&found.0, found.1),
        found.2,
    ));
    let p = choose|p: (Vec<u8>, Vec<Value>, Option<Value>)|
        p.0@ == name@ && value_views(p.1@) == value_views(args@) && #[trigger] f.ensures(
            (&p.0, p.1),
            p.2,
        );
    assert(f.ensures((&p.0, p.1), p.2));
}

impl<FN, FA, FT, FL> Kernel<FN, FA, FT, FL> where
    FN: Fn(&Number) -> Option<Double>,
    FA: Fn(Infix, Double, Double) -> Double,
    FT: Fn(Double) -> i64,
    FL: Fn(&Vec<u8>, Vec<Value>) -> Option<Value>,
 {
    /// Every operation accepts all that it can be given and is a function
    /// of it.
    pub open spec fn ok(&self) -> bool {
        &&& number_ok(self.number)
        &&& arith_ok(self.arith)
        &&& truncate_ok(self.truncate)
        &&& library_ok(self.library)
    }

    /// The number of a numeral.
    pub fn to_number(&self, n: &Number) -> (r: Option<Double>)
        requires
            self.ok(),
        ensures
            r == number_model(self.number, n@),
    {
        let r = (self.number)(n);
        proof {
            lemma_number_model(self.number, *n, r);
        }
        r
    }

    /// The result of an arithmetic operator on two numbers.
    pub fn compute(&self, op: Infix, a: Double, b: Double) -> (r: Double)
        requires
            self.ok(),
        ensures
            r == arith_model(self.arith, op, a, b),
    {
        (self.arith)(op, a, b)
    }

    /// The whole part of a number.
    pub fn whole(&self, a: Double) -> (r: i64)
        requires
            self.ok(),
        ensures
            r == truncate_model(self.truncate, a),
    {
        (self.truncate)(a)
    }

    /// The value of a library function.
    pub fn call(&self, name: &Vec<u8>, args: Vec<Value>) -> (r: Option<Value>)
        requires
            self.ok(),
        ensures
            option_value_view(r) == library_model(self.library, name@, value_views(args@)),
    {
        let ghost given = args;
        let r = (self.library)(name, args);
        proof {
            lemma_library_model(self.library, *name, given, r);
        }
        r
    }
}

} // verus!
