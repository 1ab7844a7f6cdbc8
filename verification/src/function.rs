//! The functions that the evaluator knows by itself. Each takes the
//! evaluated arguments of a call and gives a value; an argument that
//! cannot be taken as what the function needs gives `Error::Value`.
//! Numbers are added, divided and compared by the kernel.

use crate::evaluate::kernel::{arith_model, option_value_view, Kernel};
use crate::evaluate::value::{
    lemma_view_of_array, lemma_view_of_array2, truth_of, value_order, value_views, Double, Order,
    Value, ValueView, ZERO_BITS,
};
use crate::evaluate::value::{single_of, text_of};
use crate::evaluate::{concat, concat_spec};
use crate::lexer::{has_tag, tag_at};
use crate::parser::ast::{Error as ExcelError, ExprView, Infix, Number};
use crate::parser::{parse_bytes, parse_text_spec};
use crate::text::{append_bytes, bytes_eq};
use vstd::prelude::*;
use vstd::string::StringSliceAdditionalSpecFns;

verus! {

/// Which items of an array count for a function: the numbers, or all but
/// the empty ones.
#[derive(Clone, Copy, Debug, PartialEq, Eq, Structural)]
pub enum Keep {
    Numbers,
    Filled,
}

/// Whether an item of an array counts.
pub open spec fn counts(keep: Keep, v: ValueView) -> bool {
    match keep {
        Keep::Numbers => v is Num,
        Keep::Filled => !(v is Empty),
    }
}

/// The items that count, in their order.
pub open spec fn kept(items: Seq<ValueView>, keep: Keep) -> Seq<ValueView>
    decreases items.len(),
{
    if items.len() == 0 {
        Seq::empty()
    } else if counts(keep, items.last()) {
        kept(items.drop_last(), keep).push(items.last())
    } else {
        kept(items.drop_last(), keep)
    }
}

/// What one argument stands for: an array for those of its items that
/// count, a rectangle likewise where `deep`, anything else for itself.
pub open spec fn spread_one(v: ValueView, deep: bool, keep: Keep) -> Seq<ValueView> {
    match v {
        ValueView::Array(items) => kept(items, keep),
        ValueView::Array2 { rows, columns, cells } => if deep {
            kept(cells, keep)
        } else {
            seq![v]
        },
        _ => seq![v],
    }
}

/// What the arguments stand for, one after the other.
pub open spec fn spread(vals: Seq<ValueView>, deep: bool, keep: Keep) -> Seq<ValueView>
    decreases vals.len(),
{
    if vals.len() == 0 {
        Seq::empty()
    } else {
        spread(vals.drop_last(), deep, keep) + spread_one(vals.last(), deep, keep)
    }
}

/// The larger or the smaller of two values; of two that are equal or
/// have no order, the larger is the second and the smaller the first.
pub open spec fn pick(a: ValueView, b: ValueView, larger: bool) -> ValueView {
    if value_order(a, b) == Some(Order::Greater) {
        if larger {
            a
        } else {
            b
        }
    } else if larger {
        b
    } else {
        a
    }
}

/// The largest or the smallest of `start` and the items.
pub open spec fn best(items: Seq<ValueView>, start: ValueView, larger: bool) -> ValueView
    decreases items.len(),
{
    if items.len() == 0 {
        start
    } else {
        pick(best(items.drop_last(), start, larger), items.last(), larger)
    }
}

/// `MAX` and `MIN`: the largest or smallest of the arguments, arrays and
/// rectangles counted by their numbers. It starts from the first argument
/// as it is.
pub open spec fn extreme_spec(vals: Seq<ValueView>, larger: bool) -> ValueView {
    if vals.len() == 0 {
        ValueView::Error(ExcelError::Value)
    } else {
        best(spread(vals, true, Keep::Numbers), vals[0], larger)
    }
}

/// `IF`: the second argument where the first is true, else the third.
pub open spec fn if_spec(vals: Seq<ValueView>) -> ValueView {
    if vals.len() < 3 {
        ValueView::Error(ExcelError::Value)
    } else {
        match truth_of(vals[0]) {
            Ok(holds) => if holds {
                vals[1]
            } else {
                vals[2]
            },
            Err(e) => ValueView::Error(e),
        }
    }
}

/// `AND`: whether the first two arguments are both true. The second is
/// looked at only where the first is true.
pub open spec fn and_spec(vals: Seq<ValueView>) -> ValueView {
    if vals.len() < 2 {
        ValueView::Error(ExcelError::Value)
    } else {
        match truth_of(vals[0]) {
            Ok(a) => if !a {
                ValueView::Bool(false)
            } else {
                match truth_of(vals[1]) {
                    Ok(b) => ValueView::Bool(b),
                    Err(e) => ValueView::Error(e),
                }
            },
            Err(e) => ValueView::Error(e),
        }
    }
}

/// `OR`: whether one of the first two arguments is true. The second is
/// looked at only where the first is false.
pub open spec fn or_spec(vals: Seq<ValueView>) -> ValueView {
    if vals.len() < 2 {
        ValueView::Error(ExcelError::Value)
    } else {
        match truth_of(vals[0]) {
            Ok(a) => if a {
                ValueView::Bool(true)
            } else {
                match truth_of(vals[1]) {
                    Ok(b) => ValueView::Bool(b),
                    Err(e) => ValueView::Error(e),
                }
            },
            Err(e) => ValueView::Error(e),
        }
    }
}

/// `CONCAT`: the text of the first argument followed by that of the
/// second.
pub open spec fn concat_two_spec(vals: Seq<ValueView>) -> ValueView {
    if vals.len() < 2 {
        ValueView::Error(ExcelError::Value)
    } else {
        concat_spec(vals[0], vals[1])
    }
}

/// Index of the first place at or behind `from` where `tag` stands in
/// `s`; the length of `s` where it stands nowhere.
pub open spec fn find_tag(s: Seq<u8>, tag: &str, from: int) -> int
    decreases s.len() - from,
{
    if from < 0 || from >= s.len() {
        s.len() as int
    } else if tag_at(s, from, tag) {
        from
    } else {
        find_tag(s, tag, from + 1)
    }
}

/// Whether `tag` stands somewhere in `s`.
pub open spec fn holds_tag(s: Seq<u8>, tag: &str) -> bool {
    find_tag(s, tag, 0) < s.len()
}

/// The text without its double quotes.
pub open spec fn unquoted(s: Seq<u8>) -> Seq<u8>
    decreases s.len(),
{
    if s.len() == 0 {
        Seq::empty()
    } else if s.last() == 0x22 {
        unquoted(s.drop_last())
    } else {
        unquoted(s.drop_last()).push(s.last())
    }
}

/// The comparison that a criterion asks for: the first of `<>`, `<=`,
/// `<`, `>=`, `>` and `=` that stands somewhere in it.
pub open spec fn criteria_sign(c: Seq<u8>) -> Option<&'static str> {
    if holds_tag(c, "<>") {
        Some("<>")
    } else if holds_tag(c, "<=") {
        Some("<=")
    } else if holds_tag(c, "<") {
        Some("<")
    } else if holds_tag(c, ">=") {
        Some(">=")
    } else if holds_tag(c, ">") {
        Some(">")
    } else if holds_tag(c, "=") {
        Some("=")
    } else {
        None
    }
}

/// What a criterion is compared with: the text between its comparison
/// and the next place where that comparison stands, or the criterion
/// itself where it asks for none; without double quotes.
pub open spec fn criteria_operand(c: Seq<u8>) -> Seq<u8> {
    match criteria_sign(c) {
        Some(sign) => {
            let start = find_tag(c, sign, 0) + sign.spec_bytes().len();
            if start <= c.len() {
                unquoted(c.subrange(start, find_tag(c, sign, start)))
            } else {
                Seq::empty()
            }
        },
        None => unquoted(c),
    }
}

/// The formula that decides whether a cell of the text `cell` meets the
/// criterion `c`: the operand of the criterion and the text of the cell,
/// both in double quotes, with the comparison of the criterion between
/// them, or `=` where it asks for none.
pub open spec fn criteria_formula(c: Seq<u8>, cell: Seq<u8>) -> Seq<u8> {
    let sign = match criteria_sign(c) {
        Some(sign) => sign.spec_bytes(),
        None => "=".spec_bytes(),
    };
    seq![0x22u8] + criteria_operand(c) + seq![0x22u8] + sign + seq![0x22u8] + unquoted(cell)
        + seq![0x22u8]
}

proof fn lemma_find_tag_bounds(s: Seq<u8>, tag: &str, from: int)
    requires
        0 <= from <= s.len(),
    ensures
        from <= find_tag(s, tag, from) <= s.len(),
    decreases s.len() - from,
{
    if from < s.len() && !tag_at(s, from, tag) {
        lemma_find_tag_bounds(s, tag, from + 1);
    }
}

/// Index of the first place at or behind `from` where `tag` stands.
fn find(s: &[u8], tag: &str, from: usize) -> (r: usize)
    requires
        from <= s.len(),
    ensures
        r == find_tag(s@, tag, from as int),
        from <= r <= s.len(),
{
    let mut i: usize = from;
    while i < s.len()
        invariant
            from <= i <= s.len(),
            find_tag(s@, tag, from as int) == find_tag(s@, tag, i as int),
        decreases s.len() - i,
    {
        if has_tag(s, i, tag) {
            return i;
        }
        i = i + 1;
    }
    s.len()
}

/// Appends the bytes from `from` to `to` that are no double quotes.
fn append_unquoted(out: &mut Vec<u8>, s: &[u8], from: usize, to: usize)
    requires
        from <= to <= s.len(),
    ensures
        final(out)@ == old(out)@ + unquoted(s@.subrange(from as int, to as int)),
{
    let ghost start = out@;
    let mut i: usize = from;
    proof {
        assert(s@.subrange(from as int, from as int) =~= Seq::<u8>::empty());
        assert(start + unquoted(s@.subrange(from as int, from as int)) =~= start);
    }
    while i < to
        invariant
            from <= i <= to <= s.len(),
            out@ == start + unquoted(s@.subrange(from as int, i as int)),
        decreases to - i,
    {
        let ghost part = s@.subrange(from as int, i as int);
        let ghost more = s@.subrange(from as int, i + 1);
        proof {
            assert(more.drop_last() =~= part);
            assert(more.last() == s@[i as int]);
        }
        if s[i] != 0x22 {
            out.push(s[i]);
            proof {
                assert(start + unquoted(part).push(s@[i as int]) =~= (start + unquoted(part)).push(
                    s@[i as int],
                ));
            }
        }
        i = i + 1;
    }
}

fn sign_of(c: &[u8]) -> (r: Option<&'static str>)
    ensures
        r == criteria_sign(c@),
{
    if find(c, "<>", 0) < c.len() {
        Some("<>")
    } else if find(c, "<=", 0) < c.len() {
        Some("<=")
    } else if find(c, "<", 0) < c.len() {
        Some("<")
    } else if find(c, ">=", 0) < c.len() {
        Some(">=")
    } else if find(c, ">", 0) < c.len() {
        Some(">")
    } else if find(c, "=", 0) < c.len() {
        Some("=")
    } else {
        None
    }
}

/// The formula that decides whether a cell of the text `cell` meets the
/// criterion `c`.
pub fn criteria_text(c: &[u8], cell: &[u8]) -> (r: Vec<u8>)
    ensures
        r@ == criteria_formula(c@, cell@),
{
    let mut out: Vec<u8> = Vec::new();
    out.push(0x22);
    let sign: &'static str = match sign_of(c) {
        Some(sign) => {
            let at = find(c, sign, 0);
            let width = sign.as_bytes().len();
            if width <= c.len() - at {
                let start = at + width;
                let end = find(c, sign, start);
                append_unquoted(&mut out, c, start, end);
            } else {
                assert(out@ =~= seq![0x22u8] + Seq::<u8>::empty());
            }
            sign
        },
        None => {
            append_unquoted(&mut out, c, 0, c.len());
            assert(c@.subrange(0, c@.len() as int) =~= c@);
            "="
        },
    };
    assert(out@ == seq![0x22u8] + criteria_operand(c@));
    out.push(0x22);
    append_bytes(&mut out, sign.as_bytes());
    out.push(0x22);
    let ghost before = out@;
    append_unquoted(&mut out, cell, 0, cell.len());
    assert(cell@.subrange(0, cell@.len() as int) =~= cell@);
    out.push(0x22);
    assert(out@ =~= criteria_formula(c@, cell@));
    out
}

proof fn lemma_views_push(items: Seq<Value>, x: Value)
    ensures
        value_views(items.push(x)) == value_views(items).push(x@),
{
    assert(value_views(items.push(x)) =~= value_views(items).push(x@));
}

proof fn lemma_views_take(items: Seq<Value>, i: int)
    requires
        0 <= i < items.len(),
    ensures
        value_views(items).take(i + 1).drop_last() == value_views(items).take(i),
        value_views(items).take(i + 1).last() == items[i]@,
        value_views(items).take(items.len() as int) == value_views(items),
        value_views(items).take(0) == Seq::<ValueView>::empty(),
{
    assert(value_views(items).take(i + 1).drop_last() =~= value_views(items).take(i));
    assert(value_views(items).take(items.len() as int) =~= value_views(items));
    assert(value_views(items).take(0) =~= Seq::<ValueView>::empty());
}

fn is_counted(keep: Keep, v: &Value) -> (r: bool)
    ensures
        r == counts(keep, v@),
{
    match keep {
        Keep::Numbers => v.is_num(),
        Keep::Filled => !v.is_empty(),
    }
}

/// Appends the items that count to `out`.
fn keep_items(items: &Vec<Value>, keep: Keep, out: &mut Vec<Value>)
    ensures
        value_views(final(out)@) == value_views(old(out)@) + kept(value_views(items@), keep),
{
    let ghost views = value_views(items@);
    let ghost start = value_views(out@);
    let mut i: usize = 0;
    proof {
        assert(views.take(0) =~= Seq::<ValueView>::empty());
        assert(start + kept(views.take(0), keep) =~= start);
    }
    while i < items.len()
        invariant
            i <= items.len(),
            views == value_views(items@),
            value_views(out@) == start + kept(views.take(i as int), keep),
        decreases items.len() - i,
    {
        proof {
            lemma_views_take(items@, i as int);
        }
        let ghost before = out@;
        if is_counted(keep, &items[i]) {
            out.push(items[i].duplicate());
            proof {
                lemma_views_push(before, out@.last());
                assert(start + kept(views.take(i as int), keep).push(items@[i as int]@) =~= (start
                    + kept(views.take(i as int), keep)).push(items@[i as int]@));
            }
        }
        i = i + 1;
    }
    proof {
        if items.len() > 0 {
            lemma_views_take(items@, 0);
        } else {
            assert(views.take(0) =~= views);
        }
    }
}

/// What the arguments stand for, one after the other: an array for those
/// of its items that count, a rectangle likewise where `deep`, anything
/// else for itself.
pub fn spread_values(vals: &Vec<Value>, deep: bool, keep: Keep) -> (r: Vec<Value>)
    ensures
        value_views(r@) == spread(value_views(vals@), deep, keep),
{
    let ghost views = value_views(vals@);
    let mut out: Vec<Value> = Vec::new();
    let mut i: usize = 0;
    proof {
        assert(views.take(0) =~= Seq::<ValueView>::empty());
        assert(value_views(out@) =~= Seq::<ValueView>::empty());
    }
    while i < vals.len()
        invariant
            i <= vals.len(),
            views == value_views(vals@),
            value_views(out@) == spread(views.take(i as int), deep, keep),
        decreases vals.len() - i,
    {
        proof {
            lemma_views_take(vals@, i as int);
        }
        let ghost before = out@;
        match &vals[i] {
            Value::Array(items) => {
                proof {
                    lemma_view_of_array(*items);
                }
                keep_items(items, keep, &mut out);
            },
            Value::Array2(grid) => {
                proof {
                    lemma_view_of_array2(*grid);
                }
                if deep {
                    keep_items(&grid.cells, keep, &mut out);
                } else {
                    out.push(vals[i].duplicate());
                    proof {
                        lemma_views_push(before, out@.last());
                        assert(value_views(before).push(vals@[i as int]@) =~= value_views(before)
                            + seq![vals@[i as int]@]);
                    }
                }
            },
            _ => {
                out.push(vals[i].duplicate());
                proof {
                    lemma_views_push(before, out@.last());
                    assert(value_views(before).push(vals@[i as int]@) =~= value_views(before)
                        + seq![vals@[i as int]@]);
                }
            },
        }
        i = i + 1;
    }
    proof {
        if vals.len() > 0 {
            lemma_views_take(vals@, 0);
        } else {
            assert(views.take(0) =~= views);
        }
    }
    out
}

/// The larger or the smaller of two values.
fn pick_value(a: Value, b: Value, larger: bool) -> (r: Value)
    ensures
        r@ == pick(a@, b@, larger),
{
    let first: bool = match a.compare(&b) {
        Some(Order::Greater) => larger,
        _ => !larger,
    };
    if first {
        a
    } else {
        b
    }
}

/// `MAX` where `larger`, else `MIN`.
pub fn extreme(vals: &Vec<Value>, larger: bool) -> (r: Value)
    ensures
        r@ == extreme_spec(value_views(vals@), larger),
{
    if vals.len() == 0 {
        return Value::Error(ExcelError::Value);
    }
    let items = spread_values(vals, true, Keep::Numbers);
    let ghost views = value_views(items@);
    let mut output = vals[0].duplicate();
    let mut i: usize = 0;
    proof {
        assert(views.take(0) =~= Seq::<ValueView>::empty());
    }
    while i < items.len()
        invariant
            i <= items.len(),
            views == value_views(items@),
            output@ == best(views.take(i as int), vals@[0]@, larger),
        decreases items.len() - i,
    {
        proof {
            lemma_views_take(items@, i as int);
        }
        output = pick_value(output, items[i].duplicate(), larger);
        i = i + 1;
    }
    proof {
        if items.len() > 0 {
            lemma_views_take(items@, 0);
        } else {
            assert(views.take(0) =~= views);
        }
    }
    output
}

/// `MAX`.
pub fn max(vals: &Vec<Value>) -> (r: Value)
    ensures
        r@ == extreme_spec(value_views(vals@), true),
{
    extreme(vals, true)
}

/// `MIN`.
pub fn min(vals: &Vec<Value>) -> (r: Value)
    ensures
        r@ == extreme_spec(value_views(vals@), false),
{
    extreme(vals, false)
}

/// `IF`.
pub fn iffunc(vals: &Vec<Value>) -> (r: Value)
    ensures
        r@ == if_spec(value_views(vals@)),
{
    if vals.len() < 3 {
        return Value::Error(ExcelError::Value);
    }
    match vals[0].as_bool() {
        Ok(holds) => if holds {
            vals[1].duplicate()
        } else {
            vals[2].duplicate()
        },
        Err(e) => Value::Error(e),
    }
}

/// `AND`.
pub fn andfunc(vals: &Vec<Value>) -> (r: Value)
    ensures
        r@ == and_spec(value_views(vals@)),
{
    if vals.len() < 2 {
        return Value::Error(ExcelError::Value);
    }
    match vals[0].as_bool() {
        Ok(a) => if !a {
            Value::Bool(false)
        } else {
            match vals[1].as_bool() {
                Ok(b) => Value::Bool(b),
                Err(e) => Value::Error(e),
            }
        },
        Err(e) => Value::Error(e),
    }
}

/// `OR`.
pub fn orfunc(vals: &Vec<Value>) -> (r: Value)
    ensures
        r@ == or_spec(value_views(vals@)),
{
    if vals.len() < 2 {
        return Value::Error(ExcelError::Value);
    }
    match vals[0].as_bool() {
        Ok(a) => if a {
            Value::Bool(true)
        } else {
            match vals[1].as_bool() {
                Ok(b) => Value::Bool(b),
                Err(e) => Value::Error(e),
            }
        },
        Err(e) => Value::Error(e),
    }
}

/// `CONCAT`.
pub fn concat_two(vals: &Vec<Value>) -> (r: Value)
    ensures
        r@ == concat_two_spec(value_views(vals@)),
{
    if vals.len() < 2 {
        return Value::Error(ExcelError::Value);
    }
    concat(&vals[0], &vals[1])
}

impl<FN, FA, FT, FL> Kernel<FN, FA, FT, FL> where
    FN: Fn(&Number) -> Option<Double>,
    FA: Fn(Infix, Double, Double) -> Double,
    FT: Fn(Double) -> i64,
    FL: Fn(&Vec<u8>, Vec<Value>) -> Option<Value>,
 {
    /// The sum of the items, each taken as a number, from zero on; the
    /// error of the first item that is no number.
    pub open spec fn total(&self, items: Seq<ValueView>) -> Result<Double, ExcelError>
        decreases items.len(),
    {
        if items.len() == 0 {
            Ok(Double { bits: ZERO_BITS })
        } else {
            match self.total(items.drop_last()) {
                Err(e) => Err(e),
                Ok(sum) => match self.num_of(items.last()) {
                    Ok(n) => Ok(arith_model(self.arith, Infix::Plus, sum, n)),
                    Err(e) => Err(e),
                },
            }
        }
    }

    /// A count as a value; `Num` where it is beyond the whole numbers
    /// that are held.
    pub open spec fn count_value(&self, n: nat) -> ValueView {
        if n <= i64::MAX {
            self.number_value(n as i64)
        } else {
            ValueView::Error(ExcelError::Num)
        }
    }

    /// `SUM`: the sum of the arguments, arrays and rectangles counted by
    /// their numbers, anything else taken as a number.
    pub open spec fn sum_spec(&self, vals: Seq<ValueView>) -> ValueView {
        match self.total(spread(vals, true, Keep::Numbers)) {
            Ok(sum) => ValueView::Num(sum),
            Err(e) => ValueView::Error(e),
        }
    }

    /// `AVERAGE`: the sum of the arguments, arrays counted by their
    /// numbers, anything else taken as a number, divided by how many they
    /// are.
    pub open spec fn average_spec(&self, vals: Seq<ValueView>) -> ValueView {
        let items = spread(vals, false, Keep::Numbers);
        match self.total(items) {
            Ok(sum) => match self.count_value(items.len()) {
                ValueView::Num(n) => ValueView::Num(
                    arith_model(self.arith, Infix::Divide, sum, n),
                ),
                other => other,
            },
            Err(e) => ValueView::Error(e),
        }
    }

    /// `COUNT`: how many the arguments are, arrays counted by their
    /// numbers.
    pub open spec fn count_spec(&self, vals: Seq<ValueView>) -> ValueView {
        self.count_value(spread(vals, false, Keep::Numbers).len())
    }

    /// `COUNTA`: how many the arguments are, arrays and rectangles
    /// counted by their items that are not empty.
    pub open spec fn counta_spec(&self, vals: Seq<ValueView>) -> ValueView {
        self.count_value(spread(vals, true, Keep::Filled).len())
    }

    /// `EXPONENT`: the first argument to the power of the second.
    pub open spec fn exponent_spec(&self, vals: Seq<ValueView>) -> ValueView {
        if vals.len() < 2 {
            ValueView::Error(ExcelError::Value)
        } else {
            self.arith_spec(Infix::Exponent, vals[0], vals[1])
        }
    }

    /// Whether a cell meets a criterion: what the formula of the
    /// criterion and the text of the cell evaluates to, as a truth value.
    /// `Value` where the cell holds no text or the formula does not
    /// parse.
    #[verifier::opaque]
    pub open spec fn criteria_spec(&self, c: Seq<u8>, cell: ValueView) -> Result<
        bool,
        ExcelError,
    > {
        match text_of(single_of(cell)) {
            Err(e) => Err(e),
            Ok(text) => match parse_text_spec(criteria_formula(c, text)) {
                None => Err(ExcelError::Value),
                Some(e) => match self.eval_spec(None, e) {
                    Ok(v) => truth_of(v),
                    Err(_) => Err(ExcelError::Value),
                },
            },
        }
    }

    /// What the function called `name` gives for the arguments, where it
    /// is one that the evaluator knows by itself.
    pub open spec fn builtin_spec(&self, name: Seq<u8>, vals: Seq<ValueView>) -> Option<
        ValueView,
    > {
        if name == "SUM".spec_bytes() {
            Some(self.sum_spec(vals))
        } else if name == "AVERAGE".spec_bytes() {
            Some(self.average_spec(vals))
        } else if name == "COUNT".spec_bytes() {
            Some(self.count_spec(vals))
        } else if name == "COUNTA".spec_bytes() {
            Some(self.counta_spec(vals))
        } else if name == "EXPONENT".spec_bytes() {
            Some(self.exponent_spec(vals))
        } else if name == "MAX".spec_bytes() {
            Some(extreme_spec(vals, true))
        } else if name == "MIN".spec_bytes() {
            Some(extreme_spec(vals, false))
        } else if name == "IF".spec_bytes() {
            Some(if_spec(vals))
        } else if name == "AND".spec_bytes() {
            Some(and_spec(vals))
        } else if name == "OR".spec_bytes() {
            Some(or_spec(vals))
        } else if name == "CONCAT".spec_bytes() {
            Some(concat_two_spec(vals))
        } else if name == "MATCH".spec_bytes() {
            Some(self.match_spec(vals))
        } else if name == "INDEX".spec_bytes() {
            Some(self.index_spec(vals))
        } else if name == "DATE".spec_bytes() {
            Some(self.date_spec(vals))
        } else if name == "DATEDIF".spec_bytes() {
            Some(self.datedif_spec(vals))
        } else if name == "EOMONTH".spec_bytes() {
            Some(self.eomonth_spec(vals))
        } else if name == "YEARFRAC".spec_bytes() {
            Some(self.yearfrac_spec(vals))
        } else if name == "SEARCH".spec_bytes() {
            Some(self.search_spec(vals))
        } else if name == "YEAR".spec_bytes() {
            Some(self.year_spec(vals))
        } else if name == "MONTH".spec_bytes() {
            Some(self.month_spec(vals))
        } else {
            None
        }
    }

    /// Whether a cell meets a criterion: a comparison (`<>`, `<=`, `<`,
    /// `>=`, `>` or `=`) before what the cell is compared with, or just
    /// that, which asks for equality. The text of the cell and of the
    /// criterion are compared as texts.
    pub fn parse_criteria(&self, c: &[u8], cell: &Value) -> (r: Result<bool, ExcelError>)
        requires
            self.ok(),
        ensures
            r == self.criteria_spec(c@, cell@),
    {
        reveal(Kernel::criteria_spec);
        let text = match cell.ensure_single().as_text() {
            Ok(text) => text,
            Err(e) => {
                return Err(e);
            },
        };
        let formula = criteria_text(c, text.as_slice());
        match parse_bytes(formula.as_slice()) {
            Ok(expression) => self.evaluate_expr(&expression).as_bool(),
            Err(_) => Err(ExcelError::Value),
        }
    }

    /// The sum of the items, each taken as a number.
    pub fn add_all(&self, items: &Vec<Value>) -> (r: Result<Double, ExcelError>)
        requires
            self.ok(),
        ensures
            r == self.total(value_views(items@)),
    {
        let ghost views = value_views(items@);
        let mut sum = Double { bits: ZERO_BITS };
        let mut i: usize = 0;
        proof {
            assert(views.take(0) =~= Seq::<ValueView>::empty());
        }
        while i < items.len()
            invariant
                i <= items.len(),
                self.ok(),
                views == value_views(items@),
                self.total(views.take(i as int)) == Ok::<Double, ExcelError>(sum),
            decreases items.len() - i,
        {
            proof {
                lemma_views_take(items@, i as int);
            }
            match self.as_num(&items[i]) {
                Ok(n) => {
                    sum = self.compute(Infix::Plus, sum, n);
                },
                Err(e) => {
                    proof {
                        self.lemma_total_stays(views, i as int + 1);
                    }
                    return Err(e);
                },
            }
            i = i + 1;
        }
        proof {
            if items.len() > 0 {
                lemma_views_take(items@, 0);
            } else {
                assert(views.take(0) =~= views);
            }
        }
        Ok(sum)
    }

    /// A sum that has failed on the items so far fails on them all, with
    /// the same error.
    proof fn lemma_total_stays(&self, items: Seq<ValueView>, k: int)
        requires
            0 <= k <= items.len(),
            self.total(items.take(k)) is Err,
        ensures
            self.total(items) == self.total(items.take(k)),
        decreases items.len() - k,
    {
        if k < items.len() {
            assert(items.take(k + 1).drop_last() =~= items.take(k));
            self.lemma_total_stays(items, k + 1);
        } else {
            assert(items.take(k) =~= items);
        }
    }

    /// A count as a value.
    pub fn count_of(&self, n: usize) -> (r: Value)
        requires
            self.ok(),
        ensures
            r@ == self.count_value(n as nat),
    {
        let wide: u64 = n as u64;
        if wide > 0x7FFF_FFFF_FFFF_FFFFu64 {
            return Value::Error(ExcelError::Num);
        }
        let whole: i64 = wide as i64;
        match self.to_number(&Number::Integer(whole)) {
            Some(d) => Value::Num(d),
            None => Value::Error(ExcelError::Value),
        }
    }

    /// `SUM`.
    pub fn sum(&self, vals: &Vec<Value>) -> (r: Value)
        requires
            self.ok(),
        ensures
            r@ == self.sum_spec(value_views(vals@)),
    {
        let items = spread_values(vals, true, Keep::Numbers);
        match self.add_all(&items) {
            Ok(sum) => Value::Num(sum),
            Err(e) => Value::Error(e),
        }
    }

    /// `AVERAGE`.
    pub fn average(&self, vals: &Vec<Value>) -> (r: Value)
        requires
            self.ok(),
        ensures
            r@ == self.average_spec(value_views(vals@)),
    {
        let items = spread_values(vals, false, Keep::Numbers);
        assert(items@.len() == value_views(items@).len());
        match self.add_all(&items) {
            Ok(sum) => match self.count_of(items.len()) {
                Value::Num(n) => Value::Num(self.compute(Infix::Divide, sum, n)),
                other => other,
            },
            Err(e) => Value::Error(e),
        }
    }

    /// `COUNT`.
    pub fn count(&self, vals: &Vec<Value>) -> (r: Value)
        requires
            self.ok(),
        ensures
            r@ == self.count_spec(value_views(vals@)),
    {
        let items = spread_values(vals, false, Keep::Numbers);
        assert(items@.len() == value_views(items@).len());
        self.count_of(items.len())
    }

    /// `COUNTA`.
    pub fn counta(&self, vals: &Vec<Value>) -> (r: Value)
        requires
            self.ok(),
        ensures
            r@ == self.counta_spec(value_views(vals@)),
    {
        let items = spread_values(vals, true, Keep::Filled);
        assert(items@.len() == value_views(items@).len());
        self.count_of(items.len())
    }

    /// `EXPONENT`.
    pub fn exponent(&self, vals: &Vec<Value>) -> (r: Value)
        requires
            self.ok(),
        ensures
            r@ == self.exponent_spec(value_views(vals@)),
    {
        if vals.len() < 2 {
            return Value::Error(ExcelError::Value);
        }
        self.arithmetic(Infix::Exponent, &vals[0], &vals[1])
    }

    /// The value of a call of one of the functions that the evaluator
    /// knows by itself; `None` for any other name.
    pub fn builtin(&self, name: &Vec<u8>, vals: &Vec<Value>) -> (r: Option<Value>)
        requires
            self.ok(),
        ensures
            option_value_view(r) == self.builtin_spec(name@, value_views(vals@)),
    {
        let n = name.as_slice();
        if bytes_eq(n, "SUM".as_bytes()) {
            Some(self.sum(vals))
        } else if bytes_eq(n, "AVERAGE".as_bytes()) {
            Some(self.average(vals))
        } else if bytes_eq(n, "COUNT".as_bytes()) {
            Some(self.count(vals))
        } else if bytes_eq(n, "COUNTA".as_bytes()) {
            Some(self.counta(vals))
        } else if bytes_eq(n, "EXPONENT".as_bytes()) {
            Some(self.exponent(vals))
        } else if bytes_eq(n, "MAX".as_bytes()) {
            Some(max(vals))
        } else if bytes_eq(n, "MIN".as_bytes()) {
            Some(min(vals))
        } else if bytes_eq(n, "IF".as_bytes()) {
            Some(iffunc(vals))
        } else if bytes_eq(n, "AND".as_bytes()) {
            Some(andfunc(vals))
        } else if bytes_eq(n, "OR".as_bytes()) {
            Some(orfunc(vals))
        } else if bytes_eq(n, "CONCAT".as_bytes()) {
            Some(concat_two(vals))
        } else if bytes_eq(n, "MATCH".as_bytes()) {
            Some(self.matchfn(vals))
        } else if bytes_eq(n, "INDEX".as_bytes()) {
            Some(self.index(vals))
        } else if bytes_eq(n, "DATE".as_bytes()) {
            Some(self.date(vals))
        } else if bytes_eq(n, "DATEDIF".as_bytes()) {
            Some(self.datedif(vals))
        } else if bytes_eq(n, "EOMONTH".as_bytes()) {
            Some(self.eomonth(vals))
        } else if bytes_eq(n, "YEARFRAC".as_bytes()) {
            Some(self.yearfrac(vals))
        } else if bytes_eq(n, "SEARCH".as_bytes()) {
            Some(self.search(vals))
        } else if bytes_eq(n, "YEAR".as_bytes()) {
            Some(self.year(vals))
        } else if bytes_eq(n, "MONTH".as_bytes()) {
            Some(self.month(vals))
        } else {
            None
        }
    }
}

} // verus!
