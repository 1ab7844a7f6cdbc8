//! Choosing items by criteria: which items of a range meet a criterion,
//! which places are kept by pairs of a range and a criterion, and the
//! functions `COUNTIF`, `SUMIF`, `AVERAGEIF`, `COUNTIFS`, `SUMIFS` and
//! `AVERAGEIFS` over the places that are kept.
//!
//! A criterion is a text that is evaluated as a formula, so these
//! functions call the evaluator; the evaluator does not call them by
//! itself.
use crate::evaluate::kernel::{arith_model, Kernel};
use crate::evaluate::value::{single_of, text_of, value_views, Double, Value, ValueView};
use crate::lookup::{items_of, value_items};
use crate::parser::ast::{Error, Infix, Number};
use vstd::prelude::*;

verus! {

/// How many of the flags are set.
pub open spec fn count_set(flags: Seq<bool>) -> nat
    decreases flags.len(),
{
    if flags.len() == 0 {
        0
    } else {
        count_set(flags.drop_last()) + if flags.last() {
            1nat
        } else {
            0nat
        }
    }
}

/// The items at the places whose flag is set, in their order.
pub open spec fn chosen(items: Seq<ValueView>, flags: Seq<bool>) -> Seq<ValueView>
    decreases items.len(),
{
    if items.len() == 0 {
        Seq::empty()
    } else if items.len() <= flags.len() && flags[items.len() - 1] {
        chosen(items.drop_last(), flags).push(items.last())
    } else {
        chosen(items.drop_last(), flags)
    }
}

/// The flags after one more pair: a place stays kept unless the pair has
/// an item there that does not meet its criterion.
pub open spec fn narrowed(kept: Seq<bool>, met: Seq<bool>) -> Seq<bool> {
    Seq::new(kept.len(), |y: int| kept[y] && (y >= met.len() || met[y]))
}

/// The flags of `AVERAGEIFS` after one more pair: a place is kept where
/// it was kept or where the pair has an item that meets its criterion.
pub open spec fn widened(kept: Seq<bool>, met: Seq<bool>) -> Seq<bool> {
    Seq::new(
        if kept.len() >= met.len() {
            kept.len()
        } else {
            met.len()
        },
        |y: int| (y < kept.len() && kept[y]) || (y < met.len() && met[y]),
    )
}

fn widen(kept: &Vec<bool>, met: &Vec<bool>) -> (r: Vec<bool>)
    ensures
        r@ == widened(kept@, met@),
{
    let length: usize = if kept.len() >= met.len() {
        kept.len()
    } else {
        met.len()
    };
    let mut out: Vec<bool> = Vec::new();
    let mut y: usize = 0;
    while y < length
        invariant
            y <= length,
            length == widened(kept@, met@).len(),
            out@.len() == y,
            forall|k: int| 0 <= k < y ==> out@[k] == widened(kept@, met@)[k],
        decreases length - y,
    {
        let stays: bool = (y < kept.len() && kept[y]) || (y < met.len() && met[y]);
        out.push(stays);
        y = y + 1;
    }
    assert(out@ =~= widened(kept@, met@));
    out
}

/// How many of the flags are set.
pub fn count_flags(flags: &Vec<bool>) -> (r: usize)
    ensures
        r == count_set(flags@),
{
    let mut count: usize = 0;
    let mut i: usize = 0;
    while i < flags.len()
        invariant
            i <= flags.len(),
            count <= i,
            count == count_set(flags@.take(i as int)),
        decreases flags.len() - i,
    {
        proof {
            assert(flags@.take(i + 1).drop_last() =~= flags@.take(i as int));
        }
        if flags[i] {
            count = count + 1;
        }
        i = i + 1;
    }
    proof {
        assert(flags@.take(flags.len() as int) =~= flags@);
    }
    count
}

/// The items at the places whose flag is set.
pub fn choose_items(items: &Vec<Value>, flags: &Vec<bool>) -> (r: Vec<Value>)
    ensures
        value_views(r@) == chosen(value_views(items@), flags@),
{
    let ghost all = value_views(items@);
    let mut out: Vec<Value> = Vec::new();
    let mut i: usize = 0;
    proof {
        assert(value_views(out@) =~= chosen(all.take(0), flags@));
    }
    while i < items.len()
        invariant
            i <= items.len(),
            all == value_views(items@),
            value_views(out@) == chosen(all.take(i as int), flags@),
        decreases items.len() - i,
    {
        let ghost before = value_views(out@);
        proof {
            assert(all.take(i + 1).drop_last() =~= all.take(i as int));
            assert(all.take(i + 1).last() == items@[i as int]@);
        }
        if i < flags.len() && flags[i] {
            out.push(items[i].duplicate());
            proof {
                assert(value_views(out@) =~= before.push(items@[i as int]@));
            }
        }
        i = i + 1;
    }
    proof {
        assert(all.take(items.len() as int) =~= all);
    }
    out
}

/// The values behind the first.
fn rest_of(vals: &Vec<Value>) -> (r: Vec<Value>)
    requires
        vals@.len() >= 1,
    ensures
        value_views(r@) == value_views(vals@).subrange(1, vals@.len() as int),
{
    let mut rest: Vec<Value> = Vec::new();
    let mut i: usize = 1;
    while i < vals.len()
        invariant
            1 <= i <= vals.len(),
            rest@.len() == i - 1,
            forall|k: int| 0 <= k < i - 1 ==> rest@[k]@ == vals@[k + 1]@,
        decreases vals.len() - i,
    {
        rest.push(vals[i].duplicate());
        i = i + 1;
    }
    assert(value_views(rest@) =~= value_views(vals@).subrange(1, vals@.len() as int));
    rest
}

fn narrow(kept: &Vec<bool>, met: &Vec<bool>) -> (r: Vec<bool>)
    ensures
        r@ == narrowed(kept@, met@),
{
    let mut out: Vec<bool> = Vec::new();
    let mut y: usize = 0;
    while y < kept.len()
        invariant
            y <= kept.len(),
            out@.len() == y,
            forall|k: int| 0 <= k < y ==> out@[k] == (kept@[k] && (k >= met@.len() || met@[k])),
        decreases kept.len() - y,
    {
        let stays: bool = kept[y] && (y >= met.len() || met[y]);
        out.push(stays);
        y = y + 1;
    }
    assert(out@ =~= narrowed(kept@, met@));
    out
}

impl<FN, FA, FT, FL> Kernel<FN, FA, FT, FL> where
    FN: Fn(&Number) -> Option<Double>,
    FA: Fn(Infix, Double, Double) -> Double,
    FT: Fn(Double) -> i64,
    FL: Fn(&Vec<u8>, Vec<Value>) -> Option<Value>,
 {
    /// For each of the items whether it meets the criterion; the error of
    /// the first item for which that cannot be said.
    pub open spec fn verdicts_spec(&self, c: Seq<u8>, items: Seq<ValueView>) -> Result<
        Seq<bool>,
        Error,
    >
        decreases items.len(),
    {
        if items.len() == 0 {
            Ok(Seq::empty())
        } else {
            match self.verdicts_spec(c, items.drop_last()) {
                Err(e) => Err(e),
                Ok(front) => match self.criteria_spec(c, items.last()) {
                    Ok(met) => Ok(front.push(met)),
                    Err(e) => Err(e),
                },
            }
        }
    }

    /// The places that pairs of a range and a criterion keep. The first
    /// pair keeps the places of its range whose items meet its criterion;
    /// each later pair drops the places where it has an item that does
    /// not meet its criterion. The pairs are taken in turn: a range
    /// without a criterion gives `Value`, a criterion that is no text its
    /// error, an item of which the criterion cannot be said its error.
    pub open spec fn pairs_spec(&self, args: Seq<ValueView>) -> Result<Seq<bool>, Error>
        decreases args.len(),
    {
        if args.len() == 0 {
            Ok(Seq::empty())
        } else if args.len() % 2 == 1 {
            match self.pairs_spec(args.take(args.len() - 1)) {
                Err(e) => Err(e),
                Ok(_) => Err(Error::Value),
            }
        } else {
            match self.pairs_spec(args.take(args.len() - 2)) {
                Err(e) => Err(e),
                Ok(kept) => match self.one_spec(args[args.len() - 2], args[args.len() - 1]) {
                    Err(e) => Err(e),
                    Ok(met) => if args.len() == 2 {
                        Ok(met)
                    } else {
                        Ok(narrowed(kept, met))
                    },
                },
            }
        }
    }

    /// The places of a range whose items meet a criterion; the error of
    /// a criterion that is no text, or of the first item of which the
    /// criterion cannot be said.
    #[verifier::opaque]
    pub open spec fn one_spec(&self, range: ValueView, criterion: ValueView) -> Result<
        Seq<bool>,
        Error,
    > {
        match text_of(single_of(criterion)) {
            Err(e) => Err(e),
            Ok(c) => self.verdicts_spec(c, items_of(range)),
        }
    }

    /// The places that pairs of a range and a criterion keep for
    /// `AVERAGEIFS`: those where one of the pairs has an item that meets
    /// its criterion. The pairs are taken in turn: a range without a
    /// criterion gives `Value`, and a pair its error.
    pub open spec fn any_spec(&self, args: Seq<ValueView>) -> Result<Seq<bool>, Error>
        decreases args.len(),
    {
        if args.len() == 0 {
            Ok(Seq::empty())
        } else if args.len() % 2 == 1 {
            match self.any_spec(args.take(args.len() - 1)) {
                Err(e) => Err(e),
                Ok(_) => Err(Error::Value),
            }
        } else {
            match self.any_spec(args.take(args.len() - 2)) {
                Err(e) => Err(e),
                Ok(kept) => match self.one_spec(args[args.len() - 2], args[args.len() - 1]) {
                    Err(e) => Err(e),
                    Ok(met) => Ok(widened(kept, met)),
                },
            }
        }
    }

    /// The sum of the items divided by how many they are; the error of
    /// the first item that is no number.
    pub open spec fn mean_spec(&self, items: Seq<ValueView>) -> ValueView {
        match self.total(items) {
            Err(e) => ValueView::Error(e),
            Ok(sum) => match self.count_value(items.len()) {
                ValueView::Num(n) => ValueView::Num(arith_model(self.arith, Infix::Divide, sum, n)),
                other => other,
            },
        }
    }

    /// `COUNTIF(range, criterion)`: how many items of the range meet the
    /// criterion. `Value` for fewer than two arguments.
    pub open spec fn countif_spec(&self, vals: Seq<ValueView>) -> ValueView {
        if vals.len() < 2 {
            ValueView::Error(Error::Value)
        } else {
            match self.one_spec(vals[0], vals[1]) {
                Ok(kept) => self.count_value(count_set(kept)),
                Err(e) => ValueView::Error(e),
            }
        }
    }

    /// The items that `SUMIF` and `AVERAGEIF` work on: those of the third
    /// argument, or of the range where there is none, at the places
    /// where the items of the range meet the criterion.
    pub open spec fn picked_spec(&self, vals: Seq<ValueView>) -> Result<Seq<ValueView>, Error> {
        if vals.len() < 2 {
            Err(Error::Value)
        } else {
            match self.one_spec(vals[0], vals[1]) {
                Err(e) => Err(e),
                Ok(kept) => Ok(
                    chosen(
                        items_of(
                            if vals.len() >= 3 {
                                vals[2]
                            } else {
                                vals[0]
                            },
                        ),
                        kept,
                    ),
                ),
            }
        }
    }

    /// `SUMIF(range, criterion, sum_range)`: the sum of the items of
    /// `sum_range`, or of the range where none is given, at the places
    /// where the items of the range meet the criterion.
    pub open spec fn sumif_spec(&self, vals: Seq<ValueView>) -> ValueView {
        match self.picked_spec(vals) {
            Err(e) => ValueView::Error(e),
            Ok(items) => match self.total(items) {
                Ok(sum) => ValueView::Num(sum),
                Err(e) => ValueView::Error(e),
            },
        }
    }

    /// `AVERAGEIF(range, criterion, average_range)`: as `SUMIF`, the sum
    /// divided by the number of items that were added.
    pub open spec fn averageif_spec(&self, vals: Seq<ValueView>) -> ValueView {
        match self.picked_spec(vals) {
            Err(e) => ValueView::Error(e),
            Ok(items) => self.mean_spec(items),
        }
    }

    /// `AVERAGEIFS`: the sum of the items of the first argument at the
    /// places that one of the pairs behind it keeps, divided by their
    /// number. `Value` without arguments.
    pub open spec fn averageifs_spec(&self, vals: Seq<ValueView>) -> ValueView {
        if vals.len() == 0 {
            ValueView::Error(Error::Value)
        } else {
            match self.any_spec(vals.subrange(1, vals.len() as int)) {
                Err(e) => ValueView::Error(e),
                Ok(kept) => self.mean_spec(chosen(items_of(vals[0]), kept)),
            }
        }
    }

    /// `COUNTIFS`: how many places the pairs keep; their error where they
    /// fail.
    pub open spec fn countifs_spec(&self, vals: Seq<ValueView>) -> ValueView {
        match self.pairs_spec(vals) {
            Ok(kept) => self.count_value(count_set(kept)),
            Err(e) => ValueView::Error(e),
        }
    }

    /// `SUMIFS`: the sum of the items of the first argument at the places
    /// that the pairs behind it keep. `Value` without arguments; the
    /// error of the pairs where they fail, or of the first item to be
    /// added that is no number.
    pub open spec fn sumifs_spec(&self, vals: Seq<ValueView>) -> ValueView {
        if vals.len() == 0 {
            ValueView::Error(Error::Value)
        } else {
            match self.pairs_spec(vals.subrange(1, vals.len() as int)) {
                Err(e) => ValueView::Error(e),
                Ok(kept) => match self.total(chosen(items_of(vals[0]), kept)) {
                    Ok(sum) => ValueView::Num(sum),
                    Err(e) => ValueView::Error(e),
                },
            }
        }
    }

    /// A failure on the items so far is the failure on them all.
    proof fn lemma_verdicts_stay(&self, c: Seq<u8>, items: Seq<ValueView>, k: int)
        requires
            0 <= k <= items.len(),
            self.verdicts_spec(c, items.take(k)) is Err,
        ensures
            self.verdicts_spec(c, items) == self.verdicts_spec(c, items.take(k)),
        decreases items.len() - k,
    {
        if k < items.len() {
            assert(items.take(k + 1).drop_last() =~= items.take(k));
            self.lemma_verdicts_stay(c, items, k + 1);
        } else {
            assert(items.take(k) =~= items);
        }
    }

    /// A failure on the pairs so far is the failure on them all.
    proof fn lemma_pairs_stay(&self, args: Seq<ValueView>, k: int)
        requires
            0 <= k <= args.len(),
            k % 2 == 0,
            self.pairs_spec(args.take(k)) is Err,
        ensures
            self.pairs_spec(args) == self.pairs_spec(args.take(k)),
        decreases args.len() - k,
    {
        if k == args.len() {
            assert(args.take(k) =~= args);
        } else if k + 1 == args.len() {
            assert(args.take(args.len() - 1) =~= args.take(k));
        } else {
            assert(args.take(k + 2).take(k) =~= args.take(k));
            self.lemma_pairs_stay(args, k + 2);
        }
    }

    /// A failure on the pairs so far is the failure on them all.
    proof fn lemma_any_stay(&self, args: Seq<ValueView>, k: int)
        requires
            0 <= k <= args.len(),
            k % 2 == 0,
            self.any_spec(args.take(k)) is Err,
        ensures
            self.any_spec(args) == self.any_spec(args.take(k)),
        decreases args.len() - k,
    {
        if k == args.len() {
            assert(args.take(k) =~= args);
        } else if k + 1 == args.len() {
            assert(args.take(args.len() - 1) =~= args.take(k));
        } else {
            assert(args.take(k + 2).take(k) =~= args.take(k));
            self.lemma_any_stay(args, k + 2);
        }
    }

    /// For each of the items whether it meets the criterion.
    pub fn verdicts(&self, c: &[u8], items: &Vec<Value>) -> (r: Result<Vec<bool>, Error>)
        requires
            self.ok(),
        ensures
            match r {
                Ok(met) => self.verdicts_spec(c@, value_views(items@)) == Ok::<Seq<bool>, Error>(
                    met@,
                ),
                Err(e) => self.verdicts_spec(c@, value_views(items@)) == Err::<Seq<bool>, Error>(e),
            },
    {
        let ghost all = value_views(items@);
        let mut out: Vec<bool> = Vec::new();
        let mut i: usize = 0;
        proof {
            assert(all.take(0) =~= Seq::<ValueView>::empty());
        }
        while i < items.len()
            invariant
                i <= items.len(),
                self.ok(),
                all == value_views(items@),
                self.verdicts_spec(c@, all.take(i as int)) == Ok::<Seq<bool>, Error>(out@),
            decreases items.len() - i,
        {
            proof {
                assert(all.take(i + 1).drop_last() =~= all.take(i as int));
                assert(all.take(i + 1).last() == items@[i as int]@);
            }
            match self.parse_criteria(c, &items[i]) {
                Ok(met) => {
                    out.push(met);
                },
                Err(e) => {
                    proof {
                        self.lemma_verdicts_stay(c@, all, i + 1);
                    }
                    return Err(e);
                },
            }
            i = i + 1;
        }
        proof {
            assert(all.take(items.len() as int) =~= all);
        }
        Ok(out)
    }

    /// The places that pairs of a range and a criterion keep.
    pub fn kept_by_pairs(&self, args: &Vec<Value>) -> (r: Result<Vec<bool>, Error>)
        requires
            self.ok(),
        ensures
            match r {
                Ok(kept) => self.pairs_spec(value_views(args@)) == Ok::<Seq<bool>, Error>(kept@),
                Err(e) => self.pairs_spec(value_views(args@)) == Err::<Seq<bool>, Error>(e),
            },
    {
        let ghost all = value_views(args@);
        let mut kept: Vec<bool> = Vec::new();
        let mut i: usize = 0;
        proof {
            assert(all.take(0) =~= Seq::<ValueView>::empty());
        }
        while i < args.len()
            invariant
                i <= args.len(),
                i % 2 == 0,
                self.ok(),
                all == value_views(args@),
                self.pairs_spec(all.take(i as int)) == Ok::<Seq<bool>, Error>(kept@),
            decreases args.len() - i,
        {
            if i + 1 >= args.len() {
                proof {
                    assert(all.take(args.len() - 1) =~= all.take(i as int));
                }
                return Err(Error::Value);
            }
            let ghost next = all.take(i + 2);
            proof {
                assert(next.take(next.len() - 2) =~= all.take(i as int));
                assert(next[next.len() - 1] == args@[i + 1]@);
                assert(next[next.len() - 2] == args@[i as int]@);
            }
            let met = match self.kept_by_one(&args[i], &args[i + 1]) {
                Ok(met) => met,
                Err(e) => {
                    proof {
                        self.lemma_pairs_stay(all, i + 2);
                    }
                    return Err(e);
                },
            };
            if i == 0 {
                kept = met;
            } else {
                kept = narrow(&kept, &met);
            }
            i = i + 2;
        }
        proof {
            assert(all.take(args.len() as int) =~= all);
        }
        Ok(kept)
    }

    /// The places of a range whose items meet a criterion.
    pub fn kept_by_one(&self, range: &Value, criterion: &Value) -> (r: Result<Vec<bool>, Error>)
        requires
            self.ok(),
        ensures
            match r {
                Ok(kept) => self.one_spec(range@, criterion@) == Ok::<Seq<bool>, Error>(kept@),
                Err(e) => self.one_spec(range@, criterion@) == Err::<Seq<bool>, Error>(e),
            },
    {
        reveal(Kernel::one_spec);
        match criterion.ensure_single().as_text() {
            Ok(text) => {
                let items = value_items(range);
                self.verdicts(text.as_slice(), &items)
            },
            Err(e) => Err(e),
        }
    }

    /// The places that one of the pairs of a range and a criterion keeps.
    pub fn kept_by_any(&self, args: &Vec<Value>) -> (r: Result<Vec<bool>, Error>)
        requires
            self.ok(),
        ensures
            match r {
                Ok(kept) => self.any_spec(value_views(args@)) == Ok::<Seq<bool>, Error>(kept@),
                Err(e) => self.any_spec(value_views(args@)) == Err::<Seq<bool>, Error>(e),
            },
    {
        let ghost all = value_views(args@);
        let mut kept: Vec<bool> = Vec::new();
        let mut i: usize = 0;
        proof {
            assert(all.take(0) =~= Seq::<ValueView>::empty());
        }
        while i < args.len()
            invariant
                i <= args.len(),
                i % 2 == 0,
                self.ok(),
                all == value_views(args@),
                self.any_spec(all.take(i as int)) == Ok::<Seq<bool>, Error>(kept@),
            decreases args.len() - i,
        {
            if i + 1 >= args.len() {
                proof {
                    assert(all.take(args.len() - 1) =~= all.take(i as int));
                }
                return Err(Error::Value);
            }
            let ghost next = all.take(i + 2);
            proof {
                assert(next.take(next.len() - 2) =~= all.take(i as int));
                assert(next[next.len() - 1] == args@[i + 1]@);
                assert(next[next.len() - 2] == args@[i as int]@);
            }
            let met = match self.kept_by_one(&args[i], &args[i + 1]) {
                Ok(met) => met,
                Err(e) => {
                    proof {
                        self.lemma_any_stay(all, i + 2);
                    }
                    return Err(e);
                },
            };
            kept = widen(&kept, &met);
            i = i + 2;
        }
        proof {
            assert(all.take(args.len() as int) =~= all);
        }
        Ok(kept)
    }

    /// The sum of the items divided by how many they are.
    pub fn mean(&self, items: &Vec<Value>) -> (r: Value)
        requires
            self.ok(),
        ensures
            r@ == self.mean_spec(value_views(items@)),
    {
        assert(items@.len() == value_views(items@).len());
        match self.add_all(items) {
            Ok(sum) => match self.count_of(items.len()) {
                Value::Num(n) => Value::Num(self.compute(Infix::Divide, sum, n)),
                other => other,
            },
            Err(e) => Value::Error(e),
        }
    }

    /// The items that `SUMIF` and `AVERAGEIF` work on.
    pub fn picked(&self, vals: &Vec<Value>) -> (r: Result<Vec<Value>, Error>)
        requires
            self.ok(),
        ensures
            match r {
                Ok(items) => self.picked_spec(value_views(vals@)) == Ok::<Seq<ValueView>, Error>(
                    value_views(items@),
                ),
                Err(e) => self.picked_spec(value_views(vals@)) == Err::<Seq<ValueView>, Error>(e),
            },
    {
        if vals.len() < 2 {
            return Err(Error::Value);
        }
        match self.kept_by_one(&vals[0], &vals[1]) {
            Err(e) => Err(e),
            Ok(kept) => {
                let items = if vals.len() >= 3 {
                    value_items(&vals[2])
                } else {
                    value_items(&vals[0])
                };
                Ok(choose_items(&items, &kept))
            },
        }
    }

    /// `COUNTIF`.
    pub fn countif(&self, vals: &Vec<Value>) -> (r: Value)
        requires
            self.ok(),
        ensures
            r@ == self.countif_spec(value_views(vals@)),
    {
        if vals.len() < 2 {
            return Value::Error(Error::Value);
        }
        match self.kept_by_one(&vals[0], &vals[1]) {
            Ok(kept) => self.count_of(count_flags(&kept)),
            Err(e) => Value::Error(e),
        }
    }

    /// `SUMIF`.
    pub fn sumif(&self, vals: &Vec<Value>) -> (r: Value)
        requires
            self.ok(),
        ensures
            r@ == self.sumif_spec(value_views(vals@)),
    {
        match self.picked(vals) {
            Err(e) => Value::Error(e),
            Ok(items) => match self.add_all(&items) {
                Ok(sum) => Value::Num(sum),
                Err(e) => Value::Error(e),
            },
        }
    }

    /// `AVERAGEIF`.
    pub fn averageif(&self, vals: &Vec<Value>) -> (r: Value)
        requires
            self.ok(),
        ensures
            r@ == self.averageif_spec(value_views(vals@)),
    {
        match self.picked(vals) {
            Err(e) => Value::Error(e),
            Ok(items) => self.mean(&items),
        }
    }

    /// `AVERAGEIFS`.
    pub fn averageifs(&self, vals: &Vec<Value>) -> (r: Value)
        requires
            self.ok(),
        ensures
            r@ == self.averageifs_spec(value_views(vals@)),
    {
        if vals.len() == 0 {
            return Value::Error(Error::Value);
        }
        let pairs = rest_of(vals);
        match self.kept_by_any(&pairs) {
            Err(e) => Value::Error(e),
            Ok(kept) => {
                let items = value_items(&vals[0]);
                let picked = choose_items(&items, &kept);
                self.mean(&picked)
            },
        }
    }

    /// `COUNTIFS`.
    pub fn countifs(&self, vals: &Vec<Value>) -> (r: Value)
        requires
            self.ok(),
        ensures
            r@ == self.countifs_spec(value_views(vals@)),
    {
        match self.kept_by_pairs(vals) {
            Ok(kept) => self.count_of(count_flags(&kept)),
            Err(e) => Value::Error(e),
        }
    }

    /// `SUMIFS`.
    pub fn sumifs(&self, vals: &Vec<Value>) -> (r: Value)
        requires
            self.ok(),
        ensures
            r@ == self.sumifs_spec(value_views(vals@)),
    {
        if vals.len() == 0 {
            return Value::Error(Error::Value);
        }
        let pairs = rest_of(vals);
        match self.kept_by_pairs(&pairs) {
            Err(e) => Value::Error(e),
            Ok(kept) => {
                let items = value_items(&vals[0]);
                let picked = choose_items(&items, &kept);
                match self.add_all(&picked) {
                    Ok(sum) => Value::Num(sum),
                    Err(e) => Value::Error(e),
                }
            },
        }
    }
}

} // verus!
