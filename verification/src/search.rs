//! `SEARCH`: the place of a text in another, whatever the case of their
//! letters.
//!
//! Texts are bytes. Whether bytes are a text in UTF-8, and what the text
//! is in small letters, is asked of the standard library; characters are
//! counted and the text is found on the bytes.
use crate::evaluate::kernel::{truncate_model, Kernel};
use crate::evaluate::value::{text_of, value_views, Double, Value, ValueView};
use crate::lookup::{place_number, to_place};
use crate::parser::ast::{Error, Infix, Number};
use crate::text::copy_range;
use vstd::prelude::*;

verus! {

/// Whether the bytes are a text in UTF-8, as `std::str::from_utf8` says.
pub uninterp spec fn utf8(s: Seq<u8>) -> bool;

/// The bytes of the text in small letters, as `str::to_lowercase` gives
/// them.
pub uninterp spec fn lowered(s: Seq<u8>) -> Seq<u8>;

/// `std::str::from_utf8`: whether it takes the bytes as a text.
#[verifier::external_body]
fn is_utf8(s: &[u8]) -> (r: bool)
    ensures
        r == utf8(s@),
{
    std::str::from_utf8(s).is_ok()
}

/// `str::to_lowercase` on the text that the bytes are: the result is a
/// function of the bytes. Of bytes that are no text nothing is said.
#[verifier::external_body]
fn lowercase(s: &[u8]) -> (r: Vec<u8>)
    ensures
        utf8(s@) ==> r@ == lowered(s@),
{
    match std::str::from_utf8(s) {
        Ok(text) => text.to_lowercase().into_bytes(),
        Err(_) => Vec::new(),
    }
}

/// Whether a byte begins a character: it is no byte that continues one.
pub open spec fn is_lead(b: u8) -> bool {
    b & 0xC0 != 0x80
}

/// Where the text begins that is left when `n` characters are skipped
/// from the byte at `i` on; the end of the text where it has no more.
pub open spec fn skip_from(s: Seq<u8>, i: int, n: nat) -> int
    decreases s.len() - i,
{
    if i < 0 || i >= s.len() {
        s.len() as int
    } else if is_lead(s[i]) {
        if n == 0 {
            i
        } else {
            skip_from(s, i + 1, (n - 1) as nat)
        }
    } else {
        skip_from(s, i + 1, n)
    }
}

/// Whether `needle` stands in `hay` at the byte `i`.
pub open spec fn occurs_at(hay: Seq<u8>, needle: Seq<u8>, i: int) -> bool {
    0 <= i && i + needle.len() <= hay.len() && hay.subrange(i, i + needle.len()) == needle
}

/// The first byte, from `i` on, at which `needle` stands in `hay`.
pub open spec fn first_from(hay: Seq<u8>, needle: Seq<u8>, i: int) -> Option<int>
    decreases hay.len() - i,
{
    if i < 0 || i + needle.len() > hay.len() {
        None
    } else if occurs_at(hay, needle, i) {
        Some(i)
    } else if i < hay.len() {
        first_from(hay, needle, i + 1)
    } else {
        None
    }
}

/// A text to search or to search for: the text of the value in small
/// letters. The error of a value that is no text; `Value` for bytes that
/// are no text in UTF-8.
pub open spec fn word_of(v: ValueView) -> Result<Seq<u8>, Error> {
    match text_of(v) {
        Err(e) => Err(e),
        Ok(t) => if utf8(t) {
            Ok(lowered(t))
        } else {
            Err(Error::Value)
        },
    }
}

/// Where the text begins that is left when `n` characters are skipped.
pub fn skip_chars(s: &[u8], n: usize) -> (r: usize)
    ensures
        r == skip_from(s@, 0, n as nat),
        r <= s@.len(),
{
    let mut i: usize = 0;
    let mut left: usize = n;
    while i < s.len()
        invariant
            i <= s.len(),
            skip_from(s@, 0, n as nat) == skip_from(s@, i as int, left as nat),
        decreases s.len() - i,
    {
        if s[i] & 0xC0 != 0x80 {
            if left == 0 {
                return i;
            }
            left = left - 1;
        }
        i = i + 1;
    }
    i
}

fn stands_at(hay: &[u8], needle: &[u8], i: usize) -> (r: bool)
    requires
        i + needle.len() <= hay.len(),
    ensures
        r == occurs_at(hay@, needle@, i as int),
{
    let mut k: usize = 0;
    while k < needle.len()
        invariant
            k <= needle.len(),
            i + needle.len() <= hay.len(),
            forall|j: int| 0 <= j < k ==> hay@[i + j] == needle@[j],
        decreases needle.len() - k,
    {
        if hay[i + k] != needle[k] {
            assert(hay@.subrange(i as int, i + needle@.len())[k as int] != needle@[k as int]);
            return false;
        }
        k = k + 1;
    }
    assert(hay@.subrange(i as int, i + needle@.len()) =~= needle@);
    true
}

/// The first byte at which `needle` stands in `hay`.
pub fn find_text(hay: &[u8], needle: &[u8]) -> (r: Option<usize>)
    ensures
        match r {
            Some(i) => first_from(hay@, needle@, 0) == Some(i as int) && i <= hay@.len(),
            None => first_from(hay@, needle@, 0) is None,
        },
{
    if needle.len() > hay.len() {
        return None;
    }
    let last: usize = hay.len() - needle.len();
    let mut i: usize = 0;
    loop
        invariant
            i <= last,
            last == hay.len() - needle.len(),
            first_from(hay@, needle@, 0) == first_from(hay@, needle@, i as int),
        decreases last - i,
    {
        if stands_at(hay, needle, i) {
            return Some(i);
        }
        if i == last {
            assert(first_from(hay@, needle@, i + 1) is None);
            return None;
        }
        i = i + 1;
    }
}

/// The text of a value in small letters.
pub fn value_word(v: &Value) -> (r: Result<Vec<u8>, Error>)
    ensures
        match r {
            Ok(t) => word_of(v@) == Ok::<Seq<u8>, Error>(t@),
            Err(e) => word_of(v@) == Err::<Seq<u8>, Error>(e),
        },
{
    match v.as_text() {
        Err(e) => Err(e),
        Ok(text) => if is_utf8(text.as_slice()) {
            Ok(lowercase(text.as_slice()))
        } else {
            Err(Error::Value)
        },
    }
}

impl<FN, FA, FT, FL> Kernel<FN, FA, FT, FL> where
    FN: Fn(&Number) -> Option<Double>,
    FA: Fn(Infix, Double, Double) -> Double,
    FT: Fn(Double) -> i64,
    FL: Fn(&Vec<u8>, Vec<Value>) -> Option<Value>,
 {
    /// How many characters `SEARCH` skips: one less than the third
    /// argument, taken as a number and cut to a whole number, and none
    /// for a number below 1 or where there is no third argument.
    pub open spec fn skipped_spec(&self, vals: Seq<ValueView>) -> Result<usize, Error> {
        if vals.len() < 3 {
            Ok(0)
        } else {
            match self.num_of(vals[2]) {
                Err(e) => Err(e),
                Ok(n) => {
                    let place = to_place(truncate_model(self.truncate, n));
                    if place >= 1 {
                        Ok((place - 1) as usize)
                    } else {
                        Ok(0)
                    }
                },
            }
        }
    }

    /// A place as a value; `Num` for one beyond what the machine counts.
    pub open spec fn place_value(&self, place: int) -> ValueView {
        if 0 <= place <= usize::MAX {
            self.count_value(place as nat)
        } else {
            ValueView::Error(Error::Num)
        }
    }

    /// `SEARCH(find, within, start)`: the place, counted from 1, at which
    /// the text `find` first stands in the text `within`, both taken in
    /// small letters, from the character `start` on: the byte at which
    /// it stands in what is left when the characters before `start` are
    /// skipped, and the number of characters skipped. The arguments are
    /// taken in turn: a missing text gives `Value`, one that is no text
    /// its error, a start that is no number its error; `Value` where the
    /// text is not found.
    pub open spec fn search_spec(&self, vals: Seq<ValueView>) -> ValueView {
        if vals.len() < 1 {
            ValueView::Error(Error::Value)
        } else {
            match word_of(vals[0]) {
                Err(e) => ValueView::Error(e),
                Ok(find) => if vals.len() < 2 {
                    ValueView::Error(Error::Value)
                } else {
                    match word_of(vals[1]) {
                        Err(e) => ValueView::Error(e),
                        Ok(within) => match self.skipped_spec(vals) {
                            Err(e) => ValueView::Error(e),
                            Ok(skipped) => match first_from(
                                within.subrange(
                                    skip_from(within, 0, skipped as nat),
                                    within.len() as int,
                                ),
                                find,
                                0,
                            ) {
                                Some(at) => self.place_value(at + skipped + 1),
                                None => ValueView::Error(Error::Value),
                            },
                        },
                    }
                },
            }
        }
    }

    /// How many characters `SEARCH` skips.
    pub fn skipped(&self, vals: &Vec<Value>) -> (r: Result<usize, Error>)
        requires
            self.ok(),
        ensures
            r == self.skipped_spec(value_views(vals@)),
    {
        if vals.len() < 3 {
            return Ok(0);
        }
        match self.as_num(&vals[2]) {
            Err(e) => Err(e),
            Ok(n) => {
                let place: usize = place_number(self.whole(n));
                if place >= 1 {
                    Ok(place - 1)
                } else {
                    Ok(0)
                }
            },
        }
    }

    /// `SEARCH`.
    pub fn search(&self, vals: &Vec<Value>) -> (r: Value)
        requires
            self.ok(),
        ensures
            r@ == self.search_spec(value_views(vals@)),
    {
        if vals.len() < 1 {
            return Value::Error(Error::Value);
        }
        let find = match value_word(&vals[0]) {
            Ok(text) => text,
            Err(e) => {
                return Value::Error(e);
            },
        };
        if vals.len() < 2 {
            return Value::Error(Error::Value);
        }
        let within = match value_word(&vals[1]) {
            Ok(text) => text,
            Err(e) => {
                return Value::Error(e);
            },
        };
        let skipped = match self.skipped(vals) {
            Ok(n) => n,
            Err(e) => {
                return Value::Error(e);
            },
        };
        let from = skip_chars(within.as_slice(), skipped);
        let rest = copy_range(within.as_slice(), from, within.len());
        match find_text(rest.as_slice(), find.as_slice()) {
            Some(at) => match at.checked_add(skipped) {
                Some(sum) => match sum.checked_add(1) {
                    Some(place) => self.count_of(place),
                    None => Value::Error(Error::Num),
                },
                None => Value::Error(Error::Num),
            },
            None => Value::Error(Error::Value),
        }
    }
}

} // verus!
