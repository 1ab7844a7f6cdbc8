//! Byte-level text helpers: character classes, canonical form of reference
//! text, decimal numbers and bijective base-26 column letters.
//!
//! All text in this crate is held as UTF-8 bytes; the grammar only ever
//! inspects ASCII bytes.

use vstd::prelude::*;

verus! {

pub open spec fn is_digit(b: u8) -> bool {
    0x30 <= b <= 0x39
}

pub open spec fn is_upper(b: u8) -> bool {
    0x41 <= b <= 0x5A
}

pub open spec fn is_lower(b: u8) -> bool {
    0x61 <= b <= 0x7A
}

pub open spec fn is_alpha(b: u8) -> bool {
    is_upper(b) || is_lower(b)
}

/// Space, tab, line feed and carriage return.
pub open spec fn is_space(b: u8) -> bool {
    b == 0x20 || b == 0x09 || b == 0x0A || b == 0x0D
}

pub open spec fn to_upper(b: u8) -> u8 {
    if is_lower(b) {
        (b - 0x20) as u8
    } else {
        b
    }
}

pub open spec fn all_digits(s: Seq<u8>) -> bool {
    forall|i: int| 0 <= i < s.len() ==> is_digit(#[trigger] s[i])
}

pub open spec fn all_upper(s: Seq<u8>) -> bool {
    forall|i: int| 0 <= i < s.len() ==> is_upper(#[trigger] s[i])
}

/// The text with every whitespace byte removed and every ASCII letter in
/// upper case.
pub open spec fn canonicalize(s: Seq<u8>) -> Seq<u8>
    decreases s.len(),
{
    if s.len() == 0 {
        Seq::empty()
    } else if is_space(s.last()) {
        canonicalize(s.drop_last())
    } else {
        canonicalize(s.drop_last()).push(to_upper(s.last()))
    }
}

/// The number that a run of decimal digits denotes.
pub open spec fn digits_value(s: Seq<u8>) -> nat
    decreases s.len(),
{
    if s.len() == 0 {
        0
    } else {
        (digits_value(s.drop_last()) * 10 + (s.last() - 0x30)) as nat
    }
}

/// The decimal digits of `n`, without leading zeros (`0` is `"0"`).
pub open spec fn decimal_digits(n: nat) -> Seq<u8>
    decreases n,
{
    if n < 10 {
        seq![(0x30 + n) as u8]
    } else {
        decimal_digits(n / 10).push((0x30 + n % 10) as u8)
    }
}

/// The column number that a run of upper-case letters denotes in bijective
/// base 26: `A` is 1, `Z` is 26, `AA` is 27.
pub open spec fn letters_value(s: Seq<u8>) -> nat
    decreases s.len(),
{
    if s.len() == 0 {
        0
    } else {
        (letters_value(s.drop_last()) * 26 + (s.last() - 0x41 + 1)) as nat
    }
}

/// The letters of column `n` in bijective base 26; empty for `0`.
pub open spec fn column_letters(n: nat) -> Seq<u8>
    decreases n,
{
    if n == 0 {
        Seq::empty()
    } else {
        column_letters(((n - 1) / 26) as nat).push((0x41 + (n - 1) % 26) as u8)
    }
}

pub fn byte_is_digit(b: u8) -> (r: bool)
    ensures
        r == is_digit(b),
{
    0x30 <= b && b <= 0x39
}

pub fn byte_is_upper(b: u8) -> (r: bool)
    ensures
        r == is_upper(b),
{
    0x41 <= b && b <= 0x5A
}

pub fn byte_is_space(b: u8) -> (r: bool)
    ensures
        r == is_space(b),
{
    b == 0x20 || b == 0x09 || b == 0x0A || b == 0x0D
}

pub fn byte_to_upper(b: u8) -> (r: u8)
    ensures
        r == to_upper(b),
{
    if 0x61 <= b && b <= 0x7A {
        b - 0x20
    } else {
        b
    }
}

/// Whether two byte strings hold the same bytes.
pub fn bytes_eq(a: &[u8], b: &[u8]) -> (r: bool)
    ensures
        r == (a@ == b@),
{
    if a.len() != b.len() {
        return false;
    }
    let mut i: usize = 0;
    while i < a.len()
        invariant
            i <= a.len(),
            a.len() == b.len(),
            forall|j: int| 0 <= j < i ==> a@[j] == b@[j],
        decreases a.len() - i,
    {
        if a[i] != b[i] {
            return false;
        }
        i = i + 1;
    }
    assert(a@ =~= b@);
    true
}

/// A copy of `s[from..to]`.
pub fn copy_range(s: &[u8], from: usize, to: usize) -> (r: Vec<u8>)
    requires
        from <= to <= s.len(),
    ensures
        r@ == s@.subrange(from as int, to as int),
{
    let mut out: Vec<u8> = Vec::new();
    let mut i: usize = from;
    while i < to
        invariant
            from <= i <= to <= s.len(),
            out@ == s@.subrange(from as int, i as int),
        decreases to - i,
    {
        out.push(s[i]);
        assert(s@.subrange(from as int, i + 1) =~= s@.subrange(from as int, i as int).push(
            s@[i as int],
        ));
        i = i + 1;
    }
    out
}

/// A copy of `s`.
pub fn copy_bytes(s: &[u8]) -> (r: Vec<u8>)
    ensures
        r@ == s@,
{
    let out = copy_range(s, 0, s.len());
    assert(s@.subrange(0, s.len() as int) =~= s@);
    out
}

/// Appends all of `tail` to `out`.
pub fn append_bytes(out: &mut Vec<u8>, tail: &[u8])
    ensures
        final(out)@ == old(out)@ + tail@,
{
    let mut i: usize = 0;
    while i < tail.len()
        invariant
            i <= tail.len(),
            out@ == old(out)@ + tail@.take(i as int),
        decreases tail.len() - i,
    {
        out.push(tail[i]);
        assert(tail@.take(i + 1) =~= tail@.take(i as int).push(tail@[i as int]));
        assert(old(out)@ + tail@.take(i + 1) =~= (old(out)@ + tail@.take(i as int)).push(
            tail@[i as int],
        ));
        i = i + 1;
    }
    assert(tail@.take(tail.len() as int) =~= tail@);
}

/// The canonical form of reference text: whitespace dropped, letters in
/// upper case.
pub fn canonical_text(s: &[u8]) -> (r: Vec<u8>)
    ensures
        r@ == canonicalize(s@),
{
    let mut out: Vec<u8> = Vec::new();
    let mut i: usize = 0;
    while i < s.len()
        invariant
            i <= s.len(),
            out@ == canonicalize(s@.take(i as int)),
        decreases s.len() - i,
    {
        assert(s@.take(i + 1).drop_last() =~= s@.take(i as int));
        if !byte_is_space(s[i]) {
            out.push(byte_to_upper(s[i]));
        }
        i = i + 1;
    }
    assert(s@.take(s.len() as int) =~= s@);
    out
}

/// The value of the digits `s[from..to]`, or `None` where it does not fit.
pub(crate) fn parse_decimal(s: &[u8], from: usize, to: usize) -> (r: Option<usize>)
    requires
        from <= to <= s.len(),
        all_digits(s@.subrange(from as int, to as int)),
    ensures
        r == if digits_value(s@.subrange(from as int, to as int)) <= usize::MAX {
            Some(digits_value(s@.subrange(from as int, to as int)) as usize)
        } else {
            None
        },
{
    let mut acc: usize = 0;
    let mut i: usize = from;
    while i < to
        invariant
            from <= i <= to <= s.len(),
            all_digits(s@.subrange(from as int, to as int)),
            acc == digits_value(s@.subrange(from as int, i as int)),
        decreases to - i,
    {
        let ghost prefix = s@.subrange(from as int, i as int);
        let ghost next = s@.subrange(from as int, i + 1);
        assert(next.drop_last() =~= prefix);
        assert(next.last() == s@[i as int]);
        assert(is_digit(s@[i as int])) by {
            assert(s@.subrange(from as int, to as int)[i - from] == s@[i as int]);
        }
        let d: usize = (s[i] - 0x30) as usize;
        let step: Option<usize> = match acc.checked_mul(10) {
            Some(t) => t.checked_add(d),
            None => None,
        };
        match step {
            Some(v) => {
                acc = v;
            },
            None => {
                proof {
                    assert(digits_value(next) > usize::MAX);
                    lemma_digits_value_monotone(
                        s@.subrange(from as int, to as int),
                        i + 1 - from,
                    );
                    assert(s@.subrange(from as int, to as int).take(i + 1 - from) =~= next);
                }
                return None;
            },
        }
        i = i + 1;
    }
    Some(acc)
}

/// The value of the upper-case letters `s[from..to]` in bijective base 26,
/// or `None` where it does not fit.
pub(crate) fn parse_letters(s: &[u8], from: usize, to: usize) -> (r: Option<usize>)
    requires
        from <= to <= s.len(),
        all_upper(s@.subrange(from as int, to as int)),
    ensures
        r == if letters_value(s@.subrange(from as int, to as int)) <= usize::MAX {
            Some(letters_value(s@.subrange(from as int, to as int)) as usize)
        } else {
            None
        },
{
    let mut acc: usize = 0;
    let mut i: usize = from;
    while i < to
        invariant
            from <= i <= to <= s.len(),
            all_upper(s@.subrange(from as int, to as int)),
            acc == letters_value(s@.subrange(from as int, i as int)),
        decreases to - i,
    {
        let ghost prefix = s@.subrange(from as int, i as int);
        let ghost next = s@.subrange(from as int, i + 1);
        assert(next.drop_last() =~= prefix);
        assert(next.last() == s@[i as int]);
        assert(is_upper(s@[i as int])) by {
            assert(s@.subrange(from as int, to as int)[i - from] == s@[i as int]);
        }
        let d: usize = (s[i] - 0x41) as usize + 1;
        let step: Option<usize> = match acc.checked_mul(26) {
            Some(t) => t.checked_add(d),
            None => None,
        };
        match step {
            Some(v) => {
                acc = v;
            },
            None => {
                proof {
                    assert(letters_value(next) > usize::MAX);
                    lemma_letters_value_monotone(
                        s@.subrange(from as int, to as int),
                        i + 1 - from,
                    );
                    assert(s@.subrange(from as int, to as int).take(i + 1 - from) =~= next);
                }
                return None;
            },
        }
        i = i + 1;
    }
    Some(acc)
}

/// The decimal digits of `n`.
pub fn format_decimal(n: usize) -> (r: Vec<u8>)
    ensures
        r@ == decimal_digits(n as nat),
    decreases n,
{
    if n < 10 {
        let mut out: Vec<u8> = Vec::new();
        out.push(0x30 + n as u8);
        assert(out@ =~= seq![(0x30 + n) as u8]);
        out
    } else {
        let mut out: Vec<u8> = format_decimal(n / 10);
        out.push(0x30 + (n % 10) as u8);
        out
    }
}

/// The letters of column `col_idx`: `1` is `A`, `26` is `Z`, `27` is `AA`;
/// `0` has no letters.
pub fn column_number_to_letter(col_idx: usize) -> (r: Vec<u8>)
    ensures
        r@ == column_letters(col_idx as nat),
    decreases col_idx,
{
    if col_idx == 0 {
        Vec::new()
    } else {
        let mut out: Vec<u8> = column_number_to_letter((col_idx - 1) / 26);
        out.push(0x41 + ((col_idx - 1) % 26) as u8);
        out
    }
}

pub proof fn lemma_digits_value_monotone(s: Seq<u8>, k: int)
    requires
        0 <= k <= s.len(),
        all_digits(s),
    ensures
        digits_value(s.take(k)) <= digits_value(s),
    decreases s.len() - k,
{
    if k < s.len() {
        lemma_digits_value_monotone(s, k + 1);
        assert(s.take(k + 1).drop_last() =~= s.take(k));
        assert(is_digit(s.take(k + 1).last())) by {
            assert(s.take(k + 1).last() == s[k]);
        }
    } else {
        assert(s.take(k) =~= s);
    }
}

pub proof fn lemma_letters_value_monotone(s: Seq<u8>, k: int)
    requires
        0 <= k <= s.len(),
        all_upper(s),
    ensures
        letters_value(s.take(k)) <= letters_value(s),
    decreases s.len() - k,
{
    if k < s.len() {
        lemma_letters_value_monotone(s, k + 1);
        assert(s.take(k + 1).drop_last() =~= s.take(k));
        assert(is_upper(s.take(k + 1).last())) by {
            assert(s.take(k + 1).last() == s[k]);
        }
    } else {
        assert(s.take(k) =~= s);
    }
}

/// Decimal digits are digits, at least one of them, and start with `0` only
/// for the number zero.
pub proof fn lemma_decimal_digits_shape(n: nat)
    ensures
        decimal_digits(n).len() >= 1,
        all_digits(decimal_digits(n)),
        n > 0 ==> decimal_digits(n)[0] != 0x30,
    decreases n,
{
    if n >= 10 {
        lemma_decimal_digits_shape(n / 10);
    }
}

/// Reading back the decimal digits of a number gives the number.
pub proof fn lemma_digits_value_of_decimal(n: nat)
    ensures
        digits_value(decimal_digits(n)) == n,
    decreases n,
{
    if n < 10 {
        let s = decimal_digits(n);
        assert(s.drop_last() =~= Seq::<u8>::empty());
        assert(digits_value(s.drop_last()) == 0);
    } else {
        lemma_digits_value_of_decimal(n / 10);
        let s = decimal_digits(n);
        assert(s.drop_last() =~= decimal_digits(n / 10));
    }
}

/// Digits without a leading zero are the decimal digits of their value.
pub proof fn lemma_decimal_of_digits_value(s: Seq<u8>)
    requires
        s.len() >= 1,
        all_digits(s),
        s.len() > 1 ==> s[0] != 0x30,
    ensures
        decimal_digits(digits_value(s)) == s,
        s[0] != 0x30 ==> digits_value(s) >= 1,
    decreases s.len(),
{
    let init = s.drop_last();
    let d = (s.last() - 0x30) as nat;
    assert(is_digit(s.last()));
    if s.len() == 1 {
        assert(init =~= Seq::<u8>::empty());
        assert(digits_value(init) == 0);
        assert(digits_value(s) == d);
        assert(decimal_digits(d) =~= s);
    } else {
        assert(all_digits(init)) by {
            assert forall|i: int| 0 <= i < init.len() implies is_digit(#[trigger] init[i]) by {
                assert(init[i] == s[i]);
            }
        }
        assert(init[0] == s[0]);
        lemma_decimal_of_digits_value(init);
        let v = digits_value(init);
        assert(v >= 1);
        assert(digits_value(s) == v * 10 + d);
        assert((v * 10 + d) / 10 == v && (v * 10 + d) % 10 == d) by (nonlinear_arith)
            requires
                d < 10,
        ;
        assert(decimal_digits(v * 10 + d) =~= decimal_digits(v).push((0x30 + d) as u8));
        assert(decimal_digits(digits_value(s)) =~= s);
    }
}

/// Column letters are upper-case letters, at least one for a column from 1.
pub proof fn lemma_column_letters_shape(n: nat)
    ensures
        all_upper(column_letters(n)),
        n > 0 ==> column_letters(n).len() >= 1,
    decreases n,
{
    if n > 0 {
        lemma_column_letters_shape(((n - 1) / 26) as nat);
    }
}

/// Column number to letters and back is the identity.
pub proof fn lemma_letters_value_of_column(n: nat)
    ensures
        letters_value(column_letters(n)) == n,
    decreases n,
{
    if n > 0 {
        let q = ((n - 1) / 26) as nat;
        lemma_letters_value_of_column(q);
        let s = column_letters(n);
        assert(s.drop_last() =~= column_letters(q));
        assert(q * 26 + (n - 1) % 26 == n - 1) by (nonlinear_arith)
            requires
                q == (n - 1) / 26,
                n >= 1,
        ;
    }
}

/// Letters to column number and back is the identity.
pub proof fn lemma_column_of_letters_value(s: Seq<u8>)
    requires
        all_upper(s),
    ensures
        column_letters(letters_value(s)) == s,
        s.len() >= 1 ==> letters_value(s) >= 1,
    decreases s.len(),
{
    if s.len() == 0 {
        assert(column_letters(0) =~= s);
    } else {
        let init = s.drop_last();
        let d = (s.last() - 0x41) as nat;
        assert(is_upper(s.last()));
        assert(all_upper(init)) by {
            assert forall|i: int| 0 <= i < init.len() implies is_upper(#[trigger] init[i]) by {
                assert(init[i] == s[i]);
            }
        }
        lemma_column_of_letters_value(init);
        let v = letters_value(init);
        let n = letters_value(s);
        assert(n == v * 26 + d + 1);
        assert((v * 26 + d) / 26 == v && (v * 26 + d) % 26 == d) by (nonlinear_arith)
            requires
                d < 26,
        ;
        assert(column_letters(n) =~= column_letters(v).push((0x41 + d) as u8));
        assert(column_letters(n) =~= s);
    }
}

/// Canonical text holds no whitespace and no lower-case letter.
pub proof fn lemma_canonicalize_shape(s: Seq<u8>)
    ensures
        forall|i: int|
            0 <= i < canonicalize(s).len() ==> !is_space(#[trigger] canonicalize(s)[i])
                && !is_lower(canonicalize(s)[i]),
    decreases s.len(),
{
    if s.len() > 0 {
        lemma_canonicalize_shape(s.drop_last());
        let c = canonicalize(s);
        let init = canonicalize(s.drop_last());
        assert forall|i: int| 0 <= i < c.len() implies !is_space(#[trigger] c[i]) && !is_lower(
            c[i],
        ) by {
            if i < init.len() {
                assert(c[i] == init[i]);
            }
        }
    }
}

} // verus!
