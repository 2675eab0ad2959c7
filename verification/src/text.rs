//! Decimal numbers and separators in bytes of text.
//!
//! Text is handled as its UTF-8 bytes. The separators and digits that this
//! library looks for are ASCII, and an ASCII byte in UTF-8 is always a
//! character of its own.

use vstd::prelude::*;
use vstd::slice::slice_subrange;

verus! {

/// The byte of `+`.
pub const PLUS: u8 = 0x2b;

/// The byte of `-`.
pub const MINUS: u8 = 0x2d;

/// The byte of `.`, which parts a date.
pub const DOT: u8 = 0x2e;

/// The byte of `:`, which parts a time.
pub const COLON: u8 = 0x3a;

/// The byte of `|`, which parts a URL suffix.
pub const BAR: u8 = 0x7c;

/// The byte of the digit `0`.
pub const ZERO: u8 = 0x30;

/// The byte of the digit `9`.
pub const NINE: u8 = 0x39;

/// Whether `byte` is one of the digits `0` to `9`.
pub open spec fn is_digit(byte: u8) -> bool {
    ZERO <= byte <= NINE
}

/// Whether `text` holds digits only.
pub open spec fn all_digits(text: Seq<u8>) -> bool {
    forall|i: int| 0 <= i < text.len() ==> is_digit(#[trigger] text[i])
}

/// The number that the digits of `text` write in base ten, leading zeros
/// allowed; 0 for no digits.
pub open spec fn digits_value(text: Seq<u8>) -> nat
    decreases text.len(),
{
    if text.len() == 0 {
        0
    } else {
        digits_value(text.drop_last()) * 10 + (text.last() - ZERO) as nat
    }
}

/// Whether `text` starts with a sign that is read as one: `+` always, `-`
/// only where negative numbers are `signed` for.
pub open spec fn has_sign(text: Seq<u8>, signed: bool) -> bool {
    text.len() > 0 && (text[0] == PLUS || (signed && text[0] == MINUS))
}

/// The integer that `text` writes: an optional sign, then at least one digit
/// and nothing else. `None` for any other text.
pub open spec fn decimal(text: Seq<u8>, signed: bool) -> Option<int> {
    let digits = if has_sign(text, signed) {
        text.skip(1)
    } else {
        text
    };
    if digits.len() == 0 || !all_digits(digits) {
        None
    } else if has_sign(text, signed) && text[0] == MINUS {
        Some(-(digits_value(digits) as int))
    } else {
        Some(digits_value(digits) as int)
    }
}

/// The integer that `text` writes, if it lies in `min ..= max`. A minus sign
/// is read only where `min` is negative.
pub open spec fn decimal_in(text: Seq<u8>, min: int, max: int) -> Option<int> {
    match decimal(text, min < 0) {
        Some(value) => if min <= value <= max {
            Some(value)
        } else {
            None
        },
        None => None,
    }
}

/// The index of the first `sep` in `text`, or the length of `text` where it
/// holds none.
pub open spec fn first_sep(text: Seq<u8>, sep: u8) -> int
    decreases text.len(),
{
    if text.len() == 0 || text[0] == sep {
        0
    } else {
        1 + first_sep(text.skip(1), sep)
    }
}

/// The part of `text` with index `k`, where `sep` parts it: `None` where
/// `text` holds fewer than `k` separators.
pub open spec fn component(text: Seq<u8>, sep: u8, k: nat) -> Option<Seq<u8>>
    decreases k,
{
    let cut = first_sep(text, sep);
    if k == 0 {
        Some(text.take(cut))
    } else if cut >= text.len() {
        None
    } else {
        component(text.skip(cut + 1), sep, (k - 1) as nat)
    }
}

/// Whether `sep` parts `text` into exactly three parts: `text` holds two
/// separators and no third.
pub open spec fn three_parts(text: Seq<u8>, sep: u8) -> bool {
    component(text, sep, 2) is Some && component(text, sep, 3) is None
}

/// The number in part `k` of `text`, if that part is there and writes an
/// integer in `min ..= max`.
pub open spec fn number_at(text: Seq<u8>, sep: u8, k: nat, min: int, max: int) -> Option<int> {
    match component(text, sep, k) {
        Some(part) => decimal_in(part, min, max),
        None => None,
    }
}

/// `first_sep` is the one index before which no separator stands and at
/// which one does, unless it is the end.
pub proof fn lemma_first_sep(text: Seq<u8>, sep: u8)
    ensures
        0 <= first_sep(text, sep) <= text.len(),
        forall|i: int| 0 <= i < first_sep(text, sep) ==> text[i] != sep,
        first_sep(text, sep) < text.len() ==> text[first_sep(text, sep)] == sep,
    decreases text.len(),
{
    if text.len() == 0 || text[0] == sep {
    } else {
        let rest = text.skip(1);
        lemma_first_sep(rest, sep);
        assert forall|i: int| 0 <= i < first_sep(text, sep) implies text[i] != sep by {
            if i > 0 {
                assert(text[i] == rest[i - 1]);
            }
        }
        assert(first_sep(text, sep) < text.len() ==> text[first_sep(text, sep)] == rest[first_sep(
            rest,
            sep,
        )]);
    }
}

/// An index with the two properties of `lemma_first_sep` is `first_sep`.
pub proof fn lemma_first_sep_unique(text: Seq<u8>, sep: u8, at: int)
    requires
        0 <= at <= text.len(),
        forall|i: int| 0 <= i < at ==> text[i] != sep,
        at < text.len() ==> text[at] == sep,
    ensures
        first_sep(text, sep) == at,
{
    lemma_first_sep(text, sep);
    let found = first_sep(text, sep);
    if found < at {
        assert(text[found] == sep);
    } else if at < found {
        assert(text[at] != sep);
    }
}

/// The value of a prefix of digits is at most the value of the whole.
pub proof fn lemma_digits_value_prefix(text: Seq<u8>, k: int)
    requires
        0 <= k <= text.len(),
    ensures
        digits_value(text.take(k)) <= digits_value(text),
    decreases text.len() - k,
{
    if k == text.len() {
        assert(text.take(k) =~= text);
    } else {
        lemma_digits_value_prefix(text.drop_last(), k);
        assert(text.drop_last().take(k) =~= text.take(k));
    }
}

/// Reads `digits` as a number of at most `limit`.
fn parse_digits(digits: &[u8], limit: u64) -> (r: Option<u64>)
    requires
        limit >= 9,
    ensures
        r == if digits@.len() > 0 && all_digits(digits@) && digits_value(digits@) <= limit {
            Some(digits_value(digits@) as u64)
        } else {
            None
        },
{
    let len: usize = digits.len();
    if len == 0 {
        return None;
    }
    let mut value: u64 = 0;
    let mut i: usize = 0;
    while i < len
        invariant
            len == digits@.len(),
            limit >= 9,
            i <= len,
            all_digits(digits@.take(i as int)),
            value == digits_value(digits@.take(i as int)),
            value <= limit,
        decreases len - i,
    {
        let byte: u8 = digits[i];
        if byte < ZERO || byte > NINE {
            assert(!is_digit(digits@[i as int]));
            return None;
        }
        let digit: u64 = (byte - ZERO) as u64;
        proof {
            let next = digits@.take(i + 1);
            assert(next.drop_last() =~= digits@.take(i as int));
            assert(next.last() == byte);
            assert(digits_value(next) == value * 10 + digit);
            assert(all_digits(next)) by {
                assert forall|j: int| 0 <= j < next.len() implies is_digit(#[trigger] next[j]) by {
                    if j < i {
                        assert(next[j] == digits@.take(i as int)[j]);
                    }
                }
            }
            lemma_digits_value_prefix(digits@, i + 1);
        }
        if value > (limit - digit) / 10 {
            return None;
        }
        value = value * 10 + digit;
        i += 1;
    }
    assert(digits@.take(len as int) =~= digits@);
    Some(value)
}

/// Reads `text` as an unsigned decimal number of at most `limit`.
fn parse_unsigned(text: &[u8], limit: u64) -> (r: Option<u64>)
    requires
        limit >= 9,
    ensures
        r == match decimal_in(text@, 0, limit as int) {
            Some(value) => Some(value as u64),
            None => None,
        },
{
    if text.len() > 0 && text[0] == PLUS {
        parse_digits(slice_subrange(text, 1, text.len()), limit)
    } else {
        parse_digits(text, limit)
    }
}

/// Reads `text` as a decimal `u32`, as `str::parse` does: an optional `+`,
/// then digits.
pub fn parse_u32(text: &[u8]) -> (r: Option<u32>)
    ensures
        r == match decimal_in(text@, 0, u32::MAX as int) {
            Some(value) => Some(value as u32),
            None => None,
        },
{
    match parse_unsigned(text, 0xffff_ffff) {
        Some(value) => Some(value as u32),
        None => None,
    }
}

/// Reads `text` as a decimal `usize`: an optional `+`, then digits.
pub fn parse_usize(text: &[u8]) -> (r: Option<usize>)
    ensures
        r == match decimal_in(text@, 0, usize::MAX as int) {
            Some(value) => Some(value as usize),
            None => None,
        },
{
    match parse_unsigned(text, usize::MAX as u64) {
        Some(value) => Some(value as usize),
        None => None,
    }
}

/// Reads `text` as a decimal `i32`: an optional `+` or `-`, then digits.
pub fn parse_i32(text: &[u8]) -> (r: Option<i32>)
    ensures
        r == match decimal_in(text@, i32::MIN as int, i32::MAX as int) {
            Some(value) => Some(value as i32),
            None => None,
        },
{
    if text.len() > 0 && text[0] == MINUS {
        match parse_digits(slice_subrange(text, 1, text.len()), 0x8000_0000) {
            Some(value) => if value == 0x8000_0000 {
                Some(i32::MIN)
            } else {
                Some(-(value as i32))
            },
            None => None,
        }
    } else if text.len() > 0 && text[0] == PLUS {
        match parse_digits(slice_subrange(text, 1, text.len()), 0x7fff_ffff) {
            Some(value) => Some(value as i32),
            None => None,
        }
    } else {
        match parse_digits(text, 0x7fff_ffff) {
            Some(value) => Some(value as i32),
            None => None,
        }
    }
}

/// Finds the first `sep` in `text`.
pub fn find_sep(text: &[u8], sep: u8) -> (at: usize)
    ensures
        at == first_sep(text@, sep),
{
    let len: usize = text.len();
    let mut i: usize = 0;
    while i < len && text[i] != sep
        invariant
            len == text@.len(),
            i <= len,
            forall|j: int| 0 <= j < i ==> text@[j] != sep,
        decreases len - i,
    {
        i += 1;
    }
    proof {
        lemma_first_sep_unique(text@, sep, i as int);
    }
    i
}

/// Parts `text` at its first `sep`: what stands before it, and what stands
/// behind it where there is one.
pub fn split_first<'a>(text: &'a [u8], sep: u8) -> (r: (&'a [u8], Option<&'a [u8]>))
    ensures
        r.0@ == text@.take(first_sep(text@, sep)),
        r.1 is Some <==> first_sep(text@, sep) < text@.len(),
        r.1 matches Some(rest) ==> rest@ == text@.skip(first_sep(text@, sep) + 1),
{
    let at: usize = find_sep(text, sep);
    proof {
        lemma_first_sep(text@, sep);
    }
    let head = slice_subrange(text, 0, at);
    if at < text.len() {
        let rest = slice_subrange(text, at + 1, text.len());
        (head, Some(rest))
    } else {
        (head, None)
    }
}

} // verus!
