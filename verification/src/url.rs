//! URLs that a record gives as a change to its primary URL.

use crate::error::Error;
use crate::text::{decimal_in, find_sep, first_sep, lemma_first_sep, parse_usize, BAR};
use vstd::prelude::*;
use vstd::slice::slice_subrange;
use vstd::string::*;
use vstd::utf8::*;

verus! {

/// The bytes of the URL that `field` derives from `url`, both given as bytes
/// of UTF-8.
///
/// An empty field derives no URL. A field without a bar is a suffix: it is
/// put behind the whole primary URL. A field `n|suffix`, parted at its first
/// bar, keeps the first `n` bytes of the primary URL and puts `suffix` behind
/// them: `n` must be a decimal number that a `usize` holds (else
/// `Error::NumericParse`) and must not lie behind the end of the URL nor
/// inside one of its characters (else `Error::UrlSuffix`).
pub open spec fn url_suffix_bytes(url: Seq<u8>, field: Seq<u8>) -> Result<Option<Seq<u8>>, Error> {
    let bar = first_sep(field, BAR);
    if field.len() == 0 {
        Ok(None)
    } else if bar >= field.len() {
        Ok(Some(url + field))
    } else {
        match decimal_in(field.take(bar), 0, usize::MAX as int) {
            None => Err(Error::NumericParse),
            Some(n) => if n <= url.len() && is_char_boundary(url, n) {
                Ok(Some(url.take(n) + field.skip(bar + 1)))
            } else {
                Err(Error::UrlSuffix)
            },
        }
    }
}

/// The URL that `field` derives from `url`: `url_suffix_bytes` on the UTF-8
/// bytes of the two, read back as characters.
pub open spec fn url_suffix(url: Seq<char>, field: Seq<char>) -> Result<Option<Seq<char>>, Error> {
    match url_suffix_bytes(encode_utf8(url), encode_utf8(field)) {
        Ok(Some(bytes)) => Ok(Some(decode_utf8(bytes))),
        Ok(None) => Ok(None),
        Err(e) => Err(e),
    }
}

/// What a result of `parse_url_suffix` says in characters.
pub open spec fn suffix_view(r: Result<Option<String>, Error>) -> Result<Option<Seq<char>>, Error> {
    match r {
        Ok(Some(text)) => Ok(Some(text@)),
        Ok(None) => Ok(None),
        Err(e) => Err(e),
    }
}

/// The bytes of two texts, one behind the other, are the bytes of the one
/// behind the bytes of the other.
pub proof fn lemma_encode_concat(a: Seq<char>, b: Seq<char>)
    ensures
        encode_utf8(a + b) == encode_utf8(a) + encode_utf8(b),
    decreases a.len(),
{
    if a.len() == 0 {
        assert(a + b =~= b);
        assert(encode_utf8(a) + encode_utf8(b) =~= encode_utf8(b));
    } else {
        lemma_encode_concat(a.drop_first(), b);
        assert((a + b).drop_first() =~= a.drop_first() + b);
        assert((a + b)[0] == a[0]);
        assert(encode_utf8(a + b) =~= encode_utf8(a) + encode_utf8(b));
    }
}

/// A field without a bar is put behind the primary URL, character by
/// character.
pub proof fn lemma_plain_suffix(url: Seq<char>, field: Seq<char>)
    requires
        field.len() > 0,
        first_sep(encode_utf8(field), BAR) >= encode_utf8(field).len(),
    ensures
        url_suffix(url, field) == Ok::<Option<Seq<char>>, Error>(Some(url + field)),
{
    lemma_encode_concat(url, field);
    encode_utf8_decode_utf8(url + field);
    if encode_utf8(field).len() == 0 {
        encode_utf8_decode_utf8(field);
        assert(decode_utf8(encode_utf8(field)) =~= Seq::<char>::empty());
    }
}

/// Derives a URL from the primary URL of a record and one of its suffix
/// fields.
///
/// Returns `Ok(None)` for an empty field; the primary URL with the field
/// behind it for a field without a bar; for a field `n|suffix` the first `n`
/// bytes of the primary URL with `suffix` behind them, `Error::NumericParse` if
/// `n` is no decimal number, and `Error::UrlSuffix` if the primary URL has no
/// such prefix.
pub fn parse_url_suffix(url: &str, field: String) -> (r: Result<Option<String>, Error>)
    ensures
        suffix_view(r) == url_suffix(url@, field@),
        r matches Ok(Some(text)) ==> url_suffix_bytes(encode_utf8(url@), encode_utf8(field@)) == Ok::<
            Option<Seq<u8>>,
            Error,
        >(Some(encode_utf8(text@))),
{
    broadcast use {encode_utf8_valid_utf8, encode_utf8_decode_utf8};

    let field_text = field.as_str();
    let bytes = field_text.as_bytes();
    let len: usize = bytes.len();
    if len == 0 {
        return Ok(None);
    }
    let bar: usize = find_sep(bytes, BAR);
    proof {
        lemma_first_sep(bytes@, BAR);
    }
    if bar >= len {
        let mut text = String::from_str(url);
        text.append(field_text);
        proof {
            lemma_encode_concat(url@, field@);
        }
        return Ok(Some(text));
    }
    let index = match parse_usize(slice_subrange(bytes, 0, bar)) {
        Some(index) => index,
        None => {
            return Err(Error::NumericParse);
        },
    };
    if index > url.as_bytes().len() || !url.is_char_boundary(index) {
        return Err(Error::UrlSuffix);
    }
    let (head, _) = url.split_at(index);
    proof {
        is_char_boundary_iff_not_is_continuation_byte(bytes@, bar as int);
    }
    let (_, rest) = field_text.split_at(bar);
    proof {
        let rest_bytes = encode_utf8(rest@);
        assert(rest_bytes[0] == BAR);
        assert(valid_utf8(rest_bytes));
        reveal_with_fuel(is_char_boundary, 2);
        assert(length_of_first_scalar(rest_bytes) == 1);
        assert(valid_utf8(pop_first_scalar(rest_bytes)));
        assert(is_char_boundary(rest_bytes, 1));
    }
    let (_, tail) = rest.split_at(1);
    let mut text = String::from_str(head);
    text.append(tail);
    proof {
        lemma_encode_concat(head@, tail@);
        assert(encode_utf8(tail@) =~= bytes@.skip(bar + 1));
        assert(encode_utf8(head@) =~= encode_utf8(url@).take(index as int));
    }
    Ok(Some(text))
}

} // verus!
