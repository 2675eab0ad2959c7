//! Where the header and the records of a document begin and end.
//!
//! The boundaries are found by comparing bytes with four literals. The
//! document as a whole is no JSON, and its end may not have arrived yet, so
//! nothing else is parsed here.

use crate::error::Error;
use vstd::prelude::*;
use vstd::slice::slice_subrange;
use vstd::utf8::is_ascii_chars_encode_utf8;

verus! {

/// The bytes `{"Filmliste":[`, with which a document begins.
pub open spec fn header_prefix() -> Seq<u8> {
    seq![0x7b, 0x22, 0x46, 0x69, 0x6c, 0x6d, 0x6c, 0x69, 0x73, 0x74, 0x65, 0x22, 0x3a, 0x5b]
}

/// The bytes `],"X":[`, which stand between the header and the first record
/// and between one record and the next.
pub open spec fn separator() -> Seq<u8> {
    seq![0x5d, 0x2c, 0x22, 0x58, 0x22, 0x3a, 0x5b]
}

/// The bytes `"X":[`, with which a record begins. They are the end of a
/// separator: a separator closes one array with `],` and opens the next record.
pub open spec fn record_prefix() -> Seq<u8> {
    seq![0x22, 0x58, 0x22, 0x3a, 0x5b]
}

/// The bytes `]}`, with which a document ends.
pub open spec fn terminator() -> Seq<u8> {
    seq![0x5d, 0x7d]
}

/// Whether `pattern` stands in `text` at the index `at`.
pub open spec fn occurs_at(text: Seq<u8>, pattern: Seq<u8>, at: int) -> bool {
    0 <= at && at + pattern.len() <= text.len() && text.subrange(at, at + pattern.len()) == pattern
}

/// Whether `at` is the first index at which `pattern` stands in `text`.
pub open spec fn first_at(text: Seq<u8>, pattern: Seq<u8>, at: int) -> bool {
    occurs_at(text, pattern, at) && forall|before: int|
        0 <= before < at ==> !occurs_at(text, pattern, before)
}

/// The first index from `from` on at which `pattern` stands in `text`.
pub open spec fn find_from(text: Seq<u8>, pattern: Seq<u8>, from: int) -> Option<int>
    decreases text.len() - from + 1,
{
    if from < 0 || from + pattern.len() > text.len() {
        None
    } else if occurs_at(text, pattern, from) {
        Some(from)
    } else {
        find_from(text, pattern, from + 1)
    }
}

/// The first index at which `pattern` stands in `text`.
pub open spec fn first_occurrence(text: Seq<u8>, pattern: Seq<u8>) -> Option<int> {
    find_from(text, pattern, 0)
}

/// What a scan for the header finds in `input`, the bytes of a document from
/// its start.
///
/// `Ok(None)` asks for more bytes: `input` is shorter than a prefix and a
/// separator, or holds no separator behind the prefix yet. An `input` that is
/// long enough and begins with other bytes than the prefix is an error.
/// Otherwise the result is the index at which the first record begins: that of
/// the record prefix inside the first separator behind the header prefix.
pub open spec fn header_scan(input: Seq<u8>) -> Result<Option<int>, Error> {
    if input.len() < header_prefix().len() + separator().len() {
        Ok(None)
    } else if input.take(header_prefix().len() as int) != header_prefix() {
        Err(Error::MalformedEnvelope)
    } else {
        match first_occurrence(input.skip(header_prefix().len() as int), separator()) {
            Some(at) => Ok(Some(header_prefix().len() + at + 2)),
            None => Ok(None),
        }
    }
}

/// What a scan for a record that another one follows finds in `input`, the
/// bytes of a document from the start of a record.
///
/// `Ok(None)` asks for more bytes: `input` is shorter than a record prefix and
/// a separator, or holds no separator behind the prefix yet. An `input` that
/// is long enough and begins with other bytes than the record prefix is an
/// error. Otherwise the result is the index at which the next record begins,
/// and the array of this record's fields with its two brackets.
pub open spec fn record_scan(input: Seq<u8>) -> Result<Option<(int, Seq<u8>)>, Error> {
    if input.len() < record_prefix().len() + separator().len() {
        Ok(None)
    } else if input.take(record_prefix().len() as int) != record_prefix() {
        Err(Error::MalformedEnvelope)
    } else {
        match first_occurrence(input.skip(record_prefix().len() as int), separator()) {
            Some(at) => Ok(
                Some(
                    (
                        record_prefix().len() + at + 2,
                        input.subrange(
                            record_prefix().len() - 1,
                            record_prefix().len() + at + 1,
                        ),
                    ),
                ),
            ),
            None => Ok(None),
        }
    }
}

/// What a scan for the last record finds in `input`, all the bytes of a
/// document from the start of its last record: the array of the record's
/// fields with its two brackets, where `input` begins with the record prefix
/// and ends with the terminator, and an error where it does not.
pub open spec fn last_record_scan(input: Seq<u8>) -> Result<Seq<u8>, Error> {
    if input.len() < record_prefix().len() + terminator().len() || input.take(
        record_prefix().len() as int,
    ) != record_prefix() || input.skip(input.len() - terminator().len()) != terminator() {
        Err(Error::MalformedEnvelope)
    } else {
        Ok(input.subrange(record_prefix().len() - 1, input.len() - 1))
    }
}

/// What a result of `parse_header` says, with its index as an integer.
pub open spec fn header_view(r: Result<Option<usize>, Error>) -> Result<Option<int>, Error> {
    match r {
        Ok(Some(next)) => Ok(Some(next as int)),
        Ok(None) => Ok(None),
        Err(e) => Err(e),
    }
}

/// What a result of `scan_item` says, with its index as an integer and its
/// slice as the bytes it holds.
pub open spec fn record_view(r: Result<Option<(usize, &[u8])>, Error>) -> Result<
    Option<(int, Seq<u8>)>,
    Error,
> {
    match r {
        Ok(Some((next, fields))) => Ok(Some((next as int, fields@))),
        Ok(None) => Ok(None),
        Err(e) => Err(e),
    }
}

/// What a result of `scan_last_item` says, with its slice as the bytes it
/// holds.
pub open spec fn last_record_view(r: Result<&[u8], Error>) -> Result<Seq<u8>, Error> {
    match r {
        Ok(fields) => Ok(fields@),
        Err(e) => Err(e),
    }
}

/// What `find_from` finds is the first occurrence from `from` on, and it
/// finds nothing only where there is none.
pub proof fn lemma_find_from(text: Seq<u8>, pattern: Seq<u8>, from: int)
    requires
        0 <= from,
    ensures
        match find_from(text, pattern, from) {
            Some(at) => from <= at && occurs_at(text, pattern, at) && forall|j: int|
                from <= j < at ==> !occurs_at(text, pattern, j),
            None => forall|j: int| from <= j ==> !occurs_at(text, pattern, j),
        },
    decreases text.len() - from + 1,
{
    if from + pattern.len() > text.len() {
    } else if occurs_at(text, pattern, from) {
    } else {
        lemma_find_from(text, pattern, from + 1);
    }
}

/// `first_occurrence` is the first index at which the pattern stands.
pub proof fn lemma_first_occurrence(text: Seq<u8>, pattern: Seq<u8>)
    ensures
        match first_occurrence(text, pattern) {
            Some(at) => first_at(text, pattern, at),
            None => forall|j: int| !occurs_at(text, pattern, j),
        },
{
    lemma_find_from(text, pattern, 0);
}

/// An index at which the pattern stands first is `first_occurrence`.
pub proof fn lemma_first_at_is_first_occurrence(text: Seq<u8>, pattern: Seq<u8>, at: int)
    requires
        first_at(text, pattern, at),
    ensures
        first_occurrence(text, pattern) == Some(at),
{
    lemma_find_from(text, pattern, 0);
    match first_occurrence(text, pattern) {
        Some(found) => {
            if found < at {
                assert(!occurs_at(text, pattern, found));
            } else if at < found {
                assert(!occurs_at(text, pattern, at));
            }
        },
        None => {
            assert(!occurs_at(text, pattern, at));
        },
    }
}

/// What is found first in a text is found first, at the same index, in every
/// text that begins with it.
pub proof fn lemma_first_occurrence_extends(text: Seq<u8>, longer: Seq<u8>, pattern: Seq<u8>)
    requires
        text.is_prefix_of(longer),
        first_occurrence(text, pattern) is Some,
    ensures
        first_occurrence(longer, pattern) == first_occurrence(text, pattern),
{
    lemma_first_occurrence(text, pattern);
    let at = first_occurrence(text, pattern).unwrap();
    assert(longer.subrange(at, at + pattern.len()) =~= text.subrange(at, at + pattern.len()));
    assert forall|before: int| 0 <= before < at implies !occurs_at(longer, pattern, before) by {
        if occurs_at(longer, pattern, before) {
            assert(text.subrange(before, before + pattern.len()) =~= longer.subrange(
                before,
                before + pattern.len(),
            ));
            assert(occurs_at(text, pattern, before));
        }
    }
    lemma_first_at_is_first_occurrence(longer, pattern, at);
}

/// A header that a window holds in full, or that is malformed, is found
/// the same in every window that begins with it.
pub proof fn lemma_header_scan_extends(input: Seq<u8>, longer: Seq<u8>)
    requires
        input.is_prefix_of(longer),
        header_scan(input) != Ok::<Option<int>, Error>(None),
    ensures
        header_scan(longer) == header_scan(input),
{
    let skipped = header_prefix().len() as int;
    assert(input.take(skipped) =~= longer.take(skipped));
    if header_scan(input) is Ok {
        assert(input.skip(skipped).is_prefix_of(longer.skip(skipped))) by {
            assert(input.skip(skipped) =~= longer.skip(skipped).subrange(
                0,
                input.skip(skipped).len() as int,
            ));
        }
        lemma_first_occurrence_extends(input.skip(skipped), longer.skip(skipped), separator());
    }
}

/// A record that a window holds in full, or whose start is malformed, is
/// found the same in every window that begins with it.
pub proof fn lemma_record_scan_extends(input: Seq<u8>, longer: Seq<u8>)
    requires
        input.is_prefix_of(longer),
        record_scan(input) != Ok::<Option<(int, Seq<u8>)>, Error>(None),
    ensures
        record_scan(longer) == record_scan(input),
{
    let skipped = record_prefix().len() as int;
    assert(input.take(skipped) =~= longer.take(skipped));
    if record_scan(input) is Ok {
        assert(input.skip(skipped).is_prefix_of(longer.skip(skipped))) by {
            assert(input.skip(skipped) =~= longer.skip(skipped).subrange(
                0,
                input.skip(skipped).len() as int,
            ));
        }
        lemma_first_occurrence(input.skip(skipped), separator());
        lemma_first_occurrence_extends(input.skip(skipped), longer.skip(skipped), separator());
        let at = first_occurrence(input.skip(skipped), separator())->Some_0;
        assert(input.subrange(skipped - 1, skipped + at + 1) =~= longer.subrange(
            skipped - 1,
            skipped + at + 1,
        ));
    }
}

/// What a scan finds lies inside its input: the first record begins behind
/// the header prefix, the next record behind the record prefix, and both
/// before the end.
pub proof fn lemma_scans_advance(input: Seq<u8>)
    ensures
        header_scan(input) matches Ok(Some(next)) ==> header_prefix().len() < next
            <= input.len() - record_prefix().len(),
        record_scan(input) matches Ok(Some((next, fields))) ==> record_prefix().len() < next
            <= input.len() - record_prefix().len(),
{
    lemma_first_occurrence(input.skip(header_prefix().len() as int), separator());
    lemma_first_occurrence(input.skip(record_prefix().len() as int), separator());
}

/// `twoway::find_bytes` returns the index at which `pattern` first stands in
/// `text`, and `None` only where it stands nowhere in it. Trusted.
pub assume_specification[ twoway::find_bytes ](text: &[u8], pattern: &[u8]) -> (r: Option<usize>)
    ensures
        r matches Some(at) ==> first_at(text@, pattern@, at as int),
        r is None ==> forall|at: int| !occurs_at(text@, pattern@, at),
;

/// Finds the first occurrence of `pattern` in `text`.
pub fn find_first(text: &[u8], pattern: &[u8]) -> (r: Option<usize>)
    ensures
        r is Some <==> first_occurrence(text@, pattern@) is Some,
        r matches Some(at) ==> first_occurrence(text@, pattern@) == Some(at as int),
{
    let r = twoway::find_bytes(text, pattern);
    proof {
        lemma_first_occurrence(text@, pattern@);
        match r {
            Some(at) => {
                lemma_first_at_is_first_occurrence(text@, pattern@, at as int);
            },
            None => {},
        }
    }
    r
}

/// Whether `input` begins with `literal`.
fn begins_with(input: &[u8], literal: &[u8]) -> (b: bool)
    requires
        literal@.len() <= input@.len(),
    ensures
        b == (input@.take(literal@.len() as int) == literal@),
{
    let len: usize = literal.len();
    let mut i: usize = 0;
    while i < len
        invariant
            len == literal@.len(),
            len <= input@.len(),
            i <= len,
            forall|j: int| 0 <= j < i ==> input@[j] == literal@[j],
        decreases len - i,
    {
        if input[i] != literal[i] {
            assert(input@.take(len as int)[i as int] != literal@[i as int]);
            return false;
        }
        i += 1;
    }
    assert(input@.take(len as int) =~= literal@);
    true
}

/// The literal with which a document begins.
fn header_prefix_bytes() -> (literal: &'static [u8])
    ensures
        literal@ == header_prefix(),
{
    let text: &'static str = "{\"Filmliste\":[";
    proof {
        reveal_strlit("{\"Filmliste\":[");
        is_ascii_chars_encode_utf8(text@);
    }
    let literal = text.as_bytes();
    assert(literal@ =~= header_prefix());
    literal
}

/// The literal between two records.
fn separator_bytes() -> (literal: &'static [u8])
    ensures
        literal@ == separator(),
{
    let text: &'static str = "],\"X\":[";
    proof {
        reveal_strlit("],\"X\":[");
        is_ascii_chars_encode_utf8(text@);
    }
    let literal = text.as_bytes();
    assert(literal@ =~= separator());
    literal
}

/// The literal with which a record begins.
fn record_prefix_bytes() -> (literal: &'static [u8])
    ensures
        literal@ == record_prefix(),
{
    let text: &'static str = "\"X\":[";
    proof {
        reveal_strlit("\"X\":[");
        is_ascii_chars_encode_utf8(text@);
    }
    let literal = text.as_bytes();
    assert(literal@ =~= record_prefix());
    literal
}

/// The literal with which a document ends.
fn terminator_bytes() -> (literal: &'static [u8])
    ensures
        literal@ == terminator(),
{
    let text: &'static str = "]}";
    proof {
        reveal_strlit("]}");
        is_ascii_chars_encode_utf8(text@);
    }
    let literal = text.as_bytes();
    assert(literal@ =~= terminator());
    literal
}

/// Looks for the end of the header in `input`, the bytes of a document
/// from its start.
///
/// Returns the index at which the first record begins, `Ok(None)` where more
/// bytes are needed to tell, and `Error::MalformedEnvelope` where `input`
/// does not begin as a document does.
pub fn parse_header(input: &[u8]) -> (r: Result<Option<usize>, Error>)
    ensures
        header_view(r) == header_scan(input@),
{
    let prefix = header_prefix_bytes();
    let suffix = separator_bytes();
    if input.len() < prefix.len() + suffix.len() {
        return Ok(None);
    }
    if !begins_with(input, prefix) {
        return Err(Error::MalformedEnvelope);
    }
    let rest = slice_subrange(input, prefix.len(), input.len());
    match find_first(rest, suffix) {
        Some(at) => {
            proof {
                lemma_first_occurrence(rest@, suffix@);
            }
            Ok(Some(prefix.len() + at + 2))
        },
        None => Ok(None),
    }
}

/// Looks for a record that another one follows in `input`, the bytes of a
/// document from the start of a record.
///
/// Returns the index at which the next record begins together with the array
/// of this record's fields, `Ok(None)` where more bytes are needed to tell, and
/// `Error::MalformedEnvelope` where `input` does not begin as a record does.
pub fn scan_item<'a>(input: &'a [u8]) -> (r: Result<Option<(usize, &'a [u8])>, Error>)
    ensures
        record_view(r) == record_scan(input@),
{
    let prefix = record_prefix_bytes();
    let suffix = separator_bytes();
    if input.len() < prefix.len() + suffix.len() {
        return Ok(None);
    }
    if !begins_with(input, prefix) {
        return Err(Error::MalformedEnvelope);
    }
    let rest = slice_subrange(input, prefix.len(), input.len());
    match find_first(rest, suffix) {
        Some(at) => {
            proof {
                lemma_first_occurrence(rest@, suffix@);
            }
            let fields = slice_subrange(input, prefix.len() - 1, prefix.len() + at + 1);
            Ok(Some((prefix.len() + at + 2, fields)))
        },
        None => Ok(None),
    }
}

/// Looks for the last record in `input`, all the bytes of a document from
/// the start of its last record.
///
/// Returns the array of the record's fields, and `Error::MalformedEnvelope`
/// where `input` does not begin as a record does or does not end as a
/// document does.
pub fn scan_last_item<'a>(input: &'a [u8]) -> (r: Result<&'a [u8], Error>)
    ensures
        last_record_view(r) == last_record_scan(input@),
{
    let prefix = record_prefix_bytes();
    let suffix = terminator_bytes();
    if input.len() < prefix.len() + suffix.len() {
        return Err(Error::MalformedEnvelope);
    }
    if !begins_with(input, prefix) {
        return Err(Error::MalformedEnvelope);
    }
    let end = slice_subrange(input, input.len() - suffix.len(), input.len());
    if !begins_with(end, suffix) {
        assert(end@.take(suffix@.len() as int) =~= end@);
        return Err(Error::MalformedEnvelope);
    }
    assert(end@.take(suffix@.len() as int) =~= end@);
    Ok(slice_subrange(input, prefix.len() - 1, input.len() - 1))
}

} // verus!
