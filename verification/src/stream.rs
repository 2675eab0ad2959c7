//! What a parse emits, as a function of the bytes of the document.
//!
//! A parse works on a window: the bytes of the document that have arrived and
//! have not been consumed. A pass takes the header and then record after
//! record from the front of the window for as long as they are complete. The
//! laws at the end say that it does not matter in how many pieces the bytes
//! arrive.

use crate::error::Error;
use crate::record::{item_scan, last_item, lemma_record_errors, lemma_record_item_wf, ItemView};
use crate::scan::{
    header_scan, last_record_scan, lemma_header_scan_extends, lemma_record_scan_extends,
    lemma_scans_advance, record_scan, terminator,
};
use vstd::prelude::*;

verus! {

/// What one pass over a window achieves.
pub struct Pass {
    /// Whether the header has been read when the pass ends.
    pub header: bool,
    /// The number of bytes at the front of the window that the pass consumed.
    pub used: int,
    /// The items of the records that the pass read, in their order.
    pub items: Seq<ItemView>,
    /// The error that ended the pass, if one did.
    pub error: Option<Error>,
}

impl Pass {
    /// How the pass ended: with its error, if it has one.
    pub open spec fn result(self) -> Result<(), Error> {
        match self.error {
            Some(e) => Err(e),
            None => Ok(()),
        }
    }
}

/// How a parse of a whole document ends.
pub struct Outcome {
    /// The items that were emitted, in their order.
    pub items: Seq<ItemView>,
    /// Whether the document was read to its end.
    pub result: Result<(), Error>,
}

/// The first thing at the front of `window`: the header where it has not
/// been read yet (`header` is false), else a record that another one follows.
/// The result is the number of bytes that it takes and the items that it
/// gives (none for the header, one for a record); `Ok(None)` where the window
/// does not hold all of it yet.
#[verifier::opaque]
pub open spec fn step(header: bool, window: Seq<u8>) -> Result<Option<(int, Seq<ItemView>)>, Error> {
    if header {
        match item_scan(window) {
            Ok(Some((next, item))) => Ok(Some((next, seq![item]))),
            Ok(None) => Ok(None),
            Err(e) => Err(e),
        }
    } else {
        match header_scan(window) {
            Ok(Some(next)) => Ok(Some((next, Seq::empty()))),
            Ok(None) => Ok(None),
            Err(e) => Err(e),
        }
    }
}

/// The pass over `window`: one step after the other, until the window does
/// not hold the next thing in full or an error ends the pass.
pub open spec fn pass(header: bool, window: Seq<u8>) -> Pass
    decreases window.len(),
{
    match step(header, window) {
        Ok(Some((next, items))) => {
            proof {
                lemma_step_advances(header, window);
            }
            let rest = pass(true, window.skip(next));
            Pass {
                header: true,
                used: next + rest.used,
                items: items + rest.items,
                error: rest.error,
            }
        },
        Ok(None) => Pass { header, used: 0, items: Seq::empty(), error: None },
        Err(e) => Pass { header, used: 0, items: Seq::empty(), error: Some(e) },
    }
}

/// The end of a parse on `window`, which now holds all that was left of the
/// document: a pass, and then the last record, which must be all that the
/// pass leaves. A document whose header was never found is malformed.
pub open spec fn closing(header: bool, window: Seq<u8>) -> Outcome {
    let before = pass(header, window);
    match before.error {
        Some(e) => Outcome { items: before.items, result: Err(e) },
        None => if !before.header {
            Outcome { items: before.items, result: Err(Error::MalformedEnvelope) }
        } else {
            match last_item(window.skip(before.used)) {
                Ok(item) => Outcome { items: before.items.push(item), result: Ok(()) },
                Err(e) => Outcome { items: before.items, result: Err(e) },
            }
        },
    }
}

/// What a parse of the whole document `bytes` emits, and how it ends.
pub open spec fn document(bytes: Seq<u8>) -> Outcome {
    closing(false, bytes)
}

/// One pass and then another, as one: `second` is a pass over what `first`
/// left of its window, with bytes added at the end.
pub open spec fn then(first: Pass, second: Pass) -> Pass {
    Pass {
        header: second.header,
        used: first.used + second.used,
        items: first.items + second.items,
        error: second.error,
    }
}

/// A step takes at least one byte and no more than the window holds.
pub proof fn lemma_step_advances(header: bool, window: Seq<u8>)
    ensures
        step(header, window) matches Ok(Some((next, items))) ==> 0 < next <= window.len(),
{
    reveal(step);
    lemma_scans_advance(window);
}

/// A step that a window allows, and an error at its front, are the same in
/// every window that begins with it.
pub proof fn lemma_step_extends(header: bool, window: Seq<u8>, longer: Seq<u8>)
    requires
        window.is_prefix_of(longer),
        step(header, window) != Ok::<Option<(int, Seq<ItemView>)>, Error>(None),
    ensures
        step(header, longer) == step(header, window),
{
    reveal(step);
    if header {
        lemma_record_scan_extends(window, longer);
    } else {
        lemma_header_scan_extends(window, longer);
    }
}

/// A pass consumes no more than its window holds, and once the header has
/// been read it stays read.
pub proof fn lemma_pass_bounds(header: bool, window: Seq<u8>)
    ensures
        0 <= pass(header, window).used <= window.len(),
        header ==> pass(header, window).header,
    decreases window.len(),
{
    match step(header, window) {
        Ok(Some((next, items))) => {
            lemma_step_advances(header, window);
            lemma_pass_bounds(true, window.skip(next));
        },
        _ => {},
    }
}

/// A pass leaves a window on which a second pass does nothing: it has
/// stopped where no further step is possible.
pub proof fn lemma_pass_is_complete(header: bool, window: Seq<u8>)
    ensures
        pass(header, window).error is None ==> step(
            pass(header, window).header,
            window.skip(pass(header, window).used),
        ) == Ok::<Option<(int, Seq<ItemView>)>, Error>(None),
    decreases window.len(),
{
    match step(header, window) {
        Ok(Some((next, items))) => {
            lemma_step_advances(header, window);
            lemma_pass_is_complete(true, window.skip(next));
            lemma_pass_bounds(true, window.skip(next));
            let rest = pass(true, window.skip(next));
            assert(window.skip(next).skip(rest.used) =~= window.skip(next + rest.used));
        },
        Ok(None) => {
            assert(window.skip(0) =~= window);
        },
        Err(_) => {},
    }
}

/// The errors of a pass are those of an envelope, a record or a field:
/// never `Error::Decompression`, never `Error::Handoff`.
pub proof fn lemma_pass_errors(header: bool, window: Seq<u8>)
    ensures
        pass(header, window).error != Some(Error::Decompression),
        pass(header, window).error != Some(Error::Handoff),
        closing(header, window).result != Err::<(), Error>(Error::Decompression),
        closing(header, window).result != Err::<(), Error>(Error::Handoff),
    decreases window.len(),
{
    reveal(step);
    lemma_pass_bounds(header, window);
    let done = pass(header, window);
    match record_scan(window) {
        Ok(Some((_, fields))) => {
            lemma_record_errors(fields);
        },
        _ => {},
    }
    match last_record_scan(window.skip(done.used)) {
        Ok(fields) => {
            lemma_record_errors(fields);
        },
        _ => {},
    }
    match step(header, window) {
        Ok(Some((next, items))) => {
            lemma_step_advances(header, window);
            lemma_pass_errors(true, window.skip(next));
            lemma_pass_bounds(true, window.skip(next));
            assert(window.skip(next).skip(pass(true, window.skip(next)).used) =~= window.skip(
                done.used,
            ));
        },
        _ => {},
    }
}

/// Every item that a parse emits has a date of the calendar and times of
/// day.
pub proof fn lemma_items_wf(header: bool, window: Seq<u8>)
    ensures
        forall|i: int|
            0 <= i < pass(header, window).items.len() ==> (#[trigger] pass(
                header,
                window,
            ).items[i]).wf(),
        forall|i: int|
            0 <= i < closing(header, window).items.len() ==> (#[trigger] closing(
                header,
                window,
            ).items[i]).wf(),
    decreases window.len(),
{
    reveal(step);
    lemma_pass_bounds(header, window);
    let done = pass(header, window);
    match record_scan(window) {
        Ok(Some((_, fields))) => {
            lemma_record_item_wf(fields);
        },
        _ => {},
    }
    match last_record_scan(window.skip(done.used)) {
        Ok(fields) => {
            lemma_record_item_wf(fields);
        },
        _ => {},
    }
    match step(header, window) {
        Ok(Some((next, items))) => {
            lemma_step_advances(header, window);
            lemma_items_wf(true, window.skip(next));
        },
        _ => {},
    }
}

/// A pass that an error has ended is the same pass over every window that
/// begins with its window: bytes that arrive later do not undo an error.
pub proof fn lemma_failed_pass_extends(header: bool, first: Seq<u8>, second: Seq<u8>)
    requires
        pass(header, first).error is Some,
    ensures
        pass(header, first + second) == pass(header, first),
    decreases first.len(),
{
    let whole = first + second;
    assert(first.is_prefix_of(whole)) by {
        assert(first =~= whole.subrange(0, first.len() as int));
    }
    match step(header, first) {
        Ok(Some((next, items))) => {
            lemma_step_advances(header, first);
            lemma_step_extends(header, first, whole);
            lemma_failed_pass_extends(true, first.skip(next), second);
            assert(whole.skip(next) =~= first.skip(next) + second);
        },
        Ok(None) => {},
        Err(_) => {
            lemma_step_extends(header, first, whole);
        },
    }
}

/// Bytes may arrive in two pieces: a pass over the first piece, and then a
/// pass over what it left together with the second piece, emit the same
/// items, consume the same bytes and end in the same way as one pass over
/// both pieces at once.
pub proof fn lemma_pass_in_two_pieces(header: bool, first: Seq<u8>, second: Seq<u8>)
    requires
        pass(header, first).error is None,
    ensures
        pass(header, first + second) == then(
            pass(header, first),
            pass(pass(header, first).header, first.skip(pass(header, first).used) + second),
        ),
    decreases first.len(),
{
    let whole = first + second;
    let one = pass(header, first);
    match step(header, first) {
        Ok(Some((next, items))) => {
            lemma_step_advances(header, first);
            assert(first.is_prefix_of(whole)) by {
                assert(first =~= whole.subrange(0, first.len() as int));
            }
            lemma_step_extends(header, first, whole);
            let rest = pass(true, first.skip(next));
            lemma_pass_in_two_pieces(true, first.skip(next), second);
            lemma_pass_bounds(true, first.skip(next));
            assert(whole.skip(next) =~= first.skip(next) + second);
            assert(first.skip(next).skip(rest.used) =~= first.skip(one.used));
            let two = pass(one.header, first.skip(one.used) + second);
            assert(pass(header, whole).items =~= then(one, two).items);
        },
        Ok(None) => {
            assert(first.skip(0) + second =~= whole);
            let two = pass(header, whole);
            assert(then(one, two).items =~= two.items);
        },
        Err(_) => {},
    }
}

/// A document may arrive in two pieces: what a pass over the first piece
/// emits, and then what the end of the parse emits on what that pass left
/// together with the second piece, is what a parse of the whole emits, and
/// the two end in the same way.
pub proof fn lemma_document_in_two_pieces(first: Seq<u8>, second: Seq<u8>)
    requires
        pass(false, first).error is None,
    ensures
        document(first + second).items == pass(false, first).items + closing(
            pass(false, first).header,
            first.skip(pass(false, first).used) + second,
        ).items,
        document(first + second).result == closing(
            pass(false, first).header,
            first.skip(pass(false, first).used) + second,
        ).result,
{
    let whole = first + second;
    let one = pass(false, first);
    let window = first.skip(one.used) + second;
    let two = pass(one.header, window);
    lemma_pass_in_two_pieces(false, first, second);
    lemma_pass_bounds(false, first);
    lemma_pass_bounds(one.header, window);
    assert(whole.skip(one.used + two.used) =~= window.skip(two.used));
    let end = closing(one.header, window);
    if two.error is None && two.header {
        match last_item(window.skip(two.used)) {
            Ok(item) => {
                assert((one.items + two.items).push(item) =~= one.items + two.items.push(item));
            },
            Err(_) => {},
        }
    }
}

/// The bytes of `pieces`, one piece behind the other.
pub open spec fn joined(pieces: Seq<Seq<u8>>) -> Seq<u8>
    decreases pieces.len(),
{
    if pieces.len() == 0 {
        Seq::empty()
    } else {
        joined(pieces.drop_last()) + pieces.last()
    }
}

/// What the passes achieve together when a document arrives in `pieces`:
/// after each piece, one pass over what the passes before it left and the
/// piece. Once a pass has ended in an error, no piece is taken any more.
pub open spec fn pass_in_pieces(pieces: Seq<Seq<u8>>) -> Pass
    decreases pieces.len(),
{
    if pieces.len() == 0 {
        Pass { header: false, used: 0, items: Seq::empty(), error: None }
    } else {
        let before = pass_in_pieces(pieces.drop_last());
        if before.error is Some {
            before
        } else {
            then(
                before,
                pass(before.header, joined(pieces.drop_last()).skip(before.used) + pieces.last()),
            )
        }
    }
}

/// What a parser emits, and how it ends, when a document arrives in
/// `pieces` and then ends: the items of the passes, and then the last record
/// from what they left.
pub open spec fn document_in_pieces(pieces: Seq<Seq<u8>>) -> Outcome {
    let before = pass_in_pieces(pieces);
    let end = closing(before.header, joined(pieces).skip(before.used));
    match before.error {
        Some(e) => Outcome { items: before.items, result: Err(e) },
        None => Outcome { items: before.items + end.items, result: end.result },
    }
}

/// In whatever pieces bytes arrive, the passes over them read the same
/// header and records, and end in the same way, as one pass over all the
/// bytes at once.
pub proof fn lemma_pass_in_pieces(pieces: Seq<Seq<u8>>)
    ensures
        pass_in_pieces(pieces) == pass(false, joined(pieces)),
    decreases pieces.len(),
{
    if pieces.len() == 0 {
        reveal(step);
    } else {
        let before = pass_in_pieces(pieces.drop_last());
        lemma_pass_in_pieces(pieces.drop_last());
        if before.error is Some {
            lemma_failed_pass_extends(false, joined(pieces.drop_last()), pieces.last());
        } else {
            lemma_pass_in_two_pieces(false, joined(pieces.drop_last()), pieces.last());
        }
    }
}

/// In whatever pieces a document arrives, down to one byte at a time, a
/// parser emits the same items in the same order, and ends in the same way,
/// as for the document in one piece.
pub proof fn lemma_document_in_pieces(pieces: Seq<Seq<u8>>)
    ensures
        document_in_pieces(pieces) == document(joined(pieces)),
{
    let bytes = joined(pieces);
    let before = pass(false, bytes);
    lemma_pass_in_pieces(pieces);
    lemma_pass_bounds(false, bytes);
    if before.error is None {
        lemma_pass_is_complete(false, bytes);
        let rest = bytes.skip(before.used);
        assert(rest.skip(0) =~= rest);
        let end = closing(before.header, rest);
        match last_item(rest) {
            Ok(item) => {
                assert(before.items + Seq::<ItemView>::empty().push(item) =~= before.items.push(
                    item,
                ));
            },
            Err(_) => {
                assert(before.items + Seq::<ItemView>::empty() =~= before.items);
            },
        }
        assert(before.items + Seq::<ItemView>::empty() =~= before.items);
    }
}

/// A document that does not end with the terminator is never read to its
/// end: the parse fails, no item is emitted for what stands behind the last
/// record that another one follows, and the error is
/// `Error::MalformedEnvelope` unless the header or one of those records
/// was itself in error.
pub proof fn lemma_unterminated_document_fails(bytes: Seq<u8>)
    requires
        !terminator().is_suffix_of(bytes),
    ensures
        document(bytes).result is Err,
        document(bytes).items == pass(false, bytes).items,
        pass(false, bytes).error is None ==> document(bytes).result == Err::<(), Error>(
            Error::MalformedEnvelope,
        ),
{
    let before = pass(false, bytes);
    lemma_pass_bounds(false, bytes);
    if before.error is None && before.header {
        let rest = bytes.skip(before.used);
        if rest.len() >= terminator().len() {
            assert(rest.skip(rest.len() - terminator().len()) =~= bytes.subrange(
                bytes.len() - terminator().len(),
                bytes.len() as int,
            ));
        }
    }
}

} // verus!
