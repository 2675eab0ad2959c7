//! The parser: compressed bytes in, items out.

use crate::decoder::{
    decoder_accepts, decoder_buffer, decoder_complete, decoder_input, decoder_output, xz_decoded,
    Decoder,
};
use crate::error::Error;
use crate::record::{item_views, parse_item, parse_last_item, Item, ItemView};
use crate::scan::parse_header;
use crate::stream::{
    closing, document, lemma_document_in_two_pieces, lemma_pass_bounds, lemma_pass_errors,
    lemma_pass_in_two_pieces, lemma_step_advances, pass, step, Pass,
};
use vstd::prelude::*;
use vstd::slice::slice_subrange;

verus! {

/// Removes the first `*pos` bytes of the buffer, keeps the others in their
/// order, and sets `*pos` to 0.
pub fn shift_data(buf: &mut Vec<u8>, pos: &mut usize)
    requires
        *old(pos) <= old(buf)@.len(),
    ensures
        final(buf)@ == old(buf)@.skip(*old(pos) as int),
        *final(pos) == 0,
{
    let from: usize = *pos;
    let len: usize = buf.len() - from;
    let ghost before = buf@;
    if from > 0 {
        let mut i: usize = 0;
        while i < len
            invariant
                from + len == before.len(),
                from + len <= usize::MAX,
                buf@.len() == before.len(),
                i <= len,
                forall|k: int| 0 <= k < i ==> buf@[k] == before[k + from],
                forall|k: int| i <= k < buf@.len() ==> buf@[k] == before[k],
            decreases len - i,
        {
            let byte: u8 = buf[i + from];
            buf[i] = byte;
            i += 1;
        }
        buf.truncate(len);
    }
    assert(buf@ =~= before.skip(from as int));
    *pos = 0;
}

/// Makes a pass over `buffer`, the bytes of a document that have arrived
/// and have not been consumed: reads the header unless `*parsed_header` says
/// that it has been read, then record after record for as long as another one
/// follows, and adds the item of each to `out`.
///
/// Returns the number of bytes consumed, and the error that ended the pass
/// if one did. A header or record that is not complete yet ends the pass
/// without an error.
pub fn parse_buffer(buffer: &[u8], parsed_header: &mut bool, out: &mut Vec<Item>) -> (r: (
    usize,
    Result<(), Error>,
))
    ensures
        r.0 == pass(*old(parsed_header), buffer@).used,
        r.1 == pass(*old(parsed_header), buffer@).result(),
        *final(parsed_header) == pass(*old(parsed_header), buffer@).header,
        item_views(final(out)@) == item_views(old(out)@) + pass(
            *old(parsed_header),
            buffer@,
        ).items,
{
    let ghost total = pass(*parsed_header, buffer@);
    let ghost before = item_views(out@);
    let mut pos: usize = 0;
    proof {
        reveal(step);
        assert(buffer@.skip(0) =~= buffer@);
        assert(before + Seq::<ItemView>::empty() =~= before);
    }
    if !*parsed_header {
        match parse_header(buffer) {
            Err(e) => {
                return (0, Err(e));
            },
            Ok(None) => {
                return (0, Ok(()));
            },
            Ok(Some(next)) => {
                proof {
                    lemma_step_advances(false, buffer@);
                    let rest = pass(true, buffer@.skip(next as int));
                    assert(Seq::<ItemView>::empty() + rest.items =~= rest.items);
                }
                pos = next;
                *parsed_header = true;
            },
        }
    }
    loop
        invariant
            total == pass(*old(parsed_header), buffer@),
            before == item_views(old(out)@),
            pos <= buffer@.len(),
            *parsed_header,
            total.header,
            total.used == pos + pass(true, buffer@.skip(pos as int)).used,
            total.error == pass(true, buffer@.skip(pos as int)).error,
            before + total.items == item_views(out@) + pass(true, buffer@.skip(pos as int)).items,
        decreases buffer@.len() - pos,
    {
        let window = slice_subrange(buffer, pos, buffer.len());
        proof {
            reveal(step);
            assert(window@ =~= buffer@.skip(pos as int));
            lemma_step_advances(true, window@);
        }
        match parse_item(window) {
            Err(e) => {
                assert(item_views(out@) + Seq::<ItemView>::empty() =~= item_views(out@));
                return (pos, Err(e));
            },
            Ok(None) => {
                assert(item_views(out@) + Seq::<ItemView>::empty() =~= item_views(out@));
                return (pos, Ok(()));
            },
            Ok(Some((next, item))) => {
                proof {
                    let rest = pass(true, window@.skip(next as int));
                    assert(window@.skip(next as int) =~= buffer@.skip(pos + next));
                    assert(item_views(out@.push(item)) =~= item_views(out@).push(item@));
                    assert(item_views(out@) + (seq![item@] + rest.items) =~= item_views(
                        out@,
                    ).push(item@) + rest.items);
                }
                pos = pos + next;
                out.push(item);
            },
        }
    }
}

/// Ends a parse on `buffer`, which holds all that was left of the document:
/// makes a pass as `parse_buffer` does, and then reads the last record, which
/// must be all that the pass leaves, and adds its item to `out`.
///
/// Returns the error of the pass; `Error::MalformedEnvelope` where the header
/// was never found or what the pass leaves does not begin as a record does
/// and end as a document does; or the error of the last record's fields.
pub fn finish_buffer(buffer: &[u8], parsed_header: bool, out: &mut Vec<Item>) -> (r: Result<
    (),
    Error,
>)
    ensures
        r == closing(parsed_header, buffer@).result,
        item_views(final(out)@) == item_views(old(out)@) + closing(parsed_header, buffer@).items,
{
    let mut header: bool = parsed_header;
    let ghost before = item_views(out@);
    let (used, passed) = parse_buffer(buffer, &mut header, out);
    proof {
        lemma_pass_bounds(parsed_header, buffer@);
    }
    match passed {
        Err(e) => {
            return Err(e);
        },
        Ok(()) => {},
    }
    if !header {
        return Err(Error::MalformedEnvelope);
    }
    let rest = slice_subrange(buffer, used, buffer.len());
    assert(rest@ =~= buffer@.skip(used as int));
    match parse_last_item(rest) {
        Ok(item) => {
            proof {
                let passed_items = pass(parsed_header, buffer@).items;
                assert(item_views(out@.push(item)) =~= item_views(out@).push(item@));
                assert((before + passed_items).push(item@) =~= before + passed_items.push(item@));
            }
            out.push(item);
            Ok(())
        },
        Err(e) => Err(e),
    }
}

/// An incremental parser of one compressed document.
///
/// Compressed bytes go in with `parse`, in the order in which they arrive and
/// in pieces of any size; `finish` ends the document. Each call adds the items
/// that it has completed to a vector of the caller. A parser serves one
/// document: after an error it is not used again.
pub struct Parser {
    decoder: Decoder,
    pos: usize,
    parsed_header: bool,
}

impl Parser {
    /// The bytes that the parser retains: decompressed, and not discarded
    /// yet.
    pub closed spec fn buffer(&self) -> Seq<u8> {
        decoder_buffer(self.decoder)
    }

    /// The number of bytes at the front of the buffer that have been
    /// consumed.
    pub closed spec fn cursor(&self) -> int {
        self.pos as int
    }

    /// Whether the header has been read.
    pub closed spec fn header_done(&self) -> bool {
        self.parsed_header
    }

    /// All the compressed bytes that the parser has taken so far.
    pub closed spec fn compressed(&self) -> Seq<u8> {
        decoder_input(self.decoder)
    }

    /// All the bytes of the document that the decompressor has handed out so
    /// far.
    pub closed spec fn received(&self) -> Seq<u8> {
        decoder_output(self.decoder)
    }

    /// Whether the decompressor takes the piece `data` next: the compressed
    /// bytes taken so far and `data` are the start of one xz stream, as far
    /// as the decompressor can tell.
    pub closed spec fn accepts(&self, data: Seq<u8>) -> bool {
        decoder_accepts(self.decoder, data)
    }

    /// Whether the compressed bytes taken so far are a whole xz stream.
    pub closed spec fn complete(&self) -> bool {
        decoder_complete(self.decoder)
    }

    /// What a pass over all the bytes received so far achieves.
    pub open spec fn progress(&self) -> Pass {
        pass(false, self.received())
    }

    /// The items emitted so far.
    pub open spec fn emitted(&self) -> Seq<ItemView> {
        self.progress().items
    }

    /// The bytes received so far that stand behind the last record that was
    /// read in full.
    pub open spec fn unconsumed(&self) -> Seq<u8> {
        self.received().skip(self.progress().used)
    }

    /// The parser between two calls: no error has occurred, and it retains
    /// exactly the unconsumed bytes.
    pub open spec fn wf(&self) -> bool {
        &&& self.progress().error is None
        &&& self.header_done() == self.progress().header
        &&& self.cursor() == 0
        &&& self.buffer() == self.unconsumed()
    }

    /// Whether this parser is `before` after it has taken the piece `data`
    /// and has made a pass that ended as `r` says: the piece is added to the
    /// compressed bytes, the bytes received have only grown, and the pass over
    /// them ends as `r` says.
    pub open spec fn follows(&self, before: Parser, data: Seq<u8>, r: Result<(), Error>) -> bool {
        &&& self.compressed() == before.compressed() + data
        &&& before.received().is_prefix_of(self.received())
        &&& r == self.progress().result()
        &&& r is Ok ==> self.wf()
    }

    /// Whether the document `bytes` ends with the result `r` when this parser
    /// reads the rest of it and adds to the items `before` all that it has
    /// not emitted yet, so that they are `after`: `bytes` begin with the bytes
    /// received, and the items and the result are those of the document.
    pub open spec fn ends_with(
        &self,
        bytes: Seq<u8>,
        before: Seq<ItemView>,
        after: Seq<ItemView>,
        r: Result<(), Error>,
    ) -> bool {
        &&& self.received().is_prefix_of(bytes)
        &&& r == document(bytes).result
        &&& after == before + document(bytes).items.skip(self.emitted().len() as int)
    }

    /// A parser for a new document.
    pub fn new() -> (parser: Parser)
        ensures
            parser.wf(),
            parser.compressed() == Seq::<u8>::empty(),
            parser.received() == Seq::<u8>::empty(),
    {
        let parser = Parser { decoder: Decoder::new(), pos: 0, parsed_header: false };
        proof {
            reveal(step);
            assert(parser.received().skip(0) =~= parser.received());
        }
        parser
    }

    /// The number of bytes that the parser retains.
    pub fn retained(&self) -> (len: usize)
        ensures
            len == self.buffer().len(),
    {
        self.decoder.buffer().len()
    }

    /// Takes the next piece of the compressed document, and adds to `out` the
    /// items of the records that are complete with it.
    ///
    /// Returns `Error::Decompression` exactly where the decompressor does
    /// not accept the piece; then nothing is emitted. Otherwise a pass is
    /// made over the bytes that the decompressor has handed out, and its
    /// error is returned if it has one. After `Ok` the parser retains exactly
    /// the bytes received that no record read so far holds.
    pub fn parse(&mut self, data: &[u8], out: &mut Vec<Item>) -> (r: Result<(), Error>)
        requires
            old(self).wf(),
        ensures
            r == Err::<(), Error>(Error::Decompression) <==> !old(self).accepts(data@),
            r == Err::<(), Error>(Error::Decompression) ==> final(out)@ == old(out)@,
            r != Err::<(), Error>(Error::Decompression) ==> final(self).follows(
                *old(self),
                data@,
                r,
            ),
            r != Err::<(), Error>(Error::Decompression) ==> item_views(final(out)@) == item_views(
                old(out)@,
            ) + final(self).emitted().skip(old(self).emitted().len() as int),
            r is Ok ==> final(self).buffer() == final(self).unconsumed(),
    {
        let ghost seen = self.received();
        let ghost done = pass(false, seen);
        let ghost kept = self.buffer();
        proof {
            lemma_pass_bounds(false, seen);
        }
        if !self.decoder.write_all(data) {
            return Err(Error::Decompression);
        }
        let ghost window = self.buffer();
        let ghost fresh = window.skip(kept.len() as int);
        proof {
            assert(window =~= kept + fresh);
            assert(seen.is_prefix_of(seen + fresh)) by {
                assert(seen =~= (seen + fresh).subrange(0, seen.len() as int));
            }
            lemma_pass_in_two_pieces(false, seen, fresh);
            lemma_pass_bounds(done.header, window);
            lemma_pass_errors(done.header, window);
            let more = pass(done.header, window);
            assert((done.items + more.items).skip(done.items.len() as int) =~= more.items);
            assert((seen + fresh).skip(done.used + more.used) =~= window.skip(more.used));
        }
        let buffer = self.decoder.buffer();
        let (used, passed) = parse_buffer(buffer.as_slice(), &mut self.parsed_header, out);
        self.pos = used;
        match passed {
            Err(e) => Err(e),
            Ok(()) => {
                shift_data(self.decoder.buffer_mut(), &mut self.pos);
                Ok(())
            },
        }
    }

    /// Ends the document: takes what the decompressor still holds, adds to
    /// `out` the items of the records that are complete with it, and then
    /// that of the last record.
    ///
    /// Returns `Error::Decompression` exactly where the compressed bytes
    /// taken are not a whole stream: it is corrupt or ends inside a frame.
    /// Then nothing is emitted, not even for records that are complete.
    /// Otherwise the document is what the compressed bytes decode to: all that
    /// a parse of it emits and that has not been emitted yet is emitted now,
    /// and the result is that of the parse of the document.
    pub fn finish(self, out: &mut Vec<Item>) -> (r: Result<(), Error>)
        requires
            self.wf(),
        ensures
            r == Err::<(), Error>(Error::Decompression) <==> !self.complete(),
            r == Err::<(), Error>(Error::Decompression) ==> final(out)@ == old(out)@,
            r != Err::<(), Error>(Error::Decompression) ==> self.ends_with(
                xz_decoded(self.compressed()),
                item_views(old(out)@),
                item_views(final(out)@),
                r,
            ),
    {
        let ghost seen = self.received();
        let ghost done = pass(false, seen);
        let ghost kept = self.buffer();
        let ghost before = item_views(out@);
        let header: bool = self.parsed_header;
        let buffer = match self.decoder.finish() {
            Some(buffer) => buffer,
            None => {
                return Err(Error::Decompression);
            },
        };
        let r = finish_buffer(buffer.as_slice(), header, out);
        proof {
            let fresh = buffer@.skip(kept.len() as int);
            let bytes = seen + fresh;
            assert(buffer@ =~= kept + fresh);
            assert(seen.is_prefix_of(bytes)) by {
                assert(seen =~= bytes.subrange(0, seen.len() as int));
            }
            lemma_document_in_two_pieces(seen, fresh);
            let end = closing(done.header, buffer@);
            assert((done.items + end.items).skip(done.items.len() as int) =~= end.items);
            lemma_pass_errors(done.header, buffer@);
            assert(self.ends_with(bytes, before, item_views(out@), r));
        }
        r
    }
}

/// What a parser emits in all does not depend on the pieces in which it has
/// taken its document: the bytes that a document decodes to begin with the
/// bytes that the parser has received, so the items that it has emitted and
/// those that the end of the document adds are, together, the items of the
/// document.
pub proof fn lemma_items_of_document(parser: Parser, bytes: Seq<u8>, after: Seq<ItemView>, r: Result<(), Error>)
    requires
        parser.wf(),
        parser.ends_with(bytes, parser.emitted(), after, r),
    ensures
        after == document(bytes).items,
        r == document(bytes).result,
{
    let seen = parser.received();
    let fresh = bytes.skip(seen.len() as int);
    assert(bytes =~= seen + fresh);
    lemma_document_in_two_pieces(seen, fresh);
    let done = pass(false, seen);
    let end = closing(done.header, seen.skip(done.used) + fresh);
    assert((done.items + end.items).skip(done.items.len() as int) =~= end.items);
}

/// Two parsers that have taken the same compressed bytes, in whatever
/// pieces each, and have handed on every item that they emitted, end their
/// document with the same items and the same result.
pub proof fn lemma_pieces_do_not_matter(
    one: Parser,
    other: Parser,
    one_items: Seq<ItemView>,
    other_items: Seq<ItemView>,
    one_result: Result<(), Error>,
    other_result: Result<(), Error>,
)
    requires
        one.wf(),
        other.wf(),
        one.compressed() == other.compressed(),
        one.ends_with(xz_decoded(one.compressed()), one.emitted(), one_items, one_result),
        other.ends_with(xz_decoded(other.compressed()), other.emitted(), other_items, other_result),
    ensures
        one_items == other_items,
        one_result == other_result,
{
    lemma_items_of_document(one, xz_decoded(one.compressed()), one_items, one_result);
    lemma_items_of_document(other, xz_decoded(other.compressed()), other_items, other_result);
}

} // verus!
