//! The decompressor, and the buffer into which it writes.

use vstd::prelude::*;

verus! {

/// A streaming xz decompressor that writes what it decodes to the end of a
/// buffer of bytes, which it owns: an `xz2::write::XzDecoder` over a `Vec<u8>`.
///
/// The decompressor itself is opaque here. The contracts speak of its buffer
/// and of the bytes that have gone in and come out so far.
#[verifier::external_body]
pub struct Decoder {
    inner: xz2::write::XzDecoder<Vec<u8>>,
}

/// The bytes in the buffer of `decoder`: what it has handed out, as far as
/// its owner has left it there.
pub uninterp spec fn decoder_buffer(decoder: Decoder) -> Seq<u8>;

/// All the compressed bytes that `decoder` has taken so far.
pub uninterp spec fn decoder_input(decoder: Decoder) -> Seq<u8>;

/// All the bytes that `decoder` has handed out so far, whether they are
/// still in its buffer or not.
pub uninterp spec fn decoder_output(decoder: Decoder) -> Seq<u8>;

/// The bytes that the xz stream `compressed` decodes to: all that the
/// decompressor has handed out when it has taken the stream and is finished.
pub uninterp spec fn xz_decoded(compressed: Seq<u8>) -> Seq<u8>;

/// Whether `decoder`, in the state in which it is, takes all of `data` when
/// they are written to it: they continue its stream without an error that it
/// detects, and do not stand behind the end of the stream.
pub uninterp spec fn decoder_accepts(decoder: Decoder, data: Seq<u8>) -> bool;

/// Whether `decoder`, in the state in which it is, can be finished: the
/// bytes that it has taken are a whole stream.
pub uninterp spec fn decoder_complete(decoder: Decoder) -> bool;

impl Decoder {
    /// Calls `xz2::write::XzDecoder::new` with an empty buffer. Trusted: the
    /// new decompressor has that empty buffer, and has neither taken nor
    /// handed out a byte.
    #[verifier::external_body]
    pub(crate) fn new() -> (decoder: Decoder)
        ensures
            decoder_buffer(decoder) == Seq::<u8>::empty(),
            decoder_input(decoder) == Seq::<u8>::empty(),
            decoder_output(decoder) == Seq::<u8>::empty(),
    {
        Decoder { inner: xz2::write::XzDecoder::new(Vec::new()) }
    }

    /// Calls `xz2::write::XzDecoder::get_ref`. Trusted: it hands out the
    /// buffer. A decompressor is given up when it is finished, so the one
    /// here still has its buffer.
    #[verifier::external_body]
    pub(crate) fn buffer(&self) -> (buffer: &Vec<u8>)
        ensures
            buffer@ == decoder_buffer(*self),
    {
        self.inner.get_ref()
    }

    /// Calls `xz2::write::XzDecoder::get_mut`. Trusted: it hands out the
    /// buffer, and what the caller leaves in it is the buffer from then on.
    /// The decompressor never reads its buffer, so nothing else changes.
    #[verifier::external_body]
    pub(crate) fn buffer_mut(&mut self) -> (buffer: &mut Vec<u8>)
        ensures
            buffer@ == decoder_buffer(*old(self)),
            decoder_buffer(*final(self)) == final(buffer)@,
            decoder_input(*final(self)) == decoder_input(*old(self)),
            decoder_output(*final(self)) == decoder_output(*old(self)),
    {
        self.inner.get_mut()
    }

    /// Calls `std::io::Write::write_all` of the decompressor and says
    /// whether it accepted the bytes. Trusted: its answer depends on the
    /// state of the decompressor and on `data` alone, and is named
    /// `decoder_accepts`; whatever it answers, it has only added bytes at the
    /// end of its buffer, and these are the bytes that it has handed out more;
    /// where it accepts, it has taken all of `data`.
    #[verifier::external_body]
    pub(crate) fn write_all(&mut self, data: &[u8]) -> (accepted: bool)
        ensures
            accepted == decoder_accepts(*old(self), data@),
            decoder_buffer(*old(self)).is_prefix_of(decoder_buffer(*final(self))),
            decoder_output(*final(self)) == decoder_output(*old(self)) + decoder_buffer(
                *final(self),
            ).skip(decoder_buffer(*old(self)).len() as int),
            accepted ==> decoder_input(*final(self)) == decoder_input(*old(self)) + data@,
    {
        std::io::Write::write_all(&mut self.inner, data).is_ok()
    }

    /// Calls `xz2::write::XzDecoder::finish` and gives the decompressor up;
    /// `None` stands for its error. Trusted: whether it returns a buffer
    /// depends on the state of the decompressor alone, and is named
    /// `decoder_complete`; the buffer that it returns is the one it had with
    /// bytes added at the end, and with these the decompressor has handed out
    /// all that the stream it has taken decodes to.
    #[verifier::external_body]
    pub(crate) fn finish(self) -> (buffer: Option<Vec<u8>>)
        ensures
            buffer is Some <==> decoder_complete(self),
            buffer matches Some(bytes) ==> decoder_buffer(self).is_prefix_of(bytes@),
            buffer matches Some(bytes) ==> decoder_output(self) + bytes@.skip(
                decoder_buffer(self).len() as int,
            ) == xz_decoded(decoder_input(self)),
    {
        let mut decoder = self;
        decoder.inner.finish().ok()
    }
}

} // verus!
