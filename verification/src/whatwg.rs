//! The encoding_rs boundary. Each item here is trusted: its contract states
//! what encoding_rs documents, or names a result that depends only on the
//! arguments, and nothing in this file is proved.
use crate::codec::{Codec, utf16_bytes};
use encoding_rs::{CoderResult, Decoder, EncoderResult, Encoding};
use vstd::prelude::*;
use vstd::utf8::{decode_utf8, encode_utf8, valid_utf8};

verus! {

#[verifier::external_type_specification]
#[verifier::external_body]
pub struct ExEncoding(Encoding);

#[verifier::external_type_specification]
#[verifier::external_body]
pub struct ExDecoder(Decoder);

/// Why encoding_rs declined to encode a text.
#[derive(Clone, Copy, Debug, PartialEq, Eq, Structural)]
pub enum LegacyEncodeError {
    /// The encoding has no byte sequence for this character.
    Unmappable(char),
    /// The worst-case output size does not fit in `usize`.
    TooLarge,
    /// The encoder reported that its output buffer filled up.
    BufferFull,
}

/// The codecs whose encoder is encoding_rs's own: neither UTF-8, UTF-16
/// (encoding_rs has no UTF-16 encoder) nor literal ISO-8859-1.
pub open spec fn is_legacy(codec: Codec) -> bool {
    !(codec is Utf8 || codec is Utf16Le || codec is Utf16Be || codec is Latin1)
}

/// A size that the encoding_rs buffer computations cannot overflow.
pub open spec fn within_buffer_limit(len: int) -> bool {
    len <= usize::MAX / 8
}

/// The result of encoding_rs `Encoding::decode_without_bom_handling` for the
/// encoding of `codec` on complete input `bytes`: the text and whether a
/// malformed sequence was replaced.
pub uninterp spec fn whatwg_decoded(codec: Codec, bytes: Seq<u8>) -> (Seq<char>, bool);

/// The result of encoding `text` with a fresh encoding_rs encoder for `codec`,
/// sized by `max_buffer_length_from_utf8_without_replacement`, through
/// `encode_from_utf8_to_vec_without_replacement` with `last` set.
pub uninterp spec fn whatwg_encoded(codec: Codec, text: Seq<char>) -> Result<Seq<u8>, LegacyEncodeError>;

impl Codec {
    /// encoding_rs's `Encoding` for the codec. Latin-1 has deliberately
    /// literal semantics, unlike WHATWG label resolution (which maps it to
    /// Windows-1252), so it has none. Trusted: only that the result is
    /// present exactly for the codecs other than Latin-1 is stated.
    #[verifier::external_body]
    pub fn encoding(self) -> (r: Option<&'static Encoding>)
        ensures
            r is Some <==> !(self is Latin1),
    {
        Some(match self {
            Codec::Utf8 => encoding_rs::UTF_8,
            Codec::Utf16Le => encoding_rs::UTF_16LE,
            Codec::Utf16Be => encoding_rs::UTF_16BE,
            Codec::Gbk => encoding_rs::GBK,
            Codec::Gb18030 => encoding_rs::GB18030,
            Codec::Big5 => encoding_rs::BIG5,
            Codec::ShiftJis => encoding_rs::SHIFT_JIS,
            Codec::EucJp => encoding_rs::EUC_JP,
            Codec::EucKr => encoding_rs::EUC_KR,
            Codec::Windows1252 => encoding_rs::WINDOWS_1252,
            Codec::Latin1 => return None,
        })
    }
}

/// encoding_rs `Encoding::decode_without_bom_handling` for the encoding of
/// `codec`. Trusted: the result is the named `whatwg_decoded`; a reported
/// error means a REPLACEMENT CHARACTER stands in the text; for UTF-8 an error
/// is reported exactly when the bytes are not well-formed UTF-8 and otherwise
/// the text is their UTF-8 decoding; well-formed UTF-16 of a text decodes
/// back to that text without error; the text's UTF-8 length is at most three
/// bytes per input byte plus six (the largest of the decoders' worst-case
/// output sizes, Big5's). The size bound excludes the documented panic on
/// overflowing buffer arithmetic.
#[verifier::external_body]
pub(crate) fn whatwg_decode(codec: Codec, bytes: &[u8]) -> (r: (String, bool))
    requires
        !(codec is Latin1),
        within_buffer_limit(bytes@.len() as int),
    ensures
        (r.0@, r.1) == whatwg_decoded(codec, bytes@),
        r.1 ==> r.0@.contains('\u{FFFD}'),
        encode_utf8(r.0@).len() <= 3 * bytes@.len() + 6,
        codec is Utf8 ==> (r.1 <==> !valid_utf8(bytes@)),
        codec is Utf8 && valid_utf8(bytes@) ==> r.0@ == decode_utf8(bytes@),
        forall|t: Seq<char>|
            #![trigger utf16_bytes(t, false)]
            codec is Utf16Le && bytes@ == utf16_bytes(t, false) ==> r.0@ == t && !r.1,
        forall|t: Seq<char>|
            #![trigger utf16_bytes(t, true)]
            codec is Utf16Be && bytes@ == utf16_bytes(t, true) ==> r.0@ == t && !r.1,
{
    let (text, errors) = codec.encoding().unwrap().decode_without_bom_handling(bytes);
    (text.into_owned(), errors)
}

/// Encodes `text` with a fresh encoding_rs encoder for `codec`: capacity from
/// `max_buffer_length_from_utf8_without_replacement` (`None` becomes
/// `TooLarge`), then `encode_from_utf8_to_vec_without_replacement` with
/// `last` set. Trusted: the result is the named `whatwg_encoded`; an
/// unmappable character reported is one of the text's characters; the output
/// fits the capacity, which for these encoders is at most twice the UTF-8
/// length of the text plus two (GB18030's bound; the others are smaller).
#[verifier::external_body]
pub(crate) fn whatwg_encode(codec: Codec, text: &str) -> (r: Result<Vec<u8>, LegacyEncodeError>)
    requires
        is_legacy(codec),
    ensures
        match r {
            Ok(bytes) => whatwg_encoded(codec, text@) == Ok::<Seq<u8>, LegacyEncodeError>(bytes@),
            Err(e) => whatwg_encoded(codec, text@) == Err::<Seq<u8>, LegacyEncodeError>(e),
        },
        r matches Err(LegacyEncodeError::Unmappable(ch)) ==> text@.contains(ch),
        r matches Ok(bytes) ==> bytes@.len() <= 2 * encode_utf8(text@).len() + 2,
{
    let mut encoder = codec.encoding().unwrap().new_encoder();
    let Some(capacity) = encoder.max_buffer_length_from_utf8_without_replacement(text.len()) else {
        return Err(LegacyEncodeError::TooLarge);
    };
    let mut output = Vec::with_capacity(capacity);
    let (result, _) = encoder.encode_from_utf8_to_vec_without_replacement(text, &mut output, true);
    match result {
        EncoderResult::InputEmpty => Ok(output),
        EncoderResult::Unmappable(ch) => Err(LegacyEncodeError::Unmappable(ch)),
        EncoderResult::OutputFull => Err(LegacyEncodeError::BufferFull),
    }
}

/// A streaming encoding_rs decoder (without BOM handling) with a record of
/// what it was given: its codec, the bytes fed to it so far, and whether it
/// may still be used (its stream has not ended and no call stopped short of
/// its input). Only the trusted functions below touch it.
pub struct StreamDecoder {
    inner: Decoder,
    codec: Ghost<Codec>,
    fed: Ghost<Seq<u8>>,
    usable: Ghost<bool>,
}

impl StreamDecoder {
    pub closed spec fn codec(&self) -> Codec {
        self.codec@
    }

    pub closed spec fn fed(&self) -> Seq<u8> {
        self.fed@
    }

    pub closed spec fn usable(&self) -> bool {
        self.usable@
    }
}

/// What one call of encoding_rs `Decoder::decode_to_string` returns for a
/// fresh decoder of `codec` (without BOM handling) that was already given
/// `fed`, every earlier call having consumed all its input without the end
/// of the stream, when it now gets `chunk` with `last`, into a new `String`
/// of capacity `3 * chunk.len() + 32`: the text written, whether the status
/// was `InputEmpty`, and whether a malformed sequence was replaced.
pub uninterp spec fn stream_decoded(codec: Codec, fed: Seq<u8>, chunk: Seq<u8>, last: bool) -> (Seq<char>, bool, bool);

/// encoding_rs `Encoding::new_decoder_without_bom_handling` for the encoding
/// of `codec`. Trusted: the record says a fresh, usable decoder of `codec`
/// that was given nothing yet.
#[verifier::external_body]
pub(crate) fn new_stream_decoder(codec: Codec) -> (r: StreamDecoder)
    requires
        !(codec is Latin1),
    ensures
        r.codec() == codec,
        r.fed() == Seq::<u8>::empty(),
        r.usable(),
{
    StreamDecoder {
        inner: codec.encoding().unwrap().new_decoder_without_bom_handling(),
        codec: Ghost(codec),
        fed: Ghost(Seq::empty()),
        usable: Ghost(true),
    }
}

/// One call of encoding_rs `Decoder::decode_to_string` on `src` into a new
/// `String` with capacity `3 * src.len() + 32`: returns the text written,
/// whether the status was `InputEmpty`, and whether a malformed sequence was
/// replaced. Trusted: the result is the named `stream_decoded` of the
/// decoder's codec, the bytes it was given before, `src` and `last` (a
/// decoder's output depends on nothing else); the decoder has then been
/// given `src` too, and stays usable only when the call consumed all of it
/// without ending the stream (encoding_rs forbids use after the end); and
/// `decode_to_string` never grows the `String` past its capacity. Whether
/// the text of successive calls equals a one-shot decode of all the bytes
/// is not stated.
#[verifier::external_body]
pub(crate) fn decode_stream_chunk(decoder: &mut StreamDecoder, src: &[u8], last: bool) -> (r: (String, bool, bool))
    requires
        old(decoder).usable(),
        src@.len() <= usize::MAX / 4,
    ensures
        final(decoder).codec() == old(decoder).codec(),
        final(decoder).fed() == old(decoder).fed() + src@,
        final(decoder).usable() == (r.1 && !last),
        (r.0@, r.1, r.2) == stream_decoded(old(decoder).codec(), old(decoder).fed(), src@, last),
        encode_utf8(r.0@).len() <= 3 * src@.len() + 32,
{
    let mut text = String::with_capacity(src.len().saturating_mul(3) + 32);
    let (status, _, errors) = decoder.inner.decode_to_string(src, &mut text, last);
    match status {
        CoderResult::InputEmpty => (text, true, errors),
        CoderResult::OutputFull => (text, false, errors),
    }
}

} // verus!
