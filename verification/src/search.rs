//! Typed repair steps: text is encoded to bytes and bytes are decoded to
//! text, one codec at a time, with every transition recorded.
use crate::codec::{codec_name, decode, decode_text_spec, encode, encode_spec, round_trips, Codec};
use crate::evidence::{hex_preview, hex_preview_spec, text_preview, text_preview_spec};
use crate::models::TransformationStep;
use crate::whatwg::within_buffer_limit;
use vstd::prelude::*;
use vstd::utf8::encode_utf8;

verus! {

/// Encoding and decoding consume different states. This is also useful to
/// consumers replaying an inspected path without confusing text and bytes.
#[derive(Clone, Debug, PartialEq, Eq)]
pub enum DataState {
    Bytes(Vec<u8>),
    Text(String),
}

/// The step recorded for encoding `text` to `bytes`.
pub open spec fn is_encode_step(step: TransformationStep, text: Seq<char>, bytes: Seq<u8>, codec: Codec, lossy: bool) -> bool {
    &&& step.operation@ == "encode"@
    &&& step.encoding@ == codec_name(codec)
    &&& step.input_type@ == "text"@
    &&& step.output_type@ == "bytes"@
    &&& step.input_preview@ == text_preview_spec(text, 160)
    &&& step.output_preview@ == hex_preview_spec(bytes, 48)
    &&& step.input_size == encode_utf8(text).len() as usize
    &&& step.output_size == bytes.len()
    &&& step.lossy == lossy
    &&& step.replacement_count == 0
}

/// The step recorded for decoding `bytes` to `text`.
pub open spec fn is_decode_step(
    step: TransformationStep,
    bytes: Seq<u8>,
    text: Seq<char>,
    codec: Codec,
    lossy: bool,
    replacement_count: nat,
) -> bool {
    &&& step.operation@ == "decode"@
    &&& step.encoding@ == codec_name(codec)
    &&& step.input_type@ == "bytes"@
    &&& step.output_type@ == "text"@
    &&& step.input_preview@ == hex_preview_spec(bytes, 48)
    &&& step.output_preview@ == text_preview_spec(text, 160)
    &&& step.input_size == bytes.len()
    &&& step.output_size == encode_utf8(text).len() as usize
    &&& step.lossy == lossy
    &&& step.replacement_count == replacement_count
}

fn owned(s: &str) -> (r: String)
    ensures
        r@ == s@,
{
    s.to_owned()
}

pub fn encode_step(text: &str, bytes: &[u8], codec: Codec, lossy: bool) -> (r: TransformationStep)
    ensures
        is_encode_step(r, text@, bytes@, codec, lossy),
{
    TransformationStep {
        operation: owned("encode"),
        encoding: owned(codec.name()),
        input_type: owned("text"),
        output_type: owned("bytes"),
        input_preview: text_preview(text, 160),
        output_preview: hex_preview(bytes, 48),
        input_size: text.len(),
        output_size: bytes.len(),
        lossy,
        replacement_count: 0,
    }
}

pub fn decode_step(bytes: &[u8], decoded: &crate::codec::Decoded, codec: Codec) -> (r: TransformationStep)
    ensures
        is_decode_step(
            r,
            bytes@,
            decoded.text@,
            codec,
            decoded.had_errors || !decoded.round_trip,
            decoded.replacement_count as nat,
        ),
{
    TransformationStep {
        operation: owned("decode"),
        encoding: owned(codec.name()),
        input_type: owned("bytes"),
        output_type: owned("text"),
        input_preview: hex_preview(bytes, 48),
        output_preview: text_preview(decoded.text.as_str(), 160),
        input_size: bytes.len(),
        output_size: decoded.text.as_str().len(),
        lossy: decoded.had_errors || !decoded.round_trip,
        replacement_count: decoded.replacement_count,
    }
}

/// Inputs small enough for every buffer computation on the way.
pub open spec fn state_within_limits(state: DataState) -> bool {
    match state {
        DataState::Text(text) => encode_utf8(text@).len() <= usize::MAX / 32,
        DataState::Bytes(bytes) => within_buffer_limit(bytes@.len() as int),
    }
}

/// What `transform` returns for a state: encoding a text gives bytes, marked
/// lossy when they do not decode back to the same text; decoding bytes gives
/// text, marked lossy on malformed input or a failed byte round trip.
pub open spec fn transform_result(
    state: DataState,
    codec: Codec,
    r: Result<(DataState, TransformationStep), String>,
) -> bool {
    match state {
        DataState::Text(text) => match encode_spec(codec, text@) {
            Ok(bytes) => r matches Ok((DataState::Bytes(out), step)) && out@ == bytes
                && is_encode_step(step, text@, bytes, codec, decode_text_spec(bytes, codec).0 != text@),
            Err(message) => r matches Err(e) && e@ == message,
        },
        DataState::Bytes(bytes) => {
            let (text, had_errors) = decode_text_spec(bytes@, codec);
            &&& r matches Ok((DataState::Text(out), step))
            &&& out@ == text
            &&& is_decode_step(
                step,
                bytes@,
                text,
                codec,
                had_errors || !round_trips(bytes@, codec, text, had_errors),
                crate::strings::count_char(text, '\u{FFFD}'),
            )
        },
    }
}

/// Encoding a text with `transform` and decoding the bytes with the same
/// codec gives the text back when the encode step records no loss; the
/// decode step names the codec and records both sizes.
pub proof fn lemma_transform_round_trip(
    start: DataState,
    codec: Codec,
    first: Result<(DataState, TransformationStep), String>,
    second: Result<(DataState, TransformationStep), String>,
)
    requires
        start is Text,
        transform_result(start, codec, first),
        first matches Ok((_, s1)) && !s1.lossy,
        transform_result(first->Ok_0.0, codec, second),
    ensures
        first->Ok_0.0 matches DataState::Bytes(b) && second matches Ok((DataState::Text(out), s2)) && out@
            == start->Text_0@ && s2.operation@ == "decode"@ && s2.encoding@ == codec_name(codec) && s2.input_size
            == b@.len() && s2.output_size == encode_utf8(out@).len() as usize,
{
}

/// Applies one codec to a state: encodes text or decodes bytes.
pub fn transform(state: DataState, codec: Codec) -> (r: Result<(DataState, TransformationStep), String>)
    requires
        state_within_limits(state),
    ensures
        transform_result(state, codec, r),
{
    match state {
        DataState::Text(text) => {
            let bytes = match encode(text.as_str(), codec) {
                Ok(bytes) => bytes,
                Err(e) => return Err(e),
            };
            let round_trip = decode(bytes.as_slice(), codec).text == text;
            let step = encode_step(text.as_str(), bytes.as_slice(), codec, !round_trip);
            Ok((DataState::Bytes(bytes), step))
        },
        DataState::Bytes(bytes) => {
            let decoded = decode(bytes.as_slice(), codec);
            let step = decode_step(bytes.as_slice(), &decoded, codec);
            Ok((DataState::Text(decoded.text), step))
        },
    }
}

/// 64-bit FNV-1a of `bytes`.
pub open spec fn fnv1a(bytes: Seq<u8>) -> u64
    decreases bytes.len(),
{
    if bytes.len() == 0 {
        0xcbf29ce484222325
    } else {
        (((fnv1a(bytes.drop_last()) ^ (bytes.last() as u64)) as nat * 0x100000001b3nat)
            % 0x1_0000_0000_0000_0000nat) as u64
    }
}

/// FNV is used only as an index. Hash matches are followed by exact
/// equality, so collisions cannot merge evidence or candidate states.
pub fn stable_hash(bytes: &[u8]) -> (r: u64)
    ensures
        r == fnv1a(bytes@),
{
    let mut value: u64 = 0xcbf29ce484222325;
    let mut i: usize = 0;
    while i < bytes.len()
        invariant
            i <= bytes@.len(),
            value == fnv1a(bytes@.take(i as int)),
        decreases bytes@.len() - i,
    {
        assert(bytes@.take(i + 1).drop_last() =~= bytes@.take(i as int));
        value = (value ^ (bytes[i] as u64)).wrapping_mul(0x100000001b3);
        i = i + 1;
    }
    assert(bytes@.take(bytes@.len() as int) =~= bytes@);
    value
}

} // verus!
