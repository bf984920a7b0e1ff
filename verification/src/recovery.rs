//! The decisions of the bounded repair search, one state at a time: its
//! limits, which interpretations start it, which states may be expanded,
//! which encode → decode repairs are admissible and what a new state
//! records. `beam` puts them together.
use crate::codec::{decode, decode_text_spec, encode, encode_spec, round_trips, Codec, Decoded};
use crate::evidence::{
    control_count, metrics, metrics_of, null_layout, null_layout_spec, Metrics, NullLayout,
};

use crate::models::TransformationStep;
use crate::search::{decode_step, encode_step, is_decode_step, is_encode_step};
use crate::strings::{chars_of, count_char, str_equal};

use crate::utf8check::{check_utf8, Utf8Check};

use vstd::prelude::*;
use vstd::utf8::{encode_utf8, valid_utf8};

verus! {

/// Most repair pairs on a path.
pub const MAX_DEPTH: usize = 3;
/// States kept per frontier.
pub const BEAM_WIDTH: usize = 12;
/// Candidates reported.
pub const MAX_CANDIDATES: usize = 12;
/// Unique states kept.
pub const MAX_STATES: usize = 1024;
/// Decodes examined at most.
pub const MAX_EXPLORED: usize = 4096;
/// Work budget in bytes that scales the examined decodes down for large inputs.
pub const MAX_SEARCH_WORK_BYTES: usize = 8 * 1024 * 1024;
/// Largest intermediate text or byte sequence a repair may produce.
pub const MAX_TRANSFORM_BYTES: usize = 128 * 1024;

/// The examined-decode budget for an input of `len` bytes: work proportional
/// to a fixed byte budget, at least 192 and at most `MAX_EXPLORED`.
pub open spec fn search_budget_spec(len: nat) -> nat {
    let per = 8 * 1024 * 1024 / (if len >= 1 { len } else { 1 });
    let floor = if per >= 192 { per } else { 192 };
    if floor <= 4096 { floor } else { 4096 }
}

pub fn search_budget(len: usize) -> (r: usize)
    ensures
        r == search_budget_spec(len as nat),
{
    let per = MAX_SEARCH_WORK_BYTES / if len >= 1 { len } else { 1 };
    let floor = if per >= 192 { per } else { 192 };
    if floor <= MAX_EXPLORED { floor } else { MAX_EXPLORED }
}

/// The decode budget lies between 192 and `MAX_EXPLORED` and never grows
/// with the size of the input.
pub proof fn lemma_budget_shrinks(a: nat, b: nat)
    requires
        a <= b,
    ensures
        192 <= search_budget_spec(a) <= MAX_EXPLORED,
        search_budget_spec(b) <= search_budget_spec(a),
{
    let da = if a >= 1 { a } else { 1 };
    let db = if b >= 1 { b } else { 1 };
    vstd::arithmetic::div_mod::lemma_div_is_ordered_by_denominator(8 * 1024 * 1024int, da as int, db as int);
}

/// A hypothesis of the search: a text and the path that produced it.
pub struct RecoveryState {
    pub text: String,
    pub steps: Vec<TransformationStep>,
    pub depth: usize,
    pub reversible: bool,
    pub lossy: bool,
    pub inherited_loss: usize,
    pub preserve: bool,
    pub detector_match: bool,
    pub bom_or_pattern: bool,
    pub unsupported_utf16: bool,
    pub validated_unicode: bool,
    pub alternatives: usize,
}

/// Replacement characters already in the evidence count as loss for every
/// interpretation when the evidence is Unicode: pasted text, valid UTF-8
/// bytes, or bytes with a BOM. Decoding the UTF-8 spelling of U+FFFD as a
/// legacy encoding must not launder an observed loss.
pub open spec fn inherited_loss_spec(raw: Option<Seq<u8>>, has_bom: bool, replacements: nat) -> nat {
    let unicode = match raw {
        None => true,
        Some(bytes) => valid_utf8(bytes),
    };
    if unicode || has_bom { replacements } else { 0 }
}

pub fn inherited_loss(raw: Option<&[u8]>, has_bom: bool, replacements: usize) -> (r: usize)
    ensures
        r == inherited_loss_spec(
            match raw {
                Some(b) => Some(b@),
                None => None,
            },
            has_bom,
            replacements as nat,
        ),
{
    let unicode = match raw {
        None => true,
        Some(bytes) => check_utf8(bytes) == Utf8Check::Valid,
    };
    if unicode || has_bom { replacements } else { 0 }
}

/// Which replacement loss the evidence passes on: bytes that are neither
/// valid UTF-8 nor behind a byte-order mark pass on none, whatever U+FFFD
/// characters their UTF-8 reading holds; pasted text, valid UTF-8 and bytes
/// behind a byte-order mark pass on every one of them.
pub proof fn law_inherited_loss(raw: Option<Seq<u8>>, has_bom: bool, replacements: nat)
    ensures
        raw is Some && !valid_utf8(raw->0) && !has_bom ==> inherited_loss_spec(raw, has_bom, replacements) == 0,
        raw is None || has_bom || (raw is Some && valid_utf8(raw->0)) ==> inherited_loss_spec(raw, has_bom, replacements)
            == replacements,
{
}

/// A reading of bytes that are not UTF-8 and carry no byte-order mark,
/// whose decode round-trips exactly, starts the search reversible and not
/// lossy, whatever replacement characters the UTF-8 reading of the bytes
/// holds.
pub proof fn law_exact_legacy_reading_is_reversible(
    s: &RecoveryState,
    bytes: Seq<u8>,
    codec: Codec,
    decoded: &Decoded,
    replacements: nat,
    original_clean: bool,
    detector: Option<Codec>,
    utf16_pattern: Option<Codec>,
)
    requires
        !valid_utf8(bytes),
        decoded.round_trip == round_trips(bytes, codec, decoded.text@, decoded.had_errors),
        decoded.round_trip,
        is_seed_state(
            s,
            bytes,
            codec,
            decoded,
            inherited_loss_spec(Some(bytes), false, replacements),
            original_clean,
            None,
            detector,
            utf16_pattern,
        ),
    ensures
        s.reversible,
        !s.lossy,
        s.inherited_loss == 0,
{
}

/// Clean, valid Unicode has a strong unchanged baseline: only one repair
/// layer is inspected for it. Visible corruption gets the full depth.
pub open spec fn clean_unicode_source_spec(original_clean: bool, has_bom: bool, has_pattern: bool, raw: Option<Seq<u8>>) -> bool {
    original_clean && (has_bom || has_pattern || match raw {
        None => true,
        Some(bytes) => valid_utf8(bytes),
    })
}

pub fn clean_unicode_source(original_clean: bool, has_bom: bool, has_pattern: bool, raw: Option<&[u8]>) -> (r: bool)
    ensures
        r == clean_unicode_source_spec(
            original_clean,
            has_bom,
            has_pattern,
            match raw {
                Some(b) => Some(b@),
                None => None,
            },
        ),
{
    original_clean && (has_bom || has_pattern || match raw {
        None => true,
        Some(bytes) => check_utf8(bytes) == Utf8Check::Valid,
    })
}

/// The depth limit: one layer for clean Unicode, `MAX_DEPTH` otherwise.
pub fn depth_limit(clean_unicode: bool) -> (r: usize)
    ensures
        r == if clean_unicode { 1usize } else { MAX_DEPTH },
{
    if clean_unicode { 1 } else { MAX_DEPTH }
}

/// The interpretation of raw bytes with one codec that starts the search.
pub open spec fn is_seed_state(
    s: &RecoveryState,
    bytes: Seq<u8>,
    codec: Codec,
    decoded: &Decoded,
    inherited_loss: nat,
    original_clean: bool,
    bom: Option<Codec>,
    detector: Option<Codec>,
    utf16_pattern: Option<Codec>,
) -> bool {
    &&& s.text@ == decoded.text@
    &&& s.steps@.len() == 1
    &&& is_decode_step(s.steps@[0], bytes, decoded.text@, codec, decoded.had_errors || !decoded.round_trip, decoded.replacement_count as nat)
    &&& s.depth == 0
    &&& s.reversible == (decoded.round_trip && inherited_loss == 0)
    &&& s.lossy == (decoded.had_errors || !decoded.round_trip || inherited_loss > 0)
    &&& s.inherited_loss == inherited_loss
    &&& s.preserve == (codec == Codec::Utf8 && original_clean)
    // chardetng names the shared GBK/GB18030 decoder family GBK; its clue
    // also supports the GB18030 encoder.
    &&& s.detector_match == (detector == Some(codec) || (detector == Some(Codec::Gbk) && codec == Codec::Gb18030))
    &&& s.bom_or_pattern == (bom == Some(codec) || utf16_pattern == Some(codec))
    &&& s.unsupported_utf16 == ((codec == Codec::Utf16Le || codec == Codec::Utf16Be) && bom != Some(codec) && utf16_pattern != Some(codec))
    &&& s.validated_unicode == (codec == Codec::Utf8 || bom == Some(codec) || utf16_pattern == Some(codec))
    &&& s.alternatives == 0
}

/// The state for the raw bytes decoded with `codec`.
pub fn seed_state(
    bytes: &[u8],
    codec: Codec,
    decoded: Decoded,
    inherited_loss: usize,
    original_clean: bool,
    bom: Option<Codec>,
    detector: Option<Codec>,
    utf16_pattern: Option<Codec>,
) -> (r: RecoveryState)
    ensures
        is_seed_state(&r, bytes@, codec, &decoded, inherited_loss as nat, original_clean, bom, detector, utf16_pattern),
{
    let step = decode_step(bytes, &decoded, codec);
    let mut steps: Vec<TransformationStep> = Vec::new();
    steps.push(step);
    RecoveryState {
        reversible: decoded.round_trip && inherited_loss == 0,
        lossy: decoded.had_errors || !decoded.round_trip || inherited_loss > 0,
        text: decoded.text,
        steps,
        depth: 0,
        inherited_loss,
        preserve: codec == Codec::Utf8 && original_clean,
        detector_match: detector == Some(codec) || (detector == Some(Codec::Gbk) && codec == Codec::Gb18030),
        bom_or_pattern: bom == Some(codec) || utf16_pattern == Some(codec),
        unsupported_utf16: (codec == Codec::Utf16Le || codec == Codec::Utf16Be) && bom != Some(codec)
            && utf16_pattern != Some(codec),
        validated_unicode: codec == Codec::Utf8 || bom == Some(codec) || utf16_pattern == Some(codec),
        alternatives: 0,
    }
}

/// The state for pasted text: the unchanged Unicode.
pub fn text_state(original: String, inherited_loss: usize) -> (r: RecoveryState)
    ensures
        r.text@ == original@,
        r.steps@.len() == 0,
        r.depth == 0,
        r.reversible == (inherited_loss == 0),
        r.lossy == (inherited_loss > 0),
        r.inherited_loss == inherited_loss,
        r.preserve,
        !r.detector_match && !r.bom_or_pattern && !r.unsupported_utf16,
        r.validated_unicode,
        r.alternatives == 0,
{
    RecoveryState {
        text: original,
        steps: Vec::new(),
        depth: 0,
        reversible: inherited_loss == 0,
        lossy: inherited_loss > 0,
        inherited_loss,
        preserve: true,
        detector_match: false,
        bom_or_pattern: false,
        unsupported_utf16: false,
        validated_unicode: true,
        alternatives: 0,
    }
}

/// More than 10% control characters (of at least one character). Equal to
/// the `f64` ratio test for texts shorter than 2^50 characters.
pub open spec fn control_heavy(m: &Metrics) -> bool {
    10 * m.controls > (if m.count >= 1 { m.count as int } else { 1 })
}

pub fn is_control_heavy(m: &Metrics) -> (r: bool)
    ensures
        r == control_heavy(m),
{
    let count: u128 = if m.count >= 1 { m.count as u128 } else { 1 };
    10 * (m.controls as u128) > count
}

/// Lossy, non-reversible, empty or control-heavy states are not expanded.
pub fn expandable(state: &RecoveryState, values: &Metrics) -> (r: bool)
    ensures
        r == (state.reversible && state.text@.len() > 0 && !control_heavy(values)),
{
    state.reversible && !state.text.as_str().is_empty() && !is_control_heavy(values)
}

/// Bytes of the suspected wrong decoder's encoding of a parent text, when
/// that encoding is strict, small enough, and decodes back to the same text
/// without error. UTF-16 is only tried when the text already holds a NUL:
/// ordinary Unicode encoded as UTF-16 yields vast numbers of arbitrary but
/// printable legacy readings.
pub open spec fn wrong_codec_bytes_spec(parent: Seq<char>, codec: Codec) -> Option<Seq<u8>> {
    if (codec is Utf16Le || codec is Utf16Be) && !parent.contains('\0') {
        None
    } else {
        match encode_spec(codec, parent) {
            Err(_) => None,
            Ok(bytes) => if bytes.len() > MAX_TRANSFORM_BYTES {
                None
            } else if decode_text_spec(bytes, codec).1 || decode_text_spec(bytes, codec).0 != parent {
                None
            } else {
                Some(bytes)
            },
        }
    }
}

pub fn wrong_codec_bytes(parent: &str, codec: Codec) -> (r: Option<Vec<u8>>)
    requires
        encode_utf8(parent@).len() <= usize::MAX / 32,
    ensures
        match wrong_codec_bytes_spec(parent@, codec) {
            Some(b) => r matches Some(v) && v@ == b,
            None => r is None,
        },
{
    if codec == Codec::Utf16Le || codec == Codec::Utf16Be {
        let chars = chars_of(parent);
        let nuls = crate::strings::count_chars(chars.as_slice(), '\0');
        proof {
            crate::strings::lemma_count_char_positive(chars@, '\0');
        }
        if nuls == 0 {
            return None;
        }
    }
    let bytes = match encode(parent, codec) {
        Ok(bytes) => bytes,
        Err(_) => return None,
    };
    if bytes.len() > MAX_TRANSFORM_BYTES {
        return None;
    }
    let inverse = decode(bytes.as_slice(), codec);
    if inverse.had_errors || !str_equal(inverse.text.as_str(), parent) {
        return None;
    }
    Some(bytes)
}

/// A target codec differs from the wrong one, and UTF-16 targets need a NUL
/// in the bytes.
pub open spec fn target_allowed_spec(bytes: Seq<u8>, wrong: Codec, target: Codec) -> bool {
    target != wrong && !((target is Utf16Le || target is Utf16Be) && null_layout_spec(bytes) == NullLayout::NoNul)
}

pub fn target_allowed(bytes: &[u8], wrong: Codec, target: Codec) -> (r: bool)
    ensures
        r == target_allowed_spec(bytes@, wrong, target),
{
    if target == wrong {
        return false;
    }
    if (target == Codec::Utf16Le || target == Codec::Utf16Be) && null_layout(bytes) == NullLayout::NoNul {
        return false;
    }
    true
}

/// More than 10% control characters (of at least one character).
pub open spec fn text_control_heavy(t: Seq<char>) -> bool {
    10 * control_count(t) > (if t.len() >= 1 { t.len() as int } else { 1 })
}

/// The decode that a repair keeps: a changed, nonempty, exactly
/// round-tripping text without malformed input or U+FFFD, small enough, and
/// not control-heavy.
pub open spec fn repair_admits(parent: Seq<char>, bytes: Seq<u8>, target: Codec) -> bool {
    let (t, err) = decode_text_spec(bytes, target);
    &&& t != parent
    &&& t.len() > 0
    &&& round_trips(bytes, target, t, err)
    &&& !err
    &&& count_char(t, '\u{FFFD}') == 0
    &&& encode_utf8(t).len() <= MAX_TRANSFORM_BYTES
    &&& !text_control_heavy(t)
}

/// Decodes the wrong codec's bytes with a target codec and applies the
/// repair filters; returns the decode and its metrics when kept.
pub fn repair_decode(parent: &str, bytes: &[u8], target: Codec) -> (r: Option<(Decoded, Metrics)>)
    requires
        bytes@.len() <= MAX_TRANSFORM_BYTES,
    ensures
        match r {
            Some((d, m)) => (d.text@, d.had_errors) == decode_text_spec(bytes@, target)
                && d.round_trip == round_trips(bytes@, target, d.text@, d.had_errors)
                && d.replacement_count == count_char(d.text@, '\u{FFFD}')
                && metrics_of(&m, d.text@) && repair_admits(parent@, bytes@, target),
            None => !repair_admits(parent@, bytes@, target),
        },
{
    let decoded = decode(bytes, target);
    if str_equal(decoded.text.as_str(), parent) || decoded.text.as_str().is_empty() || !decoded.round_trip
        || decoded.had_errors || decoded.replacement_count > 0 || crate::codec::utf8_byte_len(decoded.text.as_str()) > MAX_TRANSFORM_BYTES as u128 {
        return None;
    }
    proof {
        crate::codec::lemma_encoded_lengths(decoded.text@);
    }
    let values = metrics(decoded.text.as_str());
    if is_control_heavy(&values) {
        return None;
    }
    Some((decoded, values))
}

/// The state reached from `parent` by encoding with `wrong` and decoding
/// with `target`: two more steps, the parent's reversibility, loss and
/// UTF-16 flag, and Unicode validation when the target is a Unicode codec.
pub open spec fn is_child_state(
    s: &RecoveryState,
    parent: &RecoveryState,
    bytes: Seq<u8>,
    wrong: Codec,
    target: Codec,
    decoded: &Decoded,
    depth: usize,
) -> bool {
    &&& s.text@ == decoded.text@
    &&& s.steps@.len() == parent.steps@.len() + 2
    &&& forall|i: int| 0 <= i < parent.steps@.len() ==> same_step(#[trigger] s.steps@[i], parent.steps@[i])
    &&& is_encode_step(s.steps@[parent.steps@.len() as int], parent.text@, bytes, wrong, false)
    &&& is_decode_step(s.steps@[parent.steps@.len() + 1int], bytes, decoded.text@, target, decoded.had_errors || !decoded.round_trip, decoded.replacement_count as nat)
    &&& s.depth == depth
    &&& s.reversible == parent.reversible
    &&& s.lossy == parent.lossy
    &&& s.inherited_loss == parent.inherited_loss
    &&& !s.preserve && !s.detector_match && !s.bom_or_pattern
    &&& s.unsupported_utf16 == parent.unsupported_utf16
    &&& s.validated_unicode == (target is Utf8 || target is Utf16Le || target is Utf16Be)
    &&& s.alternatives == 0
}

pub fn child_state(
    parent: &RecoveryState,
    bytes: &[u8],
    wrong: Codec,
    target: Codec,
    decoded: Decoded,
    depth: usize,
) -> (r: RecoveryState)
    ensures
        is_child_state(&r, parent, bytes@, wrong, target, &decoded, depth),
{
    let mut steps: Vec<TransformationStep> = clone_steps(&parent.steps);
    steps.push(encode_step(parent.text.as_str(), bytes, wrong, false));
    steps.push(decode_step(bytes, &decoded, target));
    RecoveryState {
        text: decoded.text,
        steps,
        depth,
        reversible: parent.reversible,
        lossy: parent.lossy,
        inherited_loss: parent.inherited_loss,
        preserve: false,
        detector_match: false,
        bom_or_pattern: false,
        unsupported_utf16: parent.unsupported_utf16,
        validated_unicode: target == Codec::Utf8 || target == Codec::Utf16Le || target == Codec::Utf16Be,
        alternatives: 0,
    }
}

/// Two steps record the same transition.
pub open spec fn same_step(a: TransformationStep, b: TransformationStep) -> bool {
    a.operation@ == b.operation@ && a.encoding@ == b.encoding@ && a.input_type@ == b.input_type@
        && a.output_type@ == b.output_type@ && a.input_preview@ == b.input_preview@
        && a.output_preview@ == b.output_preview@ && a.input_size == b.input_size && a.output_size
        == b.output_size && a.lossy == b.lossy && a.replacement_count == b.replacement_count
}

/// A copy of one recorded step.
pub fn clone_step(step: &TransformationStep) -> (r: TransformationStep)
    ensures
        same_step(r, *step),
{
    TransformationStep {
        operation: step.operation.clone(),
        encoding: step.encoding.clone(),
        input_type: step.input_type.clone(),
        output_type: step.output_type.clone(),
        input_preview: step.input_preview.clone(),
        output_preview: step.output_preview.clone(),
        input_size: step.input_size,
        output_size: step.output_size,
        lossy: step.lossy,
        replacement_count: step.replacement_count,
    }
}

/// A copy of a path.
pub fn clone_steps(steps: &Vec<TransformationStep>) -> (r: Vec<TransformationStep>)
    ensures
        r@.len() == steps@.len(),
        forall|i: int| 0 <= i < steps@.len() ==> same_step(#[trigger] r@[i], steps@[i]),
{
    let mut out: Vec<TransformationStep> = Vec::new();
    let mut i: usize = 0;
    while i < steps.len()
        invariant
            i <= steps@.len(),
            out@.len() == i,
            forall|j: int| 0 <= j < i ==> same_step(#[trigger] out@[j], steps@[j]),
        decreases steps@.len() - i,
    {
        let step = clone_step(&steps[i]);
        out.push(step);
        i = i + 1;
    }
    out
}

} // verus!
