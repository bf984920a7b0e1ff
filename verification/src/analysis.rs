//! The decisions of an analysis around the search: how much input is
//! analysed, and what the evidence decides before the search runs (whether
//! it runs, with which clues, and the case's warnings).
use crate::codec::{parse_label, Codec};
use crate::evidence::{null_layout, null_layout_spec, opt_view, EvidenceFacts, NullLayout};
use crate::files::{preview_codec, preview_codec_spec};
use crate::strings::string_from_chars;
use vstd::prelude::*;
use vstd::utf8::encode_utf8;

verus! {

/// The most bytes of a file, or UTF-8 bytes of pasted text, that one
/// analysis reads.
pub const MAX_SAMPLE_BYTES: usize = 32 * 1024;

/// The analysed prefix of raw bytes: at most `MAX_SAMPLE_BYTES` of them.
pub fn bounded_input(bytes: &[u8]) -> (r: &[u8])
    ensures
        r@ == bytes@.take(if bytes@.len() <= MAX_SAMPLE_BYTES { bytes@.len() as int } else { MAX_SAMPLE_BYTES as int }),
{
    let end = if bytes.len() <= MAX_SAMPLE_BYTES { bytes.len() } else { MAX_SAMPLE_BYTES };
    let r = vstd::slice::slice_subrange(bytes, 0, end);
    assert(r@ =~= bytes@.take(end as int));
    r
}

/// `k` characters of `t` are the analysed prefix: their UTF-8 length is
/// within `MAX_SAMPLE_BYTES`, and one more character would exceed it.
pub open spec fn is_text_prefix(t: Seq<char>, k: int) -> bool {
    &&& 0 <= k <= t.len()
    &&& encode_utf8(t.take(k)).len() <= MAX_SAMPLE_BYTES
    &&& k < t.len() ==> encode_utf8(t.take(k + 1)).len() > MAX_SAMPLE_BYTES
}

/// The UTF-8 width of one character.
fn char_width(c: char) -> (w: usize)
    ensures
        w == encode_utf8(seq![c]).len(),
{
    proof {
        crate::codec::lemma_encode_utf8_push(Seq::<char>::empty(), c);
        assert(encode_utf8(Seq::<char>::empty()) =~= Seq::<u8>::empty());
        assert(Seq::<char>::empty().push(c) =~= seq![c]);
        vstd::utf8::char_is_scalar(c);
    }
    let v = c as u32;
    if v < 0x80 { 1 } else if v < 0x800 { 2 } else if v < 0x10000 { 3 } else { 4 }
}

/// The analysed prefix of pasted text, cut on a character boundary: its
/// characters and their UTF-8 length.
fn text_prefix(text: &str) -> (r: (Vec<char>, usize))
    ensures
        exists|k: int| #[trigger] is_text_prefix(text@, k) && r.0@ == text@.take(k),
        r.1 == encode_utf8(r.0@).len(),
{
    let chars = crate::strings::chars_of(text);
    let mut out: Vec<char> = Vec::new();
    let mut total: usize = 0;
    let mut i: usize = 0;
    while i < chars.len()
        invariant
            chars@ == text@,
            i <= chars@.len(),
            out@ == chars@.take(i as int),
            total == encode_utf8(out@).len(),
            total <= MAX_SAMPLE_BYTES,
        decreases chars@.len() - i,
    {
        let c = chars[i];
        let w = char_width(c);
        proof {
            crate::codec::lemma_encode_utf8_push(out@, c);
            crate::codec::lemma_encode_utf8_push(Seq::<char>::empty(), c);
            assert(Seq::<char>::empty().push(c) =~= seq![c]);
            assert(encode_utf8(Seq::<char>::empty()) =~= Seq::<u8>::empty());
            assert(chars@.take(i + 1) =~= out@.push(c));
        }
        if total + w > MAX_SAMPLE_BYTES {
            assert(is_text_prefix(text@, i as int));
            return (out, total);
        }
        out.push(c);
        total = total + w;
        i = i + 1;
    }
    assert(chars@.take(chars@.len() as int) =~= chars@);
    assert(is_text_prefix(text@, i as int));
    (out, total)
}

/// The byte offset at which pasted text is cut for analysis: the largest
/// character boundary at most `MAX_SAMPLE_BYTES`.
pub fn text_prefix_end(text: &str) -> (r: usize)
    ensures
        exists|k: int| #[trigger] is_text_prefix(text@, k) && r == encode_utf8(text@.take(k)).len(),
{
    let (_, end) = text_prefix(text);
    end
}

/// The analysed prefix of pasted text and whether it was cut.
pub fn bounded_text(text: &str) -> (r: (String, bool))
    ensures
        exists|k: int| #[trigger] is_text_prefix(text@, k) && r.0@ == text@.take(k) && r.1 == (k < text@.len()),
{
    let (chars, _) = text_prefix(text);
    let ghost k = choose|k: int| #[trigger] is_text_prefix(text@, k) && chars@ == text@.take(k);
    let cut = chars.len() < crate::strings::chars_of(text).len();
    let s = string_from_chars(chars.as_slice());
    assert(is_text_prefix(text@, k) && s@ == text@.take(k) && cut == (k < text@.len()));
    (s, cut)
}

/// The UTF-16 layout clue of raw bytes: the byte order their NUL pattern
/// suggests.
pub open spec fn pattern_clue(raw: Option<Seq<u8>>) -> Option<Codec> {
    match raw {
        Some(b) => match null_layout_spec(b) {
            NullLayout::Utf16Le => Some(Codec::Utf16Le),
            NullLayout::Utf16Be => Some(Codec::Utf16Be),
            _ => None,
        },
        None => None,
    }
}

/// The case warnings the evidence decides: binary content stops recovery,
/// and replacement characters already in the text are information loss.
pub open spec fn plan_warnings(binary: bool, replacements: nat) -> Seq<Seq<char>> {
    let first: Seq<Seq<char>> = if binary { seq!["binary_content"@] } else { seq![] };
    if replacements > 0 { first.push("information_loss"@) } else { first }
}

/// What the evidence decides before the search.
pub struct CasePlan {
    /// Whether the repair search runs (not for binary content).
    pub run_search: bool,
    /// The UTF-16 byte order suggested by the NUL layout of the raw bytes.
    pub pattern: Option<Codec>,
    /// The supported codec named by the detector's suggestion.
    pub detector: Option<Codec>,
    /// The case's warnings, in order.
    pub warnings: Vec<String>,
}

fn owned(s: &str) -> (r: String)
    ensures
        r@ == s@,
{
    s.to_owned()
}

/// The plan for a case from its evidence and its raw bytes, if any.
pub fn case_plan(facts: &EvidenceFacts, raw: Option<&[u8]>) -> (r: CasePlan)
    ensures
        r.run_search == !facts.binary,
        r.pattern == pattern_clue(match raw {
            Some(b) => Some(b@),
            None => None,
        }),
        r.detector == match opt_view(facts.detector_suggestion) {
            Some(label) => parse_label(label),
            None => None,
        },
        r.warnings@.len() == plan_warnings(facts.binary, facts.replacement_count as nat).len(),
        forall|i: int|
            0 <= i < r.warnings@.len() ==> #[trigger] r.warnings@[i]@ == plan_warnings(
                facts.binary,
                facts.replacement_count as nat,
            )[i],
{
    let pattern = match raw {
        Some(b) => match null_layout(b) {
            NullLayout::Utf16Le => Some(Codec::Utf16Le),
            NullLayout::Utf16Be => Some(Codec::Utf16Be),
            _ => None,
        },
        None => None,
    };
    let detector = match &facts.detector_suggestion {
        Some(label) => Codec::parse(label.as_str()),
        None => None,
    };
    let mut warnings: Vec<String> = Vec::new();
    if facts.binary {
        warnings.push(owned("binary_content"));
    }
    if facts.replacement_count > 0 {
        warnings.push(owned("information_loss"));
    }
    CasePlan { run_search: !facts.binary, pattern, detector, warnings }
}

/// The warnings of a file case, in alphabetical order and each once: binary
/// content, disagreeing later samples (of a sampled file), information loss,
/// and a sampled file.
pub open spec fn file_warnings(binary: bool, loss: bool, sampled: bool, heterogeneous: bool) -> Seq<Seq<char>> {
    let a: Seq<Seq<char>> = if binary { seq!["binary_content"@] } else { seq![] };
    let b = if sampled && heterogeneous { a.push("heterogeneous_samples"@) } else { a };
    let c = if loss { b.push("information_loss"@) } else { b };
    if sampled { c.push("sampled_file"@) } else { c }
}

/// The warnings of a file case from its evidence and its samples.
pub fn file_case_warnings(binary: bool, replacements: usize, sampled: bool, heterogeneous: bool) -> (r: Vec<String>)
    ensures
        r@.len() == file_warnings(binary, replacements > 0, sampled, heterogeneous).len(),
        forall|i: int|
            0 <= i < r@.len() ==> #[trigger] r@[i]@ == file_warnings(binary, replacements > 0, sampled, heterogeneous)[i],
{
    let mut warnings: Vec<String> = Vec::new();
    if binary {
        warnings.push(owned("binary_content"));
    }
    if sampled && heterogeneous {
        warnings.push(owned("heterogeneous_samples"));
    }
    if replacements > 0 {
        warnings.push(owned("information_loss"));
    }
    if sampled {
        warnings.push(owned("sampled_file"));
    }
    warnings
}

/// A sampled file whose analysed head is UTF-8: valid UTF-8 (up to a
/// character cut off at its end) that is previewed as UTF-8.
pub fn utf8_source(valid_utf8: Option<bool>, head: &[u8]) -> (r: bool)
    ensures
        r == (valid_utf8 == Some(true) && preview_codec_spec(head@) == Some(Codec::Utf8)),
{
    valid_utf8 == Some(true) && preview_codec(head) == Some(Codec::Utf8)
}

} // verus!
