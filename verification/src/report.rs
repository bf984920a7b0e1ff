//! What a reported candidate says of itself beside its score: a stable id,
//! a preview, warnings and the reasons that support it.
use crate::evidence::{
    control_count, metrics, replacement_count_in, suspicious_count, text_preview,
    text_preview_spec, Metrics,
};
use crate::hexfmt::{hex_format, push_hex};
use crate::models::TransformationStep;
use crate::recovery::RecoveryState;
use crate::search::{fnv1a, stable_hash};
use crate::strings::{str_equal, string_from_chars};
use vstd::prelude::*;
use vstd::utf8::encode_utf8;

verus! {

/// The textual notes of a candidate.
pub struct CandidateNotes {
    pub id: String,
    pub preview: String,
    pub warnings: Vec<String>,
    pub reasons: Vec<String>,
}

/// The views of a list of strings.
pub open spec fn views(v: Seq<String>) -> Seq<Seq<char>> {
    v.map_values(|s: String| s@)
}

/// A candidate's id: `candidate-` and the FNV-1a digest of its UTF-8 text
/// as sixteen lowercase hexadecimal digits.
pub open spec fn candidate_id_spec(text: Seq<char>) -> Seq<char> {
    "candidate-"@ + hex_format(fnv1a(encode_utf8(text)) as nat, 16, false)
}

/// The warnings: always that the score is a heuristic, then information
/// loss and a failed round trip when they apply.
pub open spec fn warnings_spec(state: &RecoveryState) -> Seq<Seq<char>> {
    let w0 = seq!["heuristic_not_probability"@];
    let w1 = if state.lossy { w0.push("information_loss"@) } else { w0 };
    if !state.reversible { w1.push("non_round_trip"@) } else { w1 }
}

/// The last step of a path decodes or encodes with UTF-8.
pub open spec fn ends_in_utf8(steps: Seq<TransformationStep>) -> bool {
    steps.len() > 0 && steps[steps.len() - 1].encoding@ == "UTF-8"@
}

/// The reasons, in order: a reversible path, no replacement characters
/// (none in the text and none inherited), fewer controls and fewer mojibake
/// markers than the original, UTF-8 recovered by a repair, the original
/// preserved clean, a detector match, and a BOM or UTF-16 pattern match.
pub open spec fn reasons_spec(state: &RecoveryState, original: &Metrics) -> Seq<Seq<char>> {
    let t = state.text@;
    let replacements = replacement_count_in(t);
    let controls = control_count(t);
    let suspicious = suspicious_count(t);
    let r0 = Seq::<Seq<char>>::empty();
    let r1 = if state.reversible { r0.push("reversible_path"@) } else { r0 };
    let r2 = if replacements == 0 && state.inherited_loss == 0 { r1.push("no_replacement_characters"@) } else { r1 };
    let r3 = if controls < original.controls { r2.push("fewer_controls"@) } else { r2 };
    let r4 = if suspicious < original.suspicious { r3.push("fewer_mojibake_patterns"@) } else { r3 };
    let r5 = if state.depth > 0 && ends_in_utf8(state.steps@) { r4.push("utf8_recovered"@) } else { r4 };
    let r6 = if state.preserve && replacements == 0 && controls == 0 && suspicious == 0 {
        r5.push("preserved_original"@)
    } else {
        r5
    };
    let r7 = if state.detector_match { r6.push("detector_match"@) } else { r6 };
    if state.bom_or_pattern { r7.push("encoding_structure_match"@) } else { r7 }
}

fn push_note(list: &mut Vec<String>, note: &str)
    ensures
        views(final(list)@) == views(old(list)@).push(note@),
{
    list.push(note.to_owned());
    assert(views(list@) =~= views(old(list)@).push(note@));
}

/// True when the path ends in a UTF-8 step.
fn last_is_utf8(steps: &Vec<TransformationStep>) -> (r: bool)
    ensures
        r == ends_in_utf8(steps@),
{
    if steps.len() == 0 {
        return false;
    }
    str_equal(steps[steps.len() - 1].encoding.as_str(), "UTF-8")
}

/// A strict legacy encode whose bytes are shorter than its text, followed
/// by a UTF-8 decode, contracts the text: a useful intermediate in double
/// mojibake, given frontier priority over its remaining markers.
pub open spec fn contracting_spec(steps: Seq<TransformationStep>) -> bool {
    &&& steps.len() >= 2
    &&& ends_in_utf8(steps)
    &&& steps[steps.len() - 2].input_size > steps[steps.len() - 2].output_size
}

pub fn contracting_repair(steps: &Vec<TransformationStep>) -> (r: bool)
    ensures
        r == contracting_spec(steps@),
{
    if steps.len() < 2 {
        return false;
    }
    let n = steps.len();
    last_is_utf8(steps) && steps[n - 2].input_size > steps[n - 2].output_size
}

/// The id, preview, warnings and reasons of a reported state, given the
/// metrics of the original text.
pub fn candidate_notes(state: &RecoveryState, original: &Metrics) -> (r: CandidateNotes)
    requires
        encode_utf8(state.text@).len() <= usize::MAX / 32,
    ensures
        r.id@ == candidate_id_spec(state.text@),
        r.preview@ == text_preview_spec(state.text@, 4096),
        views(r.warnings@) == warnings_spec(state),
        views(r.reasons@) == reasons_spec(state, original),
{
    proof {
        crate::codec::lemma_encoded_lengths(state.text@);
    }
    let values = metrics(state.text.as_str());
    let mut warnings: Vec<String> = Vec::new();
    push_note(&mut warnings, "heuristic_not_probability");
    if state.lossy {
        push_note(&mut warnings, "information_loss");
    }
    if !state.reversible {
        push_note(&mut warnings, "non_round_trip");
    }
    assert(views(warnings@) =~= warnings_spec(state));
    let mut reasons: Vec<String> = Vec::new();
    assert(views(reasons@) =~= Seq::<Seq<char>>::empty());
    if state.reversible {
        push_note(&mut reasons, "reversible_path");
    }
    if values.replacements == 0 && state.inherited_loss == 0 {
        push_note(&mut reasons, "no_replacement_characters");
    }
    if values.controls < original.controls {
        push_note(&mut reasons, "fewer_controls");
    }
    if values.suspicious < original.suspicious {
        push_note(&mut reasons, "fewer_mojibake_patterns");
    }
    if state.depth > 0 && last_is_utf8(&state.steps) {
        push_note(&mut reasons, "utf8_recovered");
    }
    if state.preserve && values.clean() {
        push_note(&mut reasons, "preserved_original");
    }
    if state.detector_match {
        push_note(&mut reasons, "detector_match");
    }
    if state.bom_or_pattern {
        push_note(&mut reasons, "encoding_structure_match");
    }
    assert(views(reasons@) =~= reasons_spec(state, original));
    let mut id: Vec<char> = Vec::new();
    crate::codec::push_str(&mut id, "candidate-");
    push_hex(&mut id, stable_hash(state.text.as_str().as_bytes()), 16, false);
    CandidateNotes {
        id: string_from_chars(id.as_slice()),
        preview: text_preview(state.text.as_str(), 4096),
        warnings,
        reasons,
    }
}

/// The reason `preserved_original` is given exactly to a state that keeps
/// the original interpretation (`preserve`) and whose text is clean: no
/// replacement characters, controls or mojibake markers. A state that does
/// not keep the original never gets it, however clean its text.
pub proof fn law_preserved_original_reason(state: &RecoveryState, original: &Metrics)
    ensures
        reasons_spec(state, original).contains("preserved_original"@) <==> (state.preserve && replacement_count_in(
            state.text@,
        ) == 0 && control_count(state.text@) == 0 && suspicious_count(state.text@) == 0),
        !state.preserve ==> !reasons_spec(state, original).contains("preserved_original"@),
{
    reveal_strlit("reversible_path");
    reveal_strlit("no_replacement_characters");
    reveal_strlit("fewer_controls");
    reveal_strlit("fewer_mojibake_patterns");
    reveal_strlit("utf8_recovered");
    reveal_strlit("preserved_original");
    reveal_strlit("detector_match");
    reveal_strlit("encoding_structure_match");
    let p = "preserved_original"@;
    let t = state.text@;
    let replacements = replacement_count_in(t);
    let controls = control_count(t);
    let suspicious = suspicious_count(t);
    let r0 = Seq::<Seq<char>>::empty();
    let r1 = if state.reversible { r0.push("reversible_path"@) } else { r0 };
    let r2 = if replacements == 0 && state.inherited_loss == 0 { r1.push("no_replacement_characters"@) } else { r1 };
    let r3 = if controls < original.controls { r2.push("fewer_controls"@) } else { r2 };
    let r4 = if suspicious < original.suspicious { r3.push("fewer_mojibake_patterns"@) } else { r3 };
    let r5 = if state.depth > 0 && ends_in_utf8(state.steps@) { r4.push("utf8_recovered"@) } else { r4 };
    let cond = state.preserve && replacements == 0 && controls == 0 && suspicious == 0;
    let r6 = if cond { r5.push(p) } else { r5 };
    let r7 = if state.detector_match { r6.push("detector_match"@) } else { r6 };
    let r8 = if state.bom_or_pattern { r7.push("encoding_structure_match"@) } else { r7 };
    assert(reasons_spec(state, original) == r8);
    assert(p.len() == 18);
    assert forall|k: int| 0 <= k < r5.len() implies (#[trigger] r5[k]).len() != 18 by {
        if r5.len() > r4.len() && k == r4.len() {
        } else {
            assert(r5[k] == r4[k]);
            if r4.len() > r3.len() && k == r3.len() {
            } else {
                assert(r4[k] == r3[k]);
                if r3.len() > r2.len() && k == r2.len() {
                } else {
                    assert(r3[k] == r2[k]);
                    if r2.len() > r1.len() && k == r1.len() {
                    } else {
                        assert(r2[k] == r1[k]);
                    }
                }
            }
        }
    }
    assert(!r5.contains(p));
    if cond {
        assert(r6[r5.len() as int] == p);
        assert(r8.contains(p)) by {
            assert(r7[r5.len() as int] == p);
            assert(r8[r5.len() as int] == p);
        }
    } else {
        assert(r6 == r5);
        if r8.contains(p) {
            let k = choose|k: int| 0 <= k < r8.len() && r8[k] == p;
            if k < r6.len() {
                assert(r8[k] == r6[k]) by {
                    assert(r7[k] == r6[k]);
                }
                assert(r5[k].len() != 18);
            } else if k < r7.len() {
                assert(r7[k] == "detector_match"@);
                assert(r8[k] == r7[k]);
            } else {
                assert(r8[k] == "encoding_structure_match"@);
            }
        }
    }
}

} // verus!
