//! Evidence about a text or a byte sequence: character metrics, previews,
//! NUL-byte layout, binary signatures and the statistical detector's label.
use crate::chardet::{chardet_guess, chardet_label};
use crate::codec::{
    codec_name, detect_bom, detect_bom_spec, unsupported_bom, unsupported_bom_spec, Codec,
};
use crate::hexfmt::{hex_format, push_hex};
use crate::strings::{chars_of, count_char, count_chars, has_prefix, starts_with, string_from_chars};
use crate::utf8check::{check_utf8, Utf8Check};
use vstd::utf8::{encode_utf8, valid_utf8};
use crate::textclass::{
    count_matches, count_pattern, count_where, is_ascii_char, is_control, is_control_spec,
    is_white_space, is_whitespace, lemma_count_matches_bound, lemma_count_where_step,
    script_class_index, script_class_of, ScriptClass,
};
use vstd::prelude::*;

verus! {

/// First character of an adjacent pair typical of UTF-8 read as a
/// single-byte code page (such as 'Ã' or 'â').
pub open spec fn is_mojibake_lead(c: char) -> bool {
    let v = c as u32;
    v == 0xC3 || v == 0xC2 || v == 0xE2 || v == 0xF0 || (0xE4 <= v && v <= 0xEC) || v == 0xEF
}

/// Second character of such a pair: a C1 control or a Windows-1252
/// punctuation or letter from the 0x80..0x9F block.
pub open spec fn is_mojibake_trail(c: char) -> bool {
    let v = c as u32;
    (0x80 <= v && v <= 0xBF) || v == 0x20AC || v == 0x201A || v == 0x0192 || v == 0x201E || v
        == 0x2026 || v == 0x2020 || v == 0x2021 || v == 0x02C6 || v == 0x2030 || v == 0x0160 || v
        == 0x2039 || v == 0x0152 || v == 0x017D || v == 0x2018 || v == 0x2019 || v == 0x201C || v
        == 0x201D || v == 0x2022 || v == 0x2013 || v == 0x2014 || v == 0x02DC || v == 0x2122 || v
        == 0x0161 || v == 0x203A || v == 0x0153 || v == 0x017E || v == 0x0178
}

/// A private-use character.
pub open spec fn is_private_use(c: char) -> bool {
    let v = c as u32;
    (0xE000 <= v && v <= 0xF8FF) || (0xF0000 <= v && v <= 0xFFFFD) || (0x100000 <= v && v <= 0x10FFFD)
}

/// Adjacent mojibake pairs: positions whose character is a trail preceded by a lead.
pub open spec fn count_marked_pairs(t: Seq<char>) -> nat
    decreases t.len(),
{
    if t.len() < 2 {
        0
    } else {
        count_marked_pairs(t.drop_last()) + if is_mojibake_lead(t[t.len() - 2]) && is_mojibake_trail(t.last()) {
            1nat
        } else {
            0nat
        }
    }
}

/// The mojibake markers of a text are its adjacent pairs of a lead among
/// U+00C2, U+00C3, U+00E2, U+00E4..U+00EC, U+00EF, U+00F0 (such as 'Ã' or
/// 'â') and a trail that is a C1 control or Latin-1 character
/// U+0080..U+00BF or a Windows-1252 character of its 0x80..0x9F block (such
/// as '€' or '’'): appending such a trail after such a lead adds one marker,
/// and appending after an ASCII character, or appending an ASCII character,
/// adds none.
pub proof fn law_mojibake_pairs(t: Seq<char>, c: char)
    requires
        t.len() > 0,
    ensures
        ((t.last() as u32) == 0xC2 || (t.last() as u32) == 0xC3 || (t.last() as u32) == 0xE2 || (0xE4 <= (t.last() as u32) && (t.last() as u32) <= 0xEC) || (t.last() as u32) == 0xEF || (t.last() as u32) == 0xF0) && ((0x80 <= (c as u32) && (c as u32) <= 0xBF) || (c as u32) == 0x20AC || (c as u32) == 0x201A || (c as u32) == 0x0192 || (c as u32) == 0x201E || (c as u32) == 0x2026 || (c as u32) == 0x2020 || (c as u32) == 0x2021 || (c as u32) == 0x02C6 || (c as u32) == 0x2030 || (c as u32) == 0x0160 || (c as u32) == 0x2039 || (c as u32) == 0x0152 || (c as u32) == 0x017D || (c as u32) == 0x2018 || (c as u32) == 0x2019 || (c as u32) == 0x201C || (c as u32) == 0x201D || (c as u32) == 0x2022 || (c as u32) == 0x2013 || (c as u32) == 0x2014 || (c as u32) == 0x02DC || (c as u32) == 0x2122 || (c as u32) == 0x0161 || (c as u32) == 0x203A || (c as u32) == 0x0153 || (c as u32) == 0x017E || (c as u32) == 0x0178) ==> count_marked_pairs(t.push(c)) == count_marked_pairs(t) + 1,
        (t.last() as u32) < 0x80 || (c as u32) < 0x80 ==> count_marked_pairs(t.push(c)) == count_marked_pairs(t),
{
    assert(t.push(c).drop_last() =~= t);
    assert(t.push(c)[t.push(c).len() - 2] == t.last());
}

/// A text holding such a lead directly followed by such a trail has a
/// mojibake marker, so its metrics are not clean.
pub proof fn law_marker_counts(t: Seq<char>, i: int)
    requires
        0 <= i,
        i + 1 < t.len(),
        ((t[i] as u32) == 0xC2 || (t[i] as u32) == 0xC3 || (t[i] as u32) == 0xE2 || (0xE4 <= (t[i] as u32) && (t[i] as u32) <= 0xEC) || (t[i] as u32) == 0xEF || (t[i] as u32) == 0xF0),
        ((0x80 <= (t[i + 1] as u32) && (t[i + 1] as u32) <= 0xBF) || (t[i + 1] as u32) == 0x20AC || (t[i + 1] as u32) == 0x201A || (t[i + 1] as u32) == 0x0192 || (t[i + 1] as u32) == 0x201E || (t[i + 1] as u32) == 0x2026 || (t[i + 1] as u32) == 0x2020 || (t[i + 1] as u32) == 0x2021 || (t[i + 1] as u32) == 0x02C6 || (t[i + 1] as u32) == 0x2030 || (t[i + 1] as u32) == 0x0160 || (t[i + 1] as u32) == 0x2039 || (t[i + 1] as u32) == 0x0152 || (t[i + 1] as u32) == 0x017D || (t[i + 1] as u32) == 0x2018 || (t[i + 1] as u32) == 0x2019 || (t[i + 1] as u32) == 0x201C || (t[i + 1] as u32) == 0x201D || (t[i + 1] as u32) == 0x2022 || (t[i + 1] as u32) == 0x2013 || (t[i + 1] as u32) == 0x2014 || (t[i + 1] as u32) == 0x02DC || (t[i + 1] as u32) == 0x2122 || (t[i + 1] as u32) == 0x0161 || (t[i + 1] as u32) == 0x203A || (t[i + 1] as u32) == 0x0153 || (t[i + 1] as u32) == 0x017E || (t[i + 1] as u32) == 0x0178),
    ensures
        count_marked_pairs(t) >= 1,
        suspicious_count(t) >= 1,
{
    let u = t.take(i + 1);
    let c = t[i + 1];
    law_mojibake_pairs(u, c);
    assert(u.last() == t[i]);
    assert(u.push(c) =~= t.take(i + 2));
    lemma_pairs_of_prefix(t, i + 2);
}

/// A prefix has no more markers than the whole text.
proof fn lemma_pairs_of_prefix(t: Seq<char>, k: int)
    requires
        0 <= k <= t.len(),
    ensures
        count_marked_pairs(t.take(k)) <= count_marked_pairs(t),
    decreases t.len() - k,
{
    if k < t.len() {
        lemma_pairs_of_prefix(t, k + 1);
        lemma_pairs_step(t, k);
    } else {
        assert(t.take(k) =~= t);
    }
}

/// Occurrences of short sequences that recur when UTF-8 or GBK text is read
/// with the wrong codec. Weak evidence, never a language verdict.
pub open spec fn pattern_hits(t: Seq<char>) -> nat {
    count_matches(t, "\u{6d63}\u{72b2}"@) + count_matches(t, "\u{72b2}\u{30bd}"@) + count_matches(
        t,
        "\u{93c2}\u{56e7}"@,
    ) + count_matches(t, "\u{5a34}\u{5b2d}"@) + count_matches(t, "\u{7487}\u{66df}"@)
        + count_matches(t, "\u{951f}\u{65a4}\u{62f7}"@) + count_matches(t, "\u{9225}"@)
        + count_matches(t, "\u{9983}"@) + count_matches(t, "\u{7e3a}"@) + count_matches(
        t,
        "\u{7e67}"@,
    ) + count_matches(t, "\u{7e5d}"@)
}

/// All mojibake markers of a text.
pub open spec fn suspicious_count(t: Seq<char>) -> nat {
    count_marked_pairs(t) + count_where(t, |c: char| is_private_use(c)) + pattern_hits(t)
}

/// Counts over the characters of a text.
#[derive(Clone, Debug)]
pub struct Metrics {
    pub count: usize,
    pub replacements: usize,
    pub controls: usize,
    pub ascii: usize,
    pub whitespace: usize,
    pub suspicious: usize,
    /// Characters per script group, indexed by `ScriptClass::index`.
    pub scripts: Vec<usize>,
}

/// The number of U+FFFD replacement characters in `t`.
pub open spec fn replacement_count_in(t: Seq<char>) -> nat {
    count_where(t, |c: char| c == '\u{FFFD}')
}

/// The number of control characters in `t`.
pub open spec fn control_count(t: Seq<char>) -> nat {
    count_where(t, |c: char| is_control_spec(c))
}

/// The exact counts of `metrics(text)`.
pub open spec fn metrics_of(m: &Metrics, t: Seq<char>) -> bool {
    &&& m.count == t.len()
    &&& m.replacements == replacement_count_in(t)
    &&& m.controls == control_count(t)
    &&& m.ascii == count_where(t, |c: char| is_ascii_char(c))
    &&& m.whitespace == count_where(t, |c: char| is_white_space(c))
    &&& m.suspicious == suspicious_count(t)
    &&& m.scripts@.len() == 11
    &&& forall|k: int|
        #![trigger m.scripts@[k]]
        0 <= k < 11 ==> m.scripts@[k] == count_where(
            t,
            |c: char| script_class_index(script_class_of(c)) == k,
        )
}

impl Metrics {
    /// No replacement characters, controls or mojibake markers.
    pub fn clean(&self) -> (r: bool)
        ensures
            r == (self.replacements == 0 && self.controls == 0 && self.suspicious == 0),
    {
        self.replacements == 0 && self.controls == 0 && self.suspicious == 0
    }
}

proof fn lemma_pairs_step(t: Seq<char>, i: int)
    requires
        0 <= i < t.len(),
    ensures
        count_marked_pairs(t.take(i + 1)) == count_marked_pairs(t.take(i)) + if i >= 1
            && is_mojibake_lead(t[i - 1]) && is_mojibake_trail(t[i]) {
            1nat
        } else {
            0nat
        },
        count_marked_pairs(t.take(i + 1)) <= i + 1,
    decreases i,
{
    assert(t.take(i + 1).drop_last() == t.take(i));
    if i > 0 {
        lemma_pairs_step(t, i - 1);
    }
}

fn is_mojibake_lead_char(c: char) -> (r: bool)
    ensures
        r == is_mojibake_lead(c),
{
    let v = c as u32;
    v == 0xC3 || v == 0xC2 || v == 0xE2 || v == 0xF0 || (0xE4 <= v && v <= 0xEC) || v == 0xEF
}

fn is_mojibake_trail_char(c: char) -> (r: bool)
    ensures
        r == is_mojibake_trail(c),
{
    let v = c as u32;
    (0x80 <= v && v <= 0xBF) || v == 0x20AC || v == 0x201A || v == 0x0192 || v == 0x201E || v
        == 0x2026 || v == 0x2020 || v == 0x2021 || v == 0x02C6 || v == 0x2030 || v == 0x0160 || v
        == 0x2039 || v == 0x0152 || v == 0x017D || v == 0x2018 || v == 0x2019 || v == 0x201C || v
        == 0x201D || v == 0x2022 || v == 0x2013 || v == 0x2014 || v == 0x02DC || v == 0x2122 || v
        == 0x0161 || v == 0x203A || v == 0x0153 || v == 0x017E || v == 0x0178
}

fn is_private_use_char(c: char) -> (r: bool)
    ensures
        r == is_private_use(c),
{
    let v = c as u32;
    (0xE000 <= v && v <= 0xF8FF) || (0xF0000 <= v && v <= 0xFFFFD) || (0x100000 <= v && v <= 0x10FFFD)
}

fn pattern_hit_count(t: &[char]) -> (n: usize)
    requires
        t@.len() <= usize::MAX / 16,
    ensures
        n == pattern_hits(t@),
        n <= 11 * t@.len(),
{
    let a = count_pattern(t, "\u{6d63}\u{72b2}");
    let b = count_pattern(t, "\u{72b2}\u{30bd}");
    let c = count_pattern(t, "\u{93c2}\u{56e7}");
    let d = count_pattern(t, "\u{5a34}\u{5b2d}");
    let e = count_pattern(t, "\u{7487}\u{66df}");
    let f = count_pattern(t, "\u{951f}\u{65a4}\u{62f7}");
    let g = count_pattern(t, "\u{9225}");
    let h = count_pattern(t, "\u{9983}");
    let i = count_pattern(t, "\u{7e3a}");
    let j = count_pattern(t, "\u{7e67}");
    let k = count_pattern(t, "\u{7e5d}");
    proof {
        lemma_count_matches_bound(t@, "\u{6d63}\u{72b2}"@);
        lemma_count_matches_bound(t@, "\u{72b2}\u{30bd}"@);
        lemma_count_matches_bound(t@, "\u{93c2}\u{56e7}"@);
        lemma_count_matches_bound(t@, "\u{5a34}\u{5b2d}"@);
        lemma_count_matches_bound(t@, "\u{7487}\u{66df}"@);
        lemma_count_matches_bound(t@, "\u{951f}\u{65a4}\u{62f7}"@);
        lemma_count_matches_bound(t@, "\u{9225}"@);
        lemma_count_matches_bound(t@, "\u{9983}"@);
        lemma_count_matches_bound(t@, "\u{7e3a}"@);
        lemma_count_matches_bound(t@, "\u{7e67}"@);
        lemma_count_matches_bound(t@, "\u{7e5d}"@);
    }
    a + b + c + d + e + f + g + h + i + j + k
}

/// Counts characters, replacements, controls, ASCII, whitespace, mojibake
/// markers and script groups. A letter such as 'â' is legitimate on its own;
/// only adjacent pairs characteristic of UTF-8 decoded as a single-byte code
/// page count as markers.
pub fn metrics(text: &str) -> (r: Metrics)
    requires
        text@.len() <= usize::MAX / 16,
    ensures
        metrics_of(&r, text@),
{
    let t = chars_of(text);
    let mut count: usize = 0;
    let mut replacements: usize = 0;
    let mut controls: usize = 0;
    let mut ascii: usize = 0;
    let mut whitespace: usize = 0;
    let mut pairs: usize = 0;
    let mut private: usize = 0;
    let mut scripts: Vec<usize> = vec![0, 0, 0, 0, 0, 0, 0, 0, 0, 0, 0];
    let ghost s = t@;
    assert(s.take(0) =~= Seq::<char>::empty());
    assert(forall|k: int| 0 <= k < 11 ==> #[trigger] scripts@[k] == 0);
    while count < t.len()
        invariant
            s == t@,
            s == text@,
            s.len() <= usize::MAX / 16,
            count <= s.len(),
            replacements == count_where(s.take(count as int), |c: char| c == '\u{FFFD}'),
            controls == count_where(s.take(count as int), |c: char| is_control_spec(c)),
            ascii == count_where(s.take(count as int), |c: char| is_ascii_char(c)),
            whitespace == count_where(s.take(count as int), |c: char| is_white_space(c)),
            private == count_where(s.take(count as int), |c: char| is_private_use(c)),
            pairs == count_marked_pairs(s.take(count as int)),
            replacements <= count && controls <= count && ascii <= count && whitespace <= count
                && private <= count && pairs <= count,
            scripts@.len() == 11,
            forall|k: int|
                #![trigger scripts@[k]]
                0 <= k < 11 ==> scripts@[k] == count_where(
                    s.take(count as int),
                    |c: char| script_class_index(script_class_of(c)) == k,
                ) && scripts@[k] <= count,
        decreases s.len() - count,
    {
        let ch = t[count];
        let i = count;
        proof {
            lemma_count_where_step(s, i as int, |c: char| c == '\u{FFFD}');
            lemma_count_where_step(s, i as int, |c: char| is_control_spec(c));
            lemma_count_where_step(s, i as int, |c: char| is_ascii_char(c));
            lemma_count_where_step(s, i as int, |c: char| is_white_space(c));
            lemma_count_where_step(s, i as int, |c: char| is_private_use(c));
            lemma_pairs_step(s, i as int);
        }
        if ch == '\u{FFFD}' {
            replacements = replacements + 1;
        }
        if is_control(ch) {
            controls = controls + 1;
        }
        if (ch as u32) < 0x80 {
            ascii = ascii + 1;
        }
        if is_whitespace(ch) {
            whitespace = whitespace + 1;
        }
        if i >= 1 && is_mojibake_lead_char(t[i - 1]) && is_mojibake_trail_char(ch) {
            pairs = pairs + 1;
        }
        if is_private_use_char(ch) {
            private = private + 1;
        }
        let class = ScriptClass::of(ch);
        let k = class.index();
        let ghost before = scripts@;
        scripts.set(k, scripts[k] + 1);
        proof {
            assert forall|j: int| 0 <= j < 11 implies #[trigger] scripts@[j] == count_where(
                s.take(i + 1),
                |c: char| script_class_index(script_class_of(c)) == j,
            ) && scripts@[j] <= i + 1 by {
                lemma_count_where_step(s, i as int, |c: char| script_class_index(script_class_of(c)) == j);
                assert(before[j] == count_where(
                    s.take(i as int),
                    |c: char| script_class_index(script_class_of(c)) == j,
                ));
            }
        }
        count = count + 1;
    }
    assert(s.take(s.len() as int) == s);
    let hits = pattern_hit_count(t.as_slice());
    Metrics {
        count,
        replacements,
        controls,
        ascii,
        whitespace,
        suspicious: pairs + private + hits,
        scripts,
    }
}


// ---------------------------------------------------------------------------
// Previews

/// Two upper-case hexadecimal digits of a byte.
pub open spec fn hex_byte(b: u8) -> Seq<char> {
    hex_format(b as nat, 2, true)
}

/// The bytes as upper-case hexadecimal pairs separated by single spaces.
pub open spec fn hex_join(bytes: Seq<u8>) -> Seq<char>
    decreases bytes.len(),
{
    if bytes.len() == 0 {
        seq![]
    } else if bytes.len() == 1 {
        hex_byte(bytes[0])
    } else {
        hex_join(bytes.drop_last()) + seq![' '] + hex_byte(bytes.last())
    }
}

pub open spec fn min_nat(a: nat, b: nat) -> nat {
    if a <= b { a } else { b }
}

/// `hex_preview(bytes, limit)`: at most `limit` bytes in hexadecimal, then
/// " …" when bytes were left out.
pub open spec fn hex_preview_spec(bytes: Seq<u8>, limit: nat) -> Seq<char> {
    hex_join(bytes.take(min_nat(limit, bytes.len()) as int)) + if bytes.len() > limit {
        seq![' ', '\u{2026}']
    } else {
        seq![]
    }
}

/// `text_preview(text, limit)`: the first `limit` characters, then '…' when
/// characters were left out.
pub open spec fn text_preview_spec(text: Seq<char>, limit: nat) -> Seq<char> {
    text.take(min_nat(limit, text.len()) as int) + if text.len() > limit {
        seq!['\u{2026}']
    } else {
        seq![]
    }
}

pub fn hex_preview(bytes: &[u8], limit: usize) -> (r: String)
    ensures
        r@ == hex_preview_spec(bytes@, limit as nat),
{
    let n = if limit < bytes.len() { limit } else { bytes.len() };
    let mut out: Vec<char> = Vec::new();
    let mut i: usize = 0;
    while i < n
        invariant
            n == min_nat(limit as nat, bytes@.len()),
            i <= n,
            out@ == hex_join(bytes@.take(i as int)),
        decreases n - i,
    {
        let ghost before = out@;
        if i != 0 {
            out.push(' ');
        }
        push_hex(&mut out, bytes[i] as u64, 2, true);
        proof {
            assert(bytes@.take(i + 1).drop_last() =~= bytes@.take(i as int));
            assert(bytes@.take(i + 1).last() == bytes@[i as int]);
            if i == 0 {
                assert(out@ =~= hex_join(bytes@.take(1)));
            } else {
                assert(out@ =~= hex_join(bytes@.take(i + 1)));
            }
        }
        i = i + 1;
    }
    if bytes.len() > limit {
        out.push(' ');
        out.push('\u{2026}');
    }
    assert(out@ =~= hex_preview_spec(bytes@, limit as nat));
    string_from_chars(out.as_slice())
}

pub fn text_preview(text: &str, limit: usize) -> (r: String)
    ensures
        r@ == text_preview_spec(text@, limit as nat),
{
    let t = chars_of(text);
    let n = if limit < t.len() { limit } else { t.len() };
    let mut out: Vec<char> = Vec::new();
    let mut i: usize = 0;
    while i < n
        invariant
            t@ == text@,
            n == min_nat(limit as nat, t@.len()),
            i <= n,
            out@ == t@.take(i as int),
        decreases n - i,
    {
        out.push(t[i]);
        assert(out@ =~= t@.take(i + 1));
        i = i + 1;
    }
    if t.len() > limit {
        out.push('\u{2026}');
    }
    assert(out@ =~= text_preview_spec(text@, limit as nat));
    string_from_chars(out.as_slice())
}

// ---------------------------------------------------------------------------
// NUL bytes and binary data

/// How NUL bytes are laid out in a byte sequence.
#[derive(Clone, Copy, Debug, PartialEq, Eq, Structural)]
pub enum NullLayout {
    /// No NUL byte at all.
    NoNul,
    /// NULs mostly at odd offsets, as in UTF-16LE text with many ASCII characters.
    Utf16Le,
    /// NULs mostly at even offsets, as in UTF-16BE text with many ASCII characters.
    Utf16Be,
    /// NULs without either pattern.
    Irregular,
}

/// Number of bytes equal to `b` at positions with the given parity.
pub open spec fn count_byte_at_parity(bytes: Seq<u8>, b: u8, odd: bool) -> nat
    decreases bytes.len(),
{
    if bytes.len() == 0 {
        0
    } else {
        count_byte_at_parity(bytes.drop_last(), b, odd) + if bytes.last() == b && ((bytes.len()
            - 1) % 2 == 1) == odd {
            1nat
        } else {
            0nat
        }
    }
}

/// Number of bytes satisfying `p`.
pub open spec fn count_bytes_where(bytes: Seq<u8>, p: spec_fn(u8) -> bool) -> nat
    decreases bytes.len(),
{
    if bytes.len() == 0 {
        0
    } else {
        count_bytes_where(bytes.drop_last(), p) + if p(bytes.last()) { 1nat } else { 0nat }
    }
}

/// The classification, with ratios against the number of byte pairs (at
/// least one): at least 30% NULs on one parity and under 10% on the other.
/// Integer comparison here equals the `f64` quotient comparison for every
/// input shorter than 2^50 bytes.
pub open spec fn null_layout_spec(bytes: Seq<u8>) -> NullLayout {
    let even = count_byte_at_parity(bytes, 0, false);
    let odd = count_byte_at_parity(bytes, 0, true);
    let pairs = if bytes.len() / 2 >= 1 { bytes.len() / 2 } else { 1 };
    if even + odd == 0 {
        NullLayout::NoNul
    } else if 10 * odd >= 3 * pairs && 10 * even < pairs {
        NullLayout::Utf16Le
    } else if 10 * even >= 3 * pairs && 10 * odd < pairs {
        NullLayout::Utf16Be
    } else {
        NullLayout::Irregular
    }
}

pub open spec fn null_layout_label(layout: NullLayout) -> Seq<char> {
    match layout {
        NullLayout::NoNul => "none"@,
        NullLayout::Utf16Le => "utf16le"@,
        NullLayout::Utf16Be => "utf16be"@,
        NullLayout::Irregular => "irregular"@,
    }
}

proof fn lemma_parity_step(bytes: Seq<u8>, i: int, b: u8, odd: bool)
    requires
        0 <= i < bytes.len(),
    ensures
        count_byte_at_parity(bytes.take(i + 1), b, odd) == count_byte_at_parity(bytes.take(i), b, odd)
            + if bytes[i] == b && (i % 2 == 1) == odd { 1nat } else { 0nat },
{
    assert(bytes.take(i + 1).drop_last() == bytes.take(i));
}

proof fn lemma_bytes_where_step(bytes: Seq<u8>, i: int, p: spec_fn(u8) -> bool)
    requires
        0 <= i < bytes.len(),
    ensures
        count_bytes_where(bytes.take(i + 1), p) == count_bytes_where(bytes.take(i), p) + if p(bytes[i]) {
            1nat
        } else {
            0nat
        },
{
    assert(bytes.take(i + 1).drop_last() == bytes.take(i));
}

/// Classifies the NUL bytes of `bytes`.
pub fn null_layout(bytes: &[u8]) -> (r: NullLayout)
    ensures
        r == null_layout_spec(bytes@),
{
    let mut even: usize = 0;
    let mut odd: usize = 0;
    let mut i: usize = 0;
    while i < bytes.len()
        invariant
            i <= bytes@.len(),
            even == count_byte_at_parity(bytes@.take(i as int), 0, false),
            odd == count_byte_at_parity(bytes@.take(i as int), 0, true),
            even + odd <= i,
        decreases bytes@.len() - i,
    {
        proof {
            lemma_parity_step(bytes@, i as int, 0, false);
            lemma_parity_step(bytes@, i as int, 0, true);
        }
        if bytes[i] == 0 {
            if i % 2 == 0 {
                even = even + 1;
            } else {
                odd = odd + 1;
            }
        }
        i = i + 1;
    }
    assert(bytes@.take(bytes@.len() as int) == bytes@);
    if even + odd == 0 {
        return NullLayout::NoNul;
    }
    let half = bytes.len() / 2;
    let pairs: u128 = if half >= 1 { half as u128 } else { 1 };
    let even = even as u128;
    let odd = odd as u128;
    if 10 * odd >= 3 * pairs && 10 * even < pairs {
        NullLayout::Utf16Le
    } else if 10 * even >= 3 * pairs && 10 * odd < pairs {
        NullLayout::Utf16Be
    } else {
        NullLayout::Irregular
    }
}

/// "none", "utf16le", "utf16be" or "irregular": the NUL-byte layout.
pub fn null_pattern(bytes: &[u8]) -> (r: &'static str)
    ensures
        r@ == null_layout_label(null_layout_spec(bytes@)),
{
    match null_layout(bytes) {
        NullLayout::NoNul => "none",
        NullLayout::Utf16Le => "utf16le",
        NullLayout::Utf16Be => "utf16be",
        NullLayout::Irregular => "irregular",
    }
}

/// File signatures of common binary formats.
pub open spec fn has_binary_signature(bytes: Seq<u8>) -> bool {
    ||| has_prefix(bytes, seq![0x89u8, 0x50u8, 0x4Eu8, 0x47u8, 0x0Du8, 0x0Au8, 0x1Au8, 0x0Au8])
    ||| has_prefix(bytes, seq![0x50u8, 0x4Bu8, 0x03u8, 0x04u8])
    ||| has_prefix(bytes, seq![0x50u8, 0x4Bu8, 0x05u8, 0x06u8])
    ||| has_prefix(bytes, seq![0x4Du8, 0x5Au8])
    ||| has_prefix(bytes, seq![0x25u8, 0x50u8, 0x44u8, 0x46u8, 0x2Du8])
    ||| has_prefix(bytes, seq![0x7Fu8, 0x45u8, 0x4Cu8, 0x46u8])
    ||| has_prefix(bytes, seq![0xFFu8, 0xD8u8, 0xFFu8])
    ||| has_prefix(bytes, seq![0x47u8, 0x49u8, 0x46u8, 0x38u8, 0x37u8, 0x61u8])
    ||| has_prefix(bytes, seq![0x47u8, 0x49u8, 0x46u8, 0x38u8, 0x39u8, 0x61u8])
    ||| has_prefix(bytes, seq![0x1Fu8, 0x8Bu8])
    ||| has_prefix(bytes, seq![0xD0u8, 0xCFu8, 0x11u8, 0xE0u8])
    ||| has_prefix(
        bytes,
        seq![
            0x53u8, 0x51u8, 0x4Cu8, 0x69u8, 0x74u8, 0x65u8, 0x20u8, 0x66u8,
            0x6Fu8, 0x72u8, 0x6Du8, 0x61u8, 0x74u8, 0x20u8, 0x33u8, 0x00u8,
        ],
    )
}

/// Bytes that begin with the signature of a binary format are binary,
/// whatever follows: PNG, ZIP, empty ZIP, DOS/Windows executable, PDF, ELF, JPEG, GIF87a, GIF89a, gzip, OLE compound file, SQLite 3.
pub proof fn law_binary_signatures(b: Seq<u8>)
    ensures
        b.len() >= 8 && b[0] == 0x89u8 && b[1] == 0x50u8 && b[2] == 0x4Eu8 && b[3] == 0x47u8 && b[4] == 0x0Du8 && b[5] == 0x0Au8 && b[6] == 0x1Au8 && b[7] == 0x0Au8 ==> is_binary_spec(b),
        b.len() >= 4 && b[0] == 0x50u8 && b[1] == 0x4Bu8 && b[2] == 0x03u8 && b[3] == 0x04u8 ==> is_binary_spec(b),
        b.len() >= 4 && b[0] == 0x50u8 && b[1] == 0x4Bu8 && b[2] == 0x05u8 && b[3] == 0x06u8 ==> is_binary_spec(b),
        b.len() >= 2 && b[0] == 0x4Du8 && b[1] == 0x5Au8 ==> is_binary_spec(b),
        b.len() >= 5 && b[0] == 0x25u8 && b[1] == 0x50u8 && b[2] == 0x44u8 && b[3] == 0x46u8 && b[4] == 0x2Du8 ==> is_binary_spec(b),
        b.len() >= 4 && b[0] == 0x7Fu8 && b[1] == 0x45u8 && b[2] == 0x4Cu8 && b[3] == 0x46u8 ==> is_binary_spec(b),
        b.len() >= 3 && b[0] == 0xFFu8 && b[1] == 0xD8u8 && b[2] == 0xFFu8 ==> is_binary_spec(b),
        b.len() >= 6 && b[0] == 0x47u8 && b[1] == 0x49u8 && b[2] == 0x46u8 && b[3] == 0x38u8 && b[4] == 0x37u8 && b[5] == 0x61u8 ==> is_binary_spec(b),
        b.len() >= 6 && b[0] == 0x47u8 && b[1] == 0x49u8 && b[2] == 0x46u8 && b[3] == 0x38u8 && b[4] == 0x39u8 && b[5] == 0x61u8 ==> is_binary_spec(b),
        b.len() >= 2 && b[0] == 0x1Fu8 && b[1] == 0x8Bu8 ==> is_binary_spec(b),
        b.len() >= 4 && b[0] == 0xD0u8 && b[1] == 0xCFu8 && b[2] == 0x11u8 && b[3] == 0xE0u8 ==> is_binary_spec(b),
        b.len() >= 16 && b[0] == 0x53u8 && b[1] == 0x51u8 && b[2] == 0x4Cu8 && b[3] == 0x69u8 && b[4] == 0x74u8 && b[5] == 0x65u8 && b[6] == 0x20u8 && b[7] == 0x66u8 && b[8] == 0x6Fu8 && b[9] == 0x72u8 && b[10] == 0x6Du8 && b[11] == 0x61u8 && b[12] == 0x74u8 && b[13] == 0x20u8 && b[14] == 0x33u8 && b[15] == 0x00u8 ==> is_binary_spec(b),
{
    if b.len() >= 8 && b[0] == 0x89u8 && b[1] == 0x50u8 && b[2] == 0x4Eu8 && b[3] == 0x47u8 && b[4] == 0x0Du8 && b[5] == 0x0Au8 && b[6] == 0x1Au8 && b[7] == 0x0Au8 {
        assert(b.subrange(0, 8) =~= seq![0x89u8, 0x50u8, 0x4Eu8, 0x47u8, 0x0Du8, 0x0Au8, 0x1Au8, 0x0Au8]);
    }
    if b.len() >= 4 && b[0] == 0x50u8 && b[1] == 0x4Bu8 && b[2] == 0x03u8 && b[3] == 0x04u8 {
        assert(b.subrange(0, 4) =~= seq![0x50u8, 0x4Bu8, 0x03u8, 0x04u8]);
    }
    if b.len() >= 4 && b[0] == 0x50u8 && b[1] == 0x4Bu8 && b[2] == 0x05u8 && b[3] == 0x06u8 {
        assert(b.subrange(0, 4) =~= seq![0x50u8, 0x4Bu8, 0x05u8, 0x06u8]);
    }
    if b.len() >= 2 && b[0] == 0x4Du8 && b[1] == 0x5Au8 {
        assert(b.subrange(0, 2) =~= seq![0x4Du8, 0x5Au8]);
    }
    if b.len() >= 5 && b[0] == 0x25u8 && b[1] == 0x50u8 && b[2] == 0x44u8 && b[3] == 0x46u8 && b[4] == 0x2Du8 {
        assert(b.subrange(0, 5) =~= seq![0x25u8, 0x50u8, 0x44u8, 0x46u8, 0x2Du8]);
    }
    if b.len() >= 4 && b[0] == 0x7Fu8 && b[1] == 0x45u8 && b[2] == 0x4Cu8 && b[3] == 0x46u8 {
        assert(b.subrange(0, 4) =~= seq![0x7Fu8, 0x45u8, 0x4Cu8, 0x46u8]);
    }
    if b.len() >= 3 && b[0] == 0xFFu8 && b[1] == 0xD8u8 && b[2] == 0xFFu8 {
        assert(b.subrange(0, 3) =~= seq![0xFFu8, 0xD8u8, 0xFFu8]);
    }
    if b.len() >= 6 && b[0] == 0x47u8 && b[1] == 0x49u8 && b[2] == 0x46u8 && b[3] == 0x38u8 && b[4] == 0x37u8 && b[5] == 0x61u8 {
        assert(b.subrange(0, 6) =~= seq![0x47u8, 0x49u8, 0x46u8, 0x38u8, 0x37u8, 0x61u8]);
    }
    if b.len() >= 6 && b[0] == 0x47u8 && b[1] == 0x49u8 && b[2] == 0x46u8 && b[3] == 0x38u8 && b[4] == 0x39u8 && b[5] == 0x61u8 {
        assert(b.subrange(0, 6) =~= seq![0x47u8, 0x49u8, 0x46u8, 0x38u8, 0x39u8, 0x61u8]);
    }
    if b.len() >= 2 && b[0] == 0x1Fu8 && b[1] == 0x8Bu8 {
        assert(b.subrange(0, 2) =~= seq![0x1Fu8, 0x8Bu8]);
    }
    if b.len() >= 4 && b[0] == 0xD0u8 && b[1] == 0xCFu8 && b[2] == 0x11u8 && b[3] == 0xE0u8 {
        assert(b.subrange(0, 4) =~= seq![0xD0u8, 0xCFu8, 0x11u8, 0xE0u8]);
    }
    if b.len() >= 16 && b[0] == 0x53u8 && b[1] == 0x51u8 && b[2] == 0x4Cu8 && b[3] == 0x69u8 && b[4] == 0x74u8 && b[5] == 0x65u8 && b[6] == 0x20u8 && b[7] == 0x66u8 && b[8] == 0x6Fu8 && b[9] == 0x72u8 && b[10] == 0x6Du8 && b[11] == 0x61u8 && b[12] == 0x74u8 && b[13] == 0x20u8 && b[14] == 0x33u8 && b[15] == 0x00u8 {
        assert(b.subrange(0, 16) =~= seq![0x53u8, 0x51u8, 0x4Cu8, 0x69u8, 0x74u8, 0x65u8, 0x20u8, 0x66u8, 0x6Fu8, 0x72u8, 0x6Du8, 0x61u8, 0x74u8, 0x20u8, 0x33u8, 0x00u8]);
    }
}

/// A C0 control byte other than tab, line feed, form feed and carriage return.
pub open spec fn is_control_byte(b: u8) -> bool {
    b < 32 && !(b == 9 || b == 10 || b == 12 || b == 13)
}

/// `is_binary`: an unsupported BOM or a binary signature, or else (without a
/// supported BOM or a UTF-16 NUL layout) more than 3% NUL bytes or more than
/// 20% control bytes. Integer comparison equals the `f64` one for every
/// input shorter than 2^50 bytes.
pub open spec fn is_binary_spec(bytes: Seq<u8>) -> bool {
    let length = if bytes.len() >= 1 { bytes.len() } else { 1 };
    let zeros = count_bytes_where(bytes, |b: u8| b == 0);
    let controls = count_bytes_where(bytes, |b: u8| is_control_byte(b));
    if unsupported_bom_spec(bytes) is Some || has_binary_signature(bytes) {
        true
    } else if detect_bom_spec(bytes) is Some || null_layout_spec(bytes) == NullLayout::Utf16Le
        || null_layout_spec(bytes) == NullLayout::Utf16Be {
        false
    } else {
        100 * zeros > 3 * length || 5 * controls > length
    }
}

fn binary_signature(bytes: &[u8]) -> (r: bool)
    ensures
        r == has_binary_signature(bytes@),
{
    let png: [u8; 8] = [0x89, 0x50, 0x4E, 0x47, 0x0D, 0x0A, 0x1A, 0x0A];
    let zip: [u8; 4] = [0x50, 0x4B, 0x03, 0x04];
    let zip_empty: [u8; 4] = [0x50, 0x4B, 0x05, 0x06];
    let exe: [u8; 2] = [0x4D, 0x5A];
    let pdf: [u8; 5] = [0x25, 0x50, 0x44, 0x46, 0x2D];
    let elf: [u8; 4] = [0x7F, 0x45, 0x4C, 0x46];
    let jpeg: [u8; 3] = [0xFF, 0xD8, 0xFF];
    let gif87: [u8; 6] = [0x47, 0x49, 0x46, 0x38, 0x37, 0x61];
    let gif89: [u8; 6] = [0x47, 0x49, 0x46, 0x38, 0x39, 0x61];
    let gzip: [u8; 2] = [0x1F, 0x8B];
    let ole: [u8; 4] = [0xD0, 0xCF, 0x11, 0xE0];
    let sqlite: [u8; 16] = [
        0x53, 0x51, 0x4C, 0x69, 0x74, 0x65, 0x20, 0x66, 0x6F, 0x72, 0x6D, 0x61, 0x74, 0x20, 0x33,
        0x00,
    ];
    assert(png@ =~= seq![0x89u8, 0x50u8, 0x4Eu8, 0x47u8, 0x0Du8, 0x0Au8, 0x1Au8, 0x0Au8]);
    assert(zip@ =~= seq![0x50u8, 0x4Bu8, 0x03u8, 0x04u8]);
    assert(zip_empty@ =~= seq![0x50u8, 0x4Bu8, 0x05u8, 0x06u8]);
    assert(exe@ =~= seq![0x4Du8, 0x5Au8]);
    assert(pdf@ =~= seq![0x25u8, 0x50u8, 0x44u8, 0x46u8, 0x2Du8]);
    assert(elf@ =~= seq![0x7Fu8, 0x45u8, 0x4Cu8, 0x46u8]);
    assert(jpeg@ =~= seq![0xFFu8, 0xD8u8, 0xFFu8]);
    assert(gif87@ =~= seq![0x47u8, 0x49u8, 0x46u8, 0x38u8, 0x37u8, 0x61u8]);
    assert(gif89@ =~= seq![0x47u8, 0x49u8, 0x46u8, 0x38u8, 0x39u8, 0x61u8]);
    assert(gzip@ =~= seq![0x1Fu8, 0x8Bu8]);
    assert(ole@ =~= seq![0xD0u8, 0xCFu8, 0x11u8, 0xE0u8]);
    assert(sqlite@ =~= seq![
        0x53u8, 0x51u8, 0x4Cu8, 0x69u8, 0x74u8, 0x65u8, 0x20u8, 0x66u8,
        0x6Fu8, 0x72u8, 0x6Du8, 0x61u8, 0x74u8, 0x20u8, 0x33u8, 0x00u8,
    ]);
    starts_with(bytes, &png) || starts_with(bytes, &zip) || starts_with(bytes, &zip_empty)
        || starts_with(bytes, &exe) || starts_with(bytes, &pdf) || starts_with(bytes, &elf)
        || starts_with(bytes, &jpeg) || starts_with(bytes, &gif87) || starts_with(bytes, &gif89)
        || starts_with(bytes, &gzip) || starts_with(bytes, &ole) || starts_with(bytes, &sqlite)
}

/// Binary signatures and strong unexplained NUL or control evidence mark
/// data that recovery must not treat as text.
pub fn is_binary(bytes: &[u8]) -> (r: bool)
    ensures
        r == is_binary_spec(bytes@),
{
    if unsupported_bom(bytes).is_some() {
        return true;
    }
    if binary_signature(bytes) {
        return true;
    }
    let layout = null_layout(bytes);
    if detect_bom(bytes).is_some() || layout == NullLayout::Utf16Le || layout == NullLayout::Utf16Be {
        return false;
    }
    let mut zeros: usize = 0;
    let mut controls: usize = 0;
    let mut i: usize = 0;
    while i < bytes.len()
        invariant
            i <= bytes@.len(),
            zeros == count_bytes_where(bytes@.take(i as int), |b: u8| b == 0),
            controls == count_bytes_where(bytes@.take(i as int), |b: u8| is_control_byte(b)),
            zeros <= i && controls <= i,
        decreases bytes@.len() - i,
    {
        proof {
            lemma_bytes_where_step(bytes@, i as int, |b: u8| b == 0);
            lemma_bytes_where_step(bytes@, i as int, |b: u8| is_control_byte(b));
        }
        let b = bytes[i];
        if b == 0 {
            zeros = zeros + 1;
        }
        if b < 32 && !(b == 9 || b == 10 || b == 12 || b == 13) {
            controls = controls + 1;
        }
        i = i + 1;
    }
    assert(bytes@.take(bytes@.len() as int) == bytes@);
    let length: u128 = if bytes.len() >= 1 { bytes.len() as u128 } else { 1 };
    100 * (zeros as u128) > 3 * length || 5 * (controls as u128) > length
}

// ---------------------------------------------------------------------------
// Detector

/// The label that `detect_label` gives: a supported BOM's codec, else a UTF-16
/// NUL layout, else chardetng's guess.
pub open spec fn detect_label_spec(bytes: Seq<u8>, complete: bool) -> Seq<char> {
    if let Some((codec, _)) = detect_bom_spec(bytes) {
        codec_name(codec)
    } else if null_layout_spec(bytes) == NullLayout::Utf16Le {
        codec_name(Codec::Utf16Le)
    } else if null_layout_spec(bytes) == NullLayout::Utf16Be {
        codec_name(Codec::Utf16Be)
    } else {
        chardet_guess(bytes, complete)
    }
}

fn detect_label(bytes: &[u8], complete: bool) -> (r: &'static str)
    ensures
        r@ == detect_label_spec(bytes@, complete),
{
    if let Some((codec, _)) = detect_bom(bytes) {
        return codec.name();
    }
    match null_layout(bytes) {
        NullLayout::Utf16Le => return Codec::Utf16Le.name(),
        NullLayout::Utf16Be => return Codec::Utf16Be.name(),
        _ => {},
    }
    chardet_label(bytes, complete)
}

/// The detector's label for complete input.
pub fn detector_label(bytes: &[u8]) -> (r: &'static str)
    ensures
        r@ == detect_label_spec(bytes@, true),
{
    detect_label(bytes, true)
}

/// A prefix of a larger file is not end-of-stream. Let the detector retain a
/// trailing multibyte lead as pending input instead of scoring it malformed.
pub fn detector_label_prefix(bytes: &[u8]) -> (r: &'static str)
    ensures
        r@ == detect_label_spec(bytes@, false),
{
    detect_label(bytes, false)
}

} // verus!

verus! {

/// The number of script groups other than Common among the first `n`
/// groups that occur in a text with group counts `scripts`.
pub open spec fn meaningful_count(scripts: Seq<usize>, n: int) -> nat
    decreases n,
{
    if n <= 0 {
        0
    } else {
        meaningful_count(scripts, n - 1) + (if n - 1 != script_class_index(ScriptClass::Common)
            && scripts[n - 1] > 0 {
            1nat
        } else {
            0nat
        })
    }
}

/// How many script groups other than Common occur: the fragmentation that
/// the script-coherence preference looks at.
pub fn meaningful_scripts(m: &Metrics) -> (r: usize)
    requires
        m.scripts@.len() == 11,
    ensures
        r == meaningful_count(m.scripts@, 11),
{
    let mut n: usize = 0;
    let mut k: usize = 0;
    while k < 11
        invariant
            k <= 11,
            m.scripts@.len() == 11,
            n == meaningful_count(m.scripts@, k as int),
            n <= k,
        decreases 11 - k,
    {
        if k != 1 && m.scripts[k] > 0 {
            n = n + 1;
        }
        k = k + 1;
    }
    n
}

/// The integer and textual evidence about a text and its raw bytes; the
/// ratios are drawn from `metrics`.
pub struct EvidenceFacts {
    pub metrics: Metrics,
    pub bom: Option<String>,
    pub valid_utf8: Option<bool>,
    pub null_byte_pattern: String,
    pub replacement_count: usize,
    pub line_count: usize,
    pub detector_suggestion: Option<String>,
    pub hex_prefix: String,
    pub sampled: bool,
    pub sample_size: usize,
    pub binary: bool,
}

/// The view of an optional string.
pub open spec fn opt_view(s: Option<String>) -> Option<Seq<char>> {
    match s {
        Some(v) => Some(v@),
        None => None,
    }
}

/// The byte-order mark label: an unsupported UTF-32 mark's label, else the
/// name of the codec whose mark the bytes begin with.
pub open spec fn bom_label_spec(bytes: Seq<u8>) -> Option<Seq<char>> {
    match unsupported_bom_spec(bytes) {
        Some(label) => Some(label),
        None => match detect_bom_spec(bytes) {
            Some((codec, _)) => Some(codec_name(codec)),
            None => None,
        },
    }
}

/// Lines of a text: none in an empty text, else one more than its newlines.
pub open spec fn line_count_spec(t: Seq<char>) -> nat {
    if t.len() == 0 { 0 } else { count_char(t, '\n') + 1 }
}

/// Lines of a text: an empty text has none and a single character other
/// than a line feed makes one line; appending a line feed opens one more
/// line, and appending any other character, a carriage return included,
/// opens none, so a CRLF text has as many lines as the same text with LF.
pub proof fn law_line_count(t: Seq<char>, c: char)
    ensures
        line_count_spec(Seq::<char>::empty()) == 0,
        c != '\n' ==> line_count_spec(seq![c]) == 1,
        line_count_spec(seq!['\n']) == 2,
        t.len() > 0 && c != '\n' ==> line_count_spec(t.push(c)) == line_count_spec(t),
        t.len() > 0 ==> line_count_spec(t.push('\n')) == line_count_spec(t) + 1,
        t.len() > 0 ==> line_count_spec(t.push('\r').push('\n')) == line_count_spec(t.push('\n')),
{
    assert(seq![c].drop_last() =~= Seq::<char>::empty());
    assert(seq!['\n'].drop_last() =~= Seq::<char>::empty());
    assert(count_char(Seq::<char>::empty(), '\n') == 0);
    assert(seq![c].last() == c);
    assert(seq!['\n'].last() == '\n');
    assert(count_char(seq![c], '\n') == count_char(seq![c].drop_last(), '\n') + if c == '\n' { 1nat } else { 0nat });
    assert(count_char(seq!['\n'], '\n') == count_char(seq!['\n'].drop_last(), '\n') + 1);
    assert(t.push(c).drop_last() =~= t);
    assert(t.push('\n').drop_last() =~= t);
    assert(t.push('\r').drop_last() =~= t);
    assert(t.push('\r').push('\n').drop_last() =~= t.push('\r'));
    assert(count_char(t.push('\r'), '\n') == count_char(t, '\n'));
    assert(count_char(t.push('\r').push('\n'), '\n') == count_char(t.push('\r'), '\n') + 1);
    assert(count_char(t.push('\n'), '\n') == count_char(t, '\n') + 1);
}

/// What `evidence_facts` reports.
pub open spec fn is_evidence_facts(r: &EvidenceFacts, text: Seq<char>, bytes: Option<Seq<u8>>, sampled: bool) -> bool {
    &&& metrics_of(&r.metrics, text)
    &&& opt_view(r.bom) == match bytes {
        Some(raw) => bom_label_spec(raw),
        None => None,
    }
    &&& r.valid_utf8 == match bytes {
        Some(raw) => Some(valid_utf8(raw)),
        None => None,
    }
    &&& r.null_byte_pattern@ == match bytes {
        Some(raw) => null_layout_label(null_layout_spec(raw)),
        None => "unavailable"@,
    }
    &&& r.replacement_count == replacement_count_in(text)
    &&& r.line_count == line_count_spec(text)
    &&& opt_view(r.detector_suggestion) == match bytes {
        Some(raw) => if raw.len() > 0 { Some(detect_label_spec(raw, true)) } else { None },
        None => None,
    }
    &&& r.hex_prefix@ == match bytes {
        Some(raw) => hex_preview_spec(raw, 256),
        None => Seq::<char>::empty(),
    }
    &&& r.sampled == sampled
    &&& r.sample_size == match bytes {
        Some(raw) => raw.len(),
        None => encode_utf8(text).len(),
    }
    &&& r.binary == match bytes {
        Some(raw) => is_binary_spec(raw),
        None => false,
    }
}

fn owned_str(s: &str) -> (r: String)
    ensures
        r@ == s@,
{
    s.to_owned()
}

/// The evidence about `text`, read from `bytes` when there are any;
/// `sampled` says whether the bytes are a prefix of a larger file.
pub fn evidence_facts(text: &str, bytes: Option<&[u8]>, sampled: bool) -> (r: EvidenceFacts)
    requires
        encode_utf8(text@).len() <= usize::MAX / 32,
    ensures
        is_evidence_facts(
            &r,
            text@,
            match bytes {
                Some(b) => Some(b@),
                None => None,
            },
            sampled,
        ),
{
    proof {
        crate::codec::lemma_encoded_lengths(text@);
    }
    let values = metrics(text);
    let chars = chars_of(text);
    let newlines = count_chars(chars.as_slice(), '\n');
    let line_count = if chars.len() == 0 {
        0
    } else {
        proof {
            crate::strings::lemma_count_char_bound(chars@, '\n');
        }
        newlines + 1
    };
    let replacement_count = values.replacements;
    let sample_size = match bytes {
        Some(raw) => raw.len(),
        None => text.len(),
    };
    match bytes {
        Some(raw) => {
            let bom = match unsupported_bom(raw) {
                Some(label) => Some(owned_str(label)),
                None => match detect_bom(raw) {
                    Some((codec, _)) => Some(owned_str(codec.name())),
                    None => None,
                },
            };
            let detector_suggestion = if raw.len() > 0 {
                Some(owned_str(detector_label(raw)))
            } else {
                None
            };
            EvidenceFacts {
                metrics: values,
                bom,
                valid_utf8: Some(check_utf8(raw) == Utf8Check::Valid),
                null_byte_pattern: owned_str(null_pattern(raw)),
                replacement_count,
                line_count,
                detector_suggestion,
                hex_prefix: hex_preview(raw, 256),
                sampled,
                sample_size,
                binary: is_binary(raw),
            }
        },
        None => EvidenceFacts {
            metrics: values,
            bom: None,
            valid_utf8: None,
            null_byte_pattern: owned_str("unavailable"),
            replacement_count,
            line_count,
            detector_suggestion: None,
            hex_prefix: String::new(),
            sampled,
            sample_size,
            binary: false,
        },
    }
}

} // verus!

verus! {

/// A UTF-32 byte-order mark is never taken for a supported one (UTF-16LE
/// shares its first two bytes), and such bytes count as binary.
pub proof fn lemma_utf32_bom_refused(bytes: Seq<u8>)
    requires
        unsupported_bom_spec(bytes) is Some,
    ensures
        detect_bom_spec(bytes) is None,
        is_binary_spec(bytes),
{
}


/// `bytes` with the two bytes of every pair exchanged (a UTF-16 byte order
/// turned into the other).
pub open spec fn swap_pairs(bytes: Seq<u8>) -> Seq<u8> {
    Seq::new(bytes.len(), |i: int| if i % 2 == 0 { bytes[i + 1] } else { bytes[i - 1] })
}

proof fn lemma_swap_counts(bytes: Seq<u8>, k: int)
    requires
        bytes.len() % 2 == 0,
        0 <= k <= bytes.len() / 2,
    ensures
        count_byte_at_parity(swap_pairs(bytes).take(2 * k), 0, true) == count_byte_at_parity(bytes.take(2 * k), 0, false),
        count_byte_at_parity(swap_pairs(bytes).take(2 * k), 0, false) == count_byte_at_parity(bytes.take(2 * k), 0, true),
    decreases k,
{
    let s = swap_pairs(bytes);
    if k == 0 {
        assert(s.take(0) =~= Seq::<u8>::empty());
        assert(bytes.take(0) =~= Seq::<u8>::empty());
    } else {
        lemma_swap_counts(bytes, k - 1);
        let a = 2 * k - 2;
        assert(s[a] == bytes[a + 1]);
        assert(s[a + 1] == bytes[a]);
        assert(a % 2 == 0 && (a + 1) % 2 == 1);
        lemma_parity_step(s, a, 0, true);
        lemma_parity_step(s, a + 1, 0, true);
        lemma_parity_step(s, a, 0, false);
        lemma_parity_step(s, a + 1, 0, false);
        lemma_parity_step(bytes, a, 0, true);
        lemma_parity_step(bytes, a + 1, 0, true);
        lemma_parity_step(bytes, a, 0, false);
        lemma_parity_step(bytes, a + 1, 0, false);
    }
}

/// Exchanging the bytes of every pair exchanges the UTF-16 NUL layouts:
/// little-endian becomes big-endian and back, and no NUL or an irregular
/// layout stays as it is.
pub proof fn lemma_null_layout_swap(bytes: Seq<u8>)
    requires
        bytes.len() % 2 == 0,
    ensures
        null_layout_spec(swap_pairs(bytes)) == match null_layout_spec(bytes) {
            NullLayout::Utf16Le => NullLayout::Utf16Be,
            NullLayout::Utf16Be => NullLayout::Utf16Le,
            other => other,
        },
{
    let s = swap_pairs(bytes);
    lemma_swap_counts(bytes, (bytes.len() / 2) as int);
    assert(s.take(s.len() as int) =~= s);
    assert(bytes.take(bytes.len() as int) =~= bytes);
}

} // verus!
