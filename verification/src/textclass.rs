//! Character classes and counts over texts.
use crate::scripts::{script_full_name, unicode_script_name};
use crate::strings::chars_of;
use vstd::prelude::*;

verus! {

/// General category Cc (what `char::is_control` tests).
pub open spec fn is_cc(c: char) -> bool {
    (c as u32) <= 0x1F || (0x7F <= (c as u32) && (c as u32) <= 0x9F)
}

/// A control character other than tab, line feed, carriage return and form feed.
pub open spec fn is_control_spec(c: char) -> bool {
    is_cc(c) && !(c == '\t' || c == '\r' || c == '\n' || c == '\u{000C}')
}

/// The Unicode White_Space property (what `char::is_whitespace` tests).
pub open spec fn is_white_space(c: char) -> bool {
    let v = c as u32;
    (0x09 <= v && v <= 0x0D) || v == 0x20 || v == 0x85 || v == 0xA0 || v == 0x1680 || (0x2000
        <= v && v <= 0x200A) || v == 0x2028 || v == 0x2029 || v == 0x202F || v == 0x205F || v
        == 0x3000
}

pub open spec fn is_ascii_char(c: char) -> bool {
    (c as u32) < 0x80
}

pub fn is_control(ch: char) -> (r: bool)
    ensures
        r == is_control_spec(ch),
{
    let v = ch as u32;
    (v <= 0x1F || (0x7F <= v && v <= 0x9F)) && !(ch == '\t' || ch == '\r' || ch == '\n' || ch == '\u{000C}')
}

pub fn is_whitespace(ch: char) -> (r: bool)
    ensures
        r == is_white_space(ch),
{
    let v = ch as u32;
    (0x09 <= v && v <= 0x0D) || v == 0x20 || v == 0x85 || v == 0xA0 || v == 0x1680 || (0x2000
        <= v && v <= 0x200A) || v == 0x2028 || v == 0x2029 || v == 0x202F || v == 0x205F || v
        == 0x3000
}

/// Number of characters of `t` that satisfy `p`.
pub open spec fn count_where(t: Seq<char>, p: spec_fn(char) -> bool) -> nat
    decreases t.len(),
{
    if t.len() == 0 {
        0
    } else {
        count_where(t.drop_last(), p) + if p(t.last()) { 1nat } else { 0nat }
    }
}

pub proof fn lemma_count_where_step(t: Seq<char>, i: int, p: spec_fn(char) -> bool)
    requires
        0 <= i < t.len(),
    ensures
        count_where(t.take(i + 1), p) == count_where(t.take(i), p) + if p(t[i]) { 1nat } else { 0nat },
{
    assert(t.take(i + 1).drop_last() == t.take(i));
}

/// Non-overlapping occurrences of `p` in `t`, scanning from the left
/// (what `str::matches(p).count()` gives for a nonempty pattern).
pub open spec fn count_matches(t: Seq<char>, p: Seq<char>) -> nat
    decreases t.len(),
{
    if p.len() == 0 || t.len() < p.len() {
        0
    } else if t.take(p.len() as int) == p {
        1 + count_matches(t.skip(p.len() as int), p)
    } else {
        count_matches(t.skip(1), p)
    }
}

pub proof fn lemma_count_matches_bound(t: Seq<char>, p: Seq<char>)
    ensures
        count_matches(t, p) <= t.len(),
    decreases t.len(),
{
    if p.len() == 0 || t.len() < p.len() {
    } else if t.take(p.len() as int) == p {
        lemma_count_matches_bound(t.skip(p.len() as int), p);
    } else {
        lemma_count_matches_bound(t.skip(1), p);
    }
}

fn matches_at(t: &[char], i: usize, p: &[char]) -> (r: bool)
    requires
        i + p@.len() <= t@.len(),
    ensures
        r == (t@.skip(i as int).take(p@.len() as int) == p@),
{
    let tl = t.len();
    let mut k: usize = 0;
    while k < p.len()
        invariant
            i + p@.len() <= t@.len(),
            tl == t@.len(),
            k <= p@.len(),
            forall|j: int| 0 <= j < k ==> t@[i + j] == p@[j],
        decreases p@.len() - k,
    {
        if t[i + k] != p[k] {
            assert(t@.skip(i as int).take(p@.len() as int)[k as int] != p@[k as int]);
            return false;
        }
        k = k + 1;
    }
    assert(t@.skip(i as int).take(p@.len() as int) =~= p@);
    true
}

/// Counts the non-overlapping occurrences of `pattern` in `text`.
pub fn count_pattern(text: &[char], pattern: &str) -> (n: usize)
    ensures
        n == count_matches(text@, pattern@),
{
    let p = chars_of(pattern);
    if p.len() == 0 {
        return 0;
    }
    let mut n: usize = 0;
    let mut i: usize = 0;
    proof {
        assert(text@.skip(0) =~= text@);
        lemma_count_matches_bound(text@, p@);
    }
    while i <= text.len() && text.len() - i >= p.len()
        invariant
            p@ == pattern@,
            p@.len() > 0,
            i <= text@.len(),
            n + count_matches(text@.skip(i as int), p@) == count_matches(text@, p@),
            count_matches(text@, p@) <= text@.len(),
        decreases text@.len() - i,
    {
        let ghost rest = text@.skip(i as int);
        if matches_at(text, i, p.as_slice()) {
            assert(rest.skip(p@.len() as int) =~= text@.skip(i + p@.len()));
            n = n + 1;
            i = i + p.len();
        } else {
            assert(rest.skip(1) =~= text@.skip(i + 1));
            i = i + 1;
        }
    }
    n
}

// ---------------------------------------------------------------------------
// Scripts

/// The script groups that the evidence distinguishes, in the order of their
/// names.
#[derive(Clone, Copy, Debug, PartialEq, Eq, Structural)]
pub enum ScriptClass {
    Arabic,
    Common,
    Cyrillic,
    Greek,
    Han,
    Hangul,
    Hebrew,
    Hiragana,
    Katakana,
    Latin,
    Other,
}

/// Position of each script group in name order.
pub open spec fn script_class_index(class: ScriptClass) -> nat {
    match class {
        ScriptClass::Arabic => 0,
        ScriptClass::Common => 1,
        ScriptClass::Cyrillic => 2,
        ScriptClass::Greek => 3,
        ScriptClass::Han => 4,
        ScriptClass::Hangul => 5,
        ScriptClass::Hebrew => 6,
        ScriptClass::Hiragana => 7,
        ScriptClass::Katakana => 8,
        ScriptClass::Latin => 9,
        ScriptClass::Other => 10,
    }
}

/// The group of a unicode-script full name: the nine named scripts keep
/// their name, Common and Inherited are Common, anything else is Other.
pub open spec fn class_of_script_name(name: Seq<char>) -> ScriptClass {
    if name == "Han"@ {
        ScriptClass::Han
    } else if name == "Hiragana"@ {
        ScriptClass::Hiragana
    } else if name == "Katakana"@ {
        ScriptClass::Katakana
    } else if name == "Hangul"@ {
        ScriptClass::Hangul
    } else if name == "Latin"@ {
        ScriptClass::Latin
    } else if name == "Cyrillic"@ {
        ScriptClass::Cyrillic
    } else if name == "Arabic"@ {
        ScriptClass::Arabic
    } else if name == "Greek"@ {
        ScriptClass::Greek
    } else if name == "Hebrew"@ {
        ScriptClass::Hebrew
    } else if name == "Common"@ || name == "Inherited"@ {
        ScriptClass::Common
    } else {
        ScriptClass::Other
    }
}

/// The display name of each script group.
pub open spec fn script_class_name(class: ScriptClass) -> Seq<char> {
    match class {
        ScriptClass::Arabic => "Arabic"@,
        ScriptClass::Common => "Common"@,
        ScriptClass::Cyrillic => "Cyrillic"@,
        ScriptClass::Greek => "Greek"@,
        ScriptClass::Han => "Han"@,
        ScriptClass::Hangul => "Hangul"@,
        ScriptClass::Hebrew => "Hebrew"@,
        ScriptClass::Hiragana => "Hiragana"@,
        ScriptClass::Katakana => "Katakana"@,
        ScriptClass::Latin => "Latin"@,
        ScriptClass::Other => "Other"@,
    }
}

/// The script group of a character.
pub open spec fn script_class_of(c: char) -> ScriptClass {
    class_of_script_name(unicode_script_name(c))
}

fn str_is(a: &str, b: &str) -> (r: bool)
    ensures
        r == (a@ == b@),
{
    crate::strings::str_equal(a, b)
}

impl ScriptClass {
    pub fn index(self) -> (r: usize)
        ensures
            r == script_class_index(self),
    {
        match self {
            ScriptClass::Arabic => 0,
            ScriptClass::Common => 1,
            ScriptClass::Cyrillic => 2,
            ScriptClass::Greek => 3,
            ScriptClass::Han => 4,
            ScriptClass::Hangul => 5,
            ScriptClass::Hebrew => 6,
            ScriptClass::Hiragana => 7,
            ScriptClass::Katakana => 8,
            ScriptClass::Latin => 9,
            ScriptClass::Other => 10,
        }
    }

    /// The group at a name-order position.
    pub fn from_index(k: usize) -> (r: ScriptClass)
        requires
            k < 11,
        ensures
            script_class_index(r) == k,
    {
        match k {
            0 => ScriptClass::Arabic,
            1 => ScriptClass::Common,
            2 => ScriptClass::Cyrillic,
            3 => ScriptClass::Greek,
            4 => ScriptClass::Han,
            5 => ScriptClass::Hangul,
            6 => ScriptClass::Hebrew,
            7 => ScriptClass::Hiragana,
            8 => ScriptClass::Katakana,
            9 => ScriptClass::Latin,
            _ => ScriptClass::Other,
        }
    }

    /// The group's display name.
    pub fn name(self) -> (r: &'static str)
        ensures
            r@ == script_class_name(self),
    {
        match self {
            ScriptClass::Arabic => "Arabic",
            ScriptClass::Common => "Common",
            ScriptClass::Cyrillic => "Cyrillic",
            ScriptClass::Greek => "Greek",
            ScriptClass::Han => "Han",
            ScriptClass::Hangul => "Hangul",
            ScriptClass::Hebrew => "Hebrew",
            ScriptClass::Hiragana => "Hiragana",
            ScriptClass::Katakana => "Katakana",
            ScriptClass::Latin => "Latin",
            ScriptClass::Other => "Other",
        }
    }

    /// The script group of `ch`.
    pub fn of(ch: char) -> (r: ScriptClass)
        ensures
            r == script_class_of(ch),
    {
        let name = script_full_name(ch);
        if str_is(name, "Han") {
            ScriptClass::Han
        } else if str_is(name, "Hiragana") {
            ScriptClass::Hiragana
        } else if str_is(name, "Katakana") {
            ScriptClass::Katakana
        } else if str_is(name, "Hangul") {
            ScriptClass::Hangul
        } else if str_is(name, "Latin") {
            ScriptClass::Latin
        } else if str_is(name, "Cyrillic") {
            ScriptClass::Cyrillic
        } else if str_is(name, "Arabic") {
            ScriptClass::Arabic
        } else if str_is(name, "Greek") {
            ScriptClass::Greek
        } else if str_is(name, "Hebrew") {
            ScriptClass::Hebrew
        } else if str_is(name, "Common") || str_is(name, "Inherited") {
            ScriptClass::Common
        } else {
            ScriptClass::Other
        }
    }
}

} // verus!
