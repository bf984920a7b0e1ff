//! UTF-8 well-formedness of byte sequences, as `std::str::from_utf8` reports
//! it: valid, cut off inside a final character, or malformed.
use vstd::prelude::*;
use vstd::utf8::{
    decode_first_codepoint, length_of_first_scalar, pop_first_scalar, valid_first_scalar,
    valid_utf8,
};

verus! {

/// Length of the longest prefix of `bytes` made of well-formed UTF-8
/// characters, read from the start (`valid_up_to` of `from_utf8`).
pub open spec fn utf8_valid_prefix_len(bytes: Seq<u8>) -> nat
    decreases bytes.len(),
{
    if bytes.len() > 0 && valid_first_scalar(bytes) {
        proof {
            lemma_first_scalar_len(bytes);
        }
        length_of_first_scalar(bytes) as nat + utf8_valid_prefix_len(pop_first_scalar(bytes))
    } else {
        0
    }
}

/// The second byte that may follow a multi-byte lead in well-formed UTF-8
/// (Unicode Table 3-7).
pub open spec fn second_byte_allowed(lead: u8, b: u8) -> bool {
    if lead == 0xE0 {
        0xA0 <= b <= 0xBF
    } else if lead == 0xED {
        0x80 <= b <= 0x9F
    } else if lead == 0xF0 {
        0x90 <= b <= 0xBF
    } else if lead == 0xF4 {
        0x80 <= b <= 0x8F
    } else {
        0x80 <= b <= 0xBF
    }
}

/// A nonempty proper prefix of a well-formed multi-byte UTF-8 sequence:
/// input that ends before its last character is complete.
pub open spec fn truncated_utf8_sequence(t: Seq<u8>) -> bool {
    if t.len() == 1 {
        0xC2 <= t[0] <= 0xF4
    } else if t.len() == 2 {
        0xE0 <= t[0] <= 0xF4 && second_byte_allowed(t[0], t[1])
    } else if t.len() == 3 {
        0xF0 <= t[0] <= 0xF4 && second_byte_allowed(t[0], t[1]) && 0x80 <= t[2] <= 0xBF
    } else {
        false
    }
}

/// What `std::str::from_utf8` reports about a byte sequence.
#[derive(Clone, Copy, Debug, PartialEq, Eq, Structural)]
pub enum Utf8Check {
    /// Well-formed UTF-8.
    Valid,
    /// Well-formed up to `valid_up_to`, then cut off inside a character
    /// (`error_len()` is `None`).
    Incomplete { valid_up_to: usize },
    /// A malformed sequence follows `valid_up_to` (`error_len()` is `Some`).
    Invalid { valid_up_to: usize },
}

pub open spec fn utf8_check_spec(bytes: Seq<u8>) -> Utf8Check {
    let v = utf8_valid_prefix_len(bytes);
    if v == bytes.len() {
        Utf8Check::Valid
    } else if truncated_utf8_sequence(bytes.subrange(v as int, bytes.len() as int)) {
        Utf8Check::Incomplete { valid_up_to: v as usize }
    } else {
        Utf8Check::Invalid { valid_up_to: v as usize }
    }
}

pub proof fn lemma_first_scalar_len(bytes: Seq<u8>)
    requires
        bytes.len() > 0,
        valid_first_scalar(bytes),
    ensures
        1 <= length_of_first_scalar(bytes) <= 4,
        length_of_first_scalar(bytes) <= bytes.len(),
{
}

/// The longest well-formed prefix is all of the input exactly when the input
/// is well-formed, and that prefix is always well-formed.
pub proof fn lemma_valid_prefix_len(bytes: Seq<u8>)
    ensures
        utf8_valid_prefix_len(bytes) <= bytes.len(),
        valid_utf8(bytes) <==> utf8_valid_prefix_len(bytes) == bytes.len(),
        valid_utf8(bytes.subrange(0, utf8_valid_prefix_len(bytes) as int)),
    decreases bytes.len(),
{
    if bytes.len() > 0 && valid_first_scalar(bytes) {
        lemma_first_scalar_len(bytes);
        let rest = pop_first_scalar(bytes);
        lemma_valid_prefix_len(rest);
        let l = length_of_first_scalar(bytes);
        let v = utf8_valid_prefix_len(bytes);
        let pre = bytes.subrange(0, v as int);
        assert(pre.len() > 0);
        assert(valid_first_scalar(pre)) by {
            assert(pre[0] == bytes[0]);
            assert(l <= pre.len());
            if l >= 2 { assert(pre[1] == bytes[1]); }
            if l >= 3 { assert(pre[2] == bytes[2]); }
            if l >= 4 { assert(pre[3] == bytes[3]); }
        }
        assert(length_of_first_scalar(pre) == l);
        assert(pop_first_scalar(pre) =~= rest.subrange(0, utf8_valid_prefix_len(rest) as int));
    } else {
        assert(bytes.subrange(0, 0) =~= Seq::<u8>::empty());
    }
}

/// `Some(length)` of the well-formed character at `pos`, if there is one.
fn first_scalar_at(bytes: &[u8], pos: usize) -> (r: Option<usize>)
    requires
        pos < bytes@.len(),
    ensures
        r is Some <==> valid_first_scalar(bytes@.subrange(pos as int, bytes@.len() as int)),
        r matches Some(l) ==> l == length_of_first_scalar(bytes@.subrange(pos as int, bytes@.len() as int)),
{
    let ghost s = bytes@.subrange(pos as int, bytes@.len() as int);
    let n = bytes.len() - pos;
    let b0 = bytes[pos];
    assert(s[0] == b0);
    if b0 <= 0x7F {
        return Some(1);
    }
    if 0xC0 <= b0 && b0 <= 0xDF {
        if n < 2 {
            return None;
        }
        let b1 = bytes[pos + 1];
        assert(s[1] == b1);
        if !(0x80 <= b1 && b1 <= 0xBF) {
            return None;
        }
        let cp: u32 = (((b0 & 0x1F) as u32) << 6) | ((b1 & 0x3F) as u32);
        assert(cp == decode_first_codepoint(s));
        if cp >= 0x80 && !(0xD800 <= cp && cp <= 0xDFFF) {
            return Some(2);
        }
        return None;
    }
    if 0xE0 <= b0 && b0 <= 0xEF {
        if n < 3 {
            return None;
        }
        let b1 = bytes[pos + 1];
        let b2 = bytes[pos + 2];
        assert(s[1] == b1 && s[2] == b2);
        if !(0x80 <= b1 && b1 <= 0xBF && 0x80 <= b2 && b2 <= 0xBF) {
            return None;
        }
        let cp: u32 = (((b0 & 0x0F) as u32) << 12) | (((b1 & 0x3F) as u32) << 6) | ((b2 & 0x3F) as u32);
        assert(cp == decode_first_codepoint(s));
        if cp >= 0x800 && !(0xD800 <= cp && cp <= 0xDFFF) {
            return Some(3);
        }
        return None;
    }
    if 0xF0 <= b0 && b0 <= 0xF7 {
        if n < 4 {
            return None;
        }
        let b1 = bytes[pos + 1];
        let b2 = bytes[pos + 2];
        let b3 = bytes[pos + 3];
        assert(s[1] == b1 && s[2] == b2 && s[3] == b3);
        if !(0x80 <= b1 && b1 <= 0xBF && 0x80 <= b2 && b2 <= 0xBF && 0x80 <= b3 && b3 <= 0xBF) {
            return None;
        }
        let cp: u32 = (((b0 & 0x07) as u32) << 18) | (((b1 & 0x3F) as u32) << 12) | (((b2 & 0x3F) as u32) << 6) | ((b3 & 0x3F) as u32);
        assert(cp == decode_first_codepoint(s));
        if 0x10000 <= cp && cp <= 0x10FFFF && !(0xD800 <= cp && cp <= 0xDFFF) {
            return Some(4);
        }
        return None;
    }
    None
}

fn second_byte_ok(lead: u8, b: u8) -> (r: bool)
    ensures
        r == second_byte_allowed(lead, b),
{
    if lead == 0xE0 {
        0xA0 <= b && b <= 0xBF
    } else if lead == 0xED {
        0x80 <= b && b <= 0x9F
    } else if lead == 0xF0 {
        0x90 <= b && b <= 0xBF
    } else if lead == 0xF4 {
        0x80 <= b && b <= 0x8F
    } else {
        0x80 <= b && b <= 0xBF
    }
}

fn is_truncated_tail(bytes: &[u8], pos: usize) -> (r: bool)
    requires
        pos <= bytes@.len(),
    ensures
        r == truncated_utf8_sequence(bytes@.subrange(pos as int, bytes@.len() as int)),
{
    let ghost t = bytes@.subrange(pos as int, bytes@.len() as int);
    let n = bytes.len() - pos;
    if n == 1 {
        assert(t[0] == bytes@[pos as int]);
        0xC2 <= bytes[pos] && bytes[pos] <= 0xF4
    } else if n == 2 {
        assert(t[0] == bytes@[pos as int] && t[1] == bytes@[pos + 1]);
        0xE0 <= bytes[pos] && bytes[pos] <= 0xF4 && second_byte_ok(bytes[pos], bytes[pos + 1])
    } else if n == 3 {
        assert(t[0] == bytes@[pos as int] && t[1] == bytes@[pos + 1] && t[2] == bytes@[pos + 2]);
        0xF0 <= bytes[pos] && bytes[pos] <= 0xF4 && second_byte_ok(bytes[pos], bytes[pos + 1])
            && 0x80 <= bytes[pos + 2] && bytes[pos + 2] <= 0xBF
    } else {
        false
    }
}

/// Classifies `bytes` as `std::str::from_utf8` does: well-formed, cut off at
/// the end inside a character, or malformed, with the length of the longest
/// well-formed prefix.
pub fn check_utf8(bytes: &[u8]) -> (r: Utf8Check)
    ensures
        r == utf8_check_spec(bytes@),
        r is Valid <==> valid_utf8(bytes@),
{
    proof {
        lemma_valid_prefix_len(bytes@);
    }
    let mut pos: usize = 0;
    assert(bytes@.subrange(0, bytes@.len() as int) =~= bytes@);
    while pos < bytes.len()
        invariant
            pos <= bytes@.len(),
            pos + utf8_valid_prefix_len(bytes@.subrange(pos as int, bytes@.len() as int))
                == utf8_valid_prefix_len(bytes@),
            valid_utf8(bytes@) <==> utf8_valid_prefix_len(bytes@) == bytes@.len(),
        decreases bytes@.len() - pos,
    {
        let ghost s = bytes@.subrange(pos as int, bytes@.len() as int);
        match first_scalar_at(bytes, pos) {
            Some(l) => {
                proof {
                    lemma_first_scalar_len(s);
                    assert(pop_first_scalar(s) =~= bytes@.subrange(pos + l, bytes@.len() as int));
                }
                pos = pos + l;
            },
            None => {
                assert(utf8_valid_prefix_len(s) == 0);
                if is_truncated_tail(bytes, pos) {
                    return Utf8Check::Incomplete { valid_up_to: pos };
                } else {
                    return Utf8Check::Invalid { valid_up_to: pos };
                }
            },
        }
    }
    assert(utf8_valid_prefix_len(bytes@.subrange(pos as int, bytes@.len() as int)) == 0);
    Utf8Check::Valid
}

} // verus!
