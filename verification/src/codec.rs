//! The byte/text boundary of the library: the supported codecs, their names
//! and labels, byte-order marks, and strict encoding and decoding. No encoder
//! is allowed to substitute numeric character references.
use crate::hexfmt::{hex_format, push_hex};
use crate::strings::{
    bytes_equal, chars_equal, chars_of, count_char, count_chars, has_prefix, starts_with,
    string_from_chars,
};
use crate::whatwg::{
    whatwg_decode, whatwg_decoded, whatwg_encode, whatwg_encoded, within_buffer_limit,
    LegacyEncodeError,
};
use vstd::prelude::*;
use vstd::utf8::{decode_utf8, encode_scalar, encode_utf8, valid_utf8};

verus! {

/// The character encodings that the library can reason about.
#[derive(Clone, Copy, Debug, PartialEq, Eq, Hash, Structural)]
pub enum Codec {
    Utf8,
    Utf16Le,
    Utf16Be,
    Gbk,
    Gb18030,
    Big5,
    ShiftJis,
    EucJp,
    EucKr,
    Windows1252,
    Latin1,
}

/// Every codec, in the order in which interpretations are tried.
pub const CODECS: [Codec; 11] = [
    Codec::Utf8,
    Codec::Windows1252,
    Codec::Latin1,
    Codec::Gbk,
    Codec::Gb18030,
    Codec::Big5,
    Codec::ShiftJis,
    Codec::EucJp,
    Codec::EucKr,
    Codec::Utf16Le,
    Codec::Utf16Be,
];

/// The codec at position `i` of `CODECS`.
pub open spec fn codec_order(i: int) -> Codec {
    if i == 0 {
        Codec::Utf8
    } else if i == 1 {
        Codec::Windows1252
    } else if i == 2 {
        Codec::Latin1
    } else if i == 3 {
        Codec::Gbk
    } else if i == 4 {
        Codec::Gb18030
    } else if i == 5 {
        Codec::Big5
    } else if i == 6 {
        Codec::ShiftJis
    } else if i == 7 {
        Codec::EucJp
    } else if i == 8 {
        Codec::EucKr
    } else if i == 9 {
        Codec::Utf16Le
    } else {
        Codec::Utf16Be
    }
}

/// The codec at position `i` of `CODECS`.
pub fn codec_at(i: usize) -> (c: Codec)
    requires
        i < 11,
    ensures
        c == codec_order(i as int),
{
    CODECS[i]
}

/// Every codec has a position in `CODECS`.
pub proof fn lemma_codec_order_covers(c: Codec)
    ensures
        exists|i: int| 0 <= i < 11 && #[trigger] codec_order(i) == c,
{
    match c {
        Codec::Utf8 => assert(codec_order(0) == c),
        Codec::Windows1252 => assert(codec_order(1) == c),
        Codec::Latin1 => assert(codec_order(2) == c),
        Codec::Gbk => assert(codec_order(3) == c),
        Codec::Gb18030 => assert(codec_order(4) == c),
        Codec::Big5 => assert(codec_order(5) == c),
        Codec::ShiftJis => assert(codec_order(6) == c),
        Codec::EucJp => assert(codec_order(7) == c),
        Codec::EucKr => assert(codec_order(8) == c),
        Codec::Utf16Le => assert(codec_order(9) == c),
        Codec::Utf16Be => assert(codec_order(10) == c),
    }
}

/// The display name of each codec.
pub open spec fn codec_name(codec: Codec) -> Seq<char> {
    match codec {
        Codec::Utf8 => "UTF-8"@,
        Codec::Utf16Le => "UTF-16LE"@,
        Codec::Utf16Be => "UTF-16BE"@,
        Codec::Gbk => "GBK"@,
        Codec::Gb18030 => "GB18030"@,
        Codec::Big5 => "Big5"@,
        Codec::ShiftJis => "Shift_JIS"@,
        Codec::EucJp => "EUC-JP"@,
        Codec::EucKr => "EUC-KR"@,
        Codec::Windows1252 => "Windows-1252"@,
        Codec::Latin1 => "ISO-8859-1"@,
    }
}

/// A label character after ASCII lower-casing, with '_' and ' ' read as '-'.
pub open spec fn normalize_label_char(c: char) -> char {
    if 'A' <= c && c <= 'Z' {
        ((c as u32) + 32) as char
    } else if c == '_' || c == ' ' {
        '-'
    } else {
        c
    }
}

pub open spec fn normalize_label(label: Seq<char>) -> Seq<char> {
    label.map_values(|c: char| normalize_label_char(c))
}

/// The codec that a user-facing label names, if any.
pub open spec fn parse_label(label: Seq<char>) -> Option<Codec> {
    let n = normalize_label(label);
    if n == "utf-8"@ || n == "utf8"@ || n == "utf-8-bom"@ {
        Some(Codec::Utf8)
    } else if n == "utf-16le"@ || n == "utf-16-le"@ || n == "utf16le"@ {
        Some(Codec::Utf16Le)
    } else if n == "utf-16be"@ || n == "utf-16-be"@ || n == "utf16be"@ {
        Some(Codec::Utf16Be)
    } else if n == "gbk"@ || n == "gb2312"@ {
        Some(Codec::Gbk)
    } else if n == "gb18030"@ {
        Some(Codec::Gb18030)
    } else if n == "big5"@ || n == "big-5"@ {
        Some(Codec::Big5)
    } else if n == "shift-jis"@ || n == "sjis"@ {
        Some(Codec::ShiftJis)
    } else if n == "euc-jp"@ {
        Some(Codec::EucJp)
    } else if n == "euc-kr"@ {
        Some(Codec::EucKr)
    } else if n == "windows-1252"@ || n == "cp1252"@ {
        Some(Codec::Windows1252)
    } else if n == "iso-8859-1"@ || n == "latin-1"@ || n == "latin1"@ {
        Some(Codec::Latin1)
    } else {
        None
    }
}

fn normalized_label(label: &str) -> (r: Vec<char>)
    ensures
        r@ == normalize_label(label@),
{
    let chars = chars_of(label);
    let mut out: Vec<char> = Vec::new();
    let mut i: usize = 0;
    while i < chars.len()
        invariant
            chars@ == label@,
            i <= chars@.len(),
            out@ == normalize_label(label@).take(i as int),
        decreases chars@.len() - i,
    {
        let c = chars[i];
        let n = if 'A' <= c && c <= 'Z' {
            char_from_ascii_upper(c)
        } else if c == '_' || c == ' ' {
            '-'
        } else {
            c
        };
        out.push(n);
        assert(out@ =~= normalize_label(label@).take(i + 1));
        i = i + 1;
    }
    assert(normalize_label(label@).take(chars@.len() as int) =~= normalize_label(label@));
    out
}

fn char_from_ascii_upper(c: char) -> (r: char)
    requires
        'A' <= c && c <= 'Z',
    ensures
        r == ((c as u32) + 32) as char,
{
    let b = (c as u32) as u8;
    assert(65 <= b <= 90);
    ((b + 32) as u8) as char
}

fn label_is(normalized: &Vec<char>, candidate: &str) -> (r: bool)
    ensures
        r == (normalized@ == candidate@),
{
    let c = chars_of(candidate);
    chars_equal(normalized.as_slice(), c.as_slice())
}

impl Codec {
    pub fn name(self) -> (r: &'static str)
        ensures
            r@ == codec_name(self),
    {
        match self {
            Codec::Utf8 => "UTF-8",
            Codec::Utf16Le => "UTF-16LE",
            Codec::Utf16Be => "UTF-16BE",
            Codec::Gbk => "GBK",
            Codec::Gb18030 => "GB18030",
            Codec::Big5 => "Big5",
            Codec::ShiftJis => "Shift_JIS",
            Codec::EucJp => "EUC-JP",
            Codec::EucKr => "EUC-KR",
            Codec::Windows1252 => "Windows-1252",
            Codec::Latin1 => "ISO-8859-1",
        }
    }

    /// Reads a codec label, case-insensitively for ASCII and with '_' and
    /// ' ' accepted in place of '-'.
    pub fn parse(label: &str) -> (r: Option<Codec>)
        ensures
            r == parse_label(label@),
    {
        let n = normalized_label(label);
        if label_is(&n, "utf-8") || label_is(&n, "utf8") || label_is(&n, "utf-8-bom") {
            Some(Codec::Utf8)
        } else if label_is(&n, "utf-16le") || label_is(&n, "utf-16-le") || label_is(&n, "utf16le") {
            Some(Codec::Utf16Le)
        } else if label_is(&n, "utf-16be") || label_is(&n, "utf-16-be") || label_is(&n, "utf16be") {
            Some(Codec::Utf16Be)
        } else if label_is(&n, "gbk") || label_is(&n, "gb2312") {
            Some(Codec::Gbk)
        } else if label_is(&n, "gb18030") {
            Some(Codec::Gb18030)
        } else if label_is(&n, "big5") || label_is(&n, "big-5") {
            Some(Codec::Big5)
        } else if label_is(&n, "shift-jis") || label_is(&n, "sjis") {
            Some(Codec::ShiftJis)
        } else if label_is(&n, "euc-jp") {
            Some(Codec::EucJp)
        } else if label_is(&n, "euc-kr") {
            Some(Codec::EucKr)
        } else if label_is(&n, "windows-1252") || label_is(&n, "cp1252") {
            Some(Codec::Windows1252)
        } else if label_is(&n, "iso-8859-1") || label_is(&n, "latin-1") || label_is(&n, "latin1") {
            Some(Codec::Latin1)
        } else {
            None
        }
    }
}

/// Labels are read without regard to ASCII case, and with '_' and ' ' as
/// '-': two labels that agree after that name the same codec, and a label's
/// lower-case, hyphenated form names the same codec as the label.
pub proof fn lemma_parse_normalized(a: Seq<char>, b: Seq<char>)
    requires
        normalize_label(a) == normalize_label(b),
    ensures
        parse_label(a) == parse_label(b),
        parse_label(normalize_label(a)) == parse_label(a),
{
    assert forall|i: int| 0 <= i < a.len() implies #[trigger] normalize_label_char(normalize_label_char(a[i])) == normalize_label_char(a[i]) by {
        let c = a[i];
        if 'A' <= c && c <= 'Z' {
            assert(((c as u32) + 32) as char as u32 == (c as u32) + 32);
        }
    }
    assert(normalize_label(normalize_label(a)) =~= normalize_label(a));
}

/// Every codec's display name is a label that `Codec::parse` reads back as
/// that codec.
pub proof fn lemma_parse_reads_name(codec: Codec)
    ensures
        parse_label(codec_name(codec)) == Some(codec),
{
    reveal_strlit("utf-8");
    reveal_strlit("utf8");
    reveal_strlit("utf-8-bom");
    reveal_strlit("utf-16le");
    reveal_strlit("utf-16-le");
    reveal_strlit("utf16le");
    reveal_strlit("utf-16be");
    reveal_strlit("utf-16-be");
    reveal_strlit("utf16be");
    reveal_strlit("gbk");
    reveal_strlit("gb2312");
    reveal_strlit("gb18030");
    reveal_strlit("big5");
    reveal_strlit("big-5");
    reveal_strlit("shift-jis");
    reveal_strlit("sjis");
    reveal_strlit("euc-jp");
    reveal_strlit("euc-kr");
    reveal_strlit("windows-1252");
    reveal_strlit("cp1252");
    reveal_strlit("iso-8859-1");
    reveal_strlit("latin-1");
    reveal_strlit("latin1");
    reveal_strlit("UTF-8");
    reveal_strlit("UTF-16LE");
    reveal_strlit("UTF-16BE");
    reveal_strlit("GBK");
    reveal_strlit("GB18030");
    reveal_strlit("Big5");
    reveal_strlit("Shift_JIS");
    reveal_strlit("EUC-JP");
    reveal_strlit("EUC-KR");
    reveal_strlit("Windows-1252");
    reveal_strlit("ISO-8859-1");
    let n = normalize_label(codec_name(codec));
    assert(n =~= match codec {
        Codec::Utf8 => "utf-8"@,
        Codec::Utf16Le => "utf-16le"@,
        Codec::Utf16Be => "utf-16be"@,
        Codec::Gbk => "gbk"@,
        Codec::Gb18030 => "gb18030"@,
        Codec::Big5 => "big5"@,
        Codec::ShiftJis => "shift-jis"@,
        Codec::EucJp => "euc-jp"@,
        Codec::EucKr => "euc-kr"@,
        Codec::Windows1252 => "windows-1252"@,
        Codec::Latin1 => "iso-8859-1"@,
    });
    match codec {
        Codec::Utf8 => {

        },
        Codec::Utf16Le => {

        },
        Codec::Utf16Be => {
            assert(n[6] != "utf-16le"@[6]);
        },
        Codec::Gbk => {

        },
        Codec::Gb18030 => {
            assert(n[0] != "utf16le"@[0]);
            assert(n[0] != "utf16be"@[0]);
        },
        Codec::Big5 => {
            assert(n[0] != "utf8"@[0]);
        },
        Codec::ShiftJis => {
            assert(n[0] != "utf-8-bom"@[0]);
            assert(n[0] != "utf-16-le"@[0]);
            assert(n[0] != "utf-16-be"@[0]);
        },
        Codec::EucJp => {
            assert(n[0] != "gb2312"@[0]);
        },
        Codec::EucKr => {
            assert(n[0] != "gb2312"@[0]);
            assert(n[4] != "euc-jp"@[4]);
        },
        Codec::Windows1252 => {

        },
        Codec::Latin1 => {

        },
    }
}

// ---------------------------------------------------------------------------
// Byte-order marks

/// The byte-order mark of an encoding that the library does not support.
pub open spec fn unsupported_bom_spec(bytes: Seq<u8>) -> Option<Seq<char>> {
    if has_prefix(bytes, seq![0xFFu8, 0xFEu8, 0u8, 0u8]) {
        Some("UTF-32LE"@)
    } else if has_prefix(bytes, seq![0u8, 0u8, 0xFEu8, 0xFFu8]) {
        Some("UTF-32BE"@)
    } else {
        None
    }
}

/// The supported byte-order mark at the start of `bytes`, with its length.
pub open spec fn detect_bom_spec(bytes: Seq<u8>) -> Option<(Codec, usize)> {
    if unsupported_bom_spec(bytes) is Some {
        None
    } else if has_prefix(bytes, seq![0xEFu8, 0xBBu8, 0xBFu8]) {
        Some((Codec::Utf8, 3usize))
    } else if has_prefix(bytes, seq![0xFFu8, 0xFEu8]) {
        Some((Codec::Utf16Le, 2usize))
    } else if has_prefix(bytes, seq![0xFEu8, 0xFFu8]) {
        Some((Codec::Utf16Be, 2usize))
    } else {
        None
    }
}

/// UTF-32LE shares its first two BOM bytes with UTF-16LE. Do not invent a
/// supported encoding merely because that shorter prefix matches.
pub fn unsupported_bom(bytes: &[u8]) -> (r: Option<&'static str>)
    ensures
        r matches Some(label) ==> unsupported_bom_spec(bytes@) == Some(label@),
        r is None <==> unsupported_bom_spec(bytes@) is None,
{
    let le: [u8; 4] = [0xFF, 0xFE, 0, 0];
    let be: [u8; 4] = [0, 0, 0xFE, 0xFF];
    assert(le@ =~= seq![0xFFu8, 0xFEu8, 0u8, 0u8]);
    assert(be@ =~= seq![0u8, 0u8, 0xFEu8, 0xFFu8]);
    if starts_with(bytes, &le) {
        Some("UTF-32LE")
    } else if starts_with(bytes, &be) {
        Some("UTF-32BE")
    } else {
        None
    }
}

/// BOM removal belongs only at the original evidence boundary. Intermediate
/// transformations must preserve a U+FEFF character like any other character.
pub fn detect_bom(bytes: &[u8]) -> (r: Option<(Codec, usize)>)
    ensures
        r == detect_bom_spec(bytes@),
{
    let utf8: [u8; 3] = [0xEF, 0xBB, 0xBF];
    let le: [u8; 2] = [0xFF, 0xFE];
    let be: [u8; 2] = [0xFE, 0xFF];
    assert(utf8@ =~= seq![0xEFu8, 0xBBu8, 0xBFu8]);
    assert(le@ =~= seq![0xFFu8, 0xFEu8]);
    assert(be@ =~= seq![0xFEu8, 0xFFu8]);
    if unsupported_bom(bytes).is_some() {
        None
    } else if starts_with(bytes, &utf8) {
        Some((Codec::Utf8, 3))
    } else if starts_with(bytes, &le) {
        Some((Codec::Utf16Le, 2))
    } else if starts_with(bytes, &be) {
        Some((Codec::Utf16Be, 2))
    } else {
        None
    }
}


// ---------------------------------------------------------------------------
// Encoding

/// The UTF-16 code units of one character.
pub open spec fn utf16_units(c: char) -> Seq<nat> {
    let v = c as u32 as nat;
    if v < 0x10000 {
        seq![v]
    } else {
        seq![(0xD800 + (v - 0x10000) / 1024) as nat, (0xDC00 + (v - 0x10000) % 1024) as nat]
    }
}

/// The two bytes of a 16-bit code unit in the given byte order.
pub open spec fn unit_bytes(unit: nat, big_endian: bool) -> Seq<u8> {
    if big_endian {
        seq![(unit / 256) as u8, (unit % 256) as u8]
    } else {
        seq![(unit % 256) as u8, (unit / 256) as u8]
    }
}

/// The UTF-16 encoding of one character in the given byte order.
pub open spec fn char_utf16_bytes(c: char, big_endian: bool) -> Seq<u8> {
    let units = utf16_units(c);
    if units.len() == 1 {
        unit_bytes(units[0], big_endian)
    } else {
        unit_bytes(units[0], big_endian) + unit_bytes(units[1], big_endian)
    }
}

/// The code unit that two bytes hold in the given byte order.
pub open spec fn bytes_unit(b0: u8, b1: u8, big_endian: bool) -> nat {
    if big_endian {
        (b0 as nat) * 256 + (b1 as nat)
    } else {
        (b1 as nat) * 256 + (b0 as nat)
    }
}

proof fn lemma_unit_bytes(u: nat, big_endian: bool)
    requires
        u < 0x10000,
    ensures
        unit_bytes(u, big_endian).len() == 2,
        bytes_unit(unit_bytes(u, big_endian)[0], unit_bytes(u, big_endian)[1], big_endian) == u,
{
    let hi = u / 256;
    let lo = u % 256;
    assert(hi < 256 && lo < 256 && hi * 256 + lo == u) by (nonlinear_arith)
        requires
            u < 0x10000,
            hi == u / 256,
            lo == u % 256,
    ;
    assert((hi as u8) as nat == hi);
    assert((lo as u8) as nat == lo);
}

/// The code units of a character: one unit that is not a surrogate, or a
/// high surrogate followed by a low one; and they determine the character.
proof fn lemma_char_units(c: char)
    ensures
        forall|i: int| 0 <= i < utf16_units(c).len() ==> #[trigger] utf16_units(c)[i] < 0x10000,
        utf16_units(c).len() == 1 ==> !(0xDC00 <= utf16_units(c)[0] <= 0xDFFF),
        utf16_units(c).len() == 2 ==> 0xDC00 <= utf16_units(c)[1] <= 0xDFFF,
        utf16_units(c).len() == 1 || utf16_units(c).len() == 2,
        forall|d: char| #[trigger] utf16_units(d) == utf16_units(c) ==> d == c,
{
    vstd::utf8::char_is_scalar(c);
    let v = c as u32 as nat;
    if v >= 0x10000 {
        let w = (v - 0x10000) as nat;
        assert(w / 1024 < 1024 && w % 1024 < 1024) by (nonlinear_arith)
            requires
                w <= 0xFFFFF,
        ;
    }
    assert forall|d: char| #[trigger] utf16_units(d) == utf16_units(c) implies d == c by {
        vstd::utf8::char_is_scalar(d);
        let x = d as u32 as nat;
        if v < 0x10000 {
            if x >= 0x10000 {
                let w = (x - 0x10000) as nat;
                assert(w / 1024 < 1024) by (nonlinear_arith)
                    requires
                        w <= 0xFFFFF,
                ;
                assert(utf16_units(d).len() == 2);
            }
            assert(utf16_units(d)[0] == x);
            assert(utf16_units(c)[0] == v);
            assert(x == v);
        } else {
            if x < 0x10000 {
                assert(utf16_units(d).len() == 1);
            }
            let w = (v - 0x10000) as nat;
            let y = (x - 0x10000) as nat;
            assert(w / 1024 == y / 1024 && w % 1024 == y % 1024);
            assert(w == y) by (nonlinear_arith)
                requires
                    w / 1024 == y / 1024,
                    w % 1024 == y % 1024,
            ;
        }
        vstd::utf8::char_u32_cast(c, c as u32);
        vstd::utf8::char_u32_cast(d, d as u32);
    }
}

/// A character's UTF-16 bytes: two or four of them, ending in a low
/// surrogate exactly when there are four, and they determine the character.
proof fn lemma_char_utf16_bytes(c: char, big_endian: bool)
    ensures
        char_utf16_bytes(c, big_endian).len() == 2 * utf16_units(c).len(),
        ({
            let b = char_utf16_bytes(c, big_endian);
            let n = b.len() as int;
            (0xDC00 <= bytes_unit(b[n - 2], b[n - 1], big_endian) <= 0xDFFF) <==> n == 4
        }),
        forall|d: char| #[trigger] char_utf16_bytes(d, big_endian) == char_utf16_bytes(c, big_endian) ==> d == c,
{
    lemma_char_units(c);
    let u = utf16_units(c);
    lemma_unit_bytes(u[0], big_endian);
    if u.len() == 2 {
        lemma_unit_bytes(u[1], big_endian);
    }
    assert forall|d: char| #[trigger] char_utf16_bytes(d, big_endian) == char_utf16_bytes(c, big_endian) implies d == c by {
        lemma_char_units(d);
        let e = utf16_units(d);
        lemma_unit_bytes(e[0], big_endian);
        if e.len() == 2 {
            lemma_unit_bytes(e[1], big_endian);
        }
        let b = char_utf16_bytes(c, big_endian);
        assert(e.len() == u.len());
        assert(bytes_unit(b[0], b[1], big_endian) == u[0]);
        assert(e[0] == u[0]);
        if u.len() == 2 {
            assert(bytes_unit(b[2], b[3], big_endian) == u[1]);
            assert(e[1] == u[1]);
        }
        assert(e =~= u);
    }
}

proof fn lemma_utf16_bytes_len(t: Seq<char>, big_endian: bool)
    ensures
        utf16_bytes(t, big_endian).len() >= 2 * t.len(),
    decreases t.len(),
{
    if t.len() > 0 {
        lemma_utf16_bytes_len(t.drop_last(), big_endian);
        lemma_char_utf16_bytes(t.last(), big_endian);
        lemma_char_units(t.last());
    }
}

/// Distinct texts have distinct UTF-16 encodings (in either byte order).
pub proof fn lemma_utf16_injective(a: Seq<char>, b: Seq<char>, big_endian: bool)
    requires
        utf16_bytes(a, big_endian) == utf16_bytes(b, big_endian),
    ensures
        a == b,
    decreases a.len(),
{
    lemma_utf16_bytes_len(a, big_endian);
    lemma_utf16_bytes_len(b, big_endian);
    if a.len() == 0 || b.len() == 0 {
        assert(a.len() == 0 && b.len() == 0);
        assert(a =~= b);
    } else {
        let bs = utf16_bytes(a, big_endian);
        let ca = a.last();
        let cb = b.last();
        let xa = char_utf16_bytes(ca, big_endian);
        let xb = char_utf16_bytes(cb, big_endian);
        lemma_char_utf16_bytes(ca, big_endian);
        lemma_char_utf16_bytes(cb, big_endian);
        lemma_char_units(ca);
        lemma_char_units(cb);
        let pa = utf16_bytes(a.drop_last(), big_endian);
        let pb = utf16_bytes(b.drop_last(), big_endian);
        assert(bs == pa + xa);
        assert(bs == pb + xb);
        let n = bs.len() as int;
        assert(xa[xa.len() - 2] == bs[n - 2] && xa[xa.len() - 1] == bs[n - 1]);
        assert(xb[xb.len() - 2] == bs[n - 2] && xb[xb.len() - 1] == bs[n - 1]);
        assert(xa.len() == xb.len());
        let k = xa.len() as int;
        assert(xa =~= bs.skip(n - k));
        assert(xb =~= bs.skip(n - k));
        assert(ca == cb);
        assert(pa =~= bs.take(n - k));
        assert(pb =~= bs.take(n - k));
        lemma_utf16_injective(a.drop_last(), b.drop_last(), big_endian);
        assert(a =~= a.drop_last().push(ca));
        assert(b =~= b.drop_last().push(cb));
    }
}

/// The UTF-16 encoding (no BOM) of a text in the given byte order.
pub open spec fn utf16_bytes(text: Seq<char>, big_endian: bool) -> Seq<u8>
    decreases text.len(),
{
    if text.len() == 0 {
        seq![]
    } else {
        utf16_bytes(text.drop_last(), big_endian) + char_utf16_bytes(text.last(), big_endian)
    }
}

/// True when every character of `text` is at most U+00FF.
pub open spec fn latin1_encodable(text: Seq<char>) -> bool {
    forall|i: int| 0 <= i < text.len() ==> (#[trigger] text[i]) as u32 <= 0xFF
}

/// The literal ISO-8859-1 bytes of a text whose characters are at most U+00FF.
pub open spec fn latin1_bytes(text: Seq<char>) -> Seq<u8> {
    text.map_values(|c: char| c as u32 as u8)
}

/// The position of the first character above U+00FF.
pub open spec fn first_wide_char(text: Seq<char>) -> int {
    choose|i: int|
        0 <= i < text.len() && (text[i] as u32) > 0xFF && forall|j: int|
            0 <= j < i ==> (#[trigger] text[j]) as u32 <= 0xFF
}

/// The error reported for a character that `codec` cannot encode:
/// `unmappable:<name>:U+<hex, at least four upper-case digits>`.
pub open spec fn unmappable_message(codec: Codec, ch: char) -> Seq<char> {
    "unmappable:"@ + codec_name(codec) + ":U+"@ + hex_format(ch as u32 as nat, 4, true)
}

/// What `encode` returns: the bytes, or the error message.
pub open spec fn encode_spec(codec: Codec, text: Seq<char>) -> Result<Seq<u8>, Seq<char>> {
    match codec {
        Codec::Utf8 => Ok(encode_utf8(text)),
        Codec::Utf16Le => Ok(utf16_bytes(text, false)),
        Codec::Utf16Be => Ok(utf16_bytes(text, true)),
        Codec::Latin1 => if latin1_encodable(text) {
            Ok(latin1_bytes(text))
        } else {
            Err(unmappable_message(codec, text[first_wide_char(text)]))
        },
        _ => match whatwg_encoded(codec, text) {
            Ok(bytes) => Ok(bytes),
            Err(LegacyEncodeError::Unmappable(ch)) => Err(unmappable_message(codec, ch)),
            Err(LegacyEncodeError::TooLarge) => Err("input_too_large"@),
            Err(LegacyEncodeError::BufferFull) => Err("encoding_buffer_full"@),
        },
    }
}

/// Appends the characters of `s` to `out`.
pub fn push_str(out: &mut Vec<char>, s: &str)
    ensures
        final(out)@ == old(out)@ + s@,
{
    let cs = chars_of(s);
    let ghost start = out@;
    let mut i: usize = 0;
    while i < cs.len()
        invariant
            cs@ == s@,
            i <= cs@.len(),
            out@ == start + cs@.take(i as int),
        decreases cs@.len() - i,
    {
        out.push(cs[i]);
        assert(out@ =~= start + cs@.take(i + 1));
        i = i + 1;
    }
    assert(cs@.take(cs@.len() as int) == cs@);
}

fn unmappable_error(codec: Codec, ch: char) -> (r: String)
    ensures
        r@ == unmappable_message(codec, ch),
{
    let mut out: Vec<char> = Vec::new();
    push_str(&mut out, "unmappable:");
    push_str(&mut out, codec.name());
    push_str(&mut out, ":U+");
    push_hex(&mut out, ch as u32 as u64, 4, true);
    assert(out@ =~= unmappable_message(codec, ch));
    string_from_chars(out.as_slice())
}

fn push_unit(out: &mut Vec<u8>, unit: u32, big_endian: bool)
    requires
        unit < 0x10000,
    ensures
        final(out)@ == old(out)@ + unit_bytes(unit as nat, big_endian),
{
    let hi = (unit / 256) as u8;
    let lo = (unit % 256) as u8;
    if big_endian {
        out.push(hi);
        out.push(lo);
    } else {
        out.push(lo);
        out.push(hi);
    }
    assert(final(out)@ =~= old(out)@ + unit_bytes(unit as nat, big_endian)) by {
        assert(unit_bytes(unit as nat, big_endian) =~= if big_endian { seq![hi, lo] } else { seq![lo, hi] });
    }
}

/// UTF-16 without BOM, one or two code units per character.
fn encode_utf16(text: &str, big_endian: bool) -> (r: Vec<u8>)
    ensures
        r@ == utf16_bytes(text@, big_endian),
{
    let mut bytes: Vec<u8> = Vec::new();
    for c in it: text.chars()
        invariant
            it.seq() == text@,
            bytes@ == utf16_bytes(text@.take(it.index() as int), big_endian),
    {
        let ghost before = bytes@;
        let v = c as u32;
        proof {
            vstd::utf8::char_is_scalar(c);
        }
        if v < 0x10000 {
            push_unit(&mut bytes, v, big_endian);
        } else {
            let w = v - 0x10000;
            push_unit(&mut bytes, 0xD800 + w / 1024, big_endian);
            push_unit(&mut bytes, 0xDC00 + w % 1024, big_endian);
        }
        assert(text@.take(it.index() + 1).drop_last() == text@.take(it.index() as int));
        assert(text@.take(it.index() + 1).last() == c);
        assert(bytes@ =~= before + char_utf16_bytes(c, big_endian));
    }
    assert(text@.take(text@.len() as int) == text@);
    bytes
}

/// Literal ISO-8859-1: each character up to U+00FF is its own byte.
fn encode_latin1(text: &str) -> (r: Result<Vec<u8>, String>)
    ensures
        encoded_view(&r) == encode_spec(Codec::Latin1, text@),
{
    let mut bytes: Vec<u8> = Vec::new();
    for c in it: text.chars()
        invariant
            it.seq() == text@,
            bytes@ == latin1_bytes(text@.take(it.index() as int)),
            latin1_encodable(text@.take(it.index() as int)),
    {
        let v = c as u32;
        if v > 0xFF {
            let ghost i = it.index() as int;
            assert(text@[i] == c);
            assert(first_wide_char(text@) == i) by {
                assert(forall|j: int| 0 <= j < i ==> (#[trigger] text@[j]) as u32 <= 0xFF) by {
                    assert forall|j: int| 0 <= j < i implies (#[trigger] text@[j]) as u32 <= 0xFF by {
                        assert(text@.take(i)[j] == text@[j]);
                    }
                }
                let k = first_wide_char(text@);
                assert(0 <= k < text@.len() && (text@[k] as u32) > 0xFF && forall|j: int|
                    0 <= j < k ==> (#[trigger] text@[j]) as u32 <= 0xFF);
                if k < i {
                } else if k > i {
                    assert(text@[i] as u32 <= 0xFF);
                }
            }
            return Err(unmappable_error(Codec::Latin1, c));
        }
        bytes.push(v as u8);
        assert(text@.take(it.index() + 1) =~= text@.take(it.index() as int).push(c));
        assert(bytes@ =~= latin1_bytes(text@.take(it.index() + 1)));
    }
    assert(text@.take(text@.len() as int) == text@);
    Ok(bytes)
}


/// UTF-8 encoding of a text extended by one character.
pub proof fn lemma_encode_utf8_push(s: Seq<char>, c: char)
    ensures
        encode_utf8(s.push(c)) == encode_utf8(s) + encode_scalar(c as u32),
    decreases s.len(),
{
    if s.len() == 0 {
        assert(s.push(c).drop_first() =~= Seq::<char>::empty());
        assert(s.push(c)[0] == c);
        assert(encode_utf8(Seq::<char>::empty()) =~= Seq::<u8>::empty());
        assert(encode_utf8(s) =~= Seq::<u8>::empty());
        assert(encode_utf8(s.push(c)) =~= encode_scalar(c as u32) + encode_utf8(s.push(c).drop_first()));
        assert(encode_utf8(s.push(c)) =~= encode_scalar(c as u32));
    } else {
        assert(s.push(c).drop_first() =~= s.drop_first().push(c));
        lemma_encode_utf8_push(s.drop_first(), c);
        assert(encode_utf8(s.push(c)) =~= encode_utf8(s) + encode_scalar(c as u32));
    }
}

/// The UTF-8 length of a text, counted character by character.
pub fn utf8_byte_len(text: &str) -> (r: u128)
    ensures
        r == encode_utf8(text@).len(),
{
    let chars = crate::strings::chars_of(text);
    let mut total: u128 = 0;
    let mut i: usize = 0;
    let n = chars.len();
    while i < n
        invariant
            chars@ == text@,
            n == chars@.len(),
            i <= n,
            total == encode_utf8(chars@.take(i as int)).len(),
            total <= 4 * i,
        decreases chars@.len() - i,
    {
        let c = chars[i];
        proof {
            assert(chars@.take(i + 1) =~= chars@.take(i as int).push(c));
            lemma_encode_utf8_push(chars@.take(i as int), c);
            vstd::utf8::char_is_scalar(c);
        }
        let v = c as u32;
        let width: u128 = if v < 0x80 { 1 } else if v < 0x800 { 2 } else if v < 0x10000 { 3 } else { 4 };
        total = total + width;
        i = i + 1;
    }
    assert(chars@.take(chars@.len() as int) =~= chars@);
    total
}

/// Sizes of the encodings against the UTF-8 length of the text.
pub proof fn lemma_encoded_lengths(t: Seq<char>)
    ensures
        t.len() <= encode_utf8(t).len(),
        utf16_bytes(t, false).len() <= 2 * encode_utf8(t).len(),
        utf16_bytes(t, true).len() <= 2 * encode_utf8(t).len(),
        latin1_bytes(t).len() == t.len(),
    decreases t.len(),
{
    if t.len() > 0 {
        let s = t.drop_last();
        let c = t.last();
        lemma_encoded_lengths(s);
        assert(s.push(c) =~= t);
        lemma_encode_utf8_push(s, c);
        vstd::utf8::char_is_scalar(c);
    }
}

/// The abstract value of an encoding result.
pub open spec fn encoded_view(r: &Result<Vec<u8>, String>) -> Result<Seq<u8>, Seq<char>> {
    match r {
        Ok(bytes) => Ok(bytes@),
        Err(message) => Err(message@),
    }
}

/// Strict encoding: an unmappable character is an error, never a
/// substitute. UTF-16 is written here (encoding_rs has no UTF-16 encoder),
/// ISO-8859-1 is literal, and the other legacy codecs use encoding_rs.
pub fn encode(text: &str, codec: Codec) -> (r: Result<Vec<u8>, String>)
    ensures
        encoded_view(&r) == encode_spec(codec, text@),
        r matches Ok(bytes) ==> bytes@.len() <= 2 * encode_utf8(text@).len() + 2,
{
    proof {
        lemma_encoded_lengths(text@);
    }
    match codec {
        Codec::Utf8 => Ok(vstd::slice::slice_to_vec(text.as_bytes())),
        Codec::Utf16Le => Ok(encode_utf16(text, false)),
        Codec::Utf16Be => Ok(encode_utf16(text, true)),
        Codec::Latin1 => encode_latin1(text),
        _ => {
            if codec.encoding().is_none() {
                // Unreachable: every legacy codec has an encoding_rs encoding.
                return Err(string_from_chars(chars_of("unsupported_encoding").as_slice()));
            }
            match whatwg_encode(codec, text) {
                Ok(bytes) => Ok(bytes),
                Err(LegacyEncodeError::Unmappable(ch)) => Err(unmappable_error(codec, ch)),
                Err(LegacyEncodeError::TooLarge) => Err(string_from_chars(chars_of("input_too_large").as_slice())),
                Err(LegacyEncodeError::BufferFull) => Err(string_from_chars(chars_of("encoding_buffer_full").as_slice())),
            }
        },
    }
}

// ---------------------------------------------------------------------------
// Decoding

/// The result of decoding complete input with one codec.
#[derive(Clone, Debug)]
pub struct Decoded {
    pub text: String,
    pub had_errors: bool,
    /// U+FFFD characters in the output, including any already in the evidence.
    pub replacement_count: usize,
    pub round_trip: bool,
}

/// Literal ISO-8859-1 decoding: byte b is the character U+00b.
pub open spec fn latin1_text(bytes: Seq<u8>) -> Seq<char> {
    bytes.map_values(|b: u8| b as char)
}

/// The decoded text and whether a malformed sequence was met: literal
/// ISO-8859-1 maps each byte to its character, well-formed UTF-8 or UTF-16
/// decodes to the characters it encodes, and everything else is what
/// encoding_rs makes of it.
pub open spec fn decode_text_spec(bytes: Seq<u8>, codec: Codec) -> (Seq<char>, bool) {
    if codec is Latin1 {
        (latin1_text(bytes), false)
    } else if codec is Utf8 && valid_utf8(bytes) {
        (decode_utf8(bytes), false)
    } else if (codec is Utf16Le || codec is Utf16Be) && exists|t: Seq<char>|
        #[trigger] utf16_bytes(t, codec is Utf16Be) == bytes {
        (choose|t: Seq<char>| #[trigger] utf16_bytes(t, codec is Utf16Be) == bytes, false)
    } else {
        whatwg_decoded(codec, bytes)
    }
}

/// The `round_trip` flag: no malformed input and the text encodes back to
/// exactly the same bytes.
pub open spec fn round_trips(bytes: Seq<u8>, codec: Codec, text: Seq<char>, had_errors: bool) -> bool {
    !had_errors && encode_spec(codec, text) == Ok::<Seq<u8>, Seq<char>>(bytes)
}

fn decode_latin1(bytes: &[u8]) -> (r: String)
    ensures
        r@ == latin1_text(bytes@),
{
    let mut out: Vec<char> = Vec::new();
    let mut i: usize = 0;
    while i < bytes.len()
        invariant
            i <= bytes@.len(),
            out@ == latin1_text(bytes@.take(i as int)),
        decreases bytes@.len() - i,
    {
        out.push(bytes[i] as char);
        assert(out@ =~= latin1_text(bytes@.take(i + 1)));
        i = i + 1;
    }
    assert(bytes@.take(bytes@.len() as int) == bytes@);
    string_from_chars(out.as_slice())
}

/// Decodes complete input without BOM handling, and reports malformed input,
/// U+FFFD characters and whether the text re-encodes to the same bytes.
pub fn decode(bytes: &[u8], codec: Codec) -> (r: Decoded)
    requires
        within_buffer_limit(bytes@.len() as int),
    ensures
        (r.text@, r.had_errors) == decode_text_spec(bytes@, codec),
        r.replacement_count == count_char(r.text@, '\u{FFFD}'),
        r.round_trip == round_trips(bytes@, codec, r.text@, r.had_errors),
        encode_utf8(r.text@).len() <= 3 * bytes@.len() + 6,
        r.had_errors ==> r.replacement_count > 0,
        codec is Latin1 ==> r.round_trip,
        codec is Utf8 ==> (r.had_errors <==> !valid_utf8(bytes@)),
        codec is Utf8 && valid_utf8(bytes@) ==> r.text@ == decode_utf8(bytes@) && r.round_trip,
        forall|t: Seq<char>|
            #![trigger utf16_bytes(t, false)]
            codec is Utf16Le && bytes@ == utf16_bytes(t, false) ==> r.text@ == t && r.round_trip,
        forall|t: Seq<char>|
            #![trigger utf16_bytes(t, true)]
            codec is Utf16Be && bytes@ == utf16_bytes(t, true) ==> r.text@ == t && r.round_trip,
{
    proof {
        lemma_latin1_round_trip(bytes@);
        lemma_latin1_utf8_len(bytes@);
        if valid_utf8(bytes@) {
            vstd::utf8::decode_utf8_encode_utf8(bytes@);
        }
    }
    let (text, had_errors) = if codec == Codec::Latin1 {
        (decode_latin1(bytes), false)
    } else if codec.encoding().is_some() {
        whatwg_decode(codec, bytes)
    } else {
        (String::new(), true)
    };
    let chars = chars_of(text.as_str());
    let replacement_count = count_chars(chars.as_slice(), '\u{FFFD}');
    let round_trip = !had_errors && match encode(text.as_str(), codec) {
        Ok(encoded) => bytes_equal(encoded.as_slice(), bytes),
        Err(_) => false,
    };
    proof {
        crate::strings::lemma_count_char_positive(chars@, '\u{FFFD}');
    }
    Decoded { text, had_errors, replacement_count, round_trip }
}

/// Encoding with UTF-8, UTF-16 (either byte order) or literal ISO-8859-1
/// and decoding with the same codec gives the text back, without malformed
/// input and with an exact byte round trip.
pub proof fn lemma_encode_decode(text: Seq<char>, codec: Codec)
    requires
        codec is Utf8 || codec is Utf16Le || codec is Utf16Be || codec is Latin1,
        encode_spec(codec, text) is Ok,
    ensures
        decode_text_spec(encode_spec(codec, text)->Ok_0, codec) == (text, false),
        round_trips(encode_spec(codec, text)->Ok_0, codec, text, false),
{
    if codec is Utf8 {
        vstd::utf8::encode_utf8_valid_utf8(text);
        vstd::utf8::encode_utf8_decode_utf8(text);
    } else if codec is Utf16Le || codec is Utf16Be {
        let be = codec is Utf16Be;
        let bytes = utf16_bytes(text, be);
        assert(utf16_bytes(text, be) == bytes);
        let t = choose|t: Seq<char>| #[trigger] utf16_bytes(t, be) == bytes;
        lemma_utf16_injective(t, text, be);
    } else {
        assert(latin1_encodable(text));
        assert(latin1_text(latin1_bytes(text)) =~= text) by {
            assert forall|i: int| 0 <= i < text.len() implies latin1_text(latin1_bytes(text))[i] == text[i] by {
                let c = text[i];
                let v = c as u32;
                assert(v <= 0xFF);
                assert(v <= 0xFF ==> (v as u8) as u32 == v) by (bit_vector);
                let b = v as u8;
                assert(latin1_bytes(text)[i] == b);
                assert((b as char) as u32 == b as u32);
                vstd::utf8::char_u32_cast(b as char, v);
                vstd::utf8::char_u32_cast(c, v);
            }
        }
    }
}

/// Literal ISO-8859-1 text takes at most two UTF-8 bytes per input byte.
pub proof fn lemma_latin1_utf8_len(bytes: Seq<u8>)
    ensures
        encode_utf8(latin1_text(bytes)).len() <= 2 * bytes.len(),
    decreases bytes.len(),
{
    if bytes.len() > 0 {
        let s = bytes.drop_last();
        lemma_latin1_utf8_len(s);
        assert(latin1_text(bytes) =~= latin1_text(s).push(bytes.last() as char));
        lemma_encode_utf8_push(latin1_text(s), bytes.last() as char);
    }
}

/// Literal ISO-8859-1 decoding is lossless: the text encodes back to the
/// same bytes.
pub proof fn lemma_latin1_round_trip(bytes: Seq<u8>)
    ensures
        latin1_encodable(latin1_text(bytes)),
        latin1_bytes(latin1_text(bytes)) == bytes,
        encode_spec(Codec::Latin1, latin1_text(bytes)) == Ok::<Seq<u8>, Seq<char>>(bytes),
{
    assert forall|i: int| 0 <= i < latin1_text(bytes).len() implies (#[trigger] latin1_text(bytes)[i]) as u32 <= 0xFF by {
        assert(latin1_text(bytes)[i] == bytes[i] as char);
    }
    assert(latin1_bytes(latin1_text(bytes)) =~= bytes);
}

} // verus!
