//! Decisions around sampled files: which codec a preview is read with,
//! where a preview may be cut, whether a later sample disagrees with the
//! head, whether a source is unchanged, and hexadecimal rows.
use crate::codec::{decode, decode_text_spec, detect_bom, detect_bom_spec, parse_label, Codec};
use crate::digest::{sha256, sha256_of};
use crate::evidence::{
    detector_label_prefix, detect_label_spec, hex_join, null_layout, null_layout_spec,
    NullLayout,
};

use crate::strings::{bytes_equal, has_prefix, starts_with, string_from_chars};
use crate::utf8check::{check_utf8, utf8_check_spec, Utf8Check};
use crate::whatwg::within_buffer_limit;
use std::path::PathBuf;
use vstd::prelude::*;

verus! {

#[verifier::external_type_specification]
#[verifier::external_body]
pub struct ExPathBuf(PathBuf);

/// std `PathBuf::clone`. Trusted: the clone is the same path.
pub assume_specification[ <PathBuf as Clone>::clone ](path: &PathBuf) -> (r: PathBuf)
    ensures
        r == *path,
;

/// Bytes read from the head of a file for analysis.
pub const SAMPLE_LIMIT: usize = 32 * 1024;

/// Largest pasted text that is analysed.
pub const PASTE_LIMIT: usize = 32 * 1024;

/// The codec a (possibly cut) file head is previewed with: a supported BOM,
/// else a UTF-16 NUL layout, else UTF-8 when the head is UTF-8 up to a
/// character cut off at its end, else the detector's suggestion.
pub open spec fn preview_codec_spec(head: Seq<u8>) -> Option<Codec> {
    if let Some((codec, _)) = detect_bom_spec(head) {
        Some(codec)
    } else if null_layout_spec(head) == NullLayout::Utf16Le {
        Some(Codec::Utf16Le)
    } else if null_layout_spec(head) == NullLayout::Utf16Be {
        Some(Codec::Utf16Be)
    } else if !(utf8_check_spec(head) is Invalid) {
        Some(Codec::Utf8)
    } else {
        parse_label(detect_label_spec(head, false))
    }
}

pub fn preview_codec(head: &[u8]) -> (r: Option<Codec>)
    ensures
        r == preview_codec_spec(head@),
{
    if let Some((encoding, _)) = detect_bom(head) {
        return Some(encoding);
    }
    match null_layout(head) {
        NullLayout::Utf16Le => return Some(Codec::Utf16Le),
        NullLayout::Utf16Be => return Some(Codec::Utf16Be),
        _ => {},
    }
    match check_utf8(head) {
        Utf8Check::Valid => Some(Codec::Utf8),
        Utf8Check::Incomplete { .. } => Some(Codec::Utf8),
        Utf8Check::Invalid { .. } => Codec::parse(detector_label_prefix(head)),
    }
}

/// Whether decoding `bytes` with `codec` meets malformed input.
pub open spec fn decode_errs(bytes: Seq<u8>, codec: Codec) -> bool {
    decode_text_spec(bytes, codec).1
}

/// Some cut of the head's last `1..=lookahead.len()` following bytes lets
/// the head decode cleanly: the following bytes finish a cut character.
pub open spec fn completed_by(raw: Seq<u8>, lookahead: Seq<u8>, codec: Codec) -> bool {
    exists|l: int|
        1 <= l <= lookahead.len() && !decode_errs(#[trigger] (raw + lookahead).take(raw.len() + l), codec)
}

/// The fewest (1 to 3) trailing bytes whose removal lets `raw` decode
/// cleanly, or 0 when none does.
pub open spec fn least_clean_trim(raw: Seq<u8>, codec: Codec) -> nat {
    if raw.len() >= 1 && !decode_errs(raw.take(raw.len() - 1), codec) {
        1
    } else if raw.len() >= 2 && !decode_errs(raw.take(raw.len() - 2), codec) {
        2
    } else if raw.len() >= 3 && !decode_errs(raw.take(raw.len() - 3), codec) {
        3
    } else {
        0
    }
}

/// How many bytes `trim_incomplete_sample` removes from the head: only a
/// cut-off character that the following source bytes actually finish.
pub open spec fn trim_amount(head: Seq<u8>, lookahead: Seq<u8>, codec: Codec) -> nat {
    let bom = match detect_bom_spec(head) {
        Some((_, n)) => n as int,
        None => 0,
    };
    let raw = head.skip(bom);
    if !decode_errs(raw, codec) || !completed_by(raw, lookahead, codec) {
        0
    } else {
        least_clean_trim(raw, codec)
    }
}

/// Trim only a cutoff sequence that the following source bytes actually
/// finish. A valid shortened prefix alone is insufficient: it could hide a
/// real bad byte. Supported codecs need at most four bytes per character.
pub fn trim_incomplete_sample(head: &mut Vec<u8>, lookahead: &[u8], encoding: Codec)
    requires
        within_buffer_limit((old(head)@.len() + lookahead@.len()) as int),
    ensures
        final(head)@ == old(head)@.take(old(head)@.len() - trim_amount(old(head)@, lookahead@, encoding)),
        has_prefix(old(head)@, final(head)@),
        old(head)@.len() - final(head)@.len() <= 3,
{
    let bom_length = match detect_bom(head.as_slice()) {
        Some((_, length)) => length,
        None => 0,
    };
    let ghost h = head@;
    let ghost raw_spec = h.skip(bom_length as int);
    proof {
        if let Some((_, n)) = detect_bom_spec(h) {
            assert(n <= h.len()) by {
                assert(has_prefix(h, seq![0xEFu8, 0xBBu8, 0xBFu8]) || has_prefix(h, seq![0xFFu8, 0xFEu8])
                    || has_prefix(h, seq![0xFEu8, 0xFFu8]));
            }
        }
    }
    let raw = vstd::slice::slice_subrange(head.as_slice(), bom_length, head.len());
    assert(raw@ =~= raw_spec);
    if !decode(raw, encoding).had_errors {
        assert(h.take(h.len() as int) =~= h);
        return;
    }
    let mut extended = vstd::slice::slice_to_vec(raw);
    extended.extend_from_slice(lookahead);
    assert(extended@ =~= raw@ + lookahead@);
    let mut completed = false;
    let mut length: usize = 1;
    while length <= lookahead.len()
        invariant
            1 <= length <= lookahead@.len() + 1,
            extended@ == raw@ + lookahead@,
            within_buffer_limit(extended@.len() as int),
            completed == exists|l: int|
                1 <= l < length && !decode_errs(#[trigger] (raw@ + lookahead@).take(raw@.len() + l), encoding),
        decreases lookahead@.len() + 1 - length,
    {
        let prefix = vstd::slice::slice_subrange(extended.as_slice(), 0, raw.len() + length);
        assert(prefix@ =~= (raw@ + lookahead@).take(raw@.len() + length));
        if !decode(prefix, encoding).had_errors {
            completed = true;
        }
        length = length + 1;
    }
    if !completed {
        assert(h.take(h.len() as int) =~= h);
        return;
    }
    let max_trim = if raw.len() < 3 { raw.len() } else { 3 };
    let mut trim: usize = 1;
    while trim <= max_trim
        invariant
            1 <= trim <= max_trim + 1,
            max_trim <= 3,
            max_trim == if raw@.len() < 3 { raw@.len() } else { 3 },
            raw@ == raw_spec,
            h == old(head)@,
            head@ == h,
            raw_spec == h.skip(bom_length as int),
            bom_length <= h.len(),
            decode_errs(raw_spec, encoding),
            completed_by(raw_spec, lookahead@, encoding),
            within_buffer_limit(raw@.len() as int),
            trim_amount(h, lookahead@, encoding) == least_clean_trim(raw_spec, encoding),
            forall|t: int| 1 <= t < trim ==> #[trigger] decode_errs(raw_spec.take(raw_spec.len() - t), encoding),
        decreases max_trim + 1 - trim,
    {
        let shorter = vstd::slice::slice_subrange(raw, 0, raw.len() - trim);
        assert(shorter@ =~= raw_spec.take(raw_spec.len() - trim));
        if !decode(shorter, encoding).had_errors {
            let new_len = head.len() - trim;
            head.truncate(new_len);
            assert(head@ =~= h.take(h.len() - trim));
            assert(has_prefix(h, head@)) by {
                assert(h.subrange(0, head@.len() as int) =~= head@);
            }
            return;
        }
        trim = trim + 1;
    }
    assert(trim_amount(h, lookahead@, encoding) == 0) by {
        assert(decode_errs(raw_spec.take(raw_spec.len() - 1), encoding) || raw_spec.len() < 1);
    }
    assert(h.take(h.len() as int) =~= h);
    assert(has_prefix(h, h)) by {
        assert(h.subrange(0, h.len() as int) =~= h);
    }
}


// ---------------------------------------------------------------------------
// Later samples of a sampled file

/// A sample taken from the middle or the end of a file disagrees with a
/// UTF-8 head: it starts like a PNG or ZIP file, or (for a UTF-8 source) it
/// has a malformed sequence after skipping up to three leading continuation
/// bytes, or it is cut inside a character at the real end of the file.
pub open spec fn sample_heterogeneous_spec(sample: Seq<u8>, reaches_eof: bool, utf8_source: bool) -> bool {
    let start = leading_continuations(sample);
    ||| has_prefix(sample, seq![0x89u8, 0x50u8, 0x4Eu8, 0x47u8])
    ||| has_prefix(sample, seq![0x50u8, 0x4Bu8, 0x03u8, 0x04u8])
    ||| (utf8_source && match utf8_check_spec(sample.skip(start as int)) {
        Utf8Check::Valid => false,
        Utf8Check::Incomplete { .. } => reaches_eof,
        Utf8Check::Invalid { .. } => true,
    })
}

/// Continuation bytes (10xxxxxx) at the start of `sample`, at most three.
pub open spec fn leading_continuations(sample: Seq<u8>) -> nat {
    if sample.len() >= 1 && sample[0] & 0xC0 == 0x80 {
        if sample.len() >= 2 && sample[1] & 0xC0 == 0x80 {
            if sample.len() >= 3 && sample[2] & 0xC0 == 0x80 {
                3
            } else {
                2
            }
        } else {
            1
        }
    } else {
        0
    }
}

/// Checks a middle or tail sample against the head. A UTF-8 middle sample
/// can begin or end mid-character: only up to three boundary bytes are
/// ignored, and any invalid interior is kept as mixed-encoding evidence.
pub fn sample_is_heterogeneous(sample: &[u8], reaches_eof: bool, utf8_source: bool) -> (r: bool)
    ensures
        r == sample_heterogeneous_spec(sample@, reaches_eof, utf8_source),
{
    let png: [u8; 4] = [0x89, 0x50, 0x4E, 0x47];
    let zip: [u8; 4] = [0x50, 0x4B, 0x03, 0x04];
    assert(png@ =~= seq![0x89u8, 0x50u8, 0x4Eu8, 0x47u8]);
    assert(zip@ =~= seq![0x50u8, 0x4Bu8, 0x03u8, 0x04u8]);
    if starts_with(sample, &png) || starts_with(sample, &zip) {
        return true;
    }
    if !utf8_source {
        return false;
    }
    let mut start: usize = 0;
    while start < 3 && start < sample.len() && sample[start] & 0xC0 == 0x80
        invariant
            start <= 3,
            start <= sample@.len(),
            forall|i: int| 0 <= i < start ==> #[trigger] sample@[i] & 0xC0 == 0x80,
        decreases 3 - start,
    {
        start = start + 1;
    }
    assert(start == leading_continuations(sample@));
    let rest = vstd::slice::slice_subrange(sample, start, sample.len());
    assert(rest@ =~= sample@.skip(start as int));
    match check_utf8(rest) {
        Utf8Check::Valid => false,
        Utf8Check::Incomplete { .. } => reaches_eof,
        Utf8Check::Invalid { .. } => true,
    }
}

// ---------------------------------------------------------------------------
// The analysed source file

/// A file whose head was analysed; export re-checks that it is unchanged.
#[derive(Clone)]
pub struct SourceFile {
    pub path: PathBuf,
    size: u64,
    /// Modification time in nanoseconds from the Unix epoch (negative
    /// before it), when the platform reports one.
    modified: Option<i128>,
    head_hash: Vec<u8>,
    head_length: usize,
    pub bom_length: usize,
}

impl SourceFile {
    pub closed spec fn path_spec(&self) -> PathBuf {
        self.path
    }

    pub closed spec fn bom_length_spec(&self) -> usize {
        self.bom_length
    }

    pub closed spec fn size_spec(&self) -> u64 {
        self.size
    }

    pub closed spec fn modified_spec(&self) -> Option<i128> {
        self.modified
    }

    pub closed spec fn head_hash_spec(&self) -> Seq<u8> {
        self.head_hash@
    }

    pub closed spec fn head_length_spec(&self) -> usize {
        self.head_length
    }

    /// Records a source: its size, modification time, the digest of the head
    /// bytes actually read (before any preview trimming) and its BOM length.
    pub fn new(path: PathBuf, size: u64, modified: Option<i128>, head: &[u8]) -> (r: SourceFile)
        ensures
            r.path_spec() == path,
            r.size_spec() == size,
            r.modified_spec() == modified,
            r.head_hash_spec() == sha256_of(head@),
            r.head_length_spec() == head@.len(),
            r.bom_length_spec() == match detect_bom_spec(head@) {
                Some((_, n)) => n,
                None => 0,
            },
    {
        let bom_length = match detect_bom(head) {
            Some((_, length)) => length,
            None => 0,
        };
        SourceFile { path, size, modified, head_hash: sha256(head), head_length: head.len(), bom_length }
    }

    pub fn size(&self) -> (r: u64)
        ensures
            r == self.size_spec(),
    {
        self.size
    }

    pub fn head_length(&self) -> (r: usize)
        ensures
            r == self.head_length_spec(),
    {
        self.head_length
    }

    /// The file still has the recorded size and modification time.
    pub fn metadata_unchanged(&self, size: u64, modified: Option<i128>) -> (r: bool)
        ensures
            r == (size == self.size_spec() && modified == self.modified_spec()),
    {
        size == self.size && match (modified, self.modified) {
            (Some(a), Some(b)) => a == b,
            (None, None) => true,
            _ => false,
        }
    }

    /// The head read now has the recorded digest.
    /// The SHA-256 digest of the head that was read.
    pub fn head_digest(&self) -> (r: &[u8])
        ensures
            r@ == self.head_hash_spec(),
    {
        self.head_hash.as_slice()
    }

    pub fn head_unchanged(&self, head: &[u8]) -> (r: bool)
        ensures
            r == (sha256_of(head@) == self.head_hash_spec()),
    {
        let digest = sha256(head);
        bytes_equal(digest.as_slice(), self.head_hash.as_slice())
    }
}

// ---------------------------------------------------------------------------
// Hexadecimal view

/// One row of the hexadecimal view: up to 16 bytes at an offset.
pub struct HexRow {
    pub offset: u64,
    pub hex: String,
    pub ascii: String,
}

/// Printable ASCII as itself, every other byte as '.'.
pub open spec fn ascii_column(bytes: Seq<u8>) -> Seq<char> {
    bytes.map_values(|b: u8| if 32 <= b && b < 127 { b as char } else { '.' })
}

/// The row for `bytes[16 * i ..]` (at most 16 bytes).
pub open spec fn row_bytes(bytes: Seq<u8>, i: int) -> Seq<u8> {
    bytes.subrange(16 * i, if 16 * i + 16 <= bytes.len() { 16 * i + 16 } else { bytes.len() as int })
}

pub open spec fn row_count(n: nat) -> nat {
    (n + 15) / 16
}

/// Rows of 16 bytes from `offset`: hexadecimal pairs separated by spaces and
/// the printable ASCII column.
pub fn hex_rows(bytes: &[u8], offset: u64) -> (r: Vec<HexRow>)
    requires
        bytes@.len() == 0 || offset + 16 * ((bytes@.len() - 1) / 16) <= u64::MAX,
    ensures
        r@.len() == row_count(bytes@.len()),
        forall|i: int|
            #![trigger r@[i]]
            0 <= i < r@.len() ==> r@[i].offset == offset + 16 * i && r@[i].hex@ == hex_join(
                row_bytes(bytes@, i),
            ) && r@[i].ascii@ == ascii_column(row_bytes(bytes@, i)),
{
    let mut rows: Vec<HexRow> = Vec::new();
    let n = bytes.len();
    let total = n / 16 + if n % 16 == 0 { 0 } else { 1 };
    assert(total == row_count(bytes@.len()));
    let mut index: usize = 0;
    while index < total
        invariant
            total == row_count(bytes@.len()),
            n == bytes@.len(),
            index <= total,
            index == rows@.len(),
            bytes@.len() == 0 || offset + 16 * ((bytes@.len() - 1) / 16) <= u64::MAX,
            forall|i: int|
                #![trigger rows@[i]]
                0 <= i < rows@.len() ==> rows@[i].offset == offset + 16 * i && rows@[i].hex@ == hex_join(
                    row_bytes(bytes@, i),
                ) && rows@[i].ascii@ == ascii_column(row_bytes(bytes@, i)),
        decreases total - index,
    {
        assert(16 * index < bytes@.len()) by (nonlinear_arith)
            requires
                index < total,
                total == bytes@.len() / 16 + if bytes@.len() % 16 == 0 { 0int } else { 1int },
        ;
        assert(16 * index <= 16 * ((bytes@.len() - 1) / 16)) by (nonlinear_arith)
            requires
                16 * index < bytes@.len(),
        ;
        let start = 16 * index;
        let end = if bytes.len() - start >= 16 { start + 16 } else { bytes.len() };
        let chunk = vstd::slice::slice_subrange(bytes, start, end);
        assert(chunk@ =~= row_bytes(bytes@, index as int));
        let hex = crate::evidence::hex_preview(chunk, 16);
        assert(hex@ =~= hex_join(chunk@)) by {
            assert(chunk@.take(chunk@.len() as int) =~= chunk@);
        }
        let mut ascii: Vec<char> = Vec::new();
        let mut k: usize = 0;
        while k < chunk.len()
            invariant
                k <= chunk@.len(),
                ascii@ == ascii_column(chunk@.take(k as int)),
            decreases chunk@.len() - k,
        {
            let b = chunk[k];
            ascii.push(if 32 <= b && b < 127 { b as char } else { '.' });
            assert(ascii@ =~= ascii_column(chunk@.take(k + 1)));
            k = k + 1;
        }
        assert(chunk@.take(chunk@.len() as int) =~= chunk@);
        let ghost before = rows@;
        rows.push(HexRow { offset: offset + (index as u64) * 16, hex, ascii: string_from_chars(ascii.as_slice()) });
        assert forall|i: int| 0 <= i < rows@.len() implies #[trigger] rows@[i].offset == offset + 16 * i
            && rows@[i].hex@ == hex_join(row_bytes(bytes@, i)) && rows@[i].ascii@ == ascii_column(
            row_bytes(bytes@, i),
        ) by {
            if i < before.len() {
                assert(rows@[i] == before[i]);
            }
        }
        index = index + 1;
    }
    rows
}

// ---------------------------------------------------------------------------
// Application data folder

/// Where the application keeps its data.
#[derive(Clone, Copy, Debug, PartialEq, Eq, Structural)]
pub enum DataDir {
    /// `runtime-data` beside the executable (Windows).
    BesideExecutable,
    /// `Library/Application Support/MojibakeLab` in the home folder (macOS).
    MacApplicationSupport,
    /// `mojibake-lab` in an absolute `XDG_DATA_HOME`.
    XdgDataHome,
    /// `.local/share/mojibake-lab` in the home folder.
    HomeLocalShare,
}

/// The data folder for an operating system, given whether the executable has
/// a parent folder, whether a home folder is known and whether
/// `XDG_DATA_HOME` is set (and absolute).
pub open spec fn location_spec(os: Seq<char>, exe_has_parent: bool, has_home: bool, xdg: Option<bool>) -> Result<DataDir, Seq<char>> {
    if os == "windows"@ {
        if exe_has_parent { Ok(DataDir::BesideExecutable) } else { Err("Missing executable folder"@) }
    } else if os == "macos"@ {
        if has_home { Ok(DataDir::MacApplicationSupport) } else { Err("Missing home folder"@) }
    } else if xdg == Some(true) {
        Ok(DataDir::XdgDataHome)
    } else if has_home {
        Ok(DataDir::HomeLocalShare)
    } else {
        Err("Missing user data folder"@)
    }
}

/// Installed and mounted bundles use writable per-user data folders.
pub fn location(os: &str, exe_has_parent: bool, has_home: bool, xdg: Option<bool>) -> (r: Result<DataDir, &'static str>)
    ensures
        match location_spec(os@, exe_has_parent, has_home, xdg) {
            Ok(d) => r == Ok::<DataDir, &'static str>(d),
            Err(e) => r matches Err(m) && m@ == e,
        },
{
    let chars = crate::strings::chars_of(os);
    let windows = crate::strings::chars_of("windows");
    let macos = crate::strings::chars_of("macos");
    if crate::strings::chars_equal(chars.as_slice(), windows.as_slice()) {
        if exe_has_parent { Ok(DataDir::BesideExecutable) } else { Err("Missing executable folder") }
    } else if crate::strings::chars_equal(chars.as_slice(), macos.as_slice()) {
        if has_home { Ok(DataDir::MacApplicationSupport) } else { Err("Missing home folder") }
    } else if xdg == Some(true) {
        Ok(DataDir::XdgDataHome)
    } else if has_home {
        Ok(DataDir::HomeLocalShare)
    } else {
        Err("Missing user data folder")
    }
}

} // verus!

verus! {

/// The kinds of I/O failure that the file commands tell apart; any other
/// failure keeps the error's own message.
pub enum IoFailure {
    PermissionDenied,
    NotFound,
    AlreadyExists,
    Other(String),
}

/// The message reported for an I/O failure.
pub open spec fn io_error_spec(error: IoFailure) -> Seq<char> {
    match error {
        IoFailure::PermissionDenied => "permission_denied"@,
        IoFailure::NotFound => "file_not_found"@,
        IoFailure::AlreadyExists => "output_exists"@,
        IoFailure::Other(message) => message@,
    }
}

pub fn io_error(error: IoFailure) -> (r: String)
    ensures
        r@ == io_error_spec(error),
{
    match error {
        IoFailure::PermissionDenied => "permission_denied".to_owned(),
        IoFailure::NotFound => "file_not_found".to_owned(),
        IoFailure::AlreadyExists => "output_exists".to_owned(),
        IoFailure::Other(message) => message,
    }
}

/// A head read from a file starts with a UTF-32 byte-order mark, which is
/// refused as unsupported.
pub open spec fn unsupported_head_spec(head: Seq<u8>) -> bool {
    has_prefix(head, seq![0xFFu8, 0xFEu8, 0u8, 0u8]) || has_prefix(head, seq![0u8, 0u8, 0xFEu8, 0xFFu8])
}

pub fn unsupported_head(head: &[u8]) -> (r: bool)
    ensures
        r == unsupported_head_spec(head@),
{
    let le: [u8; 4] = [0xFF, 0xFE, 0, 0];
    let be: [u8; 4] = [0, 0, 0xFE, 0xFF];
    assert(le@ =~= seq![0xFFu8, 0xFEu8, 0u8, 0u8]);
    assert(be@ =~= seq![0u8, 0u8, 0xFEu8, 0xFFu8]);
    starts_with(head, le.as_slice()) || starts_with(head, be.as_slice())
}

/// Where the later samples of a file of `size` bytes are read: the middle,
/// and the last 4096 bytes (or the start of a shorter file).
pub open spec fn sample_offsets_spec(size: u64) -> (u64, u64) {
    ((size / 2) as u64, if size >= 4096 { (size - 4096) as u64 } else { 0u64 })
}

pub fn sample_offsets(size: u64) -> (r: (u64, u64))
    ensures
        r == sample_offsets_spec(size),
{
    (size / 2, if size >= 4096 { size - 4096 } else { 0 })
}

} // verus!
