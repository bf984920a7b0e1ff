use mojibake_core::codec::{encode, Codec};
use mojibake_core::evidence::{
    detector_label, detector_label_prefix, evidence_facts, hex_preview, is_binary, meaningful_scripts, metrics,
    null_pattern, text_preview,
};
use mojibake_core::files::{hex_rows, sample_offsets, unsupported_head, SourceFile};
use mojibake_core::textclass::{is_control, ScriptClass};
use std::path::PathBuf;

#[test]
fn metrics_count_markers_only_in_pairs() {
    let m = metrics("Ã© é \u{E000}\u{FFFD}\u{7}\t");
    assert_eq!(m.count, 9);
    assert_eq!(m.replacements, 1);
    assert_eq!(m.controls, 1);
    assert_eq!(m.suspicious, 2);
    assert!(!m.clean());
    assert!(metrics("plain text").clean());
    assert_eq!(metrics("鈥溿").suspicious, 1);
}

#[test]
fn control_excludes_layout_characters() {
    assert!(is_control('\u{7}'));
    assert!(!is_control('\t') && !is_control('\n') && !is_control('\r') && !is_control('\u{c}'));
}

#[test]
fn scripts_are_grouped_by_unicode_script() {
    assert_eq!(ScriptClass::of('中'), ScriptClass::Han);
    assert_eq!(ScriptClass::of('a'), ScriptClass::Latin);
    assert_eq!(ScriptClass::of('あ'), ScriptClass::Hiragana);
    assert_eq!(ScriptClass::of('1'), ScriptClass::Common);
    assert_eq!(ScriptClass::of('\u{301}'), ScriptClass::Common);
    assert_eq!(ScriptClass::of('ก'), ScriptClass::Other);
    assert_eq!(ScriptClass::Hangul.name(), "Hangul");
    assert_eq!(meaningful_scripts(&metrics("abc 中文 123")), 2);
    assert_eq!(meaningful_scripts(&metrics("123 !")), 0);
}

#[test]
fn previews_are_bounded() {
    assert_eq!(hex_preview(&[0x41, 0x42, 0x43], 2), "41 42 …");
    assert_eq!(hex_preview(&[0x0A], 48), "0A");
    assert_eq!(hex_preview(&[], 4), "");
    assert_eq!(text_preview("abcdef", 3), "abc…");
    assert_eq!(text_preview("中文", 2), "中文");
}

#[test]
fn null_layouts_distinguish_utf16_byte_orders() {
    assert_eq!(null_pattern(b"abc"), "none");
    assert_eq!(null_pattern(b"A\0B\0C\0"), "utf16le");
    assert_eq!(null_pattern(b"\0A\0B\0C"), "utf16be");
    assert_eq!(null_pattern(b"\0\0\0\0"), "irregular");
}

#[test]
fn binary_signatures_and_controls_stop_recovery() {
    assert!(is_binary(b"\x89PNG\r\n\x1a\nrest"));
    assert!(is_binary(b"\x7fELF\x02\x01"));
    assert!(is_binary(&[0xFF, 0xFE, 0, 0, 0x41, 0, 0, 0]));
    assert!(is_binary(b"\x01\x02\x03\x04text"));
    assert!(!is_binary(b"plain text\r\n"));
    assert!(!is_binary(b"A\0B\0C\0D\0"));
}

#[test]
fn detector_prefers_structure_over_statistics() {
    assert_eq!(detector_label(b"\xef\xbb\xbfabc"), "UTF-8");
    assert_eq!(detector_label(b"A\0B\0C\0D\0"), "UTF-16LE");
    let gbk = encode(&"中文文件编码测试。你好，世界。".repeat(20), Codec::Gbk).expect("gbk");
    assert_eq!(detector_label(&gbk), "GBK");
    assert_eq!(detector_label_prefix(&gbk[..gbk.len() - 1]), "GBK");
}

#[test]
fn evidence_facts_describe_text_and_bytes() {
    let facts = evidence_facts("a\nb", Some(b"a\nb"), false);
    assert_eq!(facts.line_count, 2);
    assert_eq!(facts.valid_utf8, Some(true));
    assert_eq!(facts.null_byte_pattern, "none");
    assert_eq!(facts.hex_prefix, "61 0A 62");
    assert_eq!(facts.sample_size, 3);
    assert_eq!(facts.bom, None);
    assert!(facts.detector_suggestion.is_some());
    assert!(!facts.binary);
    let pasted = evidence_facts("中\u{FFFD}", None, false);
    assert_eq!(pasted.null_byte_pattern, "unavailable");
    assert_eq!(pasted.sample_size, 6);
    assert_eq!(pasted.replacement_count, 1);
    assert_eq!(pasted.line_count, 1);
    assert_eq!(pasted.hex_prefix, "");
    assert_eq!(evidence_facts("", None, true).line_count, 0);
    let marked = evidence_facts("x", Some(&[0xFF, 0xFE, 0, 0]), true);
    assert_eq!(marked.bom, Some("UTF-32LE".to_string()));
    assert!(marked.binary && marked.sampled);
}

#[test]
fn source_records_the_head_digest() {
    let source = SourceFile::new(PathBuf::from("x.txt"), 3, Some(7), b"abc");
    assert_eq!(
        source.head_digest(),
        [
            0xba, 0x78, 0x16, 0xbf, 0x8f, 0x01, 0xcf, 0xea, 0x41, 0x41, 0x40, 0xde, 0x5d, 0xae, 0x22, 0x23, 0xb0,
            0x03, 0x61, 0xa3, 0x96, 0x17, 0x7a, 0x9c, 0xb4, 0x10, 0xff, 0x61, 0xf2, 0x00, 0x15, 0xad
        ]
    );
    assert!(source.head_unchanged(b"abc"));
    assert!(!source.head_unchanged(b"abd"));
    assert!(source.metadata_unchanged(3, Some(7)));
    assert!(!source.metadata_unchanged(3, None));
    assert_eq!(source.bom_length, 0);
}

#[test]
fn hex_rows_hold_sixteen_bytes() {
    let rows = hex_rows(&[0x41; 20], 32);
    assert_eq!(rows.len(), 2);
    assert_eq!(rows[0].offset, 32);
    assert_eq!(rows[1].offset, 48);
    assert_eq!(rows[1].hex, "41 41 41 41");
    assert_eq!(rows[0].ascii, "AAAAAAAAAAAAAAAA");
    assert_eq!(hex_rows(&[0x00, 0x7F], 0)[0].ascii, "..");
    let last = hex_rows(&[0x41; 3], u64::MAX - 2);
    assert_eq!(last.len(), 1);
    assert_eq!(last[0].offset, u64::MAX - 2);
    assert!(hex_rows(&[], u64::MAX).is_empty());
}

#[test]
fn file_heads_and_samples() {
    assert!(unsupported_head(&[0, 0, 0xFE, 0xFF]));
    assert!(!unsupported_head(&[0xFF, 0xFE, 0x41, 0]));
    assert_eq!(sample_offsets(10_000), (5_000, 5_904));
    assert_eq!(sample_offsets(100), (50, 0));
}
