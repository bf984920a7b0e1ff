use mojibake_core::codec::{encode, Codec};
use mojibake_core::models::TransformationStep;
use mojibake_core::streaming::{accept_decoded, convert};

fn steps(labels: &[(&str, &str)]) -> Vec<TransformationStep> {
    labels
        .iter()
        .map(|(operation, encoding)| TransformationStep {
            operation: operation.to_string(),
            encoding: encoding.to_string(),
            input_type: if *operation == "decode" { "bytes" } else { "text" }.to_string(),
            output_type: if *operation == "decode" { "text" } else { "bytes" }.to_string(),
            input_preview: String::new(),
            output_preview: String::new(),
            input_size: 0,
            output_size: 0,
            lossy: false,
            replacement_count: 0,
        })
        .collect()
}

#[test]
fn every_byte_boundary_utf16_and_surrogates() {
    let text = "Hello 中文 🧪\r\n日本語";
    for encoding in [Codec::Utf16Le, Codec::Utf16Be, Codec::Utf8, Codec::Gb18030] {
        let bytes = encode(text, encoding).expect("fixture encodes");
        let output = convert(&bytes, 1, &steps(&[("decode", encoding.name())]), 0).expect("stream");
        assert_eq!(output.as_bytes(), text.as_bytes());
    }
}

#[test]
fn repair_pair_carries_incomplete_utf8_between_chunks() {
    let damaged = "ä¸\u{ad}æ–‡".repeat(10000);
    let output = convert(
        damaged.as_bytes(),
        1,
        &steps(&[("decode", "UTF-8"), ("encode", "Windows-1252"), ("decode", "UTF-8")]),
        0,
    )
    .expect("repair");
    assert_eq!(output.as_bytes(), "中文".repeat(10000).as_bytes());
}

#[test]
fn invalid_tail_is_not_silently_replaced() {
    let result = convert(b"valid\xe4\xb8", 16 * 1024, &steps(&[("decode", "UTF-8")]), 0);
    assert_eq!(result, Err("export_loss_detected".into()));
}

#[test]
fn literal_latin1_differs_from_cp1252() {
    let output = convert(&[0x80], 16 * 1024, &steps(&[("decode", "ISO-8859-1")]), 0).expect("latin1");
    assert_eq!(output.as_bytes(), "\u{80}".as_bytes());
}

#[test]
fn encodable_but_non_roundtrip_yen_is_rejected() {
    let result = convert(
        "¥".as_bytes(),
        16 * 1024,
        &steps(&[("decode", "UTF-8"), ("encode", "Shift_JIS"), ("decode", "UTF-8")]),
        0,
    );
    assert_eq!(result, Err("export_loss_detected".into()));
}

#[test]
fn bom_is_skipped_and_a_short_source_is_refused() {
    let output = convert(b"\xef\xbb\xbfhi", 16 * 1024, &steps(&[("decode", "UTF-8")]), 3).expect("bom");
    assert_eq!(output, "hi");
    let result = convert(b"\xef\xbb", 16 * 1024, &steps(&[("decode", "UTF-8")]), 3);
    assert_eq!(result, Err("source_changed".into()));
}

#[test]
fn malformed_paths_are_refused() {
    assert_eq!(
        convert(b"x", 4, &steps(&[("decode", "KOI8-R")]), 0),
        Err("unsupported_encoding".into())
    );
    assert_eq!(
        convert(b"x", 4, &steps(&[("encode", "UTF-8")]), 0),
        Err("invalid_transformation".into())
    );
    assert_eq!(
        convert(b"x", 4, &steps(&[("decode", "UTF-8"), ("encode", "UTF-8")]), 0),
        Err("invalid_transformation".into())
    );
    assert_eq!(convert(b"x", 4, &[], 0), Err("invalid_transformation".into()));
}

#[test]
fn legacy_decoder_keeps_partial_characters_between_chunks() {
    let text = "中文文件编码测试。";
    let bytes = encode(text, Codec::Gbk).expect("gbk");
    for size in 1..5 {
        let output = convert(&bytes, size, &steps(&[("decode", "GBK")]), 0).expect("gbk stream");
        assert_eq!(output, text);
    }
}

#[test]
fn decoder_output_is_kept_only_when_it_accounts_for_the_bytes() {
    let bytes = b"valid\xe4\xb8";
    let (text, rest) = accept_decoded(Codec::Utf8, Vec::new(), bytes, "valid".to_string(), true, false, false)
        .expect("partial character waits");
    assert_eq!(text, "valid");
    assert_eq!(rest, vec![0xe4, 0xb8]);
    let at_end = accept_decoded(Codec::Utf8, Vec::new(), bytes, "valid".to_string(), true, false, true);
    assert_eq!(at_end, Err("export_loss_detected".to_string()));
    let malformed = accept_decoded(Codec::Utf8, Vec::new(), bytes, "valid\u{FFFD}".to_string(), true, true, true);
    assert_eq!(malformed, Err("export_loss_detected".to_string()));
    let short = accept_decoded(Codec::Utf8, Vec::new(), bytes, String::new(), false, false, false);
    assert_eq!(short, Err("export_loss_detected".to_string()));
    let finished = accept_decoded(Codec::Utf8, vec![0xe4, 0xb8], b"\xad", "中".to_string(), true, false, true)
        .expect("completed character");
    assert_eq!(finished, ("中".to_string(), Vec::new()));
    let wrong = accept_decoded(Codec::Utf8, Vec::new(), b"ab", "xy".to_string(), true, false, true);
    assert_eq!(wrong, Err("export_loss_detected".to_string()));
}

#[test]
fn latin1_export_is_literal_for_every_chunk_size() {
    let bytes: Vec<u8> = (0u8..=255).collect();
    let expected: String = bytes.iter().map(|&b| b as char).collect();
    for chunk in [1usize, 7, 300] {
        let output = convert(&bytes, chunk, &steps(&[("decode", "ISO-8859-1")]), 0).expect("latin1");
        assert_eq!(output, expected);
    }
}
