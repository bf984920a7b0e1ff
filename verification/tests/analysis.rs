use mojibake_core::analysis::{
    bounded_input, bounded_text, case_plan, file_case_warnings, text_prefix_end, utf8_source, MAX_SAMPLE_BYTES,
};
use mojibake_core::codec::{encode, Codec};
use mojibake_core::evidence::evidence_facts;

#[test]
fn raw_input_is_cut_to_the_sample_limit() {
    let bytes = vec![b'a'; MAX_SAMPLE_BYTES + 100];
    assert_eq!(bounded_input(&bytes).len(), MAX_SAMPLE_BYTES);
    let short = b"short";
    assert_eq!(bounded_input(short), short);
}

#[test]
fn pasted_text_is_cut_on_a_character_boundary() {
    let mut text = "a".repeat(MAX_SAMPLE_BYTES - 1);
    text.push('中');
    let end = text_prefix_end(&text);
    assert_eq!(end, MAX_SAMPLE_BYTES - 1);
    assert!(text.is_char_boundary(end));
    let (prefix, cut) = bounded_text(&text);
    assert_eq!(prefix, "a".repeat(MAX_SAMPLE_BYTES - 1));
    assert!(cut);
    let (whole, cut) = bounded_text("中文");
    assert_eq!(whole, "中文");
    assert!(!cut);
    assert_eq!(text_prefix_end("中文"), 6);
}

#[test]
fn binary_evidence_stops_the_search() {
    let bytes = b"\x89PNG\r\n\x1a\n\x00\x00\x00";
    let text = String::from_utf8_lossy(bytes).into_owned();
    let facts = evidence_facts(&text, Some(bytes), false);
    let plan = case_plan(&facts, Some(bytes));
    assert!(!plan.run_search);
    assert_eq!(plan.warnings, vec!["binary_content".to_string(), "information_loss".to_string()]);
}

#[test]
fn plan_reads_the_utf16_layout_and_the_detector() {
    let bytes = encode("Hello world, plain text", Codec::Utf16Le).expect("utf16");
    let facts = evidence_facts("Hello world, plain text", Some(&bytes), false);
    let plan = case_plan(&facts, Some(&bytes));
    assert!(plan.run_search);
    assert_eq!(plan.pattern, Some(Codec::Utf16Le));
    assert!(plan.warnings.is_empty());
    let gbk = encode("中文文件编码测试。你好，世界。", Codec::Gbk).expect("gbk");
    let facts = evidence_facts("x", Some(&gbk), false);
    let plan = case_plan(&facts, Some(&gbk));
    assert_eq!(plan.pattern, None);
    assert_eq!(plan.detector, Some(Codec::Gbk));
}

#[test]
fn pasted_replacement_characters_warn_of_loss() {
    let facts = evidence_facts("Broken \u{FFFD} text", None, false);
    let plan = case_plan(&facts, None);
    assert!(plan.run_search);
    assert_eq!(plan.pattern, None);
    assert_eq!(plan.detector, None);
    assert_eq!(plan.warnings, vec!["information_loss".to_string()]);
}

#[test]
fn file_warnings_are_sorted_and_unique() {
    assert_eq!(
        file_case_warnings(true, 2, true, true),
        vec!["binary_content", "heterogeneous_samples", "information_loss", "sampled_file"]
    );
    assert_eq!(file_case_warnings(false, 0, true, false), vec!["sampled_file"]);
    assert_eq!(file_case_warnings(false, 0, false, true), Vec::<String>::new());
    assert_eq!(file_case_warnings(false, 1, false, false), vec!["information_loss"]);
}

#[test]
fn utf8_sources_need_a_valid_utf8_head() {
    let head = "Hello 中文".as_bytes();
    assert!(utf8_source(Some(true), head));
    assert!(!utf8_source(Some(false), head));
    assert!(!utf8_source(None, head));
    let cut = &head[..head.len() - 1];
    assert!(utf8_source(Some(true), cut));
}
