use mojibake_core::codec::{decode, encode, Codec, CODECS};
use mojibake_core::files::{preview_codec, sample_is_heterogeneous, trim_incomplete_sample, SAMPLE_LIMIT};

#[test]
fn preview_cutoffs_preserve_complete_characters_for_supported_codecs() {
    for encoding in CODECS {
        let text = if encoding == Codec::Latin1 || encoding == Codec::Windows1252 {
            "A\u{e9}123\r\n"
        } else if matches!(
            encoding,
            Codec::Utf8 | Codec::Utf16Le | Codec::Utf16Be | Codec::Gb18030
        ) {
            "A中文🧪123\r\n"
        } else {
            "A中文123\r\n"
        };
        let bytes = encode(text, encoding).expect("encodable fixture");
        for end in 1..bytes.len() {
            let mut head = bytes[..end].to_vec();
            trim_incomplete_sample(&mut head, &bytes[end..(end + 4).min(bytes.len())], encoding);
            assert!(!decode(&head, encoding).had_errors, "{} at {end}", encoding.name());
            assert!(bytes.starts_with(&head));
            assert!(end - head.len() <= 3);
        }
    }
}

#[test]
fn preview_does_not_hide_a_real_malformed_suffix_or_interior() {
    for (head, tail) in [
        (b"valid\xff".as_slice(), b"more".as_slice()),
        (b"valid\xe4\xb8".as_slice(), b"!tail".as_slice()),
        (b"bad\xfftail\xe4\xb8".as_slice(), b"\xadend".as_slice()),
    ] {
        let mut preview = head.to_vec();
        trim_incomplete_sample(&mut preview, tail, Codec::Utf8);
        assert_eq!(preview, head);
    }
}

#[test]
fn detected_legacy_samples_end_on_real_character_boundaries() {
    for (encoding, text) in [
        (Codec::Gbk, "中文文件编码测试。你好，世界。\r\n"),
        (Codec::Gb18030, "中文文件编码测试🧪。你好，世界。\r\n"),
        (Codec::Big5, "中文測試檔案，早安。世界您好。\r\n"),
        (Codec::ShiftJis, "日本語の文字コードをテストします。こんにちは。\r\n"),
        (Codec::EucJp, "日本語の文字コードをテストします。こんにちは。\r\n"),
        (Codec::EucKr, "한글 인코딩 테스트입니다. 안녕하세요.\r\n"),
    ] {
        let body = encode(&text.repeat(3000), encoding).expect("fixture");
        let bytes = (0..4)
            .find_map(|prefix| {
                let mut bytes = vec![b'A'; prefix];
                bytes.extend_from_slice(&body);
                if decode(&bytes[..SAMPLE_LIMIT], encoding).had_errors {
                    Some(bytes)
                } else {
                    None
                }
            })
            .expect("fixture cuts a character");
        let mut head = bytes[..SAMPLE_LIMIT].to_vec();
        let suggested = preview_codec(&head).expect("supported detector suggestion");
        trim_incomplete_sample(&mut head, &bytes[SAMPLE_LIMIT..SAMPLE_LIMIT + 4], suggested);
        assert!(
            !decode(&head, encoding).had_errors,
            "{} suggested {}",
            encoding.name(),
            suggested.name()
        );
    }
}

#[test]
fn cut_utf8_character_is_trimmed_to_the_boundary() {
    let mut head = b"ab\xe4\xb8".to_vec();
    trim_incomplete_sample(&mut head, b"\xadz", Codec::Utf8);
    assert_eq!(head, b"ab");
}

#[test]
fn bom_selects_the_preview_codec() {
    assert_eq!(preview_codec(b"\xff\xfeA\x00"), Some(Codec::Utf16Le));
    assert_eq!(preview_codec(b"\xef\xbb\xbfabc"), Some(Codec::Utf8));
    assert_eq!(preview_codec(b"A\x00B\x00C\x00D\x00"), Some(Codec::Utf16Le));
    assert_eq!(preview_codec(b"plain ascii\xe4\xb8"), Some(Codec::Utf8));
}

#[test]
fn later_samples_that_disagree_with_the_head_are_flagged() {
    assert!(sample_is_heterogeneous(b"\x89PNG\r\n", false, false));
    assert!(sample_is_heterogeneous(b"PK\x03\x04rest", false, true));
    assert!(!sample_is_heterogeneous(b"\xb8\xadplain", false, true));
    assert!(sample_is_heterogeneous(b"ok\xffok", false, true));
    assert!(!sample_is_heterogeneous(b"ok\xe4\xb8", false, true));
    assert!(sample_is_heterogeneous(b"ok\xe4\xb8", true, true));
    assert!(!sample_is_heterogeneous(b"ok\xffok", false, false));
}
