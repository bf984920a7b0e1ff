use mojibake_core::codec::{decode, detect_bom, encode, unsupported_bom, Codec, CODECS};
use mojibake_core::search::{stable_hash, transform, DataState};

#[test]
fn every_codec_parses_its_own_name() {
    for codec in CODECS {
        assert_eq!(Codec::parse(codec.name()), Some(codec));
    }
    assert_eq!(Codec::parse("utf8"), Some(Codec::Utf8));
    assert_eq!(Codec::parse("SJIS"), Some(Codec::ShiftJis));
    assert_eq!(Codec::parse("latin_1"), Some(Codec::Latin1));
    assert_eq!(Codec::parse("cp1252"), Some(Codec::Windows1252));
    assert_eq!(Codec::parse("gb2312"), Some(Codec::Gbk));
    assert_eq!(Codec::parse("koi8-r"), None);
}

#[test]
fn legacy_codecs_use_whatwg_tables() {
    assert_eq!(encode("中文", Codec::Gbk), Ok(vec![0xD6, 0xD0, 0xCE, 0xC4]));
    let decoded = decode(&[0xD6, 0xD0, 0xCE, 0xC4], Codec::Gbk);
    assert_eq!(decoded.text, "中文");
    assert!(!decoded.had_errors && decoded.round_trip);
    assert_eq!(decode(&[0x80], Codec::Windows1252).text, "€");
    assert_eq!(decode(&[0x80], Codec::Latin1).text, "\u{80}");
}

#[test]
fn unmappable_characters_are_refused() {
    assert_eq!(encode("中", Codec::Windows1252), Err("unmappable:Windows-1252:U+4E2D".to_string()));
    assert_eq!(encode("\u{1F9EA}", Codec::Latin1), Err("unmappable:ISO-8859-1:U+1F9EA".to_string()));
    assert!(encode("\u{1F9EA}", Codec::Gbk).is_err());
    assert!(encode("\u{1F9EA}", Codec::Gb18030).is_ok());
}

#[test]
fn utf16_encoders_write_explicit_endianness_without_bom() {
    assert_eq!(encode("A🧪", Codec::Utf16Le), Ok(vec![0x41, 0x00, 0x3E, 0xD8, 0xEA, 0xDD]));
    assert_eq!(encode("A🧪", Codec::Utf16Be), Ok(vec![0x00, 0x41, 0xD8, 0x3E, 0xDD, 0xEA]));
    let back = decode(&[0x00, 0x41, 0xD8, 0x3E, 0xDD, 0xEA], Codec::Utf16Be);
    assert_eq!(back.text, "A🧪");
    assert!(back.round_trip);
}

#[test]
fn malformed_utf8_is_recorded_with_replacements() {
    let decoded = decode(b"ok\xff", Codec::Utf8);
    assert!(decoded.had_errors);
    assert_eq!(decoded.replacement_count, 1);
    assert!(!decoded.round_trip);
    let existing = decode("a\u{FFFD}".as_bytes(), Codec::Utf8);
    assert!(!existing.had_errors);
    assert_eq!(existing.replacement_count, 1);
}

#[test]
fn non_canonical_legacy_bytes_do_not_round_trip() {
    let yen = encode("¥", Codec::ShiftJis).expect("encodable");
    assert_ne!(decode(&yen, Codec::ShiftJis).text, "¥");
}

#[test]
fn utf32_marks_are_not_taken_for_utf16() {
    assert_eq!(unsupported_bom(&[0xFF, 0xFE, 0, 0, 0x41]), Some("UTF-32LE"));
    assert_eq!(unsupported_bom(&[0, 0, 0xFE, 0xFF]), Some("UTF-32BE"));
    assert_eq!(detect_bom(&[0xFF, 0xFE, 0, 0]), None);
    assert_eq!(detect_bom(&[0xFF, 0xFE, 0x41, 0]), Some((Codec::Utf16Le, 2)));
    assert_eq!(detect_bom(&[0xFE, 0xFF]), Some((Codec::Utf16Be, 2)));
    assert_eq!(detect_bom(&[0xEF, 0xBB, 0xBF, 0x41]), Some((Codec::Utf8, 3)));
    assert_eq!(detect_bom(b"plain"), None);
}

#[test]
fn transform_records_each_step() {
    let (state, step) = transform(DataState::Text("Ã©".into()), Codec::Windows1252).expect("encode");
    assert_eq!(state, DataState::Bytes(vec![0xC3, 0xA9]));
    assert_eq!(step.operation, "encode");
    assert_eq!(step.input_size, 4);
    assert_eq!(step.output_size, 2);
    assert!(!step.lossy);
    let (state, step) = transform(state, Codec::Utf8).expect("decode");
    assert_eq!(state, DataState::Text("é".into()));
    assert_eq!(step.output_preview, "é");
    assert_eq!(step.input_preview, "C3 A9");
    assert_eq!(
        transform(DataState::Text("中".into()), Codec::Latin1).map(|r| r.0),
        Err("unmappable:ISO-8859-1:U+4E2D".to_string())
    );
}

#[test]
fn stable_hash_is_fnv1a() {
    assert_eq!(stable_hash(b""), 0xcbf29ce484222325);
    assert_eq!(stable_hash(b"a"), 0xaf63dc4c8601ec8c);
}

#[test]
fn labels_ignore_case_and_separators() {
    for codec in [Codec::Utf8, Codec::Utf16Le, Codec::Utf16Be, Codec::ShiftJis, Codec::EucJp, Codec::Windows1252, Codec::Latin1] {
        let name = codec.name();
        let lower = name.to_ascii_lowercase();
        let underscored = lower.replace('-', "_");
        assert_eq!(Codec::parse(&lower), Some(codec));
        assert_eq!(Codec::parse(&underscored), Some(codec));
        assert_eq!(Codec::parse(&name.to_ascii_uppercase()), Some(codec));
    }
}

#[test]
fn swapped_byte_pairs_swap_the_nul_layout() {
    let le = encode("Hello world", Codec::Utf16Le).expect("utf16le");
    let swapped: Vec<u8> = le.chunks(2).flat_map(|p| [p[1], p[0]]).collect();
    assert_eq!(mojibake_core::evidence::null_pattern(&le), "utf16le");
    assert_eq!(mojibake_core::evidence::null_pattern(&swapped), "utf16be");
    assert_eq!(mojibake_core::evidence::null_pattern(b"plain"), "none");
}

#[test]
fn encoding_then_decoding_gives_the_text_back() {
    let text = "Hello 中文 🧪 é\u{0}";
    for codec in [Codec::Utf8, Codec::Utf16Le, Codec::Utf16Be] {
        let bytes = encode(text, codec).expect("unicode encodes");
        let decoded = decode(&bytes, codec);
        assert_eq!(decoded.text, text);
        assert!(!decoded.had_errors && decoded.round_trip);
    }
    let latin = "Café ÿ\u{80}";
    let bytes = encode(latin, Codec::Latin1).expect("latin1 encodes");
    let decoded = decode(&bytes, Codec::Latin1);
    assert_eq!(decoded.text, latin);
    assert!(!decoded.had_errors && decoded.round_trip);
}

#[test]
fn transform_round_trips_a_lossless_encoding() {
    let text = "中文 text";
    for codec in [Codec::Utf8, Codec::Gbk, Codec::Utf16Be] {
        let (bytes, s1) = transform(DataState::Text(text.to_string()), codec).expect("encodes");
        assert!(!s1.lossy);
        let byte_len = match &bytes {
            DataState::Bytes(b) => b.len(),
            DataState::Text(_) => panic!("encoding gives bytes"),
        };
        let (back, s2) = transform(bytes, codec).expect("decodes");
        assert_eq!(back, DataState::Text(text.to_string()));
        assert_eq!(s2.operation, "decode");
        assert_eq!(s2.encoding, codec.name());
        assert_eq!(s2.input_size, byte_len);
        assert_eq!(s2.output_size, text.len());
    }
}
