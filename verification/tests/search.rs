use mojibake_core::beam::{search, select_candidates, ScoreKeys};
use mojibake_core::codec::{decode, encode, Codec};
use mojibake_core::evidence::metrics;
use mojibake_core::recovery::{
    repair_decode, search_budget, target_allowed, wrong_codec_bytes, RecoveryState, MAX_CANDIDATES,
};
use mojibake_core::report::{candidate_notes, contracting_repair};
use mojibake_core::search::{transform, DataState};

fn keys(state: &RecoveryState) -> ScoreKeys {
    let m = metrics(&state.text);
    let penalty = (m.suspicious as u64) * 10 + (m.replacements as u64) * 10 + (m.controls as u64) * 10;
    let value = 1_000_000u64.saturating_sub(penalty) * 8 + if state.reversible { 4 } else { 0 };
    ScoreKeys { rank: value, compare: value, priority: value }
}

#[test]
fn double_encoded_paste_is_repaired_in_one_layer() {
    let damaged = "ä¸\u{ad}æ–‡";
    let (candidates, explored) = search(damaged, None, None, None, None, &keys);
    assert!(!candidates.is_empty() && candidates.len() <= MAX_CANDIDATES);
    assert!(explored <= search_budget(damaged.len()));
    let repaired = candidates.iter().find(|c| c.text == "中文").expect("repaired candidate");
    assert_eq!(repaired.depth, 1);
    assert_eq!(repaired.steps.len(), 2);
    assert_eq!(repaired.steps[0].operation, "encode");
    assert_eq!(repaired.steps[0].encoding, "Windows-1252");
    assert_eq!(repaired.steps[1].operation, "decode");
    assert_eq!(repaired.steps[1].encoding, "UTF-8");
    assert!(candidates.iter().any(|c| c.text == damaged), "the unchanged text stays inspectable");
    for (i, a) in candidates.iter().enumerate() {
        for b in &candidates[i + 1..] {
            assert_ne!(a.text, b.text);
        }
    }
}

#[test]
fn raw_bytes_are_read_with_every_codec_and_deduplicated() {
    let bytes = b"plain ascii";
    let text = decode(bytes, Codec::Utf8).text;
    let (candidates, explored) = search(&text, Some(bytes), None, None, None, &keys);
    assert!(explored >= 11);
    assert!(candidates.iter().any(|c| c.text == "plain ascii"));
    let same = candidates.iter().find(|c| c.text == "plain ascii").expect("ascii");
    assert!(same.alternatives >= 1, "identical readings count as alternatives");
}

#[test]
fn bom_restricts_the_seeds_to_its_codec() {
    let bytes = encode("Hello", Codec::Utf16Le).expect("utf16");
    let (candidates, explored) = search("Hello", Some(&bytes), Some(Codec::Utf16Le), None, None, &keys);
    assert!(explored >= 1);
    let seed = candidates.iter().find(|c| c.depth == 0).expect("seed");
    assert_eq!(seed.steps[0].encoding, "UTF-16LE");
    assert!(candidates.iter().any(|c| c.text == "Hello"));
    assert!(candidates.iter().all(|c| c.depth <= 1), "clean Unicode gets one repair layer");
}

#[test]
fn existing_replacement_loss_reaches_every_candidate() {
    let text = "broken \u{FFFD} text Ã©";
    let (candidates, _) = search(text, None, None, None, None, &keys);
    assert!(candidates.iter().all(|c| c.lossy && !c.reversible && c.inherited_loss == 1));
}

#[test]
fn selection_keeps_the_baseline_inspectable() {
    let ranked: Vec<usize> = (0..20).collect();
    assert_eq!(select_candidates(ranked.clone(), None), (0..12).collect::<Vec<_>>());
    let mut expected: Vec<usize> = (0..11).collect();
    expected.push(17);
    assert_eq!(select_candidates(ranked.clone(), Some(17)), expected);
    assert_eq!(select_candidates(ranked, Some(3)), (0..12).collect::<Vec<_>>());
    assert_eq!(select_candidates(vec![2, 0], Some(1)), vec![2, 0, 1]);
}

#[test]
fn candidate_notes_report_warnings_reasons_and_id() {
    let damaged = "ä¸\u{ad}æ–‡";
    let (candidates, _) = search(damaged, None, None, None, None, &keys);
    let original = metrics(damaged);
    let repaired = candidates.iter().find(|c| c.text == "中文").expect("repaired");
    let notes = candidate_notes(repaired, &original);
    assert_eq!(notes.warnings, vec!["heuristic_not_probability".to_string()]);
    assert!(notes.reasons.contains(&"reversible_path".to_string()));
    assert!(notes.reasons.contains(&"fewer_mojibake_patterns".to_string()));
    assert!(notes.reasons.contains(&"utf8_recovered".to_string()));
    assert!(notes.id.starts_with("candidate-"));
    assert_eq!(notes.id.len(), "candidate-".len() + 16);
    assert_eq!(notes.preview, "中文");
    assert!(contracting_repair(&repaired.steps));
    let empty = RecoveryState {
        text: String::new(),
        steps: Vec::new(),
        depth: 0,
        reversible: false,
        lossy: true,
        inherited_loss: 0,
        preserve: false,
        detector_match: false,
        bom_or_pattern: false,
        unsupported_utf16: false,
        validated_unicode: false,
        alternatives: 0,
    };
    let notes = candidate_notes(&empty, &original);
    assert_eq!(
        notes.warnings,
        vec!["heuristic_not_probability".to_string(), "information_loss".to_string(), "non_round_trip".to_string()]
    );
    assert_eq!(notes.id, "candidate-cbf29ce484222325");
}

#[test]
fn repairs_are_strict_and_need_nul_evidence_for_utf16() {
    assert_eq!(wrong_codec_bytes("Ã©", Codec::Windows1252), Some(vec![0xC3, 0xA9]));
    let (decoded, _) = repair_decode("Ã©", &[0xC3, 0xA9], Codec::Utf8).expect("kept");
    assert_eq!(decoded.text, "é");
    assert!(decoded.round_trip && !decoded.had_errors);
    assert_eq!(wrong_codec_bytes("中", Codec::Windows1252), None);
    assert_eq!(wrong_codec_bytes("abc", Codec::Utf16Le), None);
    assert_eq!(wrong_codec_bytes("a\0", Codec::Utf16Le), Some(vec![0x61, 0, 0, 0]));
    assert!(!target_allowed(b"abc", Codec::Windows1252, Codec::Utf16Le));
    assert!(target_allowed(b"a\0b\0", Codec::Windows1252, Codec::Utf16Le));
    assert!(!target_allowed(b"abc", Codec::Utf8, Codec::Utf8));
    assert!(repair_decode("é", &[0xC3, 0xA9], Codec::Utf8).is_none(), "identity repairs are dropped");
    assert!(repair_decode("x", &[0xFF], Codec::Utf8).is_none(), "malformed repairs are dropped");
}

#[test]
fn the_decode_budget_shrinks_with_the_input() {
    assert_eq!(search_budget(0), 4096);
    assert_eq!(search_budget(1), 4096);
    assert_eq!(search_budget(30_000), 279);
    assert_eq!(search_budget(100_000), 192);
}

#[test]
fn candidates_are_reported_in_rank_order() {
    let damaged = decode("中文测试文件。".as_bytes(), Codec::Windows1252).text;
    let (candidates, _) = search(&damaged, None, None, None, None, &keys);
    let ranks: Vec<u64> = candidates.iter().map(|c| keys(c).rank).collect();
    let body = if candidates.last().is_some_and(|c| c.text == damaged) { ranks.len() - 1 } else { ranks.len() };
    for i in 1..body {
        assert!(ranks[i - 1] >= ranks[i], "{ranks:?}");
    }
    assert_eq!(candidates[0].text, "中文测试文件。");
}

fn replay(start: DataState, state: &RecoveryState) -> DataState {
    let mut data = start;
    for step in &state.steps {
        let codec = Codec::parse(&step.encoding).expect("recorded codec");
        let (next, recorded) = transform(data, codec).expect("step replays");
        assert_eq!(recorded.operation, step.operation);
        assert_eq!(recorded.encoding, step.encoding);
        assert_eq!(recorded.input_size, step.input_size);
        assert_eq!(recorded.output_size, step.output_size);
        assert_eq!(recorded.lossy, step.lossy);
        assert_eq!(recorded.replacement_count, step.replacement_count);
        assert_eq!(recorded.input_preview, step.input_preview);
        assert_eq!(recorded.output_preview, step.output_preview);
        data = next;
    }
    data
}

#[test]
fn recorded_paths_replay_to_the_reported_text() {
    let damaged = "ä¸\u{ad}æ–‡ Ã©tÃ©";
    let (candidates, _) = search(damaged, None, None, None, None, &keys);
    for c in &candidates {
        assert_eq!(c.steps.len() % 2, 0);
        assert_eq!(replay(DataState::Text(damaged.to_string()), c), DataState::Text(c.text.clone()));
        if c.depth > 0 {
            assert!(c.reversible && !c.lossy);
            assert!(c.steps.iter().all(|s| !s.lossy && s.replacement_count == 0));
        }
        if c.text == damaged {
            assert!(c.depth == 0 && c.steps.is_empty() || c.depth >= 2);
        }
    }
    let bytes = "Café".as_bytes();
    let (candidates, _) = search("Café", Some(bytes), None, None, None, &keys);
    for c in &candidates {
        assert_eq!(c.steps.len() % 2, 1);
        assert_eq!(replay(DataState::Bytes(bytes.to_vec()), c), DataState::Text(c.text.clone()));
        assert!(c.steps[1..].iter().all(|s| !s.lossy && s.replacement_count == 0));
    }
}

#[test]
fn file_bytes_get_repairs_of_their_best_reading() {
    let mojibake = decode("中文".as_bytes(), Codec::Windows1252).text;
    let bytes = mojibake.as_bytes().to_vec();
    let (candidates, _) = search(&mojibake, Some(&bytes), None, None, None, &keys);
    assert!(candidates.iter().any(|c| c.text == "中文" && c.depth == 1 && c.steps.len() == 3));
}

#[test]
fn clean_pasted_word_is_reported_unchanged() {
    let (candidates, explored) = search("Hello", None, None, None, None, &keys);
    assert_eq!(explored, 73);
    assert_eq!(candidates.len(), 1);
    assert_eq!(candidates[0].text, "Hello");
    assert_eq!(candidates[0].depth, 0);
    assert!(candidates[0].steps.is_empty());
    assert_eq!(candidates[0].alternatives, 0);
}

fn keys_with_depth_penalty(state: &RecoveryState) -> ScoreKeys {
    let base = keys(state);
    let value = base.rank.saturating_sub(state.depth as u64 * 16) + if state.preserve { 8 } else { 0 };
    ScoreKeys { rank: value, compare: value, priority: value }
}

#[test]
fn double_mojibake_is_repaired_in_the_second_layer() {
    let once = decode("中文".as_bytes(), Codec::Windows1252).text;
    let twice = decode(once.as_bytes(), Codec::Windows1252).text;
    let (candidates, explored) = search(&twice, None, None, None, None, &keys);
    assert!(explored <= search_budget(twice.len()));
    let repaired = candidates.iter().find(|c| c.text == "中文").expect("second-layer repair");
    assert_eq!(repaired.depth, 2);
    assert_eq!(repaired.steps.len(), 4);
    assert_eq!(replay(DataState::Text(twice.clone()), repaired), DataState::Text("中文".to_string()));
    assert_eq!(replay_prefix(DataState::Text(twice.clone()), repaired, 2), DataState::Text(once.clone()));
}

fn replay_prefix(start: DataState, state: &RecoveryState, n: usize) -> DataState {
    let mut data = start;
    for step in &state.steps[..n] {
        let codec = Codec::parse(&step.encoding).expect("recorded codec");
        data = transform(data, codec).expect("step replays").0;
    }
    data
}

#[test]
fn every_repair_pair_changes_the_text() {
    let once = decode("中文测试".as_bytes(), Codec::Windows1252).text;
    let twice = decode(once.as_bytes(), Codec::Windows1252).text;
    let (candidates, _) = search(&twice, None, None, None, None, &keys);
    for c in &candidates {
        let mut previous = DataState::Text(twice.clone());
        for pair in 1..=c.steps.len() / 2 {
            let now = replay_prefix(DataState::Text(twice.clone()), c, pair * 2);
            assert_ne!(now, previous);
            previous = now;
        }
    }
}

#[test]
fn unchanged_paste_keeps_its_empty_path_under_a_depth_penalty() {
    let once = decode("Grüße".as_bytes(), Codec::Windows1252).text;
    let (candidates, _) = search(&once, None, None, None, None, &keys_with_depth_penalty);
    let unchanged = candidates.iter().find(|c| c.text == once).expect("unchanged text");
    assert_eq!(unchanged.depth, 0);
    assert!(unchanged.steps.is_empty());
}
