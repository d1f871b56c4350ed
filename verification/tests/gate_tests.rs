use plato_engine::gate::{detect_absolute_claims, is_in_quotes};
use plato_engine::tile::Tile;
use plato_engine::{Gate, GateConfig, GateDecision, Provenance, Real64, TileBuilder};

fn number(v: f64) -> Real64 {
    Real64::new(v.to_bits(), v.to_string())
}

fn make_tile(answer: &str, question: &str) -> Tile {
    TileBuilder::new()
        .domain("test")
        .question(question)
        .answer(answer)
        .source("test-source")
        .confidence(number(0.8))
        .provenance(Provenance {
            agent_id: "test-agent".into(),
            session_id: "test-session".into(),
            chain_hash: "abc".into(),
            signature: "sig".into(),
        })
        .build()
        .ok()
        .unwrap()
}

#[test]
fn test_accept_good_tile() {
    let gate = Gate::with_defaults();
    let tile = make_tile("This is a well-qualified answer about something.", "What is it?");
    assert!(matches!(gate.evaluate(&tile), GateDecision::Accept));
}

#[test]
fn test_reject_absolute_always() {
    let gate = Gate::with_defaults();
    let tile = make_tile("This will always work perfectly.", "Does it work?");
    match gate.evaluate(&tile) {
        GateDecision::Reject(reason) => assert!(reason.contains("absolute claims")),
        GateDecision::Accept => panic!("should reject absolute claims"),
    }
}

#[test]
fn test_reject_absolute_never() {
    let gate = Gate::with_defaults();
    let tile = make_tile("This never fails under any condition.", "Is it reliable?");
    match gate.evaluate(&tile) {
        GateDecision::Reject(reason) => assert!(reason.contains("absolute claims")),
        GateDecision::Accept => panic!("should reject"),
    }
}

#[test]
fn test_allow_quoted_absolute() {
    let gate = Gate::with_defaults();
    let tile = make_tile(r#"'Always' is a word people use too often."#, "What about that word?");
    assert!(matches!(gate.evaluate(&tile), GateDecision::Accept));
}

#[test]
fn test_reject_too_short_answer() {
    let gate = Gate::with_defaults();
    let tile = make_tile("Short", "What is the answer?");
    match gate.evaluate(&tile) {
        GateDecision::Reject(reason) => assert!(reason.contains("too short")),
        GateDecision::Accept => panic!("should reject short answer"),
    }
}

#[test]
fn test_reject_too_short_question() {
    let gate = Gate::with_defaults();
    let tile = make_tile("This is a detailed answer to the question.", "W");
    match gate.evaluate(&tile) {
        GateDecision::Reject(reason) => assert!(reason.contains("too short")),
        GateDecision::Accept => panic!("should reject short question"),
    }
}

#[test]
fn test_duplicate_detection() {
    let gate = Gate::with_defaults();
    let tile = make_tile("A unique answer to the question.", "What?");
    let hash = tile.content_hash();
    let decision = gate.evaluate_with_hashes(&tile, &[hash.as_str()]);
    assert!(matches!(decision, GateDecision::Reject(_)));
}

#[test]
fn short_question_reason_is_exact() {
    let gate = Gate::with_defaults();
    let tile = make_tile("This is a detailed answer to the question.", "W");
    match gate.evaluate(&tile) {
        GateDecision::Reject(reason) => assert_eq!(reason, "question too short (1 < 3)"),
        GateDecision::Accept => panic!("should reject"),
    }
}

#[test]
fn short_answer_reason_counts_trimmed_bytes() {
    let gate = Gate::with_defaults();
    let tile = make_tile("   héllo  ", "What is the answer?");
    match gate.evaluate(&tile) {
        GateDecision::Reject(reason) => assert_eq!(reason, "answer too short (6 < 10)"),
        GateDecision::Accept => panic!("should reject"),
    }
}

#[test]
fn absolute_claims_reason_lists_sorted_distinct_claims() {
    let gate = Gate::with_defaults();
    let tile = make_tile("Never say never: it ALWAYS works, always.", "Is it reliable?");
    match gate.evaluate(&tile) {
        GateDecision::Reject(reason) => assert_eq!(reason, "absolute claims detected: always, never"),
        GateDecision::Accept => panic!("should reject"),
    }
}

#[test]
fn detect_finds_multiword_patterns() {
    let claims = detect_absolute_claims("All cats are grey and none of them bark; no one knows.");
    assert_eq!(claims, vec!["all cats are".to_string(), "no one".to_string(), "none of".to_string()]);
}

#[test]
fn detect_skips_quoted_claims() {
    assert!(detect_absolute_claims("He said \"always\" twice.").is_empty());
    assert_eq!(detect_absolute_claims("'x' then always"), vec!["always".to_string()]);
}

#[test]
fn quotes_are_counted_before_position() {
    assert!(!is_in_quotes("abc", 2));
    assert!(is_in_quotes("a'bc", 2));
    assert!(!is_in_quotes("a'b'c", 4));
    assert!(is_in_quotes("\"é", 1));
}

#[test]
fn invalid_fields_are_reported() {
    let gate = Gate::with_defaults();
    let mut tile = make_tile("This is a detailed answer to the question.", "What is it?");
    tile.source = "   ".to_string();
    match gate.evaluate(&tile) {
        GateDecision::Reject(reason) => assert_eq!(reason, "missing/invalid fields: empty field: source"),
        GateDecision::Accept => panic!("should reject"),
    }
}

#[test]
fn invalid_confidence_is_reported_with_its_text() {
    let gate = Gate::with_defaults();
    let mut tile = make_tile("This is a detailed answer to the question.", "What is it?");
    tile.confidence = number(1.5);
    match gate.evaluate(&tile) {
        GateDecision::Reject(reason) => {
            assert_eq!(reason, "missing/invalid fields: invalid confidence: 1.5 (must be 0.0-1.0)")
        }
        GateDecision::Accept => panic!("should reject"),
    }
}

#[test]
fn rules_can_be_switched_off() {
    let mut config = GateConfig::default();
    config.reject_absolute_claims = false;
    config.reject_duplicates = false;
    let gate = Gate::new(config);
    let tile = make_tile("This will always work perfectly.", "Does it work?");
    assert!(matches!(gate.evaluate(&tile), GateDecision::Accept));
    let hash = tile.content_hash();
    assert!(matches!(gate.evaluate_with_hashes(&tile, &[hash.as_str()]), GateDecision::Accept));
}

#[test]
fn default_config_values() {
    let c = GateConfig::default();
    assert!(c.reject_absolute_claims && c.reject_duplicates && c.reject_missing_fields);
    assert_eq!(c.min_answer_length, 10);
    assert_eq!(c.min_question_length, 3);
    assert!(c.extra_absolute_patterns.is_empty());
}

#[test]
fn extra_patterns_add_to_the_defaults() {
    let mut config = GateConfig::default();
    config.extra_absolute_patterns = vec![r"\bforever\b".to_string(), "(".to_string()];
    let gate = Gate::new(config);
    let tile = make_tile("This lasts forever, they say.", "How long?");
    match gate.evaluate(&tile) {
        GateDecision::Reject(reason) => assert_eq!(reason, "absolute claims detected: forever"),
        GateDecision::Accept => panic!("should reject the custom claim"),
    }
    let tile = make_tile("This will always last forever.", "How long?");
    match gate.evaluate(&tile) {
        GateDecision::Reject(reason) => assert_eq!(reason, "absolute claims detected: always, forever"),
        GateDecision::Accept => panic!("should reject both claims"),
    }
    let plain = make_tile("This lasts a long while, they say.", "How long?");
    assert!(matches!(gate.evaluate(&plain), GateDecision::Accept));
    let defaults = Gate::with_defaults();
    let tile = make_tile("This lasts forever, they say.", "How long?");
    assert!(matches!(defaults.evaluate(&tile), GateDecision::Accept));
}

#[test]
fn unicode_white_space_is_trimmed() {
    let gate = Gate::with_defaults();
    let tile = make_tile("\u{3000}\u{2003} héllo \u{85}\n", "What is it?");
    match gate.evaluate(&tile) {
        GateDecision::Reject(reason) => assert_eq!(reason, "answer too short (6 < 10)"),
        GateDecision::Accept => panic!("should reject short answer"),
    }
}
