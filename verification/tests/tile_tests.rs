use plato_engine::tile::{Tile, TileBuildError, TileValidationError};
use plato_engine::{Provenance, Real64, TileBuilder};

fn number(v: f64) -> Real64 {
    Real64::new(v.to_bits(), v.to_string())
}

fn provenance() -> Provenance {
    Provenance {
        agent_id: "test-agent".into(),
        session_id: "s".into(),
        chain_hash: "c".into(),
        signature: "g".into(),
    }
}

fn full_builder() -> TileBuilder {
    TileBuilder::new()
        .domain("test")
        .question("What is it?")
        .answer("This is a well-qualified answer about something.")
        .source("test-source")
        .confidence(number(0.8))
        .provenance(provenance())
}

fn build(b: TileBuilder) -> Tile {
    b.build().ok().unwrap()
}

#[test]
fn content_hash_is_sha256_hex_of_content() {
    let t = build(full_builder());
    assert_eq!(t.content_hash(), "616b0cf7bca6999ae3ecacfb69df91c43e47daa56c62c2dedd739eb643300fc7");
}

#[test]
fn content_hash_ignores_metadata() {
    let a = build(full_builder().tag("x"));
    let mut b = build(full_builder().confidence(number(0.3)));
    b.provenance.agent_id = "other".into();
    assert_eq!(a.content_hash(), b.content_hash());
    let c = build(full_builder().source("other-source"));
    assert_ne!(a.content_hash(), c.content_hash());
}

#[test]
fn builder_reports_first_missing_field() {
    match TileBuilder::new().question("q").build() {
        Err(TileBuildError::MissingField(f)) => assert_eq!(f, "domain"),
        _ => panic!("expected missing domain"),
    }
    let b = TileBuilder::new()
        .domain("d")
        .question("q")
        .answer("a")
        .source("s")
        .confidence(number(0.5));
    match b.build() {
        Err(e) => {
            assert!(matches!(e, TileBuildError::MissingField("provenance")));
            assert_eq!(e.message(), "missing required field: provenance");
        }
        Ok(_) => panic!("expected missing provenance"),
    }
}

#[test]
fn builder_validates() {
    match full_builder().domain("  \t").build() {
        Err(TileBuildError::Validation(TileValidationError::EmptyField(f))) => assert_eq!(f, "domain"),
        _ => panic!("expected empty domain"),
    }
    match full_builder().confidence(number(-0.1)).build() {
        Err(e) => assert_eq!(e.message(), "validation failed: invalid confidence: -0.1 (must be 0.0-1.0)"),
        Ok(_) => panic!("expected invalid confidence"),
    }
    let mut p = provenance();
    p.agent_id = " ".into();
    match full_builder().provenance(p).build() {
        Err(TileBuildError::Validation(e)) => assert_eq!(e.message(), "empty field: provenance.agent_id"),
        _ => panic!("expected empty agent"),
    }
}

#[test]
fn confidence_bounds_are_inclusive_and_nan_is_refused() {
    assert!(full_builder().confidence(number(0.0)).build().is_ok());
    assert!(full_builder().confidence(number(-0.0)).build().is_ok());
    assert!(full_builder().confidence(number(1.0)).build().is_ok());
    match full_builder().confidence(number(f64::NAN)).build() {
        Err(e) => assert_eq!(e.message(), "validation failed: invalid confidence: NaN (must be 0.0-1.0)"),
        Ok(_) => panic!("a NaN confidence is out of range"),
    }
    assert!(full_builder().confidence(number(1.0000001)).build().is_err());
}

#[test]
fn built_tile_keeps_fields() {
    let t = build(full_builder().tag("a").tag("b"));
    assert_eq!(t.domain, "test");
    assert_eq!(t.tags, vec!["a".to_string(), "b".to_string()]);
    assert_eq!(t.confidence.bits, 0.8f64.to_bits());
    assert!(t.validate().is_ok());
    let t2 = build(full_builder().tags(vec!["z".to_string()]));
    assert_eq!(t2.tags, vec!["z".to_string()]);
}

#[test]
fn content_hash_is_64_lower_hex_digits() {
    let t = build(full_builder());
    let h = t.content_hash();
    assert_eq!(h.len(), 64);
    assert!(h.chars().all(|c| c.is_ascii_digit() || ('a'..='f').contains(&c)));
    let copy = t.clone();
    assert_eq!(copy.content_hash(), h);
}

#[test]
fn default_builder_is_empty() {
    match TileBuilder::default().build() {
        Err(TileBuildError::MissingField(f)) => assert_eq!(f, "domain"),
        _ => panic!("an empty builder lacks the domain"),
    }
}
