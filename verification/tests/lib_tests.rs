use plato_engine::{default_gate, Real64, Tile};

fn number(v: f64) -> Real64 {
    Real64::new(v.to_bits(), v.to_string())
}

#[test]
fn test_default_gate_passes() {
    let tile = Tile {
        id: 1,
        room: "default".into(),
        tags: vec!["test".into()],
        quality_score: number(0.8),
        content: vec![],
    };
    let result = default_gate(&tile);
    assert!(result.passed);
    assert_eq!(f64::from_bits(result.score.bits), 0.8);
}

#[test]
fn test_default_gate_rejects() {
    let tile = Tile { id: 2, room: "default".into(), tags: vec![], quality_score: number(0.2), content: vec![] };
    let result = default_gate(&tile);
    assert!(!result.passed);
    assert!(result.reason.is_some());
}

#[test]
fn default_gate_threshold_is_inclusive() {
    let at = Tile { id: 3, room: "r".into(), tags: vec![], quality_score: number(0.5), content: vec![] };
    assert!(default_gate(&at).passed);
    let below = Tile { id: 4, room: "r".into(), tags: vec![], quality_score: number(0.4999999), content: vec![] };
    let r = default_gate(&below);
    assert!(!r.passed);
    assert_eq!(r.reason.unwrap(), "below threshold");
    let nan = Tile { id: 5, room: "r".into(), tags: vec![], quality_score: number(f64::NAN), content: vec![] };
    assert!(!default_gate(&nan).passed);
    let inf = Tile { id: 6, room: "r".into(), tags: vec![], quality_score: number(f64::INFINITY), content: vec![] };
    assert!(default_gate(&inf).passed);
}
