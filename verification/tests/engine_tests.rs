use plato_engine::server::{default_limit, submit_tile, ProvenanceInput, SubmitRequest, SubmitResponse};
use plato_engine::tile::Tile;
use plato_engine::{GateConfig, PlatoEngine, Provenance, Real64, TileBuilder};

fn number(v: f64) -> Real64 {
    Real64::new(v.to_bits(), v.to_string())
}

fn tile(domain: &str, answer: &str, tags: &[&str]) -> Tile {
    let mut b = TileBuilder::new()
        .domain(domain)
        .question("What coordinates the fleet?")
        .answer(answer)
        .source("src")
        .confidence(number(0.9))
        .provenance(Provenance {
            agent_id: "a".into(),
            session_id: "s".into(),
            chain_hash: "c".into(),
            signature: "g".into(),
        });
    for t in tags {
        b = b.tag(t);
    }
    b.build().ok().unwrap()
}

#[test]
fn submit_stores_accepted_tile() {
    let mut engine = PlatoEngine::with_defaults();
    let t = tile("harbor", "The harbor is a coordination hub.", &["fleet"]);
    let expected = t.content_hash();
    let h = engine.submit("harbor-room", t).ok().unwrap();
    assert_eq!(h, expected);
    let tiles = engine.query("harbor-room", None, 10);
    assert_eq!(tiles.len(), 1);
    assert_eq!(tiles[0].content_hash(), expected);
    let room = engine.get_room("harbor-room").unwrap();
    assert_eq!(room.domain, "harbor");
    assert_eq!(room.id, "harbor-room");
}

#[test]
fn duplicate_submission_is_rejected_and_counted() {
    let mut engine = PlatoEngine::with_defaults();
    assert!(engine.submit("r", tile("d", "The harbor is a coordination hub.", &[])).is_ok());
    let err = engine.submit("r", tile("d", "The harbor is a coordination hub.", &[])).err().unwrap();
    assert_eq!(err.reason, "duplicate tile (matching content hash)");
    assert!(err.tile_id.is_some());
    let err2 = engine.submit("r", tile("d", "This will always work.", &[])).err().unwrap();
    assert_eq!(err2.reason, "absolute claims detected: always");
    engine.submit("r", tile("d", "The harbor is a coordination hub.", &[])).err().unwrap();
    let stats = engine.get_stats();
    assert_eq!(stats.total_submitted, 4);
    assert_eq!(stats.total_accepted, 1);
    assert_eq!(stats.total_rejected, 3);
    let mut reasons = stats.rejection_reasons.clone();
    reasons.sort();
    assert_eq!(
        reasons,
        vec![
            ("absolute claims detected: always".to_string(), 1),
            ("duplicate tile (matching content hash)".to_string(), 2)
        ]
    );
}

#[test]
fn rejection_counts_add_up_to_rejections() {
    let mut engine = PlatoEngine::with_defaults();
    let answers = [
        "The harbor is a coordination hub.",
        "The harbor is a coordination hub.",
        "This will always work.",
        "It never fails.",
        "short",
        "The harbor is a coordination hub.",
    ];
    for a in answers.iter() {
        let _ = engine.submit("r", tile("d", a, &[]));
    }
    let stats = engine.get_stats();
    let sum: u64 = stats.rejection_reasons.iter().map(|(_, c)| *c).sum();
    assert_eq!(stats.total_rejected, 5);
    assert_eq!(sum, stats.total_rejected);
    assert_eq!(stats.total_accepted + stats.total_rejected, stats.total_submitted);
}

#[test]
fn duplicates_allowed_when_configured() {
    let mut config = GateConfig::default();
    config.reject_duplicates = false;
    let mut engine = PlatoEngine::new(config);
    assert!(engine.submit("r", tile("d", "The harbor is a coordination hub.", &[])).is_ok());
    assert!(engine.submit("r", tile("d", "The harbor is a coordination hub.", &[])).is_ok());
    assert_eq!(engine.query("r", None, 10).len(), 1);
    assert_eq!(engine.get_stats().total_accepted, 2);
}

#[test]
fn query_filters_by_tag_and_limits() {
    let mut engine = PlatoEngine::with_defaults();
    engine.submit("r", tile("d", "First answer in room.", &["Fleet"])).ok().unwrap();
    engine.submit("r", tile("d", "Second answer in room.", &["cargo"])).ok().unwrap();
    engine.submit("r", tile("d", "Third answer in room.", &["fleet-ops"])).ok().unwrap();
    assert_eq!(engine.query("r", Some("fleet"), 10).len(), 2);
    let limited = engine.query("r", Some("fleet"), 1);
    assert_eq!(limited.len(), 1);
    assert_eq!(limited[0].answer, "First answer in room.");
    assert_eq!(engine.query("r", None, 2).len(), 2);
    assert!(engine.query("missing", None, 10).is_empty());
}

#[test]
fn list_rooms_filters_by_prefix() {
    let mut engine = PlatoEngine::with_defaults();
    engine.submit("forge-anvil", tile("d", "First answer in room.", &[])).ok().unwrap();
    engine.submit("forge-bellows", tile("d", "Second answer in room.", &[])).ok().unwrap();
    engine.submit("harbor", tile("d", "Third answer in room.", &[])).ok().unwrap();
    let mut all = engine.list_rooms(None);
    all.sort();
    assert_eq!(all, vec!["forge-anvil".to_string(), "forge-bellows".to_string(), "harbor".to_string()]);
    let mut forge = engine.list_rooms(Some("forge-"));
    forge.sort();
    assert_eq!(forge, vec!["forge-anvil".to_string(), "forge-bellows".to_string()]);
    assert!(engine.list_rooms(Some("x")).is_empty());
}

#[test]
fn health_counts_rooms_and_tiles() {
    let mut engine = PlatoEngine::with_defaults();
    engine.submit("a", tile("d", "First answer in room.", &[])).ok().unwrap();
    engine.submit("a", tile("d", "Second answer in room.", &[])).ok().unwrap();
    engine.submit("b", tile("d", "Third answer in room.", &[])).ok().unwrap();
    let h = engine.health();
    assert_eq!(h.rooms_count, 2);
    assert_eq!(h.tiles_count, 3);
    assert_eq!(h.stats.total_accepted, 3);
}

#[test]
fn submit_tile_handler_answers_with_status() {
    let mut engine = PlatoEngine::with_defaults();
    let req = |answer: &str| SubmitRequest {
        room_id: "harbor".into(),
        domain: "harbor".into(),
        question: "What coordinates the fleet?".into(),
        answer: answer.into(),
        source: "src".into(),
        confidence: number(0.9),
        tags: vec![],
        provenance: ProvenanceInput {
            agent_id: "a".into(),
            session_id: "s".into(),
            chain_hash: "c".into(),
            signature: "g".into(),
        },
    };
    let (status, resp) = submit_tile(&mut engine, req("The harbor is a coordination hub."));
    assert_eq!(status, 200);
    assert!(matches!(resp, SubmitResponse::Success { ref room_id, .. } if room_id == "harbor"));
    let (status, resp) = submit_tile(&mut engine, req("Short"));
    assert_eq!(status, 422);
    match resp {
        SubmitResponse::Rejected { reason, tile_id } => {
            assert_eq!(reason, "answer too short (5 < 10)");
            assert!(tile_id.is_some());
        }
        _ => panic!("expected rejection"),
    }
    assert_eq!(default_limit(), 100);
    let stored = engine.query("harbor", None, 10);
    assert_eq!(stored.len(), 1);
    assert_eq!(stored[0].answer, "The harbor is a coordination hub.");
    let stats = engine.get_stats();
    assert_eq!((stats.total_submitted, stats.total_accepted, stats.total_rejected), (2, 1, 1));
    let (status, resp) = submit_tile(&mut engine, req("The harbor is a coordination hub."));
    assert_eq!(status, 422);
    match resp {
        SubmitResponse::Rejected { reason, .. } => assert_eq!(reason, "duplicate tile (matching content hash)"),
        _ => panic!("expected the duplicate to be refused"),
    }
    assert_eq!(engine.query("harbor", None, 10).len(), 1);
}

#[test]
fn health_agrees_with_room_listing() {
    let mut engine = PlatoEngine::with_defaults();
    engine.submit("a", tile("d", "The harbor is a coordination hub.", &[])).ok().unwrap();
    engine.submit("a", tile("d", "A second answer for room a.", &[])).ok().unwrap();
    engine.submit("b", tile("d", "An answer for room b here.", &[])).ok().unwrap();
    let _ = engine.submit("b", tile("d", "An answer for room b here.", &[]));
    let ids = engine.list_rooms(None);
    let h = engine.health();
    assert_eq!(h.rooms_count, ids.len());
    let sum: usize = ids.iter().map(|id| engine.get_room(id).unwrap().tile_count()).sum();
    assert_eq!(h.tiles_count, sum);
    let s = engine.get_stats();
    assert!((h.tiles_count as u64) <= s.total_accepted);
    assert!(s.rejection_reasons.iter().all(|(_, c)| *c >= 1));
    assert_eq!(h.stats.total_rejected, s.total_rejected);
}
