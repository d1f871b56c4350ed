use plato_engine::tile::Tile;
use plato_engine::{Pathfinder, PlatoEngine, Provenance, Real64, TileBuilder};

fn number(v: f64) -> Real64 {
    Real64::new(v.to_bits(), v.to_string())
}

fn tile(domain: &str, answer: &str, tags: &[&str]) -> Tile {
    let mut b = TileBuilder::new()
        .domain(domain)
        .question("What connects the rooms?")
        .answer(answer)
        .source("src")
        .confidence(number(0.9))
        .provenance(Provenance {
            agent_id: "a".into(),
            session_id: "s".into(),
            chain_hash: "c".into(),
            signature: "g".into(),
        });
    for t in tags {
        b = b.tag(t);
    }
    b.build().ok().unwrap()
}

/// a -x- b -y- c -z- d, and e alone; a and d share the domain "far".
fn chain_engine() -> PlatoEngine {
    let mut e = PlatoEngine::with_defaults();
    e.submit("a", tile("far", "Answer in room a.", &["x"])).ok().unwrap();
    e.submit("b", tile("d2", "Answer in room b.", &["x", "y"])).ok().unwrap();
    e.submit("c", tile("d3", "Answer in room c.", &["y", "z"])).ok().unwrap();
    e.submit("d", tile("far", "Answer in room d.", &["z"])).ok().unwrap();
    e.submit("e", tile("d5", "Answer in room e.", &["w"])).ok().unwrap();
    e
}

#[test]
fn neighbors_share_tags_or_domain() {
    let engine = chain_engine();
    let p = Pathfinder::new(&engine);
    let mut nb = p.neighbors("a");
    nb.sort();
    assert_eq!(nb, vec!["b".to_string(), "d".to_string()]);
    let mut nc = p.neighbors("c");
    nc.sort();
    assert_eq!(nc, vec!["b".to_string(), "d".to_string()]);
    assert!(p.neighbors("e").is_empty());
    assert!(p.neighbors("nowhere").is_empty());
}

#[test]
fn find_path_is_shortest() {
    let engine = chain_engine();
    let p = Pathfinder::new(&engine);
    let path = p.find_path("a", "d", 5);
    assert_eq!(path.len(), 1);
    assert_eq!(path[0].from, "a");
    assert_eq!(path[0].to, "d");
    assert_eq!(path[0].strength_halves, 1);
    assert!(path[0].shared_tags.is_empty());
    let path = p.find_path("b", "d", 5);
    assert_eq!(path.len(), 2);
    assert_eq!(path[0].from, "b");
    assert_eq!(path[1].to, "d");
    assert_eq!(path[0].to, path[1].from);
}

#[test]
fn find_path_respects_limits() {
    let engine = chain_engine();
    let p = Pathfinder::new(&engine);
    assert!(p.find_path("a", "a", 5).is_empty());
    assert!(p.find_path("a", "e", 5).is_empty());
    assert!(p.find_path("b", "d", 1).is_empty());
    assert!(p.find_path("a", "missing", 5).is_empty());
    assert_eq!(p.find_path("b", "d", 2).len(), 2);
}

#[test]
fn traverse_explores_strongest_first() {
    let mut engine = PlatoEngine::with_defaults();
    engine.submit("hub", tile("h", "Answer in the hub.", &["p", "q"])).ok().unwrap();
    engine.submit("weak", tile("w", "Answer in weak room.", &["p"])).ok().unwrap();
    engine.submit("strong", tile("s", "Answer in strong room.", &["p", "q"])).ok().unwrap();
    let p = Pathfinder::new(&engine);
    let hops = p.traverse("hub", 1);
    assert_eq!(hops.len(), 2);
    assert_eq!(hops[0].to, "strong");
    assert_eq!(hops[0].strength_halves, 4);
    assert_eq!(hops[0].shared_tags, vec!["p".to_string(), "q".to_string()]);
    assert_eq!(hops[1].to, "weak");
    assert_eq!(hops[1].strength_halves, 2);
    let deep = p.traverse("hub", 3);
    assert_eq!(deep.len(), 2);
    assert!(p.traverse("hub", 0).is_empty());
    assert!(p.traverse("missing", 3).is_empty());
}

#[test]
fn traverse_visits_each_room_once() {
    let mut engine = PlatoEngine::with_defaults();
    engine.submit("a", tile("x", "Answer in room a.", &["p"])).ok().unwrap();
    engine.submit("b", tile("x", "Answer in room b.", &["p"])).ok().unwrap();
    engine.submit("c", tile("x", "Answer in room c.", &["p"])).ok().unwrap();
    engine.submit("d", tile("y", "Answer in room d.", &["p"])).ok().unwrap();
    let p = Pathfinder::new(&engine);
    let hops = p.traverse("a", 5);
    assert_eq!(hops.len(), 3);
    for (i, h) in hops.iter().enumerate() {
        assert_ne!(h.to, "a");
        for later in hops.iter().skip(i + 1) {
            assert_ne!(h.to, later.to);
        }
    }
}

#[test]
fn find_path_takes_the_earlier_connection_on_ties() {
    // s reaches t through x or through y, both in two hops.
    let mut engine = PlatoEngine::with_defaults();
    engine.submit("s", tile("ds", "Answer in room s.", &["p", "q"])).ok().unwrap();
    engine.submit("x", tile("dx", "Answer in room x.", &["p", "r"])).ok().unwrap();
    engine.submit("y", tile("dy", "Answer in room y.", &["q", "r"])).ok().unwrap();
    engine.submit("t", tile("dt", "Answer in room t.", &["r"])).ok().unwrap();
    let p = Pathfinder::new(&engine);
    let first = p
        .neighbors("s")
        .into_iter()
        .find(|n| n == "x" || n == "y")
        .unwrap();
    let path = p.find_path("s", "t", 4);
    assert_eq!(path.len(), 2);
    assert_eq!(path[0].to, first);
    assert_eq!(path[1].from, first);
    assert_eq!(path[1].to, "t");
}

#[test]
fn neighbors_are_symmetric_and_exclude_the_room() {
    let engine = chain_engine();
    let p = Pathfinder::new(&engine);
    let rooms = ["a", "b", "c", "d", "e"];
    for x in rooms.iter() {
        let nx = p.neighbors(x);
        assert!(!nx.iter().any(|n| n == x));
        for y in rooms.iter() {
            let ny = p.neighbors(y);
            assert_eq!(nx.iter().any(|n| n == y), ny.iter().any(|n| n == x));
        }
        let mut sorted = nx.clone();
        sorted.sort();
        sorted.dedup();
        assert_eq!(sorted.len(), nx.len());
    }
}
