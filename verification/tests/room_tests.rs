use plato_engine::tile::Tile;
use plato_engine::{Provenance, Real64, Room, TileBuilder};

fn number(v: f64) -> Real64 {
    Real64::new(v.to_bits(), v.to_string())
}

fn tile(answer: &str, tags: &[&str]) -> Tile {
    let mut b = TileBuilder::new()
        .domain("harbor")
        .question("What coordinates the fleet?")
        .answer(answer)
        .source("src")
        .confidence(number(0.9))
        .provenance(Provenance {
            agent_id: "a".into(),
            session_id: "s".into(),
            chain_hash: "c".into(),
            signature: "g".into(),
        });
    for t in tags {
        b = b.tag(t);
    }
    b.build().ok().unwrap()
}

#[test]
fn insert_rejects_duplicate_content() {
    let mut room = Room::new("r1", "harbor");
    assert_eq!(room.tile_count(), 0);
    assert!(room.insert_tile(tile("The harbor coordinates.", &["fleet"])));
    assert!(!room.insert_tile(tile("The harbor coordinates.", &["other"])));
    assert_eq!(room.tile_count(), 1);
    assert!(room.insert_tile(tile("Something else entirely.", &[])));
    assert_eq!(room.tile_count(), 2);
    assert_eq!(room.hash_index[1].1, 1);
}

#[test]
fn find_by_hash_reads_back_inserted_tile() {
    let mut room = Room::new("r1", "harbor");
    let t = tile("The harbor coordinates.", &["fleet"]);
    let h = t.content_hash();
    assert_eq!(h, "ff015519beb1a976b851d06e5a4312803cdbc3a1d1b2e106faabc136735d2819");
    assert!(!room.has_tile_hash(&h));
    assert!(room.find_by_hash(&h).is_none());
    room.insert_tile(t);
    assert!(room.has_tile_hash(&h));
    let found = room.find_by_hash(&h).unwrap();
    assert_eq!(found.answer, "The harbor coordinates.");
}

#[test]
fn query_by_tag_is_case_insensitive_substring() {
    let mut room = Room::new("r1", "harbor");
    room.insert_tile(tile("First answer here.", &["Fleet-Ops"]));
    room.insert_tile(tile("Second answer here.", &["cargo"]));
    room.insert_tile(tile("Third answer here.", &["FLEET"]));
    let found = room.query_by_tag("fLeEt");
    assert_eq!(found.len(), 2);
    assert_eq!(found[0].answer, "First answer here.");
    assert_eq!(found[1].answer, "Third answer here.");
    assert_eq!(room.query_by_tag("").len(), 3);
    assert!(room.query_by_tag("none").is_empty());
}

#[test]
fn all_tags_sorted_and_distinct() {
    let mut room = Room::new("r1", "harbor");
    room.insert_tile(tile("First answer here.", &["b", "a"]));
    room.insert_tile(tile("Second answer here.", &["c", "a", "B"]));
    assert_eq!(room.all_tags(), vec!["B".to_string(), "a".to_string(), "b".to_string(), "c".to_string()]);
    let stats = room.stats();
    assert_eq!(stats.tile_count, 2);
    assert_eq!(stats.tag_count, 4);
    assert_eq!(stats.id, "r1");
    assert_eq!(stats.domain, "harbor");
}

#[test]
fn duplicate_room_copies_everything() {
    let mut room = Room::new("r1", "harbor");
    room.insert_tile(tile("First answer here.", &["a"]));
    let copy = room.duplicate();
    assert_eq!(copy.id, room.id);
    assert_eq!(copy.tiles.len(), 1);
    assert_eq!(copy.hash_index[0].0, room.hash_index[0].0);
    assert_eq!(copy.created_at, room.created_at);
}
