//! The engine: rooms keyed by id, the quality gate in front of them, and
//! submission statistics.

use dashmap::DashMap;
use vstd::prelude::*;

use crate::gate::{gate_verdict_with_hashes, Gate, GateConfig, GateDecision};
use crate::room::{holds_hash, lemma_insert_then_find, room_after_insert, room_wf, tiles_with_tag, Room, RoomView};
use crate::text::{has_prefix, lowercase_chars};
use crate::tile::{content_hash_of, Tile, TileHash, TileView};

verus! {

#[verifier::external_type_specification]
#[verifier::external_body]
#[verifier::reject_recursive_types(K)]
#[verifier::reject_recursive_types(V)]
#[verifier::reject_recursive_types(S)]
pub struct ExDashMap<K, V, S>(dashmap::DashMap<K, V, S>);

#[verifier::external_type_specification]
#[verifier::external_body]
pub struct ExInstant(std::time::Instant);

/// Rooms by id.
pub type RoomTable = DashMap<String, Room>;

/// Rejection counts by reason.
pub type ReasonTable = DashMap<String, u64>;

/// The rooms a room table holds, by room id.
pub uninterp spec fn room_table(m: DashMap<String, Room>) -> Map<Seq<char>, RoomView>;

/// The counts a reason table holds, by reason.
pub uninterp spec fn reason_table(m: DashMap<String, u64>) -> Map<Seq<char>, u64>;

/// No rooms.
pub open spec fn empty_rooms() -> Map<Seq<char>, RoomView> {
    Map::empty()
}

/// No rejection counts.
pub open spec fn empty_reasons() -> Map<Seq<char>, u64> {
    Map::empty()
}

/// A copy of a text.
pub fn copy_text(s: &String) -> (r: String)
    ensures
        r@ == s@,
{
    s.clone()
}

/// `DashMap::new`: an empty room table.
#[verifier::external_body]
fn rooms_new() -> (m: RoomTable)
    ensures
        room_table(m) == empty_rooms(),
{
    DashMap::new()
}

/// `DashMap::get`, then a copy of the room found.
#[verifier::external_body]
fn rooms_get(m: &DashMap<String, Room>, key: &str) -> (r: Option<Room>)
    ensures
        r is Some == room_table(*m).dom().contains(key@),
        r matches Some(room) ==> room@ == room_table(*m)[key@],
{
    m.get(key).map(|r| r.duplicate())
}

/// `DashMap::remove`: takes the room out of the table.
#[verifier::external_body]
fn rooms_remove(m: &mut DashMap<String, Room>, key: &str) -> (r: Option<Room>)
    ensures
        r is Some == room_table(*old(m)).dom().contains(key@),
        r matches Some(room) ==> room@ == room_table(*old(m))[key@],
        room_table(*final(m)) == room_table(*old(m)).remove(key@),
{
    m.remove(key).map(|(_, v)| v)
}

/// `DashMap::insert`: puts the room in the table under `key`.
#[verifier::external_body]
fn rooms_insert(m: &mut DashMap<String, Room>, key: String, room: Room)
    ensures
        room_table(*final(m)) == room_table(*old(m)).insert(key@, room@),
{
    m.insert(key, room);
}

/// `DashMap::len`: the number of rooms.
#[verifier::external_body]
fn rooms_len(m: &DashMap<String, Room>) -> (n: usize)
    ensures
        n == room_table(*m).dom().len(),
{
    m.len()
}

/// `DashMap::iter`, keeping each key: every room id once, in the table's
/// iteration order (which the hash function decides and which nothing here
/// states).
#[verifier::external_body]
fn rooms_keys(m: &DashMap<String, Room>) -> (keys: Vec<String>)
    ensures
        forall|k: Seq<char>| keys.deep_view().contains(k) <==> room_table(*m).dom().contains(k),
        keys.deep_view().no_duplicates(),
{
    m.iter().map(|r| copy_text(r.key())).collect()
}

/// `DashMap::new`: an empty reason table.
#[verifier::external_body]
fn reasons_new() -> (m: ReasonTable)
    ensures
        reason_table(m) == empty_reasons(),
{
    DashMap::new()
}

/// `DashMap::get`: the count recorded for a reason.
#[verifier::external_body]
fn reasons_get(m: &DashMap<String, u64>, key: &str) -> (r: Option<u64>)
    ensures
        r is Some == reason_table(*m).dom().contains(key@),
        r matches Some(c) ==> c == reason_table(*m)[key@],
{
    m.get(key).map(|r| *r)
}

/// `DashMap::insert`: records a count for a reason.
#[verifier::external_body]
fn reasons_insert(m: &mut DashMap<String, u64>, key: String, count: u64)
    ensures
        reason_table(*final(m)) == reason_table(*old(m)).insert(key@, count),
{
    m.insert(key, count);
}

/// `DashMap::iter`, keeping each entry: every reason once with its count, in
/// the table's iteration order (which nothing here states).
#[verifier::external_body]
fn reasons_entries(m: &DashMap<String, u64>) -> (entries: Vec<(String, u64)>)
    ensures
        entries_view(entries@).no_duplicates(),
        forall|k: Seq<char>| entries_view(entries@).contains(k) <==> reason_table(*m).dom().contains(k),
        forall|i: int| 0 <= i < entries@.len() ==> #[trigger] entries@[i].1 == reason_table(*m)[entries@[i].0@],
{
    m.iter().map(|r| (copy_text(r.key()), *r.value())).collect()
}

/// `std::time::Instant::now`. Nothing is stated of the value.
#[verifier::external_body]
fn instant_now() -> (t: std::time::Instant) {
    std::time::Instant::now()
}

/// `Instant::elapsed().as_nanos()`: nanoseconds since `t`. Nothing is
/// stated of the value: it is the clock's.
#[verifier::external_body]
fn nanos_since(t: &std::time::Instant) -> (n: u128) {
    t.elapsed().as_nanos()
}

/// The reasons of a list of (reason, count) entries.
pub open spec fn entries_view(es: Seq<(String, u64)>) -> Seq<Seq<char>> {
    es.map_values(|e: (String, u64)| e.0@)
}

/// Statistics tracked by the engine.
#[derive(Debug, Clone)]
pub struct EngineStats {
    pub total_submitted: u64,
    pub total_accepted: u64,
    pub total_rejected: u64,
    /// Each rejection reason once, with how many rejections gave it.
    pub rejection_reasons: Vec<(String, u64)>,
}

impl Default for EngineStats {
    fn default() -> (s: Self)
        ensures
            s.total_submitted == 0,
            s.total_accepted == 0,
            s.total_rejected == 0,
            s.rejection_reasons@.len() == 0,
    {
        EngineStats { total_submitted: 0, total_accepted: 0, total_rejected: 0, rejection_reasons: Vec::new() }
    }
}

/// Engine health status.
#[derive(Debug, Clone)]
pub struct HealthStatus {
    pub rooms_count: usize,
    pub tiles_count: usize,
    /// Time since the engine started, in nanoseconds.
    pub uptime_nanos: u128,
    pub stats: EngineStats,
}

/// Reason a tile was rejected by the quality gate.
#[derive(Debug, Clone)]
pub struct GateRejection {
    pub reason: String,
    pub tile_id: Option<uuid::Uuid>,
}

struct EngineCounters {
    total_submitted: u64,
    total_accepted: u64,
    total_rejected: u64,
    rejection_reasons: DashMap<String, u64>,
}

/// The core PLATO engine: rooms, the quality gate in front of them, and statistics.
pub struct PlatoEngine {
    rooms: DashMap<String, Room>,
    gate: Gate,
    stats: EngineCounters,
    started_at: std::time::Instant,
    /// Accepted submissions since the engine was made, not wrapped.
    accepted_ever: Ghost<nat>,
    /// Rejected submissions since the engine was made, not wrapped.
    rejected_ever: Ghost<nat>,
}

/// The content hashes of a room's tiles, in order.
pub open spec fn hashes_of(r: RoomView) -> Seq<Seq<char>> {
    r.hash_index.map_values(|e: (Seq<char>, usize)| e.0)
}

/// The room after inserting a tile: unchanged when a tile with the same
/// content hash is there, else with the tile (and its hash) appended.
pub open spec fn with_tile(r: RoomView, t: TileView) -> RoomView {
    if holds_hash(r, content_hash_of(t)) {
        r
    } else {
        room_after_insert(r, t)
    }
}

/// One more, wrapping around at the top of `u64` (as an atomic counter's
/// `fetch_add` does).
pub open spec fn bump(x: u64) -> u64 {
    x.wrapping_add(1)
}

proof fn lemma_bump_sum(s: u64, a: u64, r: u64)
    requires
        s as int == (a as int + r as int) % 0x1_0000_0000_0000_0000,
    ensures
        bump(s) as int == (bump(a) as int + r as int) % 0x1_0000_0000_0000_0000,
        bump(s) as int == (a as int + bump(r) as int) % 0x1_0000_0000_0000_0000,
{
}

/// The count that a reason table holds for `k`, zero when it holds none.
pub open spec fn count_of(m: Map<Seq<char>, u64>, k: Seq<char>) -> u64 {
    if m.dom().contains(k) {
        m[k]
    } else {
        0
    }
}

/// The sum of `f` over the keys listed in `ks`.
pub open spec fn sum_over(f: spec_fn(Seq<char>) -> int, ks: Seq<Seq<char>>) -> int
    decreases ks.len(),
{
    if ks.len() == 0 {
        0
    } else {
        sum_over(f, ks.drop_last()) + f(ks.last())
    }
}

/// The sum of the counts that `m` holds for the reasons listed in `ks`.
pub open spec fn counts_total(m: Map<Seq<char>, u64>, ks: Seq<Seq<char>>) -> int {
    sum_over(|k: Seq<char>| count_of(m, k) as int, ks)
}

/// `ks` lists each reason that `m` holds a count for, once.
pub open spec fn lists_reasons(ks: Seq<Seq<char>>, m: Map<Seq<char>, u64>) -> bool {
    &&& ks.no_duplicates()
    &&& forall|k: Seq<char>| ks.contains(k) <==> m.dom().contains(k)
}

/// `ks` lists the reasons of `m`, and their counts add up to `n` (modulo 2^64).
pub open spec fn counts_add_up(m: Map<Seq<char>, u64>, ks: Seq<Seq<char>>, n: u64) -> bool {
    &&& lists_reasons(ks, m)
    &&& counts_total(m, ks) % 0x1_0000_0000_0000_0000 == n as int
}

proof fn lemma_sum_agree(f: spec_fn(Seq<char>) -> int, g: spec_fn(Seq<char>) -> int, ks: Seq<Seq<char>>)
    requires
        forall|k: Seq<char>| ks.contains(k) ==> f(k) == g(k),
    ensures
        sum_over(f, ks) == sum_over(g, ks),
    decreases ks.len(),
{
    if ks.len() > 0 {
        assert forall|k: Seq<char>| ks.drop_last().contains(k) implies f(k) == g(k) by {
            let j = choose|j: int| 0 <= j < ks.drop_last().len() && ks.drop_last()[j] == k;
            assert(ks[j] == k);
            assert(ks.contains(k));
        }
        assert(ks.contains(ks.last()));
        lemma_sum_agree(f, g, ks.drop_last());
    }
}

proof fn lemma_sum_remove_at(f: spec_fn(Seq<char>) -> int, ks: Seq<Seq<char>>, p: int)
    requires
        0 <= p < ks.len(),
    ensures
        sum_over(f, ks) == sum_over(f, ks.remove(p)) + f(ks[p]),
    decreases ks.len(),
{
    if p == ks.len() - 1 {
        assert(ks.remove(p) =~= ks.drop_last());
    } else {
        assert(ks.remove(p).drop_last() =~= ks.drop_last().remove(p));
        assert(ks.remove(p).last() == ks.last());
        lemma_sum_remove_at(f, ks.drop_last(), p);
    }
}

/// A sum over a list of distinct keys does not depend on their order.
proof fn lemma_sum_same_listing(f: spec_fn(Seq<char>) -> int, a: Seq<Seq<char>>, b: Seq<Seq<char>>)
    requires
        a.no_duplicates(),
        b.no_duplicates(),
        forall|k: Seq<char>| a.contains(k) <==> b.contains(k),
    ensures
        sum_over(f, a) == sum_over(f, b),
    decreases a.len(),
{
    if a.len() == 0 {
        if b.len() > 0 {
            assert(b.contains(b[0]));
        }
    } else {
        let k = a.last();
        assert(a.contains(k));
        let p = choose|p: int| 0 <= p < b.len() && b[p] == k;
        let a1 = a.drop_last();
        let b1 = b.remove(p);
        assert forall|x: Seq<char>| a1.contains(x) <==> b1.contains(x) by {
            if a1.contains(x) {
                let j = choose|j: int| 0 <= j < a1.len() && a1[j] == x;
                assert(a[j] == x);
                assert(a.contains(x));
                let q = choose|q: int| 0 <= q < b.len() && b[q] == x;
                assert(q != p);
                if q < p {
                    assert(b1[q] == x);
                } else {
                    assert(b1[q - 1] == x);
                }
            }
            if b1.contains(x) {
                let j = choose|j: int| 0 <= j < b1.len() && b1[j] == x;
                let q = if j < p { j } else { j + 1 };
                assert(b[q] == x);
                assert(b.contains(x));
                let r = choose|r: int| 0 <= r < a.len() && a[r] == x;
                assert(r != a.len() - 1);
                assert(a1[r] == x);
            }
        }
        assert forall|i: int, j: int| 0 <= i < b1.len() && 0 <= j < b1.len() && i != j implies b1[i] != b1[j] by {
            let bi = if i < p { i } else { i + 1 };
            let bj = if j < p { j } else { j + 1 };
            assert(b1[i] == b[bi]);
            assert(b1[j] == b[bj]);
        }
        lemma_sum_same_listing(f, a1, b1);
        lemma_sum_remove_at(f, b, p);
    }
}

proof fn lemma_counts_other(m: Map<Seq<char>, u64>, ks: Seq<Seq<char>>, k: Seq<char>, v: u64)
    requires
        !ks.contains(k),
    ensures
        counts_total(m.insert(k, v), ks) == counts_total(m, ks),
{
    lemma_sum_agree(
        |x: Seq<char>| count_of(m.insert(k, v), x) as int,
        |x: Seq<char>| count_of(m, x) as int,
        ks,
    );
}

proof fn lemma_counts_insert_listed(m: Map<Seq<char>, u64>, ks: Seq<Seq<char>>, k: Seq<char>, v: u64)
    requires
        ks.no_duplicates(),
        ks.contains(k),
    ensures
        counts_total(m.insert(k, v), ks) == counts_total(m, ks) - count_of(m, k) + v,
{
    let p = choose|p: int| 0 <= p < ks.len() && ks[p] == k;
    lemma_sum_remove_at(|x: Seq<char>| count_of(m, x) as int, ks, p);
    lemma_sum_remove_at(|x: Seq<char>| count_of(m.insert(k, v), x) as int, ks, p);
    assert(!ks.remove(p).contains(k)) by {
        if ks.remove(p).contains(k) {
            let j = choose|j: int| 0 <= j < ks.remove(p).len() && ks.remove(p)[j] == k;
            if j < p {
                assert(ks[j] == k);
            } else {
                assert(ks[j + 1] == k);
            }
        }
    }
    lemma_counts_other(m, ks.remove(p), k, v);
}

proof fn lemma_count_step(s: int, c: u64, r: u64)
    requires
        s % 0x1_0000_0000_0000_0000 == r as int,
    ensures
        (s - c + bump(c)) % 0x1_0000_0000_0000_0000 == bump(r) as int,
{
    let m: int = 0x1_0000_0000_0000_0000;
    vstd::arithmetic::div_mod::lemma_add_mod_noop(s, 1, m);
    if c as int + 1 < m {
        assert(s - c + bump(c) == s + 1);
    } else {
        assert(s - c + bump(c) == -m + (s + 1));
        vstd::arithmetic::div_mod::lemma_mod_sub_multiples_vanish(s + 1, m);
    }
}

/// `ids` lists the rooms, and they hold at most `n` tiles in all.
pub open spec fn tiles_bounded(rooms: Map<Seq<char>, RoomView>, ids: Seq<Seq<char>>, n: nat) -> bool {
    &&& lists_rooms(ids, rooms)
    &&& tiles_total(rooms, ids) <= n
}

/// Putting a room with at most one tile more under `id` keeps the rooms
/// within one tile more.
proof fn lemma_room_grows_by_one(
    rooms: Map<Seq<char>, RoomView>,
    ids: Seq<Seq<char>>,
    n: nat,
    id: Seq<char>,
    r: RoomView,
)
    requires
        tiles_bounded(rooms, ids, n),
        r.tiles.len() <= (if rooms.dom().contains(id) {
            rooms[id].tiles.len() as int
        } else {
            0
        }) + 1,
    ensures
        exists|ids2: Seq<Seq<char>>| #[trigger] tiles_bounded(rooms.insert(id, r), ids2, n + 1),
{
    let rooms2 = rooms.insert(id, r);
    let f = |k: Seq<char>| rooms[k].tiles.len() as int;
    let g = |k: Seq<char>| rooms2[k].tiles.len() as int;
    if rooms.dom().contains(id) {
        assert(ids.contains(id));
        let p = choose|p: int| 0 <= p < ids.len() && ids[p] == id;
        lemma_sum_remove_at(f, ids, p);
        lemma_sum_remove_at(g, ids, p);
        assert forall|k: Seq<char>| ids.remove(p).contains(k) implies f(k) == g(k) by {
            let j = choose|j: int| 0 <= j < ids.remove(p).len() && ids.remove(p)[j] == k;
            if j < p {
                assert(ids[j] == k);
            } else {
                assert(ids[j + 1] == k);
            }
        }
        lemma_sum_agree(f, g, ids.remove(p));
        assert forall|k: Seq<char>| ids.contains(k) <==> rooms2.dom().contains(k) by {}
        assert(tiles_bounded(rooms2, ids, n + 1));
    } else {
        assert(!ids.contains(id));
        lemma_sum_agree(f, g, ids);
        let ids2 = ids.push(id);
        assert(ids2.drop_last() =~= ids);
        assert forall|i: int, j: int| 0 <= i < ids2.len() && 0 <= j < ids2.len() && i != j implies ids2[i]
            != ids2[j] by {
            if i < ids.len() && j < ids.len() {
            } else if i < ids.len() {
                assert(ids.contains(ids[i]));
            } else {
                assert(ids.contains(ids[j]));
            }
        }
        assert forall|k: Seq<char>| ids2.contains(k) <==> rooms2.dom().contains(k) by {
            if ids2.contains(k) {
                let j = choose|j: int| 0 <= j < ids2.len() && ids2[j] == k;
                if j < ids.len() {
                    assert(ids[j] == k);
                }
            }
            if ids.contains(k) {
                let j = choose|j: int| 0 <= j < ids.len() && ids[j] == k;
                assert(ids2[j] == k);
            }
            if k == id {
                assert(ids2[ids.len() as int] == k);
            }
        }
        assert(tiles_bounded(rooms2, ids2, n + 1));
    }
}

proof fn lemma_bump_mod(x: u64, n: nat)
    requires
        x as int == n % 0x1_0000_0000_0000_0000,
    ensures
        bump(x) as int == (n + 1) % 0x1_0000_0000_0000_0000,
{
    vstd::arithmetic::div_mod::lemma_add_mod_noop(n as int, 1, 0x1_0000_0000_0000_0000);
}

/// Counting a rejection under its reason keeps the counts by reason adding
/// up to the number of rejections.
proof fn lemma_rejection_counted(m: Map<Seq<char>, u64>, ks0: Seq<Seq<char>>, n: u64, reason: Seq<char>)
    requires
        counts_add_up(m, ks0, n),
    ensures
        exists|ks: Seq<Seq<char>>| #[trigger] counts_add_up(m.insert(reason, bump(count_of(m, reason))), ks, bump(n)),
{
    let c = count_of(m, reason);
    let m1 = m.insert(reason, bump(c));
    let ks1 = if ks0.contains(reason) {
        lemma_counts_insert_listed(m, ks0, reason, bump(c));
        ks0
    } else {
        lemma_counts_other(m, ks0, reason, bump(c));
        assert(ks0.push(reason).drop_last() =~= ks0);
        assert forall|i: int, j: int|
            0 <= i < ks0.push(reason).len() && 0 <= j < ks0.push(reason).len() && i != j implies ks0.push(
            reason,
        )[i] != ks0.push(reason)[j] by {
            if i < ks0.len() && j < ks0.len() {
            } else if i < ks0.len() {
                assert(ks0.contains(ks0[i]));
            } else {
                assert(ks0.contains(ks0[j]));
            }
        }
        ks0.push(reason)
    };
    assert(counts_total(m1, ks1) == counts_total(m, ks0) - c + bump(c));
    lemma_count_step(counts_total(m, ks0), c, n);
    assert forall|k: Seq<char>| ks1.contains(k) <==> m1.dom().contains(k) by {
        if !ks0.contains(reason) {
            if ks1.contains(k) {
                let j = choose|j: int| 0 <= j < ks1.len() && ks1[j] == k;
                if j < ks0.len() {
                    assert(ks0[j] == k);
                }
            }
            if ks0.contains(k) {
                let j = choose|j: int| 0 <= j < ks0.len() && ks0[j] == k;
                assert(ks1[j] == k);
            }
            assert(ks1[ks0.len() as int] == reason);
        }
    }
    assert(counts_add_up(m1, ks1, bump(n)));
}

/// What a submission of tile `t` to room `room_id` does, from engine
/// `before` to engine `after` with result `r`: the quality gate's verdict on the tile
/// against the room's content hashes decides; an accepted tile goes into
/// the room (created with the tile's domain when missing) and is counted
/// as accepted, and its content hash is returned; a rejected tile leaves
/// the rooms as they were, is counted under its reason, and the reason is
/// returned with the tile's id. Well-formedness is kept.
pub open spec fn submit_effect(
    before: PlatoEngine,
    room_id: Seq<char>,
    t: TileView,
    after: PlatoEngine,
    r: Result<TileHash, GateRejection>,
) -> bool {
    &&& before.wf() ==> after.wf()
    &&& after.config() == before.config()
    &&& after.submitted() == bump(before.submitted())
    &&& match gate_verdict_with_hashes(&before.config(), t, before.existing_hashes(room_id)) {
        None => {
            &&& r matches Ok(h) && h@ == content_hash_of(t)
            &&& after.accepted() == bump(before.accepted())
            &&& after.rejected() == before.rejected()
            &&& after.accepted_ever() == before.accepted_ever() + 1
            &&& after.rejected_ever() == before.rejected_ever()
            &&& after.reasons() == before.reasons()
            &&& after.rooms().dom() == before.rooms().dom().insert(room_id)
            &&& forall|k: Seq<char>|
                k != room_id && #[trigger] before.rooms().dom().contains(k) ==> after.rooms()[k]
                    == before.rooms()[k]
            &&& before.rooms().dom().contains(room_id) ==> after.rooms()[room_id] == with_tile(
                before.rooms()[room_id],
                t,
            )
            &&& !before.rooms().dom().contains(room_id) ==> {
                let nr = after.rooms()[room_id];
                &&& nr.id == room_id
                &&& nr.domain == t.domain
                &&& nr.tiles == seq![t]
                &&& nr.hash_index == seq![(content_hash_of(t), 0usize)]
            }
        },
        Some(reason) => {
            &&& r matches Err(rej) && rej.reason@ == reason && rej.tile_id == Some(t.id)
            &&& after.accepted() == before.accepted()
            &&& after.rejected() == bump(before.rejected())
            &&& after.accepted_ever() == before.accepted_ever()
            &&& after.rejected_ever() == before.rejected_ever() + 1
            &&& after.reasons() == before.reasons().insert(reason, bump(count_of(before.reasons(), reason)))
            &&& after.rooms() == before.rooms()
        },
    }
}

impl PlatoEngine {
    /// The rooms, by id.
    pub closed spec fn rooms(&self) -> Map<Seq<char>, RoomView> {
        room_table(self.rooms)
    }

    /// The quality gate configuration.
    pub closed spec fn config(&self) -> GateConfig {
        self.gate.config
    }

    pub closed spec fn submitted(&self) -> u64 {
        self.stats.total_submitted
    }

    pub closed spec fn accepted(&self) -> u64 {
        self.stats.total_accepted
    }

    pub closed spec fn rejected(&self) -> u64 {
        self.stats.total_rejected
    }

    /// Rejections counted by reason.
    pub closed spec fn reasons(&self) -> Map<Seq<char>, u64> {
        reason_table(self.stats.rejection_reasons)
    }

    /// The number of submissions accepted since the engine was made (the
    /// accepted counter is this modulo 2^64).
    pub closed spec fn accepted_ever(&self) -> nat {
        self.accepted_ever@
    }

    /// The number of submissions rejected since the engine was made (the
    /// rejected counter is this modulo 2^64).
    pub closed spec fn rejected_ever(&self) -> nat {
        self.rejected_ever@
    }

    /// Every room is well formed and filed under its own id, every
    /// submission counted was either accepted or rejected, and the rejections
    /// counted by reason add up to the rejections (counting modulo 2^64, as
    /// the counters wrap); the counters are the numbers of acceptances and
    /// rejections modulo 2^64; the rooms hold no more tiles than were
    /// accepted; and each reason's count is at most the number of
    /// rejections, and not zero unless 2^64 rejections or more were counted.
    pub open spec fn wf(&self) -> bool {
        &&& self.submitted() as int == (self.accepted() as int + self.rejected() as int) % 0x1_0000_0000_0000_0000
        &&& exists|ks: Seq<Seq<char>>| #[trigger] counts_add_up(self.reasons(), ks, self.rejected())
        &&& self.accepted() as int == self.accepted_ever() % 0x1_0000_0000_0000_0000
        &&& self.rejected() as int == self.rejected_ever() % 0x1_0000_0000_0000_0000
        &&& exists|ids: Seq<Seq<char>>| #[trigger] tiles_bounded(self.rooms(), ids, self.accepted_ever())
        &&& forall|k: Seq<char>|
            #[trigger] self.reasons().dom().contains(k) ==> self.reasons()[k] <= self.rejected_ever() && (
            self.reasons()[k] >= 1 || self.rejected_ever() >= 0x1_0000_0000_0000_0000)
        &&& self.rooms().dom().finite()
        &&& forall|k: Seq<char>| #[trigger] self.rooms().dom().contains(k) ==> room_wf(self.rooms()[k])
            && self.rooms()[k].id == k
    }

    /// The content hashes that a submission to `room_id` is checked against.
    pub open spec fn existing_hashes(&self, room_id: Seq<char>) -> Seq<Seq<char>> {
        if self.rooms().dom().contains(room_id) {
            hashes_of(self.rooms()[room_id])
        } else {
            seq![]
        }
    }

    pub fn new(gate_config: GateConfig) -> (e: Self)
        ensures
            e.wf(),
            e.rooms() == Map::<Seq<char>, RoomView>::empty(),
            e.config() == gate_config,
            e.submitted() == 0,
            e.accepted() == 0,
            e.rejected() == 0,
            e.reasons() == Map::<Seq<char>, u64>::empty(),
            e.accepted_ever() == 0,
            e.rejected_ever() == 0,
    {
        let e = PlatoEngine {
            rooms: rooms_new(),
            gate: Gate::new(gate_config),
            stats: EngineCounters {
                total_submitted: 0,
                total_accepted: 0,
                total_rejected: 0,
                rejection_reasons: reasons_new(),
            },
            started_at: instant_now(),
            accepted_ever: Ghost(0),
            rejected_ever: Ghost(0),
        };
        assert(e.rooms().dom() =~= Set::<Seq<char>>::empty());
        assert(counts_add_up(e.reasons(), Seq::<Seq<char>>::empty(), e.rejected()));
        assert(e.rooms().dom().finite());
        assert(tiles_bounded(e.rooms(), Seq::<Seq<char>>::empty(), 0));
        e
    }

    pub fn with_defaults() -> (e: Self)
        ensures
            e.wf(),
            e.rooms() == Map::<Seq<char>, RoomView>::empty(),
            e.config().is_default(),
            e.submitted() == 0,
            e.accepted() == 0,
            e.rejected() == 0,
            e.reasons() == Map::<Seq<char>, u64>::empty(),
    {
        PlatoEngine::new(GateConfig::default())
    }

    /// Submit a tile through the quality gate into a room. Returns the
    /// tile's content hash on success, or a rejection reason.
    ///
    /// The quality gate checks the tile against the content hashes of the room it
    /// is sent to. An accepted tile goes into that room (created, with the
    /// tile's domain, if it does not exist; the room keeps one tile per
    /// content hash). A rejection is counted under its reason.
    pub fn submit(&mut self, room_id: &str, tile: Tile) -> (r: Result<TileHash, GateRejection>)
        ensures
            submit_effect(*old(self), room_id@, tile@, *final(self), r),
    {
        let ghost wf0 = self.wf();
        let ghost ids0 = choose|ids: Seq<Seq<char>>| #[trigger] tiles_bounded(self.rooms(), ids, self.accepted_ever());
        let ghost accepted0 = self.accepted();
        let ghost rejected_ever0 = self.rejected_ever();
        let ghost accepted_ever0 = self.accepted_ever();
        let ghost ks0 = choose|ks: Seq<Seq<char>>| #[trigger] counts_add_up(self.reasons(), ks, self.rejected());
        proof {
            if wf0 {
                lemma_bump_sum(self.submitted(), self.accepted(), self.rejected());
            }
        }
        self.stats.total_submitted = self.stats.total_submitted.wrapping_add(1);
        let ghost rooms0 = self.rooms();
        let current = rooms_get(&self.rooms, room_id);
        let mut existing: Vec<&str> = Vec::new();
        match &current {
            Some(room) => {
                let mut i: usize = 0;
                while i < room.hash_index.len()
                    invariant
                        i <= room.hash_index.len(),
                        existing@.len() == i,
                        forall|j: int| 0 <= j < i ==> #[trigger] existing@[j]@ == room.hash_index@[j].0@,
                    decreases room.hash_index.len() - i,
                {
                    existing.push(room.hash_index[i].0.as_str());
                    i = i + 1;
                }
                assert(existing@.map_values(|h: &str| h@) =~= hashes_of(room@));
            },
            None => {
                assert(existing@.map_values(|h: &str| h@) =~= Seq::<Seq<char>>::empty());
            },
        }
        let decision = self.gate.evaluate_with_hashes(&tile, existing.as_slice());
        match decision {
            GateDecision::Accept => {
                let hash = tile.content_hash();
                let mut room = match rooms_remove(&mut self.rooms, room_id) {
                    Some(r) => r,
                    None => Room::new(room_id, tile.domain.as_str()),
                };
                let ghost before = room@;
                proof {
                    if wf0 && rooms0.dom().contains(room_id@) {
                        assert(room_wf(rooms0[room_id@]));
                    }
                }
                room.insert_tile(tile);
                proof {
                    if !rooms0.dom().contains(room_id@) {
                        assert(!holds_hash(before, content_hash_of(tile@)));
                    }
                }
                rooms_insert(&mut self.rooms, String::from_str(room_id), room);
                self.stats.total_accepted = self.stats.total_accepted.wrapping_add(1);
                self.accepted_ever = Ghost(self.accepted_ever@ + 1);
                proof {
                    if wf0 {
                        assert(counts_add_up(self.reasons(), ks0, self.rejected()));
                        lemma_bump_mod(accepted0, accepted_ever0);
                        lemma_room_grows_by_one(rooms0, ids0, accepted_ever0, room_id@, room@);
                        let ids1 = choose|ids: Seq<Seq<char>>| #[trigger] tiles_bounded(
                            rooms0.insert(room_id@, room@),
                            ids,
                            accepted_ever0 + 1,
                        );
                        assert(self.rooms() =~= rooms0.insert(room_id@, room@));
                        assert(tiles_bounded(self.rooms(), ids1, self.accepted_ever()));
                    }
                    assert(self.rooms() =~= rooms0.remove(room_id@).insert(room_id@, room@));
                    assert(self.rooms().dom() =~= rooms0.dom().insert(room_id@));
                    if !rooms0.dom().contains(room_id@) {
                        assert(room@.tiles =~= seq![tile@]);
                        assert(room@.hash_index =~= seq![(content_hash_of(tile@), 0usize)]);
                    }
                }
                Ok(hash)
            },
            GateDecision::Reject(reason) => {
                let count = match reasons_get(&self.stats.rejection_reasons, reason.as_str()) {
                    Some(c) => c,
                    None => 0,
                };
                let ghost reasons0 = self.reasons();
                let ghost rejected0 = self.rejected();
                reasons_insert(&mut self.stats.rejection_reasons, reason.clone(), count.wrapping_add(1));
                self.stats.total_rejected = self.stats.total_rejected.wrapping_add(1);
                self.rejected_ever = Ghost(self.rejected_ever@ + 1);
                proof {
                    if wf0 {
                        lemma_bump_mod(rejected0, rejected_ever0);
                        assert(tiles_bounded(self.rooms(), ids0, self.accepted_ever()));
                        let c = count_of(reasons0, reason@);
                        assert(c <= rejected_ever0);
                        assert forall|k: Seq<char>| #[trigger] self.reasons().dom().contains(k) implies self.reasons()[k]
                            <= self.rejected_ever() && (self.reasons()[k] >= 1 || self.rejected_ever()
                            >= 0x1_0000_0000_0000_0000) by {
                            if k != reason@ {
                                assert(reasons0.dom().contains(k));
                            }
                        }
                    }
                    assert(self.reasons() == reasons0.insert(reason@, bump(count_of(reasons0, reason@))));
                    if wf0 {
                        lemma_rejection_counted(reasons0, ks0, rejected0, reason@);
                        let ks1 = choose|ks: Seq<Seq<char>>| #[trigger] counts_add_up(
                            reasons0.insert(reason@, bump(count_of(reasons0, reason@))),
                            ks,
                            bump(rejected0),
                        );
                        assert(counts_add_up(self.reasons(), ks1, self.rejected()));
                    }
                }
                Err(GateRejection { reason, tile_id: Some(tile.id) })
            },
        }
    }

    /// Query tiles from a room, with an optional tag filter (case-insensitive
    /// substring of some tag), at most `limit` of them, in room order.
    pub fn query(&self, room_id: &str, tag: Option<&str>, limit: usize) -> (r: Vec<Tile>)
        ensures
            !self.rooms().dom().contains(room_id@) ==> r@.len() == 0,
            self.rooms().dom().contains(room_id@) ==> {
                let all = match tag {
                    Some(t) => tiles_with_tag(self.rooms()[room_id@].tiles, lowercase_chars(t@)),
                    None => self.rooms()[room_id@].tiles,
                };
                r@.map_values(|t: Tile| t@) == all.take(
                    if limit < all.len() {
                        limit as int
                    } else {
                        all.len() as int
                    },
                )
            },
    {
        match rooms_get(&self.rooms, room_id) {
            Some(room) => {
                let mut out: Vec<Tile> = Vec::new();
                match tag {
                    Some(t) => {
                        let found = room.query_by_tag(t);
                        let ghost all = found@.map_values(|x: &Tile| x@);
                        let mut i: usize = 0;
                        while i < found.len() && i < limit
                            invariant
                                all == found@.map_values(|x: &Tile| x@),
                                all.len() == found.len(),
                                i <= found.len(),
                                i <= limit,
                                out.len() == i,
                                forall|j: int| 0 <= j < i ==> #[trigger] out@[j]@ == all[j],
                            decreases found.len() - i,
                        {
                            out.push(found[i].duplicate());
                            i = i + 1;
                        }
                        assert(out@.map_values(|x: Tile| x@) =~= all.take(i as int));
                    },
                    None => {
                        let ghost all = room@.tiles;
                        let mut i: usize = 0;
                        while i < room.tiles.len() && i < limit
                            invariant
                                all == room@.tiles,
                                all.len() == room.tiles.len(),
                                i <= room.tiles.len(),
                                i <= limit,
                                out.len() == i,
                                forall|j: int| 0 <= j < i ==> #[trigger] out@[j]@ == all[j],
                            decreases room.tiles.len() - i,
                        {
                            out.push(room.tiles[i].duplicate());
                            i = i + 1;
                        }
                        assert(out@.map_values(|x: Tile| x@) =~= all.take(i as int));
                    },
                }
                out
            },
            None => Vec::new(),
        }
    }

    /// Room ids, optionally only those that start with `prefix`; each once,
    /// in the table's iteration order.
    pub fn list_rooms(&self, prefix: Option<&str>) -> (ids: Vec<String>)
        ensures
            ids.deep_view().no_duplicates(),
            forall|k: Seq<char>|
                ids.deep_view().contains(k) <==> (self.rooms().dom().contains(k) && match prefix {
                    Some(p) => p@.is_prefix_of(k),
                    None => true,
                }),
    {
        let keys = rooms_keys(&self.rooms);
        let ghost kv = keys.deep_view();
        let mut ids: Vec<String> = Vec::new();
        let mut i: usize = 0;
        while i < keys.len()
            invariant
                kv == keys.deep_view(),
                kv.no_duplicates(),
                i <= keys.len(),
                forall|j: int, l: int|
                    0 <= j < ids.len() && 0 <= l < kv.len() && ids.deep_view()[j] == kv[l] ==> l < i,
                ids.deep_view().no_duplicates(),
                forall|k: Seq<char>|
                    ids.deep_view().contains(k) <==> (kv.subrange(0, i as int).contains(k) && match prefix {
                        Some(p) => p@.is_prefix_of(k),
                        None => true,
                    }),
            decreases keys.len() - i,
        {
            let keep = match prefix {
                Some(p) => has_prefix(keys[i].as_str(), p),
                None => true,
            };
            assert(kv[i as int] == keys@[i as int]@);
            let ghost before = ids.deep_view();
            let ghost pre = kv.subrange(0, i as int);
            let ghost post = kv.subrange(0, i + 1);
            if keep {
                ids.push(copy_text(&keys[i]));
            }
            proof {
                assert(post =~= pre.push(kv[i as int]));
                let after = ids.deep_view();
                if keep {
                    assert(after =~= before.push(kv[i as int]));
                } else {
                    assert(after =~= before);
                }
                assert forall|k: Seq<char>|
                    after.contains(k) <==> (post.contains(k) && match prefix {
                        Some(p) => p@.is_prefix_of(k),
                        None => true,
                    }) by {
                    if post.contains(k) {
                        let j = choose|j: int| 0 <= j < post.len() && post[j] == k;
                        if j < i {
                            assert(pre[j] == k);
                        }
                    }
                    if k == kv[i as int] && keep {
                        assert(after[before.len() as int] == k);
                    }
                    if pre.contains(k) {
                        let j = choose|j: int| 0 <= j < pre.len() && pre[j] == k;
                        assert(post[j] == k);
                    }
                    if after.contains(k) {
                        let j = choose|j: int| 0 <= j < after.len() && after[j] == k;
                        if j < before.len() {
                            assert(before[j] == k);
                        } else {
                            assert(post[i as int] == k);
                        }
                    }
                    if before.contains(k) {
                        let j = choose|j: int| 0 <= j < before.len() && before[j] == k;
                        assert(after[j] == k);
                    }
                }
                assert forall|j: int, l: int|
                    0 <= j < after.len() && 0 <= l < kv.len() && after[j] == kv[l] implies l < i + 1 by {
                    if j < before.len() {
                        assert(before[j] == after[j]);
                    } else {
                        assert(after[j] == kv[i as int]);
                    }
                }
                if keep {
                    assert forall|p: int, q: int| 0 <= p < after.len() && 0 <= q < after.len() && p != q
                        implies after[p] != after[q] by {
                        if p < before.len() && q < before.len() {
                            assert(before[p] == after[p]);
                            assert(before[q] == after[q]);
                        } else if p < before.len() {
                            assert(before[p] == after[p]);
                        } else {
                            assert(before[q] == after[q]);
                        }
                    }
                }
            }
            i = i + 1;
        }
        assert(kv.subrange(0, keys.len() as int) =~= kv);
        ids
    }

    /// Get a copy of a room by id.
    pub fn get_room(&self, room_id: &str) -> (r: Option<Room>)
        ensures
            r is Some == self.rooms().dom().contains(room_id@),
            r matches Some(room) ==> room@ == self.rooms()[room_id@],
    {
        rooms_get(&self.rooms, room_id)
    }

    /// `s` reports the engine's counters, and each rejection reason once
    /// with its count (in the table's iteration order, which nothing here
    /// states).
    pub open spec fn reports(&self, s: &EngineStats) -> bool {
        &&& s.total_submitted == self.submitted()
        &&& s.total_accepted == self.accepted()
        &&& s.total_rejected == self.rejected()
        &&& entries_view(s.rejection_reasons@).no_duplicates()
        &&& forall|k: Seq<char>| entries_view(s.rejection_reasons@).contains(k) <==> self.reasons().dom().contains(k)
        &&& forall|i: int|
            0 <= i < s.rejection_reasons@.len() ==> #[trigger] s.rejection_reasons@[i].1
                == self.reasons()[s.rejection_reasons@[i].0@]
    }

    /// Get current engine stats.
    pub fn get_stats(&self) -> (s: EngineStats)
        ensures
            self.reports(&s),
    {
        EngineStats {
            total_submitted: self.stats.total_submitted,
            total_accepted: self.stats.total_accepted,
            total_rejected: self.stats.total_rejected,
            rejection_reasons: reasons_entries(&self.stats.rejection_reasons),
        }
    }

    /// Health check: number of rooms, number of tiles, uptime, stats.
    pub fn health(&self) -> (h: HealthStatus)
        ensures
            h.rooms_count == self.rooms().dom().len(),
            total_tiles(self.rooms()) <= usize::MAX ==> h.tiles_count == total_tiles(self.rooms()),
            total_tiles(self.rooms()) > usize::MAX ==> h.tiles_count == usize::MAX,
            self.reports(&h.stats),
    {
        let rooms_count = rooms_len(&self.rooms);
        let keys = rooms_keys(&self.rooms);
        let ghost kv = keys.deep_view();
        let mut total: usize = 0;
        let mut i: usize = 0;
        assert forall|j: int| 0 <= j < kv.len() implies #[trigger] self.rooms().dom().contains(kv[j]) by {
            assert(kv.contains(kv[j]));
        }
        while i < keys.len()
            invariant
                kv == keys.deep_view(),
                i <= keys.len(),
                forall|j: int| 0 <= j < kv.len() ==> #[trigger] self.rooms().dom().contains(kv[j]),
                tiles_total(self.rooms(), kv.subrange(0, i as int)) <= usize::MAX ==> total == tiles_total(
                    self.rooms(),
                    kv.subrange(0, i as int),
                ),
                tiles_total(self.rooms(), kv.subrange(0, i as int)) > usize::MAX ==> total == usize::MAX,
            decreases keys.len() - i,
        {
            let ghost pre = kv.subrange(0, i as int);
            let ghost post = kv.subrange(0, i + 1);
            assert(post.drop_last() =~= pre);
            assert(kv.contains(kv[i as int]));
            let n = match rooms_get(&self.rooms, keys[i].as_str()) {
                Some(room) => room.tile_count(),
                None => 0,
            };
            total = total.saturating_add(n);
            i = i + 1;
        }
        assert(kv.subrange(0, keys.len() as int) =~= kv);
        proof {
            assert(lists_rooms(kv, self.rooms()));
            let c = choose|ids: Seq<Seq<char>>| lists_rooms(ids, self.rooms());
            lemma_sum_same_listing(|k: Seq<char>| self.rooms()[k].tiles.len() as int, kv, c);
        }
        HealthStatus {
            rooms_count,
            tiles_count: total,
            uptime_nanos: nanos_since(&self.started_at),
            stats: self.get_stats(),
        }
    }
}

/// The number of tiles in the rooms listed by `ids`.
pub open spec fn tiles_total(rooms: Map<Seq<char>, RoomView>, ids: Seq<Seq<char>>) -> int {
    sum_over(|k: Seq<char>| rooms[k].tiles.len() as int, ids)
}

/// `ids` lists each room id once.
pub open spec fn lists_rooms(ids: Seq<Seq<char>>, rooms: Map<Seq<char>, RoomView>) -> bool {
    &&& ids.no_duplicates()
    &&& forall|k: Seq<char>| ids.contains(k) <==> rooms.dom().contains(k)
}

/// The number of tiles in all the rooms (the same whatever order the rooms
/// are counted in).
pub open spec fn total_tiles(rooms: Map<Seq<char>, RoomView>) -> int {
    tiles_total(rooms, choose|ids: Seq<Seq<char>>| lists_rooms(ids, rooms))
}

/// A listing of the rooms, as `list_rooms(None)` gives one, has as many
/// ids as there are rooms (what `health` counts), and the tiles of the rooms
/// it lists add up to the tiles in all rooms (what `health` counts, when it
/// fits in `usize`).
pub proof fn lemma_listing_matches_health(e: &PlatoEngine, ids: Seq<Seq<char>>)
    requires
        lists_rooms(ids, e.rooms()),
    ensures
        ids.len() == e.rooms().dom().len(),
        tiles_total(e.rooms(), ids) == total_tiles(e.rooms()),
{
    ids.unique_seq_to_set();
    assert(ids.to_set() =~= e.rooms().dom());
    let c = choose|c: Seq<Seq<char>>| lists_rooms(c, e.rooms());
    lemma_sum_same_listing(|k: Seq<char>| e.rooms()[k].tiles.len() as int, ids, c);
}

/// What the counters say of every engine state: the counters are the
/// numbers of acceptances and rejections modulo 2^64; the rooms hold no more
/// tiles than were accepted (so, while fewer than 2^64 were accepted, no
/// more than the accepted counter says); and while fewer than 2^64
/// rejections were counted, every reason counted has a count of at least
/// one.
pub proof fn lemma_engine_counts(e: &PlatoEngine)
    requires
        e.wf(),
    ensures
        e.accepted() as int == e.accepted_ever() % 0x1_0000_0000_0000_0000,
        e.rejected() as int == e.rejected_ever() % 0x1_0000_0000_0000_0000,
        total_tiles(e.rooms()) <= e.accepted_ever(),
        e.accepted_ever() < 0x1_0000_0000_0000_0000 ==> total_tiles(e.rooms()) <= e.accepted(),
        e.rejected_ever() < 0x1_0000_0000_0000_0000 ==> forall|k: Seq<char>|
            #[trigger] e.reasons().dom().contains(k) ==> e.reasons()[k] >= 1,
{
    let ids = choose|ids: Seq<Seq<char>>| #[trigger] tiles_bounded(e.rooms(), ids, e.accepted_ever());
    let c = choose|c: Seq<Seq<char>>| lists_rooms(c, e.rooms());
    lemma_sum_same_listing(|k: Seq<char>| e.rooms()[k].tiles.len() as int, ids, c);
    if e.accepted_ever() < 0x1_0000_0000_0000_0000 {
        vstd::arithmetic::div_mod::lemma_small_mod(e.accepted_ever(), 0x1_0000_0000_0000_0000);
    }
}

/// The sum of the counts in a list of (reason, count) entries.
pub open spec fn entries_sum(es: Seq<(String, u64)>) -> int
    decreases es.len(),
{
    if es.len() == 0 {
        0
    } else {
        entries_sum(es.drop_last()) + es.last().1
    }
}

proof fn lemma_entries_sum(m: Map<Seq<char>, u64>, es: Seq<(String, u64)>)
    requires
        forall|i: int|
            0 <= i < es.len() ==> #[trigger] es[i].1 == m[es[i].0@] && m.dom().contains(es[i].0@),
    ensures
        entries_sum(es) == counts_total(m, entries_view(es)),
    decreases es.len(),
{
    if es.len() > 0 {
        let n = es.len() - 1;
        assert(entries_view(es).drop_last() =~= entries_view(es.drop_last()));
        assert(es[n].1 == m[es[n].0@]);
        assert forall|i: int| 0 <= i < es.drop_last().len() implies #[trigger] es.drop_last()[i].1
            == m[es.drop_last()[i].0@] && m.dom().contains(es.drop_last()[i].0@) by {
            assert(es.drop_last()[i] == es[i]);
        }
        lemma_entries_sum(m, es.drop_last());
    }
}

/// The counts that the statistics give by rejection reason add up to the
/// number of rejections they give (modulo 2^64, as the counters wrap).
pub proof fn lemma_reported_counts_add_up(e: &PlatoEngine, s: &EngineStats)
    requires
        e.wf(),
        e.reports(s),
    ensures
        entries_sum(s.rejection_reasons@) % 0x1_0000_0000_0000_0000 == s.total_rejected as int,
{
    let es = s.rejection_reasons@;
    assert forall|i: int| 0 <= i < es.len() implies #[trigger] es[i].1 == e.reasons()[es[i].0@]
        && e.reasons().dom().contains(es[i].0@) by {
        assert(entries_view(es)[i] == es[i].0@);
        assert(entries_view(es).contains(es[i].0@));
    }
    lemma_entries_sum(e.reasons(), es);
    let ks0 = choose|ks0: Seq<Seq<char>>| #[trigger] counts_add_up(e.reasons(), ks0, e.rejected());
    lemma_sum_same_listing(|k: Seq<char>| count_of(e.reasons(), k) as int, entries_view(es), ks0);
}

/// An accepted tile is stored: the room it went to holds its content
/// (whether the tile was appended or a tile with that content was there).
pub proof fn lemma_accepted_content_is_stored(r: RoomView, t: TileView)
    requires
        room_wf(r),
    ensures
        room_wf(with_tile(r, t)),
        holds_hash(with_tile(r, t), content_hash_of(t)),
{
    if !holds_hash(r, content_hash_of(t)) {
        lemma_insert_then_find(r, t);
    }
}

/// A tile whose content is already in the room it is sent to is refused
/// when the configuration rejects duplicates, whatever else holds of it.
pub proof fn lemma_duplicate_submission_rejected(e: &PlatoEngine, room_id: Seq<char>, t: TileView)
    requires
        e.wf(),
        e.config().reject_duplicates,
        e.rooms().dom().contains(room_id),
        holds_hash(e.rooms()[room_id], content_hash_of(t)),
    ensures
        gate_verdict_with_hashes(&e.config(), t, e.existing_hashes(room_id)) is Some,
{
    let r = e.rooms()[room_id];
    let i = choose|i: int| 0 <= i < r.hash_index.len() && #[trigger] r.hash_index[i].0 == content_hash_of(t);
    assert(hashes_of(r)[i] == content_hash_of(t));
    assert(e.existing_hashes(room_id).contains(content_hash_of(t)));
}

} // verus!
