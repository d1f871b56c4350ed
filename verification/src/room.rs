//! The room: a named collection of tiles with a content-hash index that
//! keeps tiles unique by content.

use rayon::iter::{IntoParallelRefIterator, ParallelIterator};
use vstd::prelude::*;

use crate::gate::{insert_sorted, sorted_distinct, text_order};
use crate::graph::{lemma_sorted_unique, strictly_sorted};
use crate::text::{contains_text, lemma_text_lt_order, lowercase, lowercase_chars, occurs_at, occurs_in, same_text};
use crate::tile::{content_hash_of, unix_now, Tile, TileHash, TileView};

verus! {

/// A room as plain values.
pub struct RoomView {
    pub id: Seq<char>,
    pub domain: Seq<char>,
    pub tiles: Seq<TileView>,
    pub created_at: i64,
    pub hash_index: Seq<(Seq<char>, usize)>,
}

/// The hash index lists, for each tile in order, its content hash and its
/// position, and no content hash occurs twice.
pub open spec fn room_wf(r: RoomView) -> bool {
    &&& r.hash_index.len() == r.tiles.len()
    &&& forall|i: int|
        0 <= i < r.tiles.len() ==> #[trigger] r.hash_index[i] == (content_hash_of(r.tiles[i]), i as usize)
    &&& forall|i: int, j: int|
        0 <= i < j < r.tiles.len() ==> #[trigger] r.hash_index[i].0 != #[trigger] r.hash_index[j].0
}

/// Some tile of the room has content hash `h`.
pub open spec fn holds_hash(r: RoomView, h: Seq<char>) -> bool {
    exists|i: int| 0 <= i < r.hash_index.len() && #[trigger] r.hash_index[i].0 == h
}

/// The tiles of the room, as plain values.
pub open spec fn tile_views(ts: Seq<Tile>) -> Seq<TileView> {
    ts.map_values(|t: Tile| t@)
}

/// The tiles among `ts` with a tag whose lower-case form contains `tag_lower`.
pub open spec fn tiles_with_tag(ts: Seq<TileView>, tag_lower: Seq<char>) -> Seq<TileView>
    decreases ts.len(),
{
    if ts.len() == 0 {
        seq![]
    } else {
        tiles_with_tag(ts.drop_last(), tag_lower) + if has_tag_like(ts.last(), tag_lower) {
            seq![ts.last()]
        } else {
            seq![]
        }
    }
}

/// Some tag of the tile, lower-cased, contains `tag_lower`.
pub open spec fn has_tag_like(t: TileView, tag_lower: Seq<char>) -> bool {
    exists|k: int| 0 <= k < t.tags.len() && occurs_in(lowercase_chars(#[trigger] t.tags[k]), tag_lower)
}

/// A tile matches a tag query exactly when one of its tags, lower-cased,
/// holds the query at some position: anywhere in the tag, not only at its
/// start.
pub proof fn lemma_tag_query_matches_anywhere(t: TileView, q: Seq<char>)
    ensures
        has_tag_like(t, q) <==> exists|k: int, i: int|
            0 <= k < t.tags.len() && 0 <= i && i + q.len() <= lowercase_chars(t.tags[k]).len()
                && #[trigger] lowercase_chars(t.tags[k]).subrange(i, i + q.len()) == q,
{
    if has_tag_like(t, q) {
        let k = choose|k: int| 0 <= k < t.tags.len() && occurs_in(lowercase_chars(#[trigger] t.tags[k]), q);
        let i = choose|i: int| occurs_at(lowercase_chars(t.tags[k]), q, i);
        assert(lowercase_chars(t.tags[k]).subrange(i, i + q.len()) == q);
    }
    if exists|k: int, i: int|
        0 <= k < t.tags.len() && 0 <= i && i + q.len() <= lowercase_chars(t.tags[k]).len()
            && #[trigger] lowercase_chars(t.tags[k]).subrange(i, i + q.len()) == q {
        let (k, i) = choose|k: int, i: int|
            0 <= k < t.tags.len() && 0 <= i && i + q.len() <= lowercase_chars(t.tags[k]).len()
                && #[trigger] lowercase_chars(t.tags[k]).subrange(i, i + q.len()) == q;
        assert(occurs_at(lowercase_chars(t.tags[k]), q, i));
        assert(occurs_in(lowercase_chars(t.tags[k]), q));
    }
}

/// The tags of all tiles, tile by tile, in order.
pub open spec fn tags_of(ts: Seq<TileView>) -> Seq<Seq<char>>
    decreases ts.len(),
{
    if ts.len() == 0 {
        seq![]
    } else {
        tags_of(ts.drop_last()) + ts.last().tags
    }
}

/// Whether the tile has a tag whose lower-case form contains `tag_lower`.
pub fn tile_has_tag(t: &Tile, tag_lower: &str) -> (b: bool)
    ensures
        b == has_tag_like(t@, tag_lower@),
{
    let mut k: usize = 0;
    while k < t.tags.len()
        invariant
            k <= t.tags.len(),
            forall|j: int| 0 <= j < k ==> !occurs_in(lowercase_chars(#[trigger] t@.tags[j]), tag_lower@),
        decreases t.tags.len() - k,
    {
        let lower = lowercase(t.tags[k].as_str());
        assert(t@.tags[k as int] == t.tags@[k as int]@);
        if contains_text(lower.as_str(), tag_lower) {
            return true;
        }
        k = k + 1;
    }
    false
}

/// The position recorded in an index entry, when its hash is `hash`.
pub fn index_entry_match(entry: &(String, usize), hash: &str) -> (r: Option<usize>)
    ensures
        r == (if entry.0@ == hash@ {
            Some(entry.1)
        } else {
            None
        }),
{
    if same_text(entry.0.as_str(), hash) {
        Some(entry.1)
    } else {
        None
    }
}

/// The tags of a tile.
pub fn tag_list(t: &Tile) -> (r: Vec<String>)
    ensures
        r.deep_view() == t@.tags,
{
    let mut r: Vec<String> = Vec::new();
    let mut i: usize = 0;
    while i < t.tags.len()
        invariant
            i <= t.tags.len(),
            r.len() == i,
            forall|j: int| 0 <= j < i ==> #[trigger] r@[j]@ == t.tags@[j]@,
        decreases t.tags.len() - i,
    {
        r.push(t.tags[i].clone());
        i = i + 1;
    }
    assert(r.deep_view() =~= t@.tags);
    r
}

pub open spec fn index_view(ix: Seq<(String, usize)>) -> Seq<(Seq<char>, usize)> {
    ix.map_values(|e: (String, usize)| (e.0@, e.1))
}

/// `par_iter().any(..)` (rayon) over the index: whether some entry has hash
/// `hash`.
#[verifier::external_body]
fn par_any_hash(index: &Vec<(String, usize)>, hash: &str) -> (found: bool)
    ensures
        found == (exists|i: int| 0 <= i < index@.len() && #[trigger] index_view(index@)[i].0 == hash@),
{
    index.par_iter().any(|e| index_entry_match(e, hash).is_some())
}

/// `par_iter().find_map_any(..)` (rayon) over the index: the position
/// recorded in some entry with hash `hash` (any one, when several match),
/// or `None` when none does.
#[verifier::external_body]
fn par_find_hash(index: &Vec<(String, usize)>, hash: &str) -> (r: Option<usize>)
    ensures
        r matches Some(k) ==> exists|i: int|
            0 <= i < index@.len() && #[trigger] index_view(index@)[i] == (hash@, k),
        r is None ==> forall|i: int| 0 <= i < index@.len() ==> #[trigger] index_view(index@)[i].0 != hash@,
{
    index.par_iter().find_map_any(|e| index_entry_match(e, hash))
}

/// `par_iter().filter(..).collect()` (rayon) over the tiles: the tiles with
/// a tag like `tag_lower`, in their order (rayon's collect keeps the order).
#[verifier::external_body]
fn par_filter_by_tag<'a>(tiles: &'a Vec<Tile>, tag_lower: &str) -> (r: Vec<&'a Tile>)
    ensures
        r@.map_values(|t: &Tile| t@) == tiles_with_tag(tile_views(tiles@), tag_lower@),
{
    tiles.par_iter().filter(|t| tile_has_tag(t, tag_lower)).collect()
}

/// `par_iter().flat_map(..).collect()` (rayon) over the tiles: all tags,
/// tile by tile, in order.
#[verifier::external_body]
fn par_collect_tags(tiles: &Vec<Tile>) -> (r: Vec<String>)
    ensures
        r.deep_view() == tags_of(tile_views(tiles@)),
{
    tiles.par_iter().flat_map(|t| tag_list(t)).collect()
}

/// A PLATO room: a named collection of tiles within a domain.
#[derive(Debug, Clone)]
pub struct Room {
    pub id: String,
    pub domain: String,
    pub tiles: Vec<Tile>,
    pub created_at: i64,
    /// Content hash and position of each tile, for dedup lookups.
    pub hash_index: Vec<(TileHash, usize)>,
}

/// Room statistics (the mean confidence is computed where floating point
/// is available).
#[derive(Debug, Clone)]
pub struct RoomStats {
    pub id: String,
    pub domain: String,
    pub tile_count: usize,
    pub tag_count: usize,
    pub created_at: i64,
}

impl Room {
    pub open spec fn view(&self) -> RoomView {
        RoomView {
            id: self.id@,
            domain: self.domain@,
            tiles: tile_views(self.tiles@),
            created_at: self.created_at,
            hash_index: index_view(self.hash_index@),
        }
    }

    /// An empty room, created now.
    pub fn new(id: &str, domain: &str) -> (r: Self)
        ensures
            r@.id == id@,
            r@.domain == domain@,
            r@.tiles == Seq::<TileView>::empty(),
            r@.hash_index == Seq::<(Seq<char>, usize)>::empty(),
            r@.created_at >= 0,
            room_wf(r@),
    {
        let r = Room {
            id: String::from_str(id),
            domain: String::from_str(domain),
            tiles: Vec::new(),
            created_at: unix_now(),
            hash_index: Vec::new(),
        };
        assert(r@.tiles =~= Seq::<TileView>::empty());
        assert(r@.hash_index =~= Seq::<(Seq<char>, usize)>::empty());
        r
    }

    /// A copy of the room.
    pub fn duplicate(&self) -> (r: Self)
        ensures
            r@ == self@,
    {
        let mut tiles: Vec<Tile> = Vec::new();
        let mut i: usize = 0;
        while i < self.tiles.len()
            invariant
                i <= self.tiles.len(),
                tiles.len() == i,
                forall|j: int| 0 <= j < i ==> #[trigger] tiles@[j]@ == self.tiles@[j]@,
            decreases self.tiles.len() - i,
        {
            tiles.push(self.tiles[i].duplicate());
            i = i + 1;
        }
        let mut index: Vec<(TileHash, usize)> = Vec::new();
        let mut k: usize = 0;
        while k < self.hash_index.len()
            invariant
                k <= self.hash_index.len(),
                index.len() == k,
                forall|j: int|
                    #![trigger index@[j]]
                    0 <= j < k ==> index@[j].0@ == self.hash_index@[j].0@ && index@[j].1
                        == self.hash_index@[j].1,
            decreases self.hash_index.len() - k,
        {
            let e = &self.hash_index[k];
            let h = e.0.clone();
            let ghost before = index@;
            index.push((h, e.1));
            assert(index@[k as int] == (h, e.1));
            assert(e.0@ == self.hash_index@[k as int].0@);
            k = k + 1;
        }
        let r = Room {
            id: self.id.clone(),
            domain: self.domain.clone(),
            tiles,
            created_at: self.created_at,
            hash_index: index,
        };
        assert(r@.tiles =~= self@.tiles);
        assert(r@.hash_index =~= self@.hash_index);
        r
    }

    /// Number of tiles in this room.
    pub fn tile_count(&self) -> (n: usize)
        ensures
            n == self@.tiles.len(),
    {
        self.tiles.len()
    }

    /// Check if a tile with the given content hash already exists.
    pub fn has_tile_hash(&self, hash: &str) -> (b: bool)
        ensures
            b == holds_hash(self@, hash@),
    {
        let b = par_any_hash(&self.hash_index, hash);
        proof {
            let v = self@;
            if b {
                let i = choose|i: int|
                    0 <= i < self.hash_index@.len() && #[trigger] index_view(self.hash_index@)[i].0 == hash@;
                assert(v.hash_index[i].0 == hash@);
            } else {
                assert forall|i: int| 0 <= i < v.hash_index.len() implies #[trigger] v.hash_index[i].0
                    != hash@ by {
                    assert(index_view(self.hash_index@)[i].0 != hash@);
                }
            }
        }
        b
    }

    /// Insert a tile. Returns false, and leaves the room as it was, if a
    /// tile with the same content hash is already there.
    pub fn insert_tile(&mut self, tile: Tile) -> (added: bool)
        ensures
            room_wf(old(self)@) ==> room_wf(final(self)@),
            added == !holds_hash(old(self)@, content_hash_of(tile@)),
            !added ==> final(self)@ == old(self)@,
            added ==> final(self)@ == room_after_insert(old(self)@, tile@),
    {
        let hash = tile.content_hash();
        if self.has_tile_hash(hash.as_str()) {
            return false;
        }
        let idx = self.tiles.len();
        let ghost v0 = self@;
        self.hash_index.push((hash, idx));
        self.tiles.push(tile);
        proof {
            let v = self@;
            assert(v.tiles =~= v0.tiles.push(tile@));
            assert(v.hash_index =~= v0.hash_index.push((content_hash_of(tile@), idx)));
            if room_wf(v0) {
                assert forall|i: int, j: int|
                    0 <= i < j < v.tiles.len() implies #[trigger] v.hash_index[i].0 != #[trigger] v.hash_index[j].0 by {
                    if j == v.tiles.len() - 1 {
                        assert(v.hash_index[i] == v0.hash_index[i]);
                        assert(v0.hash_index[i].0 != content_hash_of(tile@));
                    } else {
                        assert(v.hash_index[i] == v0.hash_index[i]);
                        assert(v.hash_index[j] == v0.hash_index[j]);
                    }
                }
                assert forall|i: int| 0 <= i < v.tiles.len() implies #[trigger] v.hash_index[i] == (
                content_hash_of(v.tiles[i]), i as usize) by {
                    if i < v0.tiles.len() {
                        assert(v.hash_index[i] == v0.hash_index[i]);
                        assert(v.tiles[i] == v0.tiles[i]);
                    }
                }
            }
        }
        true
    }

    /// Find a tile by content hash: the tile at the position recorded in an
    /// index entry with that hash (in a well-formed room, the one tile with
    /// that content).
    pub fn find_by_hash(&self, hash: &str) -> (r: Option<&Tile>)
        requires
            forall|i: int|
                0 <= i < self@.hash_index.len() && #[trigger] self@.hash_index[i].0 == hash@
                    ==> self@.hash_index[i].1 < self@.tiles.len(),
        ensures
            r is Some <==> holds_hash(self@, hash@),
            r matches Some(t) ==> exists|i: int|
                0 <= i < self@.hash_index.len() && #[trigger] self@.hash_index[i].0 == hash@ && t@
                    == self@.tiles[self@.hash_index[i].1 as int],
    {
        match par_find_hash(&self.hash_index, hash) {
            Some(idx) => {
                let ghost i = choose|i: int|
                    0 <= i < self.hash_index@.len() && #[trigger] index_view(self.hash_index@)[i] == (hash@, idx);
                assert(self@.hash_index[i] == index_view(self.hash_index@)[i]);
                assert(self@.hash_index[i].0 == hash@);
                Some(&self.tiles[idx])
            },
            None => {
                assert forall|i: int| 0 <= i < self@.hash_index.len() implies #[trigger] self@.hash_index[i].0
                    != hash@ by {
                    assert(index_view(self.hash_index@)[i].0 != hash@);
                }
                None
            },
        }
    }

    /// Query tiles by tag (case-insensitive substring match), in room order.
    pub fn query_by_tag(&self, tag: &str) -> (r: Vec<&Tile>)
        ensures
            r@.map_values(|t: &Tile| t@) == tiles_with_tag(self@.tiles, lowercase_chars(tag@)),
    {
        let tag_lower = lowercase(tag);
        par_filter_by_tag(&self.tiles, tag_lower.as_str())
    }

    /// All distinct tags in this room, in sorted order.
    pub fn all_tags(&self) -> (r: Vec<String>)
        ensures
            r.deep_view() == sorted_distinct(tags_of(self@.tiles)),
            strictly_sorted(r.deep_view(), text_order()),
            forall|y: Seq<char>| r.deep_view().contains(y) <==> tags_of(self@.tiles).contains(y),
    {
        let tags = par_collect_tags(&self.tiles);
        let ghost all = tags.deep_view();
        let mut r: Vec<String> = Vec::new();
        let mut i: usize = 0;
        while i < tags.len()
            invariant
                all == tags.deep_view(),
                i <= tags.len(),
                strictly_sorted(r.deep_view(), text_order()),
                forall|y: Seq<char>| r.deep_view().contains(y) <==> all.subrange(0, i as int).contains(y),
            decreases tags.len() - i,
        {
            let ghost pre = all.subrange(0, i as int);
            insert_sorted(&mut r, tags[i].clone());
            proof {
                let post = all.subrange(0, i + 1);
                assert(post =~= pre.push(all[i as int]));
                assert forall|y: Seq<char>| r.deep_view().contains(y) <==> post.contains(y) by {
                    if post.contains(y) {
                        let j = choose|j: int| 0 <= j < post.len() && post[j] == y;
                        if j < i {
                            assert(pre[j] == y);
                        }
                    }
                    if pre.contains(y) {
                        let j = choose|j: int| 0 <= j < pre.len() && pre[j] == y;
                        assert(post[j] == y);
                    }
                    if y == all[i as int] {
                        assert(post[i as int] == y);
                    }
                }
            }
            i = i + 1;
        }
        proof {
            assert(all.subrange(0, tags.len() as int) =~= all);
            lemma_text_lt_order();
            lemma_sorted_unique(r.deep_view(), sorted_distinct(all), text_order());
        }
        r
    }

    /// Room statistics.
    pub fn stats(&self) -> (s: RoomStats)
        ensures
            s.id@ == self@.id,
            s.domain@ == self@.domain,
            s.tile_count == self@.tiles.len(),
            s.tag_count == sorted_distinct(tags_of(self@.tiles)).len(),
            s.created_at == self@.created_at,
    {
        RoomStats {
            id: self.id.clone(),
            domain: self.domain.clone(),
            tile_count: self.tiles.len(),
            tag_count: self.all_tags().len(),
            created_at: self.created_at,
        }
    }
}

/// What a room becomes when a tile with new content is inserted.
pub open spec fn room_after_insert(r: RoomView, t: TileView) -> RoomView {
    RoomView {
        tiles: r.tiles.push(t),
        hash_index: r.hash_index.push((content_hash_of(t), r.tiles.len() as usize)),
        ..r
    }
}

/// Reading back a write: once a tile with new content is inserted, the
/// room holds its content hash, every index entry with that hash leads to
/// that very tile (so a lookup by hash finds it), the tile count has grown
/// by one, and inserting a tile with the same content again is refused.
pub proof fn lemma_insert_then_find(r: RoomView, t: TileView)
    requires
        room_wf(r),
        !holds_hash(r, content_hash_of(t)),
    ensures
        room_wf(room_after_insert(r, t)),
        holds_hash(room_after_insert(r, t), content_hash_of(t)),
        forall|i: int|
            0 <= i < room_after_insert(r, t).tiles.len() && #[trigger] room_after_insert(r, t).hash_index[i].0
                == content_hash_of(t) ==> room_after_insert(r, t).tiles[i] == t,
        room_after_insert(r, t).tiles.len() == r.tiles.len() + 1,
{
    let r2 = room_after_insert(r, t);
    let n = r.tiles.len();
    assert(r2.hash_index[n as int].0 == content_hash_of(t));
    assert forall|i: int|
        0 <= i < r2.tiles.len() && #[trigger] r2.hash_index[i].0 == content_hash_of(t) implies r2.tiles[i]
            == t by {
        if i < n {
            assert(r2.hash_index[i] == r.hash_index[i]);
            assert(r.hash_index[i].0 == content_hash_of(t));
        }
    }
    assert forall|i: int, j: int|
        0 <= i < j < r2.tiles.len() implies #[trigger] r2.hash_index[i].0 != #[trigger] r2.hash_index[j].0 by {
        assert(r2.hash_index[i] == r.hash_index[i]);
        if j < n {
            assert(r2.hash_index[j] == r.hash_index[j]);
        }
    }
    assert forall|i: int| 0 <= i < r2.tiles.len() implies #[trigger] r2.hash_index[i] == (
    content_hash_of(r2.tiles[i]), i as usize) by {
        if i < n {
            assert(r2.hash_index[i] == r.hash_index[i]);
            assert(r2.tiles[i] == r.tiles[i]);
        }
    }
}

} // verus!
