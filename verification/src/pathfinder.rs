//! Navigation between rooms: two rooms are adjacent when they share a tag
//! or a domain; paths are found breadth-first (shortest first) and
//! explored depth-first (strongest connection first).

use vstd::prelude::*;

use crate::engine::PlatoEngine;
use crate::gate::{lemma_sorted_distinct, sorted_distinct, text_order};
use crate::graph::{
    build_adjacency, connected, edge_between, edges_upto, shared_between, explore, first_in_edge_order,
    lemma_common_tags_members, lemma_common_tags_nonempty, lemma_edges_upto_increasing,
    lemma_edges_upto_targets, lemma_edges_upto_values, shortest_path, step_target, Adjacency, RoomSummary,
};
use crate::room::{tags_of, RoomView};
use crate::text::{copy_strings, lemma_text_lt_order, same_text};

verus! {

/// A hop between rooms in a path.
#[derive(Debug, Clone)]
pub struct RoomHop {
    pub from: String,
    pub to: String,
    /// Connection strength counted in halves: twice the number of shared
    /// tags, plus one when the rooms share their domain.
    pub strength_halves: u128,
    pub shared_tags: Vec<String>,
}

impl RoomHop {
    pub open spec fn view(&self) -> (Seq<char>, Seq<char>, u128, Seq<Seq<char>>) {
        (self.from@, self.to@, self.strength_halves, self.shared_tags.deep_view())
    }
}

/// The hop that edge `e` of node `u` makes, as plain values.
pub open spec fn hop_view(g: &Adjacency, names: Seq<Seq<char>>, step: (usize, usize)) -> (
    Seq<char>,
    Seq<char>,
    u128,
    Seq<Seq<char>>,
) {
    let (u, e) = step;
    (
        names[u as int],
        names[g.target(u as int, e as int)],
        g.strength(u as int, e as int),
        g.lists@[u as int]@[e as int].shared_tags.deep_view(),
    )
}

/// The hops that a chain of edges makes.
pub open spec fn hop_views(g: &Adjacency, names: Seq<Seq<char>>, steps: Seq<(usize, usize)>) -> Seq<
    (Seq<char>, Seq<char>, u128, Seq<Seq<char>>),
> {
    steps.map_values(|st: (usize, usize)| hop_view(g, names, st))
}

/// The tags of a room: each tag of its tiles once, in sorted order (what
/// `Room::all_tags` gives).
pub open spec fn room_tags(r: RoomView) -> Seq<Seq<char>> {
    sorted_distinct(tags_of(r.tiles))
}

/// Rooms `a` and `b` share a tag or a domain.
pub open spec fn rooms_linked(rooms: Map<Seq<char>, RoomView>, a: Seq<char>, b: Seq<char>) -> bool {
    ||| exists|t: Seq<char>| room_tags(rooms[a]).contains(t) && room_tags(rooms[b]).contains(t)
    ||| rooms[a].domain == rooms[b].domain
}

/// What the graph is built from: each named room with its tags and domain.
pub open spec fn room_summaries(names: Seq<Seq<char>>, rooms: Map<Seq<char>, RoomView>) -> Seq<
    (Seq<char>, Seq<Seq<char>>, Seq<char>),
> {
    names.map_values(|k: Seq<char>| (k, room_tags(rooms[k]), rooms[k].domain))
}

/// Being linked is symmetric: `a` shares a tag or a domain with `b`
/// exactly when `b` does with `a`.
pub proof fn lemma_rooms_linked_symmetric(rooms: Map<Seq<char>, RoomView>, a: Seq<char>, b: Seq<char>)
    ensures
        rooms_linked(rooms, a, b) == rooms_linked(rooms, b, a),
{
}

/// Two summarized rooms are connected exactly when the rooms they stand for
/// are linked.
proof fn lemma_connected_is_linked(names: Seq<Seq<char>>, rooms: Map<Seq<char>, RoomView>, i: int, j: int)
    requires
        0 <= i < names.len(),
        0 <= j < names.len(),
    ensures
        connected(room_summaries(names, rooms), i, j) == rooms_linked(rooms, names[i], names[j]),
{
    let sm = room_summaries(names, rooms);
    assert(sm[i] == (names[i], room_tags(rooms[names[i]]), rooms[names[i]].domain));
    assert(sm[j] == (names[j], room_tags(rooms[names[j]]), rooms[names[j]].domain));
    lemma_common_tags_nonempty(room_tags(rooms[names[i]]), room_tags(rooms[names[j]]));
    lemma_common_tags_nonempty(room_tags(rooms[names[j]]), room_tags(rooms[names[i]]));
}

/// The rooms that node `u`'s edges lead to, by name, are each room linked
/// to it, once.
proof fn lemma_neighbor_names(g: &Adjacency, names: Seq<Seq<char>>, rooms: Map<Seq<char>, RoomView>, u: int)
    requires
        g.is_adjacency_of(room_summaries(names, rooms)),
        names.no_duplicates(),
        forall|k: Seq<char>| names.contains(k) <==> rooms.dom().contains(k),
        0 <= u < names.len(),
        names.len() <= usize::MAX,
    ensures
        g.edges_view(u).map_values(|e: (usize, u128, Seq<Seq<char>>)| names[e.0 as int]).no_duplicates(),
        forall|b: Seq<char>|
            g.edges_view(u).map_values(|e: (usize, u128, Seq<Seq<char>>)| names[e.0 as int]).contains(b) <==> (
            rooms.dom().contains(b) && b != names[u] && rooms_linked(rooms, names[u], b)),
{
    let sm = room_summaries(names, rooms);
    let n = names.len() as int;
    let ev = g.edges_view(u);
    let nb = ev.map_values(|e: (usize, u128, Seq<Seq<char>>)| names[e.0 as int]);
    assert(ev == edges_upto(sm, u, n));
    lemma_edges_upto_increasing(sm, u, n);
    assert forall|i: int, j: int| 0 <= i < nb.len() && 0 <= j < nb.len() && i != j implies nb[i] != nb[j] by {
        assert(nb[i] == names[ev[i].0 as int]);
        assert(nb[j] == names[ev[j].0 as int]);
        if i < j {
            assert(ev[i].0 < ev[j].0);
        } else {
            assert(ev[j].0 < ev[i].0);
        }
        assert(ev[i].0 < n && ev[j].0 < n);
    }
    assert forall|b: Seq<char>| nb.contains(b) <==> (rooms.dom().contains(b) && b != names[u] && rooms_linked(
        rooms,
        names[u],
        b,
    )) by {
        if nb.contains(b) {
            let i = choose|i: int| 0 <= i < nb.len() && nb[i] == b;
            let j = ev[i].0 as int;
            assert(nb[i] == names[j]);
            lemma_edges_upto_targets(sm, u, n, j);
            assert(edges_upto(sm, u, n)[i].0 == j);
            lemma_connected_is_linked(names, rooms, u, j);
            assert(names.contains(names[j]));
        }
        if rooms.dom().contains(b) && b != names[u] && rooms_linked(rooms, names[u], b) {
            assert(names.contains(b));
            let j = choose|j: int| 0 <= j < names.len() && names[j] == b;
            lemma_connected_is_linked(names, rooms, u, j);
            lemma_edges_upto_targets(sm, u, n, j);
            let e = choose|e: int| 0 <= e < edges_upto(sm, u, n).len() && #[trigger] edges_upto(sm, u, n)[e].0 == j;
            assert(nb[e] == b);
        }
    }
}

/// The number of tags two rooms share.
pub open spec fn shared_tag_count(rooms: Map<Seq<char>, RoomView>, a: Seq<char>, b: Seq<char>) -> nat {
    room_tags(rooms[a]).to_set().intersect(room_tags(rooms[b]).to_set()).len()
}

/// A room's tags hold no tag twice.
proof fn lemma_room_tags_distinct(r: RoomView)
    ensures
        room_tags(r).no_duplicates(),
{
    lemma_sorted_distinct(tags_of(r.tiles));
    lemma_text_lt_order();
    let s = room_tags(r);
    assert forall|i: int, j: int| 0 <= i < s.len() && 0 <= j < s.len() && i != j implies s[i] != s[j] by {
        if i < j {
            assert(text_order()(s[i], s[j]));
        } else {
            assert(text_order()(s[j], s[i]));
        }
    }
}

/// Pathfinder: finds paths between rooms through tag and domain connections.
pub struct Pathfinder<'a> {
    engine: &'a PlatoEngine,
    names: Vec<String>,
    graph: Adjacency,
}

/// In a list without duplicates, an element's index is its position.
pub proof fn lemma_index_of_distinct(names: Seq<Seq<char>>, i: int)
    requires
        names.no_duplicates(),
        0 <= i < names.len(),
    ensures
        names.index_of(names[i]) == i,
        names.contains(names[i]),
{
    assert(names.contains(names[i]));
}

fn index_of(names: &Vec<String>, name: &str) -> (r: Option<usize>)
    ensures
        r matches Some(i) ==> i < names.len() && names.deep_view()[i as int] == name@,
        r is None ==> !names.deep_view().contains(name@),
{
    let mut i: usize = 0;
    while i < names.len()
        invariant
            i <= names.len(),
            forall|j: int| 0 <= j < i ==> names.deep_view()[j] != name@,
        decreases names.len() - i,
    {
        if same_text(names[i].as_str(), name) {
            return Some(i);
        }
        i = i + 1;
    }
    None
}

impl<'a> Pathfinder<'a> {
    /// Room ids by node.
    pub closed spec fn node_names(&self) -> Seq<Seq<char>> {
        self.names.deep_view()
    }

    /// The adjacency graph.
    pub closed spec fn adjacency(&self) -> &Adjacency {
        &self.graph
    }

    /// The node named `name`.
    pub open spec fn node_of(&self, name: Seq<char>) -> int {
        self.node_names().index_of(name)
    }

    /// The engine's rooms, by id.
    pub closed spec fn rooms(&self) -> Map<Seq<char>, RoomView> {
        self.engine.rooms()
    }

    /// Each edge joins two different rooms; its strength, in halves, is
    /// twice the number of tags the two rooms share, plus one when their
    /// domains agree; and its shared tags are exactly the tags both rooms
    /// have, each once.
    pub proof fn lemma_edge_strength(&self, u: int, e: int)
        requires
            self.wf(),
            0 <= u < self.adjacency().node_count(),
            0 <= e < self.adjacency().degree(u),
        ensures
            ({
                let a = self.node_names()[u];
                let b = self.node_names()[self.adjacency().target(u, e)];
                let shared = self.adjacency().lists@[u]@[e].shared_tags.deep_view();
                &&& a != b
                &&& self.rooms().dom().contains(a)
                &&& self.rooms().dom().contains(b)
                &&& self.adjacency().strength(u, e) == 2 * shared_tag_count(self.rooms(), a, b) + if self.rooms()[a].domain
                    == self.rooms()[b].domain {
                    1int
                } else {
                    0int
                }
                &&& shared.no_duplicates()
                &&& forall|t: Seq<char>|
                    shared.contains(t) <==> room_tags(self.rooms()[a]).contains(t) && room_tags(
                        self.rooms()[b],
                    ).contains(t)
            }),
    {
        let names = self.node_names();
        let rooms = self.rooms();
        let g = self.adjacency();
        let n = names.len() as int;
        let sm = room_summaries(names, rooms);
        assert(names.len() == self.names@.len());
        assert(g.edges_view(u) == edges_upto(sm, u, n));
        lemma_edges_upto_values(sm, u, n);
        lemma_edges_upto_increasing(sm, u, n);
        let ev = g.edges_view(u);
        assert(ev[e] == g.lists@[u]@[e]@);
        let j = ev[e].0 as int;
        assert(ev[e] == edge_between(sm, u, j));
        lemma_edges_upto_targets(sm, u, n, j);
        assert(edges_upto(sm, u, n)[e].0 == j);
        let a = names[u];
        let b = names[j];
        assert(sm[u] == (a, room_tags(rooms[a]), rooms[a].domain));
        assert(sm[j] == (b, room_tags(rooms[b]), rooms[b].domain));
        assert(names.contains(a));
        assert(names.contains(b));
        lemma_room_tags_distinct(rooms[a]);
        lemma_room_tags_distinct(rooms[b]);
        let ta = room_tags(rooms[a]);
        let tb = room_tags(rooms[b]);
        lemma_common_tags_members(ta, tb);
        lemma_common_tags_members(tb, ta);
        assert(ta.to_set().intersect(tb.to_set()) =~= tb.to_set().intersect(ta.to_set()));
        assert(j == g.target(u, e));
        assert(0 <= j < n && j != u);
        assert(a != b);
        let sh = shared_between(sm, u, j);
        assert(sh.len() == shared_tag_count(rooms, a, b));
        assert(g.strength(u, e) == ev[e].1);
        let st = g.lists@[u]@[e].shared_tags;
        assert(st.len() == st@.len());
        assert(st.deep_view().len() == st@.len());
        assert(sh == st.deep_view());
        assert(ev[e].1 == 2 * sh.len() + if rooms[a].domain == rooms[b].domain {
            1int
        } else {
            0int
        });
        assert(g.lists@[u]@[e].shared_tags.deep_view() == sh);
    }

    /// The graph's edges lead to its nodes, there is one node per room id,
    /// no room id occurs twice, and the graph is the adjacency of the
    /// engine's rooms.
    #[verifier::type_invariant]
    pub closed spec fn wf(&self) -> bool {
        &&& self.graph.wf()
        &&& self.graph.node_count() == self.names@.len()
        &&& self.names@.len() <= usize::MAX
        &&& self.names.deep_view().no_duplicates()
        &&& forall|k: Seq<char>| self.node_names().contains(k) <==> self.rooms().dom().contains(k)
        &&& self.graph.is_adjacency_of(room_summaries(self.node_names(), self.rooms()))
    }

    fn hops_of(&self, steps: &Vec<(usize, usize)>) -> (r: Vec<RoomHop>)
        requires
            self.wf(),
            forall|i: int|
                0 <= i < steps@.len() ==> #[trigger] steps@[i].0 < self.names@.len() && steps@[i].1
                    < self.graph.degree(steps@[i].0 as int),
        ensures
            r@.map_values(|h: RoomHop| h@) == hop_views(&self.graph, self.node_names(), steps@),
    {
        let mut r: Vec<RoomHop> = Vec::new();
        let mut i: usize = 0;
        while i < steps.len()
            invariant
                self.wf(),
                forall|i: int|
                    0 <= i < steps@.len() ==> #[trigger] steps@[i].0 < self.names@.len() && steps@[i].1
                        < self.graph.degree(steps@[i].0 as int),
                i <= steps.len(),
                r.len() == i,
                forall|j: int| 0 <= j < i ==> #[trigger] r@[j]@ == hop_view(&self.graph, self.node_names(), steps@[j]),
            decreases steps.len() - i,
        {
            let (u, e) = steps[i];
            let edge = &self.graph.lists[u][e];
            assert(0 <= self.graph.target(u as int, e as int) < self.graph.node_count());
            let hop = RoomHop {
                from: self.names[u].clone(),
                to: self.names[edge.target].clone(),
                strength_halves: edge.strength_halves,
                shared_tags: copy_strings(&edge.shared_tags),
            };
            r.push(hop);
            i = i + 1;
        }
        assert(r@.map_values(|h: RoomHop| h@) =~= hop_views(&self.graph, self.node_names(), steps@));
        r
    }

    /// Builds the adjacency of the engine's rooms. Each room is a node,
    /// described by its id, its distinct tags in sorted order and its
    /// domain; two rooms are adjacent when they share a tag or a domain.
    pub fn new(engine: &'a PlatoEngine) -> (p: Self)
        ensures
            p.rooms() == engine.rooms(),
            p.node_names().no_duplicates(),
            forall|k: Seq<char>| p.node_names().contains(k) <==> engine.rooms().dom().contains(k),
            p.adjacency().is_adjacency_of(room_summaries(p.node_names(), engine.rooms())),
    {
        let ids = engine.list_rooms(None);
        let ghost iv = ids.deep_view();
        let mut rooms: Vec<RoomSummary> = Vec::new();
        let mut names: Vec<String> = Vec::new();
        let mut i: usize = 0;
        while i < ids.len()
            invariant
                iv == ids.deep_view(),
                forall|k: Seq<char>| iv.contains(k) <==> engine.rooms().dom().contains(k),
                i <= ids.len(),
                rooms.len() == i,
                names.len() == i,
                forall|j: int| 0 <= j < i ==> #[trigger] names@[j]@ == iv[j],
                forall|j: int|
                    0 <= j < i ==> #[trigger] rooms@[j]@ == (
                        iv[j],
                        sorted_distinct(tags_of(engine.rooms()[iv[j]].tiles)),
                        engine.rooms()[iv[j]].domain,
                    ),
            decreases ids.len() - i,
        {
            assert(iv.contains(iv[i as int]));
            match engine.get_room(ids[i].as_str()) {
                Some(room) => {
                    let tags = room.all_tags();
                    rooms.push(RoomSummary { id: ids[i].clone(), tags, domain: room.domain.clone() });
                    names.push(ids[i].clone());
                },
                None => {
                    assert(false);
                },
            }
            i = i + 1;
        }
        let graph = build_adjacency(&rooms);
        proof {
            assert(names.deep_view() =~= iv);
            let sums = rooms@.map_values(|r: RoomSummary| r@);
            assert(sums =~= room_summaries(names.deep_view(), engine.rooms()));
        }
        let p = Pathfinder { engine, names, graph };
        p
    }

    /// Neighboring rooms (connected by shared tags or domain), in node order:
    /// each other room that shares a tag or a domain with the room, once.
    pub fn neighbors(&self, room_id: &str) -> (r: Vec<String>)
        ensures
            r.deep_view().no_duplicates(),
            forall|b: Seq<char>|
                r.deep_view().contains(b) <==> (self.rooms().dom().contains(room_id@) && self.rooms().dom().contains(b)
                    && b != room_id@ && rooms_linked(self.rooms(), room_id@, b)),
            !self.node_names().contains(room_id@) ==> r@.len() == 0,
            self.node_names().contains(room_id@) ==> r.deep_view() == self.adjacency().edges_view(
                self.node_of(room_id@),
            ).map_values(|e: (usize, u128, Seq<Seq<char>>)| self.node_names()[e.0 as int]),
    {
        proof {
            use_type_invariant(self);
        }
        match index_of(&self.names, room_id) {
            Some(u) => {
                proof {
                    lemma_index_of_distinct(self.names.deep_view(), u as int);
                }
                let edges = &self.graph.lists[u];
                let mut r: Vec<String> = Vec::new();
                let mut k: usize = 0;
                while k < edges.len()
                    invariant
                        self.wf(),
                        u < self.names@.len(),
                        edges@ == self.graph.lists@[u as int]@,
                        k <= edges.len(),
                        r.len() == k,
                        forall|j: int| 0 <= j < k ==> #[trigger] r@[j]@ == self.node_names()[edges@[j].target as int],
                    decreases edges.len() - k,
                {
                    assert(0 <= self.graph.target(u as int, k as int) < self.graph.node_count());
                    r.push(self.names[edges[k].target].clone());
                    k = k + 1;
                }
                assert(r.deep_view() =~= self.adjacency().edges_view(u as int).map_values(
                    |e: (usize, u128, Seq<Seq<char>>)| self.node_names()[e.0 as int],
                ));
                proof {
                    lemma_neighbor_names(&self.graph, self.node_names(), self.rooms(), u as int);
                    assert(self.node_names().contains(room_id@));
                }
                r
            },
            None => Vec::new(),
        }
    }

    /// Find a path between two rooms using breadth-first search: a shortest
    /// path of at most `max_hops` hops, or no hops when the rooms are the
    /// same or none is within reach. Among shortest paths it is the one that
    /// breadth-first search in edge order meets first: the first in edge
    /// order (at the first hop where two paths differ, the one taking the
    /// room's earlier connection comes first).
    pub fn find_path(&self, from: &str, to: &str, max_hops: usize) -> (r: Vec<RoomHop>)
        ensures
            from@ == to@ ==> r@.len() == 0,
            r@.len() > 0 ==> {
                let g = self.adjacency();
                let s = self.node_of(from@);
                let t = self.node_of(to@);
                &&& self.node_names().contains(from@)
                &&& self.node_names().contains(to@)
                &&& r@.len() <= max_hops
                &&& exists|steps: Seq<(usize, usize)>|
                    g.is_path(s, t, steps) && first_in_edge_order(g, s, t, steps) && steps.len() == r@.len()
                        && r@.map_values(|h: RoomHop| h@) == hop_views(g, self.node_names(), steps)
                &&& forall|m: nat| m < r@.len() ==> !#[trigger] g.walk(s, t, m)
            },
            r@.len() == 0 && from@ != to@ && self.node_names().contains(from@) && self.node_names().contains(
                to@,
            ) ==> forall|m: nat|
                m <= max_hops ==> !#[trigger] self.adjacency().walk(
                    self.node_of(from@),
                    self.node_of(to@),
                    m,
                ),
    {
        proof {
            use_type_invariant(self);
        }
        if same_text(from, to) {
            return Vec::new();
        }
        let s = match index_of(&self.names, from) {
            Some(s) => s,
            None => {
                return Vec::new();
            },
        };
        let t = match index_of(&self.names, to) {
            Some(t) => t,
            None => {
                return Vec::new();
            },
        };
        proof {
            lemma_index_of_distinct(self.names.deep_view(), s as int);
            lemma_index_of_distinct(self.names.deep_view(), t as int);
        }
        let steps = shortest_path(&self.graph, s, t, max_hops);
        proof {
            assert forall|i: int| 0 <= i < steps@.len() implies #[trigger] steps@[i].0 < self.names@.len()
                && steps@[i].1 < self.graph.degree(steps@[i].0 as int) by {}
        }
        let r = self.hops_of(&steps);
        proof {
            assert(r@.map_values(|h: RoomHop| h@).len() == r@.len());
            assert(hop_views(&self.graph, self.node_names(), steps@).len() == steps@.len());
            assert(r@.len() == steps@.len());
            if r@.len() > 0 {
                let g = self.adjacency();
                assert(self.node_of(from@) == s);
                assert(self.node_of(to@) == t);
                assert(exists|st: Seq<(usize, usize)>|
                    g.is_path(s as int, t as int, st) && first_in_edge_order(g, s as int, t as int, st)
                        && st.len() == r@.len() && r@.map_values(|h: RoomHop| h@) == hop_views(
                        g,
                        self.node_names(),
                        st,
                    ));
            }
        }
        r
    }

    /// Depth-first traversal from a room, up to `max_depth` hops deep: the
    /// strongest connection of a room is explored first, and each room is
    /// entered at most once.
    pub fn traverse(&self, from: &str, max_depth: usize) -> (r: Vec<RoomHop>)
        ensures
            !self.node_names().contains(from@) ==> r@.len() == 0,
            self.node_names().contains(from@) ==> r@.map_values(|h: RoomHop| h@) == hop_views(
                self.adjacency(),
                self.node_names(),
                self.adjacency().explore(
                    self.node_of(from@),
                    0,
                    max_depth as int,
                    Seq::new(self.adjacency().node_count() as nat, |i: int| i == self.node_of(from@)),
                ).1,
            ),
            forall|i: int| 0 <= i < r@.len() ==> (#[trigger] r@[i]).to@ != from@,
            forall|i: int, j: int| 0 <= i < j < r@.len() ==> (#[trigger] r@[i]).to@ != (#[trigger] r@[j]).to@,
    {
        proof {
            use_type_invariant(self);
        }
        match index_of(&self.names, from) {
            Some(s) => {
                proof {
                    lemma_index_of_distinct(self.names.deep_view(), s as int);
                }
                let steps = explore(&self.graph, s, max_depth);
                let r = self.hops_of(&steps);
                proof {
                    let names = self.node_names();
                    assert(names.len() == self.names@.len());
                    assert(r@.map_values(|h: RoomHop| h@).len() == r@.len());
                    assert(hop_views(&self.graph, names, steps@).len() == steps@.len());
                    assert(r@.len() == steps@.len());
                    assert forall|i: int| 0 <= i < r@.len() implies (#[trigger] r@[i]).to@ != from@ by {
                        assert(hop_views(&self.graph, names, steps@)[i] == hop_view(&self.graph, names, steps@[i]));
                        assert(r@.map_values(|h: RoomHop| h@)[i] == r@[i]@);
                        let t = step_target(&self.graph, steps@[i]);
                        assert(steps@[i].0 < self.graph.node_count() && steps@[i].1 < self.graph.degree(steps@[i].0 as int));
                        assert(0 <= t < names.len());
                        assert(t != s);
                    }
                    assert forall|i: int, j: int| 0 <= i < j < r@.len() implies (#[trigger] r@[i]).to@
                        != (#[trigger] r@[j]).to@ by {
                        assert(hop_views(&self.graph, names, steps@)[i] == hop_view(&self.graph, names, steps@[i]));
                        assert(hop_views(&self.graph, names, steps@)[j] == hop_view(&self.graph, names, steps@[j]));
                        assert(r@.map_values(|h: RoomHop| h@)[i] == r@[i]@);
                        assert(r@.map_values(|h: RoomHop| h@)[j] == r@[j]@);
                        assert(steps@[i].0 < self.graph.node_count() && steps@[i].1 < self.graph.degree(steps@[i].0 as int));
                        assert(steps@[j].0 < self.graph.node_count() && steps@[j].1 < self.graph.degree(steps@[j].0 as int));
                        let ti = step_target(&self.graph, steps@[i]);
                        let tj = step_target(&self.graph, steps@[j]);
                        assert(0 <= ti < names.len() && 0 <= tj < names.len());
                        assert(ti != tj);
                    }
                }
                r
            },
            None => Vec::new(),
        }
    }
}

} // verus!
