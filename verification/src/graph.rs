//! The room adjacency graph on node indices, with its breadth-first
//! shortest-path search and its depth-first traversal.
//!
//! Nodes are numbered `0..n`; node `u` has an ordered list of edges, each
//! naming its target node, its strength (in halves) and the tags that the
//! two rooms share.

use vstd::prelude::*;

verus! {

/// An edge of the room graph.
pub struct Edge {
    /// Index of the node the edge leads to.
    pub target: usize,
    /// Connection strength, counted in halves (the strength is this / 2).
    pub strength_halves: u128,
    /// Tags shared by the two rooms.
    pub shared_tags: Vec<String>,
}

/// Adjacency lists indexed by node.
pub struct Adjacency {
    pub lists: Vec<Vec<Edge>>,
}

impl Adjacency {
    /// Number of nodes.
    pub open spec fn node_count(&self) -> int {
        self.lists@.len() as int
    }

    /// Number of edges leaving node `u`.
    pub open spec fn degree(&self, u: int) -> int {
        self.lists@[u]@.len() as int
    }

    /// The node that edge `e` of node `u` leads to.
    pub open spec fn target(&self, u: int, e: int) -> int {
        self.lists@[u]@[e].target as int
    }

    /// Every edge leads to a node of the graph.
    pub open spec fn wf(&self) -> bool {
        forall|u: int, e: int|
            0 <= u < self.node_count() && 0 <= e < self.degree(u) ==> 0 <= #[trigger] self.target(u, e)
                < self.node_count()
    }

    /// Some edge of `a` leads to `b`.
    pub open spec fn has_edge(&self, a: int, b: int) -> bool {
        &&& 0 <= a < self.node_count()
        &&& exists|e: int| 0 <= e < self.degree(a) && #[trigger] self.target(a, e) == b
    }

    /// `ns` lists the nodes of a walk of `m` edges from `s` to `t`.
    pub open spec fn is_node_walk(&self, ns: Seq<int>, s: int, t: int, m: nat) -> bool {
        &&& ns.len() == m + 1
        &&& ns[0] == s
        &&& ns[m as int] == t
        &&& 0 <= s < self.node_count()
        &&& forall|i: int| 0 <= i < m ==> #[trigger] self.has_edge(ns[i], ns[i + 1])
    }

    /// There is a walk of exactly `m` edges from `s` to `t`.
    pub open spec fn walk(&self, s: int, t: int, m: nat) -> bool {
        exists|ns: Seq<int>| #[trigger] self.is_node_walk(ns, s, t, m)
    }

    /// `p` is a chain of edges, given as (node, edge index) pairs, starting at `s`.
    pub open spec fn is_path_from(&self, s: int, p: Seq<(usize, usize)>) -> bool {
        forall|i: int|
            0 <= i < p.len() ==> {
                &&& 0 <= #[trigger] p[i].0 < self.node_count()
                &&& p[i].1 < self.degree(p[i].0 as int)
                &&& (i == 0 ==> p[i].0 == s)
                &&& (i > 0 ==> p[i].0 == self.target(p[i - 1].0 as int, p[i - 1].1 as int))
            }
    }

    /// The node where the chain `p` from `s` ends.
    pub open spec fn path_end(&self, s: int, p: Seq<(usize, usize)>) -> int {
        if p.len() == 0 {
            s
        } else {
            self.target(p.last().0 as int, p.last().1 as int)
        }
    }

    /// `p` is a chain of edges from `s` to `t`.
    pub open spec fn is_path(&self, s: int, t: int, p: Seq<(usize, usize)>) -> bool {
        self.is_path_from(s, p) && self.path_end(s, p) == t
    }

    /// A chain of edges is a walk of its length.
    pub proof fn lemma_path_is_walk(&self, s: int, p: Seq<(usize, usize)>)
        requires
            self.wf(),
            0 <= s < self.node_count(),
            self.is_path_from(s, p),
        ensures
            self.walk(s, self.path_end(s, p), p.len()),
            0 <= self.path_end(s, p) < self.node_count(),
        decreases p.len(),
    {
        if p.len() == 0 {
            lemma_walk_empty(self, s);
        } else {
            let q = p.drop_last();
            assert(self.is_path_from(s, q));
            self.lemma_path_is_walk(s, q);
            let last = p.last();
            assert(p[p.len() - 1] == last);
            if p.len() > 1 {
                assert(q.last() == p[p.len() - 2]);
            }
            assert(self.path_end(s, q) == last.0);
            assert(0 <= self.target(last.0 as int, last.1 as int) < self.node_count());
            assert(self.has_edge(last.0 as int, self.path_end(s, p)));
            lemma_walk_extend(self, s, last.0 as int, self.path_end(s, p), q.len());
        }
    }

    /// Extending a chain by an edge of its end node.
    pub proof fn lemma_path_extend(&self, s: int, p: Seq<(usize, usize)>, u: usize, e: usize)
        requires
            self.is_path(s, u as int, p),
            0 <= s < self.node_count(),
            u < self.node_count(),
            e < self.degree(u as int),
        ensures
            self.is_path(s, self.target(u as int, e as int), p.push((u, e))),
    {
        let q = p.push((u, e));
        assert forall|i: int| 0 <= i < q.len() implies {
            &&& 0 <= #[trigger] q[i].0 < self.node_count()
            &&& q[i].1 < self.degree(q[i].0 as int)
            &&& (i == 0 ==> q[i].0 == s)
            &&& (i > 0 ==> q[i].0 == self.target(q[i - 1].0 as int, q[i - 1].1 as int))
        } by {
            if i < p.len() {
                assert(q[i] == p[i]);
                if i > 0 {
                    assert(q[i - 1] == p[i - 1]);
                }
            } else {
                if i > 0 {
                    assert(q[i - 1] == p.last());
                }
            }
        }
    }
}

/// A walk of `m > 0` edges ends with an edge from some node that a walk of
/// `m - 1` edges reaches.
pub proof fn lemma_walk_last_step(g: &Adjacency, s: int, v: int, m: nat)
    requires
        g.walk(s, v, m),
        m > 0,
    ensures
        exists|p: int| #[trigger] g.walk(s, p, (m - 1) as nat) && g.has_edge(p, v),
{
    let ns = choose|ns: Seq<int>| #[trigger] g.is_node_walk(ns, s, v, m);
    let ms = ns.drop_last();
    let p = ns[m - 1];
    assert(g.has_edge(ns[m - 1], ns[(m - 1) + 1]));
    assert forall|i: int| 0 <= i < m - 1 implies #[trigger] g.has_edge(ms[i], ms[i + 1]) by {
        assert(g.has_edge(ns[i], ns[i + 1]));
    }
    assert(g.is_node_walk(ms, s, p, (m - 1) as nat));
    assert(g.walk(s, p, (m - 1) as nat));
}

/// A walk extended by an edge is a walk one edge longer.
pub proof fn lemma_walk_extend(g: &Adjacency, s: int, p: int, t: int, m: nat)
    requires
        g.walk(s, p, m),
        g.has_edge(p, t),
    ensures
        g.walk(s, t, m + 1),
{
    let ns = choose|ns: Seq<int>| #[trigger] g.is_node_walk(ns, s, p, m);
    let ms = ns.push(t);
    assert forall|i: int| 0 <= i < m + 1 implies #[trigger] g.has_edge(ms[i], ms[i + 1]) by {
        if i < m {
            assert(g.has_edge(ns[i], ns[i + 1]));
        }
    }
    assert(g.is_node_walk(ms, s, t, m + 1));
}

/// A walk ends at a node of the graph.
pub proof fn lemma_walk_in_range(g: &Adjacency, s: int, t: int, m: nat)
    requires
        g.wf(),
        g.walk(s, t, m),
    ensures
        0 <= t < g.node_count(),
{
    let ns = choose|ns: Seq<int>| #[trigger] g.is_node_walk(ns, s, t, m);
    if m > 0 {
        assert(g.has_edge(ns[m - 1], ns[(m - 1) + 1]));
        let e = choose|e: int| 0 <= e < g.degree(ns[m - 1]) && #[trigger] g.target(ns[m - 1], e) == t;
    }
}

/// The empty walk.
pub proof fn lemma_walk_empty(g: &Adjacency, s: int)
    requires
        0 <= s < g.node_count(),
    ensures
        g.walk(s, s, 0),
{
    assert(g.is_node_walk(seq![s], s, s, 0));
}

/// A walk of no edges stays where it starts.
pub proof fn lemma_walk_zero(g: &Adjacency, s: int, t: int)
    requires
        g.walk(s, t, 0),
    ensures
        s == t,
{
    let ns = choose|ns: Seq<int>| #[trigger] g.is_node_walk(ns, s, t, 0);
}

/// Number of `true` entries.
pub open spec fn count_true(s: Seq<bool>) -> nat
    decreases s.len(),
{
    if s.len() == 0 {
        0
    } else {
        count_true(s.drop_last()) + if s.last() {
            1nat
        } else {
            0nat
        }
    }
}

proof fn lemma_count_true_bound(s: Seq<bool>)
    ensures
        count_true(s) <= s.len(),
    decreases s.len(),
{
    if s.len() > 0 {
        lemma_count_true_bound(s.drop_last());
    }
}

proof fn lemma_count_true_set(s: Seq<bool>, i: int)
    requires
        0 <= i < s.len(),
        !s[i],
    ensures
        count_true(s.update(i, true)) == count_true(s) + 1,
    decreases s.len(),
{
    let t = s.update(i, true);
    if i == s.len() - 1 {
        assert(t.drop_last() =~= s.drop_last());
    } else {
        assert(t.drop_last() =~= s.drop_last().update(i, true));
        lemma_count_true_set(s.drop_last(), i);
    }
}

proof fn lemma_count_true_none(s: Seq<bool>)
    requires
        forall|i: int| 0 <= i < s.len() ==> !s[i],
    ensures
        count_true(s) == 0,
    decreases s.len(),
{
    if s.len() > 0 {
        lemma_count_true_none(s.drop_last());
    }
}

fn copy_path(p: &Vec<(usize, usize)>) -> (r: Vec<(usize, usize)>)
    ensures
        r@ == p@,
{
    let mut r: Vec<(usize, usize)> = Vec::new();
    let mut i: usize = 0;
    while i < p.len()
        invariant
            i <= p.len(),
            r@ == p@.subrange(0, i as int),
        decreases p.len() - i,
    {
        r.push(p[i]);
        i = i + 1;
        assert(r@ =~= p@.subrange(0, i as int));
    }
    assert(p@.subrange(0, p.len() as int) =~= p@);
    r
}

/// Chains `p` and `q` take edges of the same index at each position below `k`.
pub open spec fn same_edges_below(p: Seq<(usize, usize)>, q: Seq<(usize, usize)>, k: int) -> bool {
    forall|i: int| 0 <= i < k ==> #[trigger] p[i].1 == q[i].1
}

/// At position `k` chain `p` takes an edge of lower index than chain `q`,
/// and below `k` they take the same edges.
pub open spec fn first_difference(p: Seq<(usize, usize)>, q: Seq<(usize, usize)>, k: int) -> bool {
    &&& 0 <= k < p.len()
    &&& k < q.len()
    &&& p[k].1 < q[k].1
    &&& same_edges_below(p, q, k)
}

/// Chain `p` comes before chain `q` in edge order: at the first position
/// where the edges they take differ, `p` takes the edge of lower index.
pub open spec fn chain_lt(p: Seq<(usize, usize)>, q: Seq<(usize, usize)>) -> bool {
    exists|k: int| #[trigger] first_difference(p, q, k)
}

/// No chain of edges from `s` to `t` as long as `p` comes before `p` in
/// edge order.
pub open spec fn first_in_edge_order(g: &Adjacency, s: int, t: int, p: Seq<(usize, usize)>) -> bool {
    forall|q: Seq<(usize, usize)>| #[trigger] g.is_path(s, t, q) && q.len() == p.len() ==> !chain_lt(q, p)
}

proof fn lemma_same_edges_prefix(g: &Adjacency, s: int, p: Seq<(usize, usize)>, q: Seq<(usize, usize)>, i: int)
    requires
        g.is_path_from(s, p),
        g.is_path_from(s, q),
        p.len() == q.len(),
        same_edges_below(p, q, p.len() as int),
        0 <= i < p.len(),
    ensures
        p[i] == q[i],
    decreases i,
{
    assert(p[i].1 == q[i].1);
    assert(0 <= p[i].0 < g.node_count());
    assert(0 <= q[i].0 < g.node_count());
    if i > 0 {
        lemma_same_edges_prefix(g, s, p, q, i - 1);
    }
}

/// Two chains from the same node that take the same edges are the same chain.
proof fn lemma_same_edges_same_chain(g: &Adjacency, s: int, p: Seq<(usize, usize)>, q: Seq<(usize, usize)>)
    requires
        g.is_path_from(s, p),
        g.is_path_from(s, q),
        p.len() == q.len(),
        same_edges_below(p, q, p.len() as int),
    ensures
        p == q,
{
    assert forall|i: int| 0 <= i < p.len() implies p[i] == q[i] by {
        lemma_same_edges_prefix(g, s, p, q, i);
    }
    assert(p =~= q);
}

proof fn lemma_chain_lt_transitive(a: Seq<(usize, usize)>, b: Seq<(usize, usize)>, c: Seq<(usize, usize)>)
    requires
        chain_lt(a, b),
        chain_lt(b, c),
    ensures
        chain_lt(a, c),
{
    let ka = choose|k: int| #[trigger] first_difference(a, b, k);
    let kb = choose|k: int| #[trigger] first_difference(b, c, k);
    let k = if ka < kb { ka } else { kb };
    assert forall|i: int| 0 <= i < k implies #[trigger] a[i].1 == c[i].1 by {
        assert(a[i].1 == b[i].1);
        assert(b[i].1 == c[i].1);
    }
    if ka < kb {
        assert(b[ka].1 == c[ka].1);
    } else if kb < ka {
        assert(a[kb].1 == b[kb].1);
    }
    assert(first_difference(a, c, k));
}

proof fn lemma_chain_lt_push(a: Seq<(usize, usize)>, b: Seq<(usize, usize)>, x: (usize, usize), y: (usize, usize))
    requires
        chain_lt(a, b),
    ensures
        chain_lt(a.push(x), b.push(y)),
{
    let k = choose|k: int| #[trigger] first_difference(a, b, k);
    assert forall|i: int| 0 <= i < k implies #[trigger] a.push(x)[i].1 == b.push(y)[i].1 by {
        assert(a.push(x)[i] == a[i]);
        assert(b.push(y)[i] == b[i]);
        assert(a[i].1 == b[i].1);
    }
    assert(a.push(x)[k] == a[k]);
    assert(b.push(y)[k] == b[k]);
    assert(first_difference(a.push(x), b.push(y), k));
}

proof fn lemma_chain_lt_last(a: Seq<(usize, usize)>, x: (usize, usize), y: (usize, usize))
    requires
        x.1 < y.1,
    ensures
        chain_lt(a.push(x), a.push(y)),
{
    let k = a.len() as int;
    assert forall|i: int| 0 <= i < k implies #[trigger] a.push(x)[i].1 == a.push(y)[i].1 by {
        assert(a.push(x)[i] == a[i]);
        assert(a.push(y)[i] == a[i]);
    }
    assert(first_difference(a.push(x), a.push(y), k));
}

proof fn lemma_chain_lt_split(q: Seq<(usize, usize)>, p: Seq<(usize, usize)>, x: (usize, usize))
    requires
        chain_lt(q, p.push(x)),
        q.len() == p.len() + 1,
    ensures
        chain_lt(q.drop_last(), p) || (same_edges_below(q.drop_last(), p, p.len() as int) && q.last().1
            < x.1),
{
    let k = choose|k: int| #[trigger] first_difference(q, p.push(x), k);
    let q1 = q.drop_last();
    assert forall|i: int| 0 <= i < k && i < p.len() implies #[trigger] q1[i].1 == p[i].1 by {
        assert(q1[i] == q[i]);
        assert(p.push(x)[i] == p[i]);
        assert(q[i].1 == p.push(x)[i].1);
    }
    if k < p.len() {
        assert(q1[k] == q[k]);
        assert(p.push(x)[k] == p[k]);
        assert(first_difference(q1, p, k));
    } else {
        assert(p.push(x)[k] == x);
    }
}

proof fn lemma_chain_order_total(p: Seq<(usize, usize)>, q: Seq<(usize, usize)>)
    requires
        p.len() == q.len(),
    ensures
        same_edges_below(p, q, p.len() as int) || chain_lt(p, q) || chain_lt(q, p),
    decreases p.len(),
{
    if p.len() > 0 {
        let n = p.len() - 1;
        let p1 = p.drop_last();
        let q1 = q.drop_last();
        lemma_chain_order_total(p1, q1);
        assert(p =~= p1.push(p.last()));
        assert(q =~= q1.push(q.last()));
        if chain_lt(p1, q1) {
            lemma_chain_lt_push(p1, q1, p.last(), q.last());
        } else if chain_lt(q1, p1) {
            lemma_chain_lt_push(q1, p1, q.last(), p.last());
        } else {
            assert forall|i: int| 0 <= i < n implies #[trigger] p[i].1 == q[i].1 by {
                assert(p1[i] == p[i]);
                assert(q1[i] == q[i]);
            }
            assert forall|i: int| 0 <= i < n implies #[trigger] q[i].1 == p[i].1 by {
                assert(p1[i] == p[i]);
                assert(q1[i] == q[i]);
            }
            if p[n].1 < q[n].1 {
                assert(first_difference(p, q, n));
            } else if q[n].1 < p[n].1 {
                assert(first_difference(q, p, n));
            }
        }
    }
}

/// The first chain in edge order is unique: two chains of the same length
/// between the same nodes that each come first in edge order are the same
/// chain. (So the shortest path that `shortest_path` returns is determined
/// by the graph.)
pub proof fn lemma_first_in_edge_order_unique(
    g: &Adjacency,
    s: int,
    t: int,
    p: Seq<(usize, usize)>,
    q: Seq<(usize, usize)>,
)
    requires
        g.is_path(s, t, p),
        g.is_path(s, t, q),
        p.len() == q.len(),
        first_in_edge_order(g, s, t, p),
        first_in_edge_order(g, s, t, q),
    ensures
        p == q,
{
    lemma_chain_order_total(p, q);
    if same_edges_below(p, q, p.len() as int) {
        lemma_same_edges_same_chain(g, s, p, q);
    }
}

/// The chain without its last edge leads to the node where that edge starts.
proof fn lemma_path_drop_last(g: &Adjacency, s: int, t: int, q: Seq<(usize, usize)>)
    requires
        g.is_path(s, t, q),
        q.len() > 0,
    ensures
        g.is_path(s, q.last().0 as int, q.drop_last()),
        0 <= q.last().0 < g.node_count(),
        q.last().1 < g.degree(q.last().0 as int),
        g.target(q.last().0 as int, q.last().1 as int) == t,
{
    let q1 = q.drop_last();
    let n = q.len() - 1;
    assert(0 <= q[n].0 < g.node_count());
    assert forall|i: int| 0 <= i < q1.len() implies {
        &&& 0 <= #[trigger] q1[i].0 < g.node_count()
        &&& q1[i].1 < g.degree(q1[i].0 as int)
        &&& (i == 0 ==> q1[i].0 == s)
        &&& (i > 0 ==> q1[i].0 == g.target(q1[i - 1].0 as int, q1[i - 1].1 as int))
    } by {
        assert(q1[i] == q[i]);
        assert(0 <= q[i].0 < g.node_count());
        if i > 0 {
            assert(q1[i - 1] == q[i - 1]);
        }
    }
    if n > 0 {
        assert(q1.last() == q[n - 1]);
    }
}

/// State of the breadth-first search, as seen by its proofs.
pub open spec fn bfs_entry_ok(
    g: &Adjacency,
    s: int,
    nodes: Seq<usize>,
    paths: Seq<Seq<(usize, usize)>>,
    i: int,
) -> bool {
    &&& nodes[i] < g.node_count()
    &&& g.is_path(s, nodes[i] as int, paths[i])
    &&& forall|m: nat| m < paths[i].len() ==> !#[trigger] g.walk(s, nodes[i] as int, m)
}

/// How the search's queue is ordered: the first entry is the start, with
/// no edges; every later entry extends by one edge the chain of an earlier
/// entry (its parent) that has been taken from the queue; entries come
/// grouped by parent, in the parents' order and then in edge order; and
/// entries of the same level come in edge order of their chains.
pub open spec fn bfs_order_ok(paths: Seq<Seq<(usize, usize)>>, parent: Seq<int>, head: int) -> bool {
    &&& parent.len() == paths.len()
    &&& paths.len() > 0
    &&& paths[0].len() == 0
    &&& forall|i: int|
        0 < i < paths.len() ==> {
            &&& 0 <= #[trigger] parent[i] < head
            &&& parent[i] < i
            &&& paths[i].len() > 0
            &&& paths[i].drop_last() == paths[parent[i]]
        }
    &&& forall|i: int, j: int|
        0 < i < j < paths.len() ==> #[trigger] parent[i] < #[trigger] parent[j] || (parent[i] == parent[j]
            && paths[i].last().1 < paths[j].last().1)
    &&& forall|i: int, j: int|
        #![trigger paths[i], paths[j]]
        0 <= i < j < paths.len() && paths[i].len() == paths[j].len() ==> chain_lt(paths[i], paths[j])
}

proof fn lemma_bfs_order_advance(paths: Seq<Seq<(usize, usize)>>, parent: Seq<int>, head: int)
    requires
        bfs_order_ok(paths, parent, head),
    ensures
        bfs_order_ok(paths, parent, head + 1),
        forall|i: int| 0 < i < paths.len() ==> #[trigger] parent[i] < head,
{
}

/// Appending the extension of entry `h` by edge `x` keeps the order, when
/// `h` is the last entry taken from the queue and its earlier extensions
/// took edges of lower index.
proof fn lemma_bfs_order_push(
    paths: Seq<Seq<(usize, usize)>>,
    parent: Seq<int>,
    head: int,
    h: int,
    x: (usize, usize),
)
    requires
        bfs_order_ok(paths, parent, head),
        head == h + 1,
        0 <= h < paths.len(),
        forall|i: int| 0 < i < paths.len() && #[trigger] parent[i] == h ==> paths[i].last().1 < x.1,
    ensures
        bfs_order_ok(paths.push(paths[h].push(x)), parent.push(h), head),
{
    let np = paths[h].push(x);
    let ps = paths.push(np);
    let pr = parent.push(h);
    let n = paths.len() as int;
    assert(np.drop_last() =~= paths[h]);
    assert(ps[n] == np);
    assert forall|i: int| 0 < i < ps.len() implies {
        &&& 0 <= #[trigger] pr[i] < head
        &&& pr[i] < i
        &&& ps[i].len() > 0
        &&& ps[i].drop_last() == ps[pr[i]]
    } by {
        if i < n {
            assert(pr[i] == parent[i]);
            assert(ps[i] == paths[i]);
            assert(ps[pr[i]] == paths[parent[i]]);
        }
    }
    assert forall|i: int, j: int| 0 < i < j < ps.len() implies #[trigger] pr[i] < #[trigger] pr[j] || (pr[i]
        == pr[j] && ps[i].last().1 < ps[j].last().1) by {
        assert(pr[i] == parent[i]);
        assert(ps[i] == paths[i]);
        if j < n {
            assert(pr[j] == parent[j]);
            assert(ps[j] == paths[j]);
        }
    }
    assert forall|i: int, j: int|
        #![trigger ps[i], ps[j]]
        0 <= i < j < ps.len() && ps[i].len() == ps[j].len() implies chain_lt(ps[i], ps[j]) by {
        assert(ps[i] == paths[i]);
        if j < n {
            assert(ps[j] == paths[j]);
        } else {
            assert(i > 0);
            let pi = parent[i];
            assert(paths[i] =~= paths[pi].push(paths[i].last()));
            if pi == h {
                lemma_chain_lt_last(paths[h], paths[i].last(), x);
            } else {
                assert(pi < h);
                assert(paths[pi].len() == paths[h].len());
                assert(chain_lt(paths[pi], paths[h]));
                lemma_chain_lt_push(paths[pi], paths[h], paths[i].last(), x);
            }
        }
    }
}

/// The chain that extends entry `h` by edge `e`, when that edge leads to a
/// node not seen yet, comes first in edge order among the chains of its
/// length to that node.
proof fn lemma_bfs_first_in_order(
    g: &Adjacency,
    s: int,
    nodes: Seq<usize>,
    paths: Seq<Seq<(usize, usize)>>,
    parent: Seq<int>,
    visited: Seq<bool>,
    h: int,
    e: int,
    level: nat,
    max_hops: int,
)
    requires
        g.wf(),
        0 <= s < g.node_count(),
        visited.len() == g.node_count(),
        nodes.len() == paths.len(),
        bfs_order_ok(paths, parent, h + 1),
        0 <= h < paths.len(),
        paths[h].len() == level,
        level < max_hops,
        forall|i: int| 0 <= i < nodes.len() ==> bfs_entry_ok(g, s, nodes, paths, i),
        forall|i: int| 0 <= i < nodes.len() ==> first_in_edge_order(g, s, nodes[i] as int, #[trigger] paths[i]),
        forall|w: int|
            0 <= w < g.node_count() ==> (#[trigger] visited[w] <==> exists|i: int|
                0 <= i < nodes.len() && nodes[i] == w),
        forall|i: int, f: int|
            0 <= i < h && paths[i].len() < max_hops && 0 <= f < g.degree(nodes[i] as int)
                ==> #[trigger] visited[g.target(nodes[i] as int, f)],
        0 <= e < g.degree(nodes[h] as int),
        forall|f: int| 0 <= f < e ==> #[trigger] visited[g.target(nodes[h] as int, f)],
        forall|w: int, m: nat| #[trigger] g.walk(s, w, m) && m <= level ==> visited[w],
        !visited[g.target(nodes[h] as int, e)],
    ensures
        first_in_edge_order(
            g,
            s,
            g.target(nodes[h] as int, e),
            paths[h].push((nodes[h], e as usize)),
        ),
{
    let v = g.target(nodes[h] as int, e);
    let np = paths[h].push((nodes[h], e as usize));
    assert forall|q: Seq<(usize, usize)>| #[trigger] g.is_path(s, v, q) && q.len() == np.len() implies !chain_lt(
        q,
        np,
    ) by {
        if chain_lt(q, np) {
            lemma_path_drop_last(g, s, v, q);
            let q1 = q.drop_last();
            let w = q.last().0 as int;
            let f = q.last().1 as int;
            g.lemma_path_is_walk(s, q1);
            assert(visited[w]);
            let j = choose|j: int| 0 <= j < nodes.len() && nodes[j] == w;
            assert(bfs_entry_ok(g, s, nodes, paths, j));
            if paths[j].len() > level {
                assert(!g.walk(s, nodes[j] as int, level));
            }
            if paths[j].len() < level {
                g.lemma_path_is_walk(s, paths[j]);
                assert(g.has_edge(w, v));
                lemma_walk_extend(g, s, w, v, paths[j].len());
                assert(visited[v]);
            }
            assert(paths[j].len() == level);
            lemma_chain_lt_split(q, paths[h], (nodes[h], e as usize));
            if chain_lt(q1, paths[h]) {
                if j == h {
                    assert(first_in_edge_order(g, s, nodes[h] as int, paths[h]));
                    assert(g.is_path(s, nodes[h] as int, q1));
                } else if j < h {
                    assert(visited[g.target(nodes[j] as int, f)]);
                } else {
                    assert(chain_lt(paths[h], paths[j]));
                    lemma_chain_lt_transitive(q1, paths[h], paths[j]);
                    assert(first_in_edge_order(g, s, nodes[j] as int, paths[j]));
                    assert(g.is_path(s, nodes[j] as int, q1));
                }
            } else {
                assert(bfs_entry_ok(g, s, nodes, paths, h));
                lemma_same_edges_same_chain(g, s, q1, paths[h]);
                assert(w == nodes[h]);
                assert(visited[g.target(nodes[h] as int, f)]);
            }
        }
    }
}

/// After an entry of level `level` is processed, every node that a walk of
/// at most `max` edges reaches, within the new frontier, has been seen.
proof fn lemma_coverage_step(
    g: &Adjacency,
    s: int,
    visited: Seq<bool>,
    nodes: Seq<usize>,
    paths: Seq<Seq<(usize, usize)>>,
    level: nat,
    head: int,
    max: int,
    v: int,
    m: nat,
)
    requires
        g.wf(),
        visited.len() == g.node_count(),
        nodes.len() == paths.len(),
        0 <= head <= nodes.len(),
        forall|i: int| 0 <= i < nodes.len() ==> bfs_entry_ok(g, s, nodes, paths, i),
        forall|i: int, j: int|
            0 <= i <= j < nodes.len() ==> #[trigger] paths[i].len() <= #[trigger] paths[j].len(),
        head < nodes.len() ==> paths[head].len() >= level,
        forall|w: int|
            0 <= w < g.node_count() ==> (#[trigger] visited[w] <==> exists|i: int|
                0 <= i < nodes.len() && nodes[i] == w),
        forall|i: int, e: int|
            0 <= i < head && paths[i].len() < max && 0 <= e < g.degree(nodes[i] as int)
                ==> #[trigger] visited[g.target(nodes[i] as int, e)],
        forall|w: int, k: nat| #[trigger] g.walk(s, w, k) && k <= max && k <= level ==> visited[w],
        g.walk(s, v, m),
        m <= max,
        head < nodes.len() ==> m <= paths[head].len(),
    ensures
        visited[v],
    decreases m,
{
    if m > level {
        lemma_walk_last_step(g, s, v, m);
        let p = choose|p: int| #[trigger] g.walk(s, p, (m - 1) as nat) && g.has_edge(p, v);
        lemma_coverage_step(g, s, visited, nodes, paths, level, head, max, p, (m - 1) as nat);
        let i = choose|i: int| 0 <= i < nodes.len() && nodes[i] == p;
        assert(bfs_entry_ok(g, s, nodes, paths, i));
        assert(paths[i].len() <= m - 1) by {
            if paths[i].len() > m - 1 {
                assert(!g.walk(s, nodes[i] as int, (m - 1) as nat));
            }
        }
        if i >= head {
            assert(paths[head].len() <= paths[i].len());
        }
        let e = choose|e: int| 0 <= e < g.degree(p) && #[trigger] g.target(p, e) == v;
        assert(visited[g.target(nodes[i] as int, e)]);
    }
}

/// Breadth-first search for a shortest chain of edges from `s` to `t` of at
/// most `max_hops` edges. The search expands no node whose chain already has
/// `max_hops` edges, and stops at the first discovery of `t`.
pub fn shortest_path(g: &Adjacency, s: usize, t: usize, max_hops: usize) -> (res: Vec<(usize, usize)>)
    requires
        g.wf(),
        s < g.node_count(),
        t < g.node_count(),
        s != t,
    ensures
        res.len() > 0 ==> {
            &&& g.is_path(s as int, t as int, res@)
            &&& res.len() <= max_hops
            &&& forall|m: nat| m < res.len() ==> !#[trigger] g.walk(s as int, t as int, m)
        },
        res.len() > 0 ==> first_in_edge_order(g, s as int, t as int, res@),
        res.len() == 0 ==> forall|m: nat| m <= max_hops ==> !#[trigger] g.walk(s as int, t as int, m),
{
    let n = g.lists.len();
    let mut visited: Vec<bool> = Vec::new();
    let mut k: usize = 0;
    while k < n
        invariant
            k <= n,
            visited.len() == k,
            forall|i: int| 0 <= i < k ==> !visited@[i],
        decreases n - k,
    {
        visited.push(false);
        k = k + 1;
    }
    proof {
        lemma_count_true_none(visited@);
        lemma_count_true_set(visited@, s as int);
    }
    visited.set(s, true);
    let mut queue: Vec<(usize, Vec<(usize, usize)>)> = Vec::new();
    queue.push((s, Vec::new()));
    let ghost mut nodes: Seq<usize> = seq![s];
    let ghost mut paths: Seq<Seq<(usize, usize)>> = seq![Seq::empty()];
    let ghost mut parent: Seq<int> = seq![0];
    assert(g.is_path(s as int, s as int, paths[0]));
    assert(first_in_edge_order(g, s as int, nodes[0] as int, paths[0]));
    let mut head: usize = 0;
    proof {
        assert forall|v: int| 0 <= v < n implies (#[trigger] visited@[v] <==> exists|i: int|
            0 <= i < queue.len() && nodes[i] == v) by {
            if v == s {
                assert(nodes[0] == s);
            }
        }
        assert forall|v: int, m: nat| #[trigger] g.walk(s as int, v, m) && m <= max_hops && m
            <= paths[0].len() implies visited@[v] by {
            lemma_walk_zero(g, s as int, v);
        }
    }
    while head < queue.len()
        invariant
            g.wf(),
            n == g.node_count(),
            s < n,
            t < n,
            s != t,
            visited.len() == n,
            head <= queue.len(),
            queue.len() == count_true(visited@),
            nodes.len() == queue.len(),
            paths.len() == queue.len(),
            forall|i: int| 0 <= i < queue.len() ==> #[trigger] queue@[i].0 == nodes[i],
            forall|i: int| 0 <= i < queue.len() ==> #[trigger] queue@[i].1@ == paths[i],
            forall|i: int| 0 <= i < queue.len() ==> bfs_entry_ok(g, s as int, nodes, paths, i),
            bfs_order_ok(paths, parent, head as int),
            forall|i: int|
                0 <= i < queue.len() ==> first_in_edge_order(g, s as int, nodes[i] as int, #[trigger] paths[i]),
            forall|i: int, j: int|
                0 <= i <= j < queue.len() ==> #[trigger] paths[i].len() <= #[trigger] paths[j].len(),
            head < queue.len() ==> paths[queue.len() - 1].len() <= paths[head as int].len() + 1,
            forall|i: int, j: int| 0 <= i < j < queue.len() ==> nodes[i] != nodes[j],
            forall|v: int|
                0 <= v < n ==> (#[trigger] visited@[v] <==> exists|i: int|
                    0 <= i < queue.len() && nodes[i] == v),
            !visited@[t as int],
            forall|i: int, e: int|
                0 <= i < head && paths[i].len() < max_hops && 0 <= e < g.degree(nodes[i] as int)
                    ==> #[trigger] visited@[g.target(nodes[i] as int, e)],
            forall|v: int, m: nat|
                #[trigger] g.walk(s as int, v, m) && m <= max_hops && (head < queue.len() ==> m
                    <= paths[head as int].len()) ==> visited@[v],
        decreases n - head,
    {
        proof {
            lemma_count_true_bound(visited@);
        }
        assert(bfs_entry_ok(g, s as int, nodes, paths, head as int));
        let cur = queue[head].0;
        assert(cur == nodes[head as int]);
        let cur_path = copy_path(&queue[head].1);
        let ghost h = head as int;
        let ghost level = paths[h].len();
        proof {
            lemma_bfs_order_advance(paths, parent, h);
        }
        head = head + 1;
        if cur_path.len() < max_hops {
            let ghost before = queue.len() as int;
            let mut e: usize = 0;
            while e < g.lists[cur].len()
                invariant
                    g.wf(),
                    n == g.node_count(),
                    s < n,
                    t < n,
                    s != t,
                    visited.len() == n,
                    h + 1 == head,
                    0 <= h < before <= queue.len(),
                    cur == nodes[h],
                    cur < n,
                    cur_path@ == paths[h],
                    level == paths[h].len(),
                    level < max_hops,
                    e <= g.degree(cur as int),
                    queue.len() == count_true(visited@),
                    nodes.len() == queue.len(),
                    paths.len() == queue.len(),
                    forall|i: int| 0 <= i < queue.len() ==> #[trigger] queue@[i].0 == nodes[i],
                    forall|i: int| 0 <= i < queue.len() ==> #[trigger] queue@[i].1@ == paths[i],
                    forall|i: int| 0 <= i < queue.len() ==> bfs_entry_ok(g, s as int, nodes, paths, i),
                    bfs_order_ok(paths, parent, h + 1),
                    forall|i: int| 0 < i < queue.len() && #[trigger] parent[i] == h ==> paths[i].last().1 < e,
                    forall|i: int|
                        0 <= i < queue.len() ==> first_in_edge_order(
                            g,
                            s as int,
                            nodes[i] as int,
                            #[trigger] paths[i],
                        ),
                    forall|i: int, j: int|
                        0 <= i <= j < queue.len() ==> #[trigger] paths[i].len() <= #[trigger] paths[j].len(),
                    forall|i: int| h <= i < queue.len() ==> #[trigger] paths[i].len() <= level + 1,
                    forall|i: int| before <= i < queue.len() ==> #[trigger] paths[i].len() == level + 1,
                    forall|i: int, j: int| 0 <= i < j < queue.len() ==> nodes[i] != nodes[j],
                    forall|v: int|
                        0 <= v < n ==> (#[trigger] visited@[v] <==> exists|i: int|
                            0 <= i < queue.len() && nodes[i] == v),
                    !visited@[t as int],
                    forall|i: int, f: int|
                        0 <= i < h && paths[i].len() < max_hops && 0 <= f < g.degree(nodes[i] as int)
                            ==> #[trigger] visited@[g.target(nodes[i] as int, f)],
                    forall|f: int| 0 <= f < e ==> #[trigger] visited@[g.target(cur as int, f)],
                    forall|v: int, m: nat|
                        #[trigger] g.walk(s as int, v, m) && m <= level ==> visited@[v],
                decreases g.degree(cur as int) - e,
            {
                let v = g.lists[cur][e].target;
                assert(v == g.target(cur as int, e as int));
                assert(bfs_entry_ok(g, s as int, nodes, paths, h));
                if !visited[v] {
                    let mut new_path = copy_path(&cur_path);
                    new_path.push((cur, e));
                    proof {
                        lemma_bfs_first_in_order(
                            g,
                            s as int,
                            nodes,
                            paths,
                            parent,
                            visited@,
                            h,
                            e as int,
                            level,
                            max_hops as int,
                        );
                        g.lemma_path_extend(s as int, paths[h], cur, e);
                        assert forall|m: nat| m < new_path@.len() implies !#[trigger] g.walk(
                            s as int,
                            v as int,
                            m,
                        ) by {
                            if g.walk(s as int, v as int, m) {
                                assert(visited@[v as int]);
                            }
                        }
                    }
                    if v == t {
                        return new_path;
                    }
                    let ghost old_visited = visited@;
                    proof {
                        lemma_count_true_set(visited@, v as int);
                    }
                    visited.set(v, true);
                    let ghost np = new_path@;
                    let ghost nodes0 = nodes;
                    let ghost paths0 = paths;
                    let ghost parent0 = parent;
                    let ghost vis0 = old_visited;
                    queue.push((v, new_path));
                    proof {
                        lemma_bfs_order_push(paths0, parent0, h + 1, h, (cur, e));
                        nodes = nodes.push(v);
                        paths = paths.push(np);
                        parent = parent.push(h);
                        assert(np == paths0[h].push((cur, e)));
                        assert forall|i: int|
                            0 <= i < queue.len() implies first_in_edge_order(
                            g,
                            s as int,
                            nodes[i] as int,
                            #[trigger] paths[i],
                        ) by {
                            if i < queue.len() - 1 {
                                assert(nodes[i] == nodes0[i]);
                                assert(paths[i] == paths0[i]);
                            }
                        }
                        assert forall|i: int| 0 < i < queue.len() && #[trigger] parent[i] == h implies paths[i].last().1
                            < e + 1 by {
                            if i < queue.len() - 1 {
                                assert(parent[i] == parent0[i]);
                                assert(paths[i] == paths0[i]);
                            }
                        }
                        assert(queue@.last().0 == v);
                        assert forall|i: int| 0 <= i < queue.len() implies bfs_entry_ok(
                            g,
                            s as int,
                            nodes,
                            paths,
                            i,
                        ) by {
                            if i < queue.len() - 1 {
                                assert(nodes[i] == nodes0[i]);
                                assert(paths[i] == paths0[i]);
                                assert(bfs_entry_ok(g, s as int, nodes0, paths0, i));
                            }
                        }
                        assert forall|w: int|
                            0 <= w < n implies (#[trigger] visited@[w] <==> exists|i: int|
                                0 <= i < queue.len() && nodes[i] == w) by {
                            if w == v {
                                assert(nodes[queue.len() - 1] == v);
                            } else if visited@[w] {
                                let i = choose|i: int| 0 <= i < queue.len() - 1 && nodes0[i] == w;
                                assert(nodes[i] == w);
                            } else {
                                if exists|i: int| 0 <= i < queue.len() && nodes[i] == w {
                                    let i = choose|i: int| 0 <= i < queue.len() && nodes[i] == w;
                                    assert(i < queue.len() - 1);
                                    assert(nodes0[i] == w);
                                }
                            }
                        }
                        assert forall|i: int, j: int| 0 <= i < j < queue.len() implies nodes[i]
                            != nodes[j] by {
                            if j == queue.len() - 1 {
                                assert(nodes0[i] == nodes[i]);
                                assert(bfs_entry_ok(g, s as int, nodes0, paths0, i));
                                assert(vis0[nodes0[i] as int]);
                            } else {
                                assert(nodes0[i] == nodes[i]);
                                assert(nodes0[j] == nodes[j]);
                            }
                        }
                        assert forall|i: int, f: int|
                            0 <= i < h && paths[i].len() < max_hops && 0 <= f < g.degree(
                                nodes[i] as int,
                            ) implies #[trigger] visited@[g.target(nodes[i] as int, f)] by {
                            assert(nodes[i] == nodes0[i]);
                            assert(paths[i] == paths0[i]);
                            assert(bfs_entry_ok(g, s as int, nodes0, paths0, i));
                            assert(0 <= g.target(nodes0[i] as int, f) < n);
                            assert(vis0[g.target(nodes0[i] as int, f)]);
                        }
                        assert forall|f: int| 0 <= f < e implies #[trigger] visited@[g.target(
                            cur as int,
                            f,
                        )] by {
                            assert(vis0[g.target(cur as int, f)]);
                        }
                        assert forall|w: int, m: nat|
                            #[trigger] g.walk(s as int, w, m) && m <= level implies visited@[w] by {
                            lemma_walk_in_range(g, s as int, w, m);
                            assert(vis0[w]);
                        }
                        assert forall|i: int, j: int|
                            0 <= i <= j < queue.len() implies #[trigger] paths[i].len()
                                <= #[trigger] paths[j].len() by {
                            if j == queue.len() - 1 {
                                if i < j {
                                    assert(paths[i] == paths0[i]);
                                }
                            } else {
                                assert(paths[i] == paths0[i]);
                                assert(paths[j] == paths0[j]);
                            }
                        }
                        assert forall|i: int| h <= i < queue.len() implies #[trigger] paths[i].len()
                            <= level + 1 by {
                            if i < queue.len() - 1 {
                                assert(paths[i] == paths0[i]);
                            }
                        }
                        assert forall|i: int| before <= i < queue.len() implies #[trigger] paths[i].len()
                            == level + 1 by {
                            if i < queue.len() - 1 {
                                assert(paths[i] == paths0[i]);
                            }
                        }
                        assert forall|i: int| 0 <= i < queue.len() implies #[trigger] queue@[i].0
                            == nodes[i] by {
                        }
                    }
                }
                e = e + 1;
            }
        }
        proof {
            // Coverage at the new frontier.
            assert forall|v: int, m: nat|
                #[trigger] g.walk(s as int, v, m) && m <= max_hops && (head < queue.len() ==> m
                    <= paths[head as int].len()) implies visited@[v] by {
                lemma_coverage_step(g, s as int, visited@, nodes, paths, level, head as int, max_hops as int, v, m);
            }
        }
    }
    proof {
        assert forall|m: nat| m <= max_hops implies !#[trigger] g.walk(s as int, t as int, m) by {
            if g.walk(s as int, t as int, m) {
                assert(visited@[t as int]);
            }
        }
    }
    Vec::new()
}

/// `s` is strictly increasing under `lt`.
pub open spec fn strictly_sorted<A>(s: Seq<A>, lt: spec_fn(A, A) -> bool) -> bool {
    forall|i: int, j: int| 0 <= i < j < s.len() ==> lt(#[trigger] s[i], #[trigger] s[j])
}

/// Two sequences, each strictly increasing under the same asymmetric
/// relation, that hold the same elements are equal.
pub proof fn lemma_sorted_unique<A>(a: Seq<A>, b: Seq<A>, lt: spec_fn(A, A) -> bool)
    requires
        forall|x: A, y: A| #[trigger] lt(x, y) ==> !lt(y, x),
        strictly_sorted(a, lt),
        strictly_sorted(b, lt),
        forall|x: A| a.contains(x) <==> b.contains(x),
    ensures
        a == b,
    decreases a.len(),
{
    if a.len() == 0 {
        if b.len() > 0 {
            assert(b.contains(b[0]));
        }
        assert(a =~= b);
    } else {
        assert(a.contains(a[0]));
        assert(b.len() > 0);
        assert(b.contains(b[0]));
        let i = choose|i: int| 0 <= i < a.len() && a[i] == b[0];
        let j = choose|j: int| 0 <= j < b.len() && b[j] == a[0];
        if i > 0 && j > 0 {
            assert(lt(a[0], a[i]));
            assert(lt(b[0], b[j]));
        }
        assert(a[0] == b[0]);
        let a1 = a.drop_first();
        let b1 = b.drop_first();
        assert(strictly_sorted(a1, lt)) by {
            assert forall|p: int, q: int| 0 <= p < q < a1.len() implies lt(
                #[trigger] a1[p],
                #[trigger] a1[q],
            ) by {
                assert(a1[p] == a[p + 1]);
                assert(a1[q] == a[q + 1]);
            }
        }
        assert(strictly_sorted(b1, lt)) by {
            assert forall|p: int, q: int| 0 <= p < q < b1.len() implies lt(
                #[trigger] b1[p],
                #[trigger] b1[q],
            ) by {
                assert(b1[p] == b[p + 1]);
                assert(b1[q] == b[q + 1]);
            }
        }
        assert forall|x: A| a1.contains(x) <==> b1.contains(x) by {
            if a1.contains(x) {
                let p = choose|p: int| 0 <= p < a1.len() && a1[p] == x;
                assert(a[p + 1] == x);
                assert(lt(a[0], a[p + 1]));
                assert(b.contains(x));
                let q = choose|q: int| 0 <= q < b.len() && b[q] == x;
                if q == 0 {
                    assert(lt(x, x));
                }
                assert(b1[q - 1] == x);
            }
            if b1.contains(x) {
                let p = choose|p: int| 0 <= p < b1.len() && b1[p] == x;
                assert(b[p + 1] == x);
                assert(lt(b[0], b[p + 1]));
                assert(a.contains(x));
                let q = choose|q: int| 0 <= q < a.len() && a[q] == x;
                if q == 0 {
                    assert(lt(x, x));
                }
                assert(a1[q - 1] == x);
            }
        }
        lemma_sorted_unique(a1, b1, lt);
        assert(a =~= b) by {
            assert forall|k: int| 0 <= k < a.len() implies a[k] == b[k] by {
                if k > 0 {
                    assert(a[k] == a1[k - 1]);
                    assert(b[k] == b1[k - 1]);
                }
            }
        }
    }
}

impl Adjacency {
    /// Strength (in halves) of edge `e` of node `u`.
    pub open spec fn strength(&self, u: int, e: int) -> u128 {
        self.lists@[u]@[e].strength_halves
    }

    /// Edge `a` of node `u` is explored before edge `b`: it is stronger, or
    /// as strong and listed earlier.
    pub open spec fn explored_before(&self, u: int) -> spec_fn(usize, usize) -> bool {
        |a: usize, b: usize|
            self.strength(u, a as int) > self.strength(u, b as int) || (self.strength(u, a as int)
                == self.strength(u, b as int) && a < b)
    }

    /// `ord` lists every edge index of `u` once, strongest first, ties in
    /// list order.
    pub open spec fn is_exploration_order(&self, u: int, ord: Seq<usize>) -> bool {
        &&& strictly_sorted(ord, self.explored_before(u))
        &&& forall|x: usize| ord.contains(x) <==> x < self.degree(u)
    }

    /// The order in which the edges of `u` are explored.
    pub open spec fn exploration_order(&self, u: int) -> Seq<usize> {
        choose|ord: Seq<usize>| self.is_exploration_order(u, ord)
    }

    /// The result of exploring from `u` at depth `depth`: the marks after
    /// the exploration, and the edges taken, as (node, edge index) pairs.
    pub open spec fn explore(&self, u: int, depth: int, max_depth: int, visited: Seq<bool>) -> (
        Seq<bool>,
        Seq<(usize, usize)>,
    )
        decreases max_depth - depth, 1int, 0int,
    {
        if depth >= max_depth {
            (visited, seq![])
        } else {
            self.explore_edges(u, self.exploration_order(u), 0, depth, max_depth, visited)
        }
    }

    /// Exploration of the edges `ord[k..]` of `u`.
    pub open spec fn explore_edges(
        &self,
        u: int,
        ord: Seq<usize>,
        k: int,
        depth: int,
        max_depth: int,
        visited: Seq<bool>,
    ) -> (Seq<bool>, Seq<(usize, usize)>)
        decreases max_depth - depth, 0int, ord.len() - k,
    {
        if depth >= max_depth || k < 0 || k >= ord.len() {
            (visited, seq![])
        } else {
            let e = ord[k];
            let v = self.target(u, e as int);
            if visited[v] {
                self.explore_edges(u, ord, k + 1, depth, max_depth, visited)
            } else {
                let (vis1, sub) = self.explore(v, depth + 1, max_depth, visited.update(v, true));
                let (vis2, rest) = self.explore_edges(u, ord, k + 1, depth, max_depth, vis1);
                (vis2, seq![(u as usize, e)] + sub + rest)
            }
        }
    }
}

/// The edge indices of `u`, strongest first, ties in list order.
pub fn exploration_order(g: &Adjacency, u: usize) -> (ord: Vec<usize>)
    requires
        u < g.node_count(),
    ensures
        ord@ == g.exploration_order(u as int),
        g.is_exploration_order(u as int, ord@),
{
    let edges = &g.lists[u];
    let ghost lt = g.explored_before(u as int);
    let mut ord: Vec<usize> = Vec::new();
    let mut x: usize = 0;
    while x < edges.len()
        invariant
            edges@ == g.lists@[u as int]@,
            lt == g.explored_before(u as int),
            x <= edges.len(),
            strictly_sorted(ord@, lt),
            forall|y: usize| ord@.contains(y) <==> y < x,
        decreases edges.len() - x,
    {
        let sx = edges[x].strength_halves;
        let mut i: usize = 0;
        assert forall|j: int| 0 <= j < ord.len() implies #[trigger] ord@[j] < x by {
            assert(ord@.contains(ord@[j]));
        }
        while i < ord.len() && edges[ord[i]].strength_halves >= sx
            invariant
                edges@ == g.lists@[u as int]@,
                x < edges.len(),
                sx == g.strength(u as int, x as int),
                i <= ord.len(),
                forall|j: int| 0 <= j < ord.len() ==> #[trigger] ord@[j] < x,
                forall|j: int| 0 <= j < i ==> g.strength(u as int, #[trigger] ord@[j] as int) >= sx,
            decreases ord.len() - i,
        {
            assert(ord@.contains(ord@[i as int]));
            i = i + 1;
        }
        let ghost before = ord@;
        assert forall|j: int| 0 <= j < before.len() implies #[trigger] before[j] < x by {
            assert(before.contains(before[j]));
        }
        ord.insert(i, x);
        proof {
            assert forall|p: int, q: int| 0 <= p < q < ord@.len() implies lt(
                #[trigger] ord@[p],
                #[trigger] ord@[q],
            ) by {
                if q < i {
                    assert(lt(before[p], before[q]));
                } else if q == i {
                    assert(ord@[p] == before[p]);
                } else if p < i {
                    assert(ord@[q] == before[q - 1]);
                    assert(ord@[p] == before[p]);
                    assert(lt(before[p], before[q - 1]));
                } else if p == i {
                    assert(ord@[q] == before[q - 1]);
                    assert(g.strength(u as int, before[i as int] as int) < sx);
                    if q - 1 > i {
                        assert(lt(before[i as int], before[q - 1]));
                    }
                } else {
                    assert(ord@[q] == before[q - 1]);
                    assert(ord@[p] == before[p - 1]);
                    assert(lt(before[p - 1], before[q - 1]));
                }
            }
            assert forall|y: usize| ord@.contains(y) <==> y < x + 1 by {
                if y == x {
                    assert(ord@[i as int] == x);
                } else if y < x {
                    assert(before.contains(y));
                    let j = choose|j: int| 0 <= j < before.len() && before[j] == y;
                    if j < i {
                        assert(ord@[j] == y);
                    } else {
                        assert(ord@[j + 1] == y);
                    }
                }
                if ord@.contains(y) && y != x {
                    let j = choose|j: int| 0 <= j < ord@.len() && ord@[j] == y;
                    if j < i {
                        assert(before[j] == y);
                    } else {
                        assert(before[j - 1] == y);
                    }
                }
            }
        }
        x = x + 1;
    }
    proof {
        assert(forall|a: usize, b: usize| #[trigger] lt(a, b) ==> !lt(b, a));
        let o = g.exploration_order(u as int);
        assert(g.is_exploration_order(u as int, ord@));
        assert(g.is_exploration_order(u as int, o));
        lemma_sorted_unique(ord@, o, lt);
    }
    ord
}

/// Every step names a node and one of its edges.
pub open spec fn steps_valid(g: &Adjacency, steps: Seq<(usize, usize)>) -> bool {
    forall|i: int|
        0 <= i < steps.len() ==> #[trigger] steps[i].0 < g.node_count() && steps[i].1 < g.degree(
            steps[i].0 as int,
        )
}

/// The node that a step leads to.
pub open spec fn step_target(g: &Adjacency, st: (usize, usize)) -> int {
    g.target(st.0 as int, st.1 as int)
}

/// From marks `before` to marks `after`, marks are only added, and the
/// steps from position `from` on lead to distinct nodes, each unmarked
/// before and marked after.
pub open spec fn fresh_steps(
    g: &Adjacency,
    before: Seq<bool>,
    after: Seq<bool>,
    from: int,
    steps: Seq<(usize, usize)>,
) -> bool {
    &&& after.len() == before.len()
    &&& forall|w: int| 0 <= w < g.node_count() && before[w] ==> after[w]
    &&& forall|i: int|
        from <= i < steps.len() ==> #[trigger] after[step_target(g, steps[i])] && !before[step_target(
            g,
            steps[i],
        )]
    &&& forall|i: int, j: int|
        from <= i < j < steps.len() ==> step_target(g, #[trigger] steps[i]) != step_target(
            g,
            #[trigger] steps[j],
        )
}

proof fn lemma_fresh_steps_compose(
    g: &Adjacency,
    a: Seq<bool>,
    b: Seq<bool>,
    c: Seq<bool>,
    i: int,
    j: int,
    steps: Seq<(usize, usize)>,
)
    requires
        g.wf(),
        a.len() == g.node_count(),
        0 <= i <= j <= steps.len(),
        steps_valid(g, steps),
        fresh_steps(g, a, b, i, steps.subrange(0, j)),
        fresh_steps(g, b, c, j, steps),
    ensures
        fresh_steps(g, a, c, i, steps),
{
    let p = steps.subrange(0, j);
    assert forall|k: int| i <= k < steps.len() implies #[trigger] c[step_target(g, steps[k])] && !a[step_target(
        g,
        steps[k],
    )] by {
        assert(0 <= step_target(g, steps[k]) < g.node_count());
        if k < j {
            assert(p[k] == steps[k]);
            assert(b[step_target(g, p[k])]);
        }
    }
    assert forall|k: int, l: int| i <= k < l < steps.len() implies step_target(g, #[trigger] steps[k])
        != step_target(g, #[trigger] steps[l]) by {
        if l < j {
            assert(p[k] == steps[k]);
            assert(p[l] == steps[l]);
        } else if k < j {
            assert(p[k] == steps[k]);
            assert(b[step_target(g, p[k])]);
            assert(0 <= step_target(g, steps[k]) < g.node_count());
        }
    }
}

/// Depth-first exploration from `u`, appending the edges taken to `out`.
fn explore_from(
    g: &Adjacency,
    u: usize,
    depth: usize,
    max_depth: usize,
    visited: &mut Vec<bool>,
    out: &mut Vec<(usize, usize)>,
)
    requires
        g.wf(),
        u < g.node_count(),
        old(visited).len() == g.node_count(),
        steps_valid(g, old(out)@),
    ensures
        steps_valid(g, final(out)@),
        final(visited).len() == old(visited).len(),
        final(visited)@ == g.explore(u as int, depth as int, max_depth as int, old(visited)@).0,
        final(out)@ == old(out)@ + g.explore(u as int, depth as int, max_depth as int, old(visited)@).1,
        fresh_steps(g, old(visited)@, final(visited)@, old(out)@.len() as int, final(out)@),
    decreases max_depth - depth,
{
    if depth >= max_depth {
        assert(out@ =~= out@ + Seq::<(usize, usize)>::empty());
        return;
    }
    let ord = exploration_order(g, u);
    let ghost vis0 = visited@;
    let ghost out0 = out@;
    let ghost total = g.explore_edges(u as int, ord@, 0, depth as int, max_depth as int, vis0);
    let mut k: usize = 0;
    assert(out@ =~= out0 + Seq::<(usize, usize)>::empty());
    while k < ord.len()
        invariant
            g.wf(),
            u < g.node_count(),
            depth < max_depth,
            visited.len() == g.node_count(),
            k <= ord.len(),
            ord@ == g.exploration_order(u as int),
            g.is_exploration_order(u as int, ord@),
            steps_valid(g, out@),
            vis0.len() == g.node_count(),
            out@.len() >= out0.len(),
            fresh_steps(g, vis0, visited@, out0.len() as int, out@),
            total == g.explore_edges(u as int, ord@, 0, depth as int, max_depth as int, vis0),
            total.0 == g.explore_edges(u as int, ord@, k as int, depth as int, max_depth as int, visited@).0,
            out0 + total.1 == out@ + g.explore_edges(
                u as int,
                ord@,
                k as int,
                depth as int,
                max_depth as int,
                visited@,
            ).1,
        decreases ord.len() - k,
    {
        let e = ord[k];
        assert(ord@.contains(ord@[k as int]));
        let v = g.lists[u][e].target;
        assert(v == g.target(u as int, e as int));
        let ghost vk = visited@;
        if visited[v] {
            k = k + 1;
        } else {
            visited.set(v, true);
            let ghost vis1 = visited@;
            let ghost o1 = out@;
            out.push((u, e));
            let ghost o2 = out@;
            proof {
                assert(fresh_steps(g, vis0, vis1, out0.len() as int, o2)) by {
                    assert forall|w: int| 0 <= w < g.node_count() && vis0[w] implies vis1[w] by {
                        assert(vk[w]);
                    }
                    assert forall|i: int|
                        out0.len() <= i < o2.len() implies #[trigger] vis1[step_target(g, o2[i])]
                            && !vis0[step_target(g, o2[i])] by {
                        if i < o1.len() {
                            assert(o2[i] == o1[i]);
                            assert(vk[step_target(g, o1[i])]);
                            assert(0 <= step_target(g, o1[i]) < g.node_count());
                        } else {
                            assert(o2[i] == (u, e));
                        }
                    }
                    assert forall|i: int, j: int|
                        out0.len() <= i < j < o2.len() implies step_target(g, #[trigger] o2[i])
                            != step_target(g, #[trigger] o2[j]) by {
                        if j < o1.len() {
                            assert(o2[i] == o1[i]);
                            assert(o2[j] == o1[j]);
                        } else {
                            assert(o2[i] == o1[i]);
                            assert(o2[j] == (u, e));
                            assert(vk[step_target(g, o1[i])]);
                        }
                    }
                }
            }
            explore_from(g, v, depth + 1, max_depth, visited, out);
            proof {
                lemma_fresh_steps_compose(g, vis0, vis1, visited@, out0.len() as int, o2.len() as int, out@);
                let sub = g.explore(v as int, depth + 1, max_depth as int, vis1);
                assert(out@ == o1.push((u, e)) + sub.1);
                let rest = g.explore_edges(u as int, ord@, k + 1, depth as int, max_depth as int, sub.0);
                assert(g.explore_edges(u as int, ord@, k as int, depth as int, max_depth as int, vk).1
                    == seq![(u, e)] + sub.1 + rest.1);
                assert(o1.push((u, e)) + sub.1 + rest.1 =~= o1 + (seq![(u, e)] + sub.1 + rest.1));
            }
            k = k + 1;
        }
    }
    proof {
        assert(out@ =~= out@ + Seq::<(usize, usize)>::empty());
    }
}

/// Depth-first exploration from `s` to depth `max_depth`: edges of a node are
/// taken strongest first, and a node is entered at most once.
pub fn explore(g: &Adjacency, s: usize, max_depth: usize) -> (res: Vec<(usize, usize)>)
    requires
        g.wf(),
        s < g.node_count(),
    ensures
        res@ == g.explore(s as int, 0, max_depth as int, Seq::new(g.node_count() as nat, |i: int| i == s)).1,
        steps_valid(g, res@),
        forall|i: int| 0 <= i < res@.len() ==> step_target(g, #[trigger] res@[i]) != s,
        forall|i: int, j: int|
            0 <= i < j < res@.len() ==> step_target(g, #[trigger] res@[i]) != step_target(g, #[trigger] res@[j]),
{
    let n = g.lists.len();
    let mut visited: Vec<bool> = Vec::new();
    let mut k: usize = 0;
    while k < n
        invariant
            k <= n,
            n == g.node_count(),
            visited.len() == k,
            forall|i: int| 0 <= i < k ==> visited@[i] == (i == s),
        decreases n - k,
    {
        visited.push(k == s);
        k = k + 1;
    }
    assert(visited@ =~= Seq::new(g.node_count() as nat, |i: int| i == s));
    let mut out: Vec<(usize, usize)> = Vec::new();
    let ghost start = visited@;
    explore_from(g, s, 0, max_depth, &mut visited, &mut out);
    assert forall|i: int| 0 <= i < out@.len() implies step_target(g, #[trigger] out@[i]) != s by {
        assert(visited@[step_target(g, out@[i])] && !start[step_target(g, out@[i])]);
    }
    assert(out@ =~= Seq::<(usize, usize)>::empty() + g.explore(
        s as int,
        0,
        max_depth as int,
        Seq::new(g.node_count() as nat, |i: int| i == s),
    ).1);
    out
}

/// What the graph is built from: a room's id, its distinct tags and its domain.
pub struct RoomSummary {
    pub id: String,
    pub tags: Vec<String>,
    pub domain: String,
}

impl RoomSummary {
    pub open spec fn view(&self) -> (Seq<char>, Seq<Seq<char>>, Seq<char>) {
        (self.id@, self.tags.deep_view(), self.domain@)
    }
}

/// The edges, as plain values.
pub open spec fn edge_views(es: Seq<Edge>) -> Seq<(usize, u128, Seq<Seq<char>>)> {
    es.map_values(|e: Edge| e@)
}

impl Edge {
    pub open spec fn view(&self) -> (usize, u128, Seq<Seq<char>>) {
        (self.target, self.strength_halves, self.shared_tags.deep_view())
    }
}

/// The tags of `a` that `b` also has, in the order of `a`.
pub open spec fn common_tags(a: Seq<Seq<char>>, b: Seq<Seq<char>>) -> Seq<Seq<char>>
    decreases a.len(),
{
    if a.len() == 0 {
        seq![]
    } else {
        common_tags(a.drop_last(), b) + if b.contains(a.last()) {
            seq![a.last()]
        } else {
            seq![]
        }
    }
}

/// Tags shared by rooms `i` and `j`, listed in the order of the room that
/// comes first.
pub open spec fn shared_between(rooms: Seq<(Seq<char>, Seq<Seq<char>>, Seq<char>)>, i: int, j: int) -> Seq<
    Seq<char>,
> {
    if i <= j {
        common_tags(rooms[i].1, rooms[j].1)
    } else {
        common_tags(rooms[j].1, rooms[i].1)
    }
}

/// Rooms `i` and `j` are connected: they share a tag or a domain.
pub open spec fn connected(rooms: Seq<(Seq<char>, Seq<Seq<char>>, Seq<char>)>, i: int, j: int) -> bool {
    shared_between(rooms, i, j).len() > 0 || rooms[i].2 == rooms[j].2
}

/// The edge from room `i` to room `j`: strength is the number of shared
/// tags, plus one half when the domains agree.
pub open spec fn edge_between(rooms: Seq<(Seq<char>, Seq<Seq<char>>, Seq<char>)>, i: int, j: int) -> (
    usize,
    u128,
    Seq<Seq<char>>,
) {
    let shared = shared_between(rooms, i, j);
    (
        j as usize,
        (2 * shared.len() + if rooms[i].2 == rooms[j].2 {
            1int
        } else {
            0int
        }) as u128,
        shared,
    )
}

/// The edges of room `a` to the rooms `0..k`, in room order.
pub open spec fn edges_upto(rooms: Seq<(Seq<char>, Seq<Seq<char>>, Seq<char>)>, a: int, k: int) -> Seq<
    (usize, u128, Seq<Seq<char>>),
>
    decreases k,
{
    if k <= 0 {
        seq![]
    } else {
        edges_upto(rooms, a, k - 1) + if k - 1 != a && connected(rooms, a, k - 1) {
            seq![edge_between(rooms, a, k - 1)]
        } else {
            seq![]
        }
    }
}

impl Adjacency {
    /// The edges of node `u`, as plain values.
    pub open spec fn edges_view(&self, u: int) -> Seq<(usize, u128, Seq<Seq<char>>)> {
        edge_views(self.lists@[u]@)
    }

    /// The graph is the adjacency of `rooms`: node `a` has an edge to every
    /// other room it is connected to, in room order.
    pub open spec fn is_adjacency_of(&self, rooms: Seq<(Seq<char>, Seq<Seq<char>>, Seq<char>)>) -> bool {
        &&& self.node_count() == rooms.len()
        &&& forall|a: int| 0 <= a < rooms.len() ==> #[trigger] self.edges_view(a) == edges_upto(rooms, a, rooms.len() as int)
    }
}

fn contains_string(v: &Vec<String>, x: &String) -> (b: bool)
    ensures
        b == v.deep_view().contains(x@),
{
    let mut i: usize = 0;
    while i < v.len()
        invariant
            i <= v.len(),
            forall|j: int| 0 <= j < i ==> v.deep_view()[j] != x@,
        decreases v.len() - i,
    {
        if v[i] == *x {
            assert(v.deep_view()[i as int] == x@);
            return true;
        }
        i = i + 1;
    }
    false
}

/// The tags of `a` that `b` also has, in the order of `a`.
pub fn shared_tags(a: &Vec<String>, b: &Vec<String>) -> (r: Vec<String>)
    ensures
        r.deep_view() == common_tags(a.deep_view(), b.deep_view()),
{
    let mut r: Vec<String> = Vec::new();
    let mut i: usize = 0;
    while i < a.len()
        invariant
            i <= a.len(),
            r.deep_view() == common_tags(a.deep_view().subrange(0, i as int), b.deep_view()),
        decreases a.len() - i,
    {
        let ghost pre = a.deep_view().subrange(0, i as int);
        let ghost post = a.deep_view().subrange(0, i + 1);
        assert(post.drop_last() =~= pre);
        if contains_string(b, &a[i]) {
            r.push(a[i].clone());
            assert(r.deep_view() =~= common_tags(pre, b.deep_view()) + seq![post.last()]);
        } else {
            assert(r.deep_view() =~= common_tags(pre, b.deep_view()) + Seq::<Seq<char>>::empty());
        }
        i = i + 1;
    }
    assert(a.deep_view().subrange(0, a.len() as int) =~= a.deep_view());
    r
}

/// Builds the adjacency of the rooms: two rooms are connected when they
/// share a tag or a domain.
pub fn build_adjacency(rooms: &Vec<RoomSummary>) -> (g: Adjacency)
    ensures
        g.wf(),
        g.is_adjacency_of(rooms@.map_values(|r: RoomSummary| r@)),
{
    let ghost rv = rooms@.map_values(|r: RoomSummary| r@);
    let n = rooms.len();
    let mut lists: Vec<Vec<Edge>> = Vec::new();
    let mut a: usize = 0;
    while a < n
        invariant
            n == rooms.len(),
            rv == rooms@.map_values(|r: RoomSummary| r@),
            a <= n,
            lists.len() == a,
            forall|u: int| 0 <= u < a ==> #[trigger] edge_views(lists@[u]@) == edges_upto(rv, u, n as int),
            forall|u: int, e: int| 0 <= u < a && 0 <= e < lists@[u]@.len() ==> #[trigger] lists@[u]@[e].target < n,
        decreases n - a,
    {
        let mut edges: Vec<Edge> = Vec::new();
        let mut k: usize = 0;
        while k < n
            invariant
                n == rooms.len(),
                rv == rooms@.map_values(|r: RoomSummary| r@),
                a < n,
                k <= n,
                edge_views(edges@) == edges_upto(rv, a as int, k as int),
                forall|e: int| 0 <= e < edges@.len() ==> #[trigger] edges@[e].target < n,
            decreases n - k,
        {
            let ghost before = edges@;
            if k != a {
                let shared = if a <= k {
                    shared_tags(&rooms[a].tags, &rooms[k].tags)
                } else {
                    shared_tags(&rooms[k].tags, &rooms[a].tags)
                };
                let same_domain = rooms[a].domain == rooms[k].domain;
                assert(rv[a as int] == rooms@[a as int]@);
                assert(rv[k as int] == rooms@[k as int]@);
                if shared.len() > 0 || same_domain {
                    let halves: u128 = (shared.len() as u128) * 2 + if same_domain {
                        1
                    } else {
                        0
                    };
                    let edge = Edge { target: k, strength_halves: halves, shared_tags: shared };
                    assert(edge@ == edge_between(rv, a as int, k as int));
                    edges.push(edge);
                    assert(edge_views(edges@) =~= edge_views(before) + seq![
                        edge_between(rv, a as int, k as int),
                    ]);
                } else {
                    assert(edge_views(edges@) =~= edge_views(before)
                        + Seq::<(usize, u128, Seq<Seq<char>>)>::empty());
                }
            } else {
                assert(edge_views(edges@) =~= edge_views(before)
                    + Seq::<(usize, u128, Seq<Seq<char>>)>::empty());
            }
            k = k + 1;
        }
        lists.push(edges);
        a = a + 1;
    }
    let g = Adjacency { lists };
    assert forall|u: int| 0 <= u < rv.len() implies #[trigger] g.edges_view(u) == edges_upto(rv, u, rv.len() as int) by {
        assert(edge_views(g.lists@[u]@) == edges_upto(rv, u, n as int));
    }
    g
}

/// The edges of `a` to rooms `0..k` lead exactly to the rooms below `k`,
/// other than `a`, that `a` is connected to.
pub proof fn lemma_edges_upto_targets(rooms: Seq<(Seq<char>, Seq<Seq<char>>, Seq<char>)>, a: int, k: int, b: int)
    requires
        0 <= k <= usize::MAX,
    ensures
        (exists|e: int| 0 <= e < edges_upto(rooms, a, k).len() && #[trigger] edges_upto(rooms, a, k)[e].0 == b)
            <==> (0 <= b < k && b != a && connected(rooms, a, b)),
    decreases k,
{
    if k > 0 {
        lemma_edges_upto_targets(rooms, a, k - 1, b);
        let prev = edges_upto(rooms, a, k - 1);
        let cur = edges_upto(rooms, a, k);
        if exists|e: int| 0 <= e < prev.len() && #[trigger] prev[e].0 == b {
            let e = choose|e: int| 0 <= e < prev.len() && #[trigger] prev[e].0 == b;
            assert(cur[e] == prev[e]);
        }
        if exists|e: int| 0 <= e < cur.len() && #[trigger] cur[e].0 == b {
            let e = choose|e: int| 0 <= e < cur.len() && #[trigger] cur[e].0 == b;
            if e < prev.len() {
                assert(cur[e] == prev[e]);
            }
        }
        if b == k - 1 && b != a && connected(rooms, a, b) {
            assert(cur[prev.len() as int].0 == b);
        }
    }
}

/// The edges of a room lead to rooms below `k`, in increasing order.
pub proof fn lemma_edges_upto_increasing(rooms: Seq<(Seq<char>, Seq<Seq<char>>, Seq<char>)>, a: int, k: int)
    requires
        0 <= k <= usize::MAX,
    ensures
        forall|i: int| 0 <= i < edges_upto(rooms, a, k).len() ==> #[trigger] edges_upto(rooms, a, k)[i].0 < k,
        forall|i: int, j: int|
            0 <= i < j < edges_upto(rooms, a, k).len() ==> #[trigger] edges_upto(rooms, a, k)[i].0
                < #[trigger] edges_upto(rooms, a, k)[j].0,
    decreases k,
{
    if k > 0 {
        lemma_edges_upto_increasing(rooms, a, k - 1);
        let prev = edges_upto(rooms, a, k - 1);
        let cur = edges_upto(rooms, a, k);
        assert forall|i: int| 0 <= i < cur.len() implies #[trigger] cur[i].0 < k by {
            if i < prev.len() {
                assert(cur[i] == prev[i]);
            }
        }
        assert forall|i: int, j: int| 0 <= i < j < cur.len() implies #[trigger] cur[i].0 < #[trigger] cur[j].0 by {
            assert(cur[i] == prev[i]);
            if j < prev.len() {
                assert(cur[j] == prev[j]);
            }
        }
    }
}

/// Each edge of a room to rooms below `k` is the edge between the room and
/// the room it leads to.
pub proof fn lemma_edges_upto_values(rooms: Seq<(Seq<char>, Seq<Seq<char>>, Seq<char>)>, a: int, k: int)
    requires
        0 <= k <= usize::MAX,
    ensures
        forall|e: int|
            0 <= e < edges_upto(rooms, a, k).len() ==> #[trigger] edges_upto(rooms, a, k)[e] == edge_between(
                rooms,
                a,
                edges_upto(rooms, a, k)[e].0 as int,
            ),
    decreases k,
{
    if k > 0 {
        lemma_edges_upto_values(rooms, a, k - 1);
        let prev = edges_upto(rooms, a, k - 1);
        let cur = edges_upto(rooms, a, k);
        assert forall|e: int| 0 <= e < cur.len() implies #[trigger] cur[e] == edge_between(rooms, a, cur[e].0 as int) by {
            if e < prev.len() {
                assert(cur[e] == prev[e]);
            } else {
                assert(cur[e] == edge_between(rooms, a, k - 1));
            }
        }
    }
}

/// The common tags of two lists are the tags in both; without duplicates
/// when the first list has none, and then as many as the two lists' sets
/// share.
pub proof fn lemma_common_tags_members(x: Seq<Seq<char>>, y: Seq<Seq<char>>)
    ensures
        forall|t: Seq<char>| #[trigger] common_tags(x, y).contains(t) <==> x.contains(t) && y.contains(t),
        x.no_duplicates() ==> common_tags(x, y).no_duplicates(),
        x.no_duplicates() ==> common_tags(x, y).len() == x.to_set().intersect(y.to_set()).len(),
    decreases x.len(),
{
    let c = common_tags(x, y);
    if x.len() > 0 {
        let x1 = x.drop_last();
        let c1 = common_tags(x1, y);
        lemma_common_tags_members(x1, y);
        assert forall|t: Seq<char>| #[trigger] c.contains(t) <==> x.contains(t) && y.contains(t) by {
            if c.contains(t) {
                let j = choose|j: int| 0 <= j < c.len() && c[j] == t;
                if j < c1.len() {
                    assert(c1[j] == t);
                    assert(c1.contains(t));
                    let i = choose|i: int| 0 <= i < x1.len() && x1[i] == t;
                    assert(x[i] == t);
                } else {
                    assert(x.contains(x.last()));
                }
            }
            if x.contains(t) && y.contains(t) {
                let i = choose|i: int| 0 <= i < x.len() && x[i] == t;
                if i < x.len() - 1 {
                    assert(x1[i] == t);
                    assert(c1.contains(t));
                    let j = choose|j: int| 0 <= j < c1.len() && c1[j] == t;
                    assert(c[j] == t);
                } else {
                    assert(c[c.len() - 1] == t);
                }
            }
        }
        if x.no_duplicates() {
            assert(x1.no_duplicates()) by {
                assert forall|i: int, j: int| 0 <= i < x1.len() && 0 <= j < x1.len() && i != j implies x1[i] != x1[j] by {
                    assert(x[i] == x1[i] && x[j] == x1[j]);
                }
            }
            assert forall|i: int, j: int| 0 <= i < c.len() && 0 <= j < c.len() && i != j implies c[i] != c[j] by {
                if i < c1.len() && j < c1.len() {
                    assert(c[i] == c1[i] && c[j] == c1[j]);
                } else if i < c1.len() {
                    assert(c[i] == c1[i]);
                    assert(c1.contains(c1[i]));
                    let k = choose|k: int| 0 <= k < x1.len() && x1[k] == c1[i];
                    assert(x[k] == c1[i]);
                    assert(c[j] == x.last());
                } else {
                    assert(c[j] == c1[j]);
                    assert(c1.contains(c1[j]));
                    let k = choose|k: int| 0 <= k < x1.len() && x1[k] == c1[j];
                    assert(x[k] == c1[j]);
                    assert(c[i] == x.last());
                }
            }
        }
    }
    if x.no_duplicates() {
        c.unique_seq_to_set();
        assert forall|t: Seq<char>| c.to_set().contains(t) <==> x.to_set().intersect(y.to_set()).contains(t) by {
            assert(c.contains(t) <==> x.contains(t) && y.contains(t));
        }
        assert(c.to_set() =~= x.to_set().intersect(y.to_set()));
    }
}

/// Two tag lists have a common tag exactly when some tag is in both.
pub proof fn lemma_common_tags_nonempty(a: Seq<Seq<char>>, b: Seq<Seq<char>>)
    ensures
        (common_tags(a, b).len() > 0) == (exists|t: Seq<char>| a.contains(t) && b.contains(t)),
    decreases a.len(),
{
    if a.len() > 0 {
        let a1 = a.drop_last();
        lemma_common_tags_nonempty(a1, b);
        if exists|t: Seq<char>| a1.contains(t) && b.contains(t) {
            let t = choose|t: Seq<char>| a1.contains(t) && b.contains(t);
            let j = choose|j: int| 0 <= j < a1.len() && a1[j] == t;
            assert(a[j] == t);
        }
        if b.contains(a.last()) {
            assert(a.contains(a.last()));
        }
        if exists|t: Seq<char>| a.contains(t) && b.contains(t) {
            let t = choose|t: Seq<char>| a.contains(t) && b.contains(t);
            let j = choose|j: int| 0 <= j < a.len() && a[j] == t;
            if j < a.len() - 1 {
                assert(a1[j] == t);
            }
        }
    }
}

/// Adjacency is symmetric: when room `a` has an edge to room `b`, room `b`
/// has one back to `a`, with the same strength and the same shared tags.
pub proof fn lemma_adjacency_symmetric(
    g: &Adjacency,
    rooms: Seq<(Seq<char>, Seq<Seq<char>>, Seq<char>)>,
    a: int,
    b: int,
)
    requires
        g.is_adjacency_of(rooms),
        0 <= a < rooms.len(),
        0 <= b < rooms.len(),
        g.has_edge(a, b),
    ensures
        g.has_edge(b, a),
        a != b,
        connected(rooms, a, b),
        connected(rooms, b, a),
        edge_between(rooms, a, b).1 == edge_between(rooms, b, a).1,
        edge_between(rooms, a, b).2 == edge_between(rooms, b, a).2,
{
    let n = rooms.len() as int;
    assert(n == g.lists.len());
    let e = choose|e: int| 0 <= e < g.degree(a) && #[trigger] g.target(a, e) == b;
    assert(g.edges_view(a) == edges_upto(rooms, a, n));
    assert(g.edges_view(a)[e].0 == g.target(a, e));
    lemma_edges_upto_targets(rooms, a, n, b);
    assert(edges_upto(rooms, a, n)[e].0 == b);
    assert(shared_between(rooms, a, b) == shared_between(rooms, b, a));
    lemma_edges_upto_targets(rooms, b, n, a);
    assert(g.edges_view(b) == edges_upto(rooms, b, n));
    let f = choose|f: int| 0 <= f < edges_upto(rooms, b, n).len() && #[trigger] edges_upto(rooms, b, n)[f].0 == a;
    assert(g.edges_view(b)[f].0 == g.target(b, f));
    assert(g.target(b, f) == a);
}

} // verus!
