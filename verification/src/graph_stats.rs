//! Graph statistics and complexity analysis for the filter graph pipeline.
//!
//! Provides structural metrics for a processing graph: node count, edge count,
//! maximum depth, and complexity classification.

use vstd::prelude::*;
use std::collections::{HashMap, HashSet};

verus! {

broadcast use vstd::std_specs::hash::group_hash_axioms;

/// A qualitative classification of graph complexity.
#[derive(Debug, Clone, Copy, PartialEq, Eq, Structural)]
pub enum GraphComplexity {
    /// Very few nodes and edges; trivial to schedule.
    Trivial,
    /// Moderate number of nodes; standard linear pipeline.
    Simple,
    /// Many nodes with branching; requires careful scheduling.
    Moderate,
    /// Dense graph with many cross-edges; potentially expensive.
    Complex,
}

impl GraphComplexity {
    /// Returns a human-readable description of the complexity level.
    pub fn description(&self) -> (d: &'static str)
        ensures
            d@ == (match *self {
                GraphComplexity::Trivial => "trivial (≤2 nodes)"@,
                GraphComplexity::Simple => "simple (3–8 nodes, linear)"@,
                GraphComplexity::Moderate => "moderate (9–24 nodes, branching)"@,
                GraphComplexity::Complex => "complex (≥25 nodes or dense edges)"@,
            }),
    {
        match self {
            GraphComplexity::Trivial => "trivial (≤2 nodes)",
            GraphComplexity::Simple => "simple (3–8 nodes, linear)",
            GraphComplexity::Moderate => "moderate (9–24 nodes, branching)",
            GraphComplexity::Complex => "complex (≥25 nodes or dense edges)",
        }
    }

    /// Returns `true` if the graph may require non-trivial scheduling.
    pub fn requires_advanced_scheduling(&self) -> (b: bool)
        ensures
            b == (*self == GraphComplexity::Moderate || *self == GraphComplexity::Complex),
    {
        match self {
            GraphComplexity::Moderate | GraphComplexity::Complex => true,
            _ => false,
        }
    }
}

/// Classification of a graph with `nodes` nodes and `edges` edges: up to 2 nodes is
/// trivial; up to 8 nodes with an average out-degree of at most 1.5 is simple; fewer
/// than 25 nodes is moderate; anything larger is complex.
pub open spec fn spec_complexity(nodes: int, edges: int) -> GraphComplexity {
    if nodes <= 2 {
        GraphComplexity::Trivial
    } else if nodes <= 8 && 2 * edges <= 3 * nodes {
        GraphComplexity::Simple
    } else if nodes < 25 {
        GraphComplexity::Moderate
    } else {
        GraphComplexity::Complex
    }
}

/// Structural statistics about a directed graph.
#[derive(Debug, Clone)]
pub struct GraphStats {
    /// Number of nodes in the graph.
    node_count: usize,
    /// Number of directed edges.
    edge_count: usize,
    /// Maximum depth (longest path from any source node).
    max_depth: usize,
    /// Sum of all node in-degrees (equals `edge_count` for simple graphs).
    total_degree: usize,
}

impl GraphStats {
    /// The number of nodes recorded.
    pub closed spec fn spec_node_count(&self) -> usize {
        self.node_count
    }

    /// The number of edges recorded.
    pub closed spec fn spec_edge_count(&self) -> usize {
        self.edge_count
    }

    /// The depth recorded.
    pub closed spec fn spec_depth(&self) -> usize {
        self.max_depth
    }

    /// Creates a `GraphStats` with the given raw values.
    pub fn new(node_count: usize, edge_count: usize, max_depth: usize) -> (s: Self)
        ensures
            s.spec_node_count() == node_count,
            s.spec_edge_count() == edge_count,
            s.spec_depth() == max_depth,
    {
        GraphStats { node_count, edge_count, max_depth, total_degree: edge_count }
    }

    /// Returns the number of nodes.
    pub fn node_count(&self) -> (n: usize)
        ensures
            n == self.spec_node_count(),
    {
        self.node_count
    }

    /// Returns the number of directed edges.
    pub fn edge_count(&self) -> (n: usize)
        ensures
            n == self.spec_edge_count(),
    {
        self.edge_count
    }

    /// Returns the maximum depth (length of the longest source-to-sink path).
    pub fn depth(&self) -> (d: usize)
        ensures
            d == self.spec_depth(),
    {
        self.max_depth
    }

    /// Classifies the graph by complexity.
    pub fn complexity(&self) -> (c: GraphComplexity)
        ensures
            c == spec_complexity(self.spec_node_count() as int, self.spec_edge_count() as int),
    {
        if self.node_count <= 2 {
            GraphComplexity::Trivial
        } else if self.node_count <= 8 && self.edge_count <= 12 && 2 * self.edge_count <= 3
            * self.node_count {
            GraphComplexity::Simple
        } else if self.node_count < 25 {
            GraphComplexity::Moderate
        } else {
            GraphComplexity::Complex
        }
    }

    /// Returns `true` if the graph has no edges.
    pub fn is_disconnected(&self) -> (b: bool)
        ensures
            b == (self.spec_edge_count() == 0),
    {
        self.edge_count == 0
    }
}

// ── Adjacency model ────────────────────────────────────────────────────────

/// Adjacency rows: each node with its successor list, in insertion order.
pub type AdjRows = Seq<(u64, Seq<u64>)>;

/// `x` has a row.
pub open spec fn has_key(s: AdjRows, x: u64) -> bool {
    exists|i: int| 0 <= i < s.len() && s[i].0 == x
}

/// There is an edge from `u` to `v`.
pub open spec fn is_edge(s: AdjRows, u: u64, v: u64) -> bool {
    exists|i: int| 0 <= i < s.len() && s[i].0 == u && s[i].1.contains(v)
}

/// Rows are keyed by distinct nodes and every successor has a row.
pub open spec fn rows_wf(s: AdjRows) -> bool {
    &&& forall|i: int, j: int| 0 <= i < j < s.len() ==> s[i].0 != s[j].0
    &&& forall|i: int, v: u64| 0 <= i < s.len() && s[i].1.contains(v) ==> has_key(s, v)
}

/// Index of the row of `x` (meaningful when `x` has a row).
pub open spec fn row_of(s: AdjRows, x: u64) -> int {
    choose|i: int| 0 <= i < s.len() && s[i].0 == x
}

/// The rows after making sure `x` has one: a new row with no successors is appended
/// when `x` had none.
pub open spec fn ensure_row(s: AdjRows, x: u64) -> AdjRows {
    if has_key(s, x) {
        s
    } else {
        s.push((x, Seq::empty()))
    }
}

/// The rows after appending `v` to the successors of `u` (which has a row).
pub open spec fn push_succ(s: AdjRows, u: u64, v: u64) -> AdjRows {
    s.update(row_of(s, u), (u, s[row_of(s, u)].1.push(v)))
}

/// The rows after adding the edge `u -> v`: rows for `u` and then `v` are made sure
/// of, and `v` is appended to the successors of `u`.
pub open spec fn add_edge_rows(s: AdjRows, u: u64, v: u64) -> AdjRows {
    push_succ(ensure_row(ensure_row(s, u), v), u, v)
}

/// Total number of successor entries, i.e. of edges (parallel edges counted).
pub open spec fn total_edges(s: AdjRows) -> nat
    decreases s.len(),
{
    if s.len() == 0 {
        0
    } else {
        total_edges(s.drop_last()) + s.last().1.len()
    }
}

/// The nodes: those with rows and all successors.
pub open spec fn node_set(s: AdjRows) -> Set<u64> {
    Set::new(|x: u64| exists|i: int| 0 <= i < s.len() && (s[i].0 == x || s[i].1.contains(x)))
}

/// A node with no edge into it.
pub open spec fn is_source(s: AdjRows, v: u64) -> bool {
    has_key(s, v) && forall|u: u64| !#[trigger] is_edge(s, u, v)
}

/// `p` is a path that starts at a source node and follows edges.
pub open spec fn is_source_path(s: AdjRows, p: Seq<u64>) -> bool {
    &&& p.len() >= 1
    &&& is_source(s, p[0])
    &&& forall|i: int| 0 <= i < p.len() - 1 ==> is_edge(s, #[trigger] p[i], p[i + 1])
}

/// Every path from a source has fewer edges than there are nodes, which holds
/// exactly when no cycle can be reached from a source.
pub open spec fn source_paths_bounded(s: AdjRows) -> bool {
    forall|p: Seq<u64>| #[trigger] is_source_path(s, p) ==> p.len() <= s.len()
}

/// `d` is the length (in edges) of the longest path from a source node, or 0 when
/// there is no source.
pub open spec fn is_max_depth(s: AdjRows, d: int) -> bool {
    &&& forall|p: Seq<u64>| #[trigger] is_source_path(s, p) ==> p.len() - 1 <= d
    &&& (d == 0 || exists|p: Seq<u64>| #[trigger] is_source_path(s, p) && p.len() - 1 == d)
}

/// Every reached node `j` is the end of a path from a source with `dist[j]` edges.
pub open spec fn depth_sound(s: AdjRows, reach: Seq<bool>, dist: Seq<usize>) -> bool {
    forall|j: int|
        0 <= j < s.len() && #[trigger] reach[j] ==> exists|p: Seq<u64>|
            #[trigger] is_source_path(s, p) && p[p.len() - 1] == s[j].0 && p.len() - 1 == dist[j]
}

/// Every path from a source with at most `r` edges ends at a reached node whose
/// distance is at least the path's length.
pub open spec fn depth_complete(s: AdjRows, reach: Seq<bool>, dist: Seq<usize>, r: int) -> bool {
    forall|p: Seq<u64>|
        #[trigger] is_source_path(s, p) && p.len() - 1 <= r ==> exists|j: int|
            0 <= j < s.len() && s[j].0 == p[p.len() - 1] && reach[j] && dist[j] >= p.len() - 1
}

proof fn lemma_path_extend(s: AdjRows, p: Seq<u64>, v: u64)
    requires
        is_source_path(s, p),
        is_edge(s, p[p.len() - 1], v),
    ensures
        is_source_path(s, p.push(v)),
{
    let q = p.push(v);
    assert forall|k: int| 0 <= k < q.len() - 1 implies is_edge(s, #[trigger] q[k], q[k + 1]) by {
        if k < p.len() - 1 {
            assert(q[k] == p[k]);
            assert(q[k + 1] == p[k + 1]);
        } else {
            assert(q[k] == p[p.len() - 1]);
        }
    }
}

proof fn lemma_path_prefix(s: AdjRows, p: Seq<u64>)
    requires
        is_source_path(s, p),
        p.len() >= 2,
    ensures
        is_source_path(s, p.drop_last()),
        is_edge(s, p[p.len() - 2], p[p.len() - 1]),
{
    let q = p.drop_last();
    assert(q[0] == p[0]);
    assert forall|k: int| 0 <= k < q.len() - 1 implies is_edge(s, #[trigger] q[k], q[k + 1]) by {
        assert(q[k] == p[k]);
        assert(q[k + 1] == p[k + 1]);
    }
    assert(is_edge(s, p[p.len() - 2], p[p.len() - 1]));
}

/// After a round that passed every reached node's distance on to all its successors,
/// paths with one more edge are covered.
proof fn lemma_relax_complete(
    s: AdjRows,
    reach: Seq<bool>,
    dist: Seq<usize>,
    nr: Seq<bool>,
    nd: Seq<usize>,
    r: int,
)
    requires
        r >= 0,
        rows_wf(s),
        reach.len() == s.len(),
        dist.len() == s.len(),
        nr.len() == s.len(),
        nd.len() == s.len(),
        depth_complete(s, reach, dist, r),
        forall|j: int| 0 <= j < s.len() && reach[j] ==> nr[j] && nd[j] >= dist[j],
        forall|a: int, b: int, j: int|
            #![trigger s[a].1[b], s[j]]
            0 <= a < s.len() && 0 <= b < s[a].1.len() && 0 <= j < s.len() && s[j].0 == s[a].1[b]
                && reach[a] ==> nr[j] && nd[j] >= dist[a] + 1,
    ensures
        depth_complete(s, nr, nd, r + 1),
{
    assert forall|p: Seq<u64>|
        #[trigger] is_source_path(s, p) && p.len() - 1 <= r + 1 implies exists|j: int|
        0 <= j < s.len() && s[j].0 == p[p.len() - 1] && nr[j] && nd[j] >= p.len() - 1 by {
        if p.len() - 1 <= r {
            let j = choose|j: int|
                0 <= j < s.len() && s[j].0 == p[p.len() - 1] && reach[j] && dist[j] >= p.len() - 1;
            assert(nr[j] && nd[j] >= dist[j]);
        } else {
            lemma_path_prefix(s, p);
            let q = p.drop_last();
            let a = choose|a: int|
                0 <= a < s.len() && s[a].0 == q[q.len() - 1] && reach[a] && dist[a] >= q.len() - 1;
            let a2 = choose|a2: int|
                0 <= a2 < s.len() && s[a2].0 == p[p.len() - 2] && s[a2].1.contains(p[p.len() - 1]);
            assert(q[q.len() - 1] == p[p.len() - 2]);
            assert(a2 == a);
            let b = choose|b: int| 0 <= b < s[a].1.len() && s[a].1[b] == p[p.len() - 1];
            assert(s[a].1.contains(p[p.len() - 1]));
            assert(has_key(s, p[p.len() - 1]));
            let j = choose|j: int| 0 <= j < s.len() && s[j].0 == p[p.len() - 1];
            assert(s[j].0 == s[a].1[b]);
            assert(nr[j] && nd[j] >= dist[a] + 1);
        }
    }
}

proof fn lemma_total_edges_update(s: AdjRows, i: int, x: (u64, Seq<u64>))
    requires
        0 <= i < s.len(),
    ensures
        total_edges(s.update(i, x)) + s[i].1.len() == total_edges(s) + x.1.len(),
    decreases s.len(),
{
    if i < s.len() - 1 {
        assert(s.update(i, x).drop_last() =~= s.drop_last().update(i, x));
        lemma_total_edges_update(s.drop_last(), i, x);
    } else {
        assert(s.update(i, x).drop_last() =~= s.drop_last());
    }
}

proof fn lemma_total_edges_push(s: AdjRows, x: (u64, Seq<u64>))
    ensures
        total_edges(s.push(x)) == total_edges(s) + x.1.len(),
{
    assert(s.push(x).drop_last() =~= s);
}

/// Adding a node that is already there changes nothing, so adding a node twice is
/// the same as adding it once.
pub proof fn lemma_add_node_idempotent(s: AdjRows, x: u64)
    ensures
        ensure_row(ensure_row(s, x), x) == ensure_row(s, x),
{
    if !has_key(s, x) {
        let t = s.push((x, Seq::empty()));
        assert(t[t.len() - 1].0 == x);
    }
}

/// Adding an edge makes it present, with both of its ends among the nodes.
pub proof fn lemma_add_edge_present(s: AdjRows, u: u64, v: u64)
    requires
        rows_wf(s),
    ensures
        is_edge(add_edge_rows(s, u, v), u, v),
        has_key(add_edge_rows(s, u, v), u),
        has_key(add_edge_rows(s, u, v), v),
{
    let s1 = ensure_row(s, u);
    let s2 = ensure_row(s1, v);
    if !has_key(s, u) {
        assert(s1[s1.len() - 1].0 == u);
    }
    let a = choose|a: int| 0 <= a < s1.len() && s1[a].0 == u;
    assert(s2[a].0 == u);
    if !has_key(s1, v) {
        assert(s2[s2.len() - 1].0 == v);
    }
    let b = choose|b: int| 0 <= b < s2.len() && s2[b].0 == v;
    let i = row_of(s2, u);
    let t = add_edge_rows(s, u, v);
    assert(t[i].1 == s2[i].1.push(v));
    assert(t[i].1[t[i].1.len() - 1] == v);
    assert(t[b].0 == v);
}

proof fn lemma_total_edges_ensure_row(s: AdjRows, x: u64)
    ensures
        total_edges(ensure_row(s, x)) == total_edges(s),
{
    if !has_key(s, x) {
        lemma_total_edges_push(s, (x, Seq::empty()));
    }
}

proof fn lemma_total_edges_prefix(s: AdjRows, k: int)
    requires
        0 <= k <= s.len(),
    ensures
        total_edges(s.take(k)) <= total_edges(s),
    decreases s.len() - k,
{
    if k < s.len() {
        assert(s.take(k + 1).drop_last() =~= s.take(k));
        lemma_total_edges_prefix(s, k + 1);
    } else {
        assert(s.take(k) =~= s);
    }
}

/// Analyzes a directed graph represented as an adjacency list.
///
/// Nodes are represented by `u64` IDs; edges as `(from, to)` pairs.
#[derive(Debug, Clone)]
pub struct GraphAnalyzer {
    /// Adjacency list: node → list of successor nodes.
    adjacency: HashMap<u64, Vec<u64>>,
    /// The nodes, in the order they were first added.
    order: Vec<u64>,
}

impl View for GraphAnalyzer {
    type V = AdjRows;

    closed spec fn view(&self) -> AdjRows {
        self.order@.map_values(|k: u64| (k, self.adjacency@[k]@))
    }
}

impl GraphAnalyzer {
    /// The adjacency rows are well formed and the edge total fits in a `usize`.
    pub open spec fn wf(&self) -> bool {
        rows_wf(self@) && total_edges(self@) <= usize::MAX && self.stored()
    }

    /// The map holds exactly the listed nodes.
    pub closed spec fn stored(&self) -> bool {
        forall|k: u64| self.adjacency@.contains_key(k) <==> self.order@.contains(k)
    }

    /// The key and successors of row `i`.
    fn row(&self, i: usize) -> (r: (u64, &Vec<u64>))
        requires
            self.stored(),
            i < self@.len(),
        ensures
            r.0 == self@[i as int].0,
            r.1@ == self@[i as int].1,
    {
        let k = self.order[i];
        proof {
            assert(self.order@[i as int] == k);
            assert(self.order@.contains(k));
        }
        let succ = self.adjacency.get(&k).unwrap();
        (k, succ)
    }

    /// Creates an empty `GraphAnalyzer`.
    pub fn new() -> (a: Self)
        ensures
            a.wf(),
            a@ == Seq::<(u64, Seq<u64>)>::empty(),
    {
        let a = GraphAnalyzer { adjacency: HashMap::new(), order: Vec::new() };
        proof {
            assert(a@ =~= Seq::<(u64, Seq<u64>)>::empty());
        }
        a
    }

    /// Row index of `x`, if it has one.
    fn find_row(&self, x: u64) -> (r: Option<usize>)
        ensures
            match r {
                Some(i) => i < self@.len() && self@[i as int].0 == x,
                None => !has_key(self@, x),
            },
    {
        let mut i: usize = 0;
        while i < self.order.len()
            invariant
                i <= self@.len(),
                self@.len() == self.order@.len(),
                forall|j: int| 0 <= j < i ==> self@[j].0 != x,
            decreases self@.len() - i,
        {
            if self.order[i] == x {
                return Some(i);
            }
            i += 1;
        }
        None
    }

    /// Returns the set of all unique node IDs.
    pub fn nodes(&self) -> (r: HashSet<u64>)
        requires
            self.wf(),
        ensures
            r@ == node_set(self@),
    {
        let ghost s = self@;
        let mut r: HashSet<u64> = HashSet::new();
        let mut i: usize = 0;
        while i < self.order.len()
            invariant
                s == self@,
                s.len() == self.order@.len(),
                self.stored(),
                i <= s.len(),
                forall|x: u64|
                    r@.contains(x) <==> exists|a: int|
                        0 <= a < i && (s[a].0 == x || s[a].1.contains(x)),
            decreases s.len() - i,
        {
            let row = self.row(i);
            r.insert(row.0);
            let mut t: usize = 0;
            while t < row.1.len()
                invariant
                    s == self@,
                    s.len() == self.order@.len(),
                    i < s.len(),
                    row.0 == s[i as int].0,
                    row.1@ == s[i as int].1,
                    t <= row.1@.len(),
                    forall|x: u64|
                        r@.contains(x) <==> (exists|a: int|
                            0 <= a < i && (s[a].0 == x || s[a].1.contains(x))) || x == s[i as int].0
                            || row.1@.take(t as int).contains(x),
                decreases row.1@.len() - t,
            {
                let v = row.1[t];
                r.insert(v);
                proof {
                    assert(row.1@.take(t + 1) =~= row.1@.take(t as int).push(v));
                    let t0 = row.1@.take(t as int);
                    let t1 = row.1@.take(t + 1);
                    assert forall|x: u64| t1.contains(x) <==> (t0.contains(x) || x == v) by {
                        if t1.contains(x) && x != v {
                            let b = choose|b: int| 0 <= b < t1.len() && t1[b] == x;
                            assert(t0[b] == x);
                        }
                        if t0.contains(x) {
                            let b = choose|b: int| 0 <= b < t0.len() && t0[b] == x;
                            assert(t1[b] == x);
                        }
                        if x == v {
                            assert(t1[t as int] == x);
                        }
                    }
                }
                t += 1;
            }
            proof {
                assert(row.1@.take(row.1@.len() as int) =~= row.1@);
                assert(s[i as int].1 == row.1@);
                assert forall|x: u64|
                    r@.contains(x) <==> exists|a: int|
                        0 <= a < i + 1 && (s[a].0 == x || s[a].1.contains(x)) by {
                    if r@.contains(x) && !(exists|a: int|
                        0 <= a < i && (s[a].0 == x || s[a].1.contains(x))) {
                        assert(s[i as int].0 == x || s[i as int].1.contains(x));
                    }
                }
            }
            i += 1;
        }
        proof {
            assert(r@ =~= node_set(s));
        }
        r
    }

    /// Returns the total number of directed edges.
    pub fn edge_count(&self) -> (n: usize)
        requires
            self.wf(),
        ensures
            n == total_edges(self@),
    {
        let ghost s = self@;
        let mut n: usize = 0;
        let mut i: usize = 0;
        while i < self.order.len()
            invariant
                s == self@,
                s.len() == self.order@.len(),
                self.stored(),
                total_edges(s) <= usize::MAX,
                i <= s.len(),
                n == total_edges(s.take(i as int)),
            decreases s.len() - i,
        {
            proof {
                assert(s.take(i + 1).drop_last() =~= s.take(i as int));
                lemma_total_edges_prefix(s, i + 1);
            }
            n = n + self.row(i).1.len();
            i += 1;
        }
        proof {
            assert(s.take(s.len() as int) =~= s);
        }
        n
    }

    /// Whether some row lists `v` as a successor.
    fn has_predecessor(&self, v: u64) -> (b: bool)
        requires
            self.wf(),
        ensures
            b == exists|u: u64| #[trigger] is_edge(self@, u, v),
    {
        let ghost s = self@;
        let mut i: usize = 0;
        while i < self.order.len()
            invariant
                s == self@,
                s.len() == self.order@.len(),
                self.stored(),
                i <= s.len(),
                forall|a: int| 0 <= a < i ==> !s[a].1.contains(v),
            decreases s.len() - i,
        {
            let row = self.row(i);
            let mut t: usize = 0;
            while t < row.1.len()
                invariant
                    s == self@,
                    i < s.len(),
                    row.0 == s[i as int].0,
                    row.1@ == s[i as int].1,
                    t <= row.1@.len(),
                    forall|b: int| 0 <= b < t ==> row.1@[b] != v,
                decreases row.1@.len() - t,
            {
                if row.1[t] == v {
                    proof {
                        assert(s[i as int].1[t as int] == v);
                        assert(s[i as int].1.contains(v));
                        assert(is_edge(s, s[i as int].0, v));
                    }
                    return true;
                }
                t += 1;
            }
            proof {
                assert(s[i as int].1 == row.1@);
            }
            i += 1;
        }
        proof {
            assert forall|u: u64| !#[trigger] is_edge(s, u, v) by {
                if is_edge(s, u, v) {
                    let a = choose|a: int| 0 <= a < s.len() && s[a].0 == u && s[a].1.contains(v);
                }
            }
        }
        false
    }

    /// One round of relaxation: every reached node passes its distance plus one to
    /// each of its successors, keeping the larger value.
    fn relax(&self, reach: &Vec<bool>, dist: &Vec<usize>, Ghost(r): Ghost<int>) -> (res: (Vec<bool>, Vec<usize>))
        requires
            self.wf(),
            source_paths_bounded(self@),
            reach@.len() == self@.len(),
            dist@.len() == self@.len(),
            depth_sound(self@, reach@, dist@),
            depth_complete(self@, reach@, dist@, r),
            r >= 0,
        ensures
            res.0@.len() == self@.len(),
            res.1@.len() == self@.len(),
            depth_sound(self@, res.0@, res.1@),
            depth_complete(self@, res.0@, res.1@, r + 1),
    {
        let ghost s = self@;
        let n = self.order.len();
        let mut nr: Vec<bool> = Vec::new();
        let mut nd: Vec<usize> = Vec::new();
        let mut c: usize = 0;
        while c < n
            invariant
                n == s.len(),
                reach@.len() == n,
                dist@.len() == n,
                c <= n,
                s == self@,
                self.wf(),
                source_paths_bounded(s),
                n == self.order@.len(),
                r >= 0,
                depth_complete(s, reach@, dist@, r),
                depth_sound(s, reach@, dist@),
                nr@ == reach@.take(c as int),
                nd@ == dist@.take(c as int),
            decreases n - c,
        {
            nr.push(reach[c]);
            nd.push(dist[c]);
            proof {
                assert(reach@.take(c + 1) =~= reach@.take(c as int).push(reach@[c as int]));
                assert(dist@.take(c + 1) =~= dist@.take(c as int).push(dist@[c as int]));
            }
            c += 1;
        }
        proof {
            assert(reach@.take(n as int) =~= reach@);
            assert(dist@.take(n as int) =~= dist@);
        }
        let mut i: usize = 0;
        while i < n
            invariant
                s == self@,
                self.wf(),
                source_paths_bounded(s),
                n == s.len(),
                n == self.order@.len(),
                reach@.len() == n,
                dist@.len() == n,
                nr@.len() == n,
                nd@.len() == n,
                i <= n,
                r >= 0,
                depth_complete(s, reach@, dist@, r),
                depth_sound(s, reach@, dist@),
                depth_sound(s, nr@, nd@),
                forall|j: int| 0 <= j < n && reach@[j] ==> nr@[j] && nd@[j] >= dist@[j],
                forall|a: int, b: int, j: int|
                    #![trigger s[a].1[b], s[j]]
                    0 <= a < i && 0 <= b < s[a].1.len() && 0 <= j < n && s[j].0 == s[a].1[b]
                        && reach@[a] ==> nr@[j] && nd@[j] >= dist@[a] + 1,
            decreases n - i,
        {
            if reach[i] {
                let row = self.row(i);
                proof {
                    assert(s[i as int].1 == row.1@);
                    let p = choose|p: Seq<u64>|
                        #[trigger] is_source_path(s, p) && p[p.len() - 1] == s[i as int].0 && p.len() - 1
                            == dist@[i as int];
                    assert(p.len() <= s.len());
                }
                let cand = dist[i] + 1;
                let mut t: usize = 0;
                while t < row.1.len()
                    invariant
                        s == self@,
                        self.wf(),
                        n == s.len(),
                        n == self.order@.len(),
                        i < n,
                        reach@[i as int],
                        cand == dist@[i as int] + 1,
                        row.0 == s[i as int].0,
                    row.1@ == s[i as int].1,
                        s[i as int].1 == row.1@,
                        reach@.len() == n,
                        dist@.len() == n,
                        nr@.len() == n,
                        nd@.len() == n,
                        t <= row.1@.len(),
                        depth_sound(s, reach@, dist@),
                        depth_sound(s, nr@, nd@),
                        forall|j: int| 0 <= j < n && reach@[j] ==> nr@[j] && nd@[j] >= dist@[j],
                        forall|a: int, b: int, j: int|
                            #![trigger s[a].1[b], s[j]]
                            0 <= a < i && 0 <= b < s[a].1.len() && 0 <= j < n && s[j].0
                                == s[a].1[b] && reach@[a] ==> nr@[j] && nd@[j] >= dist@[a]
                                + 1,
                        forall|b: int, j: int|
                            #![trigger s[i as int].1[b], s[j]]
                            0 <= b < t && 0 <= j < n && s[j].0 == s[i as int].1[b] ==> nr@[j]
                                && nd@[j] >= cand,
                    decreases row.1@.len() - t,
                {
                    let v = row.1[t];
                    proof {
                        assert(s[i as int].1[t as int] == v);
                        assert(s[i as int].1.contains(v));
                    }
                    let j = match self.find_row(v) {
                        Some(j) => j,
                        None => {
                            proof {
                                assert(has_key(s, v));
                            }
                            return (nr, nd);
                        },
                    };
                    if !nr[j] || nd[j] < cand {
                        proof {
                            let p = choose|p: Seq<u64>|
                                #[trigger] is_source_path(s, p) && p[p.len() - 1] == s[i as int].0
                                    && p.len() - 1 == dist@[i as int];
                            let q = p.push(v);
                            assert(is_edge(s, s[i as int].0, v));
                            lemma_path_extend(s, p, v);
                            assert(q[q.len() - 1] == s[j as int].0);
                        }
                        nr.set(j, true);
                        nd.set(j, cand);
                    }
                    proof {
                        assert forall|b: int, jj: int|
                            #![trigger s[i as int].1[b], s[jj]]
                            0 <= b < t + 1 && 0 <= jj < n && s[jj].0 == s[i as int].1[b] implies nr@[jj]
                            && nd@[jj] >= cand by {
                            if b == t {
                                assert(jj == j);
                            }
                        }
                    }
                    t += 1;
                }
            }
            i += 1;
        }
        proof {
            assert(depth_complete(s, reach@, dist@, r));
            lemma_relax_complete(s, reach@, dist@, nr@, nd@, r);
        }
        (nr, nd)
    }

    /// Computes the maximum depth: the number of edges on the longest path that
    /// starts at a source node (in-degree 0), or 0 when there is none.
    fn max_depth(&self) -> (d: usize)
        requires
            self.wf(),
            source_paths_bounded(self@),
        ensures
            is_max_depth(self@, d as int),
    {
        let ghost s = self@;
        let n = self.order.len();
        let mut reach: Vec<bool> = Vec::new();
        let mut dist: Vec<usize> = Vec::new();
        let mut i: usize = 0;
        while i < n
            invariant
                s == self@,
                self.wf(),
                n == s.len(),
                n == self.order@.len(),
                i <= n,
                reach@.len() == i,
                dist@.len() == i,
                forall|j: int| 0 <= j < i ==> (reach@[j] <==> is_source(s, s[j].0)),
                forall|j: int| 0 <= j < i ==> dist@[j] == 0,
            decreases n - i,
        {
            let key = self.order[i];
            proof {
                assert(s[i as int].0 == key);
                assert(has_key(s, key));
            }
            let has_pred = self.has_predecessor(key);
            reach.push(!has_pred);
            dist.push(0);
            i += 1;
        }
        proof {
            assert forall|j: int| 0 <= j < s.len() && #[trigger] reach@[j] implies exists|p: Seq<u64>|
                #[trigger] is_source_path(s, p) && p[p.len() - 1] == s[j].0 && p.len() - 1 == dist@[j] by {
                let p = seq![s[j].0];
                assert(is_source_path(s, p));
            }
            assert forall|p: Seq<u64>|
                #[trigger] is_source_path(s, p) && p.len() - 1 <= 0 implies exists|j: int|
                0 <= j < s.len() && s[j].0 == p[p.len() - 1] && reach@[j] && dist@[j] >= p.len() - 1 by {
                let j = choose|j: int| 0 <= j < s.len() && s[j].0 == p[0];
                assert(reach@[j]);
            }
        }
        let mut round: usize = 0;
        while n > 0 && round < n - 1
            invariant
                s == self@,
                self.wf(),
                source_paths_bounded(s),
                n == s.len(),
                round < n || n == 0,
                reach@.len() == n,
                dist@.len() == n,
                depth_sound(s, reach@, dist@),
                depth_complete(s, reach@, dist@, round as int),
            decreases n - round,
        {
            let (nr, nd) = self.relax(&reach, &dist, Ghost(round as int));
            reach = nr;
            dist = nd;
            round += 1;
        }
        let mut best: usize = 0;
        let mut j: usize = 0;
        while j < n
            invariant
                s == self@,
                source_paths_bounded(s),
                n == s.len(),
                j <= n,
                reach@.len() == n,
                dist@.len() == n,
                depth_sound(s, reach@, dist@),
                forall|a: int| 0 <= a < j && reach@[a] ==> dist@[a] <= best,
                best == 0 || exists|a: int| 0 <= a < j && reach@[a] && dist@[a] == best,
            decreases n - j,
        {
            if reach[j] && dist[j] > best {
                best = dist[j];
            }
            j += 1;
        }
        proof {
            assert forall|p: Seq<u64>| #[trigger] is_source_path(s, p) implies p.len() - 1 <= best by {
                assert(p.len() <= s.len());
                let a = choose|a: int|
                    0 <= a < s.len() && s[a].0 == p[p.len() - 1] && reach@[a] && dist@[a] >= p.len() - 1;
            }
            if best != 0 {
                let a = choose|a: int| 0 <= a < n && reach@[a] && dist@[a] == best;
                assert(reach@[a]);
            }
        }
        best
    }

    /// Computes and returns a `GraphStats` snapshot.
    pub fn analyze(&self) -> (st: GraphStats)
        requires
            self.wf(),
            source_paths_bounded(self@),
        ensures
            st.spec_node_count() == node_set(self@).len(),
            st.spec_edge_count() == total_edges(self@),
            is_max_depth(self@, st.spec_depth() as int),
    {
        let node_count = self.nodes().len();
        let edge_count = self.edge_count();
        let max_depth = self.max_depth();
        GraphStats::new(node_count, edge_count, max_depth)
    }

    /// Adds a node with no edges (idempotent).
    pub fn add_node(&mut self, id: u64)
        requires
            old(self).wf(),
        ensures
            final(self).wf(),
            final(self)@ == ensure_row(old(self)@, id),
    {
        match self.find_row(id) {
            Some(_) => {},
            None => {
                let ghost s = self@;
                let ghost old_adj = self.adjacency@;
                let ghost old_order = self.order@;
                self.adjacency.insert(id, Vec::new());
                self.order.push(id);
                proof {
                    assert forall|j: int| 0 <= j < old_order.len() implies old_order[j] != id by {
                        assert(s[j].0 == old_order[j]);
                    }
                    assert(self@ =~= s.push((id, Seq::empty())));
                    assert forall|k: u64| self.adjacency@.contains_key(k) <==> self.order@.contains(k) by {
                        if self.order@.contains(k) && k != id {
                            let j = choose|j: int| 0 <= j < self.order@.len() && self.order@[j] == k;
                            assert(old_order[j] == k);
                        }
                        if old_order.contains(k) {
                            let j = choose|j: int| 0 <= j < old_order.len() && old_order[j] == k;
                            assert(self.order@[j] == k);
                        }
                        if k == id {
                            assert(self.order@[old_order.len() as int] == k);
                        }
                    }
                    lemma_total_edges_push(s, (id, Seq::empty()));
                    let t = self@;
                    assert forall|i: int, v: u64| 0 <= i < t.len() && t[i].1.contains(v) implies has_key(t, v) by {
                        assert(s[i].1.contains(v));
                        let j = choose|j: int| 0 <= j < s.len() && s[j].0 == v;
                        assert(t[j].0 == v);
                    }
                }
            },
        }
    }

    /// Adds a directed edge from `from` to `to`, implicitly adding both nodes.
    pub fn add_edge(&mut self, from: u64, to: u64)
        requires
            old(self).wf(),
            total_edges(old(self)@) < usize::MAX,
        ensures
            final(self).wf(),
            final(self)@ == add_edge_rows(old(self)@, from, to),
    {
        let ghost s0 = self@;
        self.add_node(from);
        self.add_node(to);
        let ghost s1 = self@;
        let i = match self.find_row(from) {
            Some(i) => i,
            None => {
                proof {
                    let m = ensure_row(s0, from);
                    if !has_key(s0, from) {
                        assert(m[m.len() - 1].0 == from);
                    }
                    let j = choose|j: int| 0 <= j < m.len() && m[j].0 == from;
                    assert(s1[j].0 == from);
                }
                return;
            },
        };
        let ghost old_adj = self.adjacency@;
        proof {
            assert(self.order@[i as int] == from);
            assert(self.order@.contains(from));
        }
        let mut succ = self.adjacency.remove(&from).unwrap();
        succ.push(to);
        self.adjacency.insert(from, succ);
        proof {
            assert forall|j: int| 0 <= j < s1.len() && j != i implies self.order@[j] != from by {
                assert(s1[j].0 == self.order@[j]);
            }
            assert forall|k: u64| self.adjacency@.contains_key(k) <==> self.order@.contains(k) by {
                if k == from {
                    assert(self.order@.contains(from));
                }
            }
            assert(s1[i as int].0 == from);
            assert(row_of(s1, from) == i as int);
            let s2 = push_succ(s1, from, to);
            assert(self@ =~= s2);
            lemma_total_edges_update(s1, i as int, (from, s1[i as int].1.push(to)));
            lemma_total_edges_ensure_row(s0, from);
            lemma_total_edges_ensure_row(ensure_row(s0, from), to);
            assert forall|a: int, b: int| 0 <= a < b < s2.len() implies s2[a].0 != s2[b].0 by {
                assert(s2[a].0 == s1[a].0);
                assert(s2[b].0 == s1[b].0);
            }
            assert(has_key(s1, to));
            assert forall|a: int, v: u64| 0 <= a < s2.len() && s2[a].1.contains(v) implies has_key(s2, v) by {
                if v == to {
                    let j = choose|j: int| 0 <= j < s1.len() && s1[j].0 == to;
                    assert(s2[j].0 == to);
                } else {
                    if a == i {
                        assert(s1[a].1.contains(v));
                    } else {
                        assert(s2[a] == s1[a]);
                    }
                    let j = choose|j: int| 0 <= j < s1.len() && s1[j].0 == v;
                    assert(s2[j].0 == v);
                }
            }
        }
    }
}

impl Default for GraphAnalyzer {
    fn default() -> (a: Self)
        ensures
            a.wf(),
            a@ == Seq::<(u64, Seq<u64>)>::empty(),
    {
        Self::new()
    }
}
} // verus!
