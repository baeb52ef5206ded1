//! Media processing graph with nodes, edges, and topological execution ordering.
//!
//! This module models a directed graph of media processing nodes. Nodes represent
//! processing stages (source, filter, encoder, etc.), and edges represent data flow
//! between them.

use vstd::prelude::*;
use crate::sorting::{sort_u64, sorted_u64};

verus! {

/// Classification of a processing node.
#[derive(Debug, Clone, PartialEq, Eq, Structural)]
pub enum NodeType {
    /// Produces media data (e.g. file reader, camera capture).
    Source,
    /// Decodes compressed media into raw frames.
    Decoder,
    /// Transforms media data (e.g. scaler, colour converter).
    Filter,
    /// Encodes raw frames into a compressed format.
    Encoder,
    /// Consumes media data (e.g. file writer, display).
    Sink,
    /// Combines multiple input streams into one.
    Mixer,
    /// Distributes one input stream to multiple outputs.
    Splitter,
}

/// Maximum number of input connections of a node type.
pub open spec fn spec_max_inputs(t: NodeType) -> usize {
    match t {
        NodeType::Source => 0,
        NodeType::Mixer => 8,
        _ => 1,
    }
}

/// Maximum number of output connections of a node type.
pub open spec fn spec_max_outputs(t: NodeType) -> usize {
    match t {
        NodeType::Sink => 0,
        NodeType::Splitter => 8,
        _ => 1,
    }
}

/// Only a source takes no input and only a sink produces no output; only a mixer
/// takes more than one input (up to 8) and only a splitter produces more than one
/// output (up to 8); every other node type takes and produces one.
pub proof fn lemma_node_type_connections(t: NodeType)
    ensures
        spec_max_inputs(t) == 0 <==> t == NodeType::Source,
        spec_max_outputs(t) == 0 <==> t == NodeType::Sink,
        spec_max_inputs(t) > 1 <==> t == NodeType::Mixer,
        spec_max_outputs(t) > 1 <==> t == NodeType::Splitter,
        t == NodeType::Mixer ==> spec_max_inputs(t) == 8,
        t == NodeType::Splitter ==> spec_max_outputs(t) == 8,
        t != NodeType::Source && t != NodeType::Mixer ==> spec_max_inputs(t) == 1,
        t != NodeType::Sink && t != NodeType::Splitter ==> spec_max_outputs(t) == 1,
{
}

impl NodeType {
    /// Maximum number of input connections accepted by this node type.
    pub fn max_inputs(&self) -> (n: usize)
        ensures
            n == spec_max_inputs(*self),
    {
        match self {
            Self::Source => 0,
            Self::Decoder => 1,
            Self::Filter => 1,
            Self::Encoder => 1,
            Self::Sink => 1,
            Self::Mixer => 8,
            Self::Splitter => 1,
        }
    }

    /// Maximum number of output connections this node type can produce.
    pub fn max_outputs(&self) -> (n: usize)
        ensures
            n == spec_max_outputs(*self),
    {
        match self {
            Self::Source => 1,
            Self::Decoder => 1,
            Self::Filter => 1,
            Self::Encoder => 1,
            Self::Sink => 0,
            Self::Mixer => 1,
            Self::Splitter => 8,
        }
    }
}

/// The abstract content of a parameter list: its (key, value) pairs as character
/// sequences, in insertion order.
pub open spec fn params_view(params: Seq<(String, String)>) -> Seq<(Seq<char>, Seq<char>)> {
    params.map_values(|p: (String, String)| (p.0@, p.1@))
}

/// Index of the first entry whose key is `k`, or -1 when there is none.
pub open spec fn key_pos(s: Seq<(Seq<char>, Seq<char>)>, k: Seq<char>) -> int
    decreases s.len(),
{
    if s.len() == 0 {
        -1
    } else {
        let p = key_pos(s.drop_last(), k);
        if p >= 0 {
            p
        } else if s.last().0 == k {
            s.len() - 1
        } else {
            -1
        }
    }
}

/// The value bound to `k` by a parameter list: that of its first entry with key `k`.
pub open spec fn param_lookup(s: Seq<(Seq<char>, Seq<char>)>, k: Seq<char>) -> Option<Seq<char>> {
    if key_pos(s, k) >= 0 {
        Some(s[key_pos(s, k)].1)
    } else {
        None
    }
}

/// The parameter list after setting `k` to `v`: the first entry with key `k` gets the
/// new value in place, or the pair is appended when the key is new.
pub open spec fn param_set(s: Seq<(Seq<char>, Seq<char>)>, k: Seq<char>, v: Seq<char>) -> Seq<
    (Seq<char>, Seq<char>),
> {
    if key_pos(s, k) >= 0 {
        s.update(key_pos(s, k), (k, v))
    } else {
        s.push((k, v))
    }
}

/// No key occurs twice in a parameter list.
pub open spec fn keys_unique(s: Seq<(Seq<char>, Seq<char>)>) -> bool {
    forall|i: int, j: int| 0 <= i < j < s.len() ==> s[i].0 != s[j].0
}

/// `key_pos` is -1 exactly when no entry has the key, and otherwise it names the
/// first entry that has it.
pub proof fn lemma_key_pos(s: Seq<(Seq<char>, Seq<char>)>, k: Seq<char>)
    ensures
        -1 <= key_pos(s, k) < s.len(),
        key_pos(s, k) == -1 <==> (forall|j: int| 0 <= j < s.len() ==> s[j].0 != k),
        key_pos(s, k) >= 0 ==> s[key_pos(s, k)].0 == k && (forall|j: int|
            0 <= j < key_pos(s, k) ==> s[j].0 != k),
    decreases s.len(),
{
    if s.len() > 0 {
        lemma_key_pos(s.drop_last(), k);
        assert forall|j: int| 0 <= j < s.len() - 1 implies s[j] == s.drop_last()[j] by {}
    }
}

/// The position of the first entry with key `k` only depends on the prefix up to it.
proof fn lemma_key_pos_found(s: Seq<(Seq<char>, Seq<char>)>, k: Seq<char>, i: int)
    requires
        0 <= i < s.len(),
        s[i].0 == k,
        forall|j: int| 0 <= j < i ==> s[j].0 != k,
    ensures
        key_pos(s, k) == i,
{
    lemma_key_pos(s, k);
    if key_pos(s, k) < i {
    }
}

/// Reading a key right after setting it gives the value that was set.
pub proof fn lemma_param_get_after_set(s: Seq<(Seq<char>, Seq<char>)>, k: Seq<char>, v: Seq<char>)
    ensures
        param_lookup(param_set(s, k, v), k) == Some(v),
{
    lemma_key_pos(s, k);
    let t = param_set(s, k, v);
    if key_pos(s, k) >= 0 {
        lemma_key_pos_found(t, k, key_pos(s, k));
    } else {
        lemma_key_pos_found(t, k, s.len() as int);
    }
}

/// Setting one key leaves the value of every other key unchanged.
pub proof fn lemma_param_set_other_key(
    s: Seq<(Seq<char>, Seq<char>)>,
    k: Seq<char>,
    v: Seq<char>,
    k2: Seq<char>,
)
    requires
        k2 != k,
    ensures
        param_lookup(param_set(s, k, v), k2) == param_lookup(s, k2),
{
    lemma_key_pos(s, k);
    lemma_key_pos(s, k2);
    let t = param_set(s, k, v);
    lemma_key_pos(t, k2);
    if key_pos(s, k2) >= 0 {
        lemma_key_pos_found(t, k2, key_pos(s, k2));
    } else {
        assert forall|j: int| 0 <= j < t.len() implies t[j].0 != k2 by {
            if key_pos(s, k) >= 0 && j == key_pos(s, k) {
            } else if j < s.len() {
            }
        }
    }
}

/// Setting a key never introduces a second entry for any key.
pub proof fn lemma_param_set_keeps_keys_unique(
    s: Seq<(Seq<char>, Seq<char>)>,
    k: Seq<char>,
    v: Seq<char>,
)
    requires
        keys_unique(s),
    ensures
        keys_unique(param_set(s, k, v)),
{
    lemma_key_pos(s, k);
    let t = param_set(s, k, v);
    assert forall|i: int, j: int| 0 <= i < j < t.len() implies t[i].0 != t[j].0 by {
        if key_pos(s, k) >= 0 {
            if i == key_pos(s, k) {
                assert(s[j].0 != s[i].0);
            } else if j == key_pos(s, k) {
                assert(s[j].0 != s[i].0);
            }
        } else if j == s.len() {
        }
    }
}

/// A single node in a media [`ProcessingGraph`].
#[derive(Debug, Clone)]
pub struct GraphNode {
    /// Unique identifier for this node within the graph.
    pub id: u64,
    /// Human-readable name.
    pub name: String,
    /// Functional type of this node.
    pub node_type: NodeType,
    /// Whether this node should participate in processing.
    pub enabled: bool,
    /// Arbitrary key-value configuration parameters.
    pub params: Vec<(String, String)>,
}

impl GraphNode {
    /// Creates a new, enabled node with no parameters.
    pub fn new(id: u64, name: &str, node_type: NodeType) -> (n: Self)
        ensures
            n.id == id,
            n.name@ == name@,
            n.node_type == node_type,
            n.enabled,
            n.params@.len() == 0,
    {
        GraphNode { id, name: name.to_owned(), node_type, enabled: true, params: Vec::new() }
    }

    /// Returns the value for `key`, or `None` if not set.
    pub fn get_param(&self, key: &str) -> (r: Option<&str>)
        ensures
            match param_lookup(params_view(self.params@), key@) {
                Some(v) => r is Some && r->0@ == v,
                None => r is None,
            },
    {
        let k = key.to_owned();
        let ghost s = params_view(self.params@);
        let mut i: usize = 0;
        while i < self.params.len()
            invariant
                i <= self.params.len(),
                s == params_view(self.params@),
                k@ == key@,
                forall|j: int| 0 <= j < i ==> s[j].0 != key@,
            decreases self.params.len() - i,
        {
            if self.params[i].0 == k {
                proof {
                    lemma_key_pos_found(s, key@, i as int);
                }
                return Some(self.params[i].1.as_str());
            }
            i += 1;
        }
        proof {
            lemma_key_pos(s, key@);
        }
        None
    }

    /// Sets (or updates) `key` to `value`.
    pub fn set_param(&mut self, key: &str, value: &str)
        ensures
            params_view(final(self).params@) == param_set(
                params_view(old(self).params@),
                key@,
                value@,
            ),
            final(self).id == old(self).id,
            final(self).name == old(self).name,
            final(self).node_type == old(self).node_type,
            final(self).enabled == old(self).enabled,
    {
        let k = key.to_owned();
        let ghost s = params_view(self.params@);
        let mut i: usize = 0;
        while i < self.params.len()
            invariant
                i <= self.params.len(),
                s == params_view(self.params@),
                self.params@ == old(self).params@,
                self.id == old(self).id,
                self.name == old(self).name,
                self.node_type == old(self).node_type,
                self.enabled == old(self).enabled,
                k@ == key@,
                forall|j: int| 0 <= j < i ==> s[j].0 != key@,
            decreases self.params.len() - i,
        {
            if self.params[i].0 == k {
                proof {
                    lemma_key_pos_found(s, key@, i as int);
                }
                self.params.set(i, (k, value.to_owned()));
                proof {
                    assert(params_view(self.params@) =~= param_set(s, key@, value@));
                }
                return;
            }
            i += 1;
        }
        proof {
            lemma_key_pos(s, key@);
        }
        self.params.push((k, value.to_owned()));
        proof {
            assert(params_view(self.params@) =~= param_set(s, key@, value@));
        }
    }
}

/// A directed connection between two ports on two nodes.
#[derive(Debug, Clone, PartialEq, Eq, Structural)]
pub struct GraphEdge {
    /// Source node identifier.
    pub from_node: u64,
    /// Output port index on the source node.
    pub from_port: u32,
    /// Destination node identifier.
    pub to_node: u64,
    /// Input port index on the destination node.
    pub to_port: u32,
}

impl GraphEdge {
    /// Returns `true` if this edge goes from `from` to `to`.
    pub fn connects(&self, from: u64, to: u64) -> (b: bool)
        ensures
            b == (self.from_node == from && self.to_node == to),
    {
        self.from_node == from && self.to_node == to
    }
}

/// Some node of the list has identifier `id`.
pub open spec fn has_node_id(nodes: Seq<GraphNode>, id: u64) -> bool {
    exists|i: int| 0 <= i < nodes.len() && nodes[i].id == id
}

/// A directed graph of media processing nodes.
#[derive(Debug)]
pub struct ProcessingGraph {
    /// All nodes in the graph.
    pub nodes: Vec<GraphNode>,
    /// All edges in the graph.
    pub edges: Vec<GraphEdge>,
}

impl ProcessingGraph {
    /// Creates an empty processing graph.
    pub fn new() -> (g: Self)
        ensures
            g.nodes@.len() == 0,
            g.edges@.len() == 0,
    {
        ProcessingGraph { nodes: Vec::new(), edges: Vec::new() }
    }

    /// Adds `node` to the graph.  Duplicate IDs are allowed but discouraged.
    pub fn add_node(&mut self, node: GraphNode)
        ensures
            final(self).nodes@ == old(self).nodes@.push(node),
            final(self).edges@ == old(self).edges@,
    {
        self.nodes.push(node);
    }

    /// Removes the node with `id` and all edges referencing it.
    ///
    /// Returns `true` if a node was removed.
    pub fn remove_node(&mut self, id: u64) -> (removed: bool)
        ensures
            final(self).nodes@ == old(self).nodes@.filter(|n: GraphNode| n.id != id),
            final(self).edges@ == old(self).edges@.filter(
                |e: GraphEdge| !edge_dropped(e, id, id, false),
            ),
            removed == has_node_id(old(self).nodes@, id),
    {
        let mut nodes: Vec<GraphNode> = Vec::new();
        std::mem::swap(&mut nodes, &mut self.nodes);
        let (kept, found) = nodes_without_id(nodes, id);
        self.nodes = kept;
        let mut edges: Vec<GraphEdge> = Vec::new();
        std::mem::swap(&mut edges, &mut self.edges);
        let (kept_edges, _) = edges_filtered(edges, id, id, false);
        self.edges = kept_edges;
        found
    }

    /// Adds an edge from `(from, from_port)` to `(to, to_port)`.
    ///
    /// Returns `false` if either node does not exist; `true` on success.
    pub fn connect(&mut self, from: u64, from_port: u32, to: u64, to_port: u32) -> (ok: bool)
        ensures
            ok == (has_node_id(old(self).nodes@, from) && has_node_id(old(self).nodes@, to)),
            final(self).nodes@ == old(self).nodes@,
            final(self).edges@ == (if ok {
                old(self).edges@.push(GraphEdge { from_node: from, from_port, to_node: to, to_port })
            } else {
                old(self).edges@
            }),
    {
        let has_from = contains_node_id(&self.nodes, from);
        let has_to = contains_node_id(&self.nodes, to);
        if !has_from || !has_to {
            return false;
        }
        self.edges.push(GraphEdge { from_node: from, from_port, to_node: to, to_port });
        true
    }

    /// Removes all edges from node `from` to node `to`.
    ///
    /// Returns `true` if at least one edge was removed.
    pub fn disconnect(&mut self, from: u64, to: u64) -> (removed: bool)
        ensures
            final(self).nodes@ == old(self).nodes@,
            final(self).edges@ == old(self).edges@.filter(
                |e: GraphEdge| !edge_dropped(e, from, to, true),
            ),
            removed == has_dropped_edge(old(self).edges@, from, to, true),
    {
        let mut edges: Vec<GraphEdge> = Vec::new();
        std::mem::swap(&mut edges, &mut self.edges);
        let (kept, removed) = edges_filtered(edges, from, to, true);
        self.edges = kept;
        removed
    }

    /// Returns references to all nodes whose type has zero inputs (source nodes).
    pub fn source_nodes(&self) -> (r: Vec<&GraphNode>)
        ensures
            r@.map_values(|n: &GraphNode| *n) == self.nodes@.filter(
                |n: GraphNode| is_terminal(n, true),
            ),
            r@.map_values(|n: &GraphNode| *n) == self.nodes@.filter(
                |n: GraphNode| n.node_type == NodeType::Source,
            ),
    {
        let r = nodes_by_type(&self.nodes, true);
        proof {
            assert forall|n: GraphNode| #[trigger] is_terminal(n, true) == (n.node_type == NodeType::Source) by {
                lemma_node_type_connections(n.node_type);
            }
            assert((|n: GraphNode| is_terminal(n, true)) =~= (|n: GraphNode| n.node_type == NodeType::Source));
        }
        r
    }

    /// Returns references to all nodes whose type has zero outputs (sink nodes).
    pub fn sink_nodes(&self) -> (r: Vec<&GraphNode>)
        ensures
            r@.map_values(|n: &GraphNode| *n) == self.nodes@.filter(
                |n: GraphNode| is_terminal(n, false),
            ),
            r@.map_values(|n: &GraphNode| *n) == self.nodes@.filter(
                |n: GraphNode| n.node_type == NodeType::Sink,
            ),
    {
        let r = nodes_by_type(&self.nodes, false);
        proof {
            assert forall|n: GraphNode| #[trigger] is_terminal(n, false) == (n.node_type == NodeType::Sink) by {
                lemma_node_type_connections(n.node_type);
            }
            assert((|n: GraphNode| is_terminal(n, false)) =~= (|n: GraphNode| n.node_type == NodeType::Sink));
        }
        r
    }

    /// Returns node IDs in topological execution order (Kahn's algorithm).
    ///
    /// Enabled nodes are scheduled once all their enabled predecessors have been;
    /// among nodes that become ready together the smaller identifier comes first.
    /// Nodes not scheduled this way (disabled nodes and nodes on or behind a cycle)
    /// are appended in ascending identifier order.
    pub fn execution_order(&self) -> (r: Vec<u64>)
        ensures
            is_execution_order(self.nodes@, self.edges@, r@),
    {
        let ghost en = enabled_ids(self.nodes@);
        let ids = collect_enabled_ids(&self.nodes);
        let mut deg = initial_degrees(&ids, &self.edges, Ghost(en));
        let mut queue = zero_degree_sorted(&ids, &deg);
        proof {
            assert(queue@.take(0).to_set() =~= Set::<u64>::empty());
            assert forall|j: int| 0 <= j < ids@.len() implies (deg@[j] == 0 <==> queue@.contains(
                #[trigger] ids@[j],
            )) by {
                if queue@.contains(ids@[j]) {
                    let t = choose|t: int| 0 <= t < ids@.len() && ids@[t] == ids@[j] && deg@[t] == 0;
                }
            }
            assert forall|x: u64| queue@.contains(x) implies ids@.contains(x) by {
                let t = choose|t: int| 0 <= t < ids@.len() && ids@[t] == x && deg@[t] == 0;
            }
            lemma_nodup_subset_len(queue@, ids@);
            assert(queue@.subrange(0, queue@.len() as int) =~= queue@);
            assert forall|x: u64| queue@.contains(x) <==> initially_ready(self.edges@, en).contains(x) by {
                if queue@.contains(x) {
                    let t = choose|t: int| 0 <= t < ids@.len() && ids@[t] == x && deg@[t] == 0;
                }
                if initially_ready(self.edges@, en).contains(x) {
                    assert(en.contains(x));
                    assert(ids@.contains(x));
                    let t = choose|t: int| 0 <= t < ids@.len() && ids@[t] == x;
                    assert(deg@[t] == 0);
                }
            }
        }
        let ghost mut bounds: Seq<int> = seq![queue@.len() as int];
        let mut order: Vec<u64> = Vec::new();
        let mut head: usize = 0;
        while head < queue.len()
            invariant
                en == enabled_ids(self.nodes@),
                ids@.no_duplicates(),
                forall|x: u64| ids@.contains(x) <==> en.contains(x),
                deg@.len() == ids@.len(),
                head <= queue@.len() <= ids@.len(),
                queue@.no_duplicates(),
                forall|x: u64| queue@.contains(x) ==> ids@.contains(x),
                order@ == queue@.take(head as int),
                forall|j: int|
                    0 <= j < ids@.len() ==> deg@[j] == count_edges(
                        self.edges@,
                        pending_into(en, #[trigger] ids@[j], queue@.take(head as int).to_set()),
                    ),
                forall|j: int|
                    0 <= j < ids@.len() ==> (deg@[j] == 0 <==> queue@.contains(#[trigger] ids@[j])),
                forall|k: int, a: int|
                    0 <= k < self.edges@.len() && 0 <= a < head && counted(
                        #[trigger] self.edges@[k],
                        en,
                    ) && self.edges@[k].to_node == #[trigger] queue@[a] ==> exists|b: int|
                        0 <= b < a && queue@[b] == self.edges@[k].from_node,
                bounds.len() == head + 1,
                bounds[head as int] == queue@.len(),
                forall|i: int| 0 <= i <= head ==> 0 <= #[trigger] bounds[i] <= queue@.len(),
                forall|i: int| 0 <= i < head ==> bounds[i] <= #[trigger] bounds[i + 1],
                lists_in_order(queue@.subrange(0, bounds[0]), initially_ready(self.edges@, en)),
                forall|i: int|
                    0 <= i < head ==> lists_in_order(
                        #[trigger] queue@.subrange(bounds[i], bounds[i + 1]),
                        released_by(self.edges@, en, queue@, i),
                    ),
            decreases ids@.len() - head,
        {
            let id = queue[head];
            let ghost done = queue@.take(head as int).to_set();
            let ghost old_queue = queue@;
            proof {
                assert(ids@.contains(id));
                assert(!queue@.take(head as int).contains(id)) by {
                    if queue@.take(head as int).contains(id) {
                        let b = choose|b: int| 0 <= b < head && queue@.take(head as int)[b] == id;
                        assert(queue@[b] == queue@[head as int]);
                    }
                }
                // every counted edge into `id` starts at a node already scheduled
                let jid = choose|t: int| 0 <= t < ids@.len() && ids@[t] == id;
                assert(deg@[jid] == 0);
                lemma_count_bounds(self.edges@, pending_into(en, id, done));
                assert forall|k: int|
                    0 <= k < self.edges@.len() && counted(#[trigger] self.edges@[k], en)
                        && self.edges@[k].to_node == id implies exists|b: int|
                    0 <= b < head && queue@[b] == self.edges@[k].from_node by {
                    assert(done.contains(self.edges@[k].from_node));
                    assert(queue@.take(head as int).contains(self.edges@[k].from_node));
                    let b = choose|b: int|
                        0 <= b < head && queue@.take(head as int)[b] == self.edges@[k].from_node;
                    assert(queue@[b] == self.edges@[k].from_node);
                }
            }
            order.push(id);
            let ghost old_deg = deg@;
            let ready = release_successors(
                &self.edges,
                &ids,
                &mut deg,
                id,
                Ghost(en),
                Ghost(done),
                Ghost(queue@),
            );
            let sorted_ready = sort_u64(&ready);
            proof {
                lemma_same_multiset_nodup(ready@, sorted_ready@);
            }
            let mut t: usize = 0;
            while t < sorted_ready.len()
                invariant
                    t <= sorted_ready@.len(),
                    queue@ == old_queue + sorted_ready@.take(t as int),
                decreases sorted_ready@.len() - t,
            {
                queue.push(sorted_ready[t]);
                proof {
                    assert(sorted_ready@.take(t + 1) =~= sorted_ready@.take(t as int).push(
                        sorted_ready@[t as int],
                    ));
                }
                t += 1;
            }
            proof {
                assert(sorted_ready@.take(sorted_ready@.len() as int) =~= sorted_ready@);
                assert(queue@ == old_queue + sorted_ready@);
                assert(queue@.take(head + 1) =~= old_queue.take(head as int).push(id));
                assert(queue@.take(head + 1).to_set() =~= done.insert(id)) by {
                    old_queue.take(head as int).lemma_push_to_set_commute(id);
                }
                assert forall|x: u64| queue@.contains(x) <==> (old_queue.contains(x)
                    || sorted_ready@.contains(x)) by {
                    if queue@.contains(x) {
                        let a = choose|a: int| 0 <= a < queue@.len() && queue@[a] == x;
                        if a < old_queue.len() {
                            assert(old_queue[a] == x);
                        } else {
                            assert(sorted_ready@[a - old_queue.len()] == x);
                        }
                    }
                    if old_queue.contains(x) {
                        let a = choose|a: int| 0 <= a < old_queue.len() && old_queue[a] == x;
                        assert(queue@[a] == x);
                    }
                    if sorted_ready@.contains(x) {
                        let a = choose|a: int| 0 <= a < sorted_ready@.len() && sorted_ready@[a] == x;
                        assert(queue@[old_queue.len() + a] == x);
                    }
                }
                assert(queue@.no_duplicates()) by {
                    assert forall|a: int, b: int|
                        0 <= a < queue@.len() && 0 <= b < queue@.len() && a != b implies queue@[a]
                        != queue@[b] by {
                        if a >= old_queue.len() && b < old_queue.len() {
                            assert(sorted_ready@.contains(queue@[a]));
                            assert(old_queue.contains(queue@[b]));
                        } else if a < old_queue.len() && b >= old_queue.len() {
                            assert(sorted_ready@.contains(queue@[b]));
                            assert(old_queue.contains(queue@[a]));
                        } else if a >= old_queue.len() && b >= old_queue.len() {
                            assert(queue@[a] == sorted_ready@[a - old_queue.len()]);
                            assert(queue@[b] == sorted_ready@[b - old_queue.len()]);
                        }
                    }
                }
                assert forall|x: u64| queue@.contains(x) implies ids@.contains(x) by {
                    if sorted_ready@.contains(x) {
                        assert(ready@.contains(x));
                    }
                }
                lemma_nodup_subset_len(queue@, ids@);
                assert forall|k: int, a: int|
                    0 <= k < self.edges@.len() && 0 <= a < head + 1 && counted(
                        #[trigger] self.edges@[k],
                        en,
                    ) && self.edges@[k].to_node == #[trigger] queue@[a] implies exists|b: int|
                    0 <= b < a && queue@[b] == self.edges@[k].from_node by {
                    assert(queue@[a] == old_queue[a]);
                    if a < head {
                        let b = choose|b: int| 0 <= b < a && old_queue[b] == self.edges@[k].from_node;
                        assert(queue@[b] == self.edges@[k].from_node);
                    } else {
                        let b = choose|b: int| 0 <= b < head && old_queue[b] == self.edges@[k].from_node;
                        assert(queue@[b] == self.edges@[k].from_node);
                    }
                }
                lemma_kahn_step(
                    self.edges@,
                    en,
                    ids@,
                    old_deg,
                    deg@,
                    old_queue,
                    sorted_ready@,
                    ready@,
                    queue@,
                    bounds,
                    head as int,
                    id,
                );
                bounds = bounds.push(queue@.len() as int);
            }
            head += 1;
        }
        // nodes that were not scheduled, one identifier per node
        let mut rest: Vec<u64> = Vec::new();
        let mut i: usize = 0;
        while i < self.nodes.len()
            invariant
                i <= self.nodes@.len(),
                rest@ == node_ids(self.nodes@.take(i as int)).filter(|x: u64| !order@.contains(x)),
            decreases self.nodes@.len() - i,
        {
            let nid = self.nodes[i].id;
            let ghost before = rest@;
            if index_of(&order, nid).is_none() {
                rest.push(nid);
            }
            proof {
                reveal(Seq::filter);
                let t1 = node_ids(self.nodes@.take(i + 1));
                assert(t1.drop_last() =~= node_ids(self.nodes@.take(i as int)));
                assert(t1.last() == nid);
            }
            i += 1;
        }
        proof {
            assert(self.nodes@.take(self.nodes@.len() as int) =~= self.nodes@);
        }
        let mut tail = sort_u64(&rest);
        let m = order.len();
        let ghost scheduled = order@;
        let ghost tail_v = tail@;
        order.append(&mut tail);
        proof {
            let r = order@;
            assert(r.take(m as int) =~= scheduled);
            assert(r.skip(m as int) =~= tail_v);
            assert(scheduled == queue@);
            assert forall|v: u64| en.contains(v) && !scheduled.contains(v) implies exists|k: int|
                0 <= k < self.edges@.len() && counted(#[trigger] self.edges@[k], en)
                    && self.edges@[k].to_node == v && !scheduled.contains(
                    self.edges@[k].from_node,
                ) by {
                let j = choose|j: int| 0 <= j < ids@.len() && ids@[j] == v;
                assert(queue@.take(head as int) =~= queue@);
                assert(deg@[j] != 0);
                lemma_count_bounds(self.edges@, pending_into(en, v, queue@.to_set()));
                let k = choose|k: int|
                    0 <= k < self.edges@.len() && pending_into(en, v, queue@.to_set())(
                        self.edges@[k],
                    );
                assert(!queue@.to_set().contains(self.edges@[k].from_node));
            }
            assert forall|i: int| 0 <= i < m implies en.contains(#[trigger] r.take(m as int)[i]) by {
                assert(queue@.contains(queue@[i]));
            }
            assert((|x: u64| !scheduled.contains(x)) =~= (|x: u64| !r.take(m as int).contains(x)));
            assert(head == queue@.len());
            assert(is_kahn_queue(self.edges@, en, r.take(m as int), bounds));
            assert(is_order_split(self.nodes@, self.edges@, r, m as int));
        }
        order
    }
}

// ── Scheduling ─────────────────────────────────────────────────────────────

/// Identifiers of the enabled nodes.
pub open spec fn enabled_ids(nodes: Seq<GraphNode>) -> Set<u64> {
    Set::new(|x: u64| exists|i: int| 0 <= i < nodes.len() && nodes[i].enabled && nodes[i].id == x)
}

/// An edge takes part in scheduling when both of its ends are enabled node identifiers.
pub open spec fn counted(e: GraphEdge, en: Set<u64>) -> bool {
    en.contains(e.from_node) && en.contains(e.to_node)
}

/// Number of edges of `es` that satisfy `f`.
pub open spec fn count_edges(es: Seq<GraphEdge>, f: spec_fn(GraphEdge) -> bool) -> nat
    decreases es.len(),
{
    if es.len() == 0 {
        0
    } else {
        count_edges(es.drop_last(), f) + if f(es.last()) {
            1nat
        } else {
            0nat
        }
    }
}

/// Counted edges into `v` whose start is not in `done`.
pub open spec fn pending_into(en: Set<u64>, v: u64, done: Set<u64>) -> spec_fn(GraphEdge) -> bool {
    |e: GraphEdge| counted(e, en) && e.to_node == v && !done.contains(e.from_node)
}

/// Counted edges from `u` to `v`.
pub open spec fn counted_between(en: Set<u64>, u: u64, v: u64) -> spec_fn(GraphEdge) -> bool {
    |e: GraphEdge| counted(e, en) && e.from_node == u && e.to_node == v
}

/// Identifiers of all nodes, in list order (duplicates kept).
pub open spec fn node_ids(nodes: Seq<GraphNode>) -> Seq<u64> {
    nodes.map_values(|n: GraphNode| n.id)
}

/// `r` is an execution order for the graph, with its first `m` entries scheduled by
/// dependency and the rest appended:
/// - the scheduled part names distinct enabled nodes;
/// - every counted edge into a scheduled node starts at a node scheduled before it;
/// - every enabled node left out has a counted edge into it from a node left out
///   (so nothing that could have been scheduled was left out);
/// - the scheduled part is in the order of Kahn's algorithm (see [`is_kahn_queue`]);
/// - the appended part is, in ascending order, the identifiers of the nodes (one per
///   node of the list) that are not in the scheduled part.
pub open spec fn is_order_split(nodes: Seq<GraphNode>, edges: Seq<GraphEdge>, r: Seq<u64>, m: int) -> bool {
    let en = enabled_ids(nodes);
    let p = r.take(m);
    let q = r.skip(m);
    &&& 0 <= m <= r.len()
    &&& p.no_duplicates()
    &&& forall|i: int| 0 <= i < m ==> en.contains(#[trigger] p[i])
    &&& forall|k: int, j: int|
        0 <= k < edges.len() && 0 <= j < m && counted(#[trigger] edges[k], en) && edges[k].to_node
            == #[trigger] p[j] ==> exists|i: int| 0 <= i < j && p[i] == edges[k].from_node
    &&& forall|v: u64|
        en.contains(v) && !p.contains(v) ==> exists|k: int|
            0 <= k < edges.len() && counted(#[trigger] edges[k], en) && edges[k].to_node == v
                && !p.contains(edges[k].from_node)
    &&& exists|bounds: Seq<int>| is_kahn_queue(edges, en, p, bounds)
    &&& sorted_u64(q)
    &&& q.to_multiset() == node_ids(nodes).filter(|x: u64| !p.contains(x)).to_multiset()
}

/// All counted edges into `v` start at nodes of `s`.
pub open spec fn ready_after(edges: Seq<GraphEdge>, en: Set<u64>, v: u64, s: Set<u64>) -> bool {
    count_edges(edges, pending_into(en, v, s)) == 0
}

/// `block` lists the members of `set` once each, in ascending order.
pub open spec fn lists_in_order(block: Seq<u64>, set: Set<u64>) -> bool {
    &&& sorted_u64(block)
    &&& block.no_duplicates()
    &&& forall|x: u64| block.contains(x) <==> set.contains(x)
}

/// Enabled nodes without counted edges into them.
pub open spec fn initially_ready(edges: Seq<GraphEdge>, en: Set<u64>) -> Set<u64> {
    Set::new(|v: u64| en.contains(v) && ready_after(edges, en, v, Set::empty()))
}

/// Enabled nodes that scheduling `p[i]` after `p[0..i]` makes ready.
pub open spec fn released_by(edges: Seq<GraphEdge>, en: Set<u64>, p: Seq<u64>, i: int) -> Set<u64> {
    Set::new(
        |v: u64|
            en.contains(v) && !ready_after(edges, en, v, p.take(i).to_set()) && ready_after(
                edges,
                en,
                v,
                p.take(i + 1).to_set(),
            ),
    )
}

/// `p` is the order in which Kahn's algorithm with a first-in first-out queue
/// schedules the enabled nodes: cut at `bounds`, it is the initially ready nodes in
/// ascending order, followed, for each scheduled node in turn, by the nodes that its
/// scheduling makes ready, in ascending order.
pub open spec fn is_kahn_queue(edges: Seq<GraphEdge>, en: Set<u64>, p: Seq<u64>, bounds: Seq<int>) -> bool {
    &&& bounds.len() == p.len() + 1
    &&& bounds[p.len() as int] == p.len()
    &&& 0 <= bounds[0]
    &&& forall|i: int| 0 <= i < p.len() ==> bounds[i] <= #[trigger] bounds[i + 1]
    &&& lists_in_order(p.subrange(0, bounds[0]), initially_ready(edges, en))
    &&& forall|i: int|
        0 <= i < p.len() ==> lists_in_order(#[trigger] p.subrange(bounds[i], bounds[i + 1]), released_by(edges, en, p, i))
}

/// Scheduling `old_queue[head]` and appending the nodes it releases, in ascending
/// order, keeps the queue in the order of Kahn's algorithm.
proof fn lemma_kahn_step(
    edges: Seq<GraphEdge>,
    en: Set<u64>,
    ids: Seq<u64>,
    old_deg: Seq<usize>,
    new_deg: Seq<usize>,
    old_queue: Seq<u64>,
    sorted_ready: Seq<u64>,
    ready: Seq<u64>,
    queue: Seq<u64>,
    bounds: Seq<int>,
    head: int,
    id: u64,
)
    requires
        forall|x: u64| ids.contains(x) <==> en.contains(x),
        old_deg.len() == ids.len(),
        new_deg.len() == ids.len(),
        forall|j: int|
            0 <= j < ids.len() ==> old_deg[j] == count_edges(
                edges,
                pending_into(en, #[trigger] ids[j], old_queue.take(head).to_set()),
            ),
        forall|j: int| 0 <= j < ids.len() ==> (old_deg[j] == 0 <==> old_queue.contains(#[trigger] ids[j])),
        forall|j: int|
            0 <= j < ids.len() ==> new_deg[j] == count_edges(
                edges,
                pending_into(en, #[trigger] ids[j], old_queue.take(head).to_set().insert(id)),
            ),
        forall|j: int|
            0 <= j < ids.len() ==> (new_deg[j] == 0 <==> (old_queue.contains(#[trigger] ids[j]) || ready.contains(
                ids[j],
            ))),
        forall|x: u64| ready.contains(x) ==> !old_queue.contains(x) && ids.contains(x),
        sorted_u64(sorted_ready),
        sorted_ready.no_duplicates(),
        forall|x: u64| sorted_ready.contains(x) <==> ready.contains(x),
        queue == old_queue + sorted_ready,
        0 <= head < old_queue.len(),
        id == old_queue[head],
        bounds.len() == head + 1,
        bounds[head] == old_queue.len(),
        forall|i: int| 0 <= i <= head ==> 0 <= #[trigger] bounds[i] <= old_queue.len(),
        forall|i: int| 0 <= i < head ==> bounds[i] <= #[trigger] bounds[i + 1],
        lists_in_order(old_queue.subrange(0, bounds[0]), initially_ready(edges, en)),
        forall|i: int|
            0 <= i < head ==> lists_in_order(
                #[trigger] old_queue.subrange(bounds[i], bounds[i + 1]),
                released_by(edges, en, old_queue, i),
            ),
    ensures
        ({
            let nb = bounds.push(queue.len() as int);
            &&& nb.len() == head + 2
            &&& nb[head + 1] == queue.len()
            &&& forall|i: int| 0 <= i <= head + 1 ==> 0 <= #[trigger] nb[i] <= queue.len()
            &&& forall|i: int| 0 <= i < head + 1 ==> nb[i] <= #[trigger] nb[i + 1]
            &&& lists_in_order(queue.subrange(0, nb[0]), initially_ready(edges, en))
            &&& forall|i: int|
                0 <= i < head + 1 ==> lists_in_order(
                    #[trigger] queue.subrange(nb[i], nb[i + 1]),
                    released_by(edges, en, queue, i),
                )
        }),
{
    let nb = bounds.push(queue.len() as int);
    let done = old_queue.take(head).to_set();
    assert(queue.take(head) =~= old_queue.take(head));
    assert(queue.take(head + 1) =~= old_queue.take(head + 1));
    assert(old_queue.take(head + 1) =~= old_queue.take(head).push(id));
    assert(old_queue.take(head + 1).to_set() =~= done.insert(id)) by {
        old_queue.take(head).lemma_push_to_set_commute(id);
    }
    assert(queue.subrange(0, nb[0]) =~= old_queue.subrange(0, bounds[0]));
    assert forall|i: int| 0 <= i < head + 1 implies lists_in_order(
        #[trigger] queue.subrange(nb[i], nb[i + 1]),
        released_by(edges, en, queue, i),
    ) by {
        if i < head {
            assert(queue.subrange(nb[i], nb[i + 1]) =~= old_queue.subrange(bounds[i], bounds[i + 1]));
            assert(queue.take(i) =~= old_queue.take(i));
            assert(queue.take(i + 1) =~= old_queue.take(i + 1));
            assert(released_by(edges, en, queue, i) =~= released_by(edges, en, old_queue, i));
        } else {
            assert(queue.subrange(nb[i], nb[i + 1]) =~= sorted_ready);
            assert forall|x: u64| sorted_ready.contains(x) <==> released_by(edges, en, queue, head).contains(x) by {
                if sorted_ready.contains(x) {
                    assert(ready.contains(x));
                    let j = choose|j: int| 0 <= j < ids.len() && ids[j] == x;
                    assert(new_deg[j] == 0);
                    assert(old_deg[j] != 0);
                }
                if released_by(edges, en, queue, head).contains(x) {
                    assert(ids.contains(x));
                    let j = choose|j: int| 0 <= j < ids.len() && ids[j] == x;
                    assert(old_deg[j] != 0);
                    assert(new_deg[j] == 0);
                    assert(!old_queue.contains(x));
                }
            }
        }
    }
}

/// `r` is an execution order for the graph (see [`is_order_split`]).
pub open spec fn is_execution_order(nodes: Seq<GraphNode>, edges: Seq<GraphEdge>, r: Seq<u64>) -> bool {
    exists|m: int| is_order_split(nodes, edges, r, m)
}

proof fn lemma_count_step(s: Seq<GraphEdge>, f: spec_fn(GraphEdge) -> bool, k: int)
    requires
        0 <= k < s.len(),
    ensures
        count_edges(s.take(k + 1), f) == count_edges(s.take(k), f) + if f(s[k]) {
            1nat
        } else {
            0nat
        },
{
    assert(s.take(k + 1).drop_last() =~= s.take(k));
}

proof fn lemma_count_bounds(s: Seq<GraphEdge>, f: spec_fn(GraphEdge) -> bool)
    ensures
        count_edges(s, f) <= s.len(),
        count_edges(s, f) > 0 ==> exists|k: int| 0 <= k < s.len() && f(s[k]),
        (exists|k: int| 0 <= k < s.len() && f(s[k])) ==> count_edges(s, f) > 0,
    decreases s.len(),
{
    if s.len() > 0 {
        lemma_count_bounds(s.drop_last(), f);
        if count_edges(s.drop_last(), f) > 0 {
            let k = choose|k: int| 0 <= k < s.drop_last().len() && f(s.drop_last()[k]);
            assert(f(s[k]));
        }
        if exists|k: int| 0 <= k < s.len() && f(s[k]) {
            let k = choose|k: int| 0 <= k < s.len() && f(s[k]);
            if k < s.len() - 1 {
                assert(f(s.drop_last()[k]));
            }
        }
    }
}

proof fn lemma_count_prefix(s: Seq<GraphEdge>, f: spec_fn(GraphEdge) -> bool, k: int)
    requires
        0 <= k <= s.len(),
    ensures
        count_edges(s.take(k), f) <= count_edges(s, f),
    decreases s.len() - k,
{
    if k < s.len() {
        lemma_count_step(s, f, k);
        lemma_count_prefix(s, f, k + 1);
    } else {
        assert(s.take(k) =~= s);
    }
}

/// Edges into `v` not yet released split into those from `u` and those from nodes
/// other than `u` that are still not released.
proof fn lemma_count_release(s: Seq<GraphEdge>, en: Set<u64>, v: u64, done: Set<u64>, u: u64)
    requires
        !done.contains(u),
    ensures
        count_edges(s, pending_into(en, v, done)) == count_edges(
            s,
            pending_into(en, v, done.insert(u)),
        ) + count_edges(s, counted_between(en, u, v)),
    decreases s.len(),
{
    if s.len() > 0 {
        lemma_count_release(s.drop_last(), en, v, done, u);
    }
}

/// A counted edge runs from `u` to `v`.
pub open spec fn enabled_edge(nodes: Seq<GraphNode>, edges: Seq<GraphEdge>, u: u64, v: u64) -> bool {
    exists|k: int|
        0 <= k < edges.len() && counted(#[trigger] edges[k], enabled_ids(nodes)) && edges[k].from_node
            == u && edges[k].to_node == v
}

/// `w` is a walk along counted edges.
pub open spec fn is_enabled_walk(nodes: Seq<GraphNode>, edges: Seq<GraphEdge>, w: Seq<u64>) -> bool {
    &&& w.len() >= 1
    &&& forall|i: int| 0 <= i < w.len() - 1 ==> enabled_edge(nodes, edges, #[trigger] w[i], w[i + 1])
}

/// No walk along counted edges returns to where it started.
pub open spec fn enabled_acyclic(nodes: Seq<GraphNode>, edges: Seq<GraphEdge>) -> bool {
    forall|w: Seq<u64>|
        #[trigger] is_enabled_walk(nodes, edges, w) && w.len() >= 2 ==> w[0] != w[w.len() - 1]
}

/// Every enabled identifier is the identifier of some node of the list.
proof fn lemma_enabled_ids_finite(nodes: Seq<GraphNode>)
    ensures
        enabled_ids(nodes).finite(),
        enabled_ids(nodes).len() <= nodes.len(),
{
    let ids = node_ids(nodes);
    assert forall|x: u64| enabled_ids(nodes).contains(x) implies ids.to_set().contains(x) by {
        let i = choose|i: int| 0 <= i < nodes.len() && nodes[i].enabled && nodes[i].id == x;
        assert(ids[i] == x);
    }
    assert(enabled_ids(nodes).subset_of(ids.to_set()));
    ids.lemma_cardinality_of_set();
    vstd::set_lib::lemma_len_subset(enabled_ids(nodes), ids.to_set());
}

/// Starting from a node left out of a schedule that is closed under predecessors,
/// walks back `n` steps along counted edges without meeting a scheduled node.
proof fn lemma_backward_walk(
    nodes: Seq<GraphNode>,
    edges: Seq<GraphEdge>,
    p: Seq<u64>,
    v: u64,
    n: nat,
) -> (w: Seq<u64>)
    requires
        enabled_ids(nodes).contains(v),
        !p.contains(v),
        forall|x: u64|
            enabled_ids(nodes).contains(x) && !p.contains(x) ==> exists|k: int|
                0 <= k < edges.len() && counted(#[trigger] edges[k], enabled_ids(nodes))
                    && edges[k].to_node == x && !p.contains(edges[k].from_node),
    ensures
        w.len() == n + 1,
        is_enabled_walk(nodes, edges, w),
        w[w.len() - 1] == v,
        forall|i: int| 0 <= i < w.len() ==> enabled_ids(nodes).contains(#[trigger] w[i]) && !p.contains(w[i]),
    decreases n,
{
    if n == 0 {
        seq![v]
    } else {
        let w0 = lemma_backward_walk(nodes, edges, p, v, (n - 1) as nat);
        let x = w0[0];
        let k = choose|k: int|
            0 <= k < edges.len() && counted(#[trigger] edges[k], enabled_ids(nodes))
                && edges[k].to_node == x && !p.contains(edges[k].from_node);
        let u = edges[k].from_node;
        let w = seq![u] + w0;
        assert forall|i: int| 0 <= i < w.len() - 1 implies enabled_edge(nodes, edges, #[trigger] w[i], w[i + 1]) by {
            if i == 0 {
                assert(enabled_edge(nodes, edges, u, x));
            } else {
                assert(w[i] == w0[i - 1]);
                assert(w[i + 1] == w0[i]);
            }
        }
        assert forall|i: int| 0 <= i < w.len() implies enabled_ids(nodes).contains(#[trigger] w[i]) && !p.contains(w[i]) by {
            if i > 0 {
                assert(w[i] == w0[i - 1]);
            }
        }
        w
    }
}

/// When no walk along counted edges closes a cycle, the execution order schedules
/// every enabled node by dependency: each enabled node occurs in the scheduled part,
/// after every enabled node with an edge into it.
pub proof fn lemma_acyclic_schedules_all_enabled(
    nodes: Seq<GraphNode>,
    edges: Seq<GraphEdge>,
    r: Seq<u64>,
)
    requires
        is_execution_order(nodes, edges, r),
        enabled_acyclic(nodes, edges),
    ensures
        exists|m: int|
            is_order_split(nodes, edges, r, m) && forall|v: u64|
                enabled_ids(nodes).contains(v) ==> #[trigger] r.take(m).contains(v),
{
    let m = choose|m: int| is_order_split(nodes, edges, r, m);
    let p = r.take(m);
    assert forall|v: u64| enabled_ids(nodes).contains(v) implies #[trigger] p.contains(v) by {
        lemma_closed_schedule_contains(nodes, edges, p, v);
    }
}

/// A schedule that leaves out no node all of whose predecessors are scheduled holds
/// every enabled node of an acyclic graph.
proof fn lemma_closed_schedule_contains(
    nodes: Seq<GraphNode>,
    edges: Seq<GraphEdge>,
    p: Seq<u64>,
    v: u64,
)
    requires
        enabled_acyclic(nodes, edges),
        enabled_ids(nodes).contains(v),
        forall|x: u64|
            enabled_ids(nodes).contains(x) && !p.contains(x) ==> exists|k: int|
                0 <= k < edges.len() && counted(#[trigger] edges[k], enabled_ids(nodes))
                    && edges[k].to_node == x && !p.contains(edges[k].from_node),
    ensures
        p.contains(v),
{
    let en = enabled_ids(nodes);
    if !p.contains(v) {
        lemma_enabled_ids_finite(nodes);
        let w = lemma_backward_walk(nodes, edges, p, v, en.len());
        lemma_long_seq_repeats(w, en);
        lemma_repeat_gives_cycle(nodes, edges, w);
    }
}

/// A sequence longer than a finite set it lives in repeats an element.
proof fn lemma_long_seq_repeats(w: Seq<u64>, s: Set<u64>)
    requires
        s.finite(),
        w.len() > s.len(),
        forall|i: int| 0 <= i < w.len() ==> s.contains(#[trigger] w[i]),
    ensures
        !w.no_duplicates(),
{
    if w.no_duplicates() {
        w.unique_seq_to_set();
        assert(w.to_set().subset_of(s));
        vstd::set_lib::lemma_len_subset(w.to_set(), s);
    }
}

/// A walk along counted edges that repeats a node closes a cycle.
proof fn lemma_repeat_gives_cycle(nodes: Seq<GraphNode>, edges: Seq<GraphEdge>, w: Seq<u64>)
    requires
        is_enabled_walk(nodes, edges, w),
        !w.no_duplicates(),
    ensures
        !enabled_acyclic(nodes, edges),
{
    let (a, b) = choose|a: int, b: int|
        0 <= a < w.len() && 0 <= b < w.len() && a != b && w[a] == w[b];
    let lo = if a < b { a } else { b };
    let hi = if a < b { b } else { a };
    let c = w.subrange(lo, hi + 1);
    assert forall|i: int| 0 <= i < c.len() - 1 implies enabled_edge(nodes, edges, #[trigger] c[i], c[i + 1]) by {
        assert(c[i] == w[lo + i]);
        assert(c[i + 1] == w[lo + i + 1]);
        assert(enabled_edge(nodes, edges, w[lo + i], w[lo + i + 1]));
    }
    assert(is_enabled_walk(nodes, edges, c));
    assert(c[0] == c[c.len() - 1]);
}

/// Whether `ids` holds `x`, and where.
fn index_of(ids: &Vec<u64>, x: u64) -> (r: Option<usize>)
    ensures
        match r {
            Some(j) => j < ids@.len() && ids@[j as int] == x,
            None => !ids@.contains(x),
        },
{
    let mut i: usize = 0;
    while i < ids.len()
        invariant
            i <= ids@.len(),
            forall|j: int| 0 <= j < i ==> ids@[j] != x,
        decreases ids@.len() - i,
    {
        if ids[i] == x {
            return Some(i);
        }
        i += 1;
    }
    None
}

/// Distinct identifiers of the enabled nodes, in order of first appearance.
fn collect_enabled_ids(nodes: &Vec<GraphNode>) -> (ids: Vec<u64>)
    ensures
        ids@.no_duplicates(),
        forall|x: u64| ids@.contains(x) <==> enabled_ids(nodes@).contains(x),
{
    let mut ids: Vec<u64> = Vec::new();
    let mut i: usize = 0;
    while i < nodes.len()
        invariant
            i <= nodes@.len(),
            ids@.no_duplicates(),
            forall|x: u64|
                ids@.contains(x) <==> exists|t: int|
                    0 <= t < i && nodes@[t].enabled && nodes@[t].id == x,
        decreases nodes@.len() - i,
    {
        let n = &nodes[i];
        let ghost old_ids = ids@;
        if n.enabled {
            match index_of(&ids, n.id) {
                Some(_) => {},
                None => {
                    ids.push(n.id);
                },
            }
        }
        proof {
            assert forall|x: u64|
                ids@.contains(x) <==> exists|t: int|
                    0 <= t < i + 1 && nodes@[t].enabled && nodes@[t].id == x by {
                if ids@.contains(x) {
                    let a = choose|a: int| 0 <= a < ids@.len() && ids@[a] == x;
                    if a < old_ids.len() {
                        assert(old_ids[a] == x);
                        assert(old_ids.contains(x));
                    } else {
                        assert(nodes@[i as int].id == x);
                    }
                }
                if exists|t: int| 0 <= t < i + 1 && nodes@[t].enabled && nodes@[t].id == x {
                    let t = choose|t: int| 0 <= t < i + 1 && nodes@[t].enabled && nodes@[t].id == x;
                    if t < i {
                        assert(old_ids.contains(x));
                        let a = choose|a: int| 0 <= a < old_ids.len() && old_ids[a] == x;
                        assert(ids@[a] == x);
                    } else if old_ids.contains(x) {
                        let a = choose|a: int| 0 <= a < old_ids.len() && old_ids[a] == x;
                        assert(ids@[a] == x);
                    } else {
                        assert(ids@[ids@.len() - 1] == x);
                    }
                }
            }
        }
        i += 1;
    }
    ids
}

/// For each identifier, the number of counted edges into it.
fn initial_degrees(ids: &Vec<u64>, edges: &Vec<GraphEdge>, Ghost(en): Ghost<Set<u64>>) -> (deg: Vec<usize>)
    requires
        ids@.no_duplicates(),
        forall|x: u64| ids@.contains(x) <==> en.contains(x),
    ensures
        deg@.len() == ids@.len(),
        forall|j: int|
            0 <= j < ids@.len() ==> deg@[j] == count_edges(
                edges@,
                pending_into(en, #[trigger] ids@[j], Set::empty()),
            ),
{
    let mut deg: Vec<usize> = Vec::new();
    let mut j: usize = 0;
    while j < ids.len()
        invariant
            j <= ids@.len(),
            deg@.len() == j,
            forall|t: int| 0 <= t < j ==> deg@[t] == 0,
        decreases ids@.len() - j,
    {
        deg.push(0);
        j += 1;
    }
    let mut k: usize = 0;
    while k < edges.len()
        invariant
            k <= edges@.len(),
            ids@.no_duplicates(),
            forall|x: u64| ids@.contains(x) <==> en.contains(x),
            deg@.len() == ids@.len(),
            forall|t: int|
                0 <= t < ids@.len() ==> deg@[t] == count_edges(
                    edges@.take(k as int),
                    pending_into(en, #[trigger] ids@[t], Set::empty()),
                ),
        decreases edges@.len() - k,
    {
        let e = &edges[k];
        let from_in = index_of(ids, e.from_node);
        let to_in = index_of(ids, e.to_node);
        proof {
            assert forall|t: int| 0 <= t < ids@.len() implies count_edges(
                edges@.take(k + 1),
                pending_into(en, #[trigger] ids@[t], Set::empty()),
            ) == count_edges(edges@.take(k as int), pending_into(en, ids@[t], Set::empty()))
                + if counted(edges@[k as int], en) && edges@[k as int].to_node == ids@[t] {
                1nat
            } else {
                0nat
            } by {
                lemma_count_step(edges@, pending_into(en, ids@[t], Set::empty()), k as int);
            }
        }
        if from_in.is_some() {
            match to_in {
                Some(j) => {
                    proof {
                        lemma_count_bounds(
                            edges@.take(k as int),
                            pending_into(en, ids@[j as int], Set::empty()),
                        );
                        assert(ids@.contains(e.from_node));
                        assert(ids@.contains(e.to_node));
                    }
                    deg.set(j, deg[j] + 1);
                    proof {
                        assert forall|t: int| 0 <= t < ids@.len() && t != j implies ids@[t]
                            != e.to_node by {}
                    }
                },
                None => {},
            }
        }
        k += 1;
    }
    proof {
        assert(edges@.take(edges@.len() as int) =~= edges@);
    }
    deg
}

/// The identifiers whose degree is zero, in ascending order.
fn zero_degree_sorted(ids: &Vec<u64>, deg: &Vec<usize>) -> (q: Vec<u64>)
    requires
        ids@.no_duplicates(),
        deg@.len() == ids@.len(),
    ensures
        sorted_u64(q@),
        q@.no_duplicates(),
        forall|x: u64|
            q@.contains(x) <==> exists|j: int| 0 <= j < ids@.len() && ids@[j] == x && deg@[j] == 0,
{
    let mut z: Vec<u64> = Vec::new();
    let mut i: usize = 0;
    while i < ids.len()
        invariant
            i <= ids@.len(),
            ids@.no_duplicates(),
            deg@.len() == ids@.len(),
            z@.no_duplicates(),
            forall|x: u64|
                z@.contains(x) <==> exists|j: int| 0 <= j < i && ids@[j] == x && deg@[j] == 0,
        decreases ids@.len() - i,
    {
        let ghost old_z = z@;
        if deg[i] == 0 {
            proof {
                if z@.contains(ids@[i as int]) {
                    let j = choose|j: int| 0 <= j < i && ids@[j] == ids@[i as int] && deg@[j] == 0;
                }
            }
            z.push(ids[i]);
        }
        proof {
            assert forall|x: u64|
                z@.contains(x) <==> exists|j: int| 0 <= j < i + 1 && ids@[j] == x && deg@[j] == 0 by {
                if z@.contains(x) {
                    let a = choose|a: int| 0 <= a < z@.len() && z@[a] == x;
                    if a < old_z.len() {
                        assert(old_z[a] == x);
                        assert(old_z.contains(x));
                    }
                }
                if exists|j: int| 0 <= j < i + 1 && ids@[j] == x && deg@[j] == 0 {
                    let j = choose|j: int| 0 <= j < i + 1 && ids@[j] == x && deg@[j] == 0;
                    if j < i {
                        assert(old_z.contains(x));
                        let a = choose|a: int| 0 <= a < old_z.len() && old_z[a] == x;
                        assert(z@[a] == x);
                    } else {
                        assert(z@[z@.len() - 1] == x);
                    }
                }
            }
        }
        i += 1;
    }
    let q = sort_u64(&z);
    proof {
        lemma_same_multiset_nodup(z@, q@);
    }
    q
}

/// Schedules `id`: lowers, once per counted edge from `id`, the degree of the edge's
/// end, and returns the identifiers whose degree reached zero.
fn release_successors(
    edges: &Vec<GraphEdge>,
    ids: &Vec<u64>,
    deg: &mut Vec<usize>,
    id: u64,
    Ghost(en): Ghost<Set<u64>>,
    Ghost(done): Ghost<Set<u64>>,
    Ghost(queue): Ghost<Seq<u64>>,
) -> (ready: Vec<u64>)
    requires
        ids@.no_duplicates(),
        forall|x: u64| ids@.contains(x) <==> en.contains(x),
        en.contains(id),
        !done.contains(id),
        old(deg)@.len() == ids@.len(),
        forall|j: int|
            0 <= j < ids@.len() ==> old(deg)@[j] == count_edges(
                edges@,
                pending_into(en, #[trigger] ids@[j], done),
            ),
        forall|j: int|
            0 <= j < ids@.len() ==> (old(deg)@[j] == 0 <==> queue.contains(#[trigger] ids@[j])),
    ensures
        final(deg)@.len() == ids@.len(),
        forall|j: int|
            0 <= j < ids@.len() ==> final(deg)@[j] == count_edges(
                edges@,
                pending_into(en, #[trigger] ids@[j], done.insert(id)),
            ),
        ready@.no_duplicates(),
        forall|x: u64| ready@.contains(x) ==> !queue.contains(x) && ids@.contains(x),
        forall|j: int|
            0 <= j < ids@.len() ==> (final(deg)@[j] == 0 <==> (queue.contains(#[trigger] ids@[j])
                || ready@.contains(ids@[j]))),
{
    let mut ready: Vec<u64> = Vec::new();
    let mut k: usize = 0;
    while k < edges.len()
        invariant
            k <= edges@.len(),
            ids@.no_duplicates(),
            forall|x: u64| ids@.contains(x) <==> en.contains(x),
            en.contains(id),
            !done.contains(id),
            deg@.len() == ids@.len(),
            forall|j: int|
                0 <= j < ids@.len() ==> deg@[j] + count_edges(
                    edges@.take(k as int),
                    counted_between(en, id, #[trigger] ids@[j]),
                ) == count_edges(edges@, pending_into(en, ids@[j], done)),
            ready@.no_duplicates(),
            forall|x: u64| ready@.contains(x) ==> !queue.contains(x),
            forall|x: u64| ready@.contains(x) ==> ids@.contains(x),
            forall|j: int|
                0 <= j < ids@.len() ==> (deg@[j] == 0 <==> (queue.contains(#[trigger] ids@[j])
                    || ready@.contains(ids@[j]))),
        decreases edges@.len() - k,
    {
        let e = &edges[k];
        proof {
            assert forall|t: int| 0 <= t < ids@.len() implies count_edges(
                edges@.take(k + 1),
                counted_between(en, id, #[trigger] ids@[t]),
            ) == count_edges(edges@.take(k as int), counted_between(en, id, ids@[t])) + if counted(
                edges@[k as int],
                en,
            ) && edges@[k as int].from_node == id && edges@[k as int].to_node == ids@[t] {
                1nat
            } else {
                0nat
            } by {
                lemma_count_step(edges@, counted_between(en, id, ids@[t]), k as int);
            }
        }
        if e.from_node == id {
            match index_of(ids, e.to_node) {
                Some(j) => {
                    proof {
                        assert(ids@.contains(e.to_node));
                        assert(counted(edges@[k as int], en));
                        lemma_count_release(edges@, en, ids@[j as int], done, id);
                        lemma_count_prefix(edges@, counted_between(en, id, ids@[j as int]), k + 1);
                        assert forall|t: int| 0 <= t < ids@.len() && t != j implies ids@[t]
                            != e.to_node by {}
                    }
                    let ghost old_ready = ready@;
                    let ghost old_deg = deg@;
                    assert(old_deg[j as int] >= 1);
                    assert(!queue.contains(ids@[j as int]));
                    deg.set(j, deg[j] - 1);
                    if deg[j] == 0 {
                        ready.push(e.to_node);
                    }
                    proof {
                        assert forall|t: int| 0 <= t < ids@.len() implies (deg@[t] == 0 <==> (
                        queue.contains(#[trigger] ids@[t]) || ready@.contains(ids@[t]))) by {
                            if t != j {
                                if ready@.contains(ids@[t]) {
                                    let a = choose|a: int|
                                        0 <= a < ready@.len() && ready@[a] == ids@[t];
                                    if a == old_ready.len() {
                                    } else {
                                        assert(old_ready[a] == ids@[t]);
                                    }
                                }
                                if old_ready.contains(ids@[t]) {
                                    let a = choose|a: int|
                                        0 <= a < old_ready.len() && old_ready[a] == ids@[t];
                                    assert(ready@[a] == ids@[t]);
                                }
                            } else if deg@[t] == 0 {
                                assert(ready@[ready@.len() - 1] == ids@[t]);
                            } else {
                                if ready@.contains(ids@[t]) {
                                    let a = choose|a: int|
                                        0 <= a < ready@.len() && ready@[a] == ids@[t];
                                    assert(old_ready[a] == ids@[t]);
                                }
                            }
                        }
                        assert forall|x: u64| ready@.contains(x) implies (!queue.contains(x)
                            && ids@.contains(x)) by {
                            let a = choose|a: int| 0 <= a < ready@.len() && ready@[a] == x;
                            if a < old_ready.len() {
                                assert(old_ready[a] == x);
                                assert(old_ready.contains(x));
                            } else {
                                assert(ids@[j as int] == x);
                            }
                        }
                    }
                },
                None => {
                    proof {
                        assert forall|t: int| 0 <= t < ids@.len() implies ids@[t] != e.to_node by {}
                    }
                },
            }
        }
        k += 1;
    }
    proof {
        assert(edges@.take(edges@.len() as int) =~= edges@);
        assert forall|j: int| 0 <= j < ids@.len() implies deg@[j] == count_edges(
            edges@,
            pending_into(en, #[trigger] ids@[j], done.insert(id)),
        ) by {
            lemma_count_release(edges@, en, ids@[j], done, id);
        }
    }
    ready
}

/// Two sequences with the same multiset hold the same elements, and share the
/// absence of duplicates.
proof fn lemma_same_multiset_nodup(a: Seq<u64>, b: Seq<u64>)
    requires
        a.to_multiset() == b.to_multiset(),
    ensures
        forall|x: u64| a.contains(x) <==> b.contains(x),
        a.no_duplicates() ==> b.no_duplicates(),
{
    broadcast use vstd::seq_lib::to_multiset_contains;
    broadcast use vstd::multiset::group_multiset_axioms;

    assert forall|x: u64| a.contains(x) <==> b.contains(x) by {
        vstd::seq_lib::to_multiset_contains(a, x);
        vstd::seq_lib::to_multiset_contains(b, x);
    }
    if a.no_duplicates() {
        a.lemma_multiset_has_no_duplicates();
        b.lemma_multiset_has_no_duplicates_conv();
    }
}

/// A duplicate-free sequence whose elements all occur in another duplicate-free
/// sequence is no longer than it.
proof fn lemma_nodup_subset_len(a: Seq<u64>, b: Seq<u64>)
    requires
        a.no_duplicates(),
        b.no_duplicates(),
        forall|x: u64| a.contains(x) ==> b.contains(x),
    ensures
        a.len() <= b.len(),
{
    a.unique_seq_to_set();
    b.unique_seq_to_set();
    assert(a.to_set().subset_of(b.to_set()));
    vstd::set_lib::lemma_len_subset(a.to_set(), b.to_set());
}

/// The node takes no input (with `inputs` set) or produces no output (otherwise).
pub open spec fn is_terminal(n: GraphNode, inputs: bool) -> bool {
    if inputs {
        spec_max_inputs(n.node_type) == 0
    } else {
        spec_max_outputs(n.node_type) == 0
    }
}

/// The nodes with no inputs (or with no outputs), in list order.
fn nodes_by_type(nodes: &Vec<GraphNode>, inputs: bool) -> (r: Vec<&GraphNode>)
    ensures
        r@.map_values(|n: &GraphNode| *n) == nodes@.filter(|n: GraphNode| is_terminal(n, inputs)),
{
    let ghost tp = |n: GraphNode| is_terminal(n, inputs);
    let mut r: Vec<&GraphNode> = Vec::new();
    let mut i: usize = 0;
    while i < nodes.len()
        invariant
            i <= nodes@.len(),
            r@.map_values(|n: &GraphNode| *n) == nodes@.take(i as int).filter(tp),
            tp == (|n: GraphNode| is_terminal(n, inputs)),
        decreases nodes@.len() - i,
    {
        let n = &nodes[i];
        let t = if inputs {
            n.node_type.max_inputs() == 0
        } else {
            n.node_type.max_outputs() == 0
        };
        let ghost before = r@;
        if t {
            r.push(n);
        }
        proof {
            reveal(Seq::filter);
            let t0 = nodes@.take(i as int);
            let t1 = nodes@.take(i + 1);
            assert(t1.drop_last() =~= t0);
            assert(t1.last() == nodes@[i as int]);
            if t {
                assert(r@.map_values(|n: &GraphNode| *n) =~= before.map_values(
                    |n: &GraphNode| *n,
                ).push(nodes@[i as int]));
            }
        }
        i += 1;
    }
    proof {
        assert(nodes@.take(nodes@.len() as int) =~= nodes@);
    }
    r
}

/// Whether some node of the list has identifier `id`.
fn contains_node_id(nodes: &Vec<GraphNode>, id: u64) -> (b: bool)
    ensures
        b == has_node_id(nodes@, id),
{
    let mut i: usize = 0;
    while i < nodes.len()
        invariant
            i <= nodes@.len(),
            forall|j: int| 0 <= j < i ==> nodes@[j].id != id,
        decreases nodes@.len() - i,
    {
        if nodes[i].id == id {
            return true;
        }
        i += 1;
    }
    false
}

/// Splits off the nodes whose identifier is not `id`, keeping their order, and
/// reports whether some node had identifier `id`.
fn nodes_without_id(v: Vec<GraphNode>, id: u64) -> (r: (Vec<GraphNode>, bool))
    ensures
        r.0@ == v@.filter(|n: GraphNode| n.id != id),
        r.1 == has_node_id(v@, id),
{
    let ghost orig = v@;
    let ghost np = |n: GraphNode| n.id != id;
    let mut rest = v;
    let mut kept: Vec<GraphNode> = Vec::new();
    let mut found = false;
    while rest.len() > 0
        invariant
            0 <= orig.len() - rest@.len(),
            rest@ == orig.skip(orig.len() - rest@.len()),
            kept@ == orig.take(orig.len() - rest@.len()).filter(np),
            found == has_node_id(orig.take(orig.len() - rest@.len()), id),
            np == (|n: GraphNode| n.id != id),
        decreases rest@.len(),
    {
        let ghost k = orig.len() - rest@.len();
        let x = rest.remove(0);
        proof {
            reveal(Seq::filter);
            assert(orig.take(k + 1).drop_last() =~= orig.take(k));
            assert(orig[k] == x);
            assert(rest@ =~= orig.skip(k + 1));
            let t0 = orig.take(k);
            let t1 = orig.take(k + 1);
            if has_node_id(t0, id) {
                let j = choose|j: int| 0 <= j < t0.len() && t0[j].id == id;
                assert(t1[j].id == id);
            }
            if has_node_id(t1, id) && x.id != id {
                let j = choose|j: int| 0 <= j < t1.len() && t1[j].id == id;
                assert(t0[j].id == id);
            }
            if x.id == id {
                assert(t1[k].id == id);
            }
            assert(t1.last() == x);
            assert(t1.filter(np) == (if np(x) {
                t0.filter(np).push(x)
            } else {
                t0.filter(np)
            }));
        }
        if x.id != id {
            kept.push(x);
        } else {
            found = true;
        }
    }
    proof {
        assert(orig.take(orig.len() as int) =~= orig);
    }
    (kept, found)
}

/// The edge is to be dropped: with `pair` set, an edge from `a` to `b`; otherwise an
/// edge touching node `a` at either end.
pub open spec fn edge_dropped(e: GraphEdge, a: u64, b: u64, pair: bool) -> bool {
    if pair {
        e.from_node == a && e.to_node == b
    } else {
        e.from_node == a || e.to_node == a
    }
}

/// Some edge of the list is to be dropped.
pub open spec fn has_dropped_edge(s: Seq<GraphEdge>, a: u64, b: u64, pair: bool) -> bool {
    exists|i: int| 0 <= i < s.len() && edge_dropped(s[i], a, b, pair)
}

/// Splits off the edges that are not dropped, keeping their order, and reports
/// whether some edge was dropped.
fn edges_filtered(v: Vec<GraphEdge>, a: u64, b: u64, pair: bool) -> (r: (Vec<GraphEdge>, bool))
    ensures
        r.0@ == v@.filter(|e: GraphEdge| !edge_dropped(e, a, b, pair)),
        r.1 == has_dropped_edge(v@, a, b, pair),
{
    let ghost orig = v@;
    let ghost ep = |e: GraphEdge| !edge_dropped(e, a, b, pair);
    let mut rest = v;
    let mut kept: Vec<GraphEdge> = Vec::new();
    let mut dropped = false;
    while rest.len() > 0
        invariant
            0 <= orig.len() - rest@.len(),
            rest@ == orig.skip(orig.len() - rest@.len()),
            kept@ == orig.take(orig.len() - rest@.len()).filter(ep),
            dropped == has_dropped_edge(orig.take(orig.len() - rest@.len()), a, b, pair),
            ep == (|e: GraphEdge| !edge_dropped(e, a, b, pair)),
        decreases rest@.len(),
    {
        let ghost k = orig.len() - rest@.len();
        let x = rest.remove(0);
        proof {
            reveal(Seq::filter);
            assert(orig.take(k + 1).drop_last() =~= orig.take(k));
            assert(orig[k] == x);
            assert(rest@ =~= orig.skip(k + 1));
            let t0 = orig.take(k);
            let t1 = orig.take(k + 1);
            if has_dropped_edge(t0, a, b, pair) {
                let j = choose|j: int| 0 <= j < t0.len() && edge_dropped(t0[j], a, b, pair);
                assert(t1[j] == t0[j]);
            }
            if has_dropped_edge(t1, a, b, pair) && !edge_dropped(x, a, b, pair) {
                let j = choose|j: int| 0 <= j < t1.len() && edge_dropped(t1[j], a, b, pair);
                assert(t0[j] == t1[j]);
            }
            if edge_dropped(x, a, b, pair) {
                assert(t1[k] == x);
            }
            assert(t1.last() == x);
            assert(t1.filter(ep) == (if ep(x) {
                t0.filter(ep).push(x)
            } else {
                t0.filter(ep)
            }));
        }
        let drop_it = if pair {
            x.from_node == a && x.to_node == b
        } else {
            x.from_node == a || x.to_node == a
        };
        if !drop_it {
            kept.push(x);
        } else {
            dropped = true;
        }
    }
    proof {
        assert(orig.take(orig.len() as int) =~= orig);
    }
    (kept, dropped)
}

impl Default for ProcessingGraph {
    fn default() -> (g: Self)
        ensures
            g.nodes@.len() == 0,
            g.edges@.len() == 0,
    {
        Self::new()
    }
}
} // verus!
