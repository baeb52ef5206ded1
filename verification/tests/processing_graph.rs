use oximedia::processing_graph::{GraphEdge, GraphNode, NodeType, ProcessingGraph};

fn source(id: u64) -> GraphNode {
    GraphNode::new(id, &format!("source_{id}"), NodeType::Source)
}
fn filter(id: u64) -> GraphNode {
    GraphNode::new(id, &format!("filter_{id}"), NodeType::Filter)
}
fn sink(id: u64) -> GraphNode {
    GraphNode::new(id, &format!("sink_{id}"), NodeType::Sink)
}

// ── NodeType ─────────────────────────────────────────────────────────────

#[test]
fn source_has_zero_inputs() {
    assert_eq!(NodeType::Source.max_inputs(), 0);
}

#[test]
fn sink_has_zero_outputs() {
    assert_eq!(NodeType::Sink.max_outputs(), 0);
}

#[test]
fn mixer_accepts_multiple_inputs() {
    assert!(NodeType::Mixer.max_inputs() > 1);
}

#[test]
fn splitter_produces_multiple_outputs() {
    assert!(NodeType::Splitter.max_outputs() > 1);
}

// ── GraphNode ────────────────────────────────────────────────────────────

#[test]
fn node_set_and_get_param() {
    let mut n = filter(1);
    n.set_param("width", "1920");
    assert_eq!(n.get_param("width"), Some("1920"));
}

#[test]
fn node_update_existing_param() {
    let mut n = filter(2);
    n.set_param("fps", "24");
    n.set_param("fps", "60");
    assert_eq!(n.get_param("fps"), Some("60"));
    // Only one entry for the key.
    assert_eq!(n.params.iter().filter(|(k, _)| k == "fps").count(), 1);
}

#[test]
fn node_missing_param_returns_none() {
    let n = source(3);
    assert!(n.get_param("nonexistent").is_none());
}

// ── GraphEdge ────────────────────────────────────────────────────────────

#[test]
fn edge_connects_returns_true_for_matching_pair() {
    let edge = GraphEdge {
        from_node: 1,
        from_port: 0,
        to_node: 2,
        to_port: 0,
    };
    assert!(edge.connects(1, 2));
}

#[test]
fn edge_connects_returns_false_for_reversed_pair() {
    let edge = GraphEdge {
        from_node: 1,
        from_port: 0,
        to_node: 2,
        to_port: 0,
    };
    assert!(!edge.connects(2, 1));
}

// ── ProcessingGraph ───────────────────────────────────────────────────────

#[test]
fn add_and_remove_node() {
    let mut g = ProcessingGraph::new();
    g.add_node(source(10));
    assert_eq!(g.nodes.len(), 1);
    assert!(g.remove_node(10));
    assert!(g.nodes.is_empty());
}

#[test]
fn remove_node_also_removes_edges() {
    let mut g = ProcessingGraph::new();
    g.add_node(source(1));
    g.add_node(sink(2));
    g.connect(1, 0, 2, 0);
    g.remove_node(1);
    assert!(g.edges.is_empty());
}

#[test]
fn connect_fails_for_missing_node() {
    let mut g = ProcessingGraph::new();
    g.add_node(source(1));
    assert!(!g.connect(1, 0, 99, 0)); // node 99 missing
}

#[test]
fn disconnect_removes_all_matching_edges() {
    let mut g = ProcessingGraph::new();
    g.add_node(source(1));
    g.add_node(sink(2));
    g.connect(1, 0, 2, 0);
    g.connect(1, 0, 2, 1);
    assert!(g.disconnect(1, 2));
    assert!(g.edges.is_empty());
}

#[test]
fn source_nodes_returns_only_sources() {
    let mut g = ProcessingGraph::new();
    g.add_node(source(1));
    g.add_node(filter(2));
    g.add_node(sink(3));
    let srcs: Vec<u64> = g.source_nodes().into_iter().map(|n| n.id).collect();
    assert_eq!(srcs, vec![1]);
}

#[test]
fn sink_nodes_returns_only_sinks() {
    let mut g = ProcessingGraph::new();
    g.add_node(source(1));
    g.add_node(sink(2));
    let sinks: Vec<u64> = g.sink_nodes().into_iter().map(|n| n.id).collect();
    assert_eq!(sinks, vec![2]);
}

#[test]
fn execution_order_linear_pipeline() {
    // source(1) -> filter(2) -> sink(3)
    let mut g = ProcessingGraph::new();
    g.add_node(source(1));
    g.add_node(filter(2));
    g.add_node(sink(3));
    g.connect(1, 0, 2, 0);
    g.connect(2, 0, 3, 0);
    let order = g.execution_order();
    assert_eq!(order, vec![1, 2, 3]);
}

#[test]
fn execution_order_independent_nodes_are_included() {
    let mut g = ProcessingGraph::new();
    g.add_node(source(1));
    g.add_node(source(2));
    let order = g.execution_order();
    assert_eq!(order.len(), 2);
}

// ── Further cases ────────────────────────────────────────────────────────

#[test]
fn set_param_other_key_keeps_first() {
    let mut n = filter(4);
    n.set_param("a", "1");
    n.set_param("b", "2");
    assert_eq!(n.get_param("a"), Some("1"));
    assert_eq!(n.get_param("b"), Some("2"));
    assert_eq!(n.params.len(), 2);
}

#[test]
fn remove_missing_node_reports_false() {
    let mut g = ProcessingGraph::new();
    g.add_node(source(1));
    assert!(!g.remove_node(2));
    assert_eq!(g.nodes.len(), 1);
}

#[test]
fn disconnect_without_edge_reports_false() {
    let mut g = ProcessingGraph::new();
    g.add_node(source(1));
    g.add_node(sink(2));
    assert!(!g.disconnect(1, 2));
}

#[test]
fn execution_order_diamond_respects_dependencies() {
    // 1 -> 2 -> 4, 1 -> 3 -> 4
    let mut g = ProcessingGraph::new();
    g.add_node(source(1));
    g.add_node(filter(2));
    g.add_node(filter(3));
    g.add_node(sink(4));
    g.connect(1, 0, 2, 0);
    g.connect(1, 0, 3, 0);
    g.connect(2, 0, 4, 0);
    g.connect(3, 0, 4, 1);
    let order = g.execution_order();
    assert_eq!(order.len(), 4);
    let pos = |id: u64| order.iter().position(|&x| x == id).unwrap();
    assert!(pos(1) < pos(2));
    assert!(pos(1) < pos(3));
    assert!(pos(2) < pos(4));
    assert!(pos(3) < pos(4));
}

#[test]
fn execution_order_cycle_leaves_nodes_appended() {
    // 1 -> 2 -> 1 is a cycle; 3 is independent
    let mut g = ProcessingGraph::new();
    g.add_node(filter(1));
    g.add_node(filter(2));
    g.add_node(source(3));
    g.connect(1, 0, 2, 0);
    g.connect(2, 0, 1, 0);
    let order = g.execution_order();
    assert_eq!(order, vec![3, 1, 2]);
}

#[test]
fn execution_order_follows_the_queue_of_ready_nodes() {
    // Sources 5 and 9 are ready first, in ascending order. Scheduling 5 releases 7
    // and 2, queued as 2, 7. Scheduling 9 releases nothing, as 4 still waits on 2;
    // scheduling 2 then releases 4, which comes after 7.
    let mut g = ProcessingGraph::new();
    g.add_node(source(9));
    g.add_node(source(5));
    g.add_node(filter(7));
    g.add_node(filter(2));
    g.add_node(sink(4));
    g.connect(5, 0, 7, 0);
    g.connect(5, 0, 2, 0);
    g.connect(2, 0, 4, 0);
    g.connect(9, 0, 4, 1);
    assert_eq!(g.execution_order(), vec![5, 9, 2, 7, 4]);
}
