use oximedia::graph_stats::{GraphAnalyzer, GraphComplexity, GraphStats};

#[test]
fn test_complexity_description_trivial() {
    assert!(GraphComplexity::Trivial.description().contains("trivial"));
}

#[test]
fn test_complexity_requires_advanced_trivial() {
    assert!(!GraphComplexity::Trivial.requires_advanced_scheduling());
}

#[test]
fn test_complexity_requires_advanced_complex() {
    assert!(GraphComplexity::Complex.requires_advanced_scheduling());
}

#[test]
fn test_graph_stats_complexity_trivial() {
    let s = GraphStats::new(2, 1, 1);
    assert_eq!(s.complexity(), GraphComplexity::Trivial);
}

#[test]
fn test_graph_stats_complexity_simple() {
    let s = GraphStats::new(5, 4, 4);
    assert_eq!(s.complexity(), GraphComplexity::Simple);
}

#[test]
fn test_graph_stats_complexity_moderate() {
    let s = GraphStats::new(10, 12, 5);
    assert_eq!(s.complexity(), GraphComplexity::Moderate);
}

#[test]
fn test_graph_stats_complexity_complex() {
    let s = GraphStats::new(30, 60, 10);
    assert_eq!(s.complexity(), GraphComplexity::Complex);
}

#[test]
fn test_graph_stats_is_disconnected() {
    let s = GraphStats::new(3, 0, 0);
    assert!(s.is_disconnected());
}

#[test]
fn test_analyzer_empty_graph() {
    let a = GraphAnalyzer::new();
    let stats = a.analyze();
    assert_eq!(stats.node_count(), 0);
    assert_eq!(stats.edge_count(), 0);
    assert_eq!(stats.depth(), 0);
}

#[test]
fn test_analyzer_linear_chain() {
    // 0 -> 1 -> 2 -> 3 (depth 3)
    let mut a = GraphAnalyzer::new();
    a.add_edge(0, 1);
    a.add_edge(1, 2);
    a.add_edge(2, 3);
    let stats = a.analyze();
    assert_eq!(stats.node_count(), 4);
    assert_eq!(stats.edge_count(), 3);
    assert_eq!(stats.depth(), 3);
}

#[test]
fn test_analyzer_branching_graph() {
    // 0 -> 1 -> 3
    // 0 -> 2 -> 3
    let mut a = GraphAnalyzer::new();
    a.add_edge(0, 1);
    a.add_edge(0, 2);
    a.add_edge(1, 3);
    a.add_edge(2, 3);
    let stats = a.analyze();
    assert_eq!(stats.node_count(), 4);
    assert_eq!(stats.edge_count(), 4);
    assert_eq!(stats.depth(), 2);
}

#[test]
fn test_analyzer_isolated_nodes() {
    let mut a = GraphAnalyzer::new();
    a.add_node(0);
    a.add_node(1);
    let stats = a.analyze();
    assert_eq!(stats.node_count(), 2);
    assert_eq!(stats.edge_count(), 0);
    assert_eq!(stats.depth(), 0);
}

#[test]
fn test_complexity_moderate_requires_advanced() {
    assert!(GraphComplexity::Moderate.requires_advanced_scheduling());
}

// ── Further cases ───────────────────────────────────────────────────────────

#[test]
fn complexity_boundary_average_degree_one_and_a_half() {
    // 2 * edges == 3 * nodes: average degree exactly 1.5 is still simple
    assert_eq!(GraphStats::new(8, 12, 3).complexity(), GraphComplexity::Simple);
    assert_eq!(GraphStats::new(8, 13, 3).complexity(), GraphComplexity::Moderate);
    assert_eq!(GraphStats::new(24, 0, 0).complexity(), GraphComplexity::Moderate);
    assert_eq!(GraphStats::new(25, 0, 0).complexity(), GraphComplexity::Complex);
}

#[test]
fn add_node_twice_keeps_one_node() {
    let mut a = GraphAnalyzer::new();
    a.add_node(7);
    a.add_node(7);
    assert_eq!(a.nodes().len(), 1);
    assert!(a.nodes().contains(&7));
}

#[test]
fn add_edge_registers_both_endpoints_and_counts_duplicates() {
    let mut a = GraphAnalyzer::new();
    a.add_edge(5, 9);
    a.add_edge(5, 9);
    let nodes = a.nodes();
    assert!(nodes.contains(&5));
    assert!(nodes.contains(&9));
    assert_eq!(a.edge_count(), 2);
}

#[test]
fn depth_of_diamond_with_long_side() {
    let mut a = GraphAnalyzer::new();
    a.add_edge(0, 1);
    a.add_edge(1, 2);
    a.add_edge(2, 4);
    a.add_edge(0, 4);
    assert_eq!(a.analyze().depth(), 3);
}
