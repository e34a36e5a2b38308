use crates_dependency_network::graph::{build_core_subgraph, NodeStat};
use crates_dependency_network::index::CrateData;

fn krate(name: &str, deps: &[&str]) -> CrateData {
    CrateData { name: name.to_string(), deps: deps.iter().map(|d| d.to_string()).collect() }
}

fn summary(nodes: &[NodeStat]) -> Vec<(String, usize, usize)> {
    nodes.iter().map(|n| (n.name.clone(), n.in_degree, n.out_degree)).collect()
}

fn pairs(edges: &[(String, String)]) -> Vec<(&str, &str)> {
    edges.iter().map(|(a, b)| (a.as_str(), b.as_str())).collect()
}

fn sample() -> Vec<CrateData> {
    vec![krate("d", &["c", "x"]), krate("a", &["b", "c"]), krate("b", &["c"]), krate("c", &[])]
}

#[test]
fn core_takes_the_most_depended_upon_crates() {
    let g = build_core_subgraph(&sample(), 2);
    assert_eq!(summary(&g.nodes), vec![("c".to_string(), 3, 0), ("b".to_string(), 1, 1)]);
    assert_eq!(pairs(&g.edges), vec![("b", "c")]);
    assert_eq!(g.total_edges, 5);
}

#[test]
fn whole_graph_when_top_n_is_large() {
    let g = build_core_subgraph(&sample(), 100);
    assert_eq!(
        summary(&g.nodes),
        vec![
            ("c".to_string(), 3, 0),
            ("b".to_string(), 1, 1),
            ("a".to_string(), 0, 2),
            ("d".to_string(), 0, 2),
        ]
    );
    assert_eq!(pairs(&g.edges), vec![("a", "b"), ("a", "c"), ("b", "c"), ("d", "c")]);
}

#[test]
fn empty_core_when_top_n_is_zero() {
    let g = build_core_subgraph(&sample(), 0);
    assert!(g.nodes.is_empty());
    assert!(g.edges.is_empty());
    assert_eq!(g.total_edges, 5);
}

#[test]
fn empty_graph() {
    let g = build_core_subgraph(&Vec::new(), 10);
    assert!(g.nodes.is_empty());
    assert!(g.edges.is_empty());
    assert_eq!(g.total_edges, 0);
}

#[test]
fn ties_in_degree_are_broken_by_name() {
    let crates = vec![krate("zed", &["lib"]), krate("abc", &["lib"]), krate("lib", &[])];
    let g = build_core_subgraph(&crates, 2);
    assert_eq!(summary(&g.nodes), vec![("lib".to_string(), 2, 0), ("abc".to_string(), 0, 1)]);
    assert_eq!(pairs(&g.edges), vec![("abc", "lib")]);
}

#[test]
fn a_later_crate_of_the_same_name_sets_the_out_degree() {
    let crates = vec![krate("p", &["q"]), krate("p", &[]), krate("q", &[])];
    let g = build_core_subgraph(&crates, 2);
    assert_eq!(
        summary(&g.nodes),
        vec![("q".to_string(), 1, 0), ("p".to_string(), 0, 0), ("p".to_string(), 0, 0)]
    );
    assert_eq!(pairs(&g.edges), vec![("p", "q")]);
    assert_eq!(g.total_edges, 1);
}

#[test]
fn dependencies_outside_the_crates_count_as_edges_only() {
    let crates = vec![krate("a", &["ghost", "ghost2"])];
    let g = build_core_subgraph(&crates, 5);
    assert_eq!(summary(&g.nodes), vec![("a".to_string(), 0, 2)]);
    assert!(g.edges.is_empty());
    assert_eq!(g.total_edges, 2);
}

#[test]
fn crate_order_does_not_matter_for_distinct_names() {
    let forward = sample();
    let mut backward = sample();
    backward.reverse();
    for top_n in [0, 1, 2, 3, 10] {
        let a = build_core_subgraph(&forward, top_n);
        let b = build_core_subgraph(&backward, top_n);
        assert_eq!(summary(&a.nodes), summary(&b.nodes));
        assert_eq!(a.edges, b.edges);
        assert_eq!(a.total_edges, b.total_edges);
    }
}

#[test]
fn core_edges_join_core_nodes() {
    let g = build_core_subgraph(&sample(), 3);
    let names: Vec<String> = g.nodes.iter().map(|n| n.name.clone()).collect();
    assert_eq!(names, vec!["c".to_string(), "b".to_string(), "a".to_string()]);
    for (src, dst) in &g.edges {
        assert!(names.contains(src) && names.contains(dst));
    }
    assert_eq!(pairs(&g.edges), vec![("a", "b"), ("a", "c"), ("b", "c")]);
}
