use calm_core::coreness::{compute_coreness, peel_kcore};
use calm_core::digraph::EdgeRow;

fn edge_with(from: &str, to: &str, confidence: &str, ruled_out: bool) -> EdgeRow {
    EdgeRow {
        from_symbol: from.to_string(),
        to_symbol: to.to_string(),
        edge_confidence: confidence.to_string(),
        ruled_out_by_scip: ruled_out,
    }
}

fn edge(from: &str, to: &str) -> EdgeRow {
    edge_with(from, to, "resolved", false)
}

#[test]
fn scip_ruled_out_edges_do_not_inflate_coreness() {
    // A real path a-b only; the triangle is closed solely by disproven edges.
    let rows = vec![
        edge("a", "b"),
        edge_with("b", "c", "resolved", true),
        edge_with("c", "a", "resolved", true),
    ];
    let result = compute_coreness(&rows).confirmed;
    assert_eq!(result.get("a"), Some(1), "disproven edges closed a phantom triangle");
    assert_eq!(result.get("b"), Some(1));
    assert_eq!(result.get("c"), None);
}

#[test]
fn test_empty_graph() {
    let result = compute_coreness(&Vec::new());
    assert_eq!(result.confirmed.len(), 0);
    assert_eq!(result.possible.len(), 0);
    assert_eq!(result.confirmed.get("a"), None);
}

#[test]
fn test_self_loop_excluded() {
    let result = compute_coreness(&vec![edge("a", "a")]);
    assert_eq!(result.confirmed.len(), 0);
}

#[test]
fn test_triangle_coreness_2() {
    let rows = vec![edge("a", "b"), edge("b", "c"), edge("c", "a")];
    let result = compute_coreness(&rows).confirmed;
    assert_eq!(result.get("a"), Some(2));
    assert_eq!(result.get("b"), Some(2));
    assert_eq!(result.get("c"), Some(2));
}

#[test]
fn test_c1_regression_coreness_recomputed_after_edge_change() {
    let mut rows = vec![edge("a", "b"), edge("b", "c"), edge("c", "a")];
    assert_eq!(compute_coreness(&rows).confirmed.get("a"), Some(2));
    rows.pop();
    let result2 = compute_coreness(&rows).confirmed;
    assert_eq!(result2.get("a"), Some(1), "coreness must update after edge removal");
    assert_eq!(result2.get("b"), Some(1));
    assert_eq!(result2.get("c"), Some(1));
}

#[test]
fn test_star_graph() {
    let mut rows = Vec::new();
    for leaf in ["a", "b", "c", "d"] {
        rows.push(edge(leaf, "hub"));
    }
    let result = compute_coreness(&rows).confirmed;
    assert_eq!(result.get("hub"), Some(1));
    for leaf in ["a", "b", "c", "d"] {
        assert_eq!(result.get(leaf), Some(1));
    }
}

#[test]
fn ambiguous_fanout_does_not_inflate_confirmed_coreness_but_shows_in_possible() {
    let rows = vec![
        edge("a", "b"),
        edge_with("b", "c", "ambiguous", false),
        edge_with("c", "a", "ambiguous", false),
    ];
    let result = compute_coreness(&rows);
    assert_eq!(result.confirmed.get("a"), Some(1));
    assert_eq!(result.confirmed.get("b"), Some(1));
    assert_eq!(result.confirmed.get("c"), None);
    for name in ["a", "b", "c"] {
        assert_eq!(result.possible.get(name), Some(2));
    }
}

#[test]
fn confirmed_coreness_never_exceeds_possible_coreness() {
    let rows = vec![
        edge("a", "b"),
        edge("b", "c"),
        edge("c", "a"),
        edge_with("c", "d", "textual", false),
        edge_with("d", "a", "ambiguous", false),
        edge_with("d", "b", "ambiguous", false),
    ];
    let result = compute_coreness(&rows);
    for i in 0..result.confirmed.len() {
        let name = result.confirmed.name(i).clone();
        assert!(result.confirmed.get(&name).unwrap() <= result.possible.get(&name).unwrap());
    }
    assert_eq!(result.possible.get("d"), Some(3));
}

#[test]
fn a_double_edge_counts_once() {
    let rows = vec![edge("a", "b"), edge("b", "a"), edge("a", "b")];
    let result = compute_coreness(&rows).confirmed;
    assert_eq!(result.get("a"), Some(1));
    assert_eq!(result.get("b"), Some(1));
}

#[test]
fn peeling_a_clique_with_a_tail() {
    // A clique of four and a path of two hanging off it.
    let adj = vec![
        vec![1, 2, 3, 4],
        vec![0, 2, 3],
        vec![0, 1, 3],
        vec![0, 1, 2],
        vec![0, 5],
        vec![4],
    ];
    assert_eq!(peel_kcore(&adj), vec![3, 3, 3, 3, 1, 1]);
}
