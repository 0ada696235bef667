use hasse::engine::{compute_links, node_links, render, render_edge, Edge};
use hasse::graph::Node;
use hasse::ingest::ingest;

fn records(rows: &[&[&str]]) -> Vec<Vec<String>> {
    rows.iter().map(|r| r.iter().map(|t| t.to_string()).collect()).collect()
}

fn edge_strings(links: &Vec<Edge>) -> Vec<String> {
    links.iter().map(render_edge).collect()
}

fn same_set(got: &Vec<String>, want: &[&str]) -> bool {
    got.len() == want.len() && want.iter().all(|w| got.iter().any(|g| g == w)) && got
        .iter()
        .all(|g| want.iter().any(|w| g == w))
}

#[test]
fn scenario_diamond() {
    // family {1}, {2}, {1,2}, {1,2,3}
    let recs = records(&[&["1"], &["2"], &["1", "2"], &["1", "2", "3"]]);
    let graph = ingest(&recs, 64).unwrap();
    let links = edge_strings(&compute_links(&graph));
    assert!(same_set(&links, &["1->1, 2", "2->1, 2", "1, 2->1, 2, 3"]));
    // the skip edge is dominated by {1,2} and must not appear
    assert!(!links.contains(&"1->1, 2, 3".to_string()));
}

#[test]
fn scenario_disjoint_singletons() {
    let recs = records(&[&["1"], &["2"], &["3"]]);
    let graph = ingest(&recs, 64).unwrap();
    let links = compute_links(&graph);
    assert!(links.is_empty());
}

#[test]
fn scenario_chain() {
    let recs = records(&[&["1"], &["1", "2"], &["1", "2", "3"], &["1", "2", "3", "4"]]);
    let graph = ingest(&recs, 64).unwrap();
    let links = edge_strings(&compute_links(&graph));
    assert!(same_set(
        &links,
        &["1->1, 2", "1, 2->1, 2, 3", "1, 2, 3->1, 2, 3, 4"],
    ));
}

#[test]
fn empty_set_links_to_minimal_elements() {
    let recs = records(&[&[], &["1"], &["1", "2"]]);
    let graph = ingest(&recs, 64).unwrap();
    let links = edge_strings(&compute_links(&graph));
    assert!(same_set(&links, &["->1", "1->1, 2"]));
}

#[test]
fn duplicate_content_elements_get_no_edge_between_them() {
    // {1,2} twice, under different labels: neither is a strict superset of
    // the other, so no edge joins them; the lower element links only to the
    // first of the duplicates.
    let recs = records(&[&["1"], &["1", "2"], &["2", "1"]]);
    let graph = ingest(&recs, 64).unwrap();
    let links = edge_strings(&compute_links(&graph));
    assert!(same_set(&links, &["1->1, 2"]));
}

#[test]
fn repeated_token_in_one_record_counts_once() {
    // cardinality follows the true bit population, so "1 1 2" sits at
    // level 2 next to "1 2" and neither covers the other
    let recs = records(&[&["1"], &["1", "1", "2"], &["1", "2"]]);
    let graph = ingest(&recs, 64).unwrap();
    let links = edge_strings(&compute_links(&graph));
    assert!(same_set(&links, &["1->1, 1, 2"]));
}

#[test]
fn node_links_per_element() {
    let recs = records(&[&["1"], &["2"], &["1", "2"], &["1", "2", "3"]]);
    let graph = ingest(&recs, 64).unwrap();
    // {1} sits at level 1, position 0
    let links = edge_strings(&node_links(&graph, 1, 0));
    assert!(same_set(&links, &["1->1, 2"]));
    // the top element has no outgoing edges
    let top = node_links(&graph, 3, 0);
    assert!(top.is_empty());
}

#[test]
fn runs_agree_on_the_edge_set() {
    let recs = records(&[&["1"], &["2"], &["1", "2"], &["2", "3"], &["1", "2", "3"]]);
    let graph = ingest(&recs, 64).unwrap();
    let first = edge_strings(&compute_links(&graph));
    let second = edge_strings(&compute_links(&graph));
    assert_eq!(first.len(), second.len());
    assert!(first.iter().all(|e| second.contains(e)));
}

#[test]
fn render_formats_an_edge() {
    let e = Edge { source: "a".to_string(), target: "b, c".to_string() };
    assert_eq!(render_edge(&e), "a->b, c");
    let recs = records(&[&["1"], &["1", "2"]]);
    let graph = ingest(&recs, 8).unwrap();
    let lower: &Node = &graph.level(1)[0];
    let upper: &Node = &graph.level(2)[0];
    assert_eq!(render((lower, upper)), "1->1, 2");
}
