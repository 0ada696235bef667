use hasse::bitset::BitSet;
use hasse::engine::{compute_links, render_edge};
use hasse::graph::{Graph, GraphData, Node};
use hasse::ingest::{ingest, parse_token, IngestError};
use hasse::solcheck::verify;

fn records(rows: &[&[&str]]) -> Vec<Vec<String>> {
    rows.iter().map(|r| r.iter().map(|t| t.to_string()).collect()).collect()
}

fn lines(ls: &[&str]) -> Vec<String> {
    ls.iter().map(|l| l.to_string()).collect()
}

#[test]
fn capacity_fail_fast() {
    // three distinct items do not fit two bits: the run fails before any
    // edge can be produced
    let recs = records(&[&["1", "2"], &["3"], &["1", "2", "3"]]);
    let r = ingest(&recs, 2);
    assert!(matches!(r, Err(IngestError::Capacity)));
    // with enough capacity the same input is accepted
    assert!(ingest(&recs, 3).is_ok());
}

#[test]
fn parse_error_aborts() {
    let recs = records(&[&["1", "2"], &["1", "x"]]);
    assert!(matches!(ingest(&recs, 8), Err(IngestError::Parse)));
    let empty_tok = records(&[&[""]]);
    assert!(matches!(ingest(&empty_tok, 8), Err(IngestError::Parse)));
}

#[test]
fn parse_error_reported_before_capacity_when_it_comes_first() {
    let recs = records(&[&["nope"], &["1", "2", "3"]]);
    assert!(matches!(ingest(&recs, 2), Err(IngestError::Parse)));
    let recs2 = records(&[&["1", "2", "3"], &["nope"]]);
    assert!(matches!(ingest(&recs2, 2), Err(IngestError::Capacity)));
}

#[test]
fn parse_token_reads_numbers() {
    assert_eq!(parse_token("0"), Some(0));
    assert_eq!(parse_token("42"), Some(42));
    assert_eq!(parse_token("18446744073709551615"), Some(u64::MAX));
    assert_eq!(parse_token("18446744073709551616"), None);
    assert_eq!(parse_token(""), None);
    assert_eq!(parse_token("4 2"), None);
    assert_eq!(parse_token("-1"), None);
}

#[test]
fn bitset_subset_tests() {
    let mut a = BitSet::new(256);
    a.mark(3);
    a.mark(200);
    let mut b = BitSet::new(256);
    b.mark(3);
    b.mark(200);
    b.mark(77);
    assert!(a.is_subset(&b));
    assert!(!b.is_subset(&a));
    assert!(a.is_subset(&a));
    let empty = BitSet::new(256);
    assert!(empty.is_subset(&a));
    assert!(!a.is_subset(&empty));
    assert_eq!(a.count(), 2);
    assert_eq!(b.count(), 3);
}

#[test]
fn bitset_duplicate_mark_counts_once() {
    let mut a = BitSet::new(64);
    a.mark(5);
    a.mark(5);
    assert_eq!(a.count(), 1);
}

#[test]
fn graph_buckets_by_cardinality() {
    let data = GraphData::new();
    let mut graph = Graph::new(data);
    let mut s = BitSet::new(64);
    s.mark(0);
    s.mark(1);
    graph.insert_node(Node::new("a, b".to_string(), s));
    let mut t = BitSet::new(64);
    t.mark(0);
    graph.insert_node(Node::new("a".to_string(), t));
    assert_eq!(graph.levels_iter(), 0..3);
    assert_eq!(graph.levels_above(1), 2..3);
    assert_eq!(graph.level(0).len(), 0);
    assert_eq!(graph.level(1).len(), 1);
    assert_eq!(graph.level(2).len(), 1);
    assert_eq!(graph.level(1)[0].count(), 1);
    assert!(graph.level(1)[0].is_subset(&graph.level(2)[0]));
}

#[test]
fn verification_exact_match_succeeds() {
    let produced = lines(&["1->1, 2", "2->1, 2"]);
    let expected = lines(&["2->1, 2", "1->1, 2"]);
    let report = verify(&produced, &expected);
    assert!(report.ok());
    assert!(report.extraneous.is_empty());
    assert!(report.missing.is_empty());
}

#[test]
fn verification_flags_one_extra_and_one_missing() {
    // the produced edges of the diamond family, checked against a solution
    // file with one extra line and one missing line
    let recs = records(&[&["1"], &["2"], &["1", "2"], &["1", "2", "3"]]);
    let graph = ingest(&recs, 64).unwrap();
    let produced: Vec<String> = compute_links(&graph).iter().map(render_edge).collect();
    let expected = lines(&["1->1, 2", "1, 2->1, 2, 3", "3->1, 2, 3"]);
    let report = verify(&produced, &expected);
    assert!(!report.ok());
    assert_eq!(report.extraneous, lines(&["2->1, 2"]));
    assert_eq!(report.missing, lines(&["3->1, 2, 3"]));
}

#[test]
fn verification_is_by_set_equality_so_duplicates_carry_no_meaning() {
    // a repeated produced line that is expected is no mismatch, and a
    // repeated expected line asks for nothing twice
    let produced = lines(&["1->1, 2", "1->1, 2", "2->1, 2"]);
    let expected = lines(&["2->1, 2", "1->1, 2", "2->1, 2"]);
    let report = verify(&produced, &expected);
    assert!(report.ok());
    assert!(report.extraneous.is_empty());
    assert!(report.missing.is_empty());
}

#[test]
fn verification_reports_a_repeated_unexpected_line_once() {
    let produced = lines(&["1->1, 2", "9->9, 9", "9->9, 9"]);
    let expected = lines(&["1->1, 2"]);
    let report = verify(&produced, &expected);
    assert!(!report.ok());
    assert_eq!(report.extraneous, lines(&["9->9, 9"]));
    assert!(report.missing.is_empty());
}
