use std::collections::HashMap;
use zawgl::matcher::state::MatchCallback;
use zawgl::matcher::vf2::{sub_graph_isomorphism, Matcher};
use zawgl::model::{Node, PropertyGraph, Relationship};

struct Collect<'a> {
    found: &'a mut Vec<HashMap<usize, usize>>,
    stop_after: Option<usize>,
}

impl<'a> MatchCallback for Collect<'a> {
    fn on_match(
        &mut self,
        map_0: &HashMap<usize, usize>,
        map_1: &HashMap<usize, usize>,
        _graph_0: &PropertyGraph,
        _graph_1: &PropertyGraph,
    ) -> Option<bool> {
        for (k, v) in map_0 {
            assert_eq!(map_1.get(v), Some(k));
        }
        self.found.push(map_0.clone());
        match self.stop_after {
            Some(n) if self.found.len() >= n => Some(false),
            _ => Some(true),
        }
    }
}

struct Abort;

impl MatchCallback for Abort {
    fn on_match(
        &mut self,
        _map_0: &HashMap<usize, usize>,
        _map_1: &HashMap<usize, usize>,
        _graph_0: &PropertyGraph,
        _graph_1: &PropertyGraph,
    ) -> Option<bool> {
        None
    }
}

fn labelled(label: &str) -> Node {
    let mut n = Node::new();
    n.set_labels(vec![label.to_string()]);
    n
}

fn rel(label: &str) -> Relationship {
    let mut r = Relationship::new();
    r.set_labels(vec![label.to_string()]);
    r
}

fn same_labels(a: &Node, b: &Node) -> bool {
    a.labels.iter().all(|l| b.labels.contains(l))
}

fn same_rel_labels(a: &Relationship, b: &Relationship) -> bool {
    a.labels.iter().all(|l| b.labels.contains(l))
}

/// 0: person, 1: movie, 2: person, 3: movie; 0 -LIKES-> 1, 0 -KNOWS-> 2.
fn target() -> PropertyGraph {
    let mut g = PropertyGraph::new();
    let p0 = g.add_node(labelled("Person"));
    let m1 = g.add_node(labelled("Movie"));
    let p2 = g.add_node(labelled("Person"));
    g.add_node(labelled("Movie"));
    g.add_relationship(rel("LIKES"), p0, m1);
    g.add_relationship(rel("KNOWS"), p0, p2);
    g
}

fn is_match(pattern: &PropertyGraph, g: &PropertyGraph, m: &HashMap<usize, usize>) -> bool {
    if m.len() != pattern.nodes_len() {
        return false;
    }
    for e in 0..pattern.edges_len() {
        let pe = pattern.get_edge_ref(e);
        let (s, t) = (m[&pe.source], m[&pe.target]);
        let ok = (0..g.edges_len()).any(|f| {
            let ge = g.get_edge_ref(f);
            ge.source == s && ge.target == t && same_rel_labels(&pe.relationship, &ge.relationship)
        });
        if !ok {
            return false;
        }
    }
    m.iter().all(|(k, v)| same_labels(pattern.get_node_ref(*k), g.get_node_ref(*v)))
}

#[test]
fn finds_a_single_edge_pattern() {
    let g = target();
    let mut pattern = PropertyGraph::new();
    let a = pattern.add_node(labelled("Person"));
    let b = pattern.add_node(labelled("Movie"));
    pattern.add_relationship(rel("LIKES"), a, b);
    let mut found = Vec::new();
    let res = sub_graph_isomorphism(&pattern, &g, same_labels, same_rel_labels, Collect { found: &mut found, stop_after: None });
    assert_eq!(res, Some(true));
    assert_eq!(found.len(), 1);
    assert_eq!(found[0][&a], 0);
    assert_eq!(found[0][&b], 1);
    assert!(found.iter().all(|m| is_match(&pattern, &g, m)));
}

#[test]
fn reports_no_match_when_none_exists() {
    let g = target();
    let mut pattern = PropertyGraph::new();
    let a = pattern.add_node(labelled("Movie"));
    let b = pattern.add_node(labelled("Person"));
    pattern.add_relationship(rel("LIKES"), a, b);
    let mut found = Vec::new();
    let res = sub_graph_isomorphism(&pattern, &g, same_labels, same_rel_labels, Collect { found: &mut found, stop_after: None });
    assert_eq!(res, Some(false));
    assert!(found.is_empty());
}

#[test]
fn every_reported_match_is_a_sub_isomorphism() {
    let g = target();
    let mut pattern = PropertyGraph::new();
    pattern.add_node(labelled("Person"));
    let mut found = Vec::new();
    let res = sub_graph_isomorphism(&pattern, &g, same_labels, same_rel_labels, Collect { found: &mut found, stop_after: None });
    assert_eq!(res, Some(true));
    // Both persons are reported, by the scan of the target nodes.
    assert_eq!(found.len(), 2);
    assert_eq!(found[0][&0], 0);
    assert_eq!(found[1][&0], 2);
    assert!(found.iter().all(|m| is_match(&pattern, &g, m)));
}

#[test]
fn a_false_answer_stops_the_search() {
    let g = target();
    let mut pattern = PropertyGraph::new();
    pattern.add_node(labelled("Person"));
    let mut found = Vec::new();
    let res = sub_graph_isomorphism(&pattern, &g, same_labels, same_rel_labels, Collect { found: &mut found, stop_after: Some(1) });
    assert_eq!(res, Some(true));
    assert_eq!(found.len(), 1);
}

#[test]
fn a_none_answer_aborts_the_search() {
    let g = target();
    let mut pattern = PropertyGraph::new();
    pattern.add_node(labelled("Movie"));
    let res = sub_graph_isomorphism(&pattern, &g, same_labels, same_rel_labels, Abort);
    assert_eq!(res, None);
}

#[test]
fn an_empty_pattern_matches_once() {
    let g = target();
    let pattern = PropertyGraph::new();
    let mut found = Vec::new();
    let res = sub_graph_isomorphism(&pattern, &g, same_labels, same_rel_labels, Collect { found: &mut found, stop_after: None });
    assert_eq!(res, Some(true));
    assert_eq!(found.len(), 1);
    assert!(found[0].is_empty());
}

#[test]
fn a_pattern_larger_than_the_target_does_not_match() {
    let mut small = PropertyGraph::new();
    small.add_node(labelled("Person"));
    let mut pattern = PropertyGraph::new();
    pattern.add_node(labelled("Person"));
    pattern.add_node(labelled("Person"));
    let mut found = Vec::new();
    let res = sub_graph_isomorphism(&pattern, &small, same_labels, same_rel_labels, Collect { found: &mut found, stop_after: None });
    assert_eq!(res, Some(false));
    assert!(found.is_empty());
}

#[test]
fn process_follows_the_given_node_orders() {
    let g = target();
    let mut pattern = PropertyGraph::new();
    let a = pattern.add_node(labelled("Person"));
    let b = pattern.add_node(labelled("Person"));
    pattern.add_relationship(rel("KNOWS"), a, b);
    let mut found = Vec::new();
    let mut matcher = Matcher::new(&pattern, &g, same_labels, same_rel_labels, Collect { found: &mut found, stop_after: None });
    let res = matcher.process(vec![0, 1], vec![3, 0, 1, 2]);
    assert_eq!(res, Some(true));
    drop(matcher);
    assert_eq!(found.len(), 1);
    assert_eq!(found[0][&a], 0);
    assert_eq!(found[0][&b], 2);
}

#[test]
fn the_search_retries_earlier_pairs() {
    // With the target nodes scanned as 3, 2, 1, 0, the first person tried
    // for `a` is node 2, which knows nobody; the search then undoes that
    // pair and goes on with node 0 for `a`.
    let g = target();
    let mut pattern = PropertyGraph::new();
    let a = pattern.add_node(labelled("Person"));
    let b = pattern.add_node(labelled("Person"));
    pattern.add_relationship(rel("KNOWS"), a, b);
    let mut found = Vec::new();
    let mut matcher = Matcher::new(&pattern, &g, same_labels, same_rel_labels, Collect { found: &mut found, stop_after: None });
    let res = matcher.process(vec![0, 1], vec![3, 2, 1, 0]);
    assert_eq!(res, Some(true));
    drop(matcher);
    assert_eq!(found.len(), 1);
    assert_eq!(found[0][&a], 0);
    assert_eq!(found[0][&b], 2);
}

#[test]
fn a_match_behind_a_dead_end_is_found() {
    // 0 -LIKES-> 3, 1 -KNOWS-> 2, all persons: `a` is first tried on 0,
    // which knows nobody, and then on 1.
    let mut g = PropertyGraph::new();
    for _ in 0..4 {
        g.add_node(labelled("Person"));
    }
    g.add_relationship(rel("LIKES"), 0, 3);
    g.add_relationship(rel("KNOWS"), 1, 2);
    let mut pattern = PropertyGraph::new();
    let a = pattern.add_node(labelled("Person"));
    let b = pattern.add_node(labelled("Person"));
    pattern.add_relationship(rel("KNOWS"), a, b);
    let mut found = Vec::new();
    let res = sub_graph_isomorphism(&pattern, &g, same_labels, same_rel_labels, Collect { found: &mut found, stop_after: None });
    assert_eq!(res, Some(true));
    assert_eq!(found.len(), 1);
    assert_eq!(found[0][&a], 1);
    assert_eq!(found[0][&b], 2);
}

#[test]
fn a_single_node_pattern_is_matched_once_with_each_target_node() {
    let g = target();
    let mut pattern = PropertyGraph::new();
    let a = pattern.add_node(Node::new());
    let mut found = Vec::new();
    let res = sub_graph_isomorphism(&pattern, &g, |_: &Node, _: &Node| true, same_rel_labels, Collect { found: &mut found, stop_after: None });
    assert_eq!(res, Some(true));
    assert_eq!(found.len(), 4);
    let mut images: Vec<usize> = found.iter().map(|m| m[&a]).collect();
    images.sort();
    assert_eq!(images, vec![0, 1, 2, 3]);
}

#[test]
fn every_match_is_reported_exactly_once() {
    // Two persons that know each other both ways: the pattern a -KNOWS-> b
    // has exactly the two matches (0, 1) and (1, 0).
    let mut g = PropertyGraph::new();
    g.add_node(labelled("Person"));
    g.add_node(labelled("Person"));
    g.add_relationship(rel("KNOWS"), 0, 1);
    g.add_relationship(rel("KNOWS"), 1, 0);
    let mut pattern = PropertyGraph::new();
    let a = pattern.add_node(labelled("Person"));
    let b = pattern.add_node(labelled("Person"));
    pattern.add_relationship(rel("KNOWS"), a, b);
    let mut found = Vec::new();
    let res = sub_graph_isomorphism(&pattern, &g, same_labels, same_rel_labels, Collect { found: &mut found, stop_after: None });
    assert_eq!(res, Some(true));
    let mut pairs: Vec<(usize, usize)> = found.iter().map(|m| (m[&a], m[&b])).collect();
    pairs.sort();
    assert_eq!(pairs, vec![(0, 1), (1, 0)]);
}

#[test]
fn degrees_of_a_graph() {
    let g = target();
    assert_eq!(g.out_degree(0), 2);
    assert_eq!(g.in_degree(0), 0);
    assert_eq!(g.in_degree(1), 1);
    assert_eq!(g.out_degree(1), 0);
    assert_eq!(g.in_degree(2), 1);
    assert_eq!(g.in_degree(3) + g.out_degree(3), 0);
    assert_eq!(g.get_nodes_ids(), vec![0, 1, 2, 3]);
}

#[test]
fn an_isolated_target_node_keeps_the_matches() {
    let g = target();
    let mut bigger = target();
    bigger.add_node(labelled("Person"));
    let mut pattern = PropertyGraph::new();
    let a = pattern.add_node(labelled("Person"));
    let b = pattern.add_node(labelled("Movie"));
    pattern.add_relationship(rel("LIKES"), a, b);
    let mut found = Vec::new();
    let res = sub_graph_isomorphism(&pattern, &g, same_labels, same_rel_labels, Collect { found: &mut found, stop_after: None });
    let mut found_b = Vec::new();
    let res_b = sub_graph_isomorphism(&pattern, &bigger, same_labels, same_rel_labels, Collect { found: &mut found_b, stop_after: None });
    assert_eq!(res, Some(true));
    assert_eq!(res_b, Some(true));
    assert_eq!(found, found_b);
}
