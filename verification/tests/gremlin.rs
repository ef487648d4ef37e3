use zawgl::gremlin::{GStep, GremlinStateError, MatchInVertexState, NextState, StateContext};
use zawgl::model::{Node, PropertyGraph, Status};

fn context_on_node() -> StateContext {
    let mut pattern = PropertyGraph::new();
    let n = pattern.add_node(Node::new());
    StateContext { previous_step: GStep::OutE(vec!["KNOWS".to_string()]), node_index: Some(n), patterns: vec![pattern] }
}

#[test]
fn in_vertex_after_out_edge_adds_node_and_relationship() {
    let state = MatchInVertexState::new();
    let mut ctx = context_on_node();
    assert!(state.handle_step(&mut ctx).is_ok());
    assert_eq!(ctx.node_index, Some(1));
    let p = &ctx.patterns[0];
    assert_eq!(p.nodes_len(), 2);
    assert_eq!(p.get_node_ref(1).status, Status::Match);
    assert_eq!(p.edges_len(), 1);
    let e = p.get_edge_ref(0);
    assert_eq!((e.source, e.target), (0, 1));
    assert_eq!(e.relationship.labels, vec!["KNOWS".to_string()]);
    assert_eq!(e.relationship.status, Status::Match);
}

#[test]
fn in_vertex_without_pattern_is_a_wrong_context() {
    let state = MatchInVertexState::new();
    let mut ctx = StateContext { previous_step: GStep::OutE(vec![]), node_index: Some(0), patterns: vec![] };
    assert!(matches!(state.handle_step(&mut ctx), Err(GremlinStateError::WrongContext("missing pattern"))));
    assert!(ctx.patterns.is_empty());
}

#[test]
fn in_vertex_after_another_step_changes_nothing() {
    let state = MatchInVertexState::new();
    let mut ctx = context_on_node();
    ctx.previous_step = GStep::InV;
    assert!(state.handle_step(&mut ctx).is_ok());
    assert_eq!(ctx.patterns[0].nodes_len(), 1);
    assert_eq!(ctx.node_index, Some(0));
    let mut ctx2 = context_on_node();
    ctx2.node_index = None;
    assert!(state.handle_step(&mut ctx2).is_ok());
    assert_eq!(ctx2.patterns[0].edges_len(), 0);
}

#[test]
fn next_states() {
    let state = MatchInVertexState::new();
    assert!(matches!(state.create_state(GStep::OutE(vec![])), Ok(NextState::MatchOutEdge)));
    assert!(matches!(state.create_state(GStep::As("x".to_string())), Ok(NextState::AliasVertex(a)) if a == "x"));
    assert!(matches!(state.create_state(GStep::Match(vec![vec![GStep::InV]])), Ok(NextState::Match(b)) if b.len() == 1));
    assert!(matches!(state.create_state(GStep::AddE("e".to_string())), Ok(NextState::AddEdge)));
    assert!(matches!(state.create_state(GStep::Empty), Ok(NextState::End)));
    assert!(matches!(state.create_state(GStep::V(None)), Err(GremlinStateError::Invalid(GStep::V(None)))));
}
