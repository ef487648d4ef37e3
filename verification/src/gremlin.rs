use crate::model::{Node, NodeIndex, PropertyGraph, Relationship, Status};
use vstd::prelude::*;

verus! {

/// A step of a Gremlin traversal.
#[derive(Debug)]
pub enum GStep {
    Empty,
    V(Option<u64>),
    AddV(String),
    AddE(String),
    As(String),
    From(String),
    To(String),
    OutE(Vec<String>),
    InV,
    Match(Vec<Vec<GStep>>),
}

/// Why a step could not be handled.
#[derive(Debug)]
pub enum GremlinStateError {
    WrongContext(&'static str),
    Invalid(GStep),
}

/// What the traversal has built so far: the step handled before, the node
/// of the current pattern the traversal stands on, and the patterns.
pub struct StateContext {
    pub previous_step: GStep,
    pub node_index: Option<NodeIndex>,
    pub patterns: Vec<PropertyGraph>,
}

/// The state a step leads to.
#[derive(Debug)]
pub enum NextState {
    MatchOutEdge,
    AliasVertex(String),
    Match(Vec<Vec<GStep>>),
    AddEdge,
    End,
}

/// A copy of a list of labels.
pub fn copy_labels(labels: &Vec<String>) -> (r: Vec<String>)
    ensures
        r@ == labels@,
{
    let mut r: Vec<String> = Vec::new();
    let mut i: usize = 0;
    while i < labels.len()
        invariant
            0 <= i <= labels@.len(),
            r@ == labels@.take(i as int),
        decreases labels@.len() - i,
    {
        r.push(labels[i].clone());
        i = i + 1;
        assert(labels@.take(i as int) =~= labels@.take(i - 1).push(labels@[i - 1]));
    }
    assert(labels@.take(labels@.len() as int) =~= labels@);
    r
}

/// The state that matches the node a relationship of the pattern goes to
/// (the `inV()` that follows an `outE()`).
pub struct MatchInVertexState {}

impl MatchInVertexState {
    /// The state; it holds nothing.
    pub fn new() -> (s: Self) {
        MatchInVertexState {}
    }

    /// Where the step before was `outE(labels)` and the traversal stands on
    /// a node, adds to the last pattern a node to match and a relationship
    /// to match, labelled `labels`, from the current node to it, and moves
    /// the traversal to the new node. `WrongContext("missing pattern")`, with
    /// nothing changed, where there is no pattern. Any other context is left
    /// as it is.
    pub fn handle_step(&self, context: &mut StateContext) -> (res: Result<(), GremlinStateError>)
        requires
            forall|p: int| 0 <= p < old(context).patterns@.len() ==> #[trigger] old(context).patterns@[p].wf(),
            old(context).previous_step is OutE && old(context).node_index is Some && old(context).patterns@.len() > 0
                ==> old(context).node_index.unwrap() < old(context).patterns@.last().spec_nodes().len(),
        ensures
            forall|p: int| 0 <= p < final(context).patterns@.len() ==> #[trigger] final(context).patterns@[p].wf(),
            match old(context).previous_step {
                GStep::OutE(labels) => match old(context).node_index {
                    Some(from) => if old(context).patterns@.len() == 0 {
                        &&& res matches Err(GremlinStateError::WrongContext(msg)) && msg@ == "missing pattern"@
                        &&& *final(context) == *old(context)
                    } else {
                        let last = old(context).patterns@.len() - 1;
                        let before = old(context).patterns@[last];
                        let after = final(context).patterns@[last];
                        let nid = before.spec_nodes().len();
                        &&& res is Ok
                        &&& final(context).previous_step == old(context).previous_step
                        &&& final(context).node_index == Some(nid as usize)
                        &&& final(context).patterns@.len() == old(context).patterns@.len()
                        &&& forall|p: int| 0 <= p < last ==> #[trigger] final(context).patterns@[p] == old(context).patterns@[p]
                        &&& after.spec_nodes().len() == nid + 1
                        &&& after.spec_nodes().take(nid as int) == before.spec_nodes()
                        &&& after.spec_nodes()[nid as int].status == Status::Match
                        &&& after.spec_nodes()[nid as int].id is None
                        &&& after.spec_nodes()[nid as int].labels@.len() == 0
                        &&& after.spec_nodes()[nid as int].properties@.len() == 0
                        &&& after.spec_edges().len() == before.spec_edges().len() + 1
                        &&& after.spec_edges().take(before.spec_edges().len() as int) == before.spec_edges()
                        &&& after.spec_edges().last().source == from
                        &&& after.spec_edges().last().target == nid
                        &&& after.spec_edges().last().relationship.status == Status::Match
                        &&& after.spec_edges().last().relationship.id is None
                        &&& after.spec_edges().last().relationship.labels@ == labels@
                        &&& after.spec_edges().last().relationship.properties@.len() == 0
                    },
                    None => res is Ok && *final(context) == *old(context),
                },
                _ => res is Ok && *final(context) == *old(context),
            },
    {
        let mut n = Node::new();
        n.set_status(Status::Match);
        match &context.previous_step {
            GStep::OutE(labels) => {
                if let Some(node_index) = context.node_index {
                    let mut rel = Relationship::new();
                    rel.set_labels(copy_labels(labels));
                    rel.set_status(Status::Match);
                    if context.patterns.len() == 0 {
                        return Err(GremlinStateError::WrongContext("missing pattern"));
                    }
                    let mut pattern = context.patterns.pop().unwrap();
                    let ghost before = pattern;
                    let nid = pattern.add_node(n);
                    pattern.add_relationship(rel, node_index, nid);
                    context.patterns.push(pattern);
                    context.node_index = Some(nid);
                    proof {
                        assert(pattern.spec_nodes().take(nid as int) =~= before.spec_nodes());
                        assert(pattern.spec_edges().take(before.spec_edges().len() as int) =~= before.spec_edges());
                        let last = old(context).patterns@.len() - 1;
                        assert forall|p: int| 0 <= p < last implies #[trigger] context.patterns@[p] == old(context).patterns@[p] by {}
                        assert(old(context).patterns@[last] == before);
                    }
                }
            },
            _ => {},
        }
        Ok(())
    }

    /// The state that `step` leads to after this one: `outE` to matching
    /// an outgoing relationship, `as` to naming the vertex, `match` to a
    /// match over its traversals, `addE` to adding a relationship, the end
    /// of the traversal to the end state; any other step is `Invalid`.
    pub fn create_state(&self, step: GStep) -> (res: Result<NextState, GremlinStateError>)
        ensures
            match step {
                GStep::OutE(_) => res matches Ok(NextState::MatchOutEdge),
                GStep::As(alias) => res matches Ok(NextState::AliasVertex(a)) && a == alias,
                GStep::Match(bytecodes) => res matches Ok(NextState::Match(b)) && b == bytecodes,
                GStep::AddE(_) => res matches Ok(NextState::AddEdge),
                GStep::Empty => res matches Ok(NextState::End),
                _ => res matches Err(GremlinStateError::Invalid(s)) && s == step,
            },
    {
        match step {
            GStep::OutE(_labels) => Ok(NextState::MatchOutEdge),
            GStep::As(alias) => Ok(NextState::AliasVertex(alias)),
            GStep::Match(bytecodes) => Ok(NextState::Match(bytecodes)),
            GStep::AddE(_label) => Ok(NextState::AddEdge),
            GStep::Empty => Ok(NextState::End),
            other => Err(GremlinStateError::Invalid(other)),
        }
    }
}

} // verus!
