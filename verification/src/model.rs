use vstd::prelude::*;

verus! {

/// The index of a node in a [`PropertyGraph`].
pub type NodeIndex = usize;

/// The index of a relationship in a [`PropertyGraph`].
pub type EdgeIndex = usize;

/// The index of a node in the graph a pattern is matched against.
pub type ProxyNodeId = usize;

/// What a query does with a node or a relationship of a pattern.
#[derive(Clone, Copy, Debug, PartialEq, Eq, Structural)]
pub enum Status {
    Empty,
    Create,
    Match,
}

/// The value of a property. A floating-point value is held as the bits of
/// its IEEE 754 double encoding.
#[derive(Debug)]
pub enum PropertyValue {
    PString(String),
    PInteger(i64),
    PFloat(u64),
    PBool(bool),
}

/// A named value attached to a node or a relationship.
#[derive(Debug)]
pub struct Property {
    pub id: Option<u64>,
    pub name: String,
    pub value: PropertyValue,
}

/// A node of a property graph.
#[derive(Debug)]
pub struct Node {
    pub id: Option<u64>,
    pub status: Status,
    pub labels: Vec<String>,
    pub properties: Vec<Property>,
}

/// A relationship of a property graph.
#[derive(Debug)]
pub struct Relationship {
    pub id: Option<u64>,
    pub status: Status,
    pub labels: Vec<String>,
    pub properties: Vec<Property>,
}

/// A relationship together with the nodes it goes from and to.
#[derive(Debug)]
pub struct EdgeData {
    pub source: NodeIndex,
    pub target: NodeIndex,
    pub relationship: Relationship,
}

impl Node {
    /// A node with no id, no labels and no properties.
    pub fn new() -> (n: Node)
        ensures
            n.id is None,
            n.status == Status::Empty,
            n.labels@.len() == 0,
            n.properties@.len() == 0,
    {
        Node { id: None, status: Status::Empty, labels: Vec::new(), properties: Vec::new() }
    }

    /// Sets the node's status.
    pub fn set_status(&mut self, status: Status)
        ensures
            final(self).status == status,
            final(self).id == old(self).id,
            final(self).labels == old(self).labels,
            final(self).properties == old(self).properties,
    {
        self.status = status;
    }

    /// Sets the node's labels.
    pub fn set_labels(&mut self, labels: Vec<String>)
        ensures
            final(self).labels == labels,
            final(self).id == old(self).id,
            final(self).status == old(self).status,
            final(self).properties == old(self).properties,
    {
        self.labels = labels;
    }
}

impl Relationship {
    /// A relationship with no id, no labels and no properties.
    pub fn new() -> (r: Relationship)
        ensures
            r.id is None,
            r.status == Status::Empty,
            r.labels@.len() == 0,
            r.properties@.len() == 0,
    {
        Relationship { id: None, status: Status::Empty, labels: Vec::new(), properties: Vec::new() }
    }

    /// Sets the relationship's status.
    pub fn set_status(&mut self, status: Status)
        ensures
            final(self).status == status,
            final(self).id == old(self).id,
            final(self).labels == old(self).labels,
            final(self).properties == old(self).properties,
    {
        self.status = status;
    }

    /// Sets the relationship's labels.
    pub fn set_labels(&mut self, labels: Vec<String>)
        ensures
            final(self).labels == labels,
            final(self).id == old(self).id,
            final(self).status == old(self).status,
            final(self).properties == old(self).properties,
    {
        self.labels = labels;
    }
}

/// The number of relationships among the first `k` of `edges` that end at
/// node `v`.
pub open spec fn count_in(edges: Seq<EdgeData>, v: int, k: int) -> nat
    decreases k,
{
    if k <= 0 {
        0
    } else {
        count_in(edges, v, k - 1) + (if edges[k - 1].target == v { 1nat } else { 0nat })
    }
}

/// The number of relationships among the first `k` of `edges` that start at
/// node `v`.
pub open spec fn count_out(edges: Seq<EdgeData>, v: int, k: int) -> nat
    decreases k,
{
    if k <= 0 {
        0
    } else {
        count_out(edges, v, k - 1) + (if edges[k - 1].source == v { 1nat } else { 0nat })
    }
}

/// At most `k` of the first `k` relationships touch a node.
pub proof fn lemma_count_bounds(edges: Seq<EdgeData>, v: int, k: int)
    requires
        0 <= k,
    ensures
        count_in(edges, v, k) <= k,
        count_out(edges, v, k) <= k,
    decreases k,
{
    if k > 0 {
        lemma_count_bounds(edges, v, k - 1);
    }
}

/// A directed multigraph whose nodes and relationships carry labels and
/// properties. Nodes and relationships are known by their position.
pub struct PropertyGraph {
    nodes: Vec<Node>,
    edges: Vec<EdgeData>,
}

impl PropertyGraph {
    /// The graph's nodes, in the order they were added.
    pub closed spec fn spec_nodes(&self) -> Seq<Node> {
        self.nodes@
    }

    /// The graph's relationships, in the order they were added.
    pub closed spec fn spec_edges(&self) -> Seq<EdgeData> {
        self.edges@
    }

    /// Every relationship goes between nodes of the graph.
    pub open spec fn wf(&self) -> bool {
        forall|e: int|
            0 <= e < self.spec_edges().len() ==> {
                &&& #[trigger] self.spec_edges()[e].source < self.spec_nodes().len()
                &&& self.spec_edges()[e].target < self.spec_nodes().len()
            }
    }

    /// The number of relationships that end at `v`.
    pub open spec fn spec_in_degree(&self, v: int) -> nat {
        count_in(self.spec_edges(), v, self.spec_edges().len() as int)
    }

    /// The number of relationships that start at `v`.
    pub open spec fn spec_out_degree(&self, v: int) -> nat {
        count_out(self.spec_edges(), v, self.spec_edges().len() as int)
    }

    /// An empty graph.
    pub fn new() -> (g: PropertyGraph)
        ensures
            g.wf(),
            g.spec_nodes().len() == 0,
            g.spec_edges().len() == 0,
    {
        PropertyGraph { nodes: Vec::new(), edges: Vec::new() }
    }

    /// Adds a node and returns its index.
    pub fn add_node(&mut self, node: Node) -> (id: NodeIndex)
        requires
            old(self).wf(),
        ensures
            final(self).wf(),
            id == old(self).spec_nodes().len(),
            final(self).spec_nodes() == old(self).spec_nodes().push(node),
            final(self).spec_edges() == old(self).spec_edges(),
    {
        let id = self.nodes.len();
        self.nodes.push(node);
        id
    }

    /// Adds a relationship from `source` to `target` and returns its index.
    pub fn add_relationship(&mut self, rel: Relationship, source: NodeIndex, target: NodeIndex) -> (id: EdgeIndex)
        requires
            old(self).wf(),
            source < old(self).spec_nodes().len(),
            target < old(self).spec_nodes().len(),
        ensures
            final(self).wf(),
            id == old(self).spec_edges().len(),
            final(self).spec_nodes() == old(self).spec_nodes(),
            final(self).spec_edges() == old(self).spec_edges().push(
                EdgeData { source, target, relationship: rel },
            ),
    {
        let id = self.edges.len();
        self.edges.push(EdgeData { source, target, relationship: rel });
        id
    }

    /// The number of nodes.
    pub fn nodes_len(&self) -> (n: usize)
        ensures
            n == self.spec_nodes().len(),
    {
        self.nodes.len()
    }

    /// The number of relationships.
    pub fn edges_len(&self) -> (n: usize)
        ensures
            n == self.spec_edges().len(),
    {
        self.edges.len()
    }

    /// The node at `id`.
    pub fn get_node_ref(&self, id: NodeIndex) -> (n: &Node)
        requires
            id < self.spec_nodes().len(),
        ensures
            *n == self.spec_nodes()[id as int],
    {
        &self.nodes[id]
    }

    /// The relationship at `id`, with its end points.
    pub fn get_edge_ref(&self, id: EdgeIndex) -> (e: &EdgeData)
        requires
            id < self.spec_edges().len(),
        ensures
            *e == self.spec_edges()[id as int],
    {
        &self.edges[id]
    }

    /// The indices of all nodes, in increasing order.
    pub fn get_nodes_ids(&self) -> (ids: Vec<NodeIndex>)
        ensures
            ids@.len() == self.spec_nodes().len(),
            forall|i: int| 0 <= i < ids@.len() ==> ids@[i] == i,
    {
        let mut ids: Vec<NodeIndex> = Vec::new();
        let mut i: usize = 0;
        while i < self.nodes.len()
            invariant
                0 <= i <= self.nodes@.len(),
                ids@.len() == i,
                forall|k: int| 0 <= k < i ==> ids@[k] == k,
            decreases self.nodes@.len() - i,
        {
            ids.push(i);
            i = i + 1;
        }
        ids
    }

    /// The number of relationships that end at `id`.
    pub fn in_degree(&self, id: NodeIndex) -> (d: usize)
        ensures
            d == self.spec_in_degree(id as int),
    {
        let mut d: usize = 0;
        let mut k: usize = 0;
        while k < self.edges.len()
            invariant
                0 <= k <= self.edges@.len(),
                d == count_in(self.edges@, id as int, k as int),
            decreases self.edges@.len() - k,
        {
            proof {
                lemma_count_bounds(self.edges@, id as int, k as int);
            }
            if self.edges[k].target == id {
                d = d + 1;
            }
            k = k + 1;
        }
        d
    }

    /// The number of relationships that start at `id`.
    pub fn out_degree(&self, id: NodeIndex) -> (d: usize)
        ensures
            d == self.spec_out_degree(id as int),
    {
        let mut d: usize = 0;
        let mut k: usize = 0;
        while k < self.edges.len()
            invariant
                0 <= k <= self.edges@.len(),
                d == count_out(self.edges@, id as int, k as int),
            decreases self.edges@.len() - k,
        {
            proof {
                lemma_count_bounds(self.edges@, id as int, k as int);
            }
            if self.edges[k].source == id {
                d = d + 1;
            }
            k = k + 1;
        }
        d
    }
}

} // verus!
