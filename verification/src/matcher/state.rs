use crate::model::{Node, NodeIndex, PropertyGraph, ProxyNodeId, Relationship};
use std::collections::HashMap;
use vstd::prelude::*;
use vstd::relations::injective_on;
use vstd::set_lib::{lemma_int_range, lemma_len_subset, lemma_map_size, set_int_range};
use vstd::std_specs::hash::group_hash_axioms;

verus! {

/// What the matcher calls for each match it finds. `map_0` sends each node
/// of the pattern to the node of the target it is matched with, `map_1` is
/// its inverse. The answer is `Some(true)` to go on looking for matches,
/// `Some(false)` to stop, and `None` to abort.
pub trait MatchCallback: Sized {
    /// Handed the match `map_0` of `graph_0` into `graph_1` and its inverse
    /// `map_1`, the callback may answer `answer` and become `after`.
    closed spec fn answers(
        &self,
        map_0: Map<NodeIndex, ProxyNodeId>,
        map_1: Map<ProxyNodeId, NodeIndex>,
        graph_0: PropertyGraph,
        graph_1: PropertyGraph,
        answer: Option<bool>,
        after: Self,
    ) -> bool {
        true
    }

    fn on_match(
        &mut self,
        map_0: &HashMap<NodeIndex, ProxyNodeId>,
        map_1: &HashMap<ProxyNodeId, NodeIndex>,
        graph_0: &PropertyGraph,
        graph_1: &PropertyGraph,
    ) -> (answer: Option<bool>)
        ensures
            old(self).answers(map_0@, map_1@, *graph_0, *graph_1, answer, *final(self)),
    ;
}

/// The inverse of a one-to-one map: each value sent back to its key.
pub open spec fn inverse_map(m: Map<usize, usize>) -> Map<usize, usize> {
    Map::new(
        |j: usize| exists|i: usize| m.contains_key(i) && m[i] == j,
        |j: usize| choose|i: usize| m.contains_key(i) && m[i] == j,
    )
}

/// The node comparison accepted pattern node `i` for target node `j`.
pub open spec fn nodes_compatible<VCOMP: Fn(&Node, &Node) -> bool>(
    vcomp: VCOMP,
    g0: &PropertyGraph,
    g1: &PropertyGraph,
    i: int,
    j: int,
) -> bool {
    vcomp.ensures((&g0.spec_nodes()[i], &g1.spec_nodes()[j]), true)
}

/// Some relationship of the target goes from `s1` to `t1` and the
/// relationship comparison accepted pattern relationship `e` for it.
pub open spec fn edge_mapped<ECOMP: Fn(&Relationship, &Relationship) -> bool>(
    ecomp: ECOMP,
    g0: &PropertyGraph,
    g1: &PropertyGraph,
    e: int,
    s1: int,
    t1: int,
) -> bool {
    exists|f: int|
        0 <= f < g1.spec_edges().len() && #[trigger] g1.spec_edges()[f].source == s1
            && g1.spec_edges()[f].target == t1 && ecomp.ensures(
            (&g0.spec_edges()[e].relationship, &g1.spec_edges()[f].relationship),
            true,
        )
}

/// `core` sends some pattern nodes to distinct, compatible target nodes,
/// and every pattern relationship between two of them has a compatible
/// image.
pub open spec fn partial_match<VCOMP: Fn(&Node, &Node) -> bool, ECOMP: Fn(&Relationship, &Relationship) -> bool>(
    vcomp: VCOMP,
    ecomp: ECOMP,
    g0: &PropertyGraph,
    g1: &PropertyGraph,
    core: Seq<Option<usize>>,
) -> bool {
    &&& core.len() == g0.spec_nodes().len()
    &&& forall|i: int|
        0 <= i < core.len() && #[trigger] core[i] is Some ==> core[i].unwrap() < g1.spec_nodes().len()
            && nodes_compatible(vcomp, g0, g1, i, core[i].unwrap() as int)
    &&& forall|i: int, k: int|
        0 <= i < core.len() && 0 <= k < core.len() && i != k && #[trigger] core[i] is Some
            && #[trigger] core[k] is Some ==> core[i].unwrap() != core[k].unwrap()
    &&& forall|e: int|
        0 <= e < g0.spec_edges().len() && core[#[trigger] g0.spec_edges()[e].source as int] is Some
            && core[g0.spec_edges()[e].target as int] is Some ==> edge_mapped(
            ecomp,
            g0,
            g1,
            e,
            core[g0.spec_edges()[e].source as int].unwrap() as int,
            core[g0.spec_edges()[e].target as int].unwrap() as int,
        )
}

/// `m` is a sub-graph isomorphism of the pattern `g0` into `g1`: it sends
/// every pattern node to a distinct target node that the node comparison
/// accepted, and every pattern relationship to a target relationship
/// between the images of its end points that the relationship comparison
/// accepted.
pub open spec fn is_sub_isomorphism<VCOMP: Fn(&Node, &Node) -> bool, ECOMP: Fn(&Relationship, &Relationship) -> bool>(
    vcomp: VCOMP,
    ecomp: ECOMP,
    g0: &PropertyGraph,
    g1: &PropertyGraph,
    m: Map<usize, usize>,
) -> bool {
    &&& forall|i: usize| #[trigger] m.contains_key(i) <==> i < g0.spec_nodes().len()
    &&& forall|i: usize|
        i < g0.spec_nodes().len() ==> #[trigger] m[i] < g1.spec_nodes().len() && nodes_compatible(
            vcomp,
            g0,
            g1,
            i as int,
            m[i] as int,
        )
    &&& forall|i: usize, k: usize|
        i < g0.spec_nodes().len() && k < g0.spec_nodes().len() && i != k ==> #[trigger] m[i] != #[trigger] m[k]
    &&& forall|e: int|
        0 <= e < g0.spec_edges().len() ==> edge_mapped(
            ecomp,
            g0,
            g1,
            e,
            m[#[trigger] g0.spec_edges()[e].source] as int,
            m[g0.spec_edges()[e].target] as int,
        )
}

/// The node comparison gives one answer for each pair of nodes.
pub open spec fn node_comparison_deterministic<VCOMP: Fn(&Node, &Node) -> bool>(vcomp: VCOMP) -> bool {
    forall|a: &Node, b: &Node, r1: bool, r2: bool|
        #![trigger vcomp.ensures((a, b), r1), vcomp.ensures((a, b), r2)]
        vcomp.ensures((a, b), r1) && vcomp.ensures((a, b), r2) ==> r1 == r2
}

/// The relationship comparison gives one answer for each pair of
/// relationships.
pub open spec fn rel_comparison_deterministic<ECOMP: Fn(&Relationship, &Relationship) -> bool>(ecomp: ECOMP) -> bool {
    forall|a: &Relationship, b: &Relationship, r1: bool, r2: bool|
        #![trigger ecomp.ensures((a, b), r1), ecomp.ensures((a, b), r2)]
        ecomp.ensures((a, b), r1) && ecomp.ensures((a, b), r2) ==> r1 == r2
}

/// The node comparison accepts pattern node `i` for target node `j`
/// whatever call is made: no call on them answers `false`.
pub open spec fn nodes_surely_compatible<VCOMP: Fn(&Node, &Node) -> bool>(
    vcomp: VCOMP,
    g0: &PropertyGraph,
    g1: &PropertyGraph,
    i: int,
    j: int,
) -> bool {
    forall|r: bool| #[trigger] vcomp.ensures((&g0.spec_nodes()[i], &g1.spec_nodes()[j]), r) ==> r
}

/// Some relationship of the target goes from `s1` to `t1` and no call of
/// the relationship comparison on pattern relationship `e` and it answers
/// `false`.
pub open spec fn edge_surely_mapped<ECOMP: Fn(&Relationship, &Relationship) -> bool>(
    ecomp: ECOMP,
    g0: &PropertyGraph,
    g1: &PropertyGraph,
    e: int,
    s1: int,
    t1: int,
) -> bool {
    exists|f: int|
        0 <= f < g1.spec_edges().len() && #[trigger] g1.spec_edges()[f].source == s1
            && g1.spec_edges()[f].target == t1 && forall|r: bool|
            #[trigger] ecomp.ensures((&g0.spec_edges()[e].relationship, &g1.spec_edges()[f].relationship), r) ==> r
}

/// `m` is a sub-graph isomorphism of `g0` into `g1` that no call of the
/// comparisons can turn down: as [`is_sub_isomorphism`], with every
/// comparison it rests on answering `true` whenever it is made. Where the
/// comparisons give one answer for each pair, every sub-graph isomorphism is
/// one (see [`lemma_deterministic_sure`]).
pub open spec fn surely_sub_isomorphism<
    VCOMP: Fn(&Node, &Node) -> bool,
    ECOMP: Fn(&Relationship, &Relationship) -> bool,
>(vcomp: VCOMP, ecomp: ECOMP, g0: &PropertyGraph, g1: &PropertyGraph, m: Map<usize, usize>) -> bool {
    &&& forall|i: usize| #[trigger] m.contains_key(i) <==> i < g0.spec_nodes().len()
    &&& forall|i: usize|
        i < g0.spec_nodes().len() ==> #[trigger] m[i] < g1.spec_nodes().len() && nodes_surely_compatible(
            vcomp,
            g0,
            g1,
            i as int,
            m[i] as int,
        )
    &&& forall|i: usize, k: usize|
        i < g0.spec_nodes().len() && k < g0.spec_nodes().len() && i != k ==> #[trigger] m[i] != #[trigger] m[k]
    &&& forall|e: int|
        0 <= e < g0.spec_edges().len() ==> edge_surely_mapped(
            ecomp,
            g0,
            g1,
            e,
            m[#[trigger] g0.spec_edges()[e].source] as int,
            m[g0.spec_edges()[e].target] as int,
        )
}

/// Under comparisons that give one answer for each pair, a sub-graph
/// isomorphism is one that no call of the comparisons can turn down.
pub proof fn lemma_deterministic_sure<
    VCOMP: Fn(&Node, &Node) -> bool,
    ECOMP: Fn(&Relationship, &Relationship) -> bool,
>(vcomp: VCOMP, ecomp: ECOMP, g0: &PropertyGraph, g1: &PropertyGraph, m: Map<usize, usize>)
    requires
        node_comparison_deterministic(vcomp),
        rel_comparison_deterministic(ecomp),
        is_sub_isomorphism(vcomp, ecomp, g0, g1, m),
    ensures
        surely_sub_isomorphism(vcomp, ecomp, g0, g1, m),
{
    assert forall|i: usize| i < g0.spec_nodes().len() implies #[trigger] m[i] < g1.spec_nodes().len()
        && nodes_surely_compatible(vcomp, g0, g1, i as int, m[i] as int) by {
        assert(nodes_compatible(vcomp, g0, g1, i as int, m[i] as int));
        assert forall|r: bool| #[trigger] vcomp.ensures((&g0.spec_nodes()[i as int], &g1.spec_nodes()[m[i] as int]), r) implies r by {
            assert(vcomp.ensures((&g0.spec_nodes()[i as int], &g1.spec_nodes()[m[i] as int]), true));
        }
    }
    assert forall|e: int| 0 <= e < g0.spec_edges().len() implies edge_surely_mapped(
        ecomp,
        g0,
        g1,
        e,
        m[#[trigger] g0.spec_edges()[e].source] as int,
        m[g0.spec_edges()[e].target] as int,
    ) by {
        let s1 = m[g0.spec_edges()[e].source] as int;
        let t1 = m[g0.spec_edges()[e].target] as int;
        assert(edge_mapped(ecomp, g0, g1, e, s1, t1));
        let f = choose|f: int|
            0 <= f < g1.spec_edges().len() && #[trigger] g1.spec_edges()[f].source == s1
                && g1.spec_edges()[f].target == t1 && ecomp.ensures(
                (&g0.spec_edges()[e].relationship, &g1.spec_edges()[f].relationship),
                true,
            );
        assert forall|r: bool|
            #[trigger] ecomp.ensures((&g0.spec_edges()[e].relationship, &g1.spec_edges()[f].relationship), r) implies r by {
            assert(ecomp.ensures((&g0.spec_edges()[e].relationship, &g1.spec_edges()[f].relationship), true));
        }
        assert(g1.spec_edges()[f].source == s1);
    }
}

/// `m` agrees with every pair of `core`.
pub open spec fn extends(m: Map<usize, usize>, core: Seq<Option<usize>>) -> bool {
    forall|i: int|
        0 <= i < core.len() && #[trigger] core[i] is Some ==> m.contains_key(i as usize) && m[i as usize]
            == core[i].unwrap()
}

/// Matching pattern node `id0` with target node `id1` on top of `core`
/// cannot be turned down by any call of the comparisons: the node
/// comparison surely accepts them, and every pattern relationship between
/// `id0` and a matched node (or itself) surely has an image.
pub open spec fn extension_sure<VCOMP: Fn(&Node, &Node) -> bool, ECOMP: Fn(&Relationship, &Relationship) -> bool>(
    vcomp: VCOMP,
    ecomp: ECOMP,
    g0: &PropertyGraph,
    g1: &PropertyGraph,
    core: Seq<Option<usize>>,
    id0: int,
    id1: int,
) -> bool {
    let ext = core.update(id0, Some(id1 as usize));
    &&& nodes_surely_compatible(vcomp, g0, g1, id0, id1)
    &&& forall|e: int|
        0 <= e < g0.spec_edges().len() && (g0.spec_edges()[e].source == id0 || g0.spec_edges()[e].target == id0)
            && ext[#[trigger] g0.spec_edges()[e].source as int] is Some && ext[g0.spec_edges()[e].target as int] is Some
            ==> edge_surely_mapped(
            ecomp,
            g0,
            g1,
            e,
            ext[g0.spec_edges()[e].source as int].unwrap() as int,
            ext[g0.spec_edges()[e].target as int].unwrap() as int,
        )
}

/// The node of the pattern that each target node is matched with, if any.
pub open spec fn inverse_core(core: Seq<Option<usize>>, n1: nat) -> Seq<Option<usize>> {
    Seq::new(
        n1,
        |j: int|
            if exists|i: int| 0 <= i < core.len() && core[i] == Some(j as usize) {
                Some((choose|i: int| 0 <= i < core.len() && core[i] == Some(j as usize)) as usize)
            } else {
                None
            },
    )
}

/// Matching pattern node `id0` with target node `id1` on top of `core` is
/// feasible: the node comparison accepts them, and every pattern
/// relationship between `id0` and a matched node (or itself) has a target
/// relationship between their images that the relationship comparison
/// accepts.
pub open spec fn extension_ok<VCOMP: Fn(&Node, &Node) -> bool, ECOMP: Fn(&Relationship, &Relationship) -> bool>(
    vcomp: VCOMP,
    ecomp: ECOMP,
    g0: &PropertyGraph,
    g1: &PropertyGraph,
    core: Seq<Option<usize>>,
    id0: int,
    id1: int,
) -> bool {
    let ext = core.update(id0, Some(id1 as usize));
    &&& nodes_compatible(vcomp, g0, g1, id0, id1)
    &&& forall|e: int|
        0 <= e < g0.spec_edges().len() && (g0.spec_edges()[e].source == id0 || g0.spec_edges()[e].target == id0)
            && ext[#[trigger] g0.spec_edges()[e].source as int] is Some && ext[g0.spec_edges()[e].target as int] is Some
            ==> edge_mapped(
            ecomp,
            g0,
            g1,
            e,
            ext[g0.spec_edges()[e].source as int].unwrap() as int,
            ext[g0.spec_edges()[e].target as int].unwrap() as int,
        )
}

/// The pairs of a match, as a map from pattern nodes to target nodes.
pub open spec fn core_map(core: Seq<Option<usize>>) -> Map<usize, usize> {
    Map::new(|i: usize| i < core.len() && core[i as int] is Some, |i: usize| core[i as int].unwrap())
}

/// The number of matched nodes in `core`.
pub open spec fn count_some(core: Seq<Option<usize>>) -> nat
    decreases core.len(),
{
    if core.len() == 0 {
        0
    } else {
        count_some(core.drop_last()) + (if core.last() is Some { 1nat } else { 0nat })
    }
}

pub proof fn lemma_count_some_bound(core: Seq<Option<usize>>)
    ensures
        count_some(core) <= core.len(),
        count_some(core) == core.len() <==> forall|i: int| 0 <= i < core.len() ==> #[trigger] core[i] is Some,
    decreases core.len(),
{
    if core.len() > 0 {
        lemma_count_some_bound(core.drop_last());
        if count_some(core) == core.len() {
            assert forall|i: int| 0 <= i < core.len() implies #[trigger] core[i] is Some by {
                if i < core.len() - 1 {
                    assert(core.drop_last()[i] == core[i]);
                }
            }
        }
        if forall|i: int| 0 <= i < core.len() ==> #[trigger] core[i] is Some {
            assert forall|i: int| 0 <= i < core.drop_last().len() implies #[trigger] core.drop_last()[i] is Some by {
                assert(core[i] is Some);
            }
            assert(core[core.len() - 1] is Some);
        }
    }
}

pub proof fn lemma_count_some_update(core: Seq<Option<usize>>, i: int, v: Option<usize>)
    requires
        0 <= i < core.len(),
    ensures
        count_some(core.update(i, v)) + (if core[i] is Some { 1int } else { 0int })
            == count_some(core) + (if v is Some { 1int } else { 0int }),
    decreases core.len(),
{
    let u = core.update(i, v);
    if i == core.len() - 1 {
        assert(u.drop_last() =~= core.drop_last());
    } else {
        lemma_count_some_update(core.drop_last(), i, v);
        assert(u.drop_last() =~= core.drop_last().update(i, v));
    }
}

/// Relationship `e` of `g` touches node `v` at one end and a matched node
/// at the other.
pub open spec fn adjacent_to_core(g: &PropertyGraph, core: Seq<Option<usize>>, e: int, v: int) -> bool {
    ||| g.spec_edges()[e].source == v && core[g.spec_edges()[e].target as int] is Some
    ||| g.spec_edges()[e].target == v && core[g.spec_edges()[e].source as int] is Some
}

/// Node `v` is not matched but is adjacent to a matched node: it is in the
/// terminal set.
pub open spec fn in_terminal_set(g: &PropertyGraph, core: Seq<Option<usize>>, v: int) -> bool {
    &&& core[v] is None
    &&& exists|e: int| 0 <= e < g.spec_edges().len() && #[trigger] adjacent_to_core(g, core, e, v)
}

/// The number of the first `k` nodes that are in the terminal set.
pub open spec fn terminal_count(g: &PropertyGraph, core: Seq<Option<usize>>, k: int) -> nat
    decreases k,
{
    if k <= 0 {
        0
    } else {
        terminal_count(g, core, k - 1) + (if in_terminal_set(g, core, k - 1) { 1nat } else { 0nat })
    }
}

proof fn lemma_terminal_count_bound(g: &PropertyGraph, core: Seq<Option<usize>>, k: int)
    requires
        0 <= k,
    ensures
        terminal_count(g, core, k) <= k,
    decreases k,
{
    if k > 0 {
        lemma_terminal_count_bound(g, core, k - 1);
    }
}

/// The first `k` nodes of `g` that are in the terminal set.
pub open spec fn terminal_prefix(g: &PropertyGraph, core: Seq<Option<usize>>, k: int) -> Set<int> {
    Set::new(|v: int| 0 <= v < k && in_terminal_set(g, core, v))
}

proof fn lemma_terminal_count_len(g: &PropertyGraph, core: Seq<Option<usize>>, k: int)
    requires
        0 <= k,
    ensures
        terminal_prefix(g, core, k).finite(),
        terminal_prefix(g, core, k).len() == terminal_count(g, core, k),
    decreases k,
{
    if k == 0 {
        assert(terminal_prefix(g, core, 0) =~= Set::<int>::empty());
    } else {
        lemma_terminal_count_len(g, core, k - 1);
        let p = terminal_prefix(g, core, k - 1);
        if in_terminal_set(g, core, k - 1) {
            assert(terminal_prefix(g, core, k) =~= p.insert(k - 1));
        } else {
            assert(terminal_prefix(g, core, k) =~= p);
        }
    }
}

/// A finite set sent one-to-one into a finite set is no larger.
proof fn lemma_injection_len(s0: Set<int>, s1: Set<int>, f: spec_fn(int) -> int)
    requires
        s0.finite(),
        s1.finite(),
        injective_on(f, s0),
        forall|v: int| #[trigger] s0.contains(v) ==> s1.contains(f(v)),
    ensures
        s0.len() <= s1.len(),
{
    lemma_map_size(s0, s0.map(f), f);
    assert(s0.map(f).subset_of(s1));
    lemma_len_subset(s0.map(f), s1);
}

/// The size of the terminal set of `g` under `core`.
fn terminal_set_size(g: &PropertyGraph, core: &Vec<Option<usize>>) -> (c: usize)
    requires
        g.wf(),
        core@.len() == g.spec_nodes().len(),
    ensures
        c == terminal_count(g, core@, g.spec_nodes().len() as int),
{
    let n = g.nodes_len();
    let mut marks: Vec<bool> = Vec::new();
    let mut v: usize = 0;
    while v < n
        invariant
            0 <= v <= n,
            n == g.spec_nodes().len(),
            marks@.len() == v,
            forall|w: int| 0 <= w < v ==> !marks@[w],
        decreases n - v,
    {
        marks.push(false);
        v = v + 1;
    }
    let mut k: usize = 0;
    while k < g.edges_len()
        invariant
            0 <= k <= g.spec_edges().len(),
            g.wf(),
            n == g.spec_nodes().len(),
            core@.len() == n,
            marks@.len() == n,
            forall|w: int|
                0 <= w < n ==> (#[trigger] marks@[w] <==> (core@[w] is None && exists|e: int|
                    0 <= e < k && #[trigger] adjacent_to_core(g, core@, e, w))),
        decreases g.spec_edges().len() - k,
    {
        let edge = g.get_edge_ref(k);
        let s = edge.source;
        let t = edge.target;
        assert(s < n && t < n) by {
            assert(g.spec_edges()[k as int].source < n);
        }
        let ghost old_marks = marks@;
        if core[s].is_none() && core[t].is_some() {
            marks.set(s, true);
        }
        if core[t].is_none() && core[s].is_some() {
            marks.set(t, true);
        }
        assert forall|w: int|
            0 <= w < n implies (#[trigger] marks@[w] <==> (core@[w] is None && exists|e: int|
                0 <= e < k + 1 && #[trigger] adjacent_to_core(g, core@, e, w))) by {
            if core@[w] is None && adjacent_to_core(g, core@, k as int, w) {
                assert(marks@[w]);
            }
            if marks@[w] && !old_marks[w] {
                assert(adjacent_to_core(g, core@, k as int, w));
            }
            if exists|e: int| 0 <= e < k + 1 && #[trigger] adjacent_to_core(g, core@, e, w) {
                if !adjacent_to_core(g, core@, k as int, w) {
                    let e = choose|e: int| 0 <= e < k + 1 && #[trigger] adjacent_to_core(g, core@, e, w);
                    assert(0 <= e < k);
                }
            }
        }
        k = k + 1;
    }
    let mut c: usize = 0;
    let mut w: usize = 0;
    while w < n
        invariant
            0 <= w <= n,
            n == g.spec_nodes().len(),
            core@.len() == n,
            marks@.len() == n,
            forall|x: int|
                0 <= x < n ==> (#[trigger] marks@[x] <==> in_terminal_set(g, core@, x)),
            c == terminal_count(g, core@, w as int),
        decreases n - w,
    {
        proof {
            lemma_terminal_count_bound(g, core@, w as int);
        }
        if marks[w] {
            c = c + 1;
        }
        w = w + 1;
    }
    c
}

/// The state of a VF2 search: which pattern node is matched with which
/// target node.
pub(crate) struct State<'g0, 'g1, VCOMP, ECOMP> where
    VCOMP: Fn(&Node, &Node) -> bool,
    ECOMP: Fn(&Relationship, &Relationship) -> bool,
 {
    pub(crate) graph_0: &'g0 PropertyGraph,
    pub(crate) graph_1: &'g1 PropertyGraph,
    pub(crate) vcomp: VCOMP,
    pub(crate) ecomp: ECOMP,
    pub(crate) core_0: Vec<Option<ProxyNodeId>>,
    pub(crate) core_1: Vec<Option<NodeIndex>>,
    pub(crate) core_len: usize,
}

impl<'g0, 'g1, VCOMP, ECOMP> State<'g0, 'g1, VCOMP, ECOMP> where
    VCOMP: Fn(&Node, &Node) -> bool,
    ECOMP: Fn(&Relationship, &Relationship) -> bool,
 {
    pub(crate) open spec fn spec_graph_0(&self) -> &'g0 PropertyGraph {
        self.graph_0
    }

    pub(crate) open spec fn spec_graph_1(&self) -> &'g1 PropertyGraph {
        self.graph_1
    }

    pub(crate) open spec fn spec_vcomp(&self) -> VCOMP {
        self.vcomp
    }

    pub(crate) open spec fn spec_ecomp(&self) -> ECOMP {
        self.ecomp
    }

    /// Where each pattern node is matched, if it is.
    pub(crate) open spec fn spec_core_0(&self) -> Seq<Option<usize>> {
        self.core_0@
    }

    /// Where each target node is matched, if it is.
    pub(crate) open spec fn spec_core_1(&self) -> Seq<Option<usize>> {
        self.core_1@
    }

    /// The number of matched pairs.
    pub(crate) open spec fn spec_core_len(&self) -> nat {
        self.core_len as nat
    }

    /// The match as a map from pattern nodes to target nodes.
    pub(crate) open spec fn spec_map(&self) -> Map<usize, usize> {
        core_map(self.spec_core_0())
    }

    pub(crate) open spec fn inv(&self) -> bool {
        &&& self.graph_0.wf()
        &&& self.graph_1.wf()
        &&& forall|a: &Node, b: &Node| #[trigger] self.vcomp.requires((a, b))
        &&& forall|a: &Relationship, b: &Relationship| #[trigger] self.ecomp.requires((a, b))
        &&& self.core_0@.len() == self.graph_0.spec_nodes().len()
        &&& self.core_1@.len() == self.graph_1.spec_nodes().len()
        &&& forall|i: int|
            0 <= i < self.core_0@.len() && #[trigger] self.core_0@[i] is Some ==> self.core_0@[i].unwrap()
                < self.core_1@.len() && self.core_1@[self.core_0@[i].unwrap() as int] == Some(i as usize)
        &&& forall|j: int|
            0 <= j < self.core_1@.len() && #[trigger] self.core_1@[j] is Some ==> self.core_1@[j].unwrap()
                < self.core_0@.len() && self.core_0@[self.core_1@[j].unwrap() as int] == Some(j as usize)
        &&& partial_match(self.vcomp, self.ecomp, self.graph_0, self.graph_1, self.core_0@)
        &&& self.core_len == count_some(self.core_0@)
    }

    /// The target side of the match is the inverse of the pattern side.
    pub(crate) proof fn lemma_core_1_inverse(&self)
        requires
            self.inv(),
        ensures
            self.core_1@ == inverse_core(self.core_0@, self.graph_1.spec_nodes().len()),
    {
        let inv = inverse_core(self.core_0@, self.graph_1.spec_nodes().len());
        assert forall|j: int| 0 <= j < self.core_1@.len() implies #[trigger] self.core_1@[j] == inv[j] by {
            assert(self.core_1@.len() == self.core_1.len());
            if self.core_1@[j] is Some {
                let i = self.core_1@[j].unwrap() as int;
                assert(self.core_0@[i] == Some(j as usize));
                let c = choose|c: int| 0 <= c < self.core_0@.len() && self.core_0@[c] == Some(j as usize);
                if c != i {
                    assert(self.core_0@[c] is Some && self.core_0@[i] is Some);
                }
            } else {
                if exists|i: int| 0 <= i < self.core_0@.len() && self.core_0@[i] == Some(j as usize) {
                    let i = choose|i: int| 0 <= i < self.core_0@.len() && self.core_0@[i] == Some(j as usize);
                    assert(self.core_0@[i] is Some);
                }
            }
        }
        assert(self.core_1@ =~= inv);
    }

    /// Where a sub-graph isomorphism that no comparison can turn down agrees
    /// with the match, matching a free pattern node with its image is
    /// allowed, cannot be turned down, and the isomorphism agrees with the
    /// larger match too.
    pub(crate) proof fn lemma_extension_sure(&self, m: Map<usize, usize>, id0: int)
        requires
            self.inv(),
            surely_sub_isomorphism(self.vcomp, self.ecomp, self.graph_0, self.graph_1, m),
            extends(m, self.core_0@),
            0 <= id0 < self.core_0@.len(),
            self.core_0@[id0] is None,
        ensures
            m[id0 as usize] < self.graph_1.spec_nodes().len(),
            forall|i: int| 0 <= i < self.core_0@.len() ==> #[trigger] self.core_0@[i] != Some(m[id0 as usize]),
            extension_sure(self.vcomp, self.ecomp, self.graph_0, self.graph_1, self.core_0@, id0, m[id0 as usize] as int),
            extends(m, self.core_0@.update(id0, Some(m[id0 as usize]))),
    {
        let g0 = self.graph_0;
        assert(self.core_0@.len() == self.core_0.len());
        let u0 = id0 as usize;
        assert(u0 as int == id0 && u0 < g0.spec_nodes().len());
        let j = m[u0];
        assert(m[u0] < self.graph_1.spec_nodes().len() && nodes_surely_compatible(
            self.vcomp,
            g0,
            self.graph_1,
            u0 as int,
            m[u0] as int,
        ));
        assert forall|i: int| 0 <= i < self.core_0@.len() implies #[trigger] self.core_0@[i] != Some(j) by {
            if self.core_0@[i] == Some(j) {
                let iu = i as usize;
                assert(iu as int == i && iu < g0.spec_nodes().len());
                assert(m[iu] == j);
                assert(iu != u0);
                assert(m[iu] != m[u0]);
            }
        }
        let ext = self.core_0@.update(id0, Some(j));
        assert forall|e: int|
            0 <= e < g0.spec_edges().len() && (g0.spec_edges()[e].source == id0 || g0.spec_edges()[e].target == id0)
                && ext[#[trigger] g0.spec_edges()[e].source as int] is Some && ext[g0.spec_edges()[e].target as int] is Some
                implies edge_surely_mapped(
                self.ecomp,
                g0,
                self.graph_1,
                e,
                ext[g0.spec_edges()[e].source as int].unwrap() as int,
                ext[g0.spec_edges()[e].target as int].unwrap() as int,
            ) by {
            let s = g0.spec_edges()[e].source;
            let t = g0.spec_edges()[e].target;
            assert(s < g0.spec_nodes().len() && t < g0.spec_nodes().len());
            if s as int != id0 {
                assert(self.core_0@[s as int] is Some);
            }
            if t as int != id0 {
                assert(self.core_0@[t as int] is Some);
            }
            assert(ext[s as int].unwrap() == m[s]);
            assert(ext[t as int].unwrap() == m[t]);
        }
        assert forall|i: int| 0 <= i < ext.len() && #[trigger] ext[i] is Some implies m.contains_key(i as usize) && m[i as usize]
            == ext[i].unwrap() by {
            if i != id0 {
                assert(self.core_0@[i] is Some);
            }
        }
    }

    /// Where a sub-graph isomorphism that no comparison can turn down agrees
    /// with the match, the look-ahead lets the search go on.
    pub(crate) proof fn lemma_valid_if_extendable(&self, m: Map<usize, usize>)
        requires
            self.inv(),
            surely_sub_isomorphism(self.vcomp, self.ecomp, self.graph_0, self.graph_1, m),
            extends(m, self.core_0@),
        ensures
            self.graph_0.spec_nodes().len() <= self.graph_1.spec_nodes().len(),
            terminal_count(self.graph_0, self.core_0@, self.graph_0.spec_nodes().len() as int) <= terminal_count(
                self.graph_1,
                self.core_1@,
                self.graph_1.spec_nodes().len() as int,
            ),
    {
        let g0 = self.graph_0;
        let g1 = self.graph_1;
        let n0 = g0.spec_nodes().len() as int;
        let n1 = g1.spec_nodes().len() as int;
        let f = |v: int| m[v as usize] as int;
        assert(self.core_0@.len() == self.core_0.len());
        lemma_int_range(0, n0);
        lemma_int_range(0, n1);
        assert forall|a: int, b: int|
            set_int_range(0, n0).contains(a) && set_int_range(0, n0).contains(b) && #[trigger] f(a) == #[trigger] f(b) implies a
            == b by {
            if a != b {
                let au = a as usize;
                let bu = b as usize;
                assert(au as int == a && bu as int == b);
                assert(m[au] != m[bu]);
            }
        }
        assert forall|v: int| #[trigger] set_int_range(0, n0).contains(v) implies set_int_range(0, n1).contains(f(v)) by {
            assert(m[v as usize] < n1);
        }
        lemma_injection_len(set_int_range(0, n0), set_int_range(0, n1), f);
        let t0 = terminal_prefix(g0, self.core_0@, n0);
        let t1 = terminal_prefix(g1, self.core_1@, n1);
        lemma_terminal_count_len(g0, self.core_0@, n0);
        lemma_terminal_count_len(g1, self.core_1@, n1);
        assert forall|a: int, b: int| t0.contains(a) && t0.contains(b) && #[trigger] f(a) == #[trigger] f(b) implies a == b by {
            if a != b {
                let au = a as usize;
                let bu = b as usize;
                assert(au as int == a && bu as int == b);
                assert(m[au] != m[bu]);
            }
        }
        assert forall|v: int| #[trigger] t0.contains(v) implies t1.contains(f(v)) by {
            let vu = v as usize;
            assert(vu as int == v);
            let w = m[vu];
            assert(w < n1);
            if self.core_1@[w as int] is Some {
                let iu = self.core_1@[w as int].unwrap();
                let i = iu as int;
                assert(self.core_0@[i] == Some(w));
                assert(m[iu] == w);
                assert(i != v);
                assert(m[iu] != m[vu]);
            }
            let e = choose|e: int| 0 <= e < g0.spec_edges().len() && #[trigger] adjacent_to_core(g0, self.core_0@, e, v);
            let s = g0.spec_edges()[e].source;
            let t = g0.spec_edges()[e].target;
            assert(edge_surely_mapped(self.ecomp, g0, g1, e, m[s] as int, m[t] as int));
            let x = choose|x: int|
                0 <= x < g1.spec_edges().len() && #[trigger] g1.spec_edges()[x].source == m[s] as int
                    && g1.spec_edges()[x].target == m[t] as int && forall|r: bool|
                    #[trigger] self.ecomp.ensures((&g0.spec_edges()[e].relationship, &g1.spec_edges()[x].relationship), r) ==> r;
            if s as int == v && self.core_0@[t as int] is Some {
                assert(m[t] == self.core_0@[t as int].unwrap());
                assert(self.core_1@[m[t] as int] == Some(t));
                assert(adjacent_to_core(g1, self.core_1@, x, w as int));
            } else {
                assert(t as int == v && self.core_0@[s as int] is Some);
                assert(m[s] == self.core_0@[s as int].unwrap());
                assert(self.core_1@[m[s] as int] == Some(s));
                assert(adjacent_to_core(g1, self.core_1@, x, w as int));
            }
        }
        lemma_injection_len(t0, t1, f);
    }

    /// A state where nothing is matched yet.
    pub(crate) fn new(graph_0: &'g0 PropertyGraph, graph_1: &'g1 PropertyGraph, vcomp: VCOMP, ecomp: ECOMP) -> (s: Self)
        requires
            graph_0.wf(),
            graph_1.wf(),
            forall|a: &Node, b: &Node| #[trigger] vcomp.requires((a, b)),
            forall|a: &Relationship, b: &Relationship| #[trigger] ecomp.requires((a, b)),
        ensures
            s.inv(),
            s.spec_graph_0() == graph_0,
            s.spec_graph_1() == graph_1,
            s.spec_vcomp() == vcomp,
            s.spec_ecomp() == ecomp,
            s.spec_core_len() == 0,
            s.spec_core_0() == Seq::new(graph_0.spec_nodes().len(), |i: int| None::<usize>),
    {
        let n0 = graph_0.nodes_len();
        let n1 = graph_1.nodes_len();
        let mut core_0: Vec<Option<ProxyNodeId>> = Vec::new();
        let mut i: usize = 0;
        while i < n0
            invariant
                0 <= i <= n0,
                core_0@.len() == i,
                forall|k: int| 0 <= k < i ==> core_0@[k] is None,
                count_some(core_0@) == 0,
            decreases n0 - i,
        {
            let ghost before = core_0@;
            core_0.push(None);
            assert(core_0@.drop_last() =~= before);
            i = i + 1;
        }
        let mut core_1: Vec<Option<NodeIndex>> = Vec::new();
        let mut j: usize = 0;
        while j < n1
            invariant
                0 <= j <= n1,
                core_1@.len() == j,
                forall|k: int| 0 <= k < j ==> core_1@[k] is None,
            decreases n1 - j,
        {
            core_1.push(None);
            j = j + 1;
        }
        assert(core_0@ =~= Seq::new(graph_0.spec_nodes().len(), |i: int| None::<usize>));
        State { graph_0, graph_1, vcomp, ecomp, core_0, core_1, core_len: 0 }
    }

    /// Every pattern node is matched.
    pub(crate) fn success(&self) -> (r: bool)
        requires
            self.inv(),
        ensures
            r <==> forall|i: int| 0 <= i < self.spec_core_0().len() ==> #[trigger] self.spec_core_0()[i] is Some,
            r <==> self.spec_core_len() == self.spec_graph_0().spec_nodes().len(),
    {
        proof {
            lemma_count_some_bound(self.core_0@);
        }
        self.core_len == self.graph_0.nodes_len()
    }

    /// The look-ahead of the search: the target has at least as many nodes
    /// as the pattern, and at least as many unmatched nodes next to matched
    /// ones.
    pub(crate) fn valid(&self) -> (r: bool)
        requires
            self.inv(),
        ensures
            r == (self.spec_graph_0().spec_nodes().len() <= self.spec_graph_1().spec_nodes().len()
                && terminal_count(self.spec_graph_0(), self.spec_core_0(), self.spec_graph_0().spec_nodes().len() as int)
                <= terminal_count(self.spec_graph_1(), self.spec_core_1(), self.spec_graph_1().spec_nodes().len() as int)),
    {
        proof {
            self.lemma_core_1_inverse();
        }
        if self.graph_0.nodes_len() > self.graph_1.nodes_len() {
            return false;
        }
        let t0 = terminal_set_size(self.graph_0, &self.core_0);
        let t1 = terminal_set_size(self.graph_1, &self.core_1);
        t0 <= t1
    }

    /// Pattern node `id0` is not matched yet.
    pub(crate) fn possible_candidate_0(&self, id0: NodeIndex) -> (r: bool)
        requires
            self.inv(),
            id0 < self.spec_graph_0().spec_nodes().len(),
        ensures
            r == (self.spec_core_0()[id0 as int] is None),
    {
        self.core_0[id0].is_none()
    }

    /// Target node `id1` is not matched yet.
    pub(crate) fn possible_candidate_1(&self, id1: ProxyNodeId) -> (r: bool)
        requires
            self.inv(),
            id1 < self.spec_graph_1().spec_nodes().len(),
        ensures
            r == (forall|i: int| 0 <= i < self.spec_core_0().len() ==> #[trigger] self.spec_core_0()[i] != Some(id1)),
    {
        let r = self.core_1[id1].is_none();
        proof {
            if !r {
                let i = self.core_1@[id1 as int].unwrap() as int;
                assert(self.core_0@[i] == Some(id1));
            }
        }
        r
    }

    /// Matching `id0` with `id1` keeps the match a partial match: the nodes
    /// compare equal, and every pattern relationship between `id0` and a
    /// matched node (or itself) has a compatible image.
    pub(crate) fn feasible(&self, id0: NodeIndex, id1: ProxyNodeId) -> (r: bool)
        requires
            self.inv(),
            id0 < self.spec_graph_0().spec_nodes().len(),
            id1 < self.spec_graph_1().spec_nodes().len(),
            self.spec_core_0()[id0 as int] is None,
            forall|i: int| 0 <= i < self.spec_core_0().len() ==> #[trigger] self.spec_core_0()[i] != Some(id1),
        ensures
            r ==> partial_match(
                self.spec_vcomp(),
                self.spec_ecomp(),
                self.spec_graph_0(),
                self.spec_graph_1(),
                self.spec_core_0().update(id0 as int, Some(id1)),
            ),
            r ==> extension_ok(
                self.spec_vcomp(),
                self.spec_ecomp(),
                self.spec_graph_0(),
                self.spec_graph_1(),
                self.spec_core_0(),
                id0 as int,
                id1 as int,
            ),
            !r ==> !extension_sure(
                self.spec_vcomp(),
                self.spec_ecomp(),
                self.spec_graph_0(),
                self.spec_graph_1(),
                self.spec_core_0(),
                id0 as int,
                id1 as int,
            ),
    {
        let g0 = self.graph_0;
        let g1 = self.graph_1;
        let n0 = g0.get_node_ref(id0);
        let n1 = g1.get_node_ref(id1);
        if !(self.vcomp)(n0, n1) {
            proof {
                assert(self.vcomp.ensures((n0, n1), false));
            }
            return false;
        }
        let ghost ext = self.core_0@.update(id0 as int, Some(id1));
        let mut k: usize = 0;
        while k < g0.edges_len()
            invariant
                self.inv(),
                g0 == self.graph_0,
                g1 == self.graph_1,
                0 <= k <= g0.spec_edges().len(),
                id0 < g0.spec_nodes().len(),
                id1 < g1.spec_nodes().len(),
                ext == self.core_0@.update(id0 as int, Some(id1)),
                self.core_0@[id0 as int] is None,
                forall|e: int|
                    0 <= e < k && ext[#[trigger] g0.spec_edges()[e].source as int] is Some
                        && ext[g0.spec_edges()[e].target as int] is Some ==> edge_mapped(
                        self.ecomp,
                        g0,
                        g1,
                        e,
                        ext[g0.spec_edges()[e].source as int].unwrap() as int,
                        ext[g0.spec_edges()[e].target as int].unwrap() as int,
                    ),
            decreases g0.spec_edges().len() - k,
        {
            let edge = g0.get_edge_ref(k);
            let s = edge.source;
            let t = edge.target;
            assert(s < g0.spec_nodes().len() && t < g0.spec_nodes().len()) by {
                assert(g0.spec_edges()[k as int].source < g0.spec_nodes().len());
            }
            if s == id0 || t == id0 {
                let ms = if s == id0 { Some(id1) } else { self.core_0[s] };
                let mt = if t == id0 { Some(id1) } else { self.core_0[t] };
                if ms.is_some() && mt.is_some() {
                    let a = ms.unwrap();
                    let b = mt.unwrap();
                    let mut found = false;
                    let mut f: usize = 0;
                    while f < g1.edges_len() && !found
                        invariant
                            self.inv(),
                            g0 == self.graph_0,
                            g1 == self.graph_1,
                            0 <= f <= g1.spec_edges().len(),
                            k < g0.spec_edges().len(),
                            *edge == g0.spec_edges()[k as int],
                            found ==> edge_mapped(self.ecomp, g0, g1, k as int, a as int, b as int),
                            !found ==> forall|x: int|
                                0 <= x < f && #[trigger] g1.spec_edges()[x].source == a && g1.spec_edges()[x].target == b
                                    ==> self.ecomp.ensures((&edge.relationship, &g1.spec_edges()[x].relationship), false),
                        decreases g1.spec_edges().len() - f,
                    {
                        let e1 = g1.get_edge_ref(f);
                        if e1.source == a && e1.target == b {
                            if (self.ecomp)(&edge.relationship, &e1.relationship) {
                                found = true;
                                assert(g1.spec_edges()[f as int].source == a);
                            }
                        }
                        f = f + 1;
                    }
                    if !found {
                        proof {
                            if edge_surely_mapped(self.ecomp, g0, g1, k as int, a as int, b as int) {
                                let x = choose|x: int|
                                    0 <= x < g1.spec_edges().len() && #[trigger] g1.spec_edges()[x].source == a
                                        && g1.spec_edges()[x].target == b && forall|r: bool|
                                        #[trigger] self.ecomp.ensures(
                                            (&g0.spec_edges()[k as int].relationship, &g1.spec_edges()[x].relationship),
                                            r,
                                        ) ==> r;
                                assert(self.ecomp.ensures((&edge.relationship, &g1.spec_edges()[x].relationship), false));
                                assert(false);
                            }
                            assert(g0.spec_edges()[k as int].source == s);
                            assert(ext[s as int] == ms && ext[t as int] == mt);
                        }
                        return false;
                    }
                }
            } else {
                proof {
                    if ext[s as int] is Some && ext[t as int] is Some {
                        assert(self.core_0@[s as int] is Some);
                        assert(self.core_0@[t as int] is Some);
                        assert(g0.spec_edges()[k as int].source == s);
                    }
                }
            }
            k = k + 1;
        }
        proof {
            assert forall|i: int|
                0 <= i < ext.len() && #[trigger] ext[i] is Some implies ext[i].unwrap() < g1.spec_nodes().len()
                && nodes_compatible(self.vcomp, g0, g1, i, ext[i].unwrap() as int) by {
                if i != id0 {
                    assert(self.core_0@[i] is Some);
                }
            }
            assert forall|i: int, j: int|
                0 <= i < ext.len() && 0 <= j < ext.len() && i != j && #[trigger] ext[i] is Some
                    && #[trigger] ext[j] is Some implies ext[i].unwrap() != ext[j].unwrap() by {
                if i != id0 && j != id0 {
                    assert(self.core_0@[i] is Some && self.core_0@[j] is Some);
                } else if i == id0 {
                    assert(self.core_0@[j] != Some(id1));
                } else {
                    assert(self.core_0@[i] != Some(id1));
                }
            }
        }
        true
    }

    /// Matches `id0` with `id1`.
    pub(crate) fn push(&mut self, id0: NodeIndex, id1: ProxyNodeId)
        requires
            old(self).inv(),
            id0 < old(self).spec_graph_0().spec_nodes().len(),
            id1 < old(self).spec_graph_1().spec_nodes().len(),
            old(self).spec_core_0()[id0 as int] is None,
            forall|i: int| 0 <= i < old(self).spec_core_0().len() ==> #[trigger] old(self).spec_core_0()[i] != Some(id1),
            partial_match(
                old(self).spec_vcomp(),
                old(self).spec_ecomp(),
                old(self).spec_graph_0(),
                old(self).spec_graph_1(),
                old(self).spec_core_0().update(id0 as int, Some(id1)),
            ),
        ensures
            final(self).inv(),
            final(self).spec_core_0() == old(self).spec_core_0().update(id0 as int, Some(id1)),
            final(self).spec_core_len() == old(self).spec_core_len() + 1,
            final(self).spec_graph_0() == old(self).spec_graph_0(),
            final(self).spec_graph_1() == old(self).spec_graph_1(),
            final(self).spec_vcomp() == old(self).spec_vcomp(),
            final(self).spec_ecomp() == old(self).spec_ecomp(),
    {
        proof {
            lemma_count_some_update(self.core_0@, id0 as int, Some(id1));
            lemma_count_some_bound(self.core_0@);
            if self.core_1@[id1 as int] is Some {
                let i = self.core_1@[id1 as int].unwrap() as int;
                assert(self.core_0@[i] == Some(id1));
            }
        }
        self.core_0.set(id0, Some(id1));
        self.core_1.set(id1, Some(id0));
        proof {
            lemma_count_some_bound(self.core_0@);
        }
        assert(self.core_0@.len() == self.core_0.len());
        self.core_len = self.core_len + 1;
        proof {
            assert forall|i: int|
                0 <= i < self.core_0@.len() && #[trigger] self.core_0@[i] is Some implies self.core_0@[i].unwrap()
                    < self.core_1@.len() && self.core_1@[self.core_0@[i].unwrap() as int] == Some(i as usize) by {
                if i != id0 {
                    assert(old(self).core_0@[i] is Some);
                    assert(old(self).core_0@[i] != Some(id1));
                }
            }
            assert forall|j: int|
                0 <= j < self.core_1@.len() && #[trigger] self.core_1@[j] is Some implies self.core_1@[j].unwrap()
                    < self.core_0@.len() && self.core_0@[self.core_1@[j].unwrap() as int] == Some(j as usize) by {
                if j != id1 {
                    assert(old(self).core_1@[j] is Some);
                    let i = old(self).core_1@[j].unwrap() as int;
                    assert(i != id0);
                }
            }
        }
    }

    /// Undoes the match of `id0` with `id1`.
    pub(crate) fn pop(&mut self, id0: NodeIndex, id1: ProxyNodeId)
        requires
            old(self).inv(),
            id0 < old(self).spec_graph_0().spec_nodes().len(),
            old(self).spec_core_0()[id0 as int] == Some(id1),
        ensures
            final(self).inv(),
            final(self).spec_core_0() == old(self).spec_core_0().update(id0 as int, None),
            final(self).spec_core_len() + 1 == old(self).spec_core_len(),
            final(self).spec_graph_0() == old(self).spec_graph_0(),
            final(self).spec_graph_1() == old(self).spec_graph_1(),
            final(self).spec_vcomp() == old(self).spec_vcomp(),
            final(self).spec_ecomp() == old(self).spec_ecomp(),
    {
        proof {
            lemma_count_some_update(self.core_0@, id0 as int, None);
        }
        self.core_0.set(id0, None);
        self.core_1.set(id1, None);
        self.core_len = self.core_len - 1;
        proof {
            let g0 = self.graph_0;
            assert forall|i: int|
                0 <= i < self.core_0@.len() && #[trigger] self.core_0@[i] is Some implies self.core_0@[i].unwrap()
                    < self.core_1@.len() && self.core_1@[self.core_0@[i].unwrap() as int] == Some(i as usize) by {
                assert(old(self).core_0@[i] is Some);
                if old(self).core_0@[i].unwrap() == id1 {
                    assert(old(self).core_1@[id1 as int] == Some(i as usize));
                }
            }
            assert forall|j: int|
                0 <= j < self.core_1@.len() && #[trigger] self.core_1@[j] is Some implies self.core_1@[j].unwrap()
                    < self.core_0@.len() && self.core_0@[self.core_1@[j].unwrap() as int] == Some(j as usize) by {
                assert(old(self).core_1@[j] is Some);
                let i = old(self).core_1@[j].unwrap() as int;
                assert(self.core_1@[id1 as int] is None);
                assert(j != id1);
                assert(self.core_1@.len() == self.core_1.len());
                assert(old(self).core_0@[i] == Some(j as usize));
                assert(i != id0);
            }
            assert forall|e: int|
                0 <= e < g0.spec_edges().len() && self.core_0@[#[trigger] g0.spec_edges()[e].source as int] is Some
                    && self.core_0@[g0.spec_edges()[e].target as int] is Some implies edge_mapped(
                    self.ecomp,
                    g0,
                    self.graph_1,
                    e,
                    self.core_0@[g0.spec_edges()[e].source as int].unwrap() as int,
                    self.core_0@[g0.spec_edges()[e].target as int].unwrap() as int,
                ) by {
                assert(old(self).core_0@[g0.spec_edges()[e].source as int] is Some);
            }
            assert forall|i: int, k: int|
                0 <= i < self.core_0@.len() && 0 <= k < self.core_0@.len() && i != k && #[trigger] self.core_0@[i] is Some
                    && #[trigger] self.core_0@[k] is Some implies self.core_0@[i].unwrap() != self.core_0@[k].unwrap() by {
                assert(old(self).core_0@[i] is Some && old(self).core_0@[k] is Some);
            }
        }
    }

    /// Hands the complete match to `callback`, with its inverse, and returns
    /// its answer.
    pub(crate) fn call_back<CALLBACK: MatchCallback>(&self, callback: &mut CALLBACK) -> (r: Option<bool>)
        requires
            self.inv(),
            self.spec_core_len() == self.spec_graph_0().spec_nodes().len(),
        ensures
            old(callback).answers(
                self.spec_map(),
                inverse_map(self.spec_map()),
                *self.spec_graph_0(),
                *self.spec_graph_1(),
                r,
                *final(callback),
            ),
    {
        broadcast use group_hash_axioms;

        let n0 = self.graph_0.nodes_len();
        let mut map_0: HashMap<NodeIndex, ProxyNodeId> = HashMap::new();
        let mut map_1: HashMap<ProxyNodeId, NodeIndex> = HashMap::new();
        let mut i: usize = 0;
        while i < n0
            invariant
                self.inv(),
                0 <= i <= n0,
                n0 == self.core_0@.len(),
                forall|k: usize| #[trigger] map_0@.contains_key(k) <==> k < i && self.core_0@[k as int] is Some,
                forall|k: usize| k < i && self.core_0@[k as int] is Some ==> #[trigger] map_0@[k] == self.core_0@[k as int].unwrap(),
                forall|j: usize|
                    #[trigger] map_1@.contains_key(j) <==> exists|k: usize| k < i && self.core_0@[k as int] == Some(j),
                forall|j: usize|
                    #[trigger] map_1@.contains_key(j) ==> map_1@[j] < i && self.core_0@[map_1@[j] as int] == Some(j),
            decreases n0 - i,
        {
            match self.core_0[i] {
                Some(j) => {
                    map_0.insert(i, j);
                    map_1.insert(j, i);
                },
                None => {},
            }
            i = i + 1;
        }
        assert(map_0@ =~= self.spec_map());
        proof {
            let m = self.spec_map();
            assert forall|j: usize| #[trigger] map_1@.contains_key(j) == inverse_map(m).contains_key(j) by {
                if map_1@.contains_key(j) {
                    let k = map_1@[j];
                    assert(m.contains_key(k) && m[k] == j);
                }
                if inverse_map(m).contains_key(j) {
                    let k = choose|k: usize| m.contains_key(k) && m[k] == j;
                    assert(k < i && self.core_0@[k as int] == Some(j));
                }
            }
            assert forall|j: usize| #[trigger] map_1@.contains_key(j) implies map_1@[j] == inverse_map(m)[j] by {
                let k = map_1@[j];
                assert(m.contains_key(k) && m[k] == j);
                let c = choose|c: usize| m.contains_key(c) && m[c] == j;
                assert(self.core_0@[c as int] == Some(j));
                assert(self.core_1@[j as int] == Some(c));
                assert(self.core_1@[j as int] == Some(k));
            }
            assert(map_1@ =~= inverse_map(m));
        }
        callback.on_match(&map_0, &map_1, self.graph_0, self.graph_1)
    }

    /// A complete partial match is a sub-graph isomorphism.
    pub(crate) proof fn lemma_complete_match(&self)
        requires
            self.inv(),
            self.spec_core_len() == self.spec_graph_0().spec_nodes().len(),
        ensures
            is_sub_isomorphism(self.spec_vcomp(), self.spec_ecomp(), self.spec_graph_0(), self.spec_graph_1(), self.spec_map()),
    {
        lemma_count_some_bound(self.core_0@);
        let m = self.spec_map();
        let g0 = self.graph_0;
        assert forall|i: usize| #[trigger] m.contains_key(i) <==> i < g0.spec_nodes().len() by {
            if i < g0.spec_nodes().len() {
                assert(self.core_0@[i as int] is Some);
            }
        }
        assert forall|i: usize|
            i < g0.spec_nodes().len() implies #[trigger] m[i] < self.graph_1.spec_nodes().len()
                && nodes_compatible(self.vcomp, g0, self.graph_1, i as int, m[i] as int) by {
            assert(self.core_0@[i as int] is Some);
        }
        assert forall|i: usize, k: usize|
            i < g0.spec_nodes().len() && k < g0.spec_nodes().len() && i != k implies #[trigger] m[i] != #[trigger] m[k] by {
            assert(self.core_0@[i as int] is Some && self.core_0@[k as int] is Some);
        }
        assert forall|e: int|
            0 <= e < g0.spec_edges().len() implies edge_mapped(
                self.ecomp,
                g0,
                self.graph_1,
                e,
                m[#[trigger] g0.spec_edges()[e].source] as int,
                m[g0.spec_edges()[e].target] as int,
            ) by {
            let s = g0.spec_edges()[e].source;
            let t = g0.spec_edges()[e].target;
            assert(s < g0.spec_nodes().len());
            assert(self.core_0@[s as int] is Some && self.core_0@[t as int] is Some);
        }
    }
}

} // verus!
