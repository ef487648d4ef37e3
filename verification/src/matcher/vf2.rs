use crate::matcher::state::{
    core_map, count_some, edge_mapped, edge_surely_mapped, extension_ok, extension_sure, inverse_core, lemma_count_some_update, terminal_count, extends, inverse_map, is_sub_isomorphism, lemma_count_some_bound, lemma_deterministic_sure,
    node_comparison_deterministic, rel_comparison_deterministic, surely_sub_isomorphism, MatchCallback, State,
};
use crate::model::{lemma_count_bounds, Node, NodeIndex, PropertyGraph, ProxyNodeId, Relationship};
use vstd::prelude::*;

verus! {

/// A VF2-style search for the sub-graphs of `graph_1` that match the pattern
/// `graph_0`, calling back for each match it finds.
pub struct Matcher<'g0: 'g1, 'g1, VCOMP, ECOMP, CALLBACK> where
    VCOMP: Fn(&Node, &Node) -> bool,
    ECOMP: Fn(&Relationship, &Relationship) -> bool,
    CALLBACK: MatchCallback,
 {
    state: State<'g0, 'g1, VCOMP, ECOMP>,
    found_match: bool,
    match_continuation: Vec<(NodeIndex, ProxyNodeId)>,
    first_candidate_0: Option<NodeIndex>,
    callback: CALLBACK,
    reported: Ghost<Seq<Map<usize, usize>>>,
    answers: Ghost<Seq<Option<bool>>>,
    callbacks: Ghost<Seq<CALLBACK>>,
}

/// The callback `callbacks[0]`, handed the matches `reports` of `g0` into
/// `g1` one after another, answered `answers`, passing through the states
/// `callbacks`.
pub open spec fn callback_run<CALLBACK: MatchCallback>(
    g0: PropertyGraph,
    g1: PropertyGraph,
    reports: Seq<Map<usize, usize>>,
    answers: Seq<Option<bool>>,
    callbacks: Seq<CALLBACK>,
) -> bool {
    &&& reports.len() == answers.len()
    &&& callbacks.len() == answers.len() + 1
    &&& forall|k: int|
        0 <= k < answers.len() ==> #[trigger] callbacks[k].answers(
            reports[k],
            inverse_map(reports[k]),
            g0,
            g1,
            answers[k],
            callbacks[k + 1],
        )
}

/// Every node that `m` sends a node to is listed in `ids`.
pub open spec fn values_in(m: Map<usize, usize>, ids: Seq<usize>) -> bool {
    forall|i: usize| #[trigger] m.contains_key(i) ==> ids.contains(m[i])
}

/// No match occurs twice in `reports`.
pub open spec fn pairwise_distinct(reports: Seq<Map<usize, usize>>) -> bool {
    forall|k: int, l: int| 0 <= k < l < reports.len() ==> #[trigger] reports[k] != #[trigger] reports[l]
}

/// Every one of the `n` nodes is listed in `ids`.
pub open spec fn covers(ids: Seq<usize>, n: nat) -> bool {
    forall|i: usize| i < n ==> #[trigger] ids.contains(i)
}

/// Every answer asks the search to go on.
pub open spec fn all_go_on(answers: Seq<Option<bool>>) -> bool {
    forall|k: int| 0 <= k < answers.len() ==> #[trigger] answers[k] == Some(true)
}

/// The first node of `ids0`, from position `k` on, that `core` leaves
/// unmatched.
pub open spec fn first_free(core: Seq<Option<usize>>, ids0: Seq<usize>, k: int) -> Option<usize>
    decreases ids0.len() - k,
{
    if k < 0 || k >= ids0.len() {
        None
    } else if ids0[k] < core.len() && core[ids0[k] as int] is None {
        Some(ids0[k])
    } else {
        first_free(core, ids0, k + 1)
    }
}

/// No pattern node of `core` is matched with target node `j`.
pub open spec fn target_free(core: Seq<Option<usize>>, j: usize) -> bool {
    forall|i: int| 0 <= i < core.len() ==> #[trigger] core[i] != Some(j)
}

/// The look-ahead of the search on `core` (see `State::valid`).
pub open spec fn look_ahead(g0: &PropertyGraph, g1: &PropertyGraph, core: Seq<Option<usize>>) -> bool {
    &&& g0.spec_nodes().len() <= g1.spec_nodes().len()
    &&& terminal_count(g0, core, g0.spec_nodes().len() as int) <= terminal_count(
        g1,
        inverse_core(core, g1.spec_nodes().len()),
        g1.spec_nodes().len() as int,
    )
}

/// Every pattern node of `core` is matched.
pub open spec fn complete(core: Seq<Option<usize>>) -> bool {
    forall|i: int| 0 <= i < core.len() ==> #[trigger] core[i] is Some
}

/// The matches that the search finds from `core`, in the order it finds
/// them, where each comparison gives one answer for each pair: `core`
/// itself where it is complete; nothing where the look-ahead stops the
/// search or no node of `ids0` is left to match; else, for the first
/// unmatched node of `ids0`, the matches found on from each target node of
/// `ids1` in turn that is free and feasible.
pub open spec fn search_matches<VCOMP: Fn(&Node, &Node) -> bool, ECOMP: Fn(&Relationship, &Relationship) -> bool>(
    vcomp: VCOMP,
    ecomp: ECOMP,
    g0: &PropertyGraph,
    g1: &PropertyGraph,
    ids0: Seq<usize>,
    ids1: Seq<usize>,
    core: Seq<Option<usize>>,
) -> Seq<Map<usize, usize>>
    decreases core.len() - count_some(core), ids1.len() + 1,
{
    if complete(core) {
        seq![core_map(core)]
    } else if !look_ahead(g0, g1, core) {
        Seq::empty()
    } else {
        match first_free(core, ids0, 0) {
            None => Seq::empty(),
            Some(id0) => branch_matches(vcomp, ecomp, g0, g1, ids0, ids1, core, id0, ids1.len() as int),
        }
    }
}

/// The matches that the search finds from `core` by matching `id0` with
/// each of the first `k` target nodes of `ids1` in turn, one after another.
pub open spec fn branch_matches<VCOMP: Fn(&Node, &Node) -> bool, ECOMP: Fn(&Relationship, &Relationship) -> bool>(
    vcomp: VCOMP,
    ecomp: ECOMP,
    g0: &PropertyGraph,
    g1: &PropertyGraph,
    ids0: Seq<usize>,
    ids1: Seq<usize>,
    core: Seq<Option<usize>>,
    id0: usize,
    k: int,
) -> Seq<Map<usize, usize>>
    decreases core.len() - count_some(core), k,
    via branch_matches_decreases::<VCOMP, ECOMP>
{
    if k <= 0 || k > ids1.len() || id0 >= core.len() || core[id0 as int] is Some {
        Seq::empty()
    } else {
        let rest = branch_matches(vcomp, ecomp, g0, g1, ids0, ids1, core, id0, k - 1);
        let j = ids1[k - 1];
        if target_free(core, j) && extension_ok(vcomp, ecomp, g0, g1, core, id0 as int, j as int) {
            rest + search_matches(vcomp, ecomp, g0, g1, ids0, ids1, core.update(id0 as int, Some(j)))
        } else {
            rest
        }
    }
}

#[via_fn]
proof fn branch_matches_decreases<
    VCOMP: Fn(&Node, &Node) -> bool,
    ECOMP: Fn(&Relationship, &Relationship) -> bool,
>(
    vcomp: VCOMP,
    ecomp: ECOMP,
    g0: &PropertyGraph,
    g1: &PropertyGraph,
    ids0: Seq<usize>,
    ids1: Seq<usize>,
    core: Seq<Option<usize>>,
    id0: usize,
    k: int,
) {
    if !(k <= 0 || k > ids1.len() || id0 >= core.len() || core[id0 as int] is Some) {
        let j = ids1[k - 1];
        lemma_count_some_update(core, id0 as int, Some(j));
        lemma_count_some_bound(core);
        lemma_count_some_bound(core.update(id0 as int, Some(j)));
    }
}

/// The matches found from the first `k` target nodes come first among
/// those found from the first `m`.
proof fn lemma_branch_prefix<VCOMP: Fn(&Node, &Node) -> bool, ECOMP: Fn(&Relationship, &Relationship) -> bool>(
    vcomp: VCOMP,
    ecomp: ECOMP,
    g0: &PropertyGraph,
    g1: &PropertyGraph,
    ids0: Seq<usize>,
    ids1: Seq<usize>,
    core: Seq<Option<usize>>,
    id0: usize,
    k: int,
    m: int,
)
    requires
        0 <= k <= m <= ids1.len(),
    ensures
        branch_matches(vcomp, ecomp, g0, g1, ids0, ids1, core, id0, k).len() <= branch_matches(
            vcomp,
            ecomp,
            g0,
            g1,
            ids0,
            ids1,
            core,
            id0,
            m,
        ).len(),
        branch_matches(vcomp, ecomp, g0, g1, ids0, ids1, core, id0, m).take(
            branch_matches(vcomp, ecomp, g0, g1, ids0, ids1, core, id0, k).len() as int,
        ) == branch_matches(vcomp, ecomp, g0, g1, ids0, ids1, core, id0, k),
    decreases m - k,
{
    let bk = branch_matches(vcomp, ecomp, g0, g1, ids0, ids1, core, id0, k);
    let bm = branch_matches(vcomp, ecomp, g0, g1, ids0, ids1, core, id0, m);
    if k == m {
        assert(bm.take(bk.len() as int) =~= bk);
    } else {
        lemma_branch_prefix(vcomp, ecomp, g0, g1, ids0, ids1, core, id0, k, m - 1);
        let bp = branch_matches(vcomp, ecomp, g0, g1, ids0, ids1, core, id0, m - 1);
        assert(bm.take(bp.len() as int) =~= bp);
        assert(bm.take(bk.len() as int) =~= bp.take(bk.len() as int));
    }
}

/// One step of the scan of the target nodes: after the matches found from
/// the first `k` target nodes come those found on from target node `k`,
/// all of them or, where the search stopped, the first few.
proof fn lemma_branch_step<VCOMP: Fn(&Node, &Node) -> bool, ECOMP: Fn(&Relationship, &Relationship) -> bool>(
    vcomp: VCOMP,
    ecomp: ECOMP,
    g0: &PropertyGraph,
    g1: &PropertyGraph,
    ids0: Seq<usize>,
    ids1: Seq<usize>,
    core: Seq<Option<usize>>,
    id0: usize,
    k: int,
    olds: Seq<Map<usize, usize>>,
    kids: Seq<Map<usize, usize>>,
    stopped: bool,
)
    requires
        0 <= k < ids1.len(),
        id0 < core.len(),
        core[id0 as int] is None,
        target_free(core, ids1[k]),
        extension_ok(vcomp, ecomp, g0, g1, core, id0 as int, ids1[k] as int),
        olds == branch_matches(vcomp, ecomp, g0, g1, ids0, ids1, core, id0, k),
        ({
            let sub = search_matches(vcomp, ecomp, g0, g1, ids0, ids1, core.update(id0 as int, Some(ids1[k])));
            &&& kids.len() <= sub.len()
            &&& kids == sub.take(kids.len() as int)
            &&& !stopped ==> kids == sub
        }),
    ensures
        !stopped ==> olds + kids == branch_matches(vcomp, ecomp, g0, g1, ids0, ids1, core, id0, k + 1),
        (olds + kids).len() <= branch_matches(vcomp, ecomp, g0, g1, ids0, ids1, core, id0, ids1.len() as int).len(),
        olds + kids == branch_matches(vcomp, ecomp, g0, g1, ids0, ids1, core, id0, ids1.len() as int).take(
            (olds + kids).len() as int,
        ),
{
    let sub = search_matches(vcomp, ecomp, g0, g1, ids0, ids1, core.update(id0 as int, Some(ids1[k])));
    let b1 = branch_matches(vcomp, ecomp, g0, g1, ids0, ids1, core, id0, k + 1);
    let bl = branch_matches(vcomp, ecomp, g0, g1, ids0, ids1, core, id0, ids1.len() as int);
    assert(b1 == olds + sub);
    lemma_branch_prefix(vcomp, ecomp, g0, g1, ids0, ids1, core, id0, k + 1, ids1.len() as int);
    let news = olds + kids;
    assert(news =~= b1.take(news.len() as int));
    assert(bl.take(b1.len() as int) == b1);
    assert(news =~= bl.take(news.len() as int));
}

/// Under comparisons that give one answer for each pair, a feasible
/// extension cannot be turned down.
proof fn lemma_deterministic_extension<
    VCOMP: Fn(&Node, &Node) -> bool,
    ECOMP: Fn(&Relationship, &Relationship) -> bool,
>(vcomp: VCOMP, ecomp: ECOMP, g0: &PropertyGraph, g1: &PropertyGraph, core: Seq<Option<usize>>, id0: int, id1: int)
    requires
        node_comparison_deterministic(vcomp),
        rel_comparison_deterministic(ecomp),
        extension_ok(vcomp, ecomp, g0, g1, core, id0, id1),
    ensures
        extension_sure(vcomp, ecomp, g0, g1, core, id0, id1),
{
    assert forall|r: bool| #[trigger] vcomp.ensures((&g0.spec_nodes()[id0], &g1.spec_nodes()[id1]), r) implies r by {
        assert(vcomp.ensures((&g0.spec_nodes()[id0], &g1.spec_nodes()[id1]), true));
    }
    let ext = core.update(id0, Some(id1 as usize));
    assert forall|e: int|
        0 <= e < g0.spec_edges().len() && (g0.spec_edges()[e].source == id0 || g0.spec_edges()[e].target == id0)
            && ext[#[trigger] g0.spec_edges()[e].source as int] is Some && ext[g0.spec_edges()[e].target as int] is Some
            implies edge_surely_mapped(
            ecomp,
            g0,
            g1,
            e,
            ext[g0.spec_edges()[e].source as int].unwrap() as int,
            ext[g0.spec_edges()[e].target as int].unwrap() as int,
        ) by {
        let s1 = ext[g0.spec_edges()[e].source as int].unwrap() as int;
        let t1 = ext[g0.spec_edges()[e].target as int].unwrap() as int;
        assert(edge_mapped(ecomp, g0, g1, e, s1, t1));
        let f = choose|f: int|
            0 <= f < g1.spec_edges().len() && #[trigger] g1.spec_edges()[f].source == s1
                && g1.spec_edges()[f].target == t1 && ecomp.ensures(
                (&g0.spec_edges()[e].relationship, &g1.spec_edges()[f].relationship),
                true,
            );
        assert forall|r: bool|
            #[trigger] ecomp.ensures((&g0.spec_edges()[e].relationship, &g1.spec_edges()[f].relationship), r) implies r by {
            assert(ecomp.ensures((&g0.spec_edges()[e].relationship, &g1.spec_edges()[f].relationship), true));
        }
        assert(g1.spec_edges()[f].source == s1);
    }
}

/// With nothing matched, the count of matched nodes is zero.
proof fn lemma_count_some_zero(core: Seq<Option<usize>>)
    requires
        count_some(core) == 0,
    ensures
        forall|i: int| 0 <= i < core.len() ==> #[trigger] core[i] is None,
    decreases core.len(),
{
    if core.len() > 0 {
        lemma_count_some_zero(core.drop_last());
        assert forall|i: int| 0 <= i < core.len() implies #[trigger] core[i] is None by {
            if i < core.len() - 1 {
                assert(core.drop_last()[i] == core[i]);
            }
        }
    }
}

impl<'g0, 'g1, VCOMP, ECOMP, CALLBACK> Matcher<'g0, 'g1, VCOMP, ECOMP, CALLBACK> where
    VCOMP: Fn(&Node, &Node) -> bool,
    ECOMP: Fn(&Relationship, &Relationship) -> bool,
    CALLBACK: MatchCallback,
 {
    /// The pattern.
    pub closed spec fn spec_graph_0(&self) -> &'g0 PropertyGraph {
        self.state.spec_graph_0()
    }

    /// The graph the pattern is matched against.
    pub closed spec fn spec_graph_1(&self) -> &'g1 PropertyGraph {
        self.state.spec_graph_1()
    }

    /// The node comparison.
    pub closed spec fn spec_vcomp(&self) -> VCOMP {
        self.state.spec_vcomp()
    }

    /// The relationship comparison.
    pub closed spec fn spec_ecomp(&self) -> ECOMP {
        self.state.spec_ecomp()
    }

    /// The matches handed to the callback so far, in order.
    pub closed spec fn spec_reported(&self) -> Seq<Map<usize, usize>> {
        self.reported@
    }

    /// The callback's answers so far, in order.
    pub closed spec fn spec_answers(&self) -> Seq<Option<bool>> {
        self.answers@
    }

    /// The states the callback went through, from the one it was given in.
    pub closed spec fn spec_callbacks(&self) -> Seq<CALLBACK> {
        self.callbacks@
    }

    /// Whether a match has been found.
    pub closed spec fn spec_found_match(&self) -> bool {
        self.found_match
    }

    /// The number of pairs currently matched.
    pub closed spec fn spec_depth(&self) -> nat {
        self.match_continuation@.len()
    }

    /// Every match handed to the callback is a sub-graph isomorphism of the
    /// pattern into the target.
    pub open spec fn reports_sound(&self) -> bool {
        forall|k: int|
            0 <= k < self.spec_reported().len() ==> is_sub_isomorphism(
                self.spec_vcomp(),
                self.spec_ecomp(),
                self.spec_graph_0(),
                self.spec_graph_1(),
                #[trigger] self.spec_reported()[k],
            )
    }

    pub closed spec fn inv(&self) -> bool {
        &&& self.state.inv()
        &&& self.match_continuation@.len() == self.state.spec_core_len()
        &&& forall|k: int|
            0 <= k < self.match_continuation@.len() ==> {
                &&& #[trigger] self.match_continuation@[k].0 < self.state.spec_graph_0().spec_nodes().len()
                &&& self.state.spec_core_0()[self.match_continuation@[k].0 as int] == Some(
                    self.match_continuation@[k].1,
                )
            }
        &&& forall|k: int, l: int|
            0 <= k < l < self.match_continuation@.len() ==> #[trigger] self.match_continuation@[k].0
                != #[trigger] self.match_continuation@[l].0
        &&& self.reports_sound()
        &&& self.reported@.len() == self.answers@.len()
        &&& self.found_match <==> self.reported@.len() > 0
        &&& callback_run(*self.state.graph_0, *self.state.graph_1, self.reported@, self.answers@, self.callbacks@)
        &&& self.callbacks@.last() == self.callback
    }

    /// A matcher of the pattern `graph_0` against `graph_1` that compares
    /// nodes with `vcomp` and relationships with `ecomp`.
    pub fn new(graph_0: &'g0 PropertyGraph, graph_1: &'g1 PropertyGraph, vcomp: VCOMP, ecomp: ECOMP, callback: CALLBACK) -> (m: Self)
        requires
            graph_0.wf(),
            graph_1.wf(),
            forall|a: &Node, b: &Node| #[trigger] vcomp.requires((a, b)),
            forall|a: &Relationship, b: &Relationship| #[trigger] ecomp.requires((a, b)),
        ensures
            m.inv(),
            m.spec_graph_0() == graph_0,
            m.spec_graph_1() == graph_1,
            m.spec_vcomp() == vcomp,
            m.spec_ecomp() == ecomp,
            m.spec_depth() == 0,
            m.spec_reported().len() == 0,
            m.spec_answers().len() == 0,
            m.spec_callbacks() == seq![callback],
            !m.spec_found_match(),
    {
        let ghost first = seq![callback];
        Matcher {
            state: State::new(graph_0, graph_1, vcomp, ecomp),
            found_match: false,
            match_continuation: Vec::new(),
            first_candidate_0: None,
            callback: callback,
            reported: Ghost(Seq::empty()),
            answers: Ghost(Seq::empty()),
            callbacks: Ghost(first),
        }
    }

    /// Undoes the last match of the search, if there is one.
    fn back_track(&mut self)
        requires
            old(self).inv(),
        ensures
            final(self).inv(),
            final(self).state.spec_core_0() == if old(self).match_continuation@.len() == 0 {
                old(self).state.spec_core_0()
            } else {
                old(self).state.spec_core_0().update(old(self).match_continuation@.last().0 as int, None)
            },
            final(self).match_continuation@ == if old(self).match_continuation@.len() == 0 {
                old(self).match_continuation@
            } else {
                old(self).match_continuation@.drop_last()
            },
            final(self).state.spec_graph_0() == old(self).state.spec_graph_0(),
            final(self).state.spec_graph_1() == old(self).state.spec_graph_1(),
            final(self).state.spec_vcomp() == old(self).state.spec_vcomp(),
            final(self).state.spec_ecomp() == old(self).state.spec_ecomp(),
            final(self).found_match == old(self).found_match,
            final(self).first_candidate_0 == old(self).first_candidate_0,
            final(self).reported == old(self).reported,
            final(self).answers == old(self).answers,
            final(self).callbacks == old(self).callbacks,
    {
        let ghost old_self = *self;
        let last = self.match_continuation.pop();
        if let Some(back) = last {
            proof {
                let n = old(self).match_continuation@.len() as int;
                assert(old(self).match_continuation@[n - 1] == back);
            }
            self.state.pop(back.0, back.1);
            proof {
                let s = self.match_continuation@;
                assert forall|k: int| 0 <= k < s.len() implies {
                    &&& #[trigger] s[k].0 < self.state.spec_graph_0().spec_nodes().len()
                    &&& self.state.spec_core_0()[s[k].0 as int] == Some(s[k].1)
                } by {
                    let n = old(self).match_continuation@.len() as int;
                    assert(old(self).match_continuation@[k] == s[k]);
                    assert(old(self).match_continuation@[n - 1] == back);
                    assert(old(self).match_continuation@[k].0 != old(self).match_continuation@[n - 1].0);
                    assert(old(self).state.spec_core_0()[s[k].0 as int] == Some(s[k].1));
                }
                assert forall|k: int, l: int| 0 <= k < l < s.len() implies #[trigger] s[k].0 != #[trigger] s[l].0 by {
                    assert(old(self).match_continuation@[k] == s[k]);
                    assert(old(self).match_continuation@[l] == s[l]);
                }
            }
        }
        proof {
            self.lemma_reports_kept(old_self);
        }
    }

    /// Matches `id0` with `id1` and records the pair.
    fn extend(&mut self, id0: NodeIndex, id1: ProxyNodeId)
        requires
            old(self).inv(),
            id0 < old(self).state.spec_graph_0().spec_nodes().len(),
            id1 < old(self).state.spec_graph_1().spec_nodes().len(),
            old(self).state.spec_core_0()[id0 as int] is None,
            forall|i: int| 0 <= i < old(self).state.spec_core_0().len() ==> #[trigger] old(self).state.spec_core_0()[i] != Some(id1),
            crate::matcher::state::partial_match(
                old(self).state.spec_vcomp(),
                old(self).state.spec_ecomp(),
                old(self).state.spec_graph_0(),
                old(self).state.spec_graph_1(),
                old(self).state.spec_core_0().update(id0 as int, Some(id1)),
            ),
        ensures
            final(self).inv(),
            final(self).state.spec_core_0() == old(self).state.spec_core_0().update(id0 as int, Some(id1)),
            final(self).state.spec_core_len() == old(self).state.spec_core_len() + 1,
            final(self).match_continuation@ == old(self).match_continuation@.push((id0, id1)),
            final(self).state.spec_graph_0() == old(self).state.spec_graph_0(),
            final(self).state.spec_graph_1() == old(self).state.spec_graph_1(),
            final(self).state.spec_vcomp() == old(self).state.spec_vcomp(),
            final(self).state.spec_ecomp() == old(self).state.spec_ecomp(),
            final(self).found_match == old(self).found_match,
            final(self).reported == old(self).reported,
            final(self).answers == old(self).answers,
            final(self).callbacks == old(self).callbacks,
    {
        let ghost old_self = *self;
        self.match_continuation.push((id0, id1));
        self.state.push(id0, id1);
        proof {
            let s = self.match_continuation@;
            let n = s.len() as int;
            assert forall|k: int| 0 <= k < s.len() implies {
                &&& #[trigger] s[k].0 < self.state.spec_graph_0().spec_nodes().len()
                &&& self.state.spec_core_0()[s[k].0 as int] == Some(s[k].1)
            } by {
                if k < n - 1 {
                    assert(old_self.match_continuation@[k] == s[k]);
                    assert(old_self.state.spec_core_0()[s[k].0 as int] == Some(s[k].1));
                    assert(s[k].0 != id0);
                }
            }
            assert forall|k: int, l: int| 0 <= k < l < s.len() implies #[trigger] s[k].0 != #[trigger] s[l].0 by {
                assert(old_self.match_continuation@[k] == s[k]);
                if l < n - 1 {
                    assert(old_self.match_continuation@[l] == s[l]);
                } else {
                    assert(old_self.state.spec_core_0()[s[k].0 as int] is Some);
                }
            }
            self.lemma_reports_kept(old_self);
        }
    }

    /// Hands the complete match to the callback and records it with the
    /// answer, which it returns.
    fn report(&mut self) -> (answer: Option<bool>)
        requires
            old(self).inv(),
            old(self).state.spec_core_len() == old(self).state.spec_graph_0().spec_nodes().len(),
        ensures
            final(self).inv(),
            final(self).state == old(self).state,
            final(self).match_continuation == old(self).match_continuation,
            final(self).reported@ == old(self).reported@.push(old(self).state.spec_map()),
            final(self).answers@ == old(self).answers@.push(answer),
            final(self).callbacks@.take(old(self).callbacks@.len() as int) == old(self).callbacks@,
            final(self).callbacks@.len() == old(self).callbacks@.len() + 1,
    {
        let ghost head = *self;
        self.found_match = true;
        let answer = self.state.call_back(&mut self.callback);
        proof {
            self.state.lemma_complete_match();
        }
        self.reported = Ghost(self.reported@.push(self.state.spec_map()));
        self.answers = Ghost(self.answers@.push(answer));
        self.callbacks = Ghost(self.callbacks@.push(self.callback));
        proof {
            assert forall|k: int| 0 <= k < self.spec_reported().len() implies is_sub_isomorphism(
                self.spec_vcomp(),
                self.spec_ecomp(),
                self.spec_graph_0(),
                self.spec_graph_1(),
                #[trigger] self.spec_reported()[k],
            ) by {
                if k < head.spec_reported().len() {
                    assert(head.spec_reported()[k] == self.spec_reported()[k]);
                    assert(is_sub_isomorphism(
                        head.spec_vcomp(),
                        head.spec_ecomp(),
                        head.spec_graph_0(),
                        head.spec_graph_1(),
                        head.spec_reported()[k],
                    ));
                }
            }
            let n = head.answers@.len() as int;
            assert forall|k: int| 0 <= k < self.answers@.len() implies #[trigger] self.callbacks@[k].answers(
                self.reported@[k],
                inverse_map(self.reported@[k]),
                *self.state.graph_0,
                *self.state.graph_1,
                self.answers@[k],
                self.callbacks@[k + 1],
            ) by {
                if k < n {
                    assert(self.callbacks@[k] == head.callbacks@[k]);
                    assert(self.callbacks@[k + 1] == head.callbacks@[k + 1]);
                    assert(self.reported@[k] == head.reported@[k]);
                    assert(self.answers@[k] == head.answers@[k]);
                } else {
                    assert(self.callbacks@[k] == head.callback);
                }
            }
            assert(self.callbacks@.take(head.callbacks@.len() as int) =~= head.callbacks@);
        }
        answer
    }

    /// Searches for the matches that extend the current one: hands the
    /// current match to the callback when it is complete; otherwise, where
    /// the look-ahead allows it, takes the first pattern node of `ids0` not
    /// yet matched and tries each target node of `ids1` in turn, searching
    /// on from each feasible pair before undoing it. Returns `Some(true)`
    /// where every answer of the callback asked to go on, and else the
    /// answer that stopped the search. The current match is left as it was.
    #[verifier::rlimit(60)]
    fn search(&mut self, ids0: &Vec<NodeIndex>, ids1: &Vec<ProxyNodeId>) -> (r: Option<bool>)
        requires
            old(self).inv(),
            forall|k: int| 0 <= k < ids0@.len() ==> #[trigger] ids0@[k] < old(self).state.spec_graph_0().spec_nodes().len(),
            forall|k: int| 0 <= k < ids1@.len() ==> #[trigger] ids1@[k] < old(self).state.spec_graph_1().spec_nodes().len(),
            forall|i: int|
                0 <= i < old(self).state.spec_core_0().len() && #[trigger] old(self).state.spec_core_0()[i] is Some
                    ==> ids1@.contains(old(self).state.spec_core_0()[i].unwrap()),
        ensures
            final(self).inv(),
            final(self).state.spec_core_0() == old(self).state.spec_core_0(),
            final(self).match_continuation@ == old(self).match_continuation@,
            final(self).state.spec_graph_0() == old(self).state.spec_graph_0(),
            final(self).state.spec_graph_1() == old(self).state.spec_graph_1(),
            final(self).state.spec_vcomp() == old(self).state.spec_vcomp(),
            final(self).state.spec_ecomp() == old(self).state.spec_ecomp(),
            old(self).reported@.len() <= final(self).reported@.len(),
            final(self).reported@.take(old(self).reported@.len() as int) == old(self).reported@,
            final(self).answers@.take(old(self).answers@.len() as int) == old(self).answers@,
            final(self).callbacks@.take(old(self).callbacks@.len() as int) == old(self).callbacks@,
            forall|k: int|
                old(self).reported@.len() <= k < final(self).reported@.len() ==> extends(
                    #[trigger] final(self).reported@[k],
                    old(self).state.spec_core_0(),
                ) && values_in(final(self).reported@[k], ids1@),
            ids1@.no_duplicates() ==> pairwise_distinct(final(self).reported@.skip(old(self).reported@.len() as int)),
            forall|k: int|
                old(self).answers@.len() <= k < final(self).answers@.len() - 1 ==> #[trigger] final(self).answers@[k] == Some(
                    true,
                ),
            r == if final(self).answers@.len() == old(self).answers@.len() {
                Some(true)
            } else {
                final(self).answers@.last()
            },
            r == Some(true) && covers(ids0@, old(self).state.spec_graph_0().spec_nodes().len()) ==> forall|m: Map<usize, usize>|
                surely_sub_isomorphism(
                    old(self).state.spec_vcomp(),
                    old(self).state.spec_ecomp(),
                    old(self).state.spec_graph_0(),
                    old(self).state.spec_graph_1(),
                    m,
                ) && extends(m, old(self).state.spec_core_0()) && values_in(m, ids1@) ==> #[trigger] final(self).reported@.skip(old(self).reported@.len() as int).contains(m),
            node_comparison_deterministic(old(self).state.spec_vcomp()) && rel_comparison_deterministic(
                old(self).state.spec_ecomp(),
            ) ==> {
                let found = search_matches(
                    old(self).state.spec_vcomp(),
                    old(self).state.spec_ecomp(),
                    old(self).state.spec_graph_0(),
                    old(self).state.spec_graph_1(),
                    ids0@,
                    ids1@,
                    old(self).state.spec_core_0(),
                );
                let news = final(self).reported@.skip(old(self).reported@.len() as int);
                &&& news.len() <= found.len()
                &&& news == found.take(news.len() as int)
                &&& r == Some(true) ==> news == found
            },
        decreases old(self).state.spec_graph_0().spec_nodes().len() - old(self).state.spec_core_len(),
    {
        let ghost start = *self;
        let ghost base = self.state.core_0@;
        let ghost rlen = self.reported@.len() as int;
        let ghost alen = self.answers@.len() as int;
        let ghost clen = self.callbacks@.len() as int;
        let ghost n0 = self.state.graph_0.spec_nodes().len();
        let ghost det = node_comparison_deterministic(self.state.vcomp) && rel_comparison_deterministic(self.state.ecomp);
        let ghost found = search_matches(
            self.state.vcomp,
            self.state.ecomp,
            self.state.graph_0,
            self.state.graph_1,
            ids0@,
            ids1@,
            base,
        );
        proof {
            lemma_count_some_bound(base);
            assert(rlen == alen && clen == alen + 1);
        }
        if self.state.success() {
            let answer = self.report();
            proof {
                let news = self.reported@.skip(rlen);
                assert(self.reported@.take(rlen) =~= start.reported@);
                assert(self.answers@.take(alen) =~= start.answers@);
                assert(news =~= seq![start.state.spec_map()]);
                assert(self.reported@[rlen] == start.state.spec_map());
                assert forall|i: usize| #[trigger] start.state.spec_map().contains_key(i) implies ids1@.contains(
                    start.state.spec_map()[i],
                ) by {
                    assert(base[i as int] is Some);
                }
                assert forall|m: Map<usize, usize>|
                    surely_sub_isomorphism(start.state.vcomp, start.state.ecomp, start.state.graph_0, start.state.graph_1, m)
                        && extends(m, base) && values_in(m, ids1@) implies #[trigger] news.contains(m) by {
                    assert forall|i: usize| #[trigger] m.contains_key(i) == start.state.spec_map().contains_key(i) by {
                        if i < n0 {
                            assert(base[i as int] is Some);
                        }
                    }
                    assert forall|i: usize| #[trigger] m.contains_key(i) implies m[i] == start.state.spec_map()[i] by {
                        assert(base[i as int] is Some);
                    }
                    assert(m =~= start.state.spec_map());
                    assert(news[0] == m);
                }
                assert(complete(base));
                assert(found == seq![core_map(base)]);
                assert(news.take(1) =~= news);
                assert(found.take(1) =~= found);
            }
            return answer;
        }
        if !self.state.valid() {
            proof {
                assert(self.reported@.skip(rlen) =~= Seq::<Map<usize, usize>>::empty());
                assert(self.reported@.take(rlen) =~= self.reported@);
                assert(self.answers@.take(alen) =~= self.answers@);
                assert(self.callbacks@.take(clen) =~= self.callbacks@);
                assert forall|m: Map<usize, usize>|
                    surely_sub_isomorphism(start.state.vcomp, start.state.ecomp, start.state.graph_0, start.state.graph_1, m)
                        && extends(m, base) && values_in(m, ids1@) implies #[trigger] self.reported@.skip(rlen).contains(m) by {
                    self.state.lemma_valid_if_extendable(m);
                }
                self.state.lemma_core_1_inverse();
                assert(!complete(base));
                assert(!look_ahead(start.state.graph_0, start.state.graph_1, base));
                assert(found =~= Seq::<Map<usize, usize>>::empty());
            }
            return Some(true);
        }
        let mut it0: usize = 0;
        let mut cand: Option<NodeIndex> = None;
        while it0 < ids0.len() && cand.is_none()
            invariant
                self.inv(),
                *self == start,
                0 <= it0 <= ids0@.len(),
                forall|k: int| 0 <= k < ids0@.len() ==> #[trigger] ids0@[k] < n0,
                n0 == self.state.graph_0.spec_nodes().len(),
                cand is None ==> forall|k: int| 0 <= k < it0 ==> #[trigger] base[ids0@[k] as int] is Some,
                cand matches Some(c) ==> c < n0 && base[c as int] is None,
                cand is None ==> first_free(base, ids0@, 0) == first_free(base, ids0@, it0 as int),
                cand matches Some(c) ==> first_free(base, ids0@, 0) == Some(c),
                base.len() == n0,
                base == self.state.core_0@,
            decreases ids0@.len() - it0,
        {
            let id0 = ids0[it0];
            if self.state.possible_candidate_0(id0) {
                cand = Some(id0);
            }
            it0 = it0 + 1;
        }
        self.first_candidate_0 = cand;
        proof {
            self.lemma_reports_kept(start);
        }
        let id0 = match cand {
            None => {
                proof {
                    assert(self.reported@.skip(rlen) =~= Seq::<Map<usize, usize>>::empty());
                    assert(self.reported@.take(rlen) =~= self.reported@);
                    assert(self.answers@.take(alen) =~= self.answers@);
                    assert(self.callbacks@.take(clen) =~= self.callbacks@);
                    if covers(ids0@, n0) {
                        assert forall|i: int| 0 <= i < base.len() implies #[trigger] base[i] is Some by {
                            assert(self.state.core_0@.len() == self.state.core_0.len());
                            assert(ids0@.contains(i as usize));
                            let k = choose|k: int| 0 <= k < ids0@.len() && ids0@[k] == i as usize;
                            assert(base[ids0@[k] as int] is Some);
                        }
                        assert(false);
                    }
                    start.state.lemma_core_1_inverse();
                    assert(!complete(base));
                    assert(found =~= Seq::<Map<usize, usize>>::empty());
                }
                return Some(true);
            },
            Some(c) => c,
        };
        proof {
            start.state.lemma_core_1_inverse();
            assert(!complete(base));
            assert(look_ahead(start.state.graph_0, start.state.graph_1, base));
            assert(found == branch_matches(
                start.state.vcomp,
                start.state.ecomp,
                start.state.graph_0,
                start.state.graph_1,
                ids0@,
                ids1@,
                base,
                id0,
                ids1@.len() as int,
            ));
            assert(self.reported@.take(rlen) =~= start.reported@);
            assert(self.answers@.take(alen) =~= start.answers@);
            assert(self.callbacks@.take(clen) =~= start.callbacks@);
            assert(self.reported@.skip(rlen) =~= Seq::<Map<usize, usize>>::empty());
        }
        let mut it1: usize = 0;
        while it1 < ids1.len()
            invariant
                self.inv(),
                self.state.core_0@ == base,
                self.match_continuation@ == start.match_continuation@,
                self.state.graph_0 == start.state.graph_0,
                self.state.graph_1 == start.state.graph_1,
                self.state.vcomp == start.state.vcomp,
                self.state.ecomp == start.state.ecomp,
                self.state.core_len == start.state.core_len,
                n0 == self.state.graph_0.spec_nodes().len(),
                0 <= it1 <= ids1@.len(),
                id0 < n0,
                base[id0 as int] is None,
                forall|k: int| 0 <= k < ids0@.len() ==> #[trigger] ids0@[k] < n0,
                forall|k: int| 0 <= k < ids1@.len() ==> #[trigger] ids1@[k] < self.state.graph_1.spec_nodes().len(),
                forall|i: int| 0 <= i < base.len() && #[trigger] base[i] is Some ==> ids1@.contains(base[i].unwrap()),
                rlen <= self.reported@.len(),
                self.reported@.take(rlen) == start.reported@,
                self.answers@.take(alen) == start.answers@,
                self.callbacks@.take(clen) == start.callbacks@,
                rlen == start.reported@.len(),
                alen == start.answers@.len(),
                clen == start.callbacks@.len(),
                rlen == alen,
                clen == alen + 1,
                start == *old(self),
                base == start.state.core_0@,
                forall|k: int|
                    rlen <= k < self.reported@.len() ==> extends(#[trigger] self.reported@[k], base) && values_in(
                        self.reported@[k],
                        ids1@,
                    ) && ids1@.take(it1 as int).contains(self.reported@[k][id0]),
                ids1@.no_duplicates() ==> pairwise_distinct(self.reported@.skip(rlen)),
                forall|k: int| alen <= k < self.answers@.len() ==> #[trigger] self.answers@[k] == Some(true),
                covers(ids0@, n0) ==> forall|m: Map<usize, usize>|
                    surely_sub_isomorphism(start.state.vcomp, start.state.ecomp, start.state.graph_0, start.state.graph_1, m)
                        && extends(m, base) && values_in(m, ids1@) && ids1@.take(it1 as int).contains(m[id0])
                        ==> #[trigger] self.reported@.skip(rlen).contains(m),
                det == (node_comparison_deterministic(start.state.vcomp) && rel_comparison_deterministic(start.state.ecomp)),
                found == search_matches(
                    start.state.vcomp,
                    start.state.ecomp,
                    start.state.graph_0,
                    start.state.graph_1,
                    ids0@,
                    ids1@,
                    base,
                ),
                det ==> found == branch_matches(
                    start.state.vcomp,
                    start.state.ecomp,
                    start.state.graph_0,
                    start.state.graph_1,
                    ids0@,
                    ids1@,
                    base,
                    id0,
                    ids1@.len() as int,
                ),
                det ==> self.reported@.skip(rlen) == branch_matches(
                    start.state.vcomp,
                    start.state.ecomp,
                    start.state.graph_0,
                    start.state.graph_1,
                    ids0@,
                    ids1@,
                    base,
                    id0,
                    it1 as int,
                ),
            decreases ids1@.len() - it1,
        {
            let id1 = ids1[it1];
            let ghost before = *self;
            if self.state.possible_candidate_1(id1) && self.state.feasible(id0, id1) {
                self.extend(id0, id1);
                proof {
                    assert(ids1@.contains(id1));
                    assert forall|i: int|
                        0 <= i < self.state.spec_core_0().len() && #[trigger] self.state.spec_core_0()[i] is Some implies ids1@.contains(
                            self.state.spec_core_0()[i].unwrap(),
                        ) by {
                        if i != id0 {
                            assert(base[i] is Some);
                        }
                    }
                    lemma_count_some_bound(self.state.core_0@);
                }
                let ghost mid = *self;
                let r = self.search(ids0, ids1);
                self.back_track();
                proof {
                    let ext = base.update(id0 as int, Some(id1));
                    assert(self.state.core_0@ =~= base);
                    let news = self.reported@.skip(rlen);
                    let olds = before.reported@.skip(rlen);
                    let kids = self.reported@.skip(mid.reported@.len() as int);
                    let blen = before.reported@.len() as int;
                    assert(mid.reported@ == before.reported@);
                    assert(news =~= olds + kids);
                    assert forall|k: int| 0 <= k < self.reported@.len() && k < rlen implies self.reported@[k] == start.reported@[k] by {
                        assert(self.reported@.take(blen)[k] == before.reported@[k]);
                        assert(before.reported@.take(rlen)[k] == before.reported@[k]);
                    }
                    assert(self.reported@.take(rlen) =~= start.reported@);
                    assert forall|k: int| 0 <= k < alen implies self.answers@[k] == start.answers@[k] by {
                        assert(self.answers@.take(before.answers@.len() as int)[k] == before.answers@[k]);
                        assert(before.answers@.take(alen)[k] == before.answers@[k]);
                    }
                    assert(self.answers@.take(alen) =~= start.answers@);
                    assert forall|k: int| 0 <= k < clen implies self.callbacks@[k] == start.callbacks@[k] by {
                        assert(self.callbacks@.take(before.callbacks@.len() as int)[k] == before.callbacks@[k]);
                        assert(before.callbacks@.take(clen)[k] == before.callbacks@[k]);
                    }
                    assert(self.callbacks@.take(clen) =~= start.callbacks@);
                    assert(ids1@.take(it1 + 1) == ids1@.take(it1 as int).push(id1));
                    assert forall|k: int|
                        rlen <= k < self.reported@.len() implies extends(#[trigger] self.reported@[k], base) && values_in(
                            self.reported@[k],
                            ids1@,
                        ) && ids1@.take(it1 + 1).contains(self.reported@[k][id0]) by {
                        if k < blen {
                            assert(self.reported@[k] == before.reported@[k]) by {
                                assert(self.reported@.take(blen)[k] == before.reported@[k]);
                            }
                            let w = choose|w: int| 0 <= w < ids1@.take(it1 as int).len() && #[trigger] ids1@.take(it1 as int)[w] == before.reported@[k][id0];
                            assert(ids1@.take(it1 + 1)[w] == before.reported@[k][id0]);
                        } else {
                            let m = self.reported@[k];
                            assert(extends(m, ext));
                            assert(ext[id0 as int] is Some);
                            assert(m[id0] == id1);
                            assert forall|i: int| 0 <= i < base.len() && #[trigger] base[i] is Some implies m.contains_key(i as usize)
                                && m[i as usize] == base[i].unwrap() by {
                                assert(i != id0);
                                assert(ext[i] == base[i]);
                            }
                            assert(ids1@.take(it1 + 1)[it1 as int] == id1);
                        }
                    }
                    if ids1@.no_duplicates() {
                        assert forall|k: int, l: int| 0 <= k < l < news.len() implies #[trigger] news[k] != #[trigger] news[l] by {
                            let ob = olds.len();
                            if l < ob {
                                assert(olds[k] != olds[l]);
                            } else if k >= ob {
                                assert(kids[k - ob] != kids[l - ob]);
                            } else {
                                let a = news[k];
                                let b = news[l];
                                assert(a == self.reported@[rlen + k]);
                                assert(b == self.reported@[rlen + l]);
                                assert(ids1@.take(it1 as int).contains(a[id0])) by {
                                    assert(before.reported@[rlen + k] == a) by {
                                        assert(self.reported@.take(blen)[rlen + k] == before.reported@[rlen + k]);
                                    }
                                }
                                assert(extends(b, ext));
                                assert(ext[id0 as int] is Some);
                                assert(b[id0] == id1);
                                if a == b {
                                    let w = choose|w: int| 0 <= w < ids1@.take(it1 as int).len() && #[trigger] ids1@.take(it1 as int)[w] == a[id0];
                                    assert(ids1@[w] == ids1@[it1 as int]);
                                }
                            }
                        }
                    }
                    assert forall|k: int| alen <= k < self.answers@.len() - 1 implies #[trigger] self.answers@[k] == Some(true) by {
                        if k < before.answers@.len() {
                            assert(self.answers@.take(before.answers@.len() as int)[k] == before.answers@[k]);
                        }
                    }
                    if r == Some(true) {
                        assert forall|k: int| alen <= k < self.answers@.len() implies #[trigger] self.answers@[k] == Some(true) by {
                            if k < before.answers@.len() {
                                assert(self.answers@.take(before.answers@.len() as int)[k] == before.answers@[k]);
                            }
                        }
                        if covers(ids0@, n0) {
                            assert forall|m: Map<usize, usize>|
                                surely_sub_isomorphism(start.state.vcomp, start.state.ecomp, start.state.graph_0, start.state.graph_1, m)
                                    && extends(m, base) && values_in(m, ids1@) && ids1@.take(it1 + 1).contains(m[id0])
                                    implies #[trigger] news.contains(m) by {
                                if ids1@.take(it1 as int).contains(m[id0]) {
                                    assert(olds.contains(m));
                                    let w = choose|w: int| 0 <= w < olds.len() && #[trigger] olds[w] == m;
                                    assert(news[w] == m);
                                } else {
                                    let w = choose|w: int| 0 <= w < ids1@.take(it1 + 1).len() && #[trigger] ids1@.take(it1 + 1)[w] == m[id0];
                                    assert(w == it1);
                                    assert(m[id0] == id1);
                                    assert(extends(m, ext)) by {
                                        assert forall|i: int| 0 <= i < ext.len() && #[trigger] ext[i] is Some implies m.contains_key(i as usize)
                                            && m[i as usize] == ext[i].unwrap() by {
                                            if i != id0 {
                                                assert(base[i] is Some);
                                            } else {
                                                assert(m.contains_key(id0));
                                            }
                                        }
                                    }
                                    assert(kids.contains(m));
                                    let v = choose|v: int| 0 <= v < kids.len() && #[trigger] kids[v] == m;
                                    assert(news[olds.len() + v] == m);
                                }
                            }
                        }
                    }
                    if det {
                        assert(mid.state.core_0@ == ext);
                        assert(target_free(base, id1));
                        assert(ids1@[it1 as int] == id1);
                        lemma_branch_step(
                            start.state.vcomp,
                            start.state.ecomp,
                            start.state.graph_0,
                            start.state.graph_1,
                            ids0@,
                            ids1@,
                            base,
                            id0,
                            it1 as int,
                            olds,
                            kids,
                            r != Some(true),
                        );
                    }
                }
                match r {
                    Some(true) => {},
                    _ => {
                        proof {
                            if det {
                                let news = self.reported@.skip(rlen);
                                assert(news.len() <= found.len());
                                assert(news == found.take(news.len() as int));
                            }
                        }
                        return r;
                    },
                }
            } else {
                proof {
                    assert(ids1@.take(it1 + 1) == ids1@.take(it1 as int).push(id1));
                    assert forall|k: int|
                        rlen <= k < self.reported@.len() implies extends(#[trigger] self.reported@[k], base) && values_in(
                            self.reported@[k],
                            ids1@,
                        ) && ids1@.take(it1 + 1).contains(self.reported@[k][id0]) by {
                        let w = choose|w: int| 0 <= w < ids1@.take(it1 as int).len() && #[trigger] ids1@.take(it1 as int)[w] == self.reported@[k][id0];
                        assert(ids1@.take(it1 + 1)[w] == self.reported@[k][id0]);
                    }
                    if det && target_free(base, id1) && extension_ok(
                        start.state.vcomp,
                        start.state.ecomp,
                        start.state.graph_0,
                        start.state.graph_1,
                        base,
                        id0 as int,
                        id1 as int,
                    ) {
                        lemma_deterministic_extension(
                            start.state.vcomp,
                            start.state.ecomp,
                            start.state.graph_0,
                            start.state.graph_1,
                            base,
                            id0 as int,
                            id1 as int,
                        );
                    }
                    assert(ids1@[it1 as int] == id1);
                    if covers(ids0@, n0) {
                        assert forall|m: Map<usize, usize>|
                            surely_sub_isomorphism(start.state.vcomp, start.state.ecomp, start.state.graph_0, start.state.graph_1, m)
                                && extends(m, base) && values_in(m, ids1@) && ids1@.take(it1 + 1).contains(m[id0])
                                implies #[trigger] self.reported@.skip(rlen).contains(m) by {
                            if !ids1@.take(it1 as int).contains(m[id0]) {
                                let w = choose|w: int| 0 <= w < ids1@.take(it1 + 1).len() && #[trigger] ids1@.take(it1 + 1)[w] == m[id0];
                                assert(w == it1);
                                self.state.lemma_extension_sure(m, id0 as int);
                                assert(false);
                            }
                        }
                    }
                }
            }
            it1 = it1 + 1;
        }
        proof {
            assert(ids1@.take(ids1@.len() as int) =~= ids1@);
            assert(self.reported@.take(rlen) == start.reported@);
            if covers(ids0@, n0) {
                assert forall|m: Map<usize, usize>|
                    surely_sub_isomorphism(start.state.vcomp, start.state.ecomp, start.state.graph_0, start.state.graph_1, m)
                        && extends(m, base) && values_in(m, ids1@) implies #[trigger] self.reported@.skip(rlen).contains(m) by {
                    assert(m.contains_key(id0));
                    assert(ids1@.contains(m[id0]));
                }
            }
        }
        Some(true)
    }

    /// Runs the search over the pattern nodes in the order `ids0` and the
    /// target nodes in the order `ids1`: for the first pattern node not yet
    /// matched it tries the target nodes in turn, searches on from each
    /// feasible pair and then undoes it; when every pattern node is matched
    /// the match is handed to the callback.
    ///
    /// Returns `None` when the callback answers `None`, `Some(true)` when it
    /// answers `Some(false)`, and otherwise, once the search has ended,
    /// whether any match was found.
    pub fn process(&mut self, ids0: Vec<NodeIndex>, ids1: Vec<ProxyNodeId>) -> (res: Option<bool>)
        requires
            old(self).inv(),
            old(self).spec_depth() == 0,
            forall|k: int| 0 <= k < ids0@.len() ==> #[trigger] ids0@[k] < old(self).spec_graph_0().spec_nodes().len(),
            forall|k: int| 0 <= k < ids1@.len() ==> #[trigger] ids1@[k] < old(self).spec_graph_1().spec_nodes().len(),
        ensures
            final(self).inv(),
            final(self).reports_sound(),
            final(self).spec_graph_0() == old(self).spec_graph_0(),
            final(self).spec_graph_1() == old(self).spec_graph_1(),
            final(self).spec_vcomp() == old(self).spec_vcomp(),
            final(self).spec_ecomp() == old(self).spec_ecomp(),
            final(self).spec_depth() == 0,
            final(self).spec_reported().len() == final(self).spec_answers().len(),
            final(self).spec_reported().take(old(self).spec_reported().len() as int) == old(self).spec_reported(),
            final(self).spec_answers().take(old(self).spec_answers().len() as int) == old(self).spec_answers(),
            final(self).spec_callbacks().take(old(self).spec_callbacks().len() as int) == old(self).spec_callbacks(),
            callback_run(
                *final(self).spec_graph_0(),
                *final(self).spec_graph_1(),
                final(self).spec_reported(),
                final(self).spec_answers(),
                final(self).spec_callbacks(),
            ),
            forall|k: int|
                old(self).spec_reported().len() <= k < final(self).spec_reported().len() ==> values_in(
                    #[trigger] final(self).spec_reported()[k],
                    ids1@,
                ),
            ids1@.no_duplicates() ==> pairwise_distinct(
                final(self).spec_reported().skip(old(self).spec_reported().len() as int),
            ),
            forall|k: int|
                old(self).spec_answers().len() <= k < final(self).spec_answers().len() - 1
                    ==> #[trigger] final(self).spec_answers()[k] == Some(true),
            res is None <==> (final(self).spec_answers().len() > old(self).spec_answers().len()
                && final(self).spec_answers().last() is None),
            (final(self).spec_answers().len() > old(self).spec_answers().len()
                && final(self).spec_answers().last() == Some(false)) ==> res == Some(true),
            res matches Some(b) ==> b == final(self).spec_found_match(),
            final(self).spec_found_match() <==> final(self).spec_reported().len() > 0,
            all_go_on(final(self).spec_answers().skip(old(self).spec_answers().len() as int)) && covers(
                ids0@,
                old(self).spec_graph_0().spec_nodes().len(),
            ) ==> forall|m: Map<usize, usize>|
                surely_sub_isomorphism(
                    old(self).spec_vcomp(),
                    old(self).spec_ecomp(),
                    old(self).spec_graph_0(),
                    old(self).spec_graph_1(),
                    m,
                ) && values_in(m, ids1@) ==> #[trigger] final(self).spec_reported().skip(
                    old(self).spec_reported().len() as int,
                ).contains(m),
            node_comparison_deterministic(old(self).spec_vcomp()) && rel_comparison_deterministic(old(self).spec_ecomp())
                ==> {
                let found = search_matches(
                    old(self).spec_vcomp(),
                    old(self).spec_ecomp(),
                    old(self).spec_graph_0(),
                    old(self).spec_graph_1(),
                    ids0@,
                    ids1@,
                    Seq::new(old(self).spec_graph_0().spec_nodes().len(), |i: int| None::<usize>),
                );
                let news = final(self).spec_reported().skip(old(self).spec_reported().len() as int);
                &&& news.len() <= found.len()
                &&& news == found.take(news.len() as int)
                &&& all_go_on(final(self).spec_answers().skip(old(self).spec_answers().len() as int)) ==> news == found
            },
    {
        proof {
            lemma_count_some_zero(self.state.core_0@);
            assert(self.state.core_0@ =~= Seq::new(self.state.graph_0.spec_nodes().len(), |i: int| None::<usize>));
        }
        let ghost start = *self;
        let r = self.search(&ids0, &ids1);
        proof {
            let alen = start.answers@.len() as int;
            let newa = self.answers@.skip(alen);
            if all_go_on(newa) && self.answers@.len() > alen {
                assert(newa[newa.len() - 1] == self.answers@.last());
            }
            assert(self.answers@.len() >= alen) by {
                assert(self.reported@.len() == self.answers@.len());
            }
            if r == Some(true) {
                assert forall|k: int| alen <= k < self.answers@.len() implies #[trigger] self.answers@[k] == Some(true) by {
                    if k == self.answers@.len() - 1 {
                    }
                }
            }
            if r != Some(true) {
                assert(self.answers@.len() > alen);
            }
            assert forall|m: Map<usize, usize>| #[trigger] extends(m, start.state.core_0@) by {
            }
        }
        match r {
            None => None,
            Some(false) => Some(true),
            Some(true) => Some(self.found_match),
        }
    }

    proof fn lemma_reports_kept(&self, before: Self)
        requires
            before.reports_sound(),
            self.reported == before.reported,
            self.state.spec_graph_0() == before.state.spec_graph_0(),
            self.state.spec_graph_1() == before.state.spec_graph_1(),
            self.state.spec_vcomp() == before.state.spec_vcomp(),
            self.state.spec_ecomp() == before.state.spec_ecomp(),
        ensures
            self.reports_sound(),
    {
        assert forall|k: int| 0 <= k < self.spec_reported().len() implies is_sub_isomorphism(
            self.spec_vcomp(),
            self.spec_ecomp(),
            self.spec_graph_0(),
            self.spec_graph_1(),
            #[trigger] self.spec_reported()[k],
        ) by {
            assert(is_sub_isomorphism(
                before.spec_vcomp(),
                before.spec_ecomp(),
                before.spec_graph_0(),
                before.spec_graph_1(),
                before.spec_reported()[k],
            ));
        }
    }
}

/// The number of relationships that touch node `v`, counting a loop twice.
pub open spec fn total_degree(g: &PropertyGraph, v: int) -> nat {
    g.spec_in_degree(v) + g.spec_out_degree(v)
}

/// Node `a` comes before node `b` in the matching order: it has a higher
/// total degree, or the same degree and a lower index.
pub open spec fn degree_before(g: &PropertyGraph, a: usize, b: usize) -> bool {
    ||| total_degree(g, a as int) > total_degree(g, b as int)
    ||| (total_degree(g, a as int) == total_degree(g, b as int) && a < b)
}

/// The indices of `n` nodes, in increasing order.
pub open spec fn node_ids(n: nat) -> Seq<usize> {
    Seq::new(n, |i: int| i as usize)
}

/// `ids` lists each node of `graph` once, by decreasing total degree, nodes
/// of equal degree in increasing order of index.
pub open spec fn by_degree(graph: &PropertyGraph, ids: Seq<usize>) -> bool {
    &&& ids.len() == graph.spec_nodes().len()
    &&& forall|k: int| 0 <= k < ids.len() ==> #[trigger] ids[k] < graph.spec_nodes().len()
    &&& forall|v: usize| v < graph.spec_nodes().len() ==> #[trigger] ids.contains(v)
    &&& forall|k: int, l: int| 0 <= k < l < ids.len() ==> degree_before(graph, #[trigger] ids[k], #[trigger] ids[l])
}

/// The indices of the nodes of `graph`, by decreasing total degree, nodes
/// of equal degree in increasing order of index.
fn sort_nodes(graph: &PropertyGraph) -> (res: Vec<NodeIndex>)
    requires
        graph.wf(),
        graph.spec_edges().len() <= usize::MAX / 2,
    ensures
        res@.len() == graph.spec_nodes().len(),
        forall|k: int| 0 <= k < res@.len() ==> #[trigger] res@[k] < graph.spec_nodes().len(),
        forall|v: usize| v < graph.spec_nodes().len() ==> #[trigger] res@.contains(v),
        forall|k: int, l: int| 0 <= k < l < res@.len() ==> degree_before(graph, #[trigger] res@[k], #[trigger] res@[l]),
        by_degree(graph, res@),
{
    let n = graph.nodes_len();
    let mut deg: Vec<usize> = Vec::new();
    let mut v: usize = 0;
    while v < n
        invariant
            0 <= v <= n,
            n == graph.spec_nodes().len(),
            graph.spec_edges().len() <= usize::MAX / 2,
            deg@.len() == v,
            forall|w: int| 0 <= w < v ==> #[trigger] deg@[w] == total_degree(graph, w),
        decreases n - v,
    {
        proof {
            lemma_count_bounds(graph.spec_edges(), v as int, graph.spec_edges().len() as int);
        }
        let d = graph.in_degree(v) + graph.out_degree(v);
        deg.push(d);
        v = v + 1;
    }
    let mut res: Vec<NodeIndex> = Vec::new();
    let mut i: usize = 0;
    while i < n
        invariant
            0 <= i <= n,
            n == graph.spec_nodes().len(),
            deg@.len() == n,
            forall|w: int| 0 <= w < n ==> #[trigger] deg@[w] == total_degree(graph, w),
            res@.len() == i,
            forall|k: int| 0 <= k < res@.len() ==> #[trigger] res@[k] < i,
            forall|w: usize| w < i ==> #[trigger] res@.contains(w),
            forall|k: int, l: int| 0 <= k < l < res@.len() ==> degree_before(graph, #[trigger] res@[k], #[trigger] res@[l]),
        decreases n - i,
    {
        let d = deg[i];
        let mut p: usize = 0;
        while p < res.len() && deg[res[p]] >= d
            invariant
                0 <= p <= res@.len(),
                i < n,
                deg@.len() == n,
                d == deg@[i as int],
                forall|k: int| 0 <= k < res@.len() ==> #[trigger] res@[k] < i,
                forall|q: int| 0 <= q < p ==> #[trigger] deg@[res@[q] as int] >= d,
            decreases res@.len() - p,
        {
            p = p + 1;
        }
        let ghost old_res = res@;
        res.insert(p, i);
        proof {
            assert forall|k: int| 0 <= k < res@.len() implies #[trigger] res@[k] < i + 1 by {
                if k < p {
                    assert(res@[k] == old_res[k]);
                } else if k > p {
                    assert(res@[k] == old_res[k - 1]);
                }
            }
            assert forall|w: usize| w < i + 1 implies #[trigger] res@.contains(w) by {
                if w == i {
                    assert(res@[p as int] == w);
                } else {
                    assert(old_res.contains(w));
                    let k = choose|k: int| 0 <= k < old_res.len() && old_res[k] == w;
                    if k < p {
                        assert(res@[k] == w);
                    } else {
                        assert(res@[k + 1] == w);
                    }
                }
            }
            assert forall|k: int, l: int| 0 <= k < l < res@.len() implies degree_before(graph, #[trigger] res@[k], #[trigger] res@[l]) by {
                if l < p {
                    assert(res@[k] == old_res[k] && res@[l] == old_res[l]);
                } else if l == p {
                    assert(res@[k] == old_res[k]);
                    assert(deg@[old_res[k] as int] >= d);
                } else if k > p {
                    assert(res@[k] == old_res[k - 1] && res@[l] == old_res[l - 1]);
                } else if k == p {
                    assert(res@[l] == old_res[l - 1]);
                    assert(deg@[old_res[p as int] as int] < d);
                    if l - 1 > p {
                        assert(degree_before(graph, old_res[p as int], old_res[l - 1]));
                    }
                } else {
                    assert(res@[k] == old_res[k] && res@[l] == old_res[l - 1]);
                }
            }
        }
        i = i + 1;
    }
    res
}

/// `g1b` is `g1` with one more node, last, and no more relationships.
pub open spec fn with_isolated_node(g1: &PropertyGraph, g1b: &PropertyGraph) -> bool {
    &&& g1b.spec_nodes().len() == g1.spec_nodes().len() + 1
    &&& g1b.spec_nodes().take(g1.spec_nodes().len() as int) == g1.spec_nodes()
    &&& g1b.spec_edges() == g1.spec_edges()
}

/// Adding to the target a node with no relationships never removes a
/// match: a sub-graph isomorphism into `g1` is one into `g1b`, so where
/// one exists for `g1`, one exists for `g1b` (and [`sub_graph_isomorphism`]
/// answers `Some(true)` on both, under comparisons that give one answer for
/// each pair and a callback that lets the search go on).
pub proof fn lemma_isolated_node_keeps_matches<
    VCOMP: Fn(&Node, &Node) -> bool,
    ECOMP: Fn(&Relationship, &Relationship) -> bool,
>(vcomp: VCOMP, ecomp: ECOMP, g0: &PropertyGraph, g1: &PropertyGraph, g1b: &PropertyGraph, m: Map<usize, usize>)
    requires
        with_isolated_node(g1, g1b),
        is_sub_isomorphism(vcomp, ecomp, g0, g1, m),
    ensures
        is_sub_isomorphism(vcomp, ecomp, g0, g1b, m),
{
    assert forall|i: usize| i < g0.spec_nodes().len() implies #[trigger] m[i] < g1b.spec_nodes().len()
        && crate::matcher::state::nodes_compatible(vcomp, g0, g1b, i as int, m[i] as int) by {
        assert(crate::matcher::state::nodes_compatible(vcomp, g0, g1, i as int, m[i] as int));
        assert(g1b.spec_nodes().take(g1.spec_nodes().len() as int)[m[i] as int] == g1b.spec_nodes()[m[i] as int]);
    }
}

/// Searches `graph_1` for the sub-graphs that match the pattern `graph_0`,
/// trying the pattern nodes by decreasing degree, and hands each match to
/// `callback` (see [`Matcher::process`]). The answer is `None` where the
/// callback aborted, `Some(true)` where it stopped the search, and else
/// whether a match was found.
pub fn sub_graph_isomorphism<'g0: 'g1, 'g1, VCOMP, ECOMP, CALLBACK>(
    graph_0: &'g0 PropertyGraph,
    graph_1: &'g1 PropertyGraph,
    vcomp: VCOMP,
    ecomp: ECOMP,
    callback: CALLBACK,
) -> (res: Option<bool>) where
    VCOMP: Fn(&Node, &Node) -> bool,
    ECOMP: Fn(&Relationship, &Relationship) -> bool,
    CALLBACK: MatchCallback,

    requires
        graph_0.wf(),
        graph_1.wf(),
        graph_0.spec_edges().len() <= usize::MAX / 2,
        forall|a: &Node, b: &Node| #[trigger] vcomp.requires((a, b)),
        forall|a: &Relationship, b: &Relationship| #[trigger] ecomp.requires((a, b)),
    ensures
        res == Some(true) ==> exists|m: Map<usize, usize>| is_sub_isomorphism(vcomp, ecomp, graph_0, graph_1, m),
        exists|reports: Seq<Map<usize, usize>>, answers: Seq<Option<bool>>, callbacks: Seq<CALLBACK>|
            {
                &&& callbacks[0] == callback
                &&& #[trigger] callback_run(*graph_0, *graph_1, reports, answers, callbacks)
                &&& forall|k: int|
                    0 <= k < reports.len() ==> is_sub_isomorphism(vcomp, ecomp, graph_0, graph_1, #[trigger] reports[k])
                &&& pairwise_distinct(reports)
                &&& forall|k: int| 0 <= k < answers.len() - 1 ==> #[trigger] answers[k] == Some(true)
                &&& (res is None <==> (answers.len() > 0 && answers.last() is None))
                &&& (answers.len() > 0 && answers.last() == Some(false)) ==> res == Some(true)
                &&& res matches Some(b) ==> (b <==> reports.len() > 0)
                &&& all_go_on(answers) ==> forall|m: Map<usize, usize>|
                    surely_sub_isomorphism(vcomp, ecomp, graph_0, graph_1, m) ==> #[trigger] reports.contains(m)
                &&& all_go_on(answers) && node_comparison_deterministic(vcomp) && rel_comparison_deterministic(ecomp)
                    ==> res == Some(exists|m: Map<usize, usize>| is_sub_isomorphism(vcomp, ecomp, graph_0, graph_1, m))
                &&& node_comparison_deterministic(vcomp) && rel_comparison_deterministic(ecomp) ==> exists|
                    ids0: Seq<usize>,
                |
                    #[trigger] by_degree(graph_0, ids0) && {
                        let found = search_matches(
                            vcomp,
                            ecomp,
                            graph_0,
                            graph_1,
                            ids0,
                            node_ids(graph_1.spec_nodes().len()),
                            Seq::new(graph_0.spec_nodes().len(), |i: int| None::<usize>),
                        );
                        &&& reports.len() <= found.len()
                        &&& reports == found.take(reports.len() as int)
                        &&& all_go_on(answers) ==> reports == found
                    }
            },
{
    let id0 = sort_nodes(graph_0);
    let id1 = graph_1.get_nodes_ids();
    let ghost ids0 = id0@;
    let ghost ids1 = id1@;
    proof {
        assert(ids1 =~= node_ids(graph_1.spec_nodes().len()));
        assert forall|k: int, l: int| 0 <= k < ids1.len() && 0 <= l < ids1.len() && k != l implies ids1[k] != ids1[l] by {
        }
        assert(ids1.no_duplicates());
    }
    let mut matcher = Matcher::new(graph_0, graph_1, vcomp, ecomp, callback);
    let res = matcher.process(id0, id1);
    proof {
        let reports = matcher.spec_reported();
        let answers = matcher.spec_answers();
        let callbacks = matcher.spec_callbacks();
        assert(reports.skip(0) =~= reports);
        assert(answers.skip(0) =~= answers);
        assert(callbacks.take(1)[0] == callbacks[0]);
        assert(matcher.reports_sound());
        if res == Some(true) {
            assert(matcher.spec_reported().len() > 0);
            let m = matcher.spec_reported()[0];
            assert(is_sub_isomorphism(vcomp, ecomp, graph_0, graph_1, m));
        }
        assert forall|m: Map<usize, usize>| surely_sub_isomorphism(vcomp, ecomp, graph_0, graph_1, m) implies values_in(m, ids1) by {
            assert forall|i: usize| #[trigger] m.contains_key(i) implies ids1.contains(m[i]) by {
                assert(ids1[m[i] as int] == m[i]);
            }
        }
        if all_go_on(answers) && node_comparison_deterministic(vcomp) && rel_comparison_deterministic(ecomp) {
            if exists|m: Map<usize, usize>| is_sub_isomorphism(vcomp, ecomp, graph_0, graph_1, m) {
                let m = choose|m: Map<usize, usize>| is_sub_isomorphism(vcomp, ecomp, graph_0, graph_1, m);
                lemma_deterministic_sure(vcomp, ecomp, graph_0, graph_1, m);
                assert(reports.contains(m));
            }
            if answers.len() > 0 {
                assert(answers[answers.len() - 1] == Some(true));
            }
        }
        assert(callback_run(*graph_0, *graph_1, reports, answers, callbacks));
        assert(by_degree(graph_0, ids0));
    }
    res
}

} // verus!
