//! The event types that follow an event type: why the map of followers
//! that is found round by round holds with each follower its followers.
use crate::composition::composition_swarm::{active_not_conc, event_at, succ_edge_step, succ_fuel, succ_node_step, succ_of, succ_round_of, succ_rounds, with_successors, LabelKey, SuccMap};
use crate::composition::rounds::{label_events, lemma_label_sets, lemma_succ_edge, lemma_succ_node, lemma_succ_settles, settled};
use crate::growth::{adds, grown, lemma_fold_adds, lemma_fold_still, lemma_rebase, lemma_until_stable, until_stable, within};
use crate::ordmap::set_at;
use crate::seqs::{fold, fold_upto};
use crate::topology::{dfs_post_order, edges_from, lemma_edge_ids_at};
use vstd::prelude::*;

verus! {

/// A graph with its initial node and the pairs of event types that are
/// concurrent.
pub struct Ground {
    pub nodes: nat,
    pub edges: Seq<(usize, usize)>,
    pub labels: Seq<LabelKey>,
    pub initial: usize,
    pub conc: Set<Seq<Seq<char>>>,
}

/// Whether a graph is given with a label for each edge, the edges counted
/// in `usize`.
pub open spec fn ground_ok(g: Ground) -> bool {
    g.edges.len() == g.labels.len() && g.labels.len() <= usize::MAX
}

/// Whether an edge leaves a node that a search from the initial node
/// finds.
pub open spec fn on_walk(g: Ground, e: int) -> bool {
    0 <= e < g.edges.len() && g.initial < g.nodes && dfs_post_order(g.nodes, g.edges, g.initial).contains(g.edges[e].0)
}

/// The labels that are active after an edge and not concurrent with it.
pub open spec fn active_after(g: Ground, e: int) -> Seq<LabelKey> {
    active_not_conc(g.edges, g.labels, g.edges[e].1, event_at(g.labels, e as usize), g.conc)
}

/// The event type of one of the labels that are active after an edge.
pub open spec fn next_event(g: Ground, e: int, i: int) -> Seq<char> {
    active_after(g, e)[i].1[0]
}

/// Whether an event type follows another directly: it is active after an
/// edge with the other, and not concurrent with it.
pub open spec fn direct(g: Ground, a: Seq<char>, b: Seq<char>) -> bool {
    exists|e: int, i: int| on_walk(g, e) && event_at(g.labels, e as usize) == a && 0 <= i < active_after(g, e).len() && #[trigger] next_event(g, e, i) == b
}

/// Whether the event type at a position of a sequence is followed
/// directly by the next.
pub open spec fn hop(g: Ground, p: Seq<Seq<char>>, i: int) -> bool {
    direct(g, p[i], p[i + 1])
}

/// Whether a sequence of event types is a chain in which each is followed
/// directly by the next.
pub open spec fn chain(g: Ground, p: Seq<Seq<char>>) -> bool {
    p.len() >= 2 && forall|i: int| 0 <= i < p.len() - 1 ==> #[trigger] hop(g, p, i)
}

/// Whether a chain leads from an event type to another.
pub open spec fn reaches(g: Ground, a: Seq<char>, b: Seq<char>) -> bool {
    exists|p: Seq<Seq<char>>| #[trigger] chain(g, p) && p[0] == a && p.last() == b
}

/// Whether a map names as followers only event types to which a chain
/// leads.
pub open spec fn least(g: Ground, m: SuccMap) -> bool {
    forall|a: Seq<char>, b: Seq<char>| m.dom().contains(a) && #[trigger] m[a].contains(b) ==> reaches(g, a, b)
}

/// Whether a map names for each edge of the walk, as followers of its
/// event type, each event type that follows directly and the followers of
/// that.
pub open spec fn closed(g: Ground, m: SuccMap) -> bool {
    forall|e: int, i: int| on_walk(g, e) && 0 <= i < active_after(g, e).len() ==> #[trigger] closed_at(g, m, e, i)
}

/// Whether a map names, as followers of the event type of an edge, the
/// event type of a label that is active after it and the followers of
/// that.
pub open spec fn closed_at(g: Ground, m: SuccMap, e: int, i: int) -> bool {
    &&& m.dom().contains(event_at(g.labels, e as usize))
    &&& m[event_at(g.labels, e as usize)].contains(next_event(g, e, i))
    &&& succ_of(m, next_event(g, e, i)).subset_of(m[event_at(g.labels, e as usize)])
}

/// Whether a map names with each follower its followers.
pub open spec fn transitive(m: SuccMap) -> bool {
    forall|a: Seq<char>, b: Seq<char>| #[trigger] set_at(m, a).contains(b) ==> set_at(m, b).subset_of(set_at(m, a))
}

/// A chain with an event type before it that its first follows directly
/// is a chain.
proof fn lemma_chain_before(g: Ground, a: Seq<char>, p: Seq<Seq<char>>)
    requires
        chain(g, p),
        direct(g, a, p[0]),
    ensures
        chain(g, seq![a] + p),
        (seq![a] + p)[0] == a,
        (seq![a] + p).last() == p.last(),
{
    let q = seq![a] + p;
    assert forall|i: int| 0 <= i < q.len() - 1 implies #[trigger] hop(g, q, i) by {
        if i == 0 {
            assert(q[0] == a && q[1] == p[0]);
        } else {
            assert(q[i] == p[i - 1] && q[i + 1] == p[i]);
            assert(hop(g, p, i - 1));
        }
    }
}

/// Two chains, the second from where the first ends, make a chain.
proof fn lemma_chain_join(g: Ground, p: Seq<Seq<char>>, q: Seq<Seq<char>>)
    requires
        chain(g, p),
        chain(g, q),
        p.last() == q[0],
    ensures
        chain(g, p + q.subrange(1, q.len() as int)),
        (p + q.subrange(1, q.len() as int))[0] == p[0],
        (p + q.subrange(1, q.len() as int)).last() == q.last(),
{
    let r = p + q.subrange(1, q.len() as int);
    assert forall|i: int| 0 <= i < r.len() - 1 implies #[trigger] hop(g, r, i) by {
        if i < p.len() - 1 {
            assert(r[i] == p[i] && r[i + 1] == p[i + 1]);
            assert(hop(g, p, i));
        } else {
            let j = i - (p.len() - 1);
            assert(r[i + 1] == q[j + 1]);
            if j == 0 {
                assert(r[i] == p[p.len() - 1]);
            } else {
                assert(r[i] == q[j]);
            }
            assert(hop(g, q, j));
        }
    }
}

/// What an edge of the walk tells of followers is reached by chains, if
/// what was told before is.
proof fn lemma_least_edge(g: Ground, st: (SuccMap, bool), e: usize)
    requires
        ground_ok(g),
        least(g, st.0),
        on_walk(g, e as int),
    ensures
        least(g, succ_edge_step(g.edges, g.labels, g.conc)(st, e).0),
{
    let r = succ_edge_step(g.edges, g.labels, g.conc)(st, e);
    let et = event_at(g.labels, e);
    let act = active_after(g, e as int);
    let add = with_successors(st.0, act, act.len() as int);
    assert forall|a: Seq<char>, b: Seq<char>| r.0.dom().contains(a) && #[trigger] r.0[a].contains(b) implies reaches(g, a, b) by {
        if st.0.dom().contains(a) && st.0[a].contains(b) {
        } else {
            assert(a == et);
            assert(add.contains(b));
            let i = choose|i: int| 0 <= i < act.len() && i < act.len() && (#[trigger] act[i].1[0] == b || succ_of(st.0, act[i].1[0]).contains(b));
            assert(next_event(g, e as int, i) == act[i].1[0]);
            assert(direct(g, et, act[i].1[0]));
            if act[i].1[0] == b {
                let p = seq![et, b];
                assert forall|k: int| 0 <= k < p.len() - 1 implies #[trigger] hop(g, p, k) by {
                    assert(p[0] == et && p[1] == b);
                }
                assert(chain(g, p) && p[0] == et && p.last() == b);
            } else {
                assert(st.0[act[i].1[0]].contains(b));
                assert(reaches(g, act[i].1[0], b));
                let q = choose|q: Seq<Seq<char>>| #[trigger] chain(g, q) && q[0] == act[i].1[0] && q.last() == b;
                lemma_chain_before(g, et, q);
                assert(chain(g, seq![et] + q));
            }
        }
    }
}

/// What the edges that leave a node of the walk tell of followers is
/// reached by chains.
proof fn lemma_least_node(g: Ground, st: (SuccMap, bool), n: usize, upto: int)
    requires
        ground_ok(g),
        least(g, st.0),
        g.initial < g.nodes,
        dfs_post_order(g.nodes, g.edges, g.initial).contains(n),
        0 <= upto <= edges_from(g.edges, n).len(),
    ensures
        least(g, fold_upto(edges_from(g.edges, n), st, succ_edge_step(g.edges, g.labels, g.conc), upto).0),
    decreases upto,
{
    if upto > 0 {
        lemma_least_node(g, st, n, upto - 1);
        lemma_edge_ids_at(g.edges, n, true, g.edges.len() as int);
        let ids = edges_from(g.edges, n);
        let before = fold_upto(ids, st, succ_edge_step(g.edges, g.labels, g.conc), upto - 1);
        assert(on_walk(g, ids[upto - 1] as int));
        lemma_least_edge(g, before, ids[upto - 1]);
    }
}

/// What a round tells of followers is reached by chains.
proof fn lemma_least_walk(g: Ground, st: (SuccMap, bool), upto: int)
    requires
        ground_ok(g),
        least(g, st.0),
        g.initial < g.nodes,
        0 <= upto <= dfs_post_order(g.nodes, g.edges, g.initial).len(),
    ensures
        least(g, fold_upto(dfs_post_order(g.nodes, g.edges, g.initial), st, succ_node_step(g.edges, g.labels, g.conc), upto).0),
    decreases upto,
{
    if upto > 0 {
        lemma_least_walk(g, st, upto - 1);
        let walk = dfs_post_order(g.nodes, g.edges, g.initial);
        let before = fold_upto(walk, st, succ_node_step(g.edges, g.labels, g.conc), upto - 1);
        assert(walk.contains(walk[upto - 1]));
        lemma_least_node(g, before, walk[upto - 1], edges_from(g.edges, walk[upto - 1]).len() as int);
    }
}

/// What the rounds tell of followers is reached by chains.
proof fn lemma_least_rounds(g: Ground, m: SuccMap, fuel: nat)
    requires
        ground_ok(g),
        least(g, m),
    ensures
        least(g, until_stable(succ_round_of(g.nodes, g.edges, g.labels, g.initial, g.conc), m, fuel)),
    decreases fuel,
{
    if fuel > 0 {
        let round = succ_round_of(g.nodes, g.edges, g.labels, g.initial, g.conc);
        let next = round(m);
        if g.initial < g.nodes {
            lemma_least_walk(g, (m, true), dfs_post_order(g.nodes, g.edges, g.initial).len() as int);
        }
        if !next.1 {
            lemma_least_rounds(g, next.0, (fuel - 1) as nat);
        }
    }
}

/// A map that a round leaves as it is names for each edge of the walk
/// what follows directly, with its followers.
proof fn lemma_closed(g: Ground, m: SuccMap)
    requires
        ground_ok(g),
        settled(succ_round_of(g.nodes, g.edges, g.labels, g.initial, g.conc), m),
        within(m, Map::<Seq<char>, Set<Seq<char>>>::empty(), label_events(g.labels), label_events(g.labels)),
    ensures
        closed(g, m),
{
    let base = Map::<Seq<char>, Set<Seq<char>>>::empty();
    let items = label_events(g.labels);
    assert forall|e: int, i: int| on_walk(g, e) && 0 <= i < active_after(g, e).len() implies #[trigger] closed_at(g, m, e, i) by {
        let walk = dfs_post_order(g.nodes, g.edges, g.initial);
        let w = choose|w: int| 0 <= w < walk.len() && walk[w] == g.edges[e].0;
        let nstep = succ_node_step(g.edges, g.labels, g.conc);
        assert forall|acc: (SuccMap, bool), k: int| 0 <= k < walk.len() implies adds(acc, #[trigger] nstep(acc, walk[k]), m, items, items) by {
            lemma_succ_node(g.edges, g.labels, g.conc, acc, walk[k]);
            lemma_rebase(acc, nstep(acc, walk[k]), base, m, items, items);
        }
        assert(fold(walk, (m, true), nstep) == (m, true));
        lemma_fold_still(walk, m, nstep, items, items, w);
        lemma_fold_still(walk, m, nstep, items, items, w + 1);
        assert(fold_upto(walk, (m, true), nstep, w + 1) == nstep(fold_upto(walk, (m, true), nstep, w), walk[w]));
        let ids = edges_from(g.edges, walk[w]);
        lemma_edge_ids_at(g.edges, walk[w], true, g.edges.len() as int);
        let estep = succ_edge_step(g.edges, g.labels, g.conc);
        assert forall|acc: (SuccMap, bool), k: int| 0 <= k < ids.len() implies adds(acc, #[trigger] estep(acc, ids[k]), m, items, items) by {
            lemma_succ_edge(g.edges, g.labels, g.conc, acc, ids[k]);
            lemma_rebase(acc, estep(acc, ids[k]), base, m, items, items);
        }
        assert(ids.contains(e as usize));
        let k = choose|k: int| 0 <= k < ids.len() && ids[k] == e as usize;
        assert(fold(ids, (m, true), estep) == (m, true));
        lemma_fold_still(ids, m, estep, items, items, k);
        lemma_fold_still(ids, m, estep, items, items, k + 1);
        assert(fold_upto(ids, (m, true), estep, k + 1) == estep(fold_upto(ids, (m, true), estep, k), ids[k]));
        assert(estep((m, true), e as usize) == (m, true));
        let et = event_at(g.labels, e as usize);
        let act = active_after(g, e);
        let add = with_successors(m, act, act.len() as int);
        assert(m.dom().contains(et) && add.subset_of(m[et]));
        assert(add.contains(act[i].1[0]));
        assert forall|b: Seq<char>| succ_of(m, next_event(g, e, i)).contains(b) implies m[et].contains(b) by {
            assert(succ_of(m, act[i].1[0]).contains(b));
            assert(add.contains(b));
        }
    }
}

/// Where a chain leads, a closed map names a follower.
proof fn lemma_along(g: Ground, m: SuccMap, p: Seq<Seq<char>>)
    requires
        closed(g, m),
        chain(g, p),
    ensures
        set_at(m, p[0]).contains(p.last()),
    decreases p.len(),
{
    assert(hop(g, p, 0));
    let (e, i) = choose|e: int, i: int| on_walk(g, e) && event_at(g.labels, e as usize) == p[0] && 0 <= i < active_after(g, e).len() && #[trigger] next_event(g, e, i) == p[1];
    assert(closed_at(g, m, e, i));
    if p.len() == 2 {
        assert(p.last() == p[1]);
    } else {
        let rest = p.subrange(1, p.len() as int);
        assert forall|k: int| 0 <= k < rest.len() - 1 implies #[trigger] hop(g, rest, k) by {
            assert(rest[k] == p[k + 1] && rest[k + 1] == p[k + 2]);
            assert(hop(g, p, k + 1));
        }
        lemma_along(g, m, rest);
        assert(rest[0] == p[1] && rest.last() == p.last());
        assert(succ_of(m, p[1]).contains(p.last()));
    }
}

/// The map of followers that is found round by round names with each
/// follower its followers.
pub proof fn lemma_followers_transitive(g: Ground)
    requires
        ground_ok(g),
    ensures
        transitive(succ_rounds(g.nodes, g.edges, g.labels, g.initial, g.conc, Map::empty(), succ_fuel(g.edges))),
{
    let base = Map::<Seq<char>, Set<Seq<char>>>::empty();
    let m = succ_rounds(g.nodes, g.edges, g.labels, g.initial, g.conc, base, succ_fuel(g.edges));
    lemma_succ_settles(g.nodes, g.edges, g.labels, g.initial, g.conc);
    lemma_least_rounds(g, base, succ_fuel(g.edges));
    lemma_succ_within(g);
    lemma_closed(g, m);
    assert forall|a: Seq<char>, b: Seq<char>| #[trigger] set_at(m, a).contains(b) implies set_at(m, b).subset_of(set_at(m, a)) by {
        assert(m.dom().contains(a) && m[a].contains(b));
        assert(reaches(g, a, b));
        let p = choose|p: Seq<Seq<char>>| #[trigger] chain(g, p) && p[0] == a && p.last() == b;
        assert forall|u: Seq<char>| set_at(m, b).contains(u) implies set_at(m, a).contains(u) by {
            assert(m.dom().contains(b) && m[b].contains(u));
            assert(reaches(g, b, u));
            let q = choose|q: Seq<Seq<char>>| #[trigger] chain(g, q) && q[0] == b && q.last() == u;
            lemma_chain_join(g, p, q);
            lemma_along(g, m, p + q.subrange(1, q.len() as int));
        }
    }
}

/// The map of followers that is found round by round names event types
/// of the graph only.
proof fn lemma_succ_within(g: Ground)
    requires
        ground_ok(g),
    ensures
        within(succ_rounds(g.nodes, g.edges, g.labels, g.initial, g.conc, Map::empty(), succ_fuel(g.edges)), Map::<Seq<char>, Set<Seq<char>>>::empty(), label_events(g.labels), label_events(g.labels)),
{
    broadcast use vstd::set_lib::group_set_properties;

    let base = Map::<Seq<char>, Set<Seq<char>>>::empty();
    let items = label_events(g.labels);
    lemma_label_sets(g.labels);
    let round = succ_round_of(g.nodes, g.edges, g.labels, g.initial, g.conc);
    assert forall|t: SuccMap| adds((t, true), #[trigger] round(t), base, items, items) by {
        if g.initial >= g.nodes {
            assert(grown(t, t));
        } else {
            let walk = dfs_post_order(g.nodes, g.edges, g.initial);
            let step = succ_node_step(g.edges, g.labels, g.conc);
            assert forall|acc: (SuccMap, bool), i: int| 0 <= i < walk.len() implies adds(acc, #[trigger] step(acc, walk[i]), base, items, items) by {
                lemma_succ_node(g.edges, g.labels, g.conc, acc, walk[i]);
            }
            lemma_fold_adds(walk, (t, true), step, base, items, items, walk.len() as int);
        }
    }
    assert(grown(base, base));
    assert(within(base, base, items, items));
    assert(base.dom().union(items) =~= items);
    let d = items.len();
    let k = g.edges.len();
    let mm = items.len() + (if items.len() > 0 { 1nat } else { 0nat });
    assert(d * mm <= k * (k + 1)) by (nonlinear_arith)
        requires
            d <= k,
            mm <= k + 1,
    ;
    lemma_until_stable(round, base, base, items, items, succ_fuel(g.edges));
}

} // verus!
