//! The index of labels by role of a protocol without findings: it holds
//! each label of the protocol under its role, and nothing else.
use crate::composition::composition_swarm::{lemma_no_log_errors, lemma_unreachable, log_errors, prepared, proto_edges, proto_errors, proto_initial, proto_labels, proto_nodes, role_edge_step, role_node_step, state_index, states_seen, unreachable_errors, with_new, ErrorView, LabelKey, RoleLabels};
use crate::ordmap::{map_add, set_at};
use crate::seqs::{fold, fold_upto};
use crate::topology::{dfs_order, edge_ids_at, edges_from, lemma_edge_ids_at};
use crate::types::SwarmLabel;
use vstd::prelude::*;

verus! {

/// Whether an index of labels by role holds a label under its role.
pub open spec fn holds(m: RoleLabels, l: LabelKey) -> bool {
    set_at(m, l.2).contains(l)
}

/// Whether an index of labels by role is finite and holds under each role
/// only labels of the role, each one of the given labels.
pub open spec fn index_ok(m: RoleLabels, labels: Seq<LabelKey>) -> bool {
    &&& m.dom().finite()
    &&& forall|r: Seq<char>| (#[trigger] set_at(m, r)).finite()
    &&& forall|r: Seq<char>, l: LabelKey| #[trigger] set_at(m, r).contains(l) ==> l.2 == r && labels.contains(l)
}

/// Each edge that leaves a node is listed among the edges at the node.
pub proof fn lemma_ids_hold(edges: Seq<(usize, usize)>, node: usize, upto: int, e: int)
    requires
        0 <= e < upto <= edges.len(),
        edges.len() <= usize::MAX,
        edges[e].0 == node,
    ensures
        edge_ids_at(edges, node, true, upto).contains(e as usize),
    decreases upto,
{
    let all = edge_ids_at(edges, node, true, upto);
    let rest = edge_ids_at(edges, node, true, upto - 1);
    if e == upto - 1 {
        assert(all == seq![e as usize] + rest);
        assert(all[0] == e as usize);
    } else {
        lemma_ids_hold(edges, node, upto - 1, e);
        let i = choose|i: int| 0 <= i < rest.len() && rest[i] == e as usize;
        if edges[upto - 1].0 == node {
            assert(all == seq![(upto - 1) as usize] + rest);
            assert(all[i + 1] == e as usize);
        } else {
            assert(all[i] == e as usize);
        }
    }
}

/// The labels of the first edges of a list are taken into an index: it
/// holds them, and what it held.
proof fn lemma_index_edges(ids: Seq<usize>, labels: Seq<LabelKey>, m: RoleLabels, upto: int)
    requires
        0 <= upto <= ids.len(),
        forall|q: int| 0 <= q < ids.len() ==> #[trigger] ids[q] < labels.len(),
        index_ok(m, labels),
    ensures
        index_ok(fold_upto(ids, m, role_edge_step(labels), upto), labels),
        forall|l: LabelKey| #[trigger] holds(m, l) ==> holds(fold_upto(ids, m, role_edge_step(labels), upto), l),
        forall|q: int| 0 <= q < upto ==> holds(fold_upto(ids, m, role_edge_step(labels), upto), labels[(#[trigger] ids[q]) as int]),
    decreases upto,
{
    if upto > 0 {
        lemma_index_edges(ids, labels, m, upto - 1);
        let before = fold_upto(ids, m, role_edge_step(labels), upto - 1);
        let after = fold_upto(ids, m, role_edge_step(labels), upto);
        let l = labels[ids[upto - 1] as int];
        let one = Set::<LabelKey>::empty().insert(l);
        assert(after == map_add(before, l.2, one));
        assert(after.dom() =~= before.dom().insert(l.2));
        assert forall|r: Seq<char>| #[trigger] set_at(after, r) == if r == l.2 {
            set_at(before, r).union(one)
        } else {
            set_at(before, r)
        } by {
        }
        assert forall|r: Seq<char>| (#[trigger] set_at(after, r)).finite() by {
            assert(set_at(before, r).finite());
            if r == l.2 {
                assert(set_at(before, r).union(one) =~= set_at(before, r).insert(l));
            }
        }
        assert forall|r: Seq<char>, x: LabelKey| #[trigger] set_at(after, r).contains(x) implies x.2 == r && labels.contains(x) by {
            if set_at(before, r).contains(x) {
            } else {
                assert(x == l);
            }
        }
        assert forall|x: LabelKey| #[trigger] holds(m, x) implies holds(after, x) by {
            assert(holds(before, x));
        }
        assert forall|q: int| 0 <= q < upto implies holds(after, labels[(#[trigger] ids[q]) as int]) by {
            if q < upto - 1 {
                assert(holds(before, labels[ids[q] as int]));
            }
        }
    }
}

/// The labels of the edges that leave the first nodes of a walk are taken
/// into an index: it holds each of them under its role, and nothing else.
proof fn lemma_index_nodes(walk: Seq<usize>, edges: Seq<(usize, usize)>, labels: Seq<LabelKey>, upto: int)
    requires
        edges.len() == labels.len(),
        edges.len() <= usize::MAX,
        0 <= upto <= walk.len(),
    ensures
        index_ok(fold_upto(walk, Map::<Seq<char>, Set<LabelKey>>::empty(), role_node_step(edges, labels), upto), labels),
        forall|w: int, e: int|
            0 <= w < upto && 0 <= e < edges.len() && (#[trigger] edges[e]).0 == #[trigger] walk[w] ==> holds(fold_upto(walk, Map::<Seq<char>, Set<LabelKey>>::empty(), role_node_step(edges, labels), upto), labels[e]),
    decreases upto,
{
    let none = Map::<Seq<char>, Set<LabelKey>>::empty();
    if upto > 0 {
        lemma_index_nodes(walk, edges, labels, upto - 1);
        let before = fold_upto(walk, none, role_node_step(edges, labels), upto - 1);
        let after = fold_upto(walk, none, role_node_step(edges, labels), upto);
        let node = walk[upto - 1];
        let ids = edges_from(edges, node);
        lemma_edge_ids_at(edges, node, true, edges.len() as int);
        lemma_index_edges(ids, labels, before, ids.len() as int);
        assert(after == fold(ids, before, role_edge_step(labels)));
        assert forall|w: int, e: int| 0 <= w < upto && 0 <= e < edges.len() && (#[trigger] edges[e]).0 == #[trigger] walk[w] implies holds(after, labels[e]) by {
            if w < upto - 1 {
                assert(holds(before, labels[e]));
            } else {
                lemma_ids_hold(edges, node, edges.len() as int, e);
                let q = choose|q: int| 0 <= q < ids.len() && ids[q] == e as usize;
                assert(holds(after, labels[ids[q] as int]));
            }
        }
    } else {
        assert forall|r: Seq<char>| (#[trigger] set_at(none, r)).finite() by {
        }
    }
}

/// The states of the first transitions are among the states seen.
proof fn lemma_states_hold(ts: Seq<(LabelKey, Seq<char>, Seq<char>)>, upto: int, i: int)
    requires
        0 <= i < upto <= ts.len(),
    ensures
        states_seen::<SwarmLabel>(ts, upto).contains(ts[i].1),
        states_seen::<SwarmLabel>(ts, upto).contains(ts[i].2),
    decreases upto,
{
    let before = states_seen::<SwarmLabel>(ts, upto - 1);
    let mid = with_new(before, ts[upto - 1].1);
    let all = with_new(mid, ts[upto - 1].2);
    assert(states_seen::<SwarmLabel>(ts, upto) == all);
    assert forall|x: Seq<char>| before.contains(x) implies all.contains(x) by {
        let k = choose|k: int| 0 <= k < before.len() && before[k] == x;
        assert(mid[k] == x);
        assert(all[k] == x);
    }
    if i < upto - 1 {
        lemma_states_hold(ts, upto - 1, i);
    } else {
        if !before.contains(ts[i].1) {
            assert(mid[mid.len() - 1] == ts[i].1);
        }
        assert(mid.contains(ts[i].1));
        let k = choose|k: int| 0 <= k < mid.len() && mid[k] == ts[i].1;
        assert(all[k] == ts[i].1);
        if !mid.contains(ts[i].2) {
            assert(all[all.len() - 1] == ts[i].2);
        }
    }
}

/// Whether a protocol can be counted by the machine: its transitions, and
/// its states.
pub open spec fn countable(proto: (Seq<char>, Seq<(LabelKey, Seq<char>, Seq<char>)>)) -> bool {
    proto.1.len() <= usize::MAX && proto_nodes(proto).len() <= usize::MAX
}

/// The index of labels by role of a protocol without findings on its shape
/// holds each label of the protocol under its role, and nothing else.
pub proof fn lemma_prepared_index(proto: (Seq<char>, Seq<(LabelKey, Seq<char>, Seq<char>)>))
    requires
        countable(proto),
        proto_errors(proto).len() == 0,
    ensures
        index_ok(prepared(proto).role_event_map, proto_labels(proto)),
        forall|e: int| 0 <= e < proto_labels(proto).len() ==> holds(prepared(proto).role_event_map, #[trigger] proto_labels(proto)[e]),
        forall|e: int| 0 <= e < proto_labels(proto).len() ==> (#[trigger] proto_labels(proto)[e]).1.len() == 1,
{
    let nodes = proto_nodes(proto);
    let edges = proto_edges(proto);
    let labels = proto_labels(proto);
    let n = nodes.len() as int;
    assert(log_errors(proto.1, proto.1.len() as int).len() == 0);
    lemma_no_log_errors(proto.1, proto.1.len() as int);
    assert(proto_initial(proto) is Some);
    let initial = proto_initial(proto)->0;
    let walk = dfs_order(nodes.len(), edges, initial);
    assert(unreachable_errors(walk, n).len() == 0);
    lemma_index_nodes(walk, edges, labels, walk.len() as int);
    let rem = prepared(proto).role_event_map;
    assert(rem == fold(walk, Map::<Seq<char>, Set<LabelKey>>::empty(), role_node_step(edges, labels)));
    assert forall|e: int| 0 <= e < labels.len() implies holds(rem, #[trigger] labels[e]) by {
        lemma_states_hold(proto.1, proto.1.len() as int, e);
        let k = state_index(nodes, proto.1[e].1);
        assert(0 <= k < n && nodes[k] == proto.1[e].1);
        assert(edges[e].0 == k as usize);
        lemma_unreachable(walk, n, k as usize);
        assert(!unreachable_errors(walk, n).contains(ErrorView::SwarmError(crate::swarm::ErrorView::StateUnreachable(k as usize))));
        assert(walk.contains(k as usize));
        let w = choose|w: int| 0 <= w < walk.len() && walk[w] == k as usize;
        assert(edges[e].0 == walk[w]);
    }
    assert forall|e: int| 0 <= e < labels.len() implies (#[trigger] labels[e]).1.len() == 1 by {
        assert(proto.1[e].0.1.len() == 1);
    }
}

} // verus!
