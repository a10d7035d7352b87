//! Machines that behave alike: when holding one against the other finds
//! nothing.
use crate::composition::composition_machine::{det_key, deterministic, in_key_order, keyed, keyed_step, lemma_ids_decreasing, DeterministicKey, DeterministicLabel, MachineView};
use crate::machine::{Error, Side};
use crate::ordset::{lemma_sorted_of, sorted};
use crate::seqs::fold_upto;
use crate::topology::{edges_from, lemma_edge_ids_at};
use crate::types::MachineLabelView;
use vstd::prelude::*;

verus! {

/// Whether a transition leaves a state of a machine with a label for a
/// state.
pub open spec fn steps(m: MachineView, a: usize, l: MachineLabelView, b: usize) -> bool {
    exists|e: int| 0 <= e < m.edges.len() && #[trigger] m.edges[e] == (a, b) && m.labels[e] == l
}

/// Whether a relation between the states of two deterministic machines
/// holds of their initial states and, of two states of which it holds, each
/// has for every transition of the other a transition with the same label,
/// to a state of which it holds with the other's target.
pub open spec fn alike(rel: spec_fn(usize, usize) -> bool, l: MachineView, r: MachineView) -> bool {
    &&& rel(l.initial, r.initial)
    &&& deterministic(l.edges, l.labels)
    &&& deterministic(r.edges, r.labels)
    &&& forall|a: usize, b: usize, e: int| #[trigger] rel(a, b) && 0 <= e < l.edges.len() && (#[trigger] l.edges[e]).0 == a ==> exists|y: usize| #[trigger] steps(r, b, l.labels[e], y) && rel(l.edges[e].1, y)
    &&& forall|a: usize, b: usize, f: int| #[trigger] rel(a, b) && 0 <= f < r.edges.len() && (#[trigger] r.edges[f]).0 == b ==> exists|x: usize| #[trigger] steps(l, a, r.labels[f], x) && rel(x, r.edges[f].1)
}

/// The transitions that leave a state of a deterministic machine, taken in
/// one after the other: each stands for its key, and there is no finding.
pub proof fn lemma_keyed(edges: Seq<(usize, usize)>, labels: Seq<MachineLabelView>, node: usize, side: Side, upto: int)
    requires
        edges.len() == labels.len(),
        edges.len() <= usize::MAX,
        deterministic(edges, labels),
        0 <= upto <= edges_from(edges, node).len(),
    ensures
        ({
            let st = fold_upto(edges_from(edges, node), (Map::<DeterministicKey, usize>::empty(), Seq::<Error>::empty()), keyed_step(labels, side), upto);
            &&& st.1.len() == 0
            &&& st.0.dom().finite()
            &&& forall|k: int| 0 <= k < upto ==> st.0.dom().contains(det_key(labels[(#[trigger] edges_from(edges, node)[k]) as int])) && st.0[det_key(labels[edges_from(edges, node)[k] as int])] == edges_from(edges, node)[k]
            &&& forall|key: DeterministicKey| #[trigger] st.0.dom().contains(key) ==> exists|k: int| 0 <= k < upto && #[trigger] edges_from(edges, node)[k] == st.0[key] && det_key(labels[st.0[key] as int]) == key
        }),
    decreases upto,
{
    let ids = edges_from(edges, node);
    lemma_edge_ids_at(edges, node, true, edges.len() as int);
    if upto > 0 {
        lemma_keyed(edges, labels, node, side, upto - 1);
        let before = fold_upto(ids, (Map::<DeterministicKey, usize>::empty(), Seq::<Error>::empty()), keyed_step(labels, side), upto - 1);
        let st = fold_upto(ids, (Map::<DeterministicKey, usize>::empty(), Seq::<Error>::empty()), keyed_step(labels, side), upto);
        let e = ids[upto - 1];
        let key = det_key(labels[e as int]);
        if before.0.dom().contains(key) {
            let k = choose|k: int| 0 <= k < upto - 1 && #[trigger] ids[k] == before.0[key] && det_key(labels[before.0[key] as int]) == key;
            lemma_ids_decreasing(edges, node, true, edges.len() as int, k, upto - 1);
            assert(edges[ids[k] as int].0 == edges[e as int].0);
            assert(false);
        }
        assert(st.0 == before.0.insert(key, e));
        assert forall|k: int| 0 <= k < upto implies st.0.dom().contains(det_key(labels[(#[trigger] ids[k]) as int])) && st.0[det_key(labels[ids[k] as int])] == ids[k] by {
            if k < upto - 1 {
                assert(before.0.dom().contains(det_key(labels[ids[k] as int])));
            }
        }
        assert forall|other: DeterministicKey| #[trigger] st.0.dom().contains(other) implies exists|k: int| 0 <= k < upto && #[trigger] ids[k] == st.0[other] && det_key(labels[st.0[other] as int]) == other by {
            if other == key {
                assert(ids[upto - 1] == st.0[other]);
            } else {
                assert(before.0.dom().contains(other));
                let k = choose|k: int| 0 <= k < upto - 1 && #[trigger] ids[k] == before.0[other] && det_key(labels[before.0[other] as int]) == other;
                assert(0 <= k < upto && ids[k] == st.0[other]);
            }
        }
    }
}

/// Whether two lists of transitions of two machines go pairwise by the
/// same label to states of which a relation holds.
pub open spec fn aligned(rel: spec_fn(usize, usize) -> bool, l: MachineView, r: MachineView, ls: Seq<usize>, rs: Seq<usize>) -> bool {
    &&& ls.len() == rs.len()
    &&& forall|i: int| 0 <= i < ls.len() ==> l.labels[(#[trigger] ls[i]) as int] == r.labels[rs[i] as int] && rel(l.edges[ls[i] as int].1, r.edges[rs[i] as int].1)
}

/// Whether a machine is given with a label for each transition, the
/// transitions counted in `usize`.
pub open spec fn counted(m: MachineView) -> bool {
    m.edges.len() == m.labels.len() && m.edges.len() <= usize::MAX
}

/// The keys of the transitions of a state of one machine are keys of the
/// transitions of a state that is alike in the other.
proof fn lemma_keys_within(rel: spec_fn(usize, usize) -> bool, l: MachineView, r: MachineView, a: usize, b: usize, key: DeterministicKey)
    requires
        alike(rel, l, r),
        counted(l),
        counted(r),
        rel(a, b),
        keyed(l.edges, l.labels, a, Side::Left).0.dom().contains(key),
    ensures
        keyed(r.edges, r.labels, b, Side::Right).0.dom().contains(key),
        l.labels[keyed(l.edges, l.labels, a, Side::Left).0[key] as int] == r.labels[keyed(r.edges, r.labels, b, Side::Right).0[key] as int],
        rel(l.edges[keyed(l.edges, l.labels, a, Side::Left).0[key] as int].1, r.edges[keyed(r.edges, r.labels, b, Side::Right).0[key] as int].1),
{
    let lids = edges_from(l.edges, a);
    let rids = edges_from(r.edges, b);
    lemma_keyed(l.edges, l.labels, a, Side::Left, lids.len() as int);
    lemma_keyed(r.edges, r.labels, b, Side::Right, rids.len() as int);
    lemma_edge_ids_at(l.edges, a, true, l.edges.len() as int);
    lemma_edge_ids_at(r.edges, b, true, r.edges.len() as int);
    let ml = keyed(l.edges, l.labels, a, Side::Left).0;
    let mr = keyed(r.edges, r.labels, b, Side::Right).0;
    let k = choose|k: int| 0 <= k < lids.len() && #[trigger] lids[k] == ml[key] && det_key(l.labels[ml[key] as int]) == key;
    let e = lids[k] as int;
    assert(l.edges[e].0 == a);
    let y = choose|y: usize| #[trigger] steps(r, b, l.labels[e], y) && rel(l.edges[e].1, y);
    let f = choose|f: int| 0 <= f < r.edges.len() && #[trigger] r.edges[f] == (b, y) && r.labels[f] == l.labels[e];
    assert(rids.contains(f as usize));
    let j = choose|j: int| 0 <= j < rids.len() && rids[j] == f as usize;
    assert(mr.dom().contains(det_key(r.labels[rids[j] as int])) && mr[det_key(r.labels[rids[j] as int])] == rids[j]);
}

/// The keys of the transitions of a state of the right machine are keys
/// of the transitions of a state that is alike in the left.
proof fn lemma_keys_back(rel: spec_fn(usize, usize) -> bool, l: MachineView, r: MachineView, a: usize, b: usize, key: DeterministicKey)
    requires
        alike(rel, l, r),
        counted(l),
        counted(r),
        rel(a, b),
        keyed(r.edges, r.labels, b, Side::Right).0.dom().contains(key),
    ensures
        keyed(l.edges, l.labels, a, Side::Left).0.dom().contains(key),
{
    let lids = edges_from(l.edges, a);
    let rids = edges_from(r.edges, b);
    lemma_keyed(l.edges, l.labels, a, Side::Left, lids.len() as int);
    lemma_keyed(r.edges, r.labels, b, Side::Right, rids.len() as int);
    lemma_edge_ids_at(l.edges, a, true, l.edges.len() as int);
    lemma_edge_ids_at(r.edges, b, true, r.edges.len() as int);
    let ml = keyed(l.edges, l.labels, a, Side::Left).0;
    let mr = keyed(r.edges, r.labels, b, Side::Right).0;
    let k = choose|k: int| 0 <= k < rids.len() && #[trigger] rids[k] == mr[key] && det_key(r.labels[mr[key] as int]) == key;
    let f = rids[k] as int;
    assert(r.edges[f].0 == b);
    let x = choose|x: usize| #[trigger] steps(l, a, r.labels[f], x) && rel(x, r.edges[f].1);
    let e = choose|e: int| 0 <= e < l.edges.len() && #[trigger] l.edges[e] == (a, x) && l.labels[e] == r.labels[f];
    assert(lids.contains(e as usize));
    let j = choose|j: int| 0 <= j < lids.len() && lids[j] == e as usize;
    assert(ml.dom().contains(det_key(l.labels[lids[j] as int])));
}

/// Two states of which the relation holds have their transitions, in the
/// order of their keys, pairwise with the same label and to states of
/// which the relation holds; and telling them apart finds nothing.
pub proof fn lemma_aligned(rel: spec_fn(usize, usize) -> bool, l: MachineView, r: MachineView, a: usize, b: usize)
    requires
        alike(rel, l, r),
        counted(l),
        counted(r),
        rel(a, b),
    ensures
        keyed(l.edges, l.labels, a, Side::Left).1.len() == 0,
        keyed(r.edges, r.labels, b, Side::Right).1.len() == 0,
        aligned(rel, l, r, in_key_order(keyed(l.edges, l.labels, a, Side::Left).0), in_key_order(keyed(r.edges, r.labels, b, Side::Right).0)),
{
    let lids = edges_from(l.edges, a);
    let rids = edges_from(r.edges, b);
    lemma_keyed(l.edges, l.labels, a, Side::Left, lids.len() as int);
    lemma_keyed(r.edges, r.labels, b, Side::Right, rids.len() as int);
    let ml = keyed(l.edges, l.labels, a, Side::Left).0;
    let mr = keyed(r.edges, r.labels, b, Side::Right).0;
    assert(ml.dom() =~= mr.dom()) by {
        assert forall|key: DeterministicKey| ml.dom().contains(key) implies mr.dom().contains(key) by {
            lemma_keys_within(rel, l, r, a, b, key);
        }
        assert forall|key: DeterministicKey| mr.dom().contains(key) implies ml.dom().contains(key) by {
            lemma_keys_back(rel, l, r, a, b, key);
        }
    }
    lemma_sorted_of::<DeterministicLabel>(ml.dom());
    let keys = sorted::<DeterministicLabel>(ml.dom());
    let ls = in_key_order(ml);
    let rs = in_key_order(mr);
    assert forall|i: int| 0 <= i < ls.len() implies l.labels[(#[trigger] ls[i]) as int] == r.labels[rs[i] as int] && rel(l.edges[ls[i] as int].1, r.edges[rs[i] as int].1) by {
        assert(keys.to_set().contains(keys[i]));
        lemma_keys_within(rel, l, r, a, b, keys[i]);
    }
}

/// The states of a deterministic machine are alike themselves.
pub proof fn lemma_alike_same(m: MachineView)
    requires
        deterministic(m.edges, m.labels),
    ensures
        alike(|a: usize, b: usize| a == b, m, m),
{
    let rel = |a: usize, b: usize| a == b;
    assert forall|a: usize, b: usize, e: int| #[trigger] rel(a, b) && 0 <= e < m.edges.len() && (#[trigger] m.edges[e]).0 == a implies exists|y: usize| #[trigger] steps(m, b, m.labels[e], y) && rel(m.edges[e].1, y) by {
        assert(m.edges[e] == (b, m.edges[e].1));
        assert(steps(m, b, m.labels[e], m.edges[e].1));
    }
    assert forall|a: usize, b: usize, f: int| #[trigger] rel(a, b) && 0 <= f < m.edges.len() && (#[trigger] m.edges[f]).0 == b implies exists|x: usize| #[trigger] steps(m, a, m.labels[f], x) && rel(x, m.edges[f].1) by {
        assert(m.edges[f] == (a, m.edges[f].1));
        assert(steps(m, a, m.labels[f], m.edges[f].1));
    }
}

} // verus!
