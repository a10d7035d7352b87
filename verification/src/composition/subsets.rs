//! The subset construction on a machine whose transitions are funnelled:
//! each state of the result stands for one state, and the result is
//! funnelled too.
use crate::composition::composition_machine::{determinized, moves_edge_step, moves_from, moves_node_step, subset_edge_step, subset_run, Subsets};
use crate::composition::composition_swarm::pos_of;
use crate::composition::keys::funnelled;
use crate::ordmap::{map_add, set_at};
use crate::ordset::{increasing, lemma_sorted, lemma_sorted_of, sorted};
use crate::seqs::{fold, fold_upto};
use crate::topology::{edges_from, lemma_edge_ids_at};
use crate::types::{MachineLabel, MachineLabelView};
use vstd::prelude::*;

verus! {

/// Whether one of the first edges that leave a state has a label.
pub open spec fn leaves_by(edges: Seq<(usize, usize)>, labels: Seq<MachineLabelView>, u: usize, upto: int, l: MachineLabelView) -> bool {
    exists|i: int| 0 <= i < upto && #[trigger] labels[edges_from(edges, u)[i] as int] == l
}

/// Whether one of the first edges that leave a state has a label and
/// leads to a state.
pub open spec fn leads_by(edges: Seq<(usize, usize)>, labels: Seq<MachineLabelView>, u: usize, upto: int, l: MachineLabelView, x: usize) -> bool {
    exists|i: int| 0 <= i < upto && #[trigger] labels[edges_from(edges, u)[i] as int] == l && edges[edges_from(edges, u)[i] as int].1 == x
}

/// The moves of the first edges that leave a state: for each of their
/// labels the targets of those with the label.
proof fn lemma_moves_upto(edges: Seq<(usize, usize)>, labels: Seq<MachineLabelView>, u: usize, upto: int)
    requires
        0 <= upto <= edges_from(edges, u).len(),
    ensures
        ({
            let m = fold_upto(edges_from(edges, u), Map::<MachineLabelView, Set<usize>>::empty(), moves_edge_step(edges, labels), upto);
            &&& m.dom().finite()
            &&& forall|l: MachineLabelView| #[trigger] m.dom().contains(l) <==> leaves_by(edges, labels, u, upto, l)
            &&& forall|l: MachineLabelView, x: usize| m.dom().contains(l) ==> (#[trigger] m[l].contains(x) <==> leads_by(edges, labels, u, upto, l, x))
        }),
    decreases upto,
{
    let ids = edges_from(edges, u);
    let m = fold_upto(ids, Map::<MachineLabelView, Set<usize>>::empty(), moves_edge_step(edges, labels), upto);
    if upto > 0 {
        lemma_moves_upto(edges, labels, u, upto - 1);
        let before = fold_upto(ids, Map::<MachineLabelView, Set<usize>>::empty(), moves_edge_step(edges, labels), upto - 1);
        let e = ids[upto - 1];
        let le = labels[e as int];
        let te = edges[e as int].1;
        assert(m == map_add(before, le, Set::<usize>::empty().insert(te)));
        assert forall|l: MachineLabelView| #[trigger] m.dom().contains(l) <==> leaves_by(edges, labels, u, upto, l) by {
            if before.dom().contains(l) {
                let i = choose|i: int| 0 <= i < upto - 1 && #[trigger] labels[ids[i] as int] == l;
                assert(0 <= i < upto && labels[ids[i] as int] == l);
            }
            if l == le {
                assert(0 <= upto - 1 < upto && labels[ids[upto - 1] as int] == l);
            }
            if leaves_by(edges, labels, u, upto, l) {
                let i = choose|i: int| 0 <= i < upto && #[trigger] labels[ids[i] as int] == l;
                if i < upto - 1 {
                    assert(leaves_by(edges, labels, u, upto - 1, l));
                }
            }
        }
        assert forall|l: MachineLabelView, x: usize| m.dom().contains(l) implies (#[trigger] m[l].contains(x) <==> leads_by(edges, labels, u, upto, l, x)) by {
            if before.dom().contains(l) && before[l].contains(x) {
                let i = choose|i: int| 0 <= i < upto - 1 && #[trigger] labels[ids[i] as int] == l && edges[ids[i] as int].1 == x;
                assert(0 <= i < upto && labels[ids[i] as int] == l && edges[ids[i] as int].1 == x);
            }
            if l == le && x == te {
                assert(0 <= upto - 1 < upto && labels[ids[upto - 1] as int] == l && edges[ids[upto - 1] as int].1 == x);
            }
            if leads_by(edges, labels, u, upto, l, x) {
                let i = choose|i: int| 0 <= i < upto && #[trigger] labels[ids[i] as int] == l && edges[ids[i] as int].1 == x;
                if i < upto - 1 {
                    assert(leads_by(edges, labels, u, upto - 1, l, x));
                    assert(leaves_by(edges, labels, u, upto - 1, l));
                }
            }
            if l == le {
                assert(m[l] == set_at(before, l).insert(te)) by {
                    assert(m[l] =~= set_at(before, l).union(Set::<usize>::empty().insert(te)));
                    assert(set_at(before, l).union(Set::<usize>::empty().insert(te)) =~= set_at(before, l).insert(te));
                }
            } else {
                assert(m[l] == before[l]);
            }
        }
    }
}

/// Where a state of a funnelled machine has a move by a label, the move
/// leads to one state: to itself by an `Execute` label, and by an `Input`
/// label to the state to which every transition with the label leads.
pub proof fn lemma_moves_single(edges: Seq<(usize, usize)>, labels: Seq<MachineLabelView>, u: usize, l: MachineLabelView)
    requires
        edges.len() == labels.len(),
        edges.len() <= usize::MAX,
        funnelled(edges, labels),
        moves_from(edges, labels, seq![u]).dom().contains(l),
    ensures
        moves_from(edges, labels, seq![u]).dom().finite(),
        exists|e: int| 0 <= e < edges.len() && #[trigger] labels[e] == l && edges[e].0 == u && moves_from(edges, labels, seq![u])[l] == Set::<usize>::empty().insert(edges[e].1),
{
    let ids = edges_from(edges, u);
    lemma_edge_ids_at(edges, u, true, edges.len() as int);
    lemma_moves_upto(edges, labels, u, ids.len() as int);
    let m = moves_from(edges, labels, seq![u]);
    assert(m == fold(ids, Map::<MachineLabelView, Set<usize>>::empty(), moves_edge_step(edges, labels))) by {
        let one = seq![u];
        assert(fold_upto(one, Map::<MachineLabelView, Set<usize>>::empty(), moves_node_step(edges, labels), 1) == moves_node_step(edges, labels)(fold_upto(one, Map::<MachineLabelView, Set<usize>>::empty(), moves_node_step(edges, labels), 0), one[0]));
    }
    assert(leaves_by(edges, labels, u, ids.len() as int, l));
    let i = choose|i: int| 0 <= i < ids.len() && #[trigger] labels[ids[i] as int] == l;
    let e = ids[i] as int;
    assert(edges[e].0 == u);
    assert(m[l] =~= Set::<usize>::empty().insert(edges[e].1)) by {
        assert forall|x: usize| m[l].contains(x) implies x == edges[e].1 by {
            let j = choose|j: int| 0 <= j < ids.len() && #[trigger] labels[ids[j] as int] == l && edges[ids[j] as int].1 == x;
            let f = ids[j] as int;
            assert(edges[f].0 == u);
            match l {
                MachineLabelView::Input { .. } => {
                    assert(labels[e] == labels[f]);
                },
                MachineLabelView::Execute { .. } => {
                    assert(labels[e] is Execute && labels[f] is Execute);
                },
            }
        }
        assert(leads_by(edges, labels, u, ids.len() as int, l, edges[e].1));
    }
    assert(labels[e] == l && edges[e].0 == u && m[l] == Set::<usize>::empty().insert(edges[e].1));
}

/// Whether a transition of the new machine stands for a transition of the
/// given one: with its label, leading to the state that stands for its
/// target, and by an `Execute` label back to where it leaves.
pub open spec fn stands(edges: Seq<(usize, usize)>, labels: Seq<MachineLabelView>, st: Subsets, k: int) -> bool {
    exists|e: int| 0 <= e < edges.len() && #[trigger] labels[e] == st.labels[k] && st.origin[st.edges[k].1 as int] == seq![edges[e].1] && (st.labels[k] is Execute ==> st.edges[k].0 == st.edges[k].1)
}

/// What holds of the subset construction on a funnelled machine while it
/// runs: no set is a state twice, each state stands for one state, each
/// set that waits is a state, and each transition stands for a transition
/// of the given machine.
pub open spec fn single(n: nat, edges: Seq<(usize, usize)>, labels: Seq<MachineLabelView>, st: Subsets) -> bool {
    &&& st.edges.len() == st.labels.len()
    &&& st.origin.no_duplicates()
    &&& forall|x: int| 0 <= x < st.origin.len() ==> (#[trigger] st.origin[x]).len() == 1 && st.origin[x][0] < n
    &&& forall|w: int| 0 <= w < st.stack.len() ==> st.origin.contains(#[trigger] st.stack[w])
    &&& forall|k: int| 0 <= k < st.edges.len() ==> (#[trigger] st.edges[k]).1 < st.origin.len() && stands(edges, labels, st, k)
}


/// Sets of one state each, none twice, are no more than there are states.
proof fn lemma_bounded(origin: Seq<Seq<usize>>, n: nat)
    requires
        origin.no_duplicates(),
        forall|x: int| 0 <= x < origin.len() ==> (#[trigger] origin[x]).len() == 1 && origin[x][0] < n,
    ensures
        origin.len() <= n,
{
    let first = |s: Seq<usize>| s[0];
    let all = origin.to_set();
    origin.unique_seq_to_set();
    assert(vstd::relations::injective_on(first, all)) by {
        assert forall|a: Seq<usize>, b: Seq<usize>| all.contains(a) && all.contains(b) && #[trigger] first(a) == #[trigger] first(b) implies a == b by {
            let i = choose|i: int| 0 <= i < origin.len() && origin[i] == a;
            let j = choose|j: int| 0 <= j < origin.len() && origin[j] == b;
            assert(a.len() == 1 && b.len() == 1);
            assert(a =~= b);
        }
    }
    let image = all.map(first);
    vstd::set_lib::lemma_map_size(all, image, first);
    let ids = vstd::set_lib::set_int_range(0, n as int);
    vstd::set_lib::lemma_int_range(0, n as int);
    let up = |x: usize| x as int;
    assert(vstd::relations::injective_on(up, image));
    let lifted = image.map(up);
    vstd::set_lib::lemma_map_size(image, lifted, up);
    assert(lifted.subset_of(ids)) by {
        assert forall|i: int| lifted.contains(i) implies ids.contains(i) by {
            let x = choose|x: usize| image.contains(x) && up(x) == i;
            let a = choose|a: Seq<usize>| all.contains(a) && first(a) == x;
            let k = choose|k: int| 0 <= k < origin.len() && origin[k] == a;
            assert(origin[k][0] < n);
        }
    }
    vstd::set_lib::lemma_len_subset(lifted, ids);
}

/// A label that leaves the set under visit is taken in.
proof fn lemma_single_edge(n: nat, edges: Seq<(usize, usize)>, labels: Seq<MachineLabelView>, st: Subsets, set: Seq<usize>, l: MachineLabelView)
    requires
        n <= usize::MAX,
        edges.len() == labels.len(),
        edges.len() <= usize::MAX,
        forall|e: int| 0 <= e < edges.len() ==> (#[trigger] edges[e]).1 < n,
        funnelled(edges, labels),
        single(n, edges, labels, st),
        st.origin.contains(set),
        moves_from(edges, labels, set).dom().contains(l),
    ensures
        single(n, edges, labels, subset_edge_step(moves_from(edges, labels, set), pos_of(st.origin, set) as usize)(st, l)),
        st.origin.len() <= subset_edge_step(moves_from(edges, labels, set), pos_of(st.origin, set) as usize)(st, l).origin.len(),
        forall|i: int| 0 <= i < st.origin.len() ==> subset_edge_step(moves_from(edges, labels, set), pos_of(st.origin, set) as usize)(st, l).origin[i] == #[trigger] st.origin[i],
{
    let moves = moves_from(edges, labels, set);
    let src = pos_of(st.origin, set);
    assert(0 <= src < st.origin.len() && st.origin[src] == set);
    assert(set.len() == 1);
    let u = set[0];
    assert(set =~= seq![u]);
    lemma_moves_single(edges, labels, u, l);
    let e = choose|e: int| 0 <= e < edges.len() && #[trigger] labels[e] == l && edges[e].0 == u && moves[l] == Set::<usize>::empty().insert(edges[e].1);
    let v = edges[e].1;
    let one = seq![v];
    assert(increasing::<usize>(one));
    assert(one.to_set() =~= Set::<usize>::empty().insert(v)) by {
        assert(one[0] == v);
        assert(one.contains(v));
    }
    lemma_sorted::<usize>(one);
    let target = sorted::<usize>(moves[l]);
    assert(target == one);
    lemma_bounded(st.origin, n);
    let r = subset_edge_step(moves, src as usize)(st, l);
    let last = st.edges.len() as int;
    if l is Execute {
        assert(labels[e] is Execute);
        assert(v == u);
        assert(target == set);
    }
    if st.origin.contains(target) {
        let idx = pos_of(st.origin, target);
        assert(0 <= idx < st.origin.len() && st.origin[idx] == target);
        assert(r.edges[last] == (src as usize, idx as usize));
        assert forall|k: int| 0 <= k < r.edges.len() implies (#[trigger] r.edges[k]).1 < r.origin.len() && stands(edges, labels, r, k) by {
            if k < last {
                assert(r.edges[k] == st.edges[k] && r.labels[k] == st.labels[k]);
                assert(stands(edges, labels, st, k));
                let e0 = choose|e0: int| 0 <= e0 < edges.len() && #[trigger] labels[e0] == st.labels[k] && st.origin[st.edges[k].1 as int] == seq![edges[e0].1] && (st.labels[k] is Execute ==> st.edges[k].0 == st.edges[k].1);
                assert(labels[e0] == r.labels[k] && r.origin[r.edges[k].1 as int] == seq![edges[e0].1]);
            } else {
                if l is Execute {
                    assert(idx == src);
                }
                assert(labels[e] == r.labels[k] && r.origin[r.edges[k].1 as int] == seq![edges[e].1]);
            }
        }
    } else {
        let m = st.origin.len() as int;
        assert(r.origin == st.origin.push(target));
        assert(!(l is Execute));
        assert forall|a: int, b: int| 0 <= a < r.origin.len() && 0 <= b < r.origin.len() && a != b implies r.origin[a] != r.origin[b] by {
            if a < m && b < m {
                assert(st.origin[a] != st.origin[b]);
            } else if a < m {
                assert(st.origin.contains(st.origin[a]));
            } else {
                assert(st.origin.contains(st.origin[b]));
            }
        }
        assert forall|x: int| 0 <= x < r.origin.len() implies (#[trigger] r.origin[x]).len() == 1 && r.origin[x][0] < n by {
            if x < m {
                assert(r.origin[x] == st.origin[x]);
            }
        }
        lemma_bounded(r.origin, n);
        assert(r.edges[last] == (src as usize, m as usize));
        assert forall|w: int| 0 <= w < r.stack.len() implies r.origin.contains(#[trigger] r.stack[w]) by {
            if w < st.stack.len() {
                assert(r.stack[w] == st.stack[w]);
                let i = choose|i: int| 0 <= i < st.origin.len() && st.origin[i] == st.stack[w];
                assert(r.origin[i] == st.stack[w]);
            } else {
                assert(r.origin[m] == target);
            }
        }
        assert forall|k: int| 0 <= k < r.edges.len() implies (#[trigger] r.edges[k]).1 < r.origin.len() && stands(edges, labels, r, k) by {
            if k < last {
                assert(r.edges[k] == st.edges[k] && r.labels[k] == st.labels[k]);
                assert(stands(edges, labels, st, k));
                let e0 = choose|e0: int| 0 <= e0 < edges.len() && #[trigger] labels[e0] == st.labels[k] && st.origin[st.edges[k].1 as int] == seq![edges[e0].1] && (st.labels[k] is Execute ==> st.edges[k].0 == st.edges[k].1);
                assert(r.origin[st.edges[k].1 as int] == st.origin[st.edges[k].1 as int]);
                assert(labels[e0] == r.labels[k] && r.origin[r.edges[k].1 as int] == seq![edges[e0].1]);
            } else {
                assert(r.origin[m] == target);
                assert(labels[e] == r.labels[k] && r.origin[r.edges[k].1 as int] == seq![edges[e].1]);
            }
        }
    }
}

/// The first labels that leave the set under visit are taken in.
proof fn lemma_single_edges(n: nat, edges: Seq<(usize, usize)>, labels: Seq<MachineLabelView>, st: Subsets, set: Seq<usize>, list: Seq<MachineLabelView>, upto: int)
    requires
        n <= usize::MAX,
        edges.len() == labels.len(),
        edges.len() <= usize::MAX,
        forall|e: int| 0 <= e < edges.len() ==> (#[trigger] edges[e]).1 < n,
        funnelled(edges, labels),
        single(n, edges, labels, st),
        st.origin.contains(set),
        forall|i: int| 0 <= i < list.len() ==> moves_from(edges, labels, set).dom().contains(#[trigger] list[i]),
        0 <= upto <= list.len(),
    ensures
        single(n, edges, labels, fold_upto(list, st, subset_edge_step(moves_from(edges, labels, set), pos_of(st.origin, set) as usize), upto)),
        st.origin.len() <= fold_upto(list, st, subset_edge_step(moves_from(edges, labels, set), pos_of(st.origin, set) as usize), upto).origin.len(),
        forall|i: int| 0 <= i < st.origin.len() ==> fold_upto(list, st, subset_edge_step(moves_from(edges, labels, set), pos_of(st.origin, set) as usize), upto).origin[i] == #[trigger] st.origin[i],
    decreases upto,
{
    if upto > 0 {
        lemma_single_edges(n, edges, labels, st, set, list, upto - 1);
        let before = fold_upto(list, st, subset_edge_step(moves_from(edges, labels, set), pos_of(st.origin, set) as usize), upto - 1);
        let at_first = pos_of(st.origin, set);
        assert(0 <= at_first < st.origin.len() && st.origin[at_first] == set);
        assert(before.origin[at_first] == st.origin[at_first]);
        assert(before.origin.contains(set));
        let at_now = pos_of(before.origin, set);
        assert(0 <= at_now < before.origin.len() && before.origin[at_now] == set);
        assert(at_first == at_now);
        lemma_single_edge(n, edges, labels, before, set, list[upto - 1]);
        let after = fold_upto(list, st, subset_edge_step(moves_from(edges, labels, set), pos_of(st.origin, set) as usize), upto);
        assert forall|i: int| 0 <= i < st.origin.len() implies after.origin[i] == #[trigger] st.origin[i] by {
            assert(before.origin[i] == st.origin[i]);
        }
    }
}

/// The subset construction on a funnelled machine, after some visits.
proof fn lemma_single_run(n: nat, edges: Seq<(usize, usize)>, labels: Seq<MachineLabelView>, initial: usize, visits: nat)
    requires
        n <= usize::MAX,
        initial < n,
        edges.len() == labels.len(),
        edges.len() <= usize::MAX,
        forall|e: int| 0 <= e < edges.len() ==> (#[trigger] edges[e]).1 < n,
        funnelled(edges, labels),
    ensures
        single(n, edges, labels, subset_run(edges, labels, initial, visits)),
    decreases visits,
{
    let st = subset_run(edges, labels, initial, visits);
    if visits == 0 {
        assert(st.origin[0] == seq![initial]);
        assert(st.stack[0] == st.origin[0]);
    } else {
        lemma_single_run(n, edges, labels, initial, (visits - 1) as nat);
        let before = subset_run(edges, labels, initial, (visits - 1) as nat);
        if before.stack.len() > 0 {
            let set = before.stack.last();
            assert(before.origin.contains(before.stack[before.stack.len() - 1]));
            let popped = Subsets { origin: before.origin, edges: before.edges, labels: before.labels, stack: before.stack.drop_last() };
            assert forall|w: int| 0 <= w < popped.stack.len() implies popped.origin.contains(#[trigger] popped.stack[w]) by {
                assert(popped.stack[w] == before.stack[w]);
            }
            assert forall|k: int| 0 <= k < popped.edges.len() implies (#[trigger] popped.edges[k]).1 < popped.origin.len() && stands(edges, labels, popped, k) by {
                assert(popped.edges[k] == before.edges[k]);
                assert(before.edges[k].1 < before.origin.len() && stands(edges, labels, before, k));
            }
            let moves = moves_from(edges, labels, set);
            let u = set[0];
            let i = choose|i: int| 0 <= i < before.origin.len() && before.origin[i] == set;
            assert(set.len() == 1);
            assert(set =~= seq![u]);
            lemma_moves_finite(edges, labels, u);
            lemma_sorted_of::<MachineLabel>(moves.dom());
            let list = sorted::<MachineLabel>(moves.dom());
            assert forall|i: int| 0 <= i < list.len() implies moves.dom().contains(#[trigger] list[i]) by {
                assert(list.to_set().contains(list[i]));
            }
            lemma_single_edges(n, edges, labels, popped, set, list, list.len() as int);
        }
    }
}

/// The moves of a state are by finitely many labels.
proof fn lemma_moves_finite(edges: Seq<(usize, usize)>, labels: Seq<MachineLabelView>, u: usize)
    ensures
        moves_from(edges, labels, seq![u]).dom().finite(),
{
    let ids = edges_from(edges, u);
    lemma_moves_upto(edges, labels, u, ids.len() as int);
    let one = seq![u];
    assert(fold_upto(one, Map::<MachineLabelView, Set<usize>>::empty(), moves_node_step(edges, labels), 1) == moves_node_step(edges, labels)(fold_upto(one, Map::<MachineLabelView, Set<usize>>::empty(), moves_node_step(edges, labels), 0), one[0]));
}

/// The subset construction on a funnelled machine makes a funnelled
/// machine.
pub proof fn lemma_determinized_funnelled(n: nat, edges: Seq<(usize, usize)>, labels: Seq<MachineLabelView>, initial: usize)
    requires
        n <= usize::MAX,
        initial < n,
        edges.len() == labels.len(),
        edges.len() <= usize::MAX,
        forall|e: int| 0 <= e < edges.len() ==> (#[trigger] edges[e]).1 < n,
        funnelled(edges, labels),
    ensures
        funnelled(determinized(edges, labels, initial).edges, determinized(edges, labels, initial).labels),
{
    let v = choose|v: nat| subset_run(edges, labels, initial, v).stack.len() == 0;
    lemma_single_run(n, edges, labels, initial, v);
    let st = determinized(edges, labels, initial);
    assert forall|a: int, b: int| 0 <= a < st.edges.len() && 0 <= b < st.edges.len() && #[trigger] st.labels[a] == #[trigger] st.labels[b] && st.labels[a] is Input implies st.edges[a].1 == st.edges[b].1 by {
        assert(st.edges[a].1 < st.origin.len() && stands(edges, labels, st, a));
        assert(st.edges[b].1 < st.origin.len() && stands(edges, labels, st, b));
        let ea = choose|e: int| 0 <= e < edges.len() && #[trigger] labels[e] == st.labels[a] && st.origin[st.edges[a].1 as int] == seq![edges[e].1] && (st.labels[a] is Execute ==> st.edges[a].0 == st.edges[a].1);
        let eb = choose|e: int| 0 <= e < edges.len() && #[trigger] labels[e] == st.labels[b] && st.origin[st.edges[b].1 as int] == seq![edges[e].1] && (st.labels[b] is Execute ==> st.edges[b].0 == st.edges[b].1);
        assert(labels[ea] == labels[eb]);
        assert(edges[ea].1 == edges[eb].1);
        assert(st.origin[st.edges[a].1 as int] == st.origin[st.edges[b].1 as int]);
        assert(st.edges[a].1 < st.origin.len() && st.edges[b].1 < st.origin.len());
    }
    assert forall|a: int| 0 <= a < st.edges.len() && (#[trigger] st.labels[a]) is Execute implies st.edges[a].0 == st.edges[a].1 by {
        assert(st.edges[a].1 < st.origin.len() && stands(edges, labels, st, a));
    }
}

} // verus!
