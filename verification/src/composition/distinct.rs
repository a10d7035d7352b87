//! A product of two graphs keeps the labels that leave a node apart: where
//! no node of either graph has two edges with the same label, and the two
//! graphs share labels only within the interface, no node of the product
//! has two edges with the same label.
use crate::composition::composition_machine::{out_map, part_step, parts, product_edge_step, product_pop, product_run, Product};
use crate::composition::composition_types::EventLabel;
use crate::composition::products::{labels_at, lemma_edge_shape, lemma_pop_shape, lemma_run_shape, lemma_visit_shape, product_of, shaped, sides_ok, waits, Sides};
use crate::ordset::{increasing_no_duplicates, lemma_sorted_of, sorted};
use crate::seqs::{fold, fold_upto};
use crate::topology::{edge_ids_at, edges_from, lemma_edge_ids_at};
use vstd::prelude::*;

verus! {

/// Whether no node has two edges with the same label.
pub open spec fn twin_free<L>(edges: Seq<(usize, usize)>, labels: Seq<L>) -> bool {
    forall|a: int, b: int| 0 <= a < edges.len() && 0 <= b < edges.len() && a != b && (#[trigger] edges[a]).0 == (#[trigger] edges[b]).0 ==> labels[a] != labels[b]
}

/// Whether the two graphs share labels only within the interface.
pub open spec fn shared_within<E: EventLabel>(p: Sides<E::V>) -> bool {
    forall|a: int, b: int| 0 <= a < p.l1.len() && 0 <= b < p.l2.len() && #[trigger] p.l1[a] == #[trigger] p.l2[b] ==> p.interface.contains(E::event_of(p.l1[a]))
}

/// No edge is listed twice among the edges at a node.
proof fn lemma_ids_apart(edges: Seq<(usize, usize)>, node: usize, upto: int)
    requires
        0 <= upto <= edges.len(),
        edges.len() <= usize::MAX,
    ensures
        edge_ids_at(edges, node, true, upto).no_duplicates(),
    decreases upto,
{
    if upto > 0 {
        lemma_ids_apart(edges, node, upto - 1);
        lemma_edge_ids_at(edges, node, true, upto - 1);
        let rest = edge_ids_at(edges, node, true, upto - 1);
        let all = edge_ids_at(edges, node, true, upto);
        if edges[upto - 1].0 == node {
            assert(all == seq![(upto - 1) as usize] + rest);
            assert forall|i: int, j: int| 0 <= i < all.len() && 0 <= j < all.len() && i != j implies all[i] != all[j] by {
                if i > 0 {
                    assert(all[i] == rest[i - 1]);
                }
                if j > 0 {
                    assert(all[j] == rest[j - 1]);
                }
            }
        }
    }
}

/// Whether an item is the label of one of the first edges of a list, with
/// its event type inside or outside the interface.
pub open spec fn taken<E: EventLabel>(labels: Seq<E::V>, ids: Seq<usize>, upto: int, interface: Set<Seq<char>>, inside: bool, l: E::V) -> bool {
    exists|q: int| 0 <= q < upto && labels[(#[trigger] ids[q]) as int] == l && interface.contains(E::event_of(l)) == inside
}

/// The labels of the first edges that leave a node, split by the
/// interface: each is the label of such an edge on its side of the
/// interface, and none is listed twice where no node has two edges with the
/// same label.
proof fn lemma_parts_upto<E: EventLabel>(edges: Seq<(usize, usize)>, labels: Seq<E::V>, node: usize, interface: Set<Seq<char>>, upto: int)
    requires
        edges.len() == labels.len(),
        edges.len() <= usize::MAX,
        twin_free(edges, labels),
        0 <= upto <= edges_from(edges, node).len(),
    ensures
        ({
            let r = fold_upto(edges_from(edges, node), (Seq::<E::V>::empty(), Seq::<E::V>::empty()), part_step::<E>(labels, interface), upto);
            &&& r.0.no_duplicates()
            &&& r.1.no_duplicates()
            &&& forall|i: int| 0 <= i < r.0.len() ==> taken::<E>(labels, edges_from(edges, node), upto, interface, true, #[trigger] r.0[i])
            &&& forall|i: int| 0 <= i < r.1.len() ==> taken::<E>(labels, edges_from(edges, node), upto, interface, false, #[trigger] r.1[i])
        }),
    decreases upto,
{
    let ids = edges_from(edges, node);
    if upto > 0 {
        lemma_parts_upto::<E>(edges, labels, node, interface, upto - 1);
        lemma_ids_apart(edges, node, edges.len() as int);
        lemma_edge_ids_at(edges, node, true, edges.len() as int);
        let before = fold_upto(ids, (Seq::<E::V>::empty(), Seq::<E::V>::empty()), part_step::<E>(labels, interface), upto - 1);
        let r = fold_upto(ids, (Seq::<E::V>::empty(), Seq::<E::V>::empty()), part_step::<E>(labels, interface), upto);
        let e = ids[upto - 1];
        let l = labels[e as int];
        let inside = interface.contains(E::event_of(l));
        assert(taken::<E>(labels, ids, upto, interface, inside, l));
        assert forall|x: E::V, side: bool| taken::<E>(labels, ids, upto - 1, interface, side, x) implies taken::<E>(labels, ids, upto, interface, side, x) && x != l by {
            let q = choose|q: int| 0 <= q < upto - 1 && labels[(#[trigger] ids[q]) as int] == x && interface.contains(E::event_of(x)) == side;
            assert(ids[q] != ids[upto - 1]);
            assert(edges[ids[q] as int].0 == node && edges[e as int].0 == node);
        }
        if inside {
            assert(r.0 == before.0.push(l) && r.1 == before.1);
            assert forall|i: int| 0 <= i < r.0.len() implies taken::<E>(labels, ids, upto, interface, true, #[trigger] r.0[i]) by {
                if i < before.0.len() {
                    assert(taken::<E>(labels, ids, upto - 1, interface, true, before.0[i]));
                }
            }
            assert forall|i: int, j: int| 0 <= i < r.0.len() && 0 <= j < r.0.len() && i != j implies r.0[i] != r.0[j] by {
                if i < before.0.len() {
                    assert(taken::<E>(labels, ids, upto - 1, interface, true, before.0[i]));
                }
                if j < before.0.len() {
                    assert(taken::<E>(labels, ids, upto - 1, interface, true, before.0[j]));
                }
            }
            assert forall|i: int| 0 <= i < r.1.len() implies taken::<E>(labels, ids, upto, interface, false, #[trigger] r.1[i]) by {
                assert(taken::<E>(labels, ids, upto - 1, interface, false, before.1[i]));
            }
        } else {
            assert(r.1 == before.1.push(l) && r.0 == before.0);
            assert forall|i: int| 0 <= i < r.1.len() implies taken::<E>(labels, ids, upto, interface, false, #[trigger] r.1[i]) by {
                if i < before.1.len() {
                    assert(taken::<E>(labels, ids, upto - 1, interface, false, before.1[i]));
                }
            }
            assert forall|i: int, j: int| 0 <= i < r.1.len() && 0 <= j < r.1.len() && i != j implies r.1[i] != r.1[j] by {
                if i < before.1.len() {
                    assert(taken::<E>(labels, ids, upto - 1, interface, false, before.1[i]));
                }
                if j < before.1.len() {
                    assert(taken::<E>(labels, ids, upto - 1, interface, false, before.1[j]));
                }
            }
            assert forall|i: int| 0 <= i < r.0.len() implies taken::<E>(labels, ids, upto, interface, true, #[trigger] r.0[i]) by {
                assert(taken::<E>(labels, ids, upto - 1, interface, true, before.0[i]));
            }
        }
    }
}

/// The product moves on from a pair of nodes on labels of the two graphs.
pub proof fn lemma_labels_from<E: EventLabel>(p: Sides<E::V>, s: (usize, usize), l: E::V)
    requires
        sides_ok(p),
        twin_free(p.e1, p.l1),
        twin_free(p.e2, p.l2),
        labels_at::<E>(p, s).contains(l),
    ensures
        p.l1.contains(l) || p.l2.contains(l),
{
    let first = parts::<E>(p.e1, p.l1, s.0, p.interface);
    let second = parts::<E>(p.e2, p.l2, s.1, p.interface);
    let ids1 = edges_from(p.e1, s.0);
    let ids2 = edges_from(p.e2, s.1);
    lemma_parts_upto::<E>(p.e1, p.l1, s.0, p.interface, ids1.len() as int);
    lemma_parts_upto::<E>(p.e2, p.l2, s.1, p.interface, ids2.len() as int);
    lemma_edge_ids_at(p.e1, s.0, true, p.e1.len() as int);
    lemma_edge_ids_at(p.e2, s.1, true, p.e2.len() as int);
    let both = first.0.to_set().intersect(second.0.to_set());
    vstd::seq_lib::seq_to_set_is_finite(first.0);
    let third = sorted::<E>(both);
    lemma_sorted_of::<E>(both);
    let here = first.1 + second.1 + third;
    assert(labels_at::<E>(p, s) == here);
    let n1 = first.1.len() as int;
    let n2 = second.1.len() as int;
    let i = choose|i: int| 0 <= i < here.len() && here[i] == l;
    if i < n1 {
        assert(here[i] == first.1[i]);
        assert(taken::<E>(p.l1, ids1, ids1.len() as int, p.interface, false, first.1[i]));
        let q = choose|q: int| 0 <= q < ids1.len() && p.l1[(#[trigger] ids1[q]) as int] == first.1[i] && p.interface.contains(E::event_of(first.1[i])) == false;
        assert(p.l1[ids1[q] as int] == l);
    } else if i < n1 + n2 {
        assert(here[i] == second.1[i - n1]);
        assert(taken::<E>(p.l2, ids2, ids2.len() as int, p.interface, false, second.1[i - n1]));
        let q = choose|q: int| 0 <= q < ids2.len() && p.l2[(#[trigger] ids2[q]) as int] == second.1[i - n1] && p.interface.contains(E::event_of(second.1[i - n1])) == false;
        assert(p.l2[ids2[q] as int] == l);
    } else {
        assert(here[i] == third[i - n1 - n2]);
        assert(third.to_set().contains(third[i - n1 - n2]));
        assert(first.0.to_set().contains(l));
        let x = choose|x: int| 0 <= x < first.0.len() && first.0[x] == l;
        assert(taken::<E>(p.l1, ids1, ids1.len() as int, p.interface, true, first.0[x]));
        let q = choose|q: int| 0 <= q < ids1.len() && p.l1[(#[trigger] ids1[q]) as int] == first.0[x] && p.interface.contains(E::event_of(first.0[x])) == true;
        assert(p.l1[ids1[q] as int] == l);
    }
}

/// The product moves on from a pair of nodes on labels of which none is
/// listed twice.
pub proof fn lemma_labels_apart<E: EventLabel>(p: Sides<E::V>, s: (usize, usize))
    requires
        sides_ok(p),
        twin_free(p.e1, p.l1),
        twin_free(p.e2, p.l2),
        shared_within::<E>(p),
    ensures
        labels_at::<E>(p, s).no_duplicates(),
{
    let first = parts::<E>(p.e1, p.l1, s.0, p.interface);
    let second = parts::<E>(p.e2, p.l2, s.1, p.interface);
    let ids1 = edges_from(p.e1, s.0);
    let ids2 = edges_from(p.e2, s.1);
    lemma_parts_upto::<E>(p.e1, p.l1, s.0, p.interface, ids1.len() as int);
    lemma_parts_upto::<E>(p.e2, p.l2, s.1, p.interface, ids2.len() as int);
    lemma_edge_ids_at(p.e1, s.0, true, p.e1.len() as int);
    lemma_edge_ids_at(p.e2, s.1, true, p.e2.len() as int);
    let both = first.0.to_set().intersect(second.0.to_set());
    vstd::seq_lib::seq_to_set_is_finite(first.0);
    let third = sorted::<E>(both);
    lemma_sorted_of::<E>(both);
    increasing_no_duplicates::<E>(third);
    let here = first.1 + second.1 + third;
    assert(labels_at::<E>(p, s) == here);
    let n1 = first.1.len() as int;
    let n2 = second.1.len() as int;
    assert forall|i: int| 0 <= i < n1 implies !p.interface.contains(E::event_of(#[trigger] here[i])) && p.l1.contains(here[i]) by {
        assert(here[i] == first.1[i]);
        assert(taken::<E>(p.l1, ids1, ids1.len() as int, p.interface, false, first.1[i]));
        let q = choose|q: int| 0 <= q < ids1.len() && p.l1[(#[trigger] ids1[q]) as int] == first.1[i] && p.interface.contains(E::event_of(first.1[i])) == false;
        assert(p.l1[ids1[q] as int] == here[i]);
    }
    assert forall|i: int| n1 <= i < n1 + n2 implies !p.interface.contains(E::event_of(#[trigger] here[i])) && p.l2.contains(here[i]) by {
        assert(here[i] == second.1[i - n1]);
        assert(taken::<E>(p.l2, ids2, ids2.len() as int, p.interface, false, second.1[i - n1]));
        let q = choose|q: int| 0 <= q < ids2.len() && p.l2[(#[trigger] ids2[q]) as int] == second.1[i - n1] && p.interface.contains(E::event_of(second.1[i - n1])) == false;
        assert(p.l2[ids2[q] as int] == here[i]);
    }
    assert forall|i: int| n1 + n2 <= i < here.len() implies p.interface.contains(E::event_of(#[trigger] here[i])) by {
        assert(here[i] == third[i - n1 - n2]);
        assert(third.to_set().contains(third[i - n1 - n2]));
        assert(first.0.to_set().contains(here[i]));
        let x = choose|x: int| 0 <= x < first.0.len() && first.0[x] == here[i];
        assert(taken::<E>(p.l1, ids1, ids1.len() as int, p.interface, true, first.0[x]));
    }
    assert forall|i: int, j: int| 0 <= i < here.len() && 0 <= j < here.len() && i < j implies here[i] != here[j] by {
        if j < n1 {
            assert(here[i] == first.1[i] && here[j] == first.1[j]);
        } else if j < n1 + n2 {
            if i < n1 {
                if here[i] == here[j] {
                    let a = choose|a: int| 0 <= a < p.l1.len() && p.l1[a] == here[i];
                    let b = choose|b: int| 0 <= b < p.l2.len() && p.l2[b] == here[j];
                    assert(p.l1[a] == p.l2[b]);
                }
            } else {
                assert(here[i] == second.1[i - n1] && here[j] == second.1[j - n1]);
            }
        } else {
            if i >= n1 + n2 {
                assert(here[i] == third[i - n1 - n2] && here[j] == third[j - n1 - n2]);
            }
        }
    }
    assert forall|i: int, j: int| 0 <= i < here.len() && 0 <= j < here.len() && i != j implies here[i] != here[j] by {
        if i < j {
        } else {
            assert(here[j] != here[i]);
        }
    }
}

/// What holds of a product while it is built, beyond its shape: no node
/// has two edges with the same label, and the edges of the node under
/// visit are on labels that have been taken in.
pub open spec fn sorted_out<E: EventLabel>(p: Sides<E::V>, st: Product<E::V>, mid: Option<(usize, int)>) -> bool {
    &&& shaped::<E>(p, st, mid)
    &&& twin_free(st.edges, st.labels)
    &&& match mid {
        None => true,
        Some((src, done)) => forall|k: int| 0 <= k < st.edges.len() && (#[trigger] st.edges[k]).0 == src ==> first_ones(labels_at::<E>(p, st.origin[src as int]), done, st.labels[k]),
    }
}

/// Whether an item is among the first of a list.
pub open spec fn first_ones<L>(list: Seq<L>, done: int, l: L) -> bool {
    exists|i: int| 0 <= i < done && i < list.len() && #[trigger] list[i] == l
}

/// A label of the node under visit is taken in: still no node has two
/// edges with the same label.
proof fn lemma_edge_sorted<E: EventLabel>(p: Sides<E::V>, st: Product<E::V>, src: usize, j: int)
    requires
        sides_ok(p),
        sorted_out::<E>(p, st, Some((src, j))),
        0 <= j < labels_at::<E>(p, st.origin[src as int]).len(),
        labels_at::<E>(p, st.origin[src as int]).no_duplicates(),
    ensures
        ({
            let s = st.origin[src as int];
            let r = product_edge_step(out_map::<E>(p.e1, p.l1, s.0), out_map::<E>(p.e2, p.l2, s.1), src, s)(st, labels_at::<E>(p, s)[j]);
            &&& sorted_out::<E>(p, r, Some((src, j + 1)))
            &&& r.origin[src as int] == s
        }),
{
    let s = st.origin[src as int];
    let list = labels_at::<E>(p, s);
    let l = list[j];
    let r = product_edge_step(out_map::<E>(p.e1, p.l1, s.0), out_map::<E>(p.e2, p.l2, s.1), src, s)(st, l);
    lemma_edge_shape::<E>(p, st, src, j);
    let last = st.edges.len() as int;
    assert(r.labels == st.labels.push(l));
    assert(r.edges.len() == last + 1 && r.edges[last].0 == src);
    assert forall|k: int| 0 <= k < last implies r.edges[k] == st.edges[k] && r.labels[k] == st.labels[k] by {
    }
    assert forall|k: int| 0 <= k < r.edges.len() && (#[trigger] r.edges[k]).0 == src implies first_ones(list, j + 1, r.labels[k]) by {
        if k < last {
            assert(st.edges[k].0 == src);
            assert(first_ones(list, j, st.labels[k]));
            let i = choose|i: int| 0 <= i < j && i < list.len() && #[trigger] list[i] == st.labels[k];
            assert(list[i] == r.labels[k]);
        } else {
            assert(list[j] == r.labels[k]);
        }
    }
    assert forall|a: int, b: int| 0 <= a < r.edges.len() && 0 <= b < r.edges.len() && a != b && (#[trigger] r.edges[a]).0 == (#[trigger] r.edges[b]).0 implies r.labels[a] != r.labels[b] by {
        if a < last && b < last {
            assert(st.edges[a].0 == st.edges[b].0);
        } else if a < last {
            assert(st.edges[a].0 == src);
            assert(first_ones(list, j, st.labels[a]));
            let i = choose|i: int| 0 <= i < j && i < list.len() && #[trigger] list[i] == st.labels[a];
            assert(list[i] != list[j]);
        } else {
            assert(st.edges[b].0 == src);
            assert(first_ones(list, j, st.labels[b]));
            let i = choose|i: int| 0 <= i < j && i < list.len() && #[trigger] list[i] == st.labels[b];
            assert(list[i] != list[j]);
        }
    }
}

/// The first labels of the node under visit are taken in: still no node
/// has two edges with the same label.
proof fn lemma_edges_sorted<E: EventLabel>(p: Sides<E::V>, st: Product<E::V>, src: usize, upto: int)
    requires
        sides_ok(p),
        sorted_out::<E>(p, st, Some((src, 0int))),
        0 <= upto <= labels_at::<E>(p, st.origin[src as int]).len(),
        labels_at::<E>(p, st.origin[src as int]).no_duplicates(),
    ensures
        ({
            let s = st.origin[src as int];
            let r = fold_upto(labels_at::<E>(p, s), st, product_edge_step(out_map::<E>(p.e1, p.l1, s.0), out_map::<E>(p.e2, p.l2, s.1), src, s), upto);
            &&& sorted_out::<E>(p, r, Some((src, upto)))
            &&& r.origin[src as int] == s
        }),
    decreases upto,
{
    if upto > 0 {
        lemma_edges_sorted::<E>(p, st, src, upto - 1);
        let s = st.origin[src as int];
        let before = fold_upto(labels_at::<E>(p, s), st, product_edge_step(out_map::<E>(p.e1, p.l1, s.0), out_map::<E>(p.e2, p.l2, s.1), src, s), upto - 1);
        lemma_edge_sorted::<E>(p, before, src, upto - 1);
    }
}

/// A visit: still no node has two edges with the same label.
proof fn lemma_visit_sorted<E: EventLabel>(p: Sides<E::V>, st: Product<E::V>)
    requires
        sides_ok(p),
        twin_free(p.e1, p.l1),
        twin_free(p.e2, p.l2),
        shared_within::<E>(p),
        sorted_out::<E>(p, st, None),
    ensures
        sorted_out::<E>(p, product_pop::<E>(p.e1, p.l1, p.e2, p.l2, p.interface, st), None),
{
    lemma_visit_shape::<E>(p, st);
    if st.worklist.len() > 0 {
        let src = st.worklist.last().0;
        let s = st.worklist.last().1;
        let popped = Product { origin: st.origin, edges: st.edges, labels: st.labels, worklist: st.worklist.drop_last() };
        lemma_pop_shape::<E>(p, st);
        let visit = labels_at::<E>(p, s);
        lemma_labels_apart::<E>(p, s);
        assert(st.worklist[st.worklist.len() - 1].0 == src);
        assert(waits(st, src));
        assert forall|k: int| 0 <= k < popped.edges.len() && (#[trigger] popped.edges[k]).0 == src implies first_ones(visit, 0, popped.labels[k]) by {
            assert(!waits(st, st.edges[k].0));
        }
        lemma_edges_sorted::<E>(p, popped, src, visit.len() as int);
        let r = product_pop::<E>(p.e1, p.l1, p.e2, p.l2, p.interface, st);
        assert(r == fold(visit, popped, product_edge_step(out_map::<E>(p.e1, p.l1, s.0), out_map::<E>(p.e2, p.l2, s.1), src, s)));
    }
}

/// The product after some visits has no node with two edges with the same
/// label.
proof fn lemma_run_sorted<E: EventLabel>(p: Sides<E::V>, visits: nat)
    requires
        sides_ok(p),
        twin_free(p.e1, p.l1),
        twin_free(p.e2, p.l2),
        shared_within::<E>(p),
    ensures
        sorted_out::<E>(p, product_run::<E>(p.e1, p.l1, p.i1, p.e2, p.l2, p.i2, p.interface, visits), None),
    decreases visits,
{
    lemma_run_shape::<E>(p, visits);
    if visits > 0 {
        lemma_run_sorted::<E>(p, (visits - 1) as nat);
        let before = product_run::<E>(p.e1, p.l1, p.i1, p.e2, p.l2, p.i2, p.interface, (visits - 1) as nat);
        lemma_visit_sorted::<E>(p, before);
    }
}

/// No node of the product of two graphs has two edges with the same label,
/// if no node of either graph has and the two graphs share labels only
/// within the interface: what leaves a state is told apart by its label in
/// the product as it is in the graphs.
pub proof fn lemma_product_twin_free<E: EventLabel>(p: Sides<E::V>)
    requires
        sides_ok(p),
        twin_free(p.e1, p.l1),
        twin_free(p.e2, p.l2),
        shared_within::<E>(p),
    ensures
        twin_free(product_of::<E>(p).edges, product_of::<E>(p).labels),
{
    lemma_run_sorted::<E>(p, p.n1 * p.n2);
}

} // verus!
