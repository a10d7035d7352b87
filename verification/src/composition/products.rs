//! The shape of a product of two graphs: which pair each node stands for,
//! and which edges leave it.
use crate::composition::composition_machine::{dst_of, out_map, out_map_step, pair_index, product, product_edge_step, product_pop, product_run, to_visit, Product};
use crate::composition::alike::{alike, steps};
use crate::composition::composition_machine::{deterministic, parts, MachineView};
use crate::composition::composition_types::EventLabel;
use crate::ordset::sorted;
use crate::types::{MachineLabel, MachineLabelView};
use crate::seqs::{fold, fold_upto};
use crate::topology::{edges_from, lemma_edge_ids_at};
use vstd::prelude::*;

verus! {

/// Two graphs with their initial nodes and the interface over which their
/// product is taken.
pub struct Sides<L> {
    pub n1: nat,
    pub e1: Seq<(usize, usize)>,
    pub l1: Seq<L>,
    pub i1: usize,
    pub n2: nat,
    pub e2: Seq<(usize, usize)>,
    pub l2: Seq<L>,
    pub i2: usize,
    pub interface: Set<Seq<char>>,
}

/// Whether two graphs are given with their nodes counted, their edges
/// between their nodes, a label for each, and initial nodes among the nodes.
pub open spec fn sides_ok<L>(p: Sides<L>) -> bool {
    &&& p.e1.len() == p.l1.len()
    &&& p.e2.len() == p.l2.len()
    &&& p.e1.len() <= usize::MAX
    &&& p.e2.len() <= usize::MAX
    &&& p.i1 < p.n1
    &&& p.i2 < p.n2
    &&& p.n1 * p.n2 <= usize::MAX
    &&& forall|e: int| 0 <= e < p.e1.len() ==> (#[trigger] p.e1[e]).1 < p.n1
    &&& forall|e: int| 0 <= e < p.e2.len() ==> (#[trigger] p.e2[e]).1 < p.n2
}

/// The labels on which the product moves on from a pair of nodes.
pub open spec fn labels_at<E: EventLabel>(p: Sides<E::V>, s: (usize, usize)) -> Seq<E::V> {
    to_visit::<E>(p.e1, p.l1, s.0, p.e2, p.l2, s.1, p.interface)
}

/// Where the product leads from a pair of nodes on a label.
pub open spec fn moved<E: EventLabel>(p: Sides<E::V>, s: (usize, usize), l: E::V) -> (usize, usize) {
    dst_of(out_map::<E>(p.e1, p.l1, s.0), out_map::<E>(p.e2, p.l2, s.1), s, l)
}

/// Whether a node waits for its visit.
pub open spec fn waits<L>(st: Product<L>, x: usize) -> bool {
    exists|w: int| 0 <= w < st.worklist.len() && (#[trigger] st.worklist[w]).0 == x
}

/// Whether an edge with a label leaves a node.
pub open spec fn has_out<L>(st: Product<L>, x: usize, l: L) -> bool {
    exists|k: int| 0 <= k < st.edges.len() && (#[trigger] st.edges[k]).0 == x && st.labels[k] == l
}

/// Whether the edge for a label of a node is due: not for the labels of
/// the node under visit that have not been taken in.
pub open spec fn due(mid: Option<(usize, int)>, x: usize, i: int) -> bool {
    match mid {
        None => true,
        Some((src, done)) => x != src || i < done,
    }
}

/// What holds of a product while it is built: the nodes stand for pairs of
/// nodes, no two for the same, the first for the initial pair; a node that
/// waits stands for the pair that it waits with, and no edge leaves it; each
/// edge leaves a node on one of its labels for the node of the pair that
/// the label leads to; and a node that does not wait has an edge for each
/// label that is due.
pub open spec fn shaped<E: EventLabel>(p: Sides<E::V>, st: Product<E::V>, mid: Option<(usize, int)>) -> bool {
    &&& st.edges.len() == st.labels.len()
    &&& st.origin.len() > 0
    &&& st.origin[0] == (p.i1, p.i2)
    &&& st.origin.len() <= p.n1 * p.n2
    &&& st.origin.no_duplicates()
    &&& forall|x: int| 0 <= x < st.origin.len() ==> (#[trigger] st.origin[x]).0 < p.n1 && st.origin[x].1 < p.n2
    &&& forall|w: int| 0 <= w < st.worklist.len() ==> (#[trigger] st.worklist[w]).0 < st.origin.len() && st.origin[st.worklist[w].0 as int] == st.worklist[w].1
    &&& forall|v: int, w: int| 0 <= v < w < st.worklist.len() ==> (#[trigger] st.worklist[v]).0 != (#[trigger] st.worklist[w]).0
    &&& match mid {
        None => true,
        Some((src, done)) => src < st.origin.len() && !waits(st, src),
    }
    &&& forall|k: int|
        0 <= k < st.edges.len() ==> {
            &&& (#[trigger] st.edges[k]).0 < st.origin.len()
            &&& st.edges[k].1 < st.origin.len()
            &&& !waits(st, st.edges[k].0)
            &&& labels_at::<E>(p, st.origin[st.edges[k].0 as int]).contains(st.labels[k])
            &&& st.origin[st.edges[k].1 as int] == moved::<E>(p, st.origin[st.edges[k].0 as int], st.labels[k])
        }
    &&& forall|x: usize, i: int|
        x < st.origin.len() && !waits(st, x) && 0 <= i < labels_at::<E>(p, st.origin[x as int]).len() && due(mid, x, i) ==> has_out(st, x, #[trigger] labels_at::<E>(p, st.origin[x as int])[i])
}

/// The targets of the edges that leave a node are nodes.
proof fn lemma_out_map<E: EventLabel>(edges: Seq<(usize, usize)>, labels: Seq<E::V>, src: usize, n: nat, upto: int)
    requires
        edges.len() <= usize::MAX,
        forall|e: int| 0 <= e < edges.len() ==> (#[trigger] edges[e]).1 < n,
        0 <= upto <= edges_from(edges, src).len(),
    ensures
        forall|l: E::V| fold_upto(edges_from(edges, src), Map::<E::V, usize>::empty(), out_map_step::<E>(edges, labels), upto).dom().contains(l) ==> #[trigger] fold_upto(edges_from(edges, src), Map::<E::V, usize>::empty(), out_map_step::<E>(edges, labels), upto)[l] < n,
    decreases upto,
{
    if upto > 0 {
        lemma_out_map::<E>(edges, labels, src, n, upto - 1);
        lemma_edge_ids_at(edges, src, true, edges.len() as int);
        let ids = edges_from(edges, src);
        let before = fold_upto(ids, Map::<E::V, usize>::empty(), out_map_step::<E>(edges, labels), upto - 1);
        let after = fold_upto(ids, Map::<E::V, usize>::empty(), out_map_step::<E>(edges, labels), upto);
        let e = ids[upto - 1];
        assert(after == before.insert(labels[e as int], edges[e as int].1));
        assert forall|l: E::V| after.dom().contains(l) implies #[trigger] after[l] < n by {
            if l != labels[e as int] {
                assert(before.dom().contains(l));
                assert(before[l] < n);
            }
        }
    }
}

/// Where the product leads from a pair of nodes is a pair of nodes.
pub proof fn lemma_moved<E: EventLabel>(p: Sides<E::V>, s: (usize, usize), l: E::V)
    requires
        sides_ok(p),
        s.0 < p.n1,
        s.1 < p.n2,
    ensures
        moved::<E>(p, s, l).0 < p.n1,
        moved::<E>(p, s, l).1 < p.n2,
{
    lemma_out_map::<E>(p.e1, p.l1, s.0, p.n1, edges_from(p.e1, s.0).len() as int);
    lemma_out_map::<E>(p.e2, p.l2, s.1, p.n2, edges_from(p.e2, s.1).len() as int);
}

/// A sequence of pairs of indices below two bounds in which no pair
/// stands twice is no longer than the bounds multiply to.
pub proof fn lemma_pairs_count(pairs: Seq<(usize, usize)>, n1: nat, n2: nat)
    requires
        pairs.no_duplicates(),
        forall|x: int| 0 <= x < pairs.len() ==> (#[trigger] pairs[x]).0 < n1 && pairs[x].1 < n2,
    ensures
        pairs.len() <= n1 * n2,
{
    let firsts = Set::new(|a: usize| a < n1);
    let seconds = Set::new(|b: usize| b < n2);
    lemma_range_len(n1);
    lemma_range_len(n2);
    crate::growth::lemma_pairs_len(firsts, seconds);
    let all = crate::growth::pairs_of(firsts, seconds);
    pairs.unique_seq_to_set();
    assert(pairs.to_set().subset_of(all)) by {
        assert forall|q: (usize, usize)| pairs.to_set().contains(q) implies all.contains(q) by {
            let x = choose|x: int| 0 <= x < pairs.len() && pairs[x] == q;
            assert(pairs[x].0 < n1 && pairs[x].1 < n2);
        }
    }
    vstd::set_lib::lemma_len_subset(pairs.to_set(), all);
    assert(firsts.len() * seconds.len() <= n1 * n2) by (nonlinear_arith)
        requires
            firsts.len() <= n1,
            seconds.len() <= n2,
    ;
}

/// There are no more indices below a bound than the bound says.
proof fn lemma_range_len(n: nat)
    ensures
        Set::new(|a: usize| a < n).finite(),
        Set::new(|a: usize| a < n).len() <= n,
{
    let s = Set::new(|a: usize| a < n);
    let ids = vstd::set_lib::set_int_range(0, n as int);
    vstd::set_lib::lemma_int_range(0, n as int);
    let back = |i: int| i as usize;
    let all = ids.map(back);
    vstd::set_lib::lemma_map_size_bound(ids, all, back);
    assert(s.subset_of(all)) by {
        assert forall|x: usize| s.contains(x) implies all.contains(x) by {
            assert(ids.contains(x as int) && back(x as int) == x);
        }
    }
    vstd::set_lib::lemma_len_subset(s, all);
}

/// A node leaves the wait for its visit: the product stays in shape, with
/// none of the node's labels taken in.
pub proof fn lemma_pop_shape<E: EventLabel>(p: Sides<E::V>, st: Product<E::V>)
    requires
        sides_ok(p),
        shaped::<E>(p, st, None),
        st.worklist.len() > 0,
    ensures
        shaped::<E>(p, Product { origin: st.origin, edges: st.edges, labels: st.labels, worklist: st.worklist.drop_last() }, Some((st.worklist.last().0, 0int))),
        st.origin[st.worklist.last().0 as int] == st.worklist.last().1,
{
    let r = Product { origin: st.origin, edges: st.edges, labels: st.labels, worklist: st.worklist.drop_last() };
    let src = st.worklist.last().0;
    let top = st.worklist.len() - 1;
    assert(st.worklist[top] == st.worklist.last());
    assert forall|x: usize| waits(r, x) implies waits(st, x) && x != src by {
        let w = choose|w: int| 0 <= w < r.worklist.len() && (#[trigger] r.worklist[w]).0 == x;
        assert(st.worklist[w] == r.worklist[w]);
        assert(st.worklist[w].0 != st.worklist[top].0);
    }
    assert forall|x: usize| waits(st, x) && x != src implies waits(r, x) by {
        let w = choose|w: int| 0 <= w < st.worklist.len() && (#[trigger] st.worklist[w]).0 == x;
        assert(r.worklist[w] == st.worklist[w]);
    }
    assert(waits(st, src));
    assert forall|w: int| 0 <= w < r.worklist.len() implies (#[trigger] r.worklist[w]).0 < r.origin.len() && r.origin[r.worklist[w].0 as int] == r.worklist[w].1 by {
        assert(r.worklist[w] == st.worklist[w]);
    }
    assert forall|v: int, w: int| 0 <= v < w < r.worklist.len() implies (#[trigger] r.worklist[v]).0 != (#[trigger] r.worklist[w]).0 by {
        assert(r.worklist[v] == st.worklist[v] && r.worklist[w] == st.worklist[w]);
    }
    assert forall|k: int| 0 <= k < r.edges.len() implies !waits(r, (#[trigger] r.edges[k]).0) by {
        assert(!waits(st, st.edges[k].0));
    }
    assert forall|x: usize, i: int| x < r.origin.len() && !waits(r, x) && 0 <= i < labels_at::<E>(p, r.origin[x as int]).len() && due(Some((src, 0int)), x, i) implies has_out(r, x, #[trigger] labels_at::<E>(p, r.origin[x as int])[i]) by {
        assert(x != src);
        assert(!waits(st, x));
        assert(due(None::<(usize, int)>, x, i));
        assert(has_out(st, x, labels_at::<E>(p, st.origin[x as int])[i]));
        let k = choose|k: int| 0 <= k < st.edges.len() && (#[trigger] st.edges[k]).0 == x && st.labels[k] == labels_at::<E>(p, st.origin[x as int])[i];
        assert(r.edges[k].0 == x && r.labels[k] == labels_at::<E>(p, r.origin[x as int])[i]);
    }
}

/// A label of the node under visit is taken in: the product stays in
/// shape, with one more of the node's labels taken in.
pub proof fn lemma_edge_shape<E: EventLabel>(p: Sides<E::V>, st: Product<E::V>, src: usize, j: int)
    requires
        sides_ok(p),
        shaped::<E>(p, st, Some((src, j))),
        0 <= j < labels_at::<E>(p, st.origin[src as int]).len(),
    ensures
        ({
            let s = st.origin[src as int];
            let r = product_edge_step(out_map::<E>(p.e1, p.l1, s.0), out_map::<E>(p.e2, p.l2, s.1), src, s)(st, labels_at::<E>(p, s)[j]);
            &&& shaped::<E>(p, r, Some((src, j + 1)))
            &&& r.origin[src as int] == s
            &&& r.origin.len() - r.worklist.len() == st.origin.len() - st.worklist.len()
        }),
{
    let s = st.origin[src as int];
    let l = labels_at::<E>(p, s)[j];
    let r = product_edge_step(out_map::<E>(p.e1, p.l1, s.0), out_map::<E>(p.e2, p.l2, s.1), src, s)(st, l);
    let dst = moved::<E>(p, s, l);
    lemma_moved::<E>(p, s, l);
    let last = st.edges.len() as int;
    assert(labels_at::<E>(p, s).contains(l));
    if st.origin.contains(dst) {
        let idx = pair_index(st.origin, dst);
        assert(0 <= idx < st.origin.len() && st.origin[idx] == dst);
        assert(r.edges[last] == (src, idx as usize));
        assert forall|x: usize| waits(r, x) <==> waits(st, x) by {
        }
        assert forall|k: int| 0 <= k < r.edges.len() implies {
            &&& (#[trigger] r.edges[k]).0 < r.origin.len()
            &&& r.edges[k].1 < r.origin.len()
            &&& !waits(r, r.edges[k].0)
            &&& labels_at::<E>(p, r.origin[r.edges[k].0 as int]).contains(r.labels[k])
            &&& r.origin[r.edges[k].1 as int] == moved::<E>(p, r.origin[r.edges[k].0 as int], r.labels[k])
        } by {
            if k < last {
                assert(r.edges[k] == st.edges[k] && r.labels[k] == st.labels[k]);
                assert(!waits(st, st.edges[k].0));
            }
        }
        assert forall|x: usize, i: int| x < r.origin.len() && !waits(r, x) && 0 <= i < labels_at::<E>(p, r.origin[x as int]).len() && due(Some((src, j + 1)), x, i) implies has_out(r, x, #[trigger] labels_at::<E>(p, r.origin[x as int])[i]) by {
            if x == src && i == j {
                assert(r.edges[last].0 == x && r.labels[last] == l);
            } else {
                assert(due(Some((src, j)), x, i));
                assert(has_out(st, x, labels_at::<E>(p, st.origin[x as int])[i]));
                let k = choose|k: int| 0 <= k < st.edges.len() && (#[trigger] st.edges[k]).0 == x && st.labels[k] == labels_at::<E>(p, st.origin[x as int])[i];
                assert(r.edges[k].0 == x && r.labels[k] == labels_at::<E>(p, r.origin[x as int])[i]);
            }
        }
    } else {
        let n = st.origin.len() as usize;
        assert(st.origin.len() <= usize::MAX);
        assert(r.origin == st.origin.push(dst));
        assert(r.edges[last] == (src, n));
        assert(r.worklist == st.worklist.push((n, dst)));
        assert forall|a: int, b: int| 0 <= a < r.origin.len() && 0 <= b < r.origin.len() && a != b implies r.origin[a] != r.origin[b] by {
            if a < n && b < n {
                assert(st.origin[a] != st.origin[b]);
            } else if a < n {
                assert(st.origin.contains(st.origin[a]));
            } else {
                assert(st.origin.contains(st.origin[b]));
            }
        }
        lemma_pairs_count(r.origin, p.n1, p.n2);
        assert forall|x: usize| waits(r, x) <==> waits(st, x) || x == n by {
            if waits(r, x) {
                let w = choose|w: int| 0 <= w < r.worklist.len() && (#[trigger] r.worklist[w]).0 == x;
                if w < st.worklist.len() {
                    assert(st.worklist[w] == r.worklist[w]);
                }
            }
            if waits(st, x) {
                let w = choose|w: int| 0 <= w < st.worklist.len() && (#[trigger] st.worklist[w]).0 == x;
                assert(r.worklist[w] == st.worklist[w]);
            }
            if x == n {
                assert(r.worklist[st.worklist.len() as int].0 == n);
            }
        }
        assert forall|w: int| 0 <= w < r.worklist.len() implies (#[trigger] r.worklist[w]).0 < r.origin.len() && r.origin[r.worklist[w].0 as int] == r.worklist[w].1 by {
            if w < st.worklist.len() {
                assert(r.worklist[w] == st.worklist[w]);
            }
        }
        assert forall|v: int, w: int| 0 <= v < w < r.worklist.len() implies (#[trigger] r.worklist[v]).0 != (#[trigger] r.worklist[w]).0 by {
            assert(r.worklist[v] == st.worklist[v]);
            if w < st.worklist.len() {
                assert(r.worklist[w] == st.worklist[w]);
            }
        }
        assert forall|k: int| 0 <= k < r.edges.len() implies {
            &&& (#[trigger] r.edges[k]).0 < r.origin.len()
            &&& r.edges[k].1 < r.origin.len()
            &&& !waits(r, r.edges[k].0)
            &&& labels_at::<E>(p, r.origin[r.edges[k].0 as int]).contains(r.labels[k])
            &&& r.origin[r.edges[k].1 as int] == moved::<E>(p, r.origin[r.edges[k].0 as int], r.labels[k])
        } by {
            if k < last {
                assert(r.edges[k] == st.edges[k] && r.labels[k] == st.labels[k]);
                assert(!waits(st, st.edges[k].0));
                assert(r.origin[st.edges[k].0 as int] == st.origin[st.edges[k].0 as int]);
                assert(r.origin[st.edges[k].1 as int] == st.origin[st.edges[k].1 as int]);
            }
        }
        assert forall|x: usize, i: int| x < r.origin.len() && !waits(r, x) && 0 <= i < labels_at::<E>(p, r.origin[x as int]).len() && due(Some((src, j + 1)), x, i) implies has_out(r, x, #[trigger] labels_at::<E>(p, r.origin[x as int])[i]) by {
            assert(x != n);
            assert(r.origin[x as int] == st.origin[x as int]);
            if x == src && i == j {
                assert(r.edges[last].0 == x && r.labels[last] == l);
            } else {
                assert(due(Some((src, j)), x, i));
                assert(has_out(st, x, labels_at::<E>(p, st.origin[x as int])[i]));
                let k = choose|k: int| 0 <= k < st.edges.len() && (#[trigger] st.edges[k]).0 == x && st.labels[k] == labels_at::<E>(p, st.origin[x as int])[i];
                assert(r.edges[k].0 == x && r.labels[k] == labels_at::<E>(p, r.origin[x as int])[i]);
            }
        }
    }
}

/// The first labels of the node under visit are taken in: the product
/// stays in shape.
pub proof fn lemma_edges_shape<E: EventLabel>(p: Sides<E::V>, st: Product<E::V>, src: usize, upto: int)
    requires
        sides_ok(p),
        shaped::<E>(p, st, Some((src, 0int))),
        0 <= upto <= labels_at::<E>(p, st.origin[src as int]).len(),
    ensures
        ({
            let s = st.origin[src as int];
            let r = fold_upto(labels_at::<E>(p, s), st, product_edge_step(out_map::<E>(p.e1, p.l1, s.0), out_map::<E>(p.e2, p.l2, s.1), src, s), upto);
            &&& shaped::<E>(p, r, Some((src, upto)))
            &&& r.origin[src as int] == s
            &&& r.origin.len() - r.worklist.len() == st.origin.len() - st.worklist.len()
        }),
    decreases upto,
{
    if upto > 0 {
        lemma_edges_shape::<E>(p, st, src, upto - 1);
        let s = st.origin[src as int];
        let before = fold_upto(labels_at::<E>(p, s), st, product_edge_step(out_map::<E>(p.e1, p.l1, s.0), out_map::<E>(p.e2, p.l2, s.1), src, s), upto - 1);
        lemma_edge_shape::<E>(p, before, src, upto - 1);
    }
}

/// A visit: the product stays in shape, and one node fewer is left to
/// visit among the nodes.
pub proof fn lemma_visit_shape<E: EventLabel>(p: Sides<E::V>, st: Product<E::V>)
    requires
        sides_ok(p),
        shaped::<E>(p, st, None),
    ensures
        shaped::<E>(p, product_pop::<E>(p.e1, p.l1, p.e2, p.l2, p.interface, st), None),
        st.worklist.len() > 0 ==> product_pop::<E>(p.e1, p.l1, p.e2, p.l2, p.interface, st).origin.len() - product_pop::<E>(p.e1, p.l1, p.e2, p.l2, p.interface, st).worklist.len() == st.origin.len()
            - st.worklist.len() + 1,
{
    if st.worklist.len() > 0 {
        let src = st.worklist.last().0;
        let s = st.worklist.last().1;
        let popped = Product { origin: st.origin, edges: st.edges, labels: st.labels, worklist: st.worklist.drop_last() };
        lemma_pop_shape::<E>(p, st);
        let visit = labels_at::<E>(p, s);
        lemma_edges_shape::<E>(p, popped, src, visit.len() as int);
        let r = product_pop::<E>(p.e1, p.l1, p.e2, p.l2, p.interface, st);
        assert(r == fold(visit, popped, product_edge_step(out_map::<E>(p.e1, p.l1, s.0), out_map::<E>(p.e2, p.l2, s.1), src, s)));
        assert forall|x: usize, i: int| x < r.origin.len() && !waits(r, x) && 0 <= i < labels_at::<E>(p, r.origin[x as int]).len() && due(None::<(usize, int)>, x, i) implies has_out(r, x, #[trigger] labels_at::<E>(p, r.origin[x as int])[i]) by {
            assert(due(Some((src, visit.len() as int)), x, i));
        }
    }
}

/// The product after some visits is in shape, and as many nodes have been
/// visited as there were visits unless none was left to visit.
pub proof fn lemma_run_shape<E: EventLabel>(p: Sides<E::V>, visits: nat)
    requires
        sides_ok(p),
    ensures
        shaped::<E>(p, product_run::<E>(p.e1, p.l1, p.i1, p.e2, p.l2, p.i2, p.interface, visits), None),
        product_run::<E>(p.e1, p.l1, p.i1, p.e2, p.l2, p.i2, p.interface, visits).worklist.len() == 0 || product_run::<E>(p.e1, p.l1, p.i1, p.e2, p.l2, p.i2, p.interface, visits).origin.len()
            - product_run::<E>(p.e1, p.l1, p.i1, p.e2, p.l2, p.i2, p.interface, visits).worklist.len() == visits,
    decreases visits,
{
    let st = product_run::<E>(p.e1, p.l1, p.i1, p.e2, p.l2, p.i2, p.interface, visits);
    if visits == 0 {
        assert(st.origin[0] == (p.i1, p.i2));
        assert(st.worklist[0] == (0usize, (p.i1, p.i2)));
        assert(1 <= p.n1 * p.n2) by (nonlinear_arith)
            requires
                p.i1 < p.n1,
                p.i2 < p.n2,
        ;
        assert(waits(st, 0usize));
        assert forall|x: usize| x < st.origin.len() implies waits(st, x) by {
        }
    } else {
        lemma_run_shape::<E>(p, (visits - 1) as nat);
        let before = product_run::<E>(p.e1, p.l1, p.i1, p.e2, p.l2, p.i2, p.interface, (visits - 1) as nat);
        lemma_visit_shape::<E>(p, before);
    }
}

/// The product of two graphs is in shape, and each of its nodes has been
/// visited.
pub proof fn lemma_product_shape<E: EventLabel>(p: Sides<E::V>)
    requires
        sides_ok(p),
    ensures
        shaped::<E>(p, product::<E>(p.n1, p.e1, p.l1, p.i1, p.n2, p.e2, p.l2, p.i2, p.interface), None),
        product::<E>(p.n1, p.e1, p.l1, p.i1, p.n2, p.e2, p.l2, p.i2, p.interface).worklist.len() == 0,
{
    lemma_run_shape::<E>(p, p.n1 * p.n2);
}

/// The two graphs in the other order.
pub open spec fn swapped<L>(p: Sides<L>) -> Sides<L> {
    Sides { n1: p.n2, e1: p.e2, l1: p.l2, i1: p.i2, n2: p.n1, e2: p.e1, l2: p.l1, i2: p.i1, interface: p.interface }
}

/// The product of two graphs over their interface.
pub open spec fn product_of<E: EventLabel>(p: Sides<E::V>) -> Product<E::V> {
    product::<E>(p.n1, p.e1, p.l1, p.i1, p.n2, p.e2, p.l2, p.i2, p.interface)
}

/// A product of machines as a machine, its first node the initial state.
pub open spec fn as_machine(g: Product<MachineLabelView>) -> MachineView {
    MachineView { nodes: Seq::empty(), edges: g.edges, labels: g.labels, initial: 0 }
}

/// The relation between the nodes of two products that holds of two nodes
/// if the one stands for the pair of the other in the other order.
pub open spec fn mirrored(a: Seq<(usize, usize)>, b: Seq<(usize, usize)>) -> spec_fn(usize, usize) -> bool {
    |x: usize, y: usize| x < a.len() && y < b.len() && b[y as int] == (a[x as int].1, a[x as int].0)
}

/// The product moves on from a pair on the same labels whichever graph
/// comes first.
pub proof fn lemma_labels_swap<E: EventLabel>(p: Sides<E::V>, s: (usize, usize), l: E::V)
    ensures
        labels_at::<E>(swapped(p), (s.1, s.0)).contains(l) == labels_at::<E>(p, s).contains(l),
{
    let left_parts = parts::<E>(p.e1, p.l1, s.0, p.interface);
    let right_parts = parts::<E>(p.e2, p.l2, s.1, p.interface);
    let both = sorted::<E>(left_parts.0.to_set().intersect(right_parts.0.to_set()));
    assert(right_parts.0.to_set().intersect(left_parts.0.to_set()) =~= left_parts.0.to_set().intersect(right_parts.0.to_set()));
    let here = left_parts.1 + right_parts.1 + both;
    let there = right_parts.1 + left_parts.1 + both;
    assert(labels_at::<E>(p, s) == here);
    assert(labels_at::<E>(swapped(p), (s.1, s.0)) == there);
    if here.contains(l) {
        let i = choose|i: int| 0 <= i < here.len() && here[i] == l;
        if i < left_parts.1.len() {
            assert(there[right_parts.1.len() + i] == l);
        } else if i < left_parts.1.len() + right_parts.1.len() {
            assert(there[i - left_parts.1.len()] == l);
        } else {
            assert(there[i] == l);
        }
    }
    if there.contains(l) {
        let i = choose|i: int| 0 <= i < there.len() && there[i] == l;
        if i < right_parts.1.len() {
            assert(here[left_parts.1.len() + i] == l);
        } else if i < left_parts.1.len() + right_parts.1.len() {
            assert(here[i - right_parts.1.len()] == l);
        } else {
            assert(here[i] == l);
        }
    }
}

/// The product leads from a pair on a label to the same pair whichever
/// graph comes first.
pub proof fn lemma_moved_swap<E: EventLabel>(p: Sides<E::V>, s: (usize, usize), l: E::V)
    ensures
        moved::<E>(swapped(p), (s.1, s.0), l) == (moved::<E>(p, s, l).1, moved::<E>(p, s, l).0),
{
}

/// An edge of the product of two graphs has its like in the product of
/// the graphs in the other order: with the same label, from the node of
/// the same pair to the node of the same pair.
pub proof fn lemma_mirror_step(p: Sides<MachineLabelView>, a: usize, b: usize, e: int)
    requires
        sides_ok(p),
        sides_ok(swapped(p)),
        mirrored(product_of::<MachineLabel>(p).origin, product_of::<MachineLabel>(swapped(p)).origin)(a, b),
        0 <= e < product_of::<MachineLabel>(p).edges.len(),
        product_of::<MachineLabel>(p).edges[e].0 == a,
    ensures
        exists|y: usize| #[trigger] steps(as_machine(product_of::<MachineLabel>(swapped(p))), b, product_of::<MachineLabel>(p).labels[e], y) && mirrored(product_of::<MachineLabel>(p).origin, product_of::<MachineLabel>(swapped(p)).origin)(product_of::<MachineLabel>(p).edges[e].1, y),
{
    let q = swapped(p);
    let g = product_of::<MachineLabel>(p);
    let h = product_of::<MachineLabel>(q);
    lemma_product_shape::<MachineLabel>(p);
    lemma_product_shape::<MachineLabel>(q);
    let s = g.origin[a as int];
    let l = g.labels[e];
    assert(labels_at::<MachineLabel>(p, s).contains(l));
    lemma_labels_swap::<MachineLabel>(p, s, l);
    lemma_moved_swap::<MachineLabel>(p, s, l);
    assert(h.origin[b as int] == (s.1, s.0));
    let visit = labels_at::<MachineLabel>(q, h.origin[b as int]);
    let i = choose|i: int| 0 <= i < visit.len() && visit[i] == l;
    assert(!waits(h, b));
    assert(due(None::<(usize, int)>, b, i));
    assert(has_out(h, b, labels_at::<MachineLabel>(q, h.origin[b as int])[i]));
    let k = choose|k: int| 0 <= k < h.edges.len() && (#[trigger] h.edges[k]).0 == b && h.labels[k] == l;
    let y = h.edges[k].1;
    assert(h.edges[k] == (b, y));
    assert(as_machine(h).edges[k] == (b, y) && as_machine(h).labels[k] == l);
    assert(steps(as_machine(h), b, l, y));
    assert(h.origin[y as int] == moved::<MachineLabel>(q, h.origin[b as int], l));
    assert(g.origin[g.edges[e].1 as int] == moved::<MachineLabel>(p, s, l));
    assert(mirrored(g.origin, h.origin)(g.edges[e].1, y));
}

/// The product of two machines and the product of the two in the other
/// order are alike, node for node of the same pair, if both are
/// deterministic: holding one against the other finds nothing.
pub proof fn lemma_product_commutes(p: Sides<MachineLabelView>)
    requires
        sides_ok(p),
        deterministic(product_of::<MachineLabel>(p).edges, product_of::<MachineLabel>(p).labels),
        deterministic(product_of::<MachineLabel>(swapped(p)).edges, product_of::<MachineLabel>(swapped(p)).labels),
    ensures
        alike(mirrored(product_of::<MachineLabel>(p).origin, product_of::<MachineLabel>(swapped(p)).origin), as_machine(product_of::<MachineLabel>(p)), as_machine(product_of::<MachineLabel>(swapped(p)))),
{
    let q = swapped(p);
    assert(q.n1 * q.n2 == p.n1 * p.n2) by (nonlinear_arith)
        requires
            q.n1 == p.n2,
            q.n2 == p.n1,
    ;
    assert(sides_ok(q));
    assert(swapped(q) == p);
    let g = product_of::<MachineLabel>(p);
    let h = product_of::<MachineLabel>(q);
    lemma_product_shape::<MachineLabel>(p);
    lemma_product_shape::<MachineLabel>(q);
    let rel = mirrored(g.origin, h.origin);
    let back = mirrored(h.origin, g.origin);
    let l = as_machine(g);
    let r = as_machine(h);
    assert(rel(0usize, 0usize));
    assert forall|a: usize, b: usize, e: int| #[trigger] rel(a, b) && 0 <= e < l.edges.len() && (#[trigger] l.edges[e]).0 == a implies exists|y: usize| #[trigger] steps(r, b, l.labels[e], y) && rel(l.edges[e].1, y) by {
        lemma_mirror_step(p, a, b, e);
        let y = choose|y: usize| #[trigger] steps(as_machine(product_of::<MachineLabel>(swapped(p))), b, g.labels[e], y) && mirrored(g.origin, product_of::<MachineLabel>(swapped(p)).origin)(g.edges[e].1, y);
        assert(steps(r, b, l.labels[e], y) && rel(l.edges[e].1, y));
    }
    assert forall|a: usize, b: usize, f: int| #[trigger] rel(a, b) && 0 <= f < r.edges.len() && (#[trigger] r.edges[f]).0 == b implies exists|x: usize| #[trigger] steps(l, a, r.labels[f], x) && rel(x, r.edges[f].1) by {
        assert(back(b, a));
        lemma_mirror_step(q, b, a, f);
        let x = choose|x: usize| #[trigger] steps(as_machine(product_of::<MachineLabel>(swapped(q))), a, h.labels[f], x) && mirrored(h.origin, product_of::<MachineLabel>(swapped(q)).origin)(h.edges[f].1, x);
        assert(steps(l, a, r.labels[f], x));
        assert(back(h.edges[f].1, x));
        assert(rel(x, r.edges[f].1));
    }
}

} // verus!
