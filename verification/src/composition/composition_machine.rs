//! Machines: the product of two graphs over shared event types, the
//! projection of a swarm protocol onto a role, and the comparison of machines.
use crate::bounds::{below, lemma_pairs_bounded, lemma_subsets_bounded, two_to};
use crate::text::{join_texts, joined, texts_of};
use crate::composition::composition_swarm::{composable, event_at, indices, interface_with, label_events, labels_of_role, pos_of, role_events_step, LabelKey, RoleLabels, Subs};
use crate::composition::composition_types::{MachineType, ProjToMachineStates, ProjectionInfo, labelled, lemma_union_take, pair_key, unord_event_pair, union_of, BranchMap, EventLabel, ProtoInfo, ProtoInfoView, ProtoView, Subscriptions, SwarmGraph, UnordEventPair};
use crate::graph::{Digraph, NO_NODE};
use crate::machine::{Error, MachineGraph, OptionGraph, Side};
use crate::names::{Command, EventType, Role, State};
use crate::order::{all_valid, keys_of, same, Key, Order};
use crate::types::{MachineLabel, MachineLabelView, Named};
use crate::ordmap::{map_add, set_at, OrdMap};
use crate::ordset::{increasing, sorted, OrdSet};
use crate::seqs::{fold, fold_upto};
use crate::topology::{edges_from, edges_into, lemma_edge_ids_at};
use crate::types::{FromName, StateName};
use crate::composition::keys::{confusion_free_labels, funnelled, lemma_confusion_free, lemma_traced_funnelled, lemma_traced_none, lemma_traced_push, traced, lemma_among_carry, told_apart, lemma_among_among, lemma_deterministic, lemma_apart_among, lemma_sourced_apart, lemma_sourced_none, lemma_sourced_push, one_event_per_command, sourced};
use crate::composition::quotient::refined_well;
use crate::composition::search::seen_next;
use crate::composition::ways::may_follow;
use crate::composition::alike::{aligned, alike, lemma_aligned, lemma_alike_same};
use crate::composition::blocks::{agreed, apart, coarsest_below, finer, lemma_coarsest_first, lemma_coarsest_step, lemma_refined_finer, gathered, heads, lemma_gathered, lemma_gathered_none, lemma_gathered_push, lemma_heads, lemma_sweep_step, no_state, steady, steady_below, together};
use vstd::prelude::*;

verus! {

/// The name of the state that two states form together: the two names with
/// ` || ` between them.
pub fn gen_state_name<N: FromName>(n1: &N, n2: &N) -> (r: N)
    requires
        n1.valid(),
        n2.valid(),
    ensures
        r.valid(),
        N::name_of(r.key()) == N::name_of(n1.key()) + " || "@ + N::name_of(n2.key()),
{
    let mut name = n1.state_name().to_string();
    name.append(" || ");
    name.append(n2.state_name().as_str());
    N::from_name(name)
}

/// Whether every label of a list carries an event type.
pub open spec fn carries_events<E: EventLabel>(labels: Seq<E::V>) -> bool {
    forall|i: int| 0 <= i < labels.len() ==> E::has_event(#[trigger] labels[i])
}

/// Whether a label is one of either list.
pub open spec fn from_either<T>(l: T, labels1: Seq<T>, labels2: Seq<T>) -> bool {
    labels1.contains(l) || labels2.contains(l)
}

/// Takes in an edge: its label leads to its target.
pub open spec fn out_map_step<E: Key>(edges: Seq<(usize, usize)>, labels: Seq<E::V>) -> spec_fn(Map<E::V, usize>, usize) -> Map<E::V, usize> {
    |m: Map<E::V, usize>, e: usize| m.insert(labels[e as int], edges[e as int].1)
}

/// For each label on an edge that leaves a node the target of the earliest
/// such edge.
pub open spec fn out_map<E: Key>(edges: Seq<(usize, usize)>, labels: Seq<E::V>, src: usize) -> Map<E::V, usize> {
    fold(edges_from(edges, src), Map::<E::V, usize>::empty(), out_map_step::<E>(edges, labels))
}

/// For each label on an edge that leaves a node where it leads.
pub fn outgoing_map<N: Key, E: Key>(m: &Digraph<N, E>, src: usize) -> (r: OrdMap<E, usize>)
    requires
        m.wf(),
        src < m.nodes().len(),
    ensures
        r.wf(),
        r@ == out_map::<E>(m.edges(), m.labels(), src),
        forall|k: E::V| r@.dom().contains(k) ==> #[trigger] r@[k] < m.nodes().len() && m.labels().contains(k),
{
    let ids = m.out_edges(src);
    let ghost step = out_map_step::<E>(m.edges(), m.labels());
    let mut r: OrdMap<E, usize> = OrdMap::new();
    proof {
        m.lemma_wf();
    }
    let mut i: usize = 0;
    while i < ids.len()
        invariant
            i <= ids.len(),
            m.wf(),
            m.edges().len() == m.labels().len(),
            forall|q: int| 0 <= q < ids@.len() ==> #[trigger] ids@[q] < m.edges().len(),
            step == out_map_step::<E>(m.edges(), m.labels()),
            r.wf(),
            r@ == fold_upto(ids@, Map::<E::V, usize>::empty(), step, i as int),
            forall|k: E::V| r@.dom().contains(k) ==> #[trigger] r@[k] < m.nodes().len() && m.labels().contains(k),
        decreases ids.len() - i,
    {
        let e = ids[i];
        let target = m.target(e);
        let label = m.label(e).duplicate();
        proof {
            assert(m.labels()[e as int] == label.key());
            assert(m.labels().contains(label.key()));
        }
        r.insert(label, target);
        i += 1;
    }
    r
}

/// Takes in an edge: its label goes with the interfacing ones if its event
/// type is in the interface, else with the others.
pub open spec fn part_step<E: EventLabel>(labels: Seq<E::V>, interface: Set<Seq<char>>) -> spec_fn((Seq<E::V>, Seq<E::V>), usize) -> (Seq<E::V>, Seq<E::V>) {
    |acc: (Seq<E::V>, Seq<E::V>), e: usize|
        if interface.contains(E::event_of(labels[e as int])) {
            (acc.0.push(labels[e as int]), acc.1)
        } else {
            (acc.0, acc.1.push(labels[e as int]))
        }
}

/// The labels of the edges that leave a node, the edge added last first:
/// those with an event type of the interface, and the others.
pub open spec fn parts<E: EventLabel>(edges: Seq<(usize, usize)>, labels: Seq<E::V>, node: usize, interface: Set<Seq<char>>) -> (Seq<E::V>, Seq<E::V>) {
    fold(edges_from(edges, node), (Seq::<E::V>::empty(), Seq::<E::V>::empty()), part_step::<E>(labels, interface))
}

/// Splits the labels of the edges that leave a node by whether their event
/// types are in the interface.
pub fn partitioned<N: Key, E: EventLabel>(m: &Digraph<N, E>, node: usize, interface: &OrdSet<EventType>) -> (r: (Vec<E>, Vec<E>))
    requires
        m.wf(),
        carries_events::<E>(m.labels()),
        node < m.nodes().len(),
        interface.wf(),
    ensures
        (keys_of(r.0@), keys_of(r.1@)) == parts::<E>(m.edges(), m.labels(), node, interface@),
        all_valid(r.0@),
        all_valid(r.1@),
        forall|i: int| 0 <= i < r.0@.len() ==> m.labels().contains(#[trigger] r.0@[i].key()),
        forall|i: int| 0 <= i < r.1@.len() ==> m.labels().contains(#[trigger] r.1@[i].key()),
{
    let ids = m.out_edges(node);
    let ghost step = part_step::<E>(m.labels(), interface@);
    let mut yes: Vec<E> = Vec::new();
    let mut no: Vec<E> = Vec::new();
    proof {
        m.lemma_wf();
        assert(keys_of(yes@) =~= Seq::<E::V>::empty());
        assert(keys_of(no@) =~= Seq::<E::V>::empty());
    }
    let mut i: usize = 0;
    while i < ids.len()
        invariant
            i <= ids.len(),
            m.wf(),
            carries_events::<E>(m.labels()),
            m.edges().len() == m.labels().len(),
            forall|q: int| 0 <= q < ids@.len() ==> #[trigger] ids@[q] < m.edges().len(),
            interface.wf(),
            step == part_step::<E>(m.labels(), interface@),
            (keys_of(yes@), keys_of(no@)) == fold_upto(ids@, (Seq::<E::V>::empty(), Seq::<E::V>::empty()), step, i as int),
            all_valid(yes@),
            all_valid(no@),
            forall|q: int| 0 <= q < yes@.len() ==> m.labels().contains(#[trigger] yes@[q].key()),
            forall|q: int| 0 <= q < no@.len() ==> m.labels().contains(#[trigger] no@[q].key()),
        decreases ids.len() - i,
    {
        let label = m.label(ids[i]);
        proof {
            assert(m.labels()[ids@[i as int] as int] == label.key());
            assert(m.labels().contains(label.key()));
        }
        let et = label.get_event_type();
        let ghost ky = keys_of(yes@);
        let ghost kn = keys_of(no@);
        if interface.contains(&et) {
            yes.push(label.duplicate());
            assert(keys_of(yes@) =~= ky.push(label.key()));
        } else {
            no.push(label.duplicate());
            assert(keys_of(no@) =~= kn.push(label.key()));
        }
        i += 1;
    }
    (yes, no)
}

/// The labels on which the product moves on from a pair of nodes: the
/// labels outside the interface of the first node, those of the second, and
/// the interfacing labels that both nodes have, in increasing order.
pub open spec fn to_visit<E: EventLabel>(edges1: Seq<(usize, usize)>, labels1: Seq<E::V>, s1: usize, edges2: Seq<(usize, usize)>, labels2: Seq<E::V>, s2: usize, interface: Set<Seq<char>>) -> Seq<E::V> {
    let first = parts::<E>(edges1, labels1, s1, interface);
    let second = parts::<E>(edges2, labels2, s2, interface);
    first.1 + second.1 + sorted::<E>(first.0.to_set().intersect(second.0.to_set()))
}

/// The labels on which the product moves on from a pair of nodes.
pub fn outgoing_to_visit<N: Key, E: EventLabel>(m1: &Digraph<N, E>, s1: usize, m2: &Digraph<N, E>, s2: usize, interface: &OrdSet<EventType>) -> (r: Vec<E>)
    requires
        m1.wf(),
        m2.wf(),
        carries_events::<E>(m1.labels()),
        carries_events::<E>(m2.labels()),
        s1 < m1.nodes().len(),
        s2 < m2.nodes().len(),
        interface.wf(),
    ensures
        keys_of(r@) == to_visit::<E>(m1.edges(), m1.labels(), s1, m2.edges(), m2.labels(), s2, interface@),
        all_valid(r@),
        forall|i: int| 0 <= i < r@.len() ==> from_either(#[trigger] r@[i].key(), m1.labels(), m2.labels()),
{
    let (interfacing1, mut non_interfacing1) = partitioned(m1, s1, interface);
    let (interfacing2, mut non_interfacing2) = partitioned(m2, s2, interface);
    let set1: OrdSet<E> = OrdSet::from_vec(&interfacing1);
    let set2: OrdSet<E> = OrdSet::from_vec(&interfacing2);
    let both = set1.intersection(&set2);
    let mut in_both = both.to_vec();
    proof {
        both.lemma_wf();
        assert forall|i: int| 0 <= i < in_both@.len() implies m1.labels().contains(#[trigger] in_both@[i].key()) by {
            assert(keys_of(in_both@)[i] == in_both@[i].key());
            assert(both.keys()[i] == in_both@[i].key());
            assert(both.keys().contains(both.keys()[i]));
            assert(both@.contains(both.keys()[i]));
            assert(set1@.contains(in_both@[i].key()));
            let q = choose|q: int| 0 <= q < keys_of(interfacing1@).len() && keys_of(interfacing1@)[q] == in_both@[i].key();
            assert(interfacing1@[q].key() == in_both@[i].key());
        }
    }
    let ghost a = non_interfacing1@;
    let ghost b = non_interfacing2@;
    let ghost c = in_both@;
    non_interfacing1.append(&mut non_interfacing2);
    non_interfacing1.append(&mut in_both);
    proof {
        assert(non_interfacing1@ =~= a + b + c);
        assert(keys_of(non_interfacing1@) =~= keys_of(a) + keys_of(b) + keys_of(c));
    }
    non_interfacing1
}

/// Where the product leads from a pair of nodes on a label: each side
/// that has the label moves to where its label leads, the other stays.
pub open spec fn dst_of<K>(map1: Map<K, usize>, map2: Map<K, usize>, s: (usize, usize), e: K) -> (usize, usize) {
    if map1.dom().contains(e) && map2.dom().contains(e) {
        (map1[e], map2[e])
    } else if map1.dom().contains(e) {
        (map1[e], s.1)
    } else if map2.dom().contains(e) {
        (s.0, map2[e])
    } else {
        s
    }
}

/// The product of two graphs as far as it is built: the pair of nodes that
/// each node stands for, the edges with their labels, and the nodes whose
/// pairs wait for their visit.
pub struct Product<L> {
    pub origin: Seq<(usize, usize)>,
    pub edges: Seq<(usize, usize)>,
    pub labels: Seq<L>,
    pub worklist: Seq<(usize, (usize, usize))>,
}

/// The position of a pair among the pairs of the nodes.
pub open spec fn pair_index(origin: Seq<(usize, usize)>, p: (usize, usize)) -> int {
    choose|i: int| 0 <= i < origin.len() && origin[i] == p
}

/// Takes in a label on which the product moves on from a node: an edge
/// leads to the node of the pair that is reached, which is a new node, and
/// waits for its visit, unless the pair has a node.
pub open spec fn product_edge_step<L>(map1: Map<L, usize>, map2: Map<L, usize>, src: usize, s: (usize, usize)) -> spec_fn(Product<L>, L) -> Product<L> {
    |st: Product<L>, e: L|
        {
            let dst = dst_of(map1, map2, s, e);
            if st.origin.contains(dst) {
                Product { origin: st.origin, edges: st.edges.push((src, pair_index(st.origin, dst) as usize)), labels: st.labels.push(e), worklist: st.worklist }
            } else {
                Product { origin: st.origin.push(dst), edges: st.edges.push((src, st.origin.len() as usize)), labels: st.labels.push(e), worklist: st.worklist.push((st.origin.len() as usize, dst)) }
            }
        }
}

/// Visits the node that has waited the shortest: the product moves on from
/// its pair on each label of `to_visit`.
pub open spec fn product_pop<E: EventLabel>(edges1: Seq<(usize, usize)>, labels1: Seq<E::V>, edges2: Seq<(usize, usize)>, labels2: Seq<E::V>, interface: Set<Seq<char>>, st: Product<E::V>) -> Product<E::V> {
    if st.worklist.len() == 0 {
        st
    } else {
        let src = st.worklist.last().0;
        let s = st.worklist.last().1;
        fold(
            to_visit::<E>(edges1, labels1, s.0, edges2, labels2, s.1, interface),
            Product { origin: st.origin, edges: st.edges, labels: st.labels, worklist: st.worklist.drop_last() },
            product_edge_step(out_map::<E>(edges1, labels1, s.0), out_map::<E>(edges2, labels2, s.1), src, s),
        )
    }
}

/// The product after a number of visits, from the initial pair on.
pub open spec fn product_run<E: EventLabel>(edges1: Seq<(usize, usize)>, labels1: Seq<E::V>, i1: usize, edges2: Seq<(usize, usize)>, labels2: Seq<E::V>, i2: usize, interface: Set<Seq<char>>, visits: nat) -> Product<E::V>
    decreases visits,
{
    if visits == 0 {
        Product { origin: seq![(i1, i2)], edges: Seq::empty(), labels: Seq::empty(), worklist: seq![(0usize, (i1, i2))] }
    } else {
        product_pop::<E>(edges1, labels1, edges2, labels2, interface, product_run::<E>(edges1, labels1, i1, edges2, labels2, i2, interface, (visits - 1) as nat))
    }
}

/// The product of two graphs over an interface, from a pair of initial
/// nodes on: the pairs of nodes that are found from the initial pair, in the
/// order in which they are found, and the edges between them, where a label
/// outside the interface moves the side that has it and an interfacing label
/// that both sides have moves both. With `n1` and `n2` nodes there are no
/// more than `n1 * n2` pairs to visit.
pub open spec fn product<E: EventLabel>(n1: nat, edges1: Seq<(usize, usize)>, labels1: Seq<E::V>, i1: usize, n2: nat, edges2: Seq<(usize, usize)>, labels2: Seq<E::V>, i2: usize, interface: Set<Seq<char>>) -> Product<E::V> {
    product_run::<E>(edges1, labels1, i1, edges2, labels2, i2, interface, n1 * n2)
}

/// Once no node waits, further visits change nothing.
pub proof fn lemma_product_done<E: EventLabel>(edges1: Seq<(usize, usize)>, labels1: Seq<E::V>, i1: usize, edges2: Seq<(usize, usize)>, labels2: Seq<E::V>, i2: usize, interface: Set<Seq<char>>, visits: nat, more: nat)
    requires
        product_run::<E>(edges1, labels1, i1, edges2, labels2, i2, interface, visits).worklist.len() == 0,
    ensures
        product_run::<E>(edges1, labels1, i1, edges2, labels2, i2, interface, visits + more) == product_run::<E>(edges1, labels1, i1, edges2, labels2, i2, interface, visits),
    decreases more,
{
    if more > 0 {
        lemma_product_done::<E>(edges1, labels1, i1, edges2, labels2, i2, interface, visits, (more - 1) as nat);
    }
}

/// What holds of the product while it is built: each node stands for a
/// pair that the index of pairs leads back to, with a weight made from the
/// weights of the pair; each pair that waits for its visit is a node; and
/// each label is one of either graph.
pub open spec fn product_inv<N: Key, E: EventLabel, F: Fn(&N, &N) -> N>(m1: Digraph<N, E>, m2: Digraph<N, E>, gen_node: F, machine: Digraph<N, E>, node_map: OrdMap<(usize, usize), usize>, worklist: Seq<(usize, (usize, usize))>, origin: Seq<(usize, usize)>) -> bool {
    &&& machine.wf()
    &&& node_map.wf()
    &&& origin.len() == machine.nodes().len()
    &&& origin.len() > 0
    &&& forall|x: int| 0 <= x < origin.len() ==> {
        &&& (#[trigger] origin[x]).0 < m1.nodes().len()
        &&& origin[x].1 < m2.nodes().len()
        &&& node_map.has(origin[x])
        &&& node_map@[origin[x]] == x
        &&& gen_node.ensures((&m1.weights()[origin[x].0 as int], &m2.weights()[origin[x].1 as int]), machine.weights()[x])
    }
    &&& forall|p: (usize, usize)| node_map.has(p) ==> #[trigger] node_map@[p] < origin.len() && origin[node_map@[p] as int] == p
    &&& forall|w: int| 0 <= w < worklist.len() ==> (#[trigger] worklist[w]).0 < origin.len() && origin[worklist[w].0 as int] == worklist[w].1
    &&& carries_events::<E>(machine.labels())
    &&& machine.edges().len() == machine.labels().len()
    &&& forall|k: int| 0 <= k < machine.labels().len() ==> from_either(#[trigger] machine.labels()[k], m1.labels(), m2.labels())
}

/// The index of pairs holds as many pairs as there are nodes, and no more
/// than there are pairs.
pub proof fn lemma_product_bounded<N: Key, E: EventLabel, F: Fn(&N, &N) -> N>(m1: Digraph<N, E>, m2: Digraph<N, E>, gen_node: F, machine: Digraph<N, E>, node_map: OrdMap<(usize, usize), usize>, worklist: Seq<(usize, (usize, usize))>, origin: Seq<(usize, usize)>)
    requires
        product_inv(m1, m2, gen_node, machine, node_map, worklist, origin),
    ensures
        node_map.keys().len() <= m1.nodes().len() * m2.nodes().len(),
        origin.no_duplicates(),
        forall|p: (usize, usize)| node_map.has(p) <==> origin.contains(p),
        forall|p: (usize, usize)| origin.contains(p) ==> #[trigger] pair_index(origin, p) == node_map@[p],
{
    node_map.lemma_wf();
    assert forall|i: int| 0 <= i < node_map.keys().len() implies (#[trigger] node_map.keys()[i]).0 < m1.nodes().len() && node_map.keys()[i].1 < m2.nodes().len() by {
        let p = node_map.keys()[i];
        assert(node_map.has(p));
        assert(origin[node_map@[p] as int] == p);
    }
    lemma_pairs_bounded(node_map.keys(), m1.nodes().len(), m2.nodes().len());
    assert forall|x: int, y: int| 0 <= x < origin.len() && 0 <= y < origin.len() && x != y implies origin[x] != origin[y] by {
        assert(node_map@[origin[x]] == x);
        assert(node_map@[origin[y]] == y);
    }
    assert forall|p: (usize, usize)| node_map.has(p) <==> origin.contains(p) by {
        if node_map.has(p) {
            assert(origin[node_map@[p] as int] == p);
        }
        if origin.contains(p) {
            let i = choose|i: int| 0 <= i < origin.len() && origin[i] == p;
            assert(node_map.has(origin[i]));
        }
    }
    assert forall|p: (usize, usize)| origin.contains(p) implies #[trigger] pair_index(origin, p) == node_map@[p] by {
        let i = pair_index(origin, p);
        assert(0 <= i < origin.len() && origin[i] == p);
        assert(node_map@[origin[i]] == i);
    }
}

/// The product of two graphs over an interface, from a pair of initial
/// nodes on: see `product`. The weight of each node is made from the
/// weights of its pair.
pub fn compose<N: Key, E: EventLabel, F: Fn(&N, &N) -> N>(m1: Digraph<N, E>, i1: usize, m2: Digraph<N, E>, i2: usize, interface: OrdSet<EventType>, gen_node: F) -> (r: (Digraph<N, E>, usize))
    requires
        m1.wf(),
        m2.wf(),
        carries_events::<E>(m1.labels()),
        carries_events::<E>(m2.labels()),
        i1 < m1.nodes().len(),
        i2 < m2.nodes().len(),
        interface.wf(),
        forall|a: &N, b: &N| a.valid() && b.valid() ==> #[trigger] gen_node.requires((a, b)),
        forall|a: &N, b: &N, c: N| #[trigger] gen_node.ensures((a, b), c) ==> c.valid(),
    ensures
        r.0.wf(),
        r.1 == 0,
        r.0.nodes().len() > 0,
        carries_events::<E>(r.0.labels()),
        forall|k: int| 0 <= k < r.0.labels().len() ==> from_either(#[trigger] r.0.labels()[k], m1.labels(), m2.labels()),
        ({
            let p = product::<E>(m1.nodes().len(), m1.edges(), m1.labels(), i1, m2.nodes().len(), m2.edges(), m2.labels(), i2, interface@);
            &&& r.0.edges() == p.edges
            &&& r.0.labels() == p.labels
            &&& r.0.nodes().len() == p.origin.len()
            &&& forall|x: int| 0 <= x < p.origin.len() ==> {
                &&& (#[trigger] p.origin[x]).0 < m1.nodes().len()
                &&& p.origin[x].1 < m2.nodes().len()
                &&& gen_node.ensures((&m1.weights()[p.origin[x].0 as int], &m2.weights()[p.origin[x].1 as int]), r.0.weights()[x])
            }
        }),
{
    let mut machine: Digraph<N, E> = Digraph::new();
    let mut node_map: OrdMap<(usize, usize), usize> = OrdMap::new();
    let ghost n1 = m1.nodes().len();
    let ghost n2 = m2.nodes().len();
    let ghost e1 = m1.edges();
    let ghost l1 = m1.labels();
    let ghost e2 = m2.edges();
    let ghost l2 = m2.labels();
    proof {
        m1.lemma_wf();
        m2.lemma_wf();
    }
    let combined_initial = machine.add_node(gen_node(m1.node(i1), m2.node(i2)));
    node_map.insert((i1, i2), combined_initial);
    let mut worklist: Vec<(usize, (usize, usize))> = Vec::new();
    worklist.push((combined_initial, (i1, i2)));
    let ghost mut origin: Seq<(usize, usize)> = seq![(i1, i2)];
    let ghost mut visits: nat = 0;
    proof {
        machine.lemma_wf();
        node_map.lemma_wf();
        assert(node_map.has((i1, i2)));
        assert(product_inv(m1, m2, gen_node, machine, node_map, worklist@, origin));
        lemma_product_bounded(m1, m2, gen_node, machine, node_map, worklist@, origin);
        assert(worklist@ =~= seq![(0usize, (i1, i2))]);
        node_map.lemma_wf();
        crate::ordset::increasing_no_duplicates::<(usize, usize)>(node_map.keys());
        assert(node_map.keys().to_set() =~= Set::<(usize, usize)>::empty().insert((i1, i2)));
        assert(node_map.keys().len() == 1);
    }
    while worklist.len() > 0
        invariant
            m1.wf(),
            m2.wf(),
            carries_events::<E>(m1.labels()),
            carries_events::<E>(m2.labels()),
            n1 == m1.nodes().len(),
            n2 == m2.nodes().len(),
            e1 == m1.edges(),
            l1 == m1.labels(),
            e2 == m2.edges(),
            l2 == m2.labels(),
            interface.wf(),
            forall|a: &N, b: &N| a.valid() && b.valid() ==> #[trigger] gen_node.requires((a, b)),
            forall|a: &N, b: &N, c: N| #[trigger] gen_node.ensures((a, b), c) ==> c.valid(),
            product_inv(m1, m2, gen_node, machine, node_map, worklist@, origin),
            node_map.keys().len() <= n1 * n2,
            node_map.keys().len() == origin.len(),
            visits + worklist@.len() == origin.len(),
            (Product { origin, edges: machine.edges(), labels: machine.labels(), worklist: worklist@ }) == product_run::<E>(e1, l1, i1, e2, l2, i2, interface@, visits),
        decreases 2 * (n1 * n2 - node_map.keys().len()) + worklist@.len(),
    {
        let ghost measure = 2 * (n1 * n2 - node_map.keys().len()) + worklist@.len();
        let ghost at_pop = Product { origin, edges: machine.edges(), labels: machine.labels(), worklist: worklist@ };
        let (src, (old_src1, old_src2)) = worklist.pop().unwrap();
        let map1 = outgoing_map(&m1, old_src1);
        let map2 = outgoing_map(&m2, old_src2);
        let outgoing_edges = outgoing_to_visit(&m1, old_src1, &m2, old_src2, &interface);
        let ghost visit = keys_of(outgoing_edges@);
        let ghost step = product_edge_step(map1@, map2@, src, (old_src1, old_src2));
        let ghost popped = Product { origin, edges: machine.edges(), labels: machine.labels(), worklist: worklist@ };
        proof {
            assert(at_pop.worklist.last() == (src, (old_src1, old_src2)));
            assert(worklist@ =~= at_pop.worklist.drop_last());
        }
        let mut k: usize = 0;
        while k < outgoing_edges.len()
            invariant
                k <= outgoing_edges@.len(),
                m1.wf(),
                m2.wf(),
                carries_events::<E>(m1.labels()),
                carries_events::<E>(m2.labels()),
                n1 == m1.nodes().len(),
                n2 == m2.nodes().len(),
                old_src1 < n1,
                old_src2 < n2,
                forall|a: &N, b: &N| a.valid() && b.valid() ==> #[trigger] gen_node.requires((a, b)),
                forall|a: &N, b: &N, c: N| #[trigger] gen_node.ensures((a, b), c) ==> c.valid(),
                map1.wf(),
                map2.wf(),
                forall|q: E::V| map1@.dom().contains(q) ==> #[trigger] map1@[q] < n1,
                forall|q: E::V| map2@.dom().contains(q) ==> #[trigger] map2@[q] < n2,
                visit == keys_of(outgoing_edges@),
                step == product_edge_step(map1@, map2@, src, (old_src1, old_src2)),
                all_valid(outgoing_edges@),
                forall|q: int| 0 <= q < outgoing_edges@.len() ==> from_either(#[trigger] outgoing_edges@[q].key(), m1.labels(), m2.labels()),
                src < origin.len(),
                product_inv(m1, m2, gen_node, machine, node_map, worklist@, origin),
                node_map.keys().len() <= n1 * n2,
                node_map.keys().len() == origin.len(),
                visits + 1 + worklist@.len() == origin.len(),
                2 * (n1 * n2 - node_map.keys().len()) + worklist@.len() < measure,
                (Product { origin, edges: machine.edges(), labels: machine.labels(), worklist: worklist@ }) == fold_upto(visit, popped, step, k as int),
            decreases outgoing_edges@.len() - k,
        {
            let e = outgoing_edges[k].duplicate();
            let ghost ek = e.key();
            proof {
                assert(visit[k as int] == ek);
                assert(from_either(outgoing_edges@[k as int].key(), m1.labels(), m2.labels()));
                if m1.labels().contains(ek) {
                    let q = choose|q: int| 0 <= q < m1.labels().len() && m1.labels()[q] == ek;
                    assert(E::has_event(m1.labels()[q]));
                } else {
                    let q = choose|q: int| 0 <= q < m2.labels().len() && m2.labels()[q] == ek;
                    assert(E::has_event(m2.labels()[q]));
                }
            }
            let (dst1, dst2) = match (map1.get(&e), map2.get(&e)) {
                (Some(a), Some(b)) => (*a, *b),
                (Some(a), None) => (*a, old_src2),
                (None, Some(b)) => (old_src1, *b),
                (None, None) => (old_src1, old_src2),
            };
            proof {
                assert((dst1, dst2) == dst_of(map1@, map2@, (old_src1, old_src2), ek));
                m1.lemma_wf();
                m2.lemma_wf();
                lemma_product_bounded(m1, m2, gen_node, machine, node_map, worklist@, origin);
            }
            let ghost before = machine;
            let ghost map_before = node_map;
            let ghost origin_before = origin;
            match node_map.get(&(dst1, dst2)) {
                Some(dst) => {
                    let dst = *dst;
                    machine.add_edge(src, dst, e);
                    proof {
                        assert(product_inv(m1, m2, gen_node, machine, node_map, worklist@, origin));
                    }
                },
                None => {
                    let weight = gen_node(m1.node(dst1), m2.node(dst2));
                    let ghost held = weight;
                    let new_dst = machine.add_node(weight);
                    machine.add_edge(src, new_dst, e);
                    node_map.insert((dst1, dst2), new_dst);
                    worklist.push((new_dst, (dst1, dst2)));
                    proof {
                        origin = origin.push((dst1, dst2));
                        assert forall|p: (usize, usize)| node_map.has(p) implies #[trigger] node_map@[p] < origin.len() && origin[node_map@[p] as int] == p by {
                            if p != (dst1, dst2) {
                                assert(map_before.has(p));
                            }
                        }
                        assert forall|x: int| 0 <= x < origin.len() implies {
                            &&& (#[trigger] origin[x]).0 < m1.nodes().len()
                            &&& origin[x].1 < m2.nodes().len()
                            &&& node_map.has(origin[x])
                            &&& node_map@[origin[x]] == x
                            &&& gen_node.ensures((&m1.weights()[origin[x].0 as int], &m2.weights()[origin[x].1 as int]), machine.weights()[x])
                        } by {
                            machine.lemma_wf();
                            before.lemma_wf();
                            if x < origin_before.len() {
                                assert(origin[x] == origin_before[x]);
                                assert(map_before.has(origin_before[x]));
                                assert(origin[x] != (dst1, dst2));
                                assert(machine.weights()[x] == before.weights()[x]);
                            } else {
                                assert(machine.weights()[x] == held);
                            }
                        }
                        assert(product_inv(m1, m2, gen_node, machine, node_map, worklist@, origin));
                        lemma_product_bounded(m1, m2, gen_node, machine, node_map, worklist@, origin);
                        map_before.lemma_wf();
                        node_map.lemma_wf();
                        assert(node_map.keys().len() == map_before.keys().len() + 1) by {
                            assert(node_map.keys().to_set() == map_before.keys().to_set().insert((dst1, dst2)));
                            assert(!map_before.keys().to_set().contains((dst1, dst2)));
                            crate::ordset::increasing_no_duplicates::<(usize, usize)>(node_map.keys());
                            crate::ordset::increasing_no_duplicates::<(usize, usize)>(map_before.keys());
                        }
                    }
                },
            }
            k += 1;
        }
        proof {
            visits = visits + 1;
        }
    }
    proof {
        machine.lemma_wf();
        let total = (n1 * n2) as nat;
        assert(visits <= total);
        lemma_product_done::<E>(e1, l1, i1, e2, l2, i2, interface@, visits, (total - visits) as nat);
        lemma_product_bounded(m1, m2, gen_node, machine, node_map, worklist@, origin);
    }
    (machine, combined_initial)
}

/// A search through a graph as far as it has come: the nodes that wait for
/// their visit, the nodes that have been reached, and the edges found.
pub struct Search {
    pub stack: Seq<usize>,
    pub visited: Set<usize>,
    pub found: Seq<usize>,
}

/// Takes in an edge that leaves a visited node: it is found if the role
/// observes its event type; else its target waits for a visit unless it
/// has been reached.
pub open spec fn search_edge_step(edges: Seq<(usize, usize)>, labels: Seq<LabelKey>, sub: Set<Seq<char>>) -> spec_fn(Search, usize) -> Search {
    |st: Search, e: usize|
        if sub.contains(event_at(labels, e)) {
            Search { stack: st.stack, visited: st.visited, found: st.found.push(e) }
        } else if st.visited.contains(edges[e as int].1) {
            st
        } else {
            Search { stack: st.stack.push(edges[e as int].1), visited: st.visited.insert(edges[e as int].1), found: st.found }
        }
}

/// Visits the node that has waited the shortest.
pub open spec fn search_pop(edges: Seq<(usize, usize)>, labels: Seq<LabelKey>, sub: Set<Seq<char>>, st: Search) -> Search {
    if st.stack.len() == 0 {
        st
    } else {
        fold(edges_from(edges, st.stack.last()), Search { stack: st.stack.drop_last(), visited: st.visited, found: st.found }, search_edge_step(edges, labels, sub))
    }
}

/// The search from a node after a number of visits.
pub open spec fn search_run(edges: Seq<(usize, usize)>, labels: Seq<LabelKey>, sub: Set<Seq<char>>, node: usize, visits: nat) -> Search
    decreases visits,
{
    if visits == 0 {
        Search { stack: seq![node], visited: Set::<usize>::empty().insert(node), found: Seq::empty() }
    } else {
        search_pop(edges, labels, sub, search_run(edges, labels, sub, node, (visits - 1) as nat))
    }
}

/// The edges with an event type that the role observes which are found
/// from a node by way of edges with event types that it does not observe.
/// A graph of `nodes` nodes takes no more than so many visits.
pub open spec fn interesting_edges(nodes: nat, edges: Seq<(usize, usize)>, labels: Seq<LabelKey>, sub: Set<Seq<char>>, node: usize) -> Seq<usize> {
    search_run(edges, labels, sub, node, nodes).found
}

/// Once no node waits, further visits change nothing.
pub proof fn lemma_search_done(edges: Seq<(usize, usize)>, labels: Seq<LabelKey>, sub: Set<Seq<char>>, node: usize, visits: nat, more: nat)
    requires
        search_run(edges, labels, sub, node, visits).stack.len() == 0,
    ensures
        search_run(edges, labels, sub, node, visits + more) == search_run(edges, labels, sub, node, visits),
    decreases more,
{
    if more > 0 {
        lemma_search_done(edges, labels, sub, node, visits, (more - 1) as nat);
    }
}

/// The edges with an event type of the subscription that are found from a
/// node by way of edges with other event types: see `interesting_edges`.
pub fn find_interesting_edges(swarm: &SwarmGraph, sub: &OrdSet<EventType>, node: usize) -> (r: Vec<usize>)
    requires
        swarm.wf(),
        labelled(swarm.labels()),
        sub.wf(),
        node < swarm.nodes().len(),
    ensures
        r@ == interesting_edges(swarm.nodes().len(), swarm.edges(), swarm.labels(), sub@, node),
        forall|i: int| 0 <= i < r@.len() ==> #[trigger] r@[i] < swarm.edges().len() && sub@.contains(event_at(swarm.labels(), r@[i])),
        forall|e: usize| #[trigger] r@.contains(e) <==> seen_next(swarm.edges(), swarm.labels(), sub@, node, e),
{
    proof {
        swarm.lemma_wf();
        assert forall|e: usize| #[trigger] interesting_edges(swarm.nodes().len(), swarm.edges(), swarm.labels(), sub@, node).contains(e) <==> seen_next(swarm.edges(), swarm.labels(), sub@, node, e) by {
            crate::composition::search::lemma_interesting_edges(swarm.nodes().len(), swarm.edges(), swarm.labels(), sub@, node, e);
        }
    }
    let ghost n = swarm.nodes().len();
    let ghost edges = swarm.edges();
    let ghost labels = swarm.labels();
    let ghost step = search_edge_step(edges, labels, sub@);
    let mut stack: Vec<usize> = Vec::new();
    stack.push(node);
    let mut visited: OrdSet<usize> = OrdSet::singleton(node);
    let mut interesting: Vec<usize> = Vec::new();
    let ghost mut visits: nat = 0;
    proof {
        swarm.lemma_wf();
        visited.lemma_wf();
        assert(stack@ =~= seq![node]);
        assert(visited.keys().len() == 1) by {
            assert(visited@ =~= Set::<usize>::empty().insert(node));
            assert(visited@.len() == 1);
        }
        lemma_ids_bounded_set(&visited, n);
    }
    while stack.len() > 0
        invariant
            swarm.wf(),
            labelled(swarm.labels()),
            sub.wf(),
            n == swarm.nodes().len(),
            edges == swarm.edges(),
            labels == swarm.labels(),
            edges.len() == labels.len(),
            step == search_edge_step(edges, labels, sub@),
            visited.wf(),
            forall|x: usize| visited@.contains(x) ==> x < n,
            forall|i: int| 0 <= i < stack@.len() ==> #[trigger] stack@[i] < n,
            visited.keys().len() <= n,
            visits + stack@.len() <= visited.keys().len(),
            (Search { stack: stack@, visited: visited@, found: interesting@ }) == search_run(edges, labels, sub@, node, visits),
            forall|i: int| 0 <= i < interesting@.len() ==> #[trigger] interesting@[i] < edges.len() && sub@.contains(event_at(labels, interesting@[i])),
        decreases 2 * (n - visited.keys().len()) + stack@.len(),
    {
        let ghost measure = 2 * (n - visited.keys().len()) + stack@.len();
        let ghost at_pop = Search { stack: stack@, visited: visited@, found: interesting@ };
        let current = stack.pop().unwrap();
        let ids = swarm.out_edges(current);
        let ghost popped = Search { stack: stack@, visited: visited@, found: interesting@ };
        proof {
            assert(stack@ =~= at_pop.stack.drop_last());
        }
        let mut i: usize = 0;
        while i < ids.len()
            invariant
                i <= ids.len(),
                swarm.wf(),
                labelled(swarm.labels()),
                sub.wf(),
                n == swarm.nodes().len(),
                edges == swarm.edges(),
                labels == swarm.labels(),
                edges.len() == labels.len(),
                step == search_edge_step(edges, labels, sub@),
                forall|q: int| 0 <= q < ids@.len() ==> #[trigger] ids@[q] < edges.len(),
                visited.wf(),
                forall|x: usize| visited@.contains(x) ==> x < n,
                forall|q: int| 0 <= q < stack@.len() ==> #[trigger] stack@[q] < n,
                visited.keys().len() <= n,
                visits + 1 + stack@.len() <= visited.keys().len(),
                2 * (n - visited.keys().len()) + stack@.len() < measure,
                (Search { stack: stack@, visited: visited@, found: interesting@ }) == fold_upto(ids@, popped, step, i as int),
                forall|q: int| 0 <= q < interesting@.len() ==> #[trigger] interesting@[q] < edges.len() && sub@.contains(event_at(labels, interesting@[q])),
            decreases ids.len() - i,
        {
            let e = ids[i];
            let et = swarm.label(e).get_event_type();
            if sub.contains(&et) {
                interesting.push(e);
            } else {
                let target = swarm.target(e);
                if !visited.contains(&target) {
                    let ghost before = visited;
                    stack.push(target);
                    visited.insert(target);
                    proof {
                        before.lemma_wf();
                        visited.lemma_wf();
                        assert(visited@.len() == before@.len() + 1);
                        lemma_ids_bounded_set(&visited, n);
                    }
                }
            }
            i += 1;
        }
        proof {
            visits = visits + 1;
        }
    }
    proof {
        assert(visits <= n);
        lemma_search_done(edges, labels, sub@, node, visits, (n - visits) as nat);
    }
    interesting
}

/// A set of indices below a bound holds no more than the bound.
pub proof fn lemma_ids_bounded_set(set: &OrdSet<usize>, n: nat)
    requires
        set.wf(),
        forall|x: usize| set@.contains(x) ==> x < n,
    ensures
        set.keys().len() <= n,
{
    set.lemma_wf();
    assert forall|i: int| 0 <= i < set.keys().len() implies #[trigger] set.keys()[i] < n by {
        assert(set.keys().contains(set.keys()[i]));
        assert(set@.contains(set.keys()[i]));
    }
    crate::bounds::lemma_ids_bounded(set.keys(), n);
}

/// Whether a node of a protocol is a state of the projection: the initial
/// node is, and so is each node that an edge enters whose event type the
/// role observes.
pub open spec fn in_projection(edges: Seq<(usize, usize)>, labels: Seq<LabelKey>, sub: Set<Seq<char>>, initial: usize, node: usize) -> bool {
    node == initial || exists|k: int| 0 <= k < edges_into(edges, node).len() && sub.contains(event_at(labels, #[trigger] edges_into(edges, node)[k]))
}

/// Takes in a node: it is kept if it is a state of the projection.
pub open spec fn kept_step(edges: Seq<(usize, usize)>, labels: Seq<LabelKey>, sub: Set<Seq<char>>, initial: usize) -> spec_fn(Seq<usize>, usize) -> Seq<usize> {
    |acc: Seq<usize>, node: usize|
        if in_projection(edges, labels, sub, initial, node) {
            acc.push(node)
        } else {
            acc
        }
}

/// The nodes of a protocol that are states of the projection, in
/// increasing order.
pub open spec fn kept_nodes(nodes: nat, edges: Seq<(usize, usize)>, labels: Seq<LabelKey>, sub: Set<Seq<char>>, initial: usize) -> Seq<usize> {
    fold(indices(nodes), Seq::<usize>::empty(), kept_step(edges, labels, sub, initial))
}

/// The edges and labels of a machine.
pub type MachineEdges = (Seq<(usize, usize)>, Seq<MachineLabelView>);

/// Takes in an edge found from a kept node: if the role issues its
/// command, a loop at the node's state says so; and the state moves on the
/// edge's event type to the state of the edge's target.
pub open spec fn project_edge_step(edges: Seq<(usize, usize)>, labels: Seq<LabelKey>, role: Seq<char>, kept: Seq<usize>, node: usize) -> spec_fn(MachineEdges, usize) -> MachineEdges {
    |g: MachineEdges, e: usize|
        {
            let src = pos_of(kept, node) as usize;
            let et = event_at(labels, e);
            let g1 = if labels[e as int].2 == role {
                (g.0.push((src, src)), g.1.push(MachineLabelView::Execute { cmd: labels[e as int].0, log_type: seq![et] }))
            } else {
                g
            };
            (g1.0.push((src, pos_of(kept, edges[e as int].1) as usize)), g1.1.push(MachineLabelView::Input { event_type: et }))
        }
}

/// Takes in a kept node: each edge found from it.
pub open spec fn project_node_step(nodes: nat, edges: Seq<(usize, usize)>, labels: Seq<LabelKey>, sub: Set<Seq<char>>, role: Seq<char>, kept: Seq<usize>) -> spec_fn(MachineEdges, usize) -> MachineEdges {
    |g: MachineEdges, node: usize| fold(interesting_edges(nodes, edges, labels, sub, node), g, project_edge_step(edges, labels, role, kept, node))
}

/// A machine: the names of its states, its edges with their labels, and
/// its initial state.
pub struct MachineView {
    pub nodes: Seq<Seq<char>>,
    pub edges: Seq<(usize, usize)>,
    pub labels: Seq<MachineLabelView>,
    pub initial: usize,
}

/// The projection of a protocol onto a role that observes the event types
/// of `sub`, as the protocol prescribes it: the states are the kept nodes,
/// and each moves on the event types that the role observes next.
pub open spec fn plain_projection(names: Seq<Seq<char>>, edges: Seq<(usize, usize)>, labels: Seq<LabelKey>, initial: usize, sub: Set<Seq<char>>, role: Seq<char>) -> MachineView {
    let kept = kept_nodes(names.len(), edges, labels, sub, initial);
    let g = fold(kept, (Seq::<(usize, usize)>::empty(), Seq::<MachineLabelView>::empty()), project_node_step(names.len(), edges, labels, sub, role, kept));
    MachineView { nodes: Seq::new(kept.len(), |i: int| names[kept[i] as int]), edges: g.0, labels: g.1, initial: pos_of(kept, initial) as usize }
}

/// The kept nodes among the first `upto` are exactly the states of the
/// projection among them, each once.
pub proof fn lemma_kept(nodes: nat, edges: Seq<(usize, usize)>, labels: Seq<LabelKey>, sub: Set<Seq<char>>, initial: usize, upto: int)
    requires
        0 <= upto <= nodes,
        nodes <= usize::MAX,
    ensures
        ({
            let kept = fold_upto(indices(nodes), Seq::<usize>::empty(), kept_step(edges, labels, sub, initial), upto);
            &&& kept.no_duplicates()
            &&& forall|i: int| 0 <= i < kept.len() ==> #[trigger] kept[i] < upto && in_projection(edges, labels, sub, initial, kept[i])
            &&& forall|v: usize| v < upto && in_projection(edges, labels, sub, initial, v) ==> kept.contains(v)
        }),
    decreases upto,
{
    if upto > 0 {
        lemma_kept(nodes, edges, labels, sub, initial, upto - 1);
        let before = fold_upto(indices(nodes), Seq::<usize>::empty(), kept_step(edges, labels, sub, initial), upto - 1);
        let kept = fold_upto(indices(nodes), Seq::<usize>::empty(), kept_step(edges, labels, sub, initial), upto);
        let node = (upto - 1) as usize;
        assert(indices(nodes)[upto - 1] == node);
        assert forall|v: usize| v < upto && in_projection(edges, labels, sub, initial, v) implies kept.contains(v) by {
            if v < upto - 1 {
                assert(before.contains(v));
                let i = choose|i: int| 0 <= i < before.len() && before[i] == v;
                assert(kept[i] == v);
            } else {
                assert(kept[kept.len() - 1] == v);
            }
        }
    }
}

/// The projection of a protocol onto a role as the protocol prescribes it:
/// see `plain_projection`.
pub fn project_plain(swarm: &SwarmGraph, initial: usize, sub: &OrdSet<EventType>, role: &Role) -> (r: (MachineGraph, usize))
    requires
        swarm.wf(),
        labelled(swarm.labels()),
        sub.wf(),
        initial < swarm.nodes().len(),
    ensures
        r.0.wf(),
        r.1 < r.0.nodes().len(),
        carries_events::<MachineLabel>(r.0.labels()),
        ({
            let p = plain_projection(swarm.nodes(), swarm.edges(), swarm.labels(), initial, sub@, role@);
            &&& r.0.nodes() == p.nodes
            &&& r.0.edges() == p.edges
            &&& r.0.labels() == p.labels
            &&& r.1 == p.initial
        }),
        one_event_per_command(swarm.labels()) ==> told_apart(r.0.labels()),
        confusion_free_labels(swarm.labels()) ==> funnelled(r.0.edges(), r.0.labels()),
{
    let ghost n = swarm.nodes().len();
    let ghost edges = swarm.edges();
    let ghost labels = swarm.labels();
    let ghost all = indices(n);
    let ghost kstep = kept_step(edges, labels, sub@, initial);
    let ghost kept = kept_nodes(n, edges, labels, sub@, initial);
    let mut machine: MachineGraph = Digraph::new();
    let count = swarm.node_count();
    let mut m_nodes: Vec<usize> = Vec::new();
    let mut nodes_in_proj: Vec<usize> = Vec::new();
    proof {
        swarm.lemma_wf();
    }
    let mut v: usize = 0;
    while v < count
        invariant
            v <= count,
            count == n,
            n == swarm.nodes().len(),
            edges == swarm.edges(),
            labels == swarm.labels(),
            edges.len() == labels.len(),
            all == indices(n),
            kstep == kept_step(edges, labels, sub@, initial),
            swarm.wf(),
            labelled(swarm.labels()),
            sub.wf(),
            machine.wf(),
            machine.edges().len() == 0,
            machine.labels().len() == 0,
            m_nodes@.len() == v,
            nodes_in_proj@ == fold_upto(all, Seq::<usize>::empty(), kstep, v as int),
            machine.nodes() == Seq::new(nodes_in_proj@.len(), |i: int| swarm.nodes()[nodes_in_proj@[i] as int]),
            forall|i: int| 0 <= i < nodes_in_proj@.len() ==> #[trigger] nodes_in_proj@[i] < v && m_nodes@[nodes_in_proj@[i] as int] == i,
        decreases count - v,
    {
        let incoming = swarm.in_edges(v);
        let mut interested = false;
        let mut k: usize = 0;
        while k < incoming.len()
            invariant
                k <= incoming.len(),
                swarm.wf(),
                labelled(swarm.labels()),
                sub.wf(),
                edges == swarm.edges(),
                labels == swarm.labels(),
                edges.len() == labels.len(),
                incoming@ == edges_into(edges, v),
                forall|q: int| 0 <= q < incoming@.len() ==> #[trigger] incoming@[q] < edges.len(),
                interested == exists|q: int| 0 <= q < k && sub@.contains(event_at(labels, #[trigger] incoming@[q])),
            decreases incoming.len() - k,
        {
            let et = swarm.label(incoming[k]).get_event_type();
            if sub.contains(&et) {
                interested = true;
                assert(sub@.contains(event_at(labels, incoming@[k as int])));
            }
            k += 1;
        }
        if v == initial || interested {
            let ghost before = machine.nodes();
            let id = machine.add_node(swarm.node(v).duplicate());
            m_nodes.push(id);
            nodes_in_proj.push(v);
            proof {
                assert(machine.nodes() =~= Seq::new(nodes_in_proj@.len(), |i: int| swarm.nodes()[nodes_in_proj@[i] as int]));
            }
        } else {
            m_nodes.push(NO_NODE);
        }
        v += 1;
    }
    proof {
        lemma_kept(n, edges, labels, sub@, initial, n as int);
        assert(nodes_in_proj@ == kept);
        assert(machine.labels() =~= Seq::<MachineLabelView>::empty());
        assert(machine.edges() =~= Seq::<(usize, usize)>::empty());
        lemma_sourced_none(labels);
        lemma_traced_none(edges, labels, kept);
    }
    let ghost nstep = project_node_step(n, edges, labels, sub@, role@, kept);
    let mut p: usize = 0;
    while p < nodes_in_proj.len()
        invariant
            p <= nodes_in_proj.len(),
            n == swarm.nodes().len(),
            edges == swarm.edges(),
            labels == swarm.labels(),
            edges.len() == labels.len(),
            swarm.wf(),
            labelled(swarm.labels()),
            sub.wf(),
            nodes_in_proj@ == kept,
            kept.no_duplicates(),
            edges.len() <= usize::MAX,
            forall|i: int| 0 <= i < kept.len() ==> #[trigger] kept[i] < n && in_projection(edges, labels, sub@, initial, kept[i]),
            forall|x: usize| x < n && in_projection(edges, labels, sub@, initial, x) ==> kept.contains(x),
            m_nodes@.len() == n,
            forall|i: int| 0 <= i < kept.len() ==> m_nodes@[#[trigger] kept[i] as int] == i,
            nstep == project_node_step(n, edges, labels, sub@, role@, kept),
            machine.wf(),
            machine.nodes() == Seq::new(kept.len(), |i: int| swarm.nodes()[kept[i] as int]),
            carries_events::<MachineLabel>(machine.labels()),
            (machine.edges(), machine.labels()) == fold_upto(kept, (Seq::<(usize, usize)>::empty(), Seq::<MachineLabelView>::empty()), nstep, p as int),
            sourced(machine.labels(), labels),
            traced(machine.edges(), machine.labels(), edges, labels, kept),
        decreases nodes_in_proj.len() - p,
    {
        let node = nodes_in_proj[p];
        let interesting = find_interesting_edges(swarm, sub, node);
        let ghost at_node = (machine.edges(), machine.labels());
        let ghost estep = project_edge_step(edges, labels, role@, kept, node);
        let src = m_nodes[node];
        proof {
            let q = pos_of(kept, node);
            assert(0 <= q < kept.len() && kept[q] == node);
            assert(src == q);
        }
        let mut i: usize = 0;
        while i < interesting.len()
            invariant
                i <= interesting.len(),
                n == swarm.nodes().len(),
                edges == swarm.edges(),
                labels == swarm.labels(),
                edges.len() == labels.len(),
                swarm.wf(),
                labelled(swarm.labels()),
                sub.wf(),
                kept.no_duplicates(),
                edges.len() <= usize::MAX,
                forall|q: int| 0 <= q < kept.len() ==> #[trigger] kept[q] < n,
                forall|x: usize| x < n && in_projection(edges, labels, sub@, initial, x) ==> kept.contains(x),
                m_nodes@.len() == n,
                forall|q: int| 0 <= q < kept.len() ==> m_nodes@[#[trigger] kept[q] as int] == q,
                forall|q: int| 0 <= q < interesting@.len() ==> #[trigger] interesting@[q] < edges.len() && sub@.contains(event_at(labels, interesting@[q])),
                estep == project_edge_step(edges, labels, role@, kept, node),
                src == pos_of(kept, node),
                src < kept.len(),
                machine.wf(),
                machine.nodes() == Seq::new(kept.len(), |q: int| swarm.nodes()[kept[q] as int]),
                carries_events::<MachineLabel>(machine.labels()),
                (machine.edges(), machine.labels()) == fold_upto(interesting@, at_node, estep, i as int),
                sourced(machine.labels(), labels),
                traced(machine.edges(), machine.labels(), edges, labels, kept),
            decreases interesting.len() - i,
        {
            let e = interesting[i];
            let label = swarm.label(e);
            let target = swarm.target(e);
            proof {
                lemma_edge_ids_at(edges, target, false, edges.len() as int);
                let ids = edges_into(edges, target);
                assert(ids.contains(e));
                let k = choose|k: int| 0 <= k < ids.len() && ids[k] == e;
                assert(sub@.contains(event_at(labels, ids[k])));
                assert(in_projection(edges, labels, sub@, initial, target));
                assert(kept.contains(target));
                let q = pos_of(kept, target);
                assert(0 <= q < kept.len() && kept[q] == target);
                assert(m_nodes@[kept[q] as int] == q);
            }
            let dst = m_nodes[target];
            if same(&label.role, role) {
                let ghost before = machine.labels();
                let log = vec![label.get_event_type()];
                proof {
                    assert(keys_of(log@) =~= seq![event_at(labels, e)]);
                }
                let execute = MachineLabel::Execute { cmd: label.cmd.duplicate(), log_type: log };
                proof {
                    lemma_sourced_push(machine.labels(), labels, execute@, e as int);
                    lemma_traced_push(machine.edges(), machine.labels(), edges, labels, kept, (src, src), execute@, e as int);
                }
                machine.add_edge(src, src, execute);
            }
            let input = MachineLabel::Input { event_type: label.get_event_type() };
            proof {
                lemma_sourced_push(machine.labels(), labels, input@, e as int);
                lemma_traced_push(machine.edges(), machine.labels(), edges, labels, kept, (src, dst), input@, e as int);
            }
            machine.add_edge(src, dst, input);
            i += 1;
        }
        p += 1;
    }
    proof {
        let q = pos_of(kept, initial);
        assert(in_projection(edges, labels, sub@, initial, initial));
        assert(kept.contains(initial));
        assert(0 <= q < kept.len() && kept[q] == initial);
    }
    let initial_state = m_nodes[initial];
    proof {
        if one_event_per_command(labels) {
            lemma_sourced_apart(machine.labels(), labels);
        }
        if confusion_free_labels(labels) {
            lemma_traced_funnelled(machine.edges(), machine.labels(), edges, labels, kept);
        }
    }
    (machine, initial_state)
}

/// The name of a set of states: the names in the order of the states,
/// with `, ` between them, in braces.
pub open spec fn set_name(names: Seq<Seq<char>>, members: Seq<usize>) -> Seq<char> {
    "{ "@ + joined(Seq::new(members.len(), |i: int| names[members[i] as int]), ", "@) + " }"@
}

/// The state that stands for a set of states of a machine.
pub fn state_of_set(graph: &MachineGraph, members: &OrdSet<usize>) -> (r: State)
    requires
        graph.wf(),
        members.wf(),
        forall|x: usize| members@.contains(x) ==> x < graph.nodes().len(),
    ensures
        r@ == set_name(graph.nodes(), members.keys()),
{
    let mut parts: Vec<String> = Vec::new();
    let mut i: usize = 0;
    while i < members.len()
        invariant
            i <= members.keys().len(),
            graph.wf(),
            members.wf(),
            forall|x: usize| members@.contains(x) ==> x < graph.nodes().len(),
            parts@.len() == i,
            forall|j: int| 0 <= j < i ==> (#[trigger] parts@[j])@ == graph.nodes()[members.keys()[j] as int],
        decreases members.keys().len() - i,
    {
        let n = *members.get(i);
        parts.push(graph.node(n).to_string());
        i += 1;
    }
    proof {
        assert(texts_of(parts@) =~= Seq::new(members.keys().len(), |i: int| graph.nodes()[members.keys()[i] as int]));
    }
    let inner = join_texts(&parts, ", ");
    let mut name = String::from_str("{ ");
    name.append(inner.as_str());
    name.append(" }");
    State::new(name.as_str())
}

/// For each label the states to which it leads from some states.
pub type Moves = Map<MachineLabelView, Set<usize>>;

/// Takes in an edge: its label leads to its target.
pub open spec fn moves_edge_step(edges: Seq<(usize, usize)>, labels: Seq<MachineLabelView>) -> spec_fn(Moves, usize) -> Moves {
    |m: Moves, e: usize| map_add(m, labels[e as int], Set::<usize>::empty().insert(edges[e as int].1))
}

/// Takes in a state: each edge that leaves it.
pub open spec fn moves_node_step(edges: Seq<(usize, usize)>, labels: Seq<MachineLabelView>) -> spec_fn(Moves, usize) -> Moves {
    |m: Moves, n: usize| fold(edges_from(edges, n), m, moves_edge_step(edges, labels))
}

/// For each label that leaves one of the given states the states to which
/// it leads from them.
pub open spec fn moves_from(edges: Seq<(usize, usize)>, labels: Seq<MachineLabelView>, srcs: Seq<usize>) -> Moves {
    fold(srcs, Map::<MachineLabelView, Set<usize>>::empty(), moves_node_step(edges, labels))
}

/// Whether every set of a map holds indices below a bound only.
pub open spec fn moves_below(m: Moves, n: nat) -> bool {
    forall|l: MachineLabelView, x: usize| m.dom().contains(l) && #[trigger] m[l].contains(x) ==> x < n
}

/// For each label that leaves one of the given states the states to which
/// it leads from them.
pub fn outgoing_sets(nfa: &MachineGraph, srcs: &OrdSet<usize>) -> (r: OrdMap<MachineLabel, OrdSet<usize>>)
    requires
        nfa.wf(),
        srcs.wf(),
        forall|x: usize| srcs@.contains(x) ==> x < nfa.nodes().len(),
    ensures
        r.wf_sets(),
        r.sets() == moves_from(nfa.edges(), nfa.labels(), srcs.keys()),
        moves_below(r.sets(), nfa.nodes().len()),
        forall|l: MachineLabelView| r.sets().dom().contains(l) ==> nfa.labels().contains(l),
{
    let ghost nstep = moves_node_step(nfa.edges(), nfa.labels());
    let ghost estep = moves_edge_step(nfa.edges(), nfa.labels());
    let mut r: OrdMap<MachineLabel, OrdSet<usize>> = OrdMap::new();
    proof {
        nfa.lemma_wf();
        assert(r.sets() =~= Map::<MachineLabelView, Set<usize>>::empty());
    }
    let mut s: usize = 0;
    while s < srcs.len()
        invariant
            s <= srcs.keys().len(),
            nfa.wf(),
            srcs.wf(),
            nfa.edges().len() == nfa.labels().len(),
            forall|x: usize| srcs@.contains(x) ==> x < nfa.nodes().len(),
            nstep == moves_node_step(nfa.edges(), nfa.labels()),
            estep == moves_edge_step(nfa.edges(), nfa.labels()),
            r.wf_sets(),
            r.sets() == fold_upto(srcs.keys(), Map::<MachineLabelView, Set<usize>>::empty(), nstep, s as int),
            moves_below(r.sets(), nfa.nodes().len()),
            forall|l: MachineLabelView| r.sets().dom().contains(l) ==> nfa.labels().contains(l),
        decreases srcs.keys().len() - s,
    {
        let src = *srcs.get(s);
        let ids = nfa.out_edges(src);
        let ghost at_node = r.sets();
        let mut i: usize = 0;
        while i < ids.len()
            invariant
                i <= ids.len(),
                nfa.wf(),
                nfa.edges().len() == nfa.labels().len(),
                forall|q: int| 0 <= q < ids@.len() ==> #[trigger] ids@[q] < nfa.edges().len(),
                estep == moves_edge_step(nfa.edges(), nfa.labels()),
                r.wf_sets(),
                r.sets() == fold_upto(ids@, at_node, estep, i as int),
                moves_below(r.sets(), nfa.nodes().len()),
                forall|l: MachineLabelView| r.sets().dom().contains(l) ==> nfa.labels().contains(l),
            decreases ids.len() - i,
        {
            let e = ids[i];
            let target = nfa.target(e);
            let ghost before = r.sets();
            r.add_all(nfa.label(e), &OrdSet::singleton(target));
            proof {
                assert(nfa.labels().contains(nfa.labels()[e as int]));
                assert forall|l: MachineLabelView, x: usize| r.sets().dom().contains(l) && #[trigger] r.sets()[l].contains(x) implies x < nfa.nodes().len() by {
                    if !(x == target) {
                        assert(before.dom().contains(l) && before[l].contains(x));
                    }
                }
            }
            i += 1;
        }
        s += 1;
    }
    r
}

/// The subset construction as far as it has come: the set of states that
/// each state of the new machine stands for, the edges with their labels,
/// and the sets that wait for their visit.
pub struct Subsets {
    pub origin: Seq<Seq<usize>>,
    pub edges: Seq<(usize, usize)>,
    pub labels: Seq<MachineLabelView>,
    pub stack: Seq<Seq<usize>>,
}

/// Takes in a label that leaves a set of states: an edge leads to the
/// state of the set that the label leads to, which is a new state, and
/// waits for its visit, unless the set has a state.
pub open spec fn subset_edge_step(moves: Moves, src: usize) -> spec_fn(Subsets, MachineLabelView) -> Subsets {
    |st: Subsets, l: MachineLabelView|
        {
            let target = sorted::<usize>(moves[l]);
            if st.origin.contains(target) {
                Subsets { origin: st.origin, edges: st.edges.push((src, pos_of(st.origin, target) as usize)), labels: st.labels.push(l), stack: st.stack }
            } else {
                Subsets { origin: st.origin.push(target), edges: st.edges.push((src, st.origin.len() as usize)), labels: st.labels.push(l), stack: st.stack.push(target) }
            }
        }
}

/// Visits the set that has waited the shortest: each label that leaves one
/// of its states, in the order of the labels.
pub open spec fn subset_pop(edges: Seq<(usize, usize)>, labels: Seq<MachineLabelView>, st: Subsets) -> Subsets {
    if st.stack.len() == 0 {
        st
    } else {
        let set = st.stack.last();
        let moves = moves_from(edges, labels, set);
        fold(sorted::<MachineLabel>(moves.dom()), Subsets { origin: st.origin, edges: st.edges, labels: st.labels, stack: st.stack.drop_last() }, subset_edge_step(moves, pos_of(st.origin, set) as usize))
    }
}

/// The subset construction after a number of visits, from the set of the
/// initial state on.
pub open spec fn subset_run(edges: Seq<(usize, usize)>, labels: Seq<MachineLabelView>, initial: usize, visits: nat) -> Subsets
    decreases visits,
{
    if visits == 0 {
        Subsets { origin: seq![seq![initial]], edges: Seq::empty(), labels: Seq::empty(), stack: seq![seq![initial]] }
    } else {
        subset_pop(edges, labels, subset_run(edges, labels, initial, (visits - 1) as nat))
    }
}

/// Once no set waits, further visits change nothing.
pub proof fn lemma_subsets_done(edges: Seq<(usize, usize)>, labels: Seq<MachineLabelView>, initial: usize, visits: nat, more: nat)
    requires
        subset_run(edges, labels, initial, visits).stack.len() == 0,
    ensures
        subset_run(edges, labels, initial, visits + more) == subset_run(edges, labels, initial, visits),
    decreases more,
{
    if more > 0 {
        lemma_subsets_done(edges, labels, initial, visits, (more - 1) as nat);
    }
}

/// The subset construction carried to its end: the state of things at the
/// first visit count at which no set waits.
pub open spec fn determinized(edges: Seq<(usize, usize)>, labels: Seq<MachineLabelView>, initial: usize) -> Subsets {
    subset_run(edges, labels, initial, choose|v: nat| subset_run(edges, labels, initial, v).stack.len() == 0)
}

/// Wherever the subset construction has come to its end, it has come to
/// the same end.
pub proof fn lemma_determinized(edges: Seq<(usize, usize)>, labels: Seq<MachineLabelView>, initial: usize, visits: nat)
    requires
        subset_run(edges, labels, initial, visits).stack.len() == 0,
    ensures
        determinized(edges, labels, initial) == subset_run(edges, labels, initial, visits),
{
    let w = choose|v: nat| subset_run(edges, labels, initial, v).stack.len() == 0;
    if w <= visits {
        lemma_subsets_done(edges, labels, initial, w, (visits - w) as nat);
    } else {
        lemma_subsets_done(edges, labels, initial, visits, (w - visits) as nat);
    }
}

/// What holds of the subset construction while it runs: each state stands
/// for a set of states of the machine that the index of sets leads back to,
/// and each set that waits is a state.
pub open spec fn subsets_inv(n: nat, names: Seq<Seq<char>>, dfa: MachineGraph, dfa_nodes: OrdMap<OrdSet<usize>, usize>, stack: Seq<OrdSet<usize>>, origin: Seq<Seq<usize>>) -> bool {
    &&& dfa.wf()
    &&& dfa_nodes.wf()
    &&& origin.len() == dfa.nodes().len()
    &&& origin.len() > 0
    &&& forall|x: int| 0 <= x < origin.len() ==> {
        &&& increasing::<usize>(#[trigger] origin[x])
        &&& below(origin[x].to_set(), n)
        &&& dfa_nodes.has(origin[x])
        &&& dfa_nodes@[origin[x]] == x
        &&& dfa.nodes()[x] == set_name(names, origin[x])
    }
    &&& forall|k: Seq<usize>| dfa_nodes.has(k) ==> #[trigger] dfa_nodes@[k] < origin.len() && origin[dfa_nodes@[k] as int] == k
    &&& forall|w: int| 0 <= w < stack.len() ==> (#[trigger] stack[w]).wf() && dfa_nodes.has(stack[w].keys())
    &&& dfa.edges().len() == dfa.labels().len()
}

/// The index of sets holds as many sets as there are states, and no more
/// than there are sets of states of the machine.
pub proof fn lemma_subsets_inv(n: nat, names: Seq<Seq<char>>, dfa: MachineGraph, dfa_nodes: OrdMap<OrdSet<usize>, usize>, stack: Seq<OrdSet<usize>>, origin: Seq<Seq<usize>>)
    requires
        subsets_inv(n, names, dfa, dfa_nodes, stack, origin),
        n <= usize::MAX,
    ensures
        dfa_nodes.keys().len() <= two_to(n),
        forall|k: Seq<usize>| dfa_nodes.has(k) <==> origin.contains(k),
        forall|k: Seq<usize>| origin.contains(k) ==> #[trigger] pos_of(origin, k) == dfa_nodes@[k],
{
    dfa_nodes.lemma_wf();
    assert forall|i: int| 0 <= i < dfa_nodes.keys().len() implies increasing::<usize>(#[trigger] dfa_nodes.keys()[i]) && below(dfa_nodes.keys()[i].to_set(), n) by {
        let k = dfa_nodes.keys()[i];
        assert(dfa_nodes.has(k));
        assert(origin[dfa_nodes@[k] as int] == k);
    }
    lemma_subsets_bounded(dfa_nodes.keys(), n);
    assert forall|k: Seq<usize>| dfa_nodes.has(k) <==> origin.contains(k) by {
        if dfa_nodes.has(k) {
            assert(origin[dfa_nodes@[k] as int] == k);
        }
        if origin.contains(k) {
            let i = choose|i: int| 0 <= i < origin.len() && origin[i] == k;
            assert(dfa_nodes.has(origin[i]));
        }
    }
    assert forall|k: Seq<usize>| origin.contains(k) implies #[trigger] pos_of(origin, k) == dfa_nodes@[k] by {
        let i = pos_of(origin, k);
        assert(0 <= i < origin.len() && origin[i] == k);
        assert(dfa_nodes@[origin[i]] == i);
    }
}

/// Whether no state of a machine has two transitions with the same label.
pub open spec fn distinct_out(edges: Seq<(usize, usize)>, labels: Seq<MachineLabelView>) -> bool {
    forall|a: int, b: int| 0 <= a < edges.len() && 0 <= b < edges.len() && a != b && (#[trigger] edges[a]).0 == (#[trigger] edges[b]).0 ==> labels[a] != labels[b]
}

/// Whether each label of a list is a label of another list.
pub open spec fn labels_among(labels: Seq<MachineLabelView>, given: Seq<MachineLabelView>) -> bool {
    forall|e: int| 0 <= e < labels.len() ==> given.contains(#[trigger] labels[e])
}

/// A machine in which no state has two transitions with the same label,
/// by the subset construction: each state stands for a set of states of
/// the given machine and is named after them; see `determinized`.
pub fn nfa_to_dfa(nfa: MachineGraph, i: usize) -> (r: (MachineGraph, usize))
    requires
        nfa.wf(),
        i < nfa.nodes().len(),
    ensures
        r.0.wf(),
        r.1 == 0,
        r.0.nodes().len() > 0,
        carries_events::<MachineLabel>(nfa.labels()) ==> carries_events::<MachineLabel>(r.0.labels()),
        distinct_out(r.0.edges(), r.0.labels()),
        labels_among(r.0.labels(), nfa.labels()),
        funnelled(nfa.edges(), nfa.labels()) ==> funnelled(r.0.edges(), r.0.labels()),
        ({
            let d = determinized(nfa.edges(), nfa.labels(), i);
            &&& r.0.edges() == d.edges
            &&& r.0.labels() == d.labels
            &&& r.0.nodes() == Seq::new(d.origin.len(), |x: int| set_name(nfa.nodes(), d.origin[x]))
        }),
{
    let ghost n = nfa.nodes().len();
    let ghost names = nfa.nodes();
    let ghost edges = nfa.edges();
    let ghost labels = nfa.labels();
    let mut dfa: MachineGraph = Digraph::new();
    let mut dfa_nodes: OrdMap<OrdSet<usize>, usize> = OrdMap::new();
    let mut stack: Vec<OrdSet<usize>> = Vec::new();
    let first: OrdSet<usize> = OrdSet::singleton(i);
    proof {
        nfa.lemma_wf();
        first.lemma_wf();
        assert(first.keys() =~= seq![i]) by {
            assert forall|x: usize| seq![i].to_set().contains(x) <==> x == i by {
                if x == i {
                    assert(seq![i][0] == i);
                    assert(seq![i].contains(i));
                }
            }
            assert(first@ =~= seq![i].to_set());
            assert(increasing::<usize>(seq![i]));
            crate::ordset::increasing_unique::<usize>(first.keys(), seq![i]);
        }
    }
    let id = dfa.add_node(state_of_set(&nfa, &first));
    dfa_nodes.insert(first.duplicate(), id);
    stack.push(first);
    let ghost mut origin: Seq<Seq<usize>> = seq![seq![i]];
    let ghost mut visits: nat = 0;
    proof {
        dfa.lemma_wf();
        dfa_nodes.lemma_wf();
        assert(dfa_nodes.has(seq![i]));
        assert(subsets_inv(n, names, dfa, dfa_nodes, stack@, origin));
        lemma_subsets_inv(n, names, dfa, dfa_nodes, stack@, origin);
        assert(keys_of(stack@) =~= seq![seq![i]]);
        crate::ordset::increasing_no_duplicates::<OrdSet<usize>>(dfa_nodes.keys());
        assert(dfa_nodes.keys().to_set() =~= Set::<Seq<usize>>::empty().insert(seq![i]));
        assert(dfa_nodes.keys().len() == 1);
    }
    while stack.len() > 0
        invariant
            nfa.wf(),
            n == nfa.nodes().len(),
            n <= usize::MAX,
            names == nfa.nodes(),
            edges == nfa.edges(),
            labels == nfa.labels(),
            subsets_inv(n, names, dfa, dfa_nodes, stack@, origin),
            dfa_nodes.keys().len() <= two_to(n),
            (Subsets { origin, edges: dfa.edges(), labels: dfa.labels(), stack: keys_of(stack@) }) == subset_run(edges, labels, i, visits),
            distinct_out(dfa.edges(), dfa.labels()),
            labels_among(dfa.labels(), labels),
            forall|e: int, w: int| 0 <= e < dfa.edges().len() && 0 <= w < stack@.len() ==> (#[trigger] dfa.edges()[e]).0 != dfa_nodes@[(#[trigger] stack@[w]).keys()],
            forall|w1: int, w2: int| 0 <= w1 < w2 < stack@.len() ==> (#[trigger] stack@[w1]).keys() != (#[trigger] stack@[w2]).keys(),
        decreases 2 * (two_to(n) - dfa_nodes.keys().len()) + stack@.len(),
    {
        let ghost measure = 2 * (two_to(n) - dfa_nodes.keys().len()) + stack@.len();
        let ghost at_pop = keys_of(stack@);
        let ghost stack_at_pop = stack@;
        let states = stack.pop().unwrap();
        proof {
            assert(at_pop.last() == states.keys());
            assert(keys_of(stack@) =~= at_pop.drop_last());
            lemma_subsets_inv(n, names, dfa, dfa_nodes, stack@, origin);
            assert(below(states.keys().to_set(), n)) by {
                assert(origin[dfa_nodes@[states.keys()] as int] == states.keys());
            }
            assert(stack_at_pop[stack_at_pop.len() - 1] == states);
            assert forall|w: int| 0 <= w < stack@.len() implies (#[trigger] stack@[w]).keys() != states.keys() by {
                assert(stack@[w] == stack_at_pop[w]);
            }
            assert forall|e: int, w: int| 0 <= e < dfa.edges().len() && 0 <= w < stack@.len() implies (#[trigger] dfa.edges()[e]).0 != dfa_nodes@[(#[trigger] stack@[w]).keys()] by {
                assert(stack@[w] == stack_at_pop[w]);
            }
            assert forall|w1: int, w2: int| 0 <= w1 < w2 < stack@.len() implies (#[trigger] stack@[w1]).keys() != (#[trigger] stack@[w2]).keys() by {
                assert(stack@[w1] == stack_at_pop[w1]);
                assert(stack@[w2] == stack_at_pop[w2]);
            }
        }
        let map = outgoing_sets(&nfa, &states);
        let src = match dfa_nodes.get(&states) {
            Some(id) => *id,
            None => 0,
        };
        let ghost moves = map.sets();
        let ghost step = subset_edge_step(moves, src);
        let ghost popped = Subsets { origin, edges: dfa.edges(), labels: dfa.labels(), stack: keys_of(stack@) };
        let ghost edges_at_pop = dfa.edges();
        let ghost labels_at_pop = dfa.labels();
        proof {
            map.lemma_sets_keys();
            assert(src == pos_of(origin, states.keys()));
            dfa.lemma_wf();
            assert(src == dfa_nodes@[states.keys()]);
            assert forall|e: int| 0 <= e < edges_at_pop.len() implies (#[trigger] edges_at_pop[e]).0 != src by {
                assert(dfa.edges()[e].0 != dfa_nodes@[stack_at_pop[stack_at_pop.len() - 1].keys()]);
            }
            assert forall|w: int| 0 <= w < stack@.len() implies dfa_nodes@[(#[trigger] stack@[w]).keys()] != src by {
                assert(stack@[w].keys() != states.keys());
                assert(dfa_nodes.has(stack@[w].keys()));
                assert(origin[dfa_nodes@[stack@[w].keys()] as int] == stack@[w].keys());
                assert(origin[src as int] == states.keys());
            }
        }
        let mut k: usize = 0;
        while k < map.len()
            invariant
                k <= map.keys().len(),
                dfa.edges().len() == edges_at_pop.len() + k,
                dfa.labels().len() == dfa.edges().len(),
                edges_at_pop.len() == labels_at_pop.len(),
                distinct_out(edges_at_pop, labels_at_pop),
                labels_among(dfa.labels(), nfa.labels()),
                forall|e: int| 0 <= e < edges_at_pop.len() ==> (#[trigger] edges_at_pop[e]).0 != src,
                forall|e: int| 0 <= e < edges_at_pop.len() ==> #[trigger] dfa.edges()[e] == edges_at_pop[e] && dfa.labels()[e] == labels_at_pop[e],
                forall|j: int| 0 <= j < k ==> (#[trigger] dfa.edges()[edges_at_pop.len() + j]).0 == src && dfa.labels()[edges_at_pop.len() + j] == map.keys()[j],
                forall|w: int| 0 <= w < stack@.len() ==> dfa_nodes@[(#[trigger] stack@[w]).keys()] != src,
                forall|e: int, w: int| 0 <= e < dfa.edges().len() && 0 <= w < stack@.len() ==> (#[trigger] dfa.edges()[e]).0 != dfa_nodes@[(#[trigger] stack@[w]).keys()],
                forall|w1: int, w2: int| 0 <= w1 < w2 < stack@.len() ==> (#[trigger] stack@[w1]).keys() != (#[trigger] stack@[w2]).keys(),
                nfa.wf(),
                    n == nfa.nodes().len(),
                n <= usize::MAX,
                names == nfa.nodes(),
                map.wf_sets(),
                moves == map.sets(),
                moves_below(moves, n),
                forall|l: MachineLabelView| moves.dom().contains(l) ==> nfa.labels().contains(l),
                step == subset_edge_step(moves, src),
                src < origin.len(),
                subsets_inv(n, names, dfa, dfa_nodes, stack@, origin),
                dfa_nodes.keys().len() <= two_to(n),
                2 * (two_to(n) - dfa_nodes.keys().len()) + stack@.len() < measure,
                (Subsets { origin, edges: dfa.edges(), labels: dfa.labels(), stack: keys_of(stack@) }) == fold_upto(map.keys(), popped, step, k as int),
            decreases map.keys().len() - k,
        {
            proof {
                map.lemma_sets_at(k as int);
                lemma_subsets_inv(n, names, dfa, dfa_nodes, stack@, origin);
            }
            let edge = map.key_at(k);
            let targets = map.val_at(k);
            proof {
                targets.lemma_wf();
                assert(below(targets@, n)) by {
                    assert forall|x: usize| targets@.contains(x) implies x < n by {
                        assert(moves[map.keys()[k as int]].contains(x));
                    }
                }
            }
            let ghost before = dfa;
            let ghost map_before = dfa_nodes;
            let ghost origin_before = origin;
            let ghost stack_before = stack@;
            let target = match dfa_nodes.get(targets) {
                Some(id) => *id,
                None => {
                    let id = dfa.add_node(state_of_set(&nfa, targets));
                    dfa_nodes.insert(targets.duplicate(), id);
                    stack.push(targets.duplicate());
                    proof {
                        origin = origin.push(targets.keys());
                        assert(keys_of(stack@) =~= keys_of(stack_before).push(targets.keys()));
                        before.lemma_wf();
                        assert(!map_before.has(targets.keys()));
                        assert forall|w: int| 0 <= w < stack@.len() implies dfa_nodes@[(#[trigger] stack@[w]).keys()] != src by {
                            if w < stack_before.len() {
                                assert(stack@[w] == stack_before[w]);
                                assert(map_before.has(stack_before[w].keys()));
                            }
                        }
                        assert forall|e: int, w: int| 0 <= e < dfa.edges().len() && 0 <= w < stack@.len() implies (#[trigger] dfa.edges()[e]).0 != dfa_nodes@[(#[trigger] stack@[w]).keys()] by {
                            assert(dfa.edges()[e] == before.edges()[e]);
                            if w < stack_before.len() {
                                assert(stack@[w] == stack_before[w]);
                                assert(map_before.has(stack_before[w].keys()));
                            } else {
                                assert(before.edges()[e].0 < before.nodes().len());
                            }
                        }
                        assert forall|w1: int, w2: int| 0 <= w1 < w2 < stack@.len() implies (#[trigger] stack@[w1]).keys() != (#[trigger] stack@[w2]).keys() by {
                            assert(stack@[w1] == stack_before[w1]);
                            assert(map_before.has(stack_before[w1].keys()));
                            if w2 < stack_before.len() {
                                assert(stack@[w2] == stack_before[w2]);
                            }
                        }
                        assert forall|q: Seq<usize>| dfa_nodes.has(q) implies #[trigger] dfa_nodes@[q] < origin.len() && origin[dfa_nodes@[q] as int] == q by {
                            if q != targets.keys() {
                                assert(map_before.has(q));
                            }
                        }
                        assert forall|x: int| 0 <= x < origin.len() implies {
                            &&& increasing::<usize>(#[trigger] origin[x])
                            &&& below(origin[x].to_set(), n)
                            &&& dfa_nodes.has(origin[x])
                            &&& dfa_nodes@[origin[x]] == x
                            &&& dfa.nodes()[x] == set_name(names, origin[x])
                        } by {
                            if x < origin_before.len() {
                                assert(origin[x] == origin_before[x]);
                                assert(map_before.has(origin_before[x]));
                                assert(dfa.nodes()[x] == before.nodes()[x]);
                            }
                        }
                        assert forall|w: int| 0 <= w < stack@.len() implies (#[trigger] stack@[w]).wf() && dfa_nodes.has(stack@[w].keys()) by {
                            if w < stack_before.len() {
                                assert(stack@[w] == stack_before[w]);
                                assert(map_before.has(stack_before[w].keys()));
                            }
                        }
                        assert(subsets_inv(n, names, dfa, dfa_nodes, stack@, origin));
                        lemma_subsets_inv(n, names, dfa, dfa_nodes, stack@, origin);
                        map_before.lemma_wf();
                        dfa_nodes.lemma_wf();
                        assert(dfa_nodes.keys().len() == map_before.keys().len() + 1) by {
                            assert(dfa_nodes.keys().to_set() == map_before.keys().to_set().insert(targets.keys()));
                            assert(!map_before.keys().to_set().contains(targets.keys()));
                            crate::ordset::increasing_no_duplicates::<OrdSet<usize>>(dfa_nodes.keys());
                            crate::ordset::increasing_no_duplicates::<OrdSet<usize>>(map_before.keys());
                        }
                    }
                    id
                },
            };
            let label = edge.duplicate();
            proof {
                dfa.lemma_wf();
                assert(nfa.labels().contains(label.key()));
            }
            let ghost with_node = dfa;
            dfa.add_edge(src, target, label);
            proof {
                assert(subsets_inv(n, names, dfa, dfa_nodes, stack@, origin));
                assert forall|e: int| 0 <= e < dfa.labels().len() implies nfa.labels().contains(#[trigger] dfa.labels()[e]) by {
                    if e < with_node.labels().len() {
                        assert(dfa.labels()[e] == with_node.labels()[e]);
                        assert(with_node.labels()[e] == before.labels()[e]);
                    }
                }
                assert forall|e: int| 0 <= e < edges_at_pop.len() implies #[trigger] dfa.edges()[e] == edges_at_pop[e] && dfa.labels()[e] == labels_at_pop[e] by {
                    assert(dfa.edges()[e] == before.edges()[e]);
                    assert(dfa.labels()[e] == before.labels()[e]);
                }
                assert forall|j: int| 0 <= j < k + 1 implies (#[trigger] dfa.edges()[edges_at_pop.len() + j]).0 == src && dfa.labels()[edges_at_pop.len() + j] == map.keys()[j] by {
                    if j < k {
                        assert(dfa.edges()[edges_at_pop.len() + j] == before.edges()[edges_at_pop.len() + j]);
                        assert(dfa.labels()[edges_at_pop.len() + j] == before.labels()[edges_at_pop.len() + j]);
                    }
                }
                assert forall|e: int, w: int| 0 <= e < dfa.edges().len() && 0 <= w < stack@.len() implies (#[trigger] dfa.edges()[e]).0 != dfa_nodes@[(#[trigger] stack@[w]).keys()] by {
                    if e < with_node.edges().len() {
                        assert(dfa.edges()[e] == with_node.edges()[e]);
                    }
                }
            }
            k += 1;
        }
        proof {
            visits = visits + 1;
            map.lemma_wf();
            crate::ordset::increasing_no_duplicates::<MachineLabel>(map.keys());
            assert forall|a: int, b: int| 0 <= a < dfa.edges().len() && 0 <= b < dfa.edges().len() && a != b && (#[trigger] dfa.edges()[a]).0 == (#[trigger] dfa.edges()[b]).0 implies dfa.labels()[a] != dfa.labels()[b] by {
                let e0 = edges_at_pop.len() as int;
                if a < e0 && b < e0 {
                    assert(edges_at_pop[a].0 == edges_at_pop[b].0);
                } else if a >= e0 && b >= e0 {
                    assert(dfa.edges()[e0 + (a - e0)].0 == src);
                    assert(dfa.edges()[e0 + (b - e0)].0 == src);
                    assert(map.keys()[a - e0] != map.keys()[b - e0]);
                } else if a < e0 {
                    assert(dfa.edges()[e0 + (b - e0)].0 == src);
                    assert(edges_at_pop[a].0 != src);
                } else {
                    assert(dfa.edges()[e0 + (a - e0)].0 == src);
                    assert(edges_at_pop[b].0 != src);
                }
            }
        }
    }
    proof {
        assert(keys_of(stack@) =~= Seq::<Seq<usize>>::empty());
        lemma_determinized(edges, labels, i, visits);
        dfa.lemma_wf();
        assert(dfa.nodes() =~= Seq::new(origin.len(), |x: int| set_name(names, origin[x])));
        lemma_among_carry(dfa.labels(), labels);
        if funnelled(edges, labels) {
            nfa.lemma_wf();
            crate::composition::subsets::lemma_determinized_funnelled(n, edges, labels, i);
        }
    }
    (dfa, 0)
}

/// A partition of the states of a machine: each block as the increasing
/// sequence of its states.
pub type Blocks = Set<Seq<usize>>;

/// Whether a block of a partition holds a state.
pub open spec fn covered(blocks: Blocks, x: usize) -> bool {
    exists|b: Seq<usize>| blocks.contains(b) && b.contains(x)
}

/// Whether each block of a partition is an increasing sequence of states
/// of a machine with `n` states.
pub open spec fn blocks_ok(p: OrdSet<OrdSet<usize>>, n: nat) -> bool {
    &&& p.wf()
    &&& forall|b: Seq<usize>| #[trigger] p@.contains(b) ==> increasing::<usize>(b) && below(b.to_set(), n)
}

/// Whether a state has a transition with the label into the set of states.
pub open spec fn moves_into(edges: Seq<(usize, usize)>, labels: Seq<MachineLabelView>, x: usize, l: MachineLabelView, sup: Set<usize>) -> bool {
    exists|k: int| 0 <= k < edges_from(edges, x).len() && labels[(#[trigger] edges_from(edges, x)[k]) as int] == l && sup.contains(edges[edges_from(edges, x)[k] as int].1)
}

/// Takes in a state of a block: it goes with the states that have a
/// transition with the label into the set, or with those that have none.
pub open spec fn split_step(edges: Seq<(usize, usize)>, labels: Seq<MachineLabelView>, sup: Set<usize>, l: MachineLabelView) -> spec_fn((Set<usize>, Set<usize>), usize) -> (Set<usize>, Set<usize>) {
    |acc: (Set<usize>, Set<usize>), x: usize|
        if moves_into(edges, labels, x, l, sup) {
            (acc.0.insert(x), acc.1)
        } else {
            (acc.0, acc.1.insert(x))
        }
}

/// The parts of a split that hold a state, as blocks.
pub open spec fn parts_of(p: (Set<usize>, Set<usize>)) -> Blocks {
    let first = if p.0 == Set::<usize>::empty() {
        Set::<Seq<usize>>::empty()
    } else {
        Set::<Seq<usize>>::empty().insert(sorted::<usize>(p.0))
    };
    if p.1 == Set::<usize>::empty() {
        first
    } else {
        first.insert(sorted::<usize>(p.1))
    }
}

/// A block split by whether its states have a transition with the label
/// into the set of states: the parts that hold a state.
pub open spec fn refined_block(edges: Seq<(usize, usize)>, labels: Seq<MachineLabelView>, block: Seq<usize>, sup: Set<usize>, l: MachineLabelView) -> Blocks {
    parts_of(fold(block, (Set::<usize>::empty(), Set::<usize>::empty()), split_step(edges, labels, sup, l)))
}

/// Whether a state has a transition with the label into the set of states.
pub fn has_move_into(graph: &MachineGraph, node: usize, superblock: &OrdSet<usize>, label: &MachineLabel) -> (r: bool)
    requires
        graph.wf(),
        superblock.wf(),
        node < graph.nodes().len(),
    ensures
        r == moves_into(graph.edges(), graph.labels(), node, label@, superblock@),
{
    let ids = graph.out_edges(node);
    proof {
        graph.lemma_wf();
    }
    let mut k: usize = 0;
    while k < ids.len()
        invariant
            k <= ids.len(),
            graph.wf(),
            superblock.wf(),
            graph.edges().len() == graph.labels().len(),
            ids@ == edges_from(graph.edges(), node),
            forall|q: int| 0 <= q < ids@.len() ==> #[trigger] ids@[q] < graph.edges().len(),
            forall|q: int| 0 <= q < k ==> !(graph.labels()[(#[trigger] ids@[q]) as int] == label@ && superblock@.contains(graph.edges()[ids@[q] as int].1)),
        decreases ids.len() - k,
    {
        let e = ids[k];
        if same(graph.label(e), label) && superblock.contains(&graph.target(e)) {
            return true;
        }
        k += 1;
    }
    false
}

/// Splits a block by whether its states have a transition with the label
/// into the superblock: see `refined_block`.
pub fn refine_block(graph: &MachineGraph, block: &OrdSet<usize>, superblock: &OrdSet<usize>, label: &MachineLabel) -> (r: OrdSet<OrdSet<usize>>)
    requires
        graph.wf(),
        block.wf(),
        superblock.wf(),
        below(block@, graph.nodes().len()),
    ensures
        blocks_ok(r, graph.nodes().len()),
        r@ == refined_block(graph.edges(), graph.labels(), block.keys(), superblock@, label@),
        forall|x: usize| block@.contains(x) ==> covered(r@, x),
        !r@.contains(Seq::<usize>::empty()),
{
    let ghost n = graph.nodes().len();
    let ghost step = split_step(graph.edges(), graph.labels(), superblock@, label@);
    let mut yes: OrdSet<usize> = OrdSet::new();
    let mut no: OrdSet<usize> = OrdSet::new();
    let mut i: usize = 0;
    while i < block.len()
        invariant
            i <= block.keys().len(),
            graph.wf(),
            block.wf(),
            superblock.wf(),
            n == graph.nodes().len(),
            below(block@, n),
            step == split_step(graph.edges(), graph.labels(), superblock@, label@),
            yes.wf(),
            no.wf(),
            below(yes@, n),
            below(no@, n),
            (yes@, no@) == fold_upto(block.keys(), (Set::<usize>::empty(), Set::<usize>::empty()), step, i as int),
            forall|q: int| 0 <= q < i ==> yes@.contains(#[trigger] block.keys()[q]) || no@.contains(block.keys()[q]),
        decreases block.keys().len() - i,
    {
        let x = *block.get(i);
        if has_move_into(graph, x, superblock, label) {
            yes.insert(x);
        } else {
            no.insert(x);
        }
        i += 1;
    }
    let mut r: OrdSet<OrdSet<usize>> = OrdSet::new();
    proof {
        yes.lemma_wf();
        no.lemma_wf();
    }
    let ghost ykeys = yes.keys();
    let ghost nkeys = no.keys();
    if !yes.is_empty() {
        r.insert(yes);
    }
    if !no.is_empty() {
        r.insert(no);
    }
    proof {
        assert forall|x: usize| block@.contains(x) implies covered(r@, x) by {
            let q = choose|q: int| 0 <= q < block.keys().len() && block.keys()[q] == x;
            if ykeys.to_set().contains(block.keys()[q]) {
                assert(r@.contains(ykeys));
                assert(ykeys.contains(x));
            } else {
                assert(nkeys.to_set().contains(block.keys()[q]));
                assert(r@.contains(nkeys));
                assert(nkeys.contains(x));
            }
        }
        assert forall|b: Seq<usize>| r@.contains(b) implies increasing::<usize>(b) && below(b.to_set(), n) by {
        }
        if r@.contains(Seq::<usize>::empty()) {
            if ykeys == Seq::<usize>::empty() {
                assert(ykeys.to_set() =~= Set::<usize>::empty());
            } else {
                assert(nkeys.to_set() =~= Set::<usize>::empty());
            }
        }
    }
    r
}

/// Takes in a block: its parts join the new partition.
pub open spec fn refine_step(edges: Seq<(usize, usize)>, labels: Seq<MachineLabelView>, sup: Set<usize>, l: MachineLabelView) -> spec_fn(Blocks, Seq<usize>) -> Blocks {
    |acc: Blocks, block: Seq<usize>| acc.union(refined_block(edges, labels, block, sup, l))
}

/// A partition in which each block is split by whether its states have a
/// transition with the label into the set of states.
pub open spec fn refined(edges: Seq<(usize, usize)>, labels: Seq<MachineLabelView>, partition: Blocks, sup: Set<usize>, l: MachineLabelView) -> Blocks {
    fold(sorted::<OrdSet<usize>>(partition), Set::<Seq<usize>>::empty(), refine_step(edges, labels, sup, l))
}

/// Splits each block of a partition by whether its states have a
/// transition with the label into the superblock: see `refined`.
pub fn refine_partition(graph: &MachineGraph, partition: &OrdSet<OrdSet<usize>>, superblock: &OrdSet<usize>, label: &MachineLabel) -> (r: OrdSet<OrdSet<usize>>)
    requires
        graph.wf(),
        blocks_ok(*partition, graph.nodes().len()),
        superblock.wf(),
    ensures
        blocks_ok(r, graph.nodes().len()),
        r@ == refined(graph.edges(), graph.labels(), partition@, superblock@, label@),
        forall|x: usize| covered(partition@, x) ==> covered(r@, x),
        !r@.contains(Seq::<usize>::empty()),
{
    let ghost step = refine_step(graph.edges(), graph.labels(), superblock@, label@);
    let mut r: OrdSet<OrdSet<usize>> = OrdSet::new();
    proof {
        partition.lemma_wf();
    }
    let mut i: usize = 0;
    while i < partition.len()
        invariant
            i <= partition.keys().len(),
            graph.wf(),
            blocks_ok(*partition, graph.nodes().len()),
            superblock.wf(),
            step == refine_step(graph.edges(), graph.labels(), superblock@, label@),
            blocks_ok(r, graph.nodes().len()),
            r@ == fold_upto(partition.keys(), Set::<Seq<usize>>::empty(), step, i as int),
            forall|q: int, x: usize| 0 <= q < i && (#[trigger] partition.keys()[q]).contains(x) ==> #[trigger] covered(r@, x),
            !r@.contains(Seq::<usize>::empty()),
        decreases partition.keys().len() - i,
    {
        let block = partition.get(i);
        proof {
            assert(partition@.contains(block.keys()));
        }
        let parts = refine_block(graph, block, superblock, label);
        let ghost before = r@;
        r.extend(&parts);
        proof {
            assert forall|q: int, x: usize| 0 <= q < i + 1 && (#[trigger] partition.keys()[q]).contains(x) implies #[trigger] covered(r@, x) by {
                if q < i {
                    assert(covered(before, x));
                    let b = choose|b: Seq<usize>| before.contains(b) && b.contains(x);
                    assert(r@.contains(b));
                } else {
                    assert(block@.contains(x));
                    assert(covered(parts@, x));
                    let b = choose|b: Seq<usize>| parts@.contains(b) && b.contains(x);
                    assert(r@.contains(b));
                }
            }
        }
        i += 1;
    }
    proof {
        assert forall|x: usize| covered(partition@, x) implies covered(r@, x) by {
            let b = choose|b: Seq<usize>| partition@.contains(b) && b.contains(x);
            let q = choose|q: int| 0 <= q < partition.keys().len() && partition.keys()[q] == b;
            assert(partition.keys()[q].contains(x));
        }
    }
    r
}

/// Takes in an edge that enters a state: its label joins the set.
pub open spec fn pre_label_edge_step(labels: Seq<MachineLabelView>) -> spec_fn(Set<MachineLabelView>, usize) -> Set<MachineLabelView> {
    |acc: Set<MachineLabelView>, e: usize| acc.insert(labels[e as int])
}

/// Takes in a state: each edge that enters it.
pub open spec fn pre_label_step(edges: Seq<(usize, usize)>, labels: Seq<MachineLabelView>) -> spec_fn(Set<MachineLabelView>, usize) -> Set<MachineLabelView> {
    |acc: Set<MachineLabelView>, x: usize| fold(edges_into(edges, x), acc, pre_label_edge_step(labels))
}

/// The labels of the transitions into the states of a block.
pub open spec fn pre_labels_of(edges: Seq<(usize, usize)>, labels: Seq<MachineLabelView>, block: Seq<usize>) -> Set<MachineLabelView> {
    fold(block, Set::<MachineLabelView>::empty(), pre_label_step(edges, labels))
}

/// The labels of the transitions into the states of a block.
pub fn pre_labels(graph: &MachineGraph, block: &OrdSet<usize>) -> (r: OrdSet<MachineLabel>)
    requires
        graph.wf(),
        block.wf(),
        below(block@, graph.nodes().len()),
    ensures
        r.wf(),
        r@ == pre_labels_of(graph.edges(), graph.labels(), block.keys()),
{
    let ghost nstep = pre_label_step(graph.edges(), graph.labels());
    let ghost estep = pre_label_edge_step(graph.labels());
    let mut r: OrdSet<MachineLabel> = OrdSet::new();
    proof {
        graph.lemma_wf();
    }
    let mut i: usize = 0;
    while i < block.len()
        invariant
            i <= block.keys().len(),
            graph.wf(),
            block.wf(),
            below(block@, graph.nodes().len()),
            graph.edges().len() == graph.labels().len(),
            nstep == pre_label_step(graph.edges(), graph.labels()),
            estep == pre_label_edge_step(graph.labels()),
            r.wf(),
            r@ == fold_upto(block.keys(), Set::<MachineLabelView>::empty(), nstep, i as int),
        decreases block.keys().len() - i,
    {
        let ids = graph.in_edges(*block.get(i));
        let ghost at_node = r@;
        let mut k: usize = 0;
        while k < ids.len()
            invariant
                k <= ids.len(),
                graph.wf(),
                graph.edges().len() == graph.labels().len(),
                forall|q: int| 0 <= q < ids@.len() ==> #[trigger] ids@[q] < graph.edges().len(),
                estep == pre_label_edge_step(graph.labels()),
                r.wf(),
                r@ == fold_upto(ids@, at_node, estep, k as int),
            decreases ids.len() - k,
        {
            r.insert(graph.label(ids[k]).duplicate());
            k += 1;
        }
        i += 1;
    }
    r
}

/// Takes in a state: it goes with the states without transitions or with
/// the others.
pub open spec fn sink_step(edges: Seq<(usize, usize)>) -> spec_fn((Set<usize>, Set<usize>), usize) -> (Set<usize>, Set<usize>) {
    |acc: (Set<usize>, Set<usize>), x: usize|
        if edges_from(edges, x).len() == 0 {
            (acc.0.insert(x), acc.1)
        } else {
            (acc.0, acc.1.insert(x))
        }
}

/// The partition from which refinement starts: the states without
/// transitions and the others, each a block even where it holds no state.
pub open spec fn first_partition(n: nat, edges: Seq<(usize, usize)>) -> Blocks {
    let p = fold(indices(n), (Set::<usize>::empty(), Set::<usize>::empty()), sink_step(edges));
    Set::<Seq<usize>>::empty().insert(sorted::<usize>(p.0)).insert(sorted::<usize>(p.1))
}

/// Takes in a label into a superblock: the partition is refined by it.
pub open spec fn sweep_label_step(edges: Seq<(usize, usize)>, labels: Seq<MachineLabelView>, sup: Seq<usize>) -> spec_fn(Blocks, MachineLabelView) -> Blocks {
    |p: Blocks, l: MachineLabelView| refined(edges, labels, p, sup.to_set(), l)
}

/// Takes in a superblock: the partition is refined by each label into it.
pub open spec fn sweep_block_step(edges: Seq<(usize, usize)>, labels: Seq<MachineLabelView>) -> spec_fn(Blocks, Seq<usize>) -> Blocks {
    |p: Blocks, sup: Seq<usize>| fold(sorted::<MachineLabel>(pre_labels_of(edges, labels, sup)), p, sweep_label_step(edges, labels, sup))
}

/// One sweep of refinement: the partition is refined by each block that it
/// had before the sweep and each label into that block.
pub open spec fn sweep(edges: Seq<(usize, usize)>, labels: Seq<MachineLabelView>, p: Blocks) -> Blocks {
    fold(sorted::<OrdSet<usize>>(p), p, sweep_block_step(edges, labels))
}

/// Sweeps of refinement from a partition on: until a sweep leaves the
/// number of blocks as it was, and no more sweeps than `fuel`.
pub open spec fn sweeps(edges: Seq<(usize, usize)>, labels: Seq<MachineLabelView>, p: Blocks, old_len: nat, fuel: nat) -> Blocks
    decreases fuel,
{
    if fuel == 0 || p.len() == old_len {
        p
    } else {
        sweeps(edges, labels, sweep(edges, labels, p), p.len(), (fuel - 1) as nat)
    }
}

/// Whether sweeps of refinement from a partition on end because a sweep
/// leaves the number of blocks as it was, within `fuel` sweeps.
pub open spec fn sweeps_end(edges: Seq<(usize, usize)>, labels: Seq<MachineLabelView>, p: Blocks, old_len: nat, fuel: nat) -> bool
    decreases fuel,
{
    if p.len() == old_len {
        true
    } else if fuel == 0 {
        false
    } else {
        sweeps_end(edges, labels, sweep(edges, labels, p), p.len(), (fuel - 1) as nat)
    }
}

/// The partition of the states of a machine into blocks of states that
/// behave alike: refinement from the first partition on. The first sweep
/// may take the empty block away; each later sweep but the last adds a
/// block, and there are no more blocks than states.
pub open spec fn refinement(n: nat, edges: Seq<(usize, usize)>, labels: Seq<MachineLabelView>) -> Blocks {
    sweeps(edges, labels, first_partition(n, edges), 0, n + 2)
}

/// Whether the refinement of a machine begins with two blocks that hold a
/// state each, the states without transitions and the others, or does not
/// end with its first sweep. It then ends with a steady partition. Where a
/// machine has states of one kind only and the first sweep leaves two
/// blocks, refinement ends there, steady or not.
pub open spec fn refines_well(n: nat, edges: Seq<(usize, usize)>, labels: Seq<MachineLabelView>) -> bool {
    let first = first_partition(n, edges);
    !first.contains(no_state()) || sweep(edges, labels, first).len() != first.len()
}

/// Whether no two states of a machine behave alike: a steady partition of
/// its states that leaves no state out and keeps the states without
/// transitions apart from the others holds no two states in one block.
pub open spec fn all_told_apart(n: nat, edges: Seq<(usize, usize)>, labels: Seq<MachineLabelView>) -> bool {
    forall|q: Blocks, a: usize, b: usize| #[trigger] steady_below(q, first_partition(n, edges), edges, labels, n) && #[trigger] together(q, a, b) ==> a == b
}

/// Whether the refinement of a machine ends because a sweep leaves the
/// number of blocks as it was.
pub open spec fn refinement_ends(n: nat, edges: Seq<(usize, usize)>, labels: Seq<MachineLabelView>) -> bool {
    sweeps_end(edges, labels, first_partition(n, edges), 0, n + 2)
}

/// The partition of the states of a machine into blocks of states that
/// behave alike: see `refinement`. The blocks are apart and leave no state
/// out, and they keep apart only what every steady partition keeps apart
/// that keeps the states without transitions apart from the others.
/// Refinement ends because a sweep leaves the number of blocks as it was;
/// where the machine has states of both kinds, so that refinement begins
/// with two blocks that hold a state each, it ends with a steady partition
/// that a further sweep leaves as it is. Of a machine in which no two
/// states behave alike, refinement that ends steady keeps every two states
/// apart.
pub fn partition_refinement(graph: &MachineGraph) -> (r: OrdSet<OrdSet<usize>>)
    requires
        graph.wf(),
    ensures
        blocks_ok(r, graph.nodes().len()),
        r@ == refinement(graph.nodes().len(), graph.edges(), graph.labels()),
        forall|x: usize| x < graph.nodes().len() ==> covered(r@, x),
        apart(r@, graph.nodes().len()),
        refinement_ends(graph.nodes().len(), graph.edges(), graph.labels()),
        refines_well(graph.nodes().len(), graph.edges(), graph.labels()) ==> steady(r@, graph.edges(), graph.labels()) && sweep(graph.edges(), graph.labels(), r@) == r@,
        coarsest_below(r@, first_partition(graph.nodes().len(), graph.edges()), graph.edges(), graph.labels(), graph.nodes().len()),
        finer(r@, first_partition(graph.nodes().len(), graph.edges())),
        refines_well(graph.nodes().len(), graph.edges(), graph.labels()) ==> refined_well(graph.nodes().len(), graph.edges(), graph.labels(), r@),
        all_told_apart(graph.nodes().len(), graph.edges(), graph.labels()) && steady(r@, graph.edges(), graph.labels()) ==> forall|a: usize, b: usize| #[trigger] together(r@, a, b) ==> a == b,
{
    let ghost n = graph.nodes().len();
    let ghost edges = graph.edges();
    let ghost labels = graph.labels();
    let ghost all = indices(n);
    let ghost sstep = sink_step(edges);
    let count = graph.node_count();
    let mut sinks: OrdSet<usize> = OrdSet::new();
    let mut others: OrdSet<usize> = OrdSet::new();
    proof {
        graph.lemma_wf();
    }
    let mut x: usize = 0;
    while x < count
        invariant
            x <= count,
            count == n,
            n == graph.nodes().len(),
            edges == graph.edges(),
            all == indices(n),
            sstep == sink_step(edges),
            graph.wf(),
            sinks.wf(),
            others.wf(),
            below(sinks@, n),
            below(others@, n),
            (sinks@, others@) == fold_upto(all, (Set::<usize>::empty(), Set::<usize>::empty()), sstep, x as int),
            forall|q: usize| q < x ==> sinks@.contains(q) || others@.contains(q),
            forall|q: usize| sinks@.contains(q) || others@.contains(q) ==> q < x,
            forall|q: usize| !(sinks@.contains(q) && others@.contains(q)),
        decreases count - x,
    {
        if graph.out_edges(x).len() == 0 {
            sinks.insert(x);
        } else {
            others.insert(x);
        }
        x += 1;
    }
    let ghost skeys = sinks.keys();
    let ghost okeys = others.keys();
    proof {
        sinks.lemma_wf();
        others.lemma_wf();
    }
    let mut partition: OrdSet<OrdSet<usize>> = OrdSet::new();
    partition.insert(sinks);
    partition.insert(others);
    proof {
        assert forall|q: usize| q < n implies covered(partition@, q) by {
            if skeys.to_set().contains(q) {
                assert(partition@.contains(skeys));
                assert(skeys.contains(q));
            } else {
                assert(okeys.to_set().contains(q));
                assert(partition@.contains(okeys));
                assert(okeys.contains(q));
            }
        }
        assert forall|b: Seq<usize>| partition@.contains(b) implies increasing::<usize>(b) && below(b.to_set(), n) by {
        }
        assert forall|a: Seq<usize>, b: Seq<usize>, q: usize| partition@.contains(a) && partition@.contains(b) && #[trigger] a.contains(q) && #[trigger] b.contains(q) implies a == b by {
            assert(a.to_set().contains(q));
            assert(b.to_set().contains(q));
        }
    }
    let mut old_len: usize = 0;
    let mut fuel: u128 = count as u128 + 2;
    let ghost total = sweeps(edges, labels, partition@, 0, fuel as nat);
    let ghost ends = sweeps_end(edges, labels, partition@, 0, fuel as nat);
    let ghost mut swept = false;
    let ghost whole = !partition@.contains(no_state());
    let ghost sound = refines_well(n, edges, labels);
    proof {
        partition.lemma_wf();
        assert(partition@.contains(skeys));
        assert(partition@.len() > 0);
        assert(partition@ =~= first_partition(n, edges));
        lemma_coarsest_first(partition@, edges, labels, n);
    }
    let ghost first = partition@;
    while fuel > 0 && partition.len() != old_len
        invariant
            graph.wf(),
            n == graph.nodes().len(),
            edges == graph.edges(),
            labels == graph.labels(),
            blocks_ok(partition, n),
            partition.keys().len() == partition@.len(),
            forall|q: usize| q < n ==> covered(partition@, q),
            total == sweeps(edges, labels, partition@, old_len as nat, fuel as nat),
            ends == sweeps_end(edges, labels, partition@, old_len as nat, fuel as nat),
            apart(partition@, n),
            !swept ==> old_len == 0 && fuel == n + 2 && partition@.len() > 0,
            swept ==> partition@.len() == old_len || (!partition@.contains(no_state()) && fuel + partition@.len() >= n + 1),
            whole ==> !partition@.contains(no_state()),
            sound == refines_well(n, edges, labels),
            first == first_partition(n, edges),
            whole == !first.contains(no_state()),
            !swept ==> partition@ == first,
            swept && sound ==> !partition@.contains(no_state()),
            swept && sound && partition@.len() == old_len ==> steady(partition@, edges, labels) && sweep(edges, labels, partition@) == partition@,
            coarsest_below(partition@, first, edges, labels, n),
            finer(partition@, first),
            edges.len() == labels.len(),
            edges.len() <= usize::MAX,
            forall|e: int| 0 <= e < edges.len() ==> (#[trigger] edges[e]).1 < n,
        decreases fuel,
    {
        let partition_old = partition.duplicate();
        proof {
            partition.lemma_same_keys(&partition_old);
            partition_old.lemma_wf();
        }
        old_len = partition.len();
        let ghost bstep = sweep_block_step(edges, labels);
        let ghost start = partition@;
        let ghost tidy = !start.contains(no_state());
        let ghost mut changed = false;
        let mut b: usize = 0;
        while b < partition_old.len()
            invariant
                b <= partition_old.keys().len(),
                graph.wf(),
                n == graph.nodes().len(),
                edges == graph.edges(),
                labels == graph.labels(),
                blocks_ok(partition_old, n),
                partition_old.keys() == sorted::<OrdSet<usize>>(start),
                blocks_ok(partition, n),
                forall|q: usize| q < n ==> covered(partition@, q),
                bstep == sweep_block_step(edges, labels),
                partition@ == fold_upto(partition_old.keys(), start, bstep, b as int),
                apart(partition@, n),
                heads(start).subset_of(heads(partition@)),
                !changed ==> partition@ == start,
                changed ==> !partition@.contains(no_state()),
                start.len() == old_len,
                tidy ==> !partition@.contains(no_state()) && partition@.len() >= start.len(),
                tidy && partition@.len() == start.len() ==> partition@ == start && forall|q: int, t: MachineLabelView|
                    0 <= q < b && #[trigger] pre_labels_of(edges, labels, partition_old.keys()[q]).contains(t) ==> agreed(start, edges, labels, partition_old.keys()[q].to_set(), t),
                coarsest_below(partition@, first, edges, labels, n),
                finer(partition@, first),
                coarsest_below(start, first, edges, labels, n),
                apart(start, n),
                partition_old@ == start,
                edges.len() == labels.len(),
                edges.len() <= usize::MAX,
                forall|e: int| 0 <= e < edges.len() ==> (#[trigger] edges[e]).1 < n,
            decreases partition_old.keys().len() - b,
        {
            let superblock = partition_old.get(b);
            proof {
                assert(partition_old@.contains(superblock.keys()));
            }
            let pre = pre_labels(graph, superblock);
            let ghost lstep = sweep_label_step(edges, labels, superblock.keys());
            let ghost at_block = partition@;
            proof {
                pre.lemma_wf();
            }
            let mut l: usize = 0;
            while l < pre.len()
                invariant
                    l <= pre.keys().len(),
                    graph.wf(),
                    n == graph.nodes().len(),
                    edges == graph.edges(),
                    labels == graph.labels(),
                    pre.wf(),
                    superblock.wf(),
                    blocks_ok(partition, n),
                    forall|q: usize| q < n ==> covered(partition@, q),
                    lstep == sweep_label_step(edges, labels, superblock.keys()),
                    partition@ == fold_upto(pre.keys(), at_block, lstep, l as int),
                    apart(partition@, n),
                    heads(start).subset_of(heads(partition@)),
                    !changed ==> partition@ == start,
                    changed ==> !partition@.contains(no_state()),
                    start.len() == old_len,
                    b < partition_old.keys().len(),
                    superblock.keys() == partition_old.keys()[b as int],
                    pre@ == pre_labels_of(edges, labels, superblock.keys()),
                    tidy ==> !partition@.contains(no_state()) && partition@.len() >= start.len(),
                    tidy && partition@.len() == start.len() ==> partition@ == start && forall|q: int, t: MachineLabelView|
                        0 <= q < b && #[trigger] pre_labels_of(edges, labels, partition_old.keys()[q]).contains(t) ==> agreed(start, edges, labels, partition_old.keys()[q].to_set(), t),
                    tidy && partition@.len() == start.len() ==> forall|j: int| 0 <= j < l ==> agreed(start, edges, labels, superblock@, #[trigger] pre.keys()[j]),
                    coarsest_below(partition@, first, edges, labels, n),
                    finer(partition@, first),
                    coarsest_below(start, first, edges, labels, n),
                    apart(start, n),
                    start.contains(superblock.keys()),
                    edges.len() == labels.len(),
                    edges.len() <= usize::MAX,
                    forall|e: int| 0 <= e < edges.len() ==> (#[trigger] edges[e]).1 < n,
                decreases pre.keys().len() - l,
            {
                proof {
                    lemma_sweep_step(edges, labels, start, partition@, superblock@, pre.keys()[l as int], n, tidy);
                    lemma_coarsest_step(edges, labels, first, start, partition@, superblock.keys(), pre.keys()[l as int], n);
                    lemma_refined_finer(edges, labels, first, partition@, superblock@, pre.keys()[l as int], n);
                    changed = true;
                }
                partition = refine_partition(graph, &partition, superblock, pre.get(l));
                l += 1;
            }
            proof {
                if tidy && partition@.len() == start.len() {
                    assert forall|q: int, t: MachineLabelView| 0 <= q < b + 1 && #[trigger] pre_labels_of(edges, labels, partition_old.keys()[q]).contains(t) implies agreed(start, edges, labels, partition_old.keys()[q].to_set(), t) by {
                        if q == b {
                            assert(pre@.contains(t));
                            let j = choose|j: int| 0 <= j < pre.keys().len() && pre.keys()[j] == t;
                            assert(agreed(start, edges, labels, superblock@, pre.keys()[j]));
                        }
                    }
                }
            }
            b += 1;
        }
        proof {
            partition.lemma_wf();
            lemma_heads(start, n);
            lemma_heads(partition@, n);
            if changed {
                assert(partition@.remove(no_state()) =~= partition@);
                if swept && !start.contains(no_state()) {
                    assert(start.remove(no_state()) =~= start);
                    vstd::set_lib::lemma_len_subset(heads(start), heads(partition@));
                }
            }
            assert(partition@ == sweep(edges, labels, start));
            if sound {
                if swept {
                    assert(tidy);
                } else {
                    assert(start == first);
                    assert(whole == tidy);
                    if !whole {
                        assert(partition@.len() != start.len());
                        assert(changed);
                    }
                }
                assert(!partition@.contains(no_state()));
            }
            if tidy && partition@.len() == start.len() {
                assert forall|sup: Seq<usize>, t: MachineLabelView| #[trigger] start.contains(sup) && #[trigger] pre_labels_of(edges, labels, sup).contains(t) implies agreed(start, edges, labels, sup.to_set(), t) by {
                    let q = choose|q: int| 0 <= q < partition_old.keys().len() && partition_old.keys()[q] == sup;
                    assert(pre_labels_of(edges, labels, partition_old.keys()[q]).contains(t));
                }
            }
            swept = true;
        }
        fuel -= 1;
    }
    proof {
        if partition@.len() != old_len {
            lemma_heads(partition@, n);
            assert(partition@.remove(no_state()) =~= partition@);
        }
        if all_told_apart(n, edges, labels) && steady(partition@, edges, labels) {
            assert(steady_below(partition@, first, edges, labels, n));
        }
    }
    partition
}

/// The position of the first block that holds a state.
pub open spec fn first_block(blocks: Seq<Seq<usize>>, x: usize) -> int {
    choose|k: int| 0 <= k < blocks.len() && blocks[k].contains(x) && forall|j: int| 0 <= j < k ==> !(#[trigger] blocks[j]).contains(x)
}

/// The position of the first block of a partition that holds a state.
pub fn block_index(partition: &OrdSet<OrdSet<usize>>, x: usize) -> (k: usize)
    requires
        partition.wf(),
        covered(partition@, x),
    ensures
        k < partition.keys().len(),
        k == first_block(partition.keys(), x),
        partition.keys()[k as int].contains(x),
{
    let mut k: usize = 0;
    proof {
        let b = choose|b: Seq<usize>| partition@.contains(b) && b.contains(x);
        let q = choose|q: int| 0 <= q < partition.keys().len() && partition.keys()[q] == b;
        assert(partition.keys()[q].contains(x));
    }
    while k < partition.len()
        invariant
            k <= partition.keys().len(),
            partition.wf(),
            exists|q: int| 0 <= q < partition.keys().len() && (#[trigger] partition.keys()[q]).contains(x),
            forall|j: int| 0 <= j < k ==> !(#[trigger] partition.keys()[j]).contains(x),
        decreases partition.keys().len() - k,
    {
        let block = partition.get(k);
        if block.contains(&x) {
            proof {
                assert(partition.keys()[k as int].contains(x));
                let w = first_block(partition.keys(), x);
                assert(0 <= w < partition.keys().len() && partition.keys()[w].contains(x) && forall|j: int| 0 <= j < w ==> !(#[trigger] partition.keys()[j]).contains(x));
                if w < k {
                    assert(!partition.keys()[w].contains(x));
                }
                if k < w {
                    assert(!partition.keys()[k as int].contains(x));
                }
            }
            return k;
        }
        k += 1;
    }
    proof {
        let q = choose|q: int| 0 <= q < partition.keys().len() && (#[trigger] partition.keys()[q]).contains(x);
        assert(!partition.keys()[q].contains(x));
    }
    0
}

/// The edges of a machine of blocks as far as they are found: no two with
/// the same ends and label.
pub struct Merged {
    pub edges: Seq<(usize, usize)>,
    pub labels: Seq<MachineLabelView>,
    pub seen: Set<(usize, MachineLabelView, usize)>,
}

/// Takes in an edge: the blocks of its ends have an edge with its label,
/// which is new unless they have one.
pub open spec fn merge_edge_step(edges: Seq<(usize, usize)>, labels: Seq<MachineLabelView>, blocks: Seq<Seq<usize>>) -> spec_fn(Merged, usize) -> Merged {
    |st: Merged, e: usize|
        {
            let a = first_block(blocks, edges[e as int].0) as usize;
            let b = first_block(blocks, edges[e as int].1) as usize;
            if st.seen.contains((a, labels[e as int], b)) {
                st
            } else {
                Merged { edges: st.edges.push((a, b)), labels: st.labels.push(labels[e as int]), seen: st.seen.insert((a, labels[e as int], b)) }
            }
        }
}

/// Takes in a state: each edge that leaves it, the one added last first.
pub open spec fn merge_node_step(edges: Seq<(usize, usize)>, labels: Seq<MachineLabelView>, blocks: Seq<Seq<usize>>) -> spec_fn(Merged, usize) -> Merged {
    |st: Merged, n: usize| fold(edges_from(edges, n), st, merge_edge_step(edges, labels, blocks))
}

/// The machine of the blocks of states that behave alike: each block is a
/// state, named after its states, and has the transitions of its states.
pub open spec fn minimal_view(m: MachineView) -> MachineView {
    let blocks = sorted::<OrdSet<usize>>(refinement(m.nodes.len(), m.edges, m.labels));
    let merged = fold(indices(m.nodes.len()), Merged { edges: Seq::empty(), labels: Seq::empty(), seen: Set::empty() }, merge_node_step(m.edges, m.labels, blocks));
    MachineView { nodes: Seq::new(blocks.len(), |k: int| set_name(m.nodes, blocks[k])), edges: merged.edges, labels: merged.labels, initial: first_block(blocks, m.initial) as usize }
}

/// The machine of the blocks of states that behave alike: see
/// `minimal_view`. Its labels are labels of the given machine; and if no
/// state of that machine has two transitions with one label, no state of
/// this one has, where the refinement ends with a steady partition.
#[verifier::rlimit(100)]
pub fn minimal_machine(graph: &MachineGraph, i: usize) -> (r: (MachineGraph, usize))
    requires
        graph.wf(),
        i < graph.nodes().len(),
    ensures
        r.0.wf(),
        r.1 < r.0.nodes().len(),
        carries_events::<MachineLabel>(graph.labels()) ==> carries_events::<MachineLabel>(r.0.labels()),
        ({
            let m = minimal_view(MachineView { nodes: graph.nodes(), edges: graph.edges(), labels: graph.labels(), initial: i });
            &&& r.0.nodes() == m.nodes
            &&& r.0.edges() == m.edges
            &&& r.0.labels() == m.labels
            &&& r.1 == m.initial
        }),
        labels_among(r.0.labels(), graph.labels()),
        distinct_out(graph.edges(), graph.labels()) && refines_well(graph.nodes().len(), graph.edges(), graph.labels()) ==> distinct_out(r.0.edges(), r.0.labels()),
        funnelled(graph.edges(), graph.labels()) ==> distinct_out(r.0.edges(), r.0.labels()),
{
    let ghost n = graph.nodes().len();
    let ghost edges = graph.edges();
    let ghost labels = graph.labels();
    let partition = partition_refinement(graph);
    let ghost blocks = partition.keys();
    let mut minimal: MachineGraph = Digraph::new();
    let mut seen: OrdSet<(usize, MachineLabel, usize)> = OrdSet::new();
    proof {
        partition.lemma_wf();
        graph.lemma_wf();
    }
    let mut b: usize = 0;
    while b < partition.len()
        invariant
            b <= partition.keys().len(),
            graph.wf(),
            n == graph.nodes().len(),
            blocks_ok(partition, n),
            blocks == partition.keys(),
            minimal.wf(),
            minimal.edges().len() == 0,
            minimal.labels().len() == 0,
            minimal.nodes() == Seq::new(b as nat, |k: int| set_name(graph.nodes(), blocks[k])),
        decreases partition.keys().len() - b,
    {
        let block = partition.get(b);
        proof {
            assert(partition@.contains(block.keys()));
            assert(below(block.keys().to_set(), n));
        }
        minimal.add_node(state_of_set(graph, block));
        proof {
            assert(minimal.nodes() =~= Seq::new((b + 1) as nat, |k: int| set_name(graph.nodes(), blocks[k])));
        }
        b += 1;
    }
    let ghost nstep = merge_node_step(edges, labels, blocks);
    let ghost estep = merge_edge_step(edges, labels, blocks);
    let count = graph.node_count();
    proof {
        minimal.lemma_wf();
        assert(minimal.edges() =~= Seq::<(usize, usize)>::empty());
        assert(minimal.labels() =~= Seq::<MachineLabelView>::empty());
        lemma_gathered_none(edges, labels, blocks, seen@);
    }
    let mut node: usize = 0;
    while node < count
        invariant
            node <= count,
            count == n,
            n == graph.nodes().len(),
            edges == graph.edges(),
            labels == graph.labels(),
            edges.len() == labels.len(),
            graph.wf(),
            blocks_ok(partition, n),
            blocks == partition.keys(),
            forall|x: usize| x < n ==> covered(partition@, x),
            nstep == merge_node_step(edges, labels, blocks),
            estep == merge_edge_step(edges, labels, blocks),
            minimal.wf(),
            minimal.nodes() == Seq::new(blocks.len(), |k: int| set_name(graph.nodes(), blocks[k])),
            seen.wf(),
            (Merged { edges: minimal.edges(), labels: minimal.labels(), seen: seen@ }) == fold_upto(indices(n), Merged { edges: Seq::empty(), labels: Seq::empty(), seen: Set::empty() }, nstep, node as int),
            gathered(edges, labels, blocks, minimal.edges(), minimal.labels(), seen@),
        decreases count - node,
    {
        let ids = graph.out_edges(node);
        let source = block_index(&partition, node);
        let ghost at_node = Merged { edges: minimal.edges(), labels: minimal.labels(), seen: seen@ };
        let mut k: usize = 0;
        while k < ids.len()
            invariant
                k <= ids.len(),
                n == graph.nodes().len(),
                edges == graph.edges(),
                labels == graph.labels(),
                edges.len() == labels.len(),
                graph.wf(),
                    blocks_ok(partition, n),
                blocks == partition.keys(),
                forall|x: usize| x < n ==> covered(partition@, x),
                forall|q: int| 0 <= q < ids@.len() ==> #[trigger] ids@[q] < edges.len() && edges[ids@[q] as int].0 == node,
                estep == merge_edge_step(edges, labels, blocks),
                source < blocks.len(),
                source == first_block(blocks, node),
                minimal.wf(),
                minimal.nodes() == Seq::new(blocks.len(), |q: int| set_name(graph.nodes(), blocks[q])),
                seen.wf(),
                    (Merged { edges: minimal.edges(), labels: minimal.labels(), seen: seen@ }) == fold_upto(ids@, at_node, estep, k as int),
                blocks[source as int].contains(node),
                gathered(edges, labels, blocks, minimal.edges(), minimal.labels(), seen@),
            decreases ids.len() - k,
        {
            let e = ids[k];
            let target = block_index(&partition, graph.target(e));
            let label = graph.label(e);
            let triple = (source, label.duplicate(), target);
            if !seen.contains(&triple) {
                proof {
                    lemma_gathered_push(edges, labels, blocks, minimal.edges(), minimal.labels(), seen@, e as int, source, target);
                }
                minimal.add_edge(source, target, label.duplicate());
                seen.insert(triple);
            }
            k += 1;
        }
        node += 1;
    }
    let initial = block_index(&partition, i);
    proof {
        partition.lemma_wf();
        lemma_gathered(edges, labels, blocks, minimal.edges(), minimal.labels(), seen@, n);
        lemma_among_carry(minimal.labels(), labels);
        if funnelled(edges, labels) {
            crate::ordset::increasing_no_duplicates::<OrdSet<usize>>(blocks);
            crate::composition::blocks::lemma_gathered_funnelled(edges, labels, blocks, minimal.edges(), minimal.labels(), seen@, n);
        }
    }
    (minimal, initial)
}

/// The machine that the subset construction makes of a machine.
pub open spec fn determinized_view(m: MachineView) -> MachineView {
    let d = determinized(m.edges, m.labels, m.initial);
    MachineView { nodes: Seq::new(d.origin.len(), |x: int| set_name(m.nodes, d.origin[x])), edges: d.edges, labels: d.labels, initial: 0 }
}

/// The projection of a protocol onto a role with a subscription: as the
/// protocol prescribes it, or, if asked for, made deterministic and then
/// reduced to the blocks of states that behave alike.
pub open spec fn projection(names: Seq<Seq<char>>, edges: Seq<(usize, usize)>, labels: Seq<LabelKey>, initial: usize, sub: Set<Seq<char>>, role: Seq<char>, minimize: bool) -> MachineView {
    let plain = plain_projection(names, edges, labels, initial, sub, role);
    if minimize {
        minimal_view(determinized_view(plain))
    } else {
        plain
    }
}

/// The machine of a role in a protocol: the role moves on the event types
/// that it observes and may issue its commands where the protocol lets it;
/// see `projection`. Made deterministic and reduced, the machine has no
/// state with two transitions by one command or one event type, if each
/// event type of the protocol is emitted by one transition and each command
/// enabled by one; or if each command goes with one event type and the
/// refinement ends with a steady partition.
pub fn project(swarm: &SwarmGraph, initial: usize, subs: &Subscriptions, role: Role, minimize: bool) -> (r: (MachineGraph, usize))
    requires
        swarm.wf(),
        labelled(swarm.labels()),
        subs.wf_sets(),
        initial < swarm.nodes().len(),
    ensures
        r.0.wf(),
        r.1 < r.0.nodes().len(),
        carries_events::<MachineLabel>(r.0.labels()),
        ({
            let p = projection(swarm.nodes(), swarm.edges(), swarm.labels(), initial, set_at(subs.sets(), role@), role@, minimize);
            &&& r.0.nodes() == p.nodes
            &&& r.0.edges() == p.edges
            &&& r.0.labels() == p.labels
            &&& r.1 == p.initial
        }),
        minimize && one_event_per_command(swarm.labels()) && machine_refines_well(determinized_view(plain_projection(swarm.nodes(), swarm.edges(), swarm.labels(), initial, set_at(subs.sets(), role@), role@)))
            ==> deterministic(r.0.edges(), r.0.labels()),
        minimize && confusion_free_labels(swarm.labels()) ==> deterministic(r.0.edges(), r.0.labels()),
{
    let sub = crate::composition::composition_swarm::sub_of(subs, &role);
    let (machine, machine_initial) = project_plain(swarm, initial, &sub, &role);
    if minimize {
        let ghost plain_labels = machine.labels();
        let (dfa, dfa_initial) = nfa_to_dfa(machine, machine_initial);
        let r = minimal_machine(&dfa, dfa_initial);
        proof {
            r.0.lemma_wf();
            if confusion_free_labels(swarm.labels()) {
                lemma_confusion_free(swarm.labels());
                lemma_among_among(r.0.labels(), dfa.labels(), plain_labels);
                lemma_apart_among(r.0.labels(), plain_labels);
                lemma_deterministic(r.0.edges(), r.0.labels());
            }
            if one_event_per_command(swarm.labels()) && refines_well(dfa.nodes().len(), dfa.edges(), dfa.labels()) {
                lemma_among_among(r.0.labels(), dfa.labels(), plain_labels);
                lemma_apart_among(r.0.labels(), plain_labels);
                lemma_deterministic(r.0.edges(), r.0.labels());
            }
        }
        r
    } else {
        (machine, machine_initial)
    }
}

/// Whether the refinement of a machine ends with a steady partition: see
/// `refines_well`.
pub open spec fn machine_refines_well(m: MachineView) -> bool {
    refines_well(m.nodes.len(), m.edges, m.labels)
}

/// That by which the transitions of a state are told apart: the command
/// of an `Execute` label, the event type of an `Input` label.
#[derive(Debug)]
pub enum DeterministicLabel {
    Command(Command),
    Event(EventType),
}

/// What a deterministic label stands for.
pub enum DeterministicKey {
    Command(Seq<char>),
    Event(Seq<char>),
}

/// That by which a machine label is told apart from the others of its state.
pub open spec fn det_key(l: MachineLabelView) -> DeterministicKey {
    match l {
        MachineLabelView::Execute { cmd, .. } => DeterministicKey::Command(cmd),
        MachineLabelView::Input { event_type } => DeterministicKey::Event(event_type),
    }
}

impl DeterministicLabel {
    pub open spec fn view(&self) -> DeterministicKey {
        match self {
            DeterministicLabel::Command(c) => DeterministicKey::Command(c@),
            DeterministicLabel::Event(e) => DeterministicKey::Event(e@),
        }
    }

    /// That by which a machine label is told apart.
    pub fn from(label: &MachineLabel) -> (r: Self)
        ensures
            r@ == det_key(label@),
    {
        match label {
            MachineLabel::Execute { cmd, .. } => DeterministicLabel::Command(cmd.duplicate()),
            MachineLabel::Input { event_type } => DeterministicLabel::Event(event_type.duplicate()),
        }
    }
}

impl Key for DeterministicLabel {
    type V = DeterministicKey;

    open spec fn key(&self) -> Self::V {
        self@
    }

    open spec fn valid(&self) -> bool {
        true
    }

    /// Commands come before event types.
    open spec fn lt(a: Self::V, b: Self::V) -> bool {
        match (a, b) {
            (DeterministicKey::Command(x), DeterministicKey::Command(y)) => crate::names::name_lt(x, y),
            (DeterministicKey::Command(_), DeterministicKey::Event(_)) => true,
            (DeterministicKey::Event(x), DeterministicKey::Event(y)) => crate::names::name_lt(x, y),
            _ => false,
        }
    }

    proof fn lt_irreflexive(a: Self::V) {
        match a {
            DeterministicKey::Command(x) => Command::lt_irreflexive(x),
            DeterministicKey::Event(x) => EventType::lt_irreflexive(x),
        }
    }

    proof fn lt_transitive(a: Self::V, b: Self::V, c: Self::V) {
        match (a, b, c) {
            (DeterministicKey::Command(x), DeterministicKey::Command(y), DeterministicKey::Command(z)) => Command::lt_transitive(x, y, z),
            (DeterministicKey::Event(x), DeterministicKey::Event(y), DeterministicKey::Event(z)) => EventType::lt_transitive(x, y, z),
            _ => {},
        }
    }

    proof fn lt_connected(a: Self::V, b: Self::V) {
        match (a, b) {
            (DeterministicKey::Command(x), DeterministicKey::Command(y)) => Command::lt_connected(x, y),
            (DeterministicKey::Event(x), DeterministicKey::Event(y)) => EventType::lt_connected(x, y),
            _ => {},
        }
    }

    fn compare(&self, other: &Self) -> (o: Order) {
        match (self, other) {
            (DeterministicLabel::Command(x), DeterministicLabel::Command(y)) => x.compare(y),
            (DeterministicLabel::Command(_), DeterministicLabel::Event(_)) => Order::Less,
            (DeterministicLabel::Event(_), DeterministicLabel::Command(_)) => Order::Greater,
            (DeterministicLabel::Event(x), DeterministicLabel::Event(y)) => x.compare(y),
        }
    }

    fn duplicate(&self) -> (r: Self) {
        match self {
            DeterministicLabel::Command(c) => DeterministicLabel::Command(c.duplicate()),
            DeterministicLabel::Event(e) => DeterministicLabel::Event(e.duplicate()),
        }
    }
}

/// The name of a state of a machine, empty for a state without a name.
pub fn state_name(graph: &OptionGraph, index: usize) -> (r: String)
    requires
        graph.wf(),
        index < graph.nodes().len(),
    ensures
        r@ == <Option<State> as Named>::named(graph.nodes()[index as int]),
{
    graph.node(index).name().to_string()
}

/// The transitions of a state by that which tells them apart, and the
/// findings on transitions that are not told apart.
pub type Keyed = (Map<DeterministicKey, usize>, Seq<Error>);

/// Takes in an edge that leaves a state: it stands for its key unless an
/// earlier edge does, in which case it is a finding.
pub open spec fn keyed_step(labels: Seq<MachineLabelView>, side: Side) -> spec_fn(Keyed, usize) -> Keyed {
    |st: Keyed, e: usize|
        if st.0.dom().contains(det_key(labels[e as int])) {
            (st.0, st.1.push(Error::NonDeterministic(side, e)))
        } else {
            (st.0.insert(det_key(labels[e as int]), e), st.1)
        }
}

/// The transitions of a state by that which tells them apart.
pub open spec fn keyed(edges: Seq<(usize, usize)>, labels: Seq<MachineLabelView>, node: usize, side: Side) -> Keyed {
    fold(edges_from(edges, node), (Map::<DeterministicKey, usize>::empty(), Seq::<Error>::empty()), keyed_step(labels, side))
}

/// The edges of a map of keyed transitions in the order of their keys.
pub open spec fn in_key_order(m: Map<DeterministicKey, usize>) -> Seq<usize> {
    Seq::new(sorted::<DeterministicLabel>(m.dom()).len(), |i: int| m[sorted::<DeterministicLabel>(m.dom())[i]])
}

/// The comparison of the transitions of two states as far as it has come.
pub struct Merge {
    pub errors: Seq<Error>,
    pub pushed: Seq<(usize, usize)>,
    pub same: bool,
}

/// Holds the transitions of a state of the left machine, from the `i`th
/// on, against those of a state of the right machine, from the `j`th on,
/// both in the order of their keys: a transition that only one side has is
/// a finding against the other side; where both have a transition with the
/// same label, the pair of the targets waits for its visit unless it has
/// been visited.
pub open spec fn merge_from(left: MachineView, right: MachineView, li: usize, ri: usize, l: Seq<usize>, r: Seq<usize>, visited: Set<(usize, usize)>, i: int, j: int, st: Merge) -> Merge
    decreases l.len() - i + r.len() - j,
{
    if i < 0 || j < 0 || i > l.len() || j > r.len() {
        st
    } else if i >= l.len() && j >= r.len() {
        st
    } else if i >= l.len() {
        merge_from(left, right, li, ri, l, r, visited, i, j + 1, Merge { errors: st.errors.push(Error::MissingTransition(Side::Left, li, r[j])), pushed: st.pushed, same: false })
    } else if j >= r.len() {
        merge_from(left, right, li, ri, l, r, visited, i + 1, j, Merge { errors: st.errors.push(Error::MissingTransition(Side::Right, ri, l[i])), pushed: st.pushed, same: false })
    } else {
        let a = left.labels[l[i] as int];
        let b = right.labels[r[j] as int];
        if <MachineLabel as Key>::lt(a, b) {
            merge_from(left, right, li, ri, l, r, visited, i + 1, j, Merge { errors: st.errors.push(Error::MissingTransition(Side::Right, ri, l[i])), pushed: st.pushed, same: false })
        } else if a == b {
            let pair = (left.edges[l[i] as int].1, right.edges[r[j] as int].1);
            merge_from(left, right, li, ri, l, r, visited, i + 1, j + 1, Merge {
                errors: st.errors,
                pushed: if visited.contains(pair) {
                    st.pushed
                } else {
                    st.pushed.push(pair)
                },
                same: st.same,
            })
        } else {
            merge_from(left, right, li, ri, l, r, visited, i, j + 1, Merge { errors: st.errors.push(Error::MissingTransition(Side::Left, li, r[j])), pushed: st.pushed, same: false })
        }
    }
}

/// The comparison of two machines as far as it has come: the pairs of
/// states that wait for their visit, those that have been visited, and the
/// findings.
pub struct Comparison {
    pub stack: Seq<(usize, usize)>,
    pub visited: Set<(usize, usize)>,
    pub errors: Seq<Error>,
}

/// Visits the pair of states that has waited the shortest: their
/// transitions are told apart and held against each other; the pairs of
/// targets wait for their visit only if the two states have the same
/// transitions.
pub open spec fn compare_pop(left: MachineView, right: MachineView, st: Comparison) -> Comparison {
    if st.stack.len() == 0 {
        st
    } else {
        let li = st.stack.last().0;
        let ri = st.stack.last().1;
        let visited = st.visited.insert((li, ri));
        let lk = keyed(left.edges, left.labels, li, Side::Left);
        let rk = keyed(right.edges, right.labels, ri, Side::Right);
        let m = merge_from(left, right, li, ri, in_key_order(lk.0), in_key_order(rk.0), visited, 0, 0, Merge { errors: st.errors + lk.1 + rk.1, pushed: Seq::empty(), same: true });
        Comparison {
            stack: if m.same {
                st.stack.drop_last() + m.pushed
            } else {
                st.stack.drop_last()
            },
            visited,
            errors: m.errors,
        }
    }
}

/// The comparison after a number of visits, from the pair of the initial
/// states on.
pub open spec fn compare_run(left: MachineView, right: MachineView, visits: nat) -> Comparison
    decreases visits,
{
    if visits == 0 {
        Comparison { stack: seq![(left.initial, right.initial)], visited: Set::empty(), errors: Seq::empty() }
    } else {
        compare_pop(left, right, compare_run(left, right, (visits - 1) as nat))
    }
}

/// Once no pair waits, further visits change nothing.
pub proof fn lemma_compare_done(left: MachineView, right: MachineView, visits: nat, more: nat)
    requires
        compare_run(left, right, visits).stack.len() == 0,
    ensures
        compare_run(left, right, visits + more) == compare_run(left, right, visits),
    decreases more,
{
    if more > 0 {
        lemma_compare_done(left, right, visits, (more - 1) as nat);
    }
}

/// The findings of the comparison of two machines, carried to its end.
pub open spec fn differences(left: MachineView, right: MachineView) -> Seq<Error> {
    compare_run(left, right, choose|v: nat| compare_run(left, right, v).stack.len() == 0).errors
}

/// Wherever the comparison has come to its end, it has the same findings.
pub proof fn lemma_differences(left: MachineView, right: MachineView, visits: nat)
    requires
        compare_run(left, right, visits).stack.len() == 0,
    ensures
        differences(left, right) == compare_run(left, right, visits).errors,
{
    let w = choose|v: nat| compare_run(left, right, v).stack.len() == 0;
    if w <= visits {
        lemma_compare_done(left, right, w, (visits - w) as nat);
    } else {
        lemma_compare_done(left, right, visits, (w - visits) as nat);
    }
}

/// The number of items of a stack that have been visited.
pub open spec fn count_in<T>(stack: Seq<T>, visited: Set<T>) -> nat
    decreases stack.len(),
{
    if stack.len() == 0 {
        0
    } else {
        count_in(stack.drop_last(), visited) + if visited.contains(stack.last()) {
            1nat
        } else {
            0nat
        }
    }
}

/// Whether no state of a machine has two transitions that go by the same
/// command or the same event type.
pub open spec fn deterministic(edges: Seq<(usize, usize)>, labels: Seq<MachineLabelView>) -> bool {
    forall|a: int, b: int| 0 <= a < edges.len() && 0 <= b < edges.len() && a != b && (#[trigger] edges[a]).0 == (#[trigger] edges[b]).0 ==> det_key(labels[a]) != det_key(labels[b])
}

/// The machine of a graph with an initial state, names left aside.
pub open spec fn shape_of<N: Key>(graph: Digraph<N, MachineLabel>, initial: usize) -> MachineView {
    MachineView { nodes: Seq::empty(), edges: graph.edges(), labels: graph.labels(), initial }
}

/// The transitions of a state by that which tells them apart, in the
/// order of their keys, with a finding for each transition that is not
/// told apart from an earlier one.
pub fn keyed_edges(graph: &OptionGraph, node: usize, side: Side, errors: &mut Vec<Error>) -> (r: Vec<usize>)
    requires
        graph.wf(),
        node < graph.nodes().len(),
    ensures
        r@ == in_key_order(keyed(graph.edges(), graph.labels(), node, side).0),
        final(errors)@ == old(errors)@ + keyed(graph.edges(), graph.labels(), node, side).1,
        forall|i: int| 0 <= i < r@.len() ==> #[trigger] r@[i] < graph.edges().len() && graph.edges()[r@[i] as int].0 == node,
        forall|e: Error| final(errors)@.contains(e) && !old(errors)@.contains(e) ==> e.fits(0, 0),
        deterministic(graph.edges(), graph.labels()) ==> final(errors)@ == old(errors)@,
{
    let ids = graph.out_edges(node);
    let ghost labels = graph.labels();
    let ghost step = keyed_step(labels, side);
    let ghost start = old(errors)@;
    let mut out: OrdMap<DeterministicLabel, usize> = OrdMap::new();
    proof {
        graph.lemma_wf();
        assert(start + Seq::<Error>::empty() =~= start);
    }
    let ghost mut added: Seq<Error> = Seq::empty();
    let mut k: usize = 0;
    while k < ids.len()
        invariant
            k <= ids.len(),
            graph.wf(),
            labels == graph.labels(),
            graph.edges().len() == labels.len(),
            ids@ == edges_from(graph.edges(), node),
            forall|q: int| 0 <= q < ids@.len() ==> #[trigger] ids@[q] < graph.edges().len() && graph.edges()[ids@[q] as int].0 == node,
            step == keyed_step(labels, side),
            graph.edges().len() <= usize::MAX,
            out.wf(),
            errors@ == start + added,
            forall|q: int| 0 <= q < added.len() ==> (#[trigger] added[q]).fits(0, 0),
            (out@, added) == fold_upto(ids@, (Map::<DeterministicKey, usize>::empty(), Seq::<Error>::empty()), step, k as int),
            forall|key: DeterministicKey| out@.dom().contains(key) ==> #[trigger] out@[key] < graph.edges().len() && graph.edges()[out@[key] as int].0 == node && det_key(labels[out@[key] as int]) == key && exists|q: int| 0 <= q < k && ids@[q] == out@[key],
            deterministic(graph.edges(), labels) ==> added.len() == 0,
        decreases ids.len() - k,
    {
        let e = ids[k];
        let key = DeterministicLabel::from(graph.label(e));
        if out.contains_key(&key) {
            errors.push(Error::NonDeterministic(side, e));
            proof {
                let earlier = out@[key@];
                let q = choose|q: int| 0 <= q < k && ids@[q] == earlier;
                lemma_edge_ids_distinct(graph.edges(), node, q, k as int);
                added = added.push(Error::NonDeterministic(side, e));
                assert(errors@ =~= start + added);
            }
        } else {
            let ghost before = out@;
            out.insert(key, e);
            proof {
                assert forall|key2: DeterministicKey| out@.dom().contains(key2) implies #[trigger] out@[key2] < graph.edges().len() && graph.edges()[out@[key2] as int].0 == node && det_key(labels[out@[key2] as int]) == key2 && exists|q: int| 0 <= q < k + 1 && ids@[q] == out@[key2] by {
                    if key2 == key@ {
                        assert(ids@[k as int] == out@[key2]);
                    } else {
                        assert(before.dom().contains(key2));
                        let q = choose|q: int| 0 <= q < k && ids@[q] == before[key2];
                        assert(0 <= q < k + 1 && ids@[q] == out@[key2]);
                    }
                }
            }
        }
        k += 1;
    }
    let mut r: Vec<usize> = Vec::new();
    proof {
        out.lemma_wf();
    }
    let mut i: usize = 0;
    while i < out.len()
        invariant
            i <= out.keys().len(),
            out.wf(),
            out.keys() == sorted::<DeterministicLabel>(out@.dom()),
            out.keys().len() == out.vals().len(),
            forall|q: int| 0 <= q < out.keys().len() ==> out.has(#[trigger] out.keys()[q]) && out@[out.keys()[q]] == out.vals()[q],
            forall|key: DeterministicKey| out@.dom().contains(key) ==> #[trigger] out@[key] < graph.edges().len() && graph.edges()[out@[key] as int].0 == node,
            r@.len() == i,
            forall|q: int| 0 <= q < i ==> #[trigger] r@[q] == out@[out.keys()[q]],
        decreases out.keys().len() - i,
    {
        r.push(*out.val_at(i));
        i += 1;
    }
    proof {
        assert(r@ =~= in_key_order(out@));
        assert forall|q: int| 0 <= q < r@.len() implies #[trigger] r@[q] < graph.edges().len() && graph.edges()[r@[q] as int].0 == node by {
            assert(out.has(out.keys()[q]));
            assert(out@.dom().contains(out.keys()[q]));
        }
        assert forall|e: Error| errors@.contains(e) && !start.contains(e) implies e.fits(0, 0) by {
            let q = choose|q: int| 0 <= q < errors@.len() && errors@[q] == e;
            if q < start.len() {
                assert(start[q] == e);
            } else {
                assert(added[q - start.len()] == e);
            }
        }
        if deterministic(graph.edges(), labels) {
            assert(errors@ =~= start);
        }
    }
    r
}

/// Two positions among the edges that leave a node hold different edges.
pub proof fn lemma_edge_ids_distinct(edges: Seq<(usize, usize)>, node: usize, a: int, b: int)
    requires
        0 <= a < b < edges_from(edges, node).len(),
        edges.len() <= usize::MAX,
    ensures
        edges_from(edges, node)[a] != edges_from(edges, node)[b],
{
    lemma_ids_decreasing(edges, node, true, edges.len() as int, a, b);
}

/// The ids that `edge_ids_at` lists come in decreasing order.
pub proof fn lemma_ids_decreasing(edges: Seq<(usize, usize)>, node: usize, outgoing: bool, upto: int, a: int, b: int)
    requires
        0 <= upto <= edges.len(),
        edges.len() <= usize::MAX,
        0 <= a < b < crate::topology::edge_ids_at(edges, node, outgoing, upto).len(),
    ensures
        crate::topology::edge_ids_at(edges, node, outgoing, upto)[a] > crate::topology::edge_ids_at(edges, node, outgoing, upto)[b],
    decreases upto,
{
    let all = crate::topology::edge_ids_at(edges, node, outgoing, upto);
    let rest = crate::topology::edge_ids_at(edges, node, outgoing, upto - 1);
    lemma_edge_ids_at(edges, node, outgoing, upto - 1);
    let hit = if outgoing {
        edges[upto - 1].0 == node
    } else {
        edges[upto - 1].1 == node
    };
    if hit {
        if a == 0 {
            assert(all[b] == rest[b - 1]);
        } else {
            lemma_ids_decreasing(edges, node, outgoing, upto - 1, a - 1, b - 1);
        }
    } else {
        lemma_ids_decreasing(edges, node, outgoing, upto - 1, a, b);
    }
}

/// Holds two machines against each other from their initial states on:
/// the findings on transitions that only one of them has and on
/// transitions of a state that go by the same command or event type. The
/// left machine is the reference. See `differences`.
///
/// A machine without such transitions has no finding against itself, and
/// none against a machine that is alike.
pub fn equivalent(left: &OptionGraph, li: usize, right: &OptionGraph, ri: usize) -> (errors: Vec<Error>)
    requires
        left.wf(),
        right.wf(),
        li < left.nodes().len(),
        ri < right.nodes().len(),
    ensures
        errors@ == differences(shape_of(*left, li), shape_of(*right, ri)),
        forall|i: int| 0 <= i < errors@.len() ==> (#[trigger] errors@[i]).fits(left.nodes().len(), right.nodes().len()),
        left.edges() == right.edges() && left.labels() == right.labels() && li == ri && deterministic(left.edges(), left.labels()) ==> errors@.len() == 0,
        (exists|rel: spec_fn(usize, usize) -> bool| alike(rel, shape_of(*left, li), shape_of(*right, ri))) ==> errors@.len() == 0,
{
    let ghost lm = shape_of(*left, li);
    let ghost rm = shape_of(*right, ri);
    let ghost n1 = left.nodes().len();
    let ghost n2 = right.nodes().len();
    proof {
        if left.edges() == right.edges() && left.labels() == right.labels() && li == ri && deterministic(left.edges(), left.labels()) {
            lemma_alike_same(lm);
            assert(lm == rm);
            assert(alike(|a: usize, b: usize| a == b, lm, rm));
        }
    }
    let ghost ident = exists|rel: spec_fn(usize, usize) -> bool| alike(rel, lm, rm);
    let ghost rel = choose|rel: spec_fn(usize, usize) -> bool| alike(rel, lm, rm);
    let mut errors: Vec<Error> = Vec::new();
    let mut stack: Vec<(usize, usize)> = Vec::new();
    stack.push((li, ri));
    let mut visited: OrdSet<(usize, usize)> = OrdSet::new();
    let ghost mut visits: nat = 0;
    proof {
        left.lemma_wf();
        right.lemma_wf();
        assert(stack@ =~= seq![(li, ri)]);
        assert(0 <= n1 * n2) by (nonlinear_arith);
    }
    while stack.len() > 0
        invariant
            left.wf(),
            right.wf(),
            lm == shape_of(*left, li),
            rm == shape_of(*right, ri),
            n1 == left.nodes().len(),
            n2 == right.nodes().len(),
            left.edges().len() == left.labels().len(),
            right.edges().len() == right.labels().len(),
            ident ==> alike(rel, lm, rm),
            visited.wf(),
            forall|p: (usize, usize)| visited@.contains(p) ==> p.0 < n1 && p.1 < n2,
            forall|q: int| 0 <= q < stack@.len() ==> (#[trigger] stack@[q]).0 < n1 && stack@[q].1 < n2,
            visited.keys().len() <= n1 * n2,
            (Comparison { stack: stack@, visited: visited@, errors: errors@ }) == compare_run(lm, rm, visits),
            forall|q: int| 0 <= q < errors@.len() ==> (#[trigger] errors@[q]).fits(n1, n2),
            ident ==> errors@.len() == 0 && forall|q: int| 0 <= q < stack@.len() ==> rel((#[trigger] stack@[q]).0, stack@[q].1),
        decreases n1 * n2 - visited.keys().len(), count_in(stack@, visited@),
    {
        let ghost stack0 = stack@;
        let ghost visited0 = visited;
        let ghost errors0 = errors@;
        let (a, b) = stack.pop().unwrap();
        let ghost popped = stack@;
        proof {
            assert(popped =~= stack0.drop_last());
            assert(stack0.last() == (a, b));
        }
        visited.insert((a, b));
        proof {
            visited0.lemma_wf();
            visited.lemma_wf();
            assert forall|q: int| 0 <= q < visited.keys().len() implies (#[trigger] visited.keys()[q]).0 < n1 && visited.keys()[q].1 < n2 by {
                assert(visited.keys().contains(visited.keys()[q]));
                assert(visited@.contains(visited.keys()[q]));
            }
            lemma_pairs_bounded(visited.keys(), n1, n2);
            if visited0@.contains((a, b)) {
                assert(visited@ =~= visited0@);
            } else {
                assert(visited@.len() == visited0@.len() + 1);
            }
        }
        let l_edges = keyed_edges(left, a, Side::Left, &mut errors);
        let ghost errors1 = errors@;
        let r_edges = keyed_edges(right, b, Side::Right, &mut errors);
        let stack_len = stack.len();
        let mut same = true;
        let ghost start = Merge { errors: errors@, pushed: Seq::empty(), same: true };
        let ghost goal = merge_from(lm, rm, a, b, l_edges@, r_edges@, visited@, 0, 0, start);
        let ghost mut pushed: Seq<(usize, usize)> = Seq::empty();
        proof {
            assert(errors@ =~= errors0 + keyed(left.edges(), left.labels(), a, Side::Left).1 + keyed(right.edges(), right.labels(), b, Side::Right).1);
            assert(stack@ =~= popped + pushed);
            assert forall|q: int| 0 <= q < errors@.len() implies (#[trigger] errors@[q]).fits(n1, n2) by {
                if q < errors0.len() {
                    assert(errors@[q] == errors0[q]);
                } else {
                    assert(errors@.contains(errors@[q]));
                    if errors1.contains(errors@[q]) {
                        if !errors0.contains(errors@[q]) {
                            assert(errors@[q].fits(0, 0));
                        } else {
                            let z = choose|z: int| 0 <= z < errors0.len() && errors0[z] == errors@[q];
                            assert(errors0[z].fits(n1, n2));
                        }
                    } else {
                        assert(errors@[q].fits(0, 0));
                    }
                }
            }
            if ident {
                assert(rel(stack0[stack0.len() - 1].0, stack0[stack0.len() - 1].1));
                left.lemma_wf();
                right.lemma_wf();
                lemma_aligned(rel, lm, rm, a, b);
                assert forall|q: int| 0 <= q < stack@.len() implies rel((#[trigger] stack@[q]).0, stack@[q].1) by {
                    assert(stack@[q] == stack0[q]);
                }
            }
        }
        let mut i: usize = 0;
        let mut j: usize = 0;
        while i < l_edges.len() || j < r_edges.len()
            invariant
                i <= l_edges@.len(),
                j <= r_edges@.len(),
                left.wf(),
                right.wf(),
                lm == shape_of(*left, li),
                rm == shape_of(*right, ri),
                n1 == left.nodes().len(),
                n2 == right.nodes().len(),
                left.edges().len() == left.labels().len(),
                right.edges().len() == right.labels().len(),
                a < n1,
                b < n2,
                visited.wf(),
                forall|q: int| 0 <= q < l_edges@.len() ==> #[trigger] l_edges@[q] < left.edges().len(),
                forall|q: int| 0 <= q < r_edges@.len() ==> #[trigger] r_edges@[q] < right.edges().len(),
                stack@ == popped + pushed,
                stack_len == popped.len(),
                forall|q: int| 0 <= q < stack@.len() ==> (#[trigger] stack@[q]).0 < n1 && stack@[q].1 < n2,
                count_in(stack@, visited@) == count_in(popped, visited@),
                merge_from(lm, rm, a, b, l_edges@, r_edges@, visited@, i as int, j as int, Merge { errors: errors@, pushed, same }) == goal,
                forall|q: int| 0 <= q < errors@.len() ==> (#[trigger] errors@[q]).fits(n1, n2),
                ident ==> aligned(rel, lm, rm, l_edges@, r_edges@) && i == j && same && errors@.len() == 0 && forall|q: int| 0 <= q < stack@.len() ==> rel((#[trigger] stack@[q]).0, stack@[q].1),
            decreases l_edges@.len() - i + r_edges@.len() - j,
        {
            if i >= l_edges.len() {
                errors.push(Error::MissingTransition(Side::Left, a, r_edges[j]));
                same = false;
                j += 1;
            } else if j >= r_edges.len() {
                errors.push(Error::MissingTransition(Side::Right, b, l_edges[i]));
                same = false;
                i += 1;
            } else {
                let l_edge = l_edges[i];
                let r_edge = r_edges[j];
                match left.label(l_edge).compare(right.label(r_edge)) {
                    Order::Less => {
                        proof {
                            crate::order::lt_asymmetric::<MachineLabel>(left.labels()[l_edge as int], right.labels()[r_edge as int]);
                            if ident {
                                assert(l_edges@[i as int] == l_edge);
                                assert(false);
                            }
                        }
                        errors.push(Error::MissingTransition(Side::Right, b, l_edge));
                        same = false;
                        i += 1;
                    },
                    Order::Equal => {
                        proof {
                            MachineLabel::lt_irreflexive(left.labels()[l_edge as int]);
                        }
                        let lt = left.target(l_edge);
                        let rt = right.target(r_edge);
                        if !visited.contains(&(lt, rt)) {
                            let ghost before = stack@;
                            stack.push((lt, rt));
                            proof {
                                pushed = pushed.push((lt, rt));
                                assert(stack@ =~= popped + pushed);
                                assert(stack@.drop_last() =~= before);
                                if ident {
                                    assert(l_edges@[i as int] == l_edge);
                                    assert(rel(lt, rt));
                                    assert forall|q: int| 0 <= q < stack@.len() implies rel((#[trigger] stack@[q]).0, stack@[q].1) by {
                                        if q < before.len() {
                                            assert(stack@[q] == before[q]);
                                        }
                                    }
                                }
                            }
                        }
                        i += 1;
                        j += 1;
                    },
                    Order::Greater => {
                        proof {
                            crate::order::lt_asymmetric::<MachineLabel>(right.labels()[r_edge as int], left.labels()[l_edge as int]);
                            if ident {
                                assert(l_edges@[i as int] == l_edge);
                                assert(false);
                            }
                        }
                        errors.push(Error::MissingTransition(Side::Left, a, r_edge));
                        same = false;
                        j += 1;
                    },
                }
            }
        }
        if !same {
            stack.truncate(stack_len);
            proof {
                assert(stack@ =~= popped);
            }
        }
        proof {
            visits = visits + 1;
            assert(count_in(stack0, visited0@) == count_in(popped, visited0@) + if visited0@.contains((a, b)) {
                1nat
            } else {
                0nat
            });
        }
    }
    proof {
        lemma_differences(lm, rm, visits);
    }
    errors
}

/// A graph as mathematical values: the weights of its nodes, its edges
/// with their labels, and its initial node.
pub struct GraphView<NV, LV> {
    pub nodes: Seq<NV>,
    pub edges: Seq<(usize, usize)>,
    pub labels: Seq<LV>,
    pub initial: usize,
}

/// A node weight of which two can be fused into one.
pub trait Fuse: Key {
    /// The weight that two weights form together.
    spec fn fused(a: Self::V, b: Self::V) -> Self::V;
}

impl Fuse for State {
    /// The two names with ` || ` between them.
    open spec fn fused(a: Seq<char>, b: Seq<char>) -> Seq<char> {
        a + " || "@ + b
    }
}

/// Whether a function fuses two weights as `Fuse` says.
pub open spec fn fuses<N: Fuse, F: Fn(&N, &N) -> N>(gen_node: F) -> bool {
    &&& forall|a: &N, b: &N| a.valid() && b.valid() ==> #[trigger] gen_node.requires((a, b))
    &&& forall|a: &N, b: &N, c: N| #[trigger] gen_node.ensures((a, b), c) ==> c.valid() && c.key() == N::fused(a.key(), b.key())
}

/// The product of two graphs over an interface, each node with the fused
/// weight of its pair.
pub open spec fn fused_product<N: Fuse, E: EventLabel>(a: GraphView<N::V, E::V>, b: GraphView<N::V, E::V>, interface: Set<Seq<char>>) -> GraphView<N::V, E::V> {
    let p = product::<E>(a.nodes.len(), a.edges, a.labels, a.initial, b.nodes.len(), b.edges, b.labels, b.initial, interface);
    GraphView { nodes: Seq::new(p.origin.len(), |x: int| N::fused(a.nodes[p.origin[x].0 as int], b.nodes[p.origin[x].1 as int])), edges: p.edges, labels: p.labels, initial: 0 }
}

/// The product of two graphs over an interface with fused weights: see
/// `fused_product`.
pub fn compose_fused<N: Fuse, E: EventLabel, F: Fn(&N, &N) -> N>(m1: Digraph<N, E>, i1: usize, m2: Digraph<N, E>, i2: usize, interface: OrdSet<EventType>, gen_node: F) -> (r: (Digraph<N, E>, usize))
    requires
        m1.wf(),
        m2.wf(),
        carries_events::<E>(m1.labels()),
        carries_events::<E>(m2.labels()),
        i1 < m1.nodes().len(),
        i2 < m2.nodes().len(),
        interface.wf(),
        fuses(gen_node),
    ensures
        r.0.wf(),
        r.1 < r.0.nodes().len(),
        carries_events::<E>(r.0.labels()),
        view_of(r.0, r.1) == fused_product::<N, E>(view_of(m1, i1), view_of(m2, i2), interface@),
{
    let ghost a = view_of(m1, i1);
    let ghost b = view_of(m2, i2);
    proof {
        m1.lemma_wf();
        m2.lemma_wf();
    }
    let (graph, initial) = compose(m1, i1, m2, i2, interface, gen_node);
    proof {
        graph.lemma_wf();
        let want = fused_product::<N, E>(a, b, interface@);
        assert forall|x: int| 0 <= x < graph.nodes().len() implies graph.nodes()[x] == want.nodes[x] by {
            assert(graph.nodes()[x] == graph.weights()[x].key());
        }
        assert(graph.nodes() =~= want.nodes);
    }
    (graph, initial)
}

/// A graph with an initial node as mathematical values.
pub open spec fn view_of<N: Key, E: Key>(graph: Digraph<N, E>, initial: usize) -> GraphView<N::V, E::V> {
    GraphView { nodes: graph.nodes(), edges: graph.edges(), labels: graph.labels(), initial }
}

/// A graph with its initial node and the interface on which it is
/// combined with the graphs before it.
pub type Link<NV, LV> = (GraphView<NV, LV>, Set<Seq<char>>);

/// The first `upto` graphs of a chain combined, from the left, each over
/// its interface.
pub open spec fn combined_upto<N: Fuse, E: EventLabel>(chain: Seq<Link<N::V, E::V>>, upto: int) -> GraphView<N::V, E::V>
    decreases upto,
{
    if upto <= 1 {
        chain[0].0
    } else {
        fused_product::<N, E>(combined_upto::<N, E>(chain, upto - 1), chain[upto - 1].0, chain[upto - 1].1)
    }
}

/// The links of a list as mathematical values.
pub open spec fn chain_view<N: Key, E: Key>(projections: Seq<(Digraph<N, E>, usize, OrdSet<EventType>)>) -> Seq<Link<N::V, E::V>> {
    Seq::new(projections.len(), |i: int| (view_of(projections[i].0, projections[i].1), projections[i].2@))
}

/// Whether each link of a chain is a well-formed graph with an initial
/// node, an event type on every label and a well-formed interface.
pub open spec fn chain_ok<N: Key, E: EventLabel>(projections: Seq<(Digraph<N, E>, usize, OrdSet<EventType>)>) -> bool {
    forall|i: int| 0 <= i < projections.len() ==> {
        &&& (#[trigger] projections[i]).0.wf()
        &&& projections[i].1 < projections[i].0.nodes().len()
        &&& carries_events::<E>(projections[i].0.labels())
        &&& projections[i].2.wf()
    }
}

/// Combines the graphs of a chain from the left, each over its interface:
/// none for an empty chain. See `combined_upto`.
pub fn combine_projs<N: Fuse, E: EventLabel, F: Fn(&N, &N) -> N>(projections: Vec<(Digraph<N, E>, usize, OrdSet<EventType>)>, gen_node: F) -> (r: Option<(Digraph<N, E>, usize)>)
    requires
        chain_ok(projections@),
        fuses(gen_node),
    ensures
        r is Some == (projections@.len() > 0),
        match r {
            Some(g) => {
                &&& g.0.wf()
                &&& g.1 < g.0.nodes().len()
                &&& carries_events::<E>(g.0.labels())
                &&& view_of(g.0, g.1) == combined_upto::<N, E>(chain_view(projections@), projections@.len() as int)
            },
            None => true,
        },
{
    if projections.len() == 0 {
        return None;
    }
    let ghost chain = chain_view(projections@);
    let ghost given = projections@;
    let mut projections = projections;
    let mut rest: Vec<(Digraph<N, E>, usize, OrdSet<EventType>)> = Vec::new();
    // the links are taken from the back, so that they come in order again
    while projections.len() > 0
        invariant
            projections@.len() + rest@.len() == given.len(),
            forall|i: int| 0 <= i < projections@.len() ==> projections@[i] == given[i],
            forall|i: int| 0 <= i < rest@.len() ==> rest@[i] == given[given.len() - 1 - i],
        decreases projections@.len(),
    {
        let last = projections.pop().unwrap();
        rest.push(last);
    }
    let (acc_machine, acc_initial, _) = rest.pop().unwrap();
    let mut acc = acc_machine;
    let mut acc_i = acc_initial;
    let ghost mut k: int = 1;
    proof {
        assert(chain[0].0 == view_of(acc, acc_i));
    }
    while rest.len() > 0
        invariant
            1 <= k <= given.len(),
            rest@.len() == given.len() - k,
            forall|i: int| 0 <= i < rest@.len() ==> rest@[i] == given[given.len() - 1 - i],
            chain_ok(given),
            chain == chain_view(given),
            fuses(gen_node),
            acc.wf(),
            acc_i < acc.nodes().len(),
            carries_events::<E>(acc.labels()),
            view_of(acc, acc_i) == combined_upto::<N, E>(chain, k),
        decreases rest@.len(),
    {
        let (m, i, interface) = rest.pop().unwrap();
        proof {
            assert((m, i, interface) == given[k]);
            assert(chain[k] == (view_of(m, i), interface@));
        }
        let (graph, initial) = compose_fused(acc, acc_i, m, i, interface, &gen_node);
        acc = graph;
        acc_i = initial;
        proof {
            k = k + 1;
        }
    }
    Some((acc, acc_i))
}

/// The sets of roles of the protocols of a list.
pub open spec fn role_sets(protocols: Seq<ProtoView>) -> Seq<Set<Seq<char>>> {
    Seq::new(protocols.len(), |i: int| protocols[i].roles)
}

/// The event types on which the protocol at a position is combined with
/// the ones before it: those that the roles which it shares with them emit
/// anywhere.
pub open spec fn chain_interface(protocols: Seq<ProtoView>, rem: RoleLabels, k: int) -> Set<Seq<char>> {
    interface_with(union_of(role_sets(protocols).take(k)), protocols[k].roles, rem)
}

/// The protocols of a dossier as a chain: each with its initial node and
/// the interface on which it is combined with the ones before it.
pub fn to_chained_protos(proto_info: &ProtoInfo) -> (r: Vec<(SwarmGraph, usize, OrdSet<EventType>)>)
    requires
        proto_info.wf(),
        composable(proto_info@.protocols),
    ensures
        r@.len() == proto_info@.protocols.len(),
        forall|k: int| 0 <= k < r@.len() ==> {
            &&& (#[trigger] r@[k]).0.wf()
            &&& r@[k].0.nodes() == proto_info@.protocols[k].nodes
            &&& r@[k].0.edges() == proto_info@.protocols[k].edges
            &&& r@[k].0.labels() == proto_info@.protocols[k].labels
            &&& r@[k].1 == proto_info@.protocols[k].initial->0
            &&& r@[k].2.wf()
            &&& r@[k].2@ == chain_interface(proto_info@.protocols, proto_info@.role_event_map, k)
        },
{
    let ghost views = proto_info@.protocols;
    let ghost rem = proto_info@.role_event_map;
    let ghost sets = role_sets(views);
    let mut acc: Vec<(SwarmGraph, usize, OrdSet<EventType>)> = Vec::new();
    let mut roles_prev: OrdSet<Role> = OrdSet::new();
    proof {
        assert(roles_prev@ =~= union_of(sets.take(0)));
    }
    let mut k: usize = 0;
    while k < proto_info.protocols.len()
        invariant
            k <= proto_info.protocols.len(),
            proto_info.wf(),
            composable(views),
            views == proto_info@.protocols,
            rem == proto_info@.role_event_map,
            sets == role_sets(views),
            roles_prev.wf(),
            roles_prev@ == union_of(sets.take(k as int)),
            acc@.len() == k,
            forall|q: int| 0 <= q < k ==> {
                &&& (#[trigger] acc@[q]).0.wf()
                &&& acc@[q].0.nodes() == views[q].nodes
                &&& acc@[q].0.edges() == views[q].edges
                &&& acc@[q].0.labels() == views[q].labels
                &&& acc@[q].1 == views[q].initial->0
                &&& acc@[q].2.wf()
                &&& acc@[q].2@ == chain_interface(views, rem, q)
            },
        decreases proto_info.protocols.len() - k,
    {
        let proto = &proto_info.protocols[k];
        proof {
            assert(proto.wf());
            assert(views[k as int] == proto@);
            lemma_union_take(sets, k as int);
        }
        let shared = roles_prev.intersection(&proto.roles);
        let ghost istep = role_events_step(rem);
        let mut interface: OrdSet<EventType> = OrdSet::new();
        proof {
            shared.lemma_wf();
        }
        let mut j: usize = 0;
        while j < shared.len()
            invariant
                j <= shared.keys().len(),
                shared.wf(),
                proto_info.wf(),
                rem == proto_info@.role_event_map,
                istep == role_events_step(rem),
                interface.wf(),
                interface@ == fold_upto(shared.keys(), Set::<Seq<char>>::empty(), istep, j as int),
            decreases shared.keys().len() - j,
        {
            let role = shared.get(j);
            let labels = labels_of_role(&proto_info.role_event_map, role);
            proof {
                assert forall|l: LabelKey| labels@.contains(l) implies l.1.len() > 0 by {
                    assert(proto_info.role_event_map.holds(role@, l));
                }
            }
            interface.extend(&label_events(&labels));
            j += 1;
        }
        acc.push((proto.graph.duplicate(), proto.initial.unwrap(), interface));
        roles_prev.extend(&proto.roles);
        k += 1;
    }
    acc
}

/// A machine as a graph of named states.
pub open spec fn as_graph(m: MachineView) -> GraphView<Seq<char>, MachineLabelView> {
    GraphView { nodes: m.nodes, edges: m.edges, labels: m.labels, initial: m.initial }
}

/// The projections of the protocols of a dossier onto a role as a chain:
/// each with the interface on which its protocol is combined with the ones
/// before it.
pub open spec fn projected_chain(c: ProtoInfoView, subs: Subs, role: Seq<char>, minimize: bool) -> Seq<Link<Seq<char>, MachineLabelView>> {
    Seq::new(
        c.protocols.len(),
        |k: int|
            (
                as_graph(projection(c.protocols[k].nodes, c.protocols[k].edges, c.protocols[k].labels, c.protocols[k].initial->0, set_at(subs, role), role, minimize)),
                chain_interface(c.protocols, c.role_event_map, k),
            ),
    )
}

/// The projections of a chain of protocols onto a role, each with the
/// interface of its protocol.
pub fn to_chained_projections(chained_protos: Vec<(SwarmGraph, usize, OrdSet<EventType>)>, subs: &Subscriptions, role: Role, minimize: bool) -> (r: Vec<(MachineGraph, usize, OrdSet<EventType>)>)
    requires
        subs.wf_sets(),
        forall|k: int| 0 <= k < chained_protos@.len() ==> {
            &&& (#[trigger] chained_protos@[k]).0.wf()
            &&& labelled(chained_protos@[k].0.labels())
            &&& chained_protos@[k].1 < chained_protos@[k].0.nodes().len()
            &&& chained_protos@[k].2.wf()
        },
    ensures
        r@.len() == chained_protos@.len(),
        chain_ok(r@),
        forall|k: int| 0 <= k < r@.len() ==> {
            let p = chained_protos@[k];
            (#[trigger] chain_view(r@)[k]) == (as_graph(projection(p.0.nodes(), p.0.edges(), p.0.labels(), p.1, set_at(subs.sets(), role@), role@, minimize)), p.2@)
        },
{
    let ghost given = chained_protos@;
    let mut r: Vec<(MachineGraph, usize, OrdSet<EventType>)> = Vec::new();
    let mut k: usize = 0;
    while k < chained_protos.len()
        invariant
            k <= chained_protos.len(),
            given == chained_protos@,
            subs.wf_sets(),
            forall|q: int| 0 <= q < given.len() ==> {
                &&& (#[trigger] given[q]).0.wf()
                &&& labelled(given[q].0.labels())
                &&& given[q].1 < given[q].0.nodes().len()
                &&& given[q].2.wf()
            },
            r@.len() == k,
            chain_ok(r@),
            forall|q: int| 0 <= q < k ==> (#[trigger] chain_view(r@)[q]) == (as_graph(projection(given[q].0.nodes(), given[q].0.edges(), given[q].0.labels(), given[q].1, set_at(subs.sets(), role@), role@, minimize)), given[q].2@),
        decreases chained_protos.len() - k,
    {
        let link = &chained_protos[k];
        let (machine, machine_initial) = project(&link.0, link.1, subs, role.duplicate(), minimize);
        let interface = link.2.duplicate();
        proof {
            link.2.lemma_same_keys(&interface);
            assert(interface@ == link.2@);
        }
        let ghost before = r@;
        r.push((machine, machine_initial, interface));
        proof {
            assert forall|q: int| 0 <= q < k + 1 implies (#[trigger] chain_view(r@)[q]) == (as_graph(projection(given[q].0.nodes(), given[q].0.edges(), given[q].0.labels(), given[q].1, set_at(subs.sets(), role@), role@, minimize)), given[q].2@) by {
                if q < k {
                    assert(r@[q] == before[q]);
                    assert(chain_view(r@)[q] == chain_view(before)[q]);
                }
            }
        }
        k += 1;
    }
    r
}

/// The machine of a role in the composition of the protocols of a
/// dossier, made of its machines in the single protocols.
pub open spec fn project_combined(c: ProtoInfoView, subs: Subs, role: Seq<char>, minimize: bool) -> GraphView<Seq<char>, MachineLabelView> {
    combined_upto::<State, MachineLabel>(projected_chain(c, subs, role, minimize), c.protocols.len() as int)
}

/// The machine of a role in the composition of the protocols of a
/// dossier: the role's machine in each protocol is made, and the machines
/// are combined over the interfaces of the protocols. The composition
/// itself is not built. With no protocol the machine is empty and its
/// initial state is no state.
pub fn project_combine(proto_info: &ProtoInfo, subs: &Subscriptions, role: Role, minimize: bool) -> (r: (OptionGraph, Option<usize>))
    requires
        proto_info.wf(),
        subs.wf_sets(),
        composable(proto_info@.protocols),
    ensures
        r.0.wf(),
        carries_events::<MachineLabel>(r.0.labels()),
        proto_info@.protocols.len() == 0 ==> r.0.nodes().len() == 0 && r.0.edges().len() == 0 && r.1 == Some(NO_NODE),
        proto_info@.protocols.len() > 0 ==> {
            let m = project_combined(proto_info@, subs.sets(), role@, minimize);
            &&& r.0.nodes() == Seq::new(m.nodes.len(), |x: int| Some(m.nodes[x]))
            &&& r.0.edges() == m.edges
            &&& r.0.labels() == m.labels
            &&& r.1 == Some(m.initial)
            &&& m.initial < m.nodes.len()
        },
{
    let ghost role_key = role@;
    let chained = to_chained_protos(proto_info);
    proof {
        assert forall|k: int| 0 <= k < chained@.len() implies {
            &&& (#[trigger] chained@[k]).0.wf()
            &&& labelled(chained@[k].0.labels())
            &&& chained@[k].1 < chained@[k].0.nodes().len()
            &&& chained@[k].2.wf()
        } by {
            assert(labelled(proto_info@.protocols[k].labels));
        }
    }
    let projections = to_chained_projections(chained, subs, role, minimize);
    proof {
        assert(chain_view(projections@) =~= projected_chain(proto_info@, subs.sets(), role_key, minimize));
    }
    match combine_projs(projections, gen_state_name::<State>) {
        Some((combined_projection, combined_initial)) => (crate::machine::to_option_machine(&combined_projection), Some(combined_initial)),
        None => {
            let empty: OptionGraph = Digraph::new();
            (empty, Some(NO_NODE))
        },
    }
}

/// A state of an adapted machine: its name, and the states of the
/// role's own machine that it refines, where it refines any.
#[derive(Debug)]
pub struct AdaptationNode {
    pub state: State,
    pub machine_states: Option<OrdSet<State>>,
}

/// What an adaptation node stands for: the name and the names of the
/// refined states in increasing order.
pub type AdaptationKey = (Seq<char>, Option<Seq<Seq<char>>>);

impl Key for AdaptationNode {
    type V = AdaptationKey;

    open spec fn key(&self) -> Self::V {
        (self.state@, self.machine_states.key())
    }

    open spec fn valid(&self) -> bool {
        self.machine_states.valid()
    }

    open spec fn lt(a: Self::V, b: Self::V) -> bool {
        <(State, Option<OrdSet<State>>) as Key>::lt(a, b)
    }

    proof fn lt_irreflexive(a: Self::V) {
        <(State, Option<OrdSet<State>>) as Key>::lt_irreflexive(a);
    }

    proof fn lt_transitive(a: Self::V, b: Self::V, c: Self::V) {
        <(State, Option<OrdSet<State>>) as Key>::lt_transitive(a, b, c);
    }

    proof fn lt_connected(a: Self::V, b: Self::V) {
        <(State, Option<OrdSet<State>>) as Key>::lt_connected(a, b);
    }

    fn compare(&self, other: &Self) -> (o: Order) {
        proof {
            State::lt_irreflexive(self.state@);
            <Option<OrdSet<State>> as Key>::lt_irreflexive(self.machine_states.key());
        }
        match self.state.compare(&other.state) {
            Order::Less => {
                proof {
                    crate::order::lt_asymmetric::<State>(self.state@, other.state@);
                }
                Order::Less
            },
            Order::Greater => {
                proof {
                    crate::order::lt_asymmetric::<State>(other.state@, self.state@);
                }
                Order::Greater
            },
            Order::Equal => {
                let o = self.machine_states.compare(&other.machine_states);
                proof {
                    if <Option<OrdSet<State>> as Key>::lt(self.machine_states.key(), other.machine_states.key()) {
                        crate::order::lt_asymmetric::<Option<OrdSet<State>>>(self.machine_states.key(), other.machine_states.key());
                    }
                    if <Option<OrdSet<State>> as Key>::lt(other.machine_states.key(), self.machine_states.key()) {
                        crate::order::lt_asymmetric::<Option<OrdSet<State>>>(other.machine_states.key(), self.machine_states.key());
                    }
                }
                o
            },
        }
    }

    fn duplicate(&self) -> (r: Self) {
        AdaptationNode { state: self.state.duplicate(), machine_states: self.machine_states.duplicate() }
    }
}

impl Named for AdaptationNode {
    open spec fn named(k: AdaptationKey) -> Seq<char> {
        k.0
    }

    fn name(&self) -> (s: State) {
        self.state.duplicate()
    }
}

impl StateName for AdaptationNode {
    open spec fn name_of(k: AdaptationKey) -> Seq<char> {
        k.0
    }

    fn state_name(&self) -> (s: &State) {
        &self.state
    }
}

impl Fuse for AdaptationNode {
    /// The two names with ` || ` between them; the states that both
    /// refine, or those of the one that refines any.
    open spec fn fused(a: AdaptationKey, b: AdaptationKey) -> AdaptationKey {
        (
            a.0 + " || "@ + b.0,
            match (a.1, b.1) {
                (None, None) => None,
                (Some(ms), None) => Some(ms),
                (None, Some(ms)) => Some(ms),
                (Some(ms1), Some(ms2)) => Some(sorted::<State>(ms1.to_set().intersect(ms2.to_set()))),
            },
        )
    }
}

/// The state that two states of adapted machines form together.
pub fn fuse_nodes(n1: &AdaptationNode, n2: &AdaptationNode) -> (r: AdaptationNode)
    requires
        n1.valid(),
        n2.valid(),
    ensures
        r.valid(),
        r.key() == AdaptationNode::fused(n1.key(), n2.key()),
{
    let state = gen_state_name(&n1.state, &n2.state);
    let machine_states = match (&n1.machine_states, &n2.machine_states) {
        (None, None) => None,
        (Some(ms), None) => Some(ms.duplicate()),
        (None, Some(ms)) => Some(ms.duplicate()),
        (Some(ms1), Some(ms2)) => {
            let both = ms1.intersection(ms2);
            proof {
                both.lemma_wf();
            }
            Some(both)
        },
    };
    AdaptationNode { state, machine_states }
}

/// A machine whose states are adaptation nodes.
pub type AdaptationGraph = Digraph<AdaptationNode, MachineLabel>;

/// A machine as an adapted machine none of whose states refines a
/// state.
pub open spec fn lifted(m: GraphView<Seq<char>, MachineLabelView>) -> GraphView<AdaptationKey, MachineLabelView> {
    GraphView { nodes: Seq::new(m.nodes.len(), |i: int| (m.nodes[i], None::<Seq<Seq<char>>>)), edges: m.edges, labels: m.labels, initial: m.initial }
}

/// A machine as an adapted machine each state of which refines itself.
pub open spec fn lifted_own(m: GraphView<Option<Seq<char>>, MachineLabelView>) -> GraphView<AdaptationKey, MachineLabelView> {
    GraphView { nodes: Seq::new(m.nodes.len(), |i: int| (<Option<State> as Named>::named(m.nodes[i]), Some(seq![<Option<State> as Named>::named(m.nodes[i])]))), edges: m.edges, labels: m.labels, initial: m.initial }
}

/// An adapted machine with the name of each state in brackets.
pub open spec fn bracketed(m: GraphView<AdaptationKey, MachineLabelView>) -> GraphView<AdaptationKey, MachineLabelView> {
    GraphView { nodes: Seq::new(m.nodes.len(), |i: int| ("("@ + m.nodes[i].0 + ")"@, m.nodes[i].1)), edges: m.edges, labels: m.labels, initial: m.initial }
}

/// The event types of the labels of a machine.
pub open spec fn machine_events(labels: Seq<MachineLabelView>) -> Set<Seq<char>> {
    Seq::new(labels.len(), |i: int| MachineLabel::event_of(labels[i])).to_set()
}

/// The event types of the labels of a machine.
pub fn event_types_of_machine<N: Key>(graph: &Digraph<N, MachineLabel>) -> (r: OrdSet<EventType>)
    requires
        graph.wf(),
        carries_events::<MachineLabel>(graph.labels()),
    ensures
        r.wf(),
        r@ == machine_events(graph.labels()),
{
    let ghost events = Seq::new(graph.labels().len(), |i: int| MachineLabel::event_of(graph.labels()[i]));
    let mut r: OrdSet<EventType> = OrdSet::new();
    proof {
        graph.lemma_wf();
        crate::seqs::lemma_take_all(events);
    }
    let count = graph.edge_count();
    let mut e: usize = 0;
    while e < count
        invariant
            e <= count,
            count == graph.labels().len(),
            graph.wf(),
            carries_events::<MachineLabel>(graph.labels()),
            graph.edges().len() == graph.labels().len(),
            events == Seq::new(graph.labels().len(), |i: int| MachineLabel::event_of(graph.labels()[i])),
            r.wf(),
            r@ == events.take(e as int).to_set(),
        decreases count - e,
    {
        r.insert(graph.label(e).get_event_type());
        proof {
            crate::seqs::lemma_take_to_set(events, e as int);
        }
        e += 1;
    }
    r
}

/// The machine of a role in a composition, built around the role's
/// own machine: that machine is combined with the role's
/// machine in the protocol at `k` over the event types that both have, and
/// the result, its names in brackets, takes the place of that machine in
/// the chain of the role's machines, which is then combined.
pub open spec fn adapted(c: ProtoInfoView, subs: Subs, role: Seq<char>, machine: GraphView<Option<Seq<char>>, MachineLabelView>, k: int, minimize: bool) -> GraphView<AdaptationKey, MachineLabelView> {
    combined_upto::<AdaptationNode, MachineLabel>(adapted_chain(c, subs, role, machine, k, minimize), c.protocols.len() as int)
}

/// The chain of a role's machines in which the machine at `k` has given
/// way to its product with the role's own machine.
pub open spec fn adapted_chain(c: ProtoInfoView, subs: Subs, role: Seq<char>, machine: GraphView<Option<Seq<char>>, MachineLabelView>, k: int, minimize: bool) -> Seq<Link<AdaptationKey, MachineLabelView>> {
    let chain = projected_chain(c, subs, role, minimize);
    let own = lifted_own(machine);
    let kth = lifted(chain[k].0);
    let shared = machine_events(own.labels).intersect(machine_events(kth.labels));
    let both = bracketed(fused_product::<AdaptationNode, MachineLabel>(own, kth, shared));
    Seq::new(chain.len(), |i: int| if i == k {
        (both, chain[i].1)
    } else {
        (lifted(chain[i].0), chain[i].1)
    })
}

/// A machine with other weights on its nodes, as mathematical values.
pub fn relabel<N: Key, M: Key>(graph: &Digraph<N, MachineLabel>, nodes: Vec<M>) -> (r: Digraph<M, MachineLabel>)
    requires
        graph.wf(),
        nodes@.len() == graph.nodes().len(),
        all_valid(nodes@),
    ensures
        r.wf(),
        r.nodes() == keys_of(nodes@),
        r.edges() == graph.edges(),
        r.labels() == graph.labels(),
{
    graph.with_nodes(nodes)
}

/// The machine of a role in a composition, built around the role's
/// own machine so that each state tells which of its states it
/// refines: see `adapted`. None where there is no protocol at `k`.
pub fn adapted_projection(proto_info: &ProtoInfo, subs: &Subscriptions, role: Role, machine: (OptionGraph, usize), k: usize, minimize: bool) -> (r: Option<(AdaptationGraph, Option<usize>)>)
    requires
        proto_info.wf(),
        subs.wf_sets(),
        composable(proto_info@.protocols),
        machine.0.wf(),
        machine.1 < machine.0.nodes().len(),
        carries_events::<MachineLabel>(machine.0.labels()),
    ensures
        r is Some == (k < proto_info@.protocols.len()),
        match r {
            Some(g) => {
                &&& g.0.wf()
                &&& g.1 is Some
                &&& g.1->0 < g.0.nodes().len()
                &&& carries_events::<MachineLabel>(g.0.labels())
                &&& view_of(g.0, g.1->0) == adapted(proto_info@, subs.sets(), role@, view_of(machine.0, machine.1), k as int, minimize)
            },
            None => true,
        },
{
    if proto_info.protocols.len() == 0 || k >= proto_info.protocols.len() {
        return None;
    }
    let ghost role_key = role@;
    let ghost chain = projected_chain(proto_info@, subs.sets(), role_key, minimize);
    let chained = to_chained_protos(proto_info);
    proof {
        assert forall|q: int| 0 <= q < chained@.len() implies {
            &&& (#[trigger] chained@[q]).0.wf()
            &&& labelled(chained@[q].0.labels())
            &&& chained@[q].1 < chained@[q].0.nodes().len()
            &&& chained@[q].2.wf()
        } by {
            assert(labelled(proto_info@.protocols[q].labels));
        }
    }
    let plain = to_chained_projections(chained, subs, role, minimize);
    proof {
        assert(chain_view(plain@) =~= chain);
    }
    // each projection as an adapted machine
    let mut projections: Vec<(AdaptationGraph, usize, OrdSet<EventType>)> = Vec::new();
    let mut p: usize = 0;
    while p < plain.len()
        invariant
            p <= plain.len(),
            chain_ok(plain@),
            chain_view(plain@) == chain,
            projections@.len() == p,
            chain_ok(projections@),
            forall|q: int| 0 <= q < p ==> (#[trigger] chain_view(projections@)[q]) == (lifted(chain[q].0), chain[q].1),
        decreases plain.len() - p,
    {
        let link = &plain[p];
        proof {
            assert(chain[p as int] == chain_view(plain@)[p as int]);
        }
        let mut nodes: Vec<AdaptationNode> = Vec::new();
        let count = link.0.node_count();
        let mut n: usize = 0;
        while n < count
            invariant
                n <= count,
                count == link.0.nodes().len(),
                link.0.wf(),
                nodes@.len() == n,
                all_valid(nodes@),
                forall|q: int| 0 <= q < n ==> (#[trigger] nodes@[q]).key() == (link.0.nodes()[q], None::<Seq<Seq<char>>>),
            decreases count - n,
        {
            nodes.push(AdaptationNode { state: link.0.node(n).duplicate(), machine_states: None });
            n += 1;
        }
        let graph = relabel(&link.0, nodes);
        let interface = link.2.duplicate();
        proof {
            link.2.lemma_same_keys(&interface);
            assert(interface@ == link.2@);
            assert(graph.nodes() =~= lifted(chain[p as int].0).nodes);
        }
        let ghost before = projections@;
        projections.push((graph, link.1, interface));
        proof {
            assert forall|q: int| 0 <= q < p + 1 implies (#[trigger] chain_view(projections@)[q]) == (lifted(chain[q].0), chain[q].1) by {
                if q < p {
                    assert(projections@[q] == before[q]);
                    assert(chain_view(projections@)[q] == chain_view(before)[q]);
                }
            }
        }
        p += 1;
    }
    // the role's own machine as an adapted machine
    let (own, machine_initial) = machine;
    let mut nodes: Vec<AdaptationNode> = Vec::new();
    let count = own.node_count();
    let mut n: usize = 0;
    while n < count
        invariant
            n <= count,
            count == own.nodes().len(),
            own.wf(),
            nodes@.len() == n,
            all_valid(nodes@),
            forall|q: int| 0 <= q < n ==> (#[trigger] nodes@[q]).key() == (<Option<State> as Named>::named(own.nodes()[q]), Some(seq![<Option<State> as Named>::named(own.nodes()[q])])),
        decreases count - n,
    {
        let state = own.node(n).name();
        let only = OrdSet::singleton(state.duplicate());
        proof {
            only.lemma_wf();
            let want = seq![state@];
            assert(increasing::<State>(want));
            assert(want.to_set() =~= only@) by {
                assert forall|x: Seq<char>| want.to_set().contains(x) <==> only@.contains(x) by {
                    if x == state@ {
                        assert(want[0] == x);
                        assert(want.contains(x));
                    }
                }
            }
            crate::ordset::increasing_unique::<State>(only.keys(), want);
        }
        nodes.push(AdaptationNode { state, machine_states: Some(only) });
        n += 1;
    }
    let lifted_machine = relabel(&own, nodes);
    proof {
        assert(view_of(lifted_machine, machine_initial).nodes =~= lifted_own(view_of(own, machine_initial)).nodes);
        assert(view_of(lifted_machine, machine_initial) == lifted_own(view_of(own, machine_initial)));
    }
    let machine_events_set = event_types_of_machine(&lifted_machine);
    let mut kth: (AdaptationGraph, usize, OrdSet<EventType>) = (Digraph::new(), 0, OrdSet::new());
    let ghost given = projections@;
    core::mem::swap(&mut kth, &mut projections[k]);
    proof {
        assert(kth == given[k as int]);
        assert(chain_view(given)[k as int] == (lifted(chain[k as int].0), chain[k as int].1));
    }
    let (kth_graph, kth_initial, kth_interface) = kth;
    proof {
        assert(view_of(kth_graph, kth_initial) == lifted(chain[k as int].0));
        assert(kth_interface@ == chain[k as int].1);
    }
    let ghost own_view = lifted_own(view_of(own, machine_initial));
    let ghost kth_view = lifted(chain[k as int].0);
    let shared = machine_events_set.intersection(&event_types_of_machine(&kth_graph));
    let ghost shared_view = shared@;
    let (machine_and_proj, machine_and_proj_initial) = compose_fused(lifted_machine, machine_initial, kth_graph, kth_initial, shared, fuse_nodes);
    // the names of the states of the product in brackets
    let mut nodes: Vec<AdaptationNode> = Vec::new();
    let count = machine_and_proj.node_count();
    let mut n: usize = 0;
    while n < count
        invariant
            n <= count,
            count == machine_and_proj.nodes().len(),
            machine_and_proj.wf(),
            nodes@.len() == n,
            all_valid(nodes@),
            forall|q: int| 0 <= q < n ==> (#[trigger] nodes@[q]).key() == ("("@ + machine_and_proj.nodes()[q].0 + ")"@, machine_and_proj.nodes()[q].1),
        decreases count - n,
    {
        let node = machine_and_proj.node(n);
        let mut name = String::from_str("(");
        name.append(node.state.as_str());
        name.append(")");
        nodes.push(AdaptationNode { state: State::new(name.as_str()), machine_states: node.machine_states.duplicate() });
        n += 1;
    }
    let wrapped = relabel(&machine_and_proj, nodes);
    proof {
        assert(view_of(wrapped, machine_and_proj_initial).nodes =~= bracketed(view_of(machine_and_proj, machine_and_proj_initial)).nodes);
        assert(view_of(wrapped, machine_and_proj_initial) == bracketed(fused_product::<AdaptationNode, MachineLabel>(own_view, kth_view, shared_view)));
        assert(shared_view == machine_events(own_view.labels).intersect(machine_events(kth_view.labels)));
    }
    let mut put = (wrapped, machine_and_proj_initial, kth_interface);
    let ghost at_swap = projections@;
    let ghost new_link = put;
    core::mem::swap(&mut put, &mut projections[k]);
    let ghost want = Seq::new(chain.len(), |i: int| if i == k {
        (bracketed(fused_product::<AdaptationNode, MachineLabel>(lifted_own(view_of(own, machine_initial)), lifted(chain[k as int].0), machine_events(lifted_own(view_of(own, machine_initial)).labels).intersect(machine_events(lifted(chain[k as int].0).labels)))), chain[i].1)
    } else {
        (lifted(chain[i].0), chain[i].1)
    });
    proof {
        let want0 = Seq::new(chain.len(), |i: int| if i == k {
            (bracketed(fused_product::<AdaptationNode, MachineLabel>(lifted_own(view_of(own, machine_initial)), lifted(chain[k as int].0), machine_events(lifted_own(view_of(own, machine_initial)).labels).intersect(machine_events(lifted(chain[k as int].0).labels)))), chain[i].1)
        } else {
            (lifted(chain[i].0), chain[i].1)
        });
        assert forall|q: int| 0 <= q < projections@.len() implies {
            &&& (#[trigger] projections@[q]).0.wf()
            &&& projections@[q].1 < projections@[q].0.nodes().len()
            &&& carries_events::<MachineLabel>(projections@[q].0.labels())
            &&& projections@[q].2.wf()
        } by {
            if q != k {
                assert(projections@[q] == given[q]);
            }
        }
        assert forall|q: int| 0 <= q < chain.len() implies chain_view(projections@)[q] == want[q] by {
            if q != k {
                assert(projections@[q] == given[q]);
                assert(chain_view(given)[q] == (lifted(chain[q].0), chain[q].1));
            } else {
                assert(projections@[q] == new_link);
            }
        }
        assert(chain_view(projections@) =~= want);
    }
    proof {
        assert(projections@.len() == chain.len());
        assert(chain.len() == proto_info@.protocols.len());
    }
    let ghost goal = adapted(proto_info@, subs.sets(), role_key, view_of(own, machine_initial), k as int, minimize);
    match combine_projs(projections, fuse_nodes) {
        Some((combined_projection, combined_initial)) => {
            proof {
                assert(view_of(combined_projection, combined_initial) == combined_upto::<AdaptationNode, MachineLabel>(want, chain.len() as int));
                assert(adapted_chain(proto_info@, subs.sets(), role_key, view_of(own, machine_initial), k as int, minimize) =~= want);
                assert(goal == combined_upto::<AdaptationNode, MachineLabel>(want, chain.len() as int));
            }
            Some((combined_projection, Some(combined_initial)))
        },
        None => None,
    }
}

/// A walk through a machine as far as it has come: the states that wait
/// for their visit, those that have been visited, and the event types met.
pub struct Walk {
    pub stack: Seq<usize>,
    pub visited: Set<usize>,
    pub events: Set<Seq<char>>,
}

/// Takes in a transition of a visited state: its event type is met unless
/// it is concurrent with the given one; its target waits for a visit
/// unless the event type is special or the target has been visited.
pub open spec fn walk_edge_step(edges: Seq<(usize, usize)>, labels: Seq<MachineLabelView>, et: Seq<char>, special: Set<Seq<char>>, conc: Set<Seq<Seq<char>>>) -> spec_fn(Walk, usize) -> Walk {
    |st: Walk, e: usize|
        {
            let ev = MachineLabel::event_of(labels[e as int]);
            let events = if conc.contains(pair_key(ev, et)) {
                st.events
            } else {
                st.events.insert(ev)
            };
            if !special.contains(ev) && !st.visited.contains(edges[e as int].1) {
                Walk { stack: st.stack.push(edges[e as int].1), visited: st.visited, events }
            } else {
                Walk { stack: st.stack, visited: st.visited, events }
            }
        }
}

/// Visits the state that has waited the shortest.
pub open spec fn walk_pop(edges: Seq<(usize, usize)>, labels: Seq<MachineLabelView>, et: Seq<char>, special: Set<Seq<char>>, conc: Set<Seq<Seq<char>>>, st: Walk) -> Walk {
    if st.stack.len() == 0 {
        st
    } else {
        fold(edges_from(edges, st.stack.last()), Walk { stack: st.stack.drop_last(), visited: st.visited.insert(st.stack.last()), events: st.events }, walk_edge_step(edges, labels, et, special, conc))
    }
}

/// The walk from a state after a number of visits.
pub open spec fn walk_run(edges: Seq<(usize, usize)>, labels: Seq<MachineLabelView>, start: usize, et: Seq<char>, special: Set<Seq<char>>, conc: Set<Seq<Seq<char>>>, visits: nat) -> Walk
    decreases visits,
{
    if visits == 0 {
        Walk { stack: seq![start], visited: Set::empty(), events: Set::empty() }
    } else {
        walk_pop(edges, labels, et, special, conc, walk_run(edges, labels, start, et, special, conc, (visits - 1) as nat))
    }
}

/// Once no state waits, further visits change nothing.
pub proof fn lemma_walk_done(edges: Seq<(usize, usize)>, labels: Seq<MachineLabelView>, start: usize, et: Seq<char>, special: Set<Seq<char>>, conc: Set<Seq<Seq<char>>>, visits: nat, more: nat)
    requires
        walk_run(edges, labels, start, et, special, conc, visits).stack.len() == 0,
    ensures
        walk_run(edges, labels, start, et, special, conc, visits + more) == walk_run(edges, labels, start, et, special, conc, visits),
    decreases more,
{
    if more > 0 {
        lemma_walk_done(edges, labels, start, et, special, conc, visits, (more - 1) as nat);
    }
}

/// The event types that may follow an event type from a state on: those
/// of the transitions that are met before a special event type ends the
/// way, but for those concurrent with the event type.
pub open spec fn following(edges: Seq<(usize, usize)>, labels: Seq<MachineLabelView>, start: usize, et: Seq<char>, special: Set<Seq<char>>, conc: Set<Seq<Seq<char>>>) -> Set<Seq<char>> {
    walk_run(edges, labels, start, et, special, conc, choose|v: nat| walk_run(edges, labels, start, et, special, conc, v).stack.len() == 0).events
}

/// Wherever the walk has come to its end, it has met the same event types.
pub proof fn lemma_following(edges: Seq<(usize, usize)>, labels: Seq<MachineLabelView>, start: usize, et: Seq<char>, special: Set<Seq<char>>, conc: Set<Seq<Seq<char>>>, visits: nat)
    requires
        walk_run(edges, labels, start, et, special, conc, visits).stack.len() == 0,
    ensures
        following(edges, labels, start, et, special, conc) == walk_run(edges, labels, start, et, special, conc, visits).events,
{
    let w = choose|v: nat| walk_run(edges, labels, start, et, special, conc, v).stack.len() == 0;
    if w <= visits {
        lemma_walk_done(edges, labels, start, et, special, conc, w, (visits - w) as nat);
    } else {
        lemma_walk_done(edges, labels, start, et, special, conc, visits, (w - visits) as nat);
    }
}

/// The event types that may follow an event type from a state of a
/// machine on: see `following`.
pub fn visit_successors_stop_on_branch(proj: &OptionGraph, machine_state: usize, et: &EventType, special_events: &OrdSet<EventType>, concurrent_events: &OrdSet<UnordEventPair>) -> (r: OrdSet<EventType>)
    requires
        proj.wf(),
        carries_events::<MachineLabel>(proj.labels()),
        machine_state < proj.nodes().len(),
        special_events.wf(),
        concurrent_events.wf(),
    ensures
        r.wf(),
        r@ == following(proj.edges(), proj.labels(), machine_state, et@, special_events@, concurrent_events@),
        forall|x: Seq<char>| #[trigger] r@.contains(x) <==> may_follow(proj.edges(), proj.labels(), machine_state, et@, special_events@, concurrent_events@, x),
{
    let ghost n = proj.nodes().len();
    let ghost edges = proj.edges();
    let ghost labels = proj.labels();
    let ghost step = walk_edge_step(edges, labels, et@, special_events@, concurrent_events@);
    let mut visited: OrdSet<usize> = OrdSet::new();
    let mut to_visit: Vec<usize> = Vec::new();
    to_visit.push(machine_state);
    let mut event_types: OrdSet<EventType> = OrdSet::new();
    let ghost mut visits: nat = 0;
    proof {
        proj.lemma_wf();
        assert(to_visit@ =~= seq![machine_state]);
    }
    while to_visit.len() > 0
        invariant
            proj.wf(),
            carries_events::<MachineLabel>(proj.labels()),
            special_events.wf(),
            concurrent_events.wf(),
            n == proj.nodes().len(),
            edges == proj.edges(),
            labels == proj.labels(),
            edges.len() == labels.len(),
            step == walk_edge_step(edges, labels, et@, special_events@, concurrent_events@),
            visited.wf(),
            event_types.wf(),
            forall|x: usize| visited@.contains(x) ==> x < n,
            forall|q: int| 0 <= q < to_visit@.len() ==> #[trigger] to_visit@[q] < n,
            visited.keys().len() <= n,
            (Walk { stack: to_visit@, visited: visited@, events: event_types@ }) == walk_run(edges, labels, machine_state, et@, special_events@, concurrent_events@, visits),
        decreases n - visited.keys().len(), count_in(to_visit@, visited@),
    {
        let ghost stack0 = to_visit@;
        let ghost visited0 = visited;
        let node = to_visit.pop().unwrap();
        let ghost popped = to_visit@;
        proof {
            assert(popped =~= stack0.drop_last());
            assert(stack0.last() == node);
        }
        visited.insert(node);
        proof {
            visited0.lemma_wf();
            visited.lemma_wf();
            lemma_ids_bounded_set(&visited, n);
            if visited0@.contains(node) {
                assert(visited@ =~= visited0@);
            } else {
                assert(visited@.len() == visited0@.len() + 1);
            }
        }
        let ids = proj.out_edges(node);
        let ghost at_pop = Walk { stack: popped, visited: visited@, events: event_types@ };
        let mut k: usize = 0;
        while k < ids.len()
            invariant
                k <= ids.len(),
                proj.wf(),
                carries_events::<MachineLabel>(proj.labels()),
                special_events.wf(),
                concurrent_events.wf(),
                n == proj.nodes().len(),
                edges == proj.edges(),
                labels == proj.labels(),
                edges.len() == labels.len(),
                forall|q: int| 0 <= q < ids@.len() ==> #[trigger] ids@[q] < edges.len(),
                step == walk_edge_step(edges, labels, et@, special_events@, concurrent_events@),
                visited.wf(),
                event_types.wf(),
                forall|q: int| 0 <= q < to_visit@.len() ==> #[trigger] to_visit@[q] < n,
                count_in(to_visit@, visited@) == count_in(popped, visited@),
                (Walk { stack: to_visit@, visited: visited@, events: event_types@ }) == fold_upto(ids@, at_pop, step, k as int),
            decreases ids.len() - k,
        {
            let e = ids[k];
            let ev = proj.label(e).get_event_type();
            let pair = unord_event_pair(ev.duplicate(), et.duplicate());
            if !concurrent_events.contains(&pair) {
                event_types.insert(ev.duplicate());
            }
            let target = proj.target(e);
            if !special_events.contains(&ev) && !visited.contains(&target) {
                let ghost before = to_visit@;
                to_visit.push(target);
                proof {
                    assert(to_visit@.drop_last() =~= before);
                }
            }
            k += 1;
        }
        proof {
            visits = visits + 1;
            assert(count_in(stack0, visited0@) == count_in(popped, visited0@) + if visited0@.contains(node) {
                1nat
            } else {
                0nat
            });
        }
    }
    proof {
        lemma_following(edges, labels, machine_state, et@, special_events@, concurrent_events@, visits);
        assert forall|x: Seq<char>| #[trigger] following(edges, labels, machine_state, et@, special_events@, concurrent_events@).contains(x) <==> may_follow(edges, labels, machine_state, et@, special_events@, concurrent_events@, x) by {
            crate::composition::ways::lemma_following_is(edges, labels, machine_state, et@, special_events@, concurrent_events@, visits, x);
        }
    }
    event_types
}

/// Takes in an event type that follows another: their pair joins the set.
pub open spec fn after_pair_step(e: Seq<char>) -> spec_fn(Set<Seq<Seq<char>>>, Seq<char>) -> Set<Seq<Seq<char>>> {
    |acc: Set<Seq<Seq<char>>>, e2: Seq<char>| acc.insert(pair_key(e, e2))
}

/// Takes in an event type: its pairs with the event types that follow it.
pub open spec fn after_event_step(succ: Subs) -> spec_fn(Set<Seq<Seq<char>>>, Seq<char>) -> Set<Seq<Seq<char>>> {
    |acc: Set<Seq<Seq<char>>>, e: Seq<char>| fold(sorted::<EventType>(succ[e]), acc, after_pair_step(e))
}

/// The pairs of event types of which one follows the other.
pub open spec fn after_pairs(succ: Subs) -> Set<Seq<Seq<char>>> {
    fold(sorted::<EventType>(succ.dom()), Set::<Seq<Seq<char>>>::empty(), after_event_step(succ))
}

/// Takes in a transition: if a role observes an event on it, the event
/// types that may follow from its target on are those that follow its
/// event type.
pub open spec fn paths_edge_step(edges: Seq<(usize, usize)>, labels: Seq<MachineLabelView>, special: Set<Seq<char>>, conc: Set<Seq<Seq<char>>>) -> spec_fn(Subs, usize) -> Subs {
    |m: Subs, e: usize|
        match labels[e as int] {
            MachineLabelView::Execute { .. } => m,
            MachineLabelView::Input { event_type } => map_add(m, event_type, following(edges, labels, edges[e as int].1, event_type, special, conc)),
        }
}

/// Takes in a state: each transition that leaves it.
pub open spec fn paths_node_step(edges: Seq<(usize, usize)>, labels: Seq<MachineLabelView>, special: Set<Seq<char>>, conc: Set<Seq<Seq<char>>>) -> spec_fn(Subs, usize) -> Subs {
    |m: Subs, n: usize| fold(edges_from(edges, n), m, paths_edge_step(edges, labels, special, conc))
}

/// For each event type that a machine observes the event types that may
/// follow it, as sets: special are the branching and joining event types,
/// and a pair counts as concurrent only if neither follows the other.
pub open spec fn paths_of(nodes: nat, edges: Seq<(usize, usize)>, labels: Seq<MachineLabelView>, c: ProtoInfoView) -> Subs {
    let special = union_of(c.branching_events).union(c.joining_events.dom());
    let conc = c.concurrent_events.difference(after_pairs(crate::composition::composition_swarm::closure_by_table(c.succeeding_events)));
    fold(indices(nodes), Map::<Seq<char>, Set<Seq<char>>>::empty(), paths_node_step(edges, labels, special, conc))
}

/// A map of lists as mathematical values.
pub open spec fn lists_view(m: BranchMap) -> Map<Seq<char>, Seq<Seq<char>>> {
    Map::new(|k: Seq<char>| m.has(k), |k: Seq<char>| keys_of(m@[k]@))
}

/// A map of sets as a map of lists in increasing order.
pub open spec fn as_lists(m: Subs) -> Map<Seq<char>, Seq<Seq<char>>> {
    Map::new(|k: Seq<char>| m.dom().contains(k), |k: Seq<char>| sorted::<EventType>(m[k]))
}

/// For each event type that a machine observes the event types that may
/// follow it, in increasing order: see `paths_of`.
pub fn paths_from_event_types(proj: &OptionGraph, proto_info: &ProtoInfo) -> (r: BranchMap)
    requires
        proj.wf(),
        carries_events::<MachineLabel>(proj.labels()),
        proto_info.wf(),
    ensures
        r.wf(),
        lists_view(r) == as_lists(paths_of(proj.nodes().len(), proj.edges(), proj.labels(), proto_info@)),
{
    let ghost edges = proj.edges();
    let ghost labels = proj.labels();
    let ghost n = proj.nodes().len();
    let special_events = crate::composition::composition_types::get_branching_joining_proto_info(proto_info);
    let closed = crate::composition::composition_swarm::transitive_closure_succeeding(proto_info.succeeding_events.duplicate_sets());
    let ghost succ = closed.sets();
    let ghost astep = after_event_step(succ);
    let mut pairs: OrdSet<UnordEventPair> = OrdSet::new();
    proof {
        closed.lemma_sets_keys();
    }
    let mut i: usize = 0;
    while i < closed.len()
        invariant
            i <= closed.keys().len(),
            closed.wf_sets(),
            succ == closed.sets(),
            astep == after_event_step(succ),
            pairs.wf(),
            pairs@ == fold_upto(closed.keys(), Set::<Seq<Seq<char>>>::empty(), astep, i as int),
        decreases closed.keys().len() - i,
    {
        proof {
            closed.lemma_sets_at(i as int);
        }
        let e = closed.key_at(i);
        let after = closed.val_at(i);
        let ghost at_event = pairs@;
        let mut j: usize = 0;
        while j < after.len()
            invariant
                j <= after.keys().len(),
                after.wf(),
                pairs.wf(),
                pairs@ == fold_upto(after.keys(), at_event, after_pair_step(e@), j as int),
            decreases after.keys().len() - j,
        {
            pairs.insert(unord_event_pair(e.duplicate(), after.get(j).duplicate()));
            j += 1;
        }
        i += 1;
    }
    let concurrent_events = proto_info.concurrent_events.difference(&pairs);
    let ghost nstep = paths_node_step(edges, labels, special_events@, concurrent_events@);
    let ghost estep = paths_edge_step(edges, labels, special_events@, concurrent_events@);
    let mut m: OrdMap<EventType, OrdSet<EventType>> = OrdMap::new();
    proof {
        proj.lemma_wf();
        assert(m.sets() =~= Map::<Seq<char>, Set<Seq<char>>>::empty());
    }
    let count = proj.node_count();
    let mut node: usize = 0;
    while node < count
        invariant
            node <= count,
            count == n,
            n == proj.nodes().len(),
            edges == proj.edges(),
            labels == proj.labels(),
            edges.len() == labels.len(),
            proj.wf(),
            carries_events::<MachineLabel>(proj.labels()),
            special_events.wf(),
            concurrent_events.wf(),
            nstep == paths_node_step(edges, labels, special_events@, concurrent_events@),
            estep == paths_edge_step(edges, labels, special_events@, concurrent_events@),
            m.wf_sets(),
            m.sets() == fold_upto(indices(n), Map::<Seq<char>, Set<Seq<char>>>::empty(), nstep, node as int),
        decreases count - node,
    {
        let ids = proj.out_edges(node);
        let ghost at_node = m.sets();
        let mut k: usize = 0;
        while k < ids.len()
            invariant
                k <= ids.len(),
                n == proj.nodes().len(),
                edges == proj.edges(),
                labels == proj.labels(),
                edges.len() == labels.len(),
                proj.wf(),
                carries_events::<MachineLabel>(proj.labels()),
                special_events.wf(),
                concurrent_events.wf(),
                forall|q: int| 0 <= q < ids@.len() ==> #[trigger] ids@[q] < edges.len(),
                estep == paths_edge_step(edges, labels, special_events@, concurrent_events@),
                m.wf_sets(),
                m.sets() == fold_upto(ids@, at_node, estep, k as int),
            decreases ids.len() - k,
        {
            let e = ids[k];
            match proj.label(e) {
                MachineLabel::Execute { .. } => {},
                MachineLabel::Input { event_type } => {
                    let paths_this_edge = visit_successors_stop_on_branch(proj, proj.target(e), event_type, &special_events, &concurrent_events);
                    m.add_all(event_type, &paths_this_edge);
                },
            }
            k += 1;
        }
        node += 1;
    }
    to_lists(&m)
}

/// A map of sets as a map of lists in increasing order.
pub fn to_lists(m: &OrdMap<EventType, OrdSet<EventType>>) -> (r: BranchMap)
    requires
        m.wf_sets(),
    ensures
        r.wf(),
        lists_view(r) == as_lists(m.sets()),
{
    let mut r: BranchMap = OrdMap::new();
    proof {
        m.lemma_sets_keys();
        m.lemma_wf();
    }
    let mut i: usize = 0;
    while i < m.len()
        invariant
            i <= m.keys().len(),
            m.wf_sets(),
            m.keys().no_duplicates(),
            forall|k: Seq<char>| m.has(k) <==> #[trigger] m.sets().dom().contains(k),
            r.wf(),
            forall|k: Seq<char>| r.has(k) <==> exists|q: int| 0 <= q < i && #[trigger] m.keys()[q] == k,
            forall|k: Seq<char>| r.has(k) ==> keys_of(#[trigger] r@[k]@) == sorted::<EventType>(m.sets()[k]),
        decreases m.keys().len() - i,
    {
        proof {
            m.lemma_sets_at(i as int);
        }
        let list = m.val_at(i).to_vec();
        let ghost before = r;
        r.insert(m.key_at(i).duplicate(), list);
        proof {
            let key = m.keys()[i as int];
            assert forall|k: Seq<char>| r.has(k) <==> exists|q: int| 0 <= q < i + 1 && #[trigger] m.keys()[q] == k by {
                assert(r.has(k) == (before.has(k) || k == key));
                if before.has(k) {
                    let q = choose|q: int| 0 <= q < i && #[trigger] m.keys()[q] == k;
                    assert(0 <= q < i + 1 && m.keys()[q] == k);
                }
                if k == key {
                    assert(0 <= i < i + 1 && m.keys()[i as int] == k);
                }
                if exists|q: int| 0 <= q < i + 1 && #[trigger] m.keys()[q] == k {
                    let q = choose|q: int| 0 <= q < i + 1 && #[trigger] m.keys()[q] == k;
                    if q < i {
                        assert(before.has(k));
                    }
                }
            }
            assert forall|k: Seq<char>| r.has(k) implies keys_of(#[trigger] r@[k]@) == sorted::<EventType>(m.sets()[k]) by {
                if k != key {
                    assert(before.has(k));
                    assert(r@[k] == before@[k]);
                }
            }
        }
        i += 1;
    }
    proof {
        assert forall|k: Seq<char>| r.has(k) <==> m.sets().dom().contains(k) by {
            if r.has(k) {
                let q = choose|q: int| 0 <= q < m.keys().len() && #[trigger] m.keys()[q] == k;
                assert(m.keys().contains(k));
            }
            if m.has(k) {
                let q = choose|q: int| 0 <= q < m.keys().len() && m.keys()[q] == k;
                assert(0 <= q < i && m.keys()[q] == k);
            }
        }
        assert(lists_view(r) =~= as_lists(m.sets()));
    }
    r
}

/// An adapted machine as a machine whose states have their names alone.
pub fn from_adaptation_graph_to_option_graph(graph: &AdaptationGraph) -> (r: OptionGraph)
    requires
        graph.wf(),
    ensures
        r.wf(),
        r.nodes() == Seq::new(graph.nodes().len(), |i: int| Some(graph.nodes()[i].0)),
        r.edges() == graph.edges(),
        r.labels() == graph.labels(),
{
    let mut nodes: Vec<Option<State>> = Vec::new();
    let count = graph.node_count();
    let mut n: usize = 0;
    while n < count
        invariant
            n <= count,
            count == graph.nodes().len(),
            graph.wf(),
            nodes@.len() == n,
            all_valid(nodes@),
            forall|i: int| 0 <= i < n ==> (#[trigger] nodes@[i]).key() == Some(graph.nodes()[i].0),
        decreases count - n,
    {
        nodes.push(Some(graph.node(n).state.duplicate()));
        n += 1;
    }
    let r = relabel(graph, nodes);
    proof {
        assert(r.nodes() =~= Seq::new(graph.nodes().len(), |i: int| Some(graph.nodes()[i].0)));
    }
    r
}

/// A machine as a list of transitions in their order, with the name of its
/// initial state.
pub fn to_json_machine(graph: MachineGraph, initial: usize) -> (r: MachineType)
    requires
        graph.wf(),
        initial < graph.nodes().len(),
    ensures
        r@ == (graph.nodes()[initial as int], crate::machine::machine_transitions::<State>(graph.nodes(), graph.edges(), graph.labels())),
{
    crate::machine::machine_of(&graph, initial)
}

/// A machine as a list of transitions in their order, with the name of its
/// initial state; a state without a name has the empty name.
pub fn from_option_to_machine(graph: OptionGraph, initial: usize) -> (r: MachineType)
    requires
        graph.wf(),
        initial < graph.nodes().len(),
    ensures
        r@ == (<Option<State> as Named>::named(graph.nodes()[initial as int]), crate::machine::machine_transitions::<Option<State>>(graph.nodes(), graph.edges(), graph.labels())),
{
    crate::machine::machine_of(&graph, initial)
}

/// Takes in a state of an adapted machine: its name stands for the
/// states that it refines.
pub open spec fn refines_step() -> spec_fn(Map<Seq<char>, Seq<Seq<char>>>, AdaptationKey) -> Map<Seq<char>, Seq<Seq<char>>> {
    |m: Map<Seq<char>, Seq<Seq<char>>>, node: AdaptationKey|
        m.insert(
            node.0,
            match node.1 {
                Some(states) => states,
                None => Seq::empty(),
            },
        )
}

/// A map from states to lists of states as mathematical values.
pub open spec fn states_view(m: ProjToMachineStates) -> Map<Seq<char>, Seq<Seq<char>>> {
    Map::new(|k: Seq<char>| m.has(k), |k: Seq<char>| keys_of(m@[k]@))
}

/// What is to be known of the machine of a role in a composition, built
/// around the role's own machine: the adapted machine as a list of
/// transitions, for each event type that it observes the event types that
/// may follow, the branching and joining event types, and for each state
/// the states of that machine that it refines. None where there is no protocol
/// at `k`.
pub fn projection_information(proto_info: &ProtoInfo, subs: &Subscriptions, role: Role, machine: (OptionGraph, usize), k: usize, minimize: bool) -> (r: Option<ProjectionInfo>)
    requires
        proto_info.wf(),
        subs.wf_sets(),
        composable(proto_info@.protocols),
        machine.0.wf(),
        machine.1 < machine.0.nodes().len(),
        carries_events::<MachineLabel>(machine.0.labels()),
    ensures
        r is Some == (k < proto_info@.protocols.len()),
        match r {
            Some(info) => {
                let a = adapted(proto_info@, subs.sets(), role@, view_of(machine.0, machine.1), k as int, minimize);
                &&& info.projection@ == (a.nodes[a.initial as int].0, Seq::new(a.edges.len(), |e: int| (a.labels[e], a.nodes[a.edges[e].0 as int].0, a.nodes[a.edges[e].1 as int].0)))
                &&& info.branches.wf()
                &&& lists_view(info.branches) == as_lists(paths_of(a.nodes.len(), a.edges, a.labels, proto_info@))
                &&& info.special_event_types.wf()
                &&& info.special_event_types@ == union_of(proto_info@.branching_events).union(proto_info@.joining_events.dom())
                &&& info.proj_to_machine_states.wf()
                &&& states_view(info.proj_to_machine_states) == fold(a.nodes, Map::<Seq<char>, Seq<Seq<char>>>::empty(), refines_step())
            },
            None => true,
        },
{
    let (proj, proj_initial) = match adapted_projection(proto_info, subs, role, machine, k, minimize) {
        Some((proj, Some(proj_initial))) => (proj, proj_initial),
        _ => {
            return None;
        },
    };
    let ghost nodes = proj.nodes();
    let mut proj_to_machine_states: ProjToMachineStates = OrdMap::new();
    proof {
        assert(states_view(proj_to_machine_states) =~= Map::<Seq<char>, Seq<Seq<char>>>::empty());
    }
    let count = proj.node_count();
    let mut n: usize = 0;
    while n < count
        invariant
            n <= count,
            count == nodes.len(),
            nodes == proj.nodes(),
            proj.wf(),
            proj_to_machine_states.wf(),
            states_view(proj_to_machine_states) == fold_upto(nodes, Map::<Seq<char>, Seq<Seq<char>>>::empty(), refines_step(), n as int),
        decreases count - n,
    {
        let node = proj.node(n);
        let states: Vec<State> = match &node.machine_states {
            Some(set) => set.to_vec(),
            None => Vec::new(),
        };
        let ghost before = proj_to_machine_states;
        let ghost held = keys_of(states@);
        proof {
            if node.machine_states is None {
                assert(held =~= Seq::<Seq<char>>::empty());
            }
        }
        proj_to_machine_states.insert(node.state.duplicate(), states);
        proof {
            let want = fold_upto(nodes, Map::<Seq<char>, Seq<Seq<char>>>::empty(), refines_step(), n as int + 1);
            assert forall|q: Seq<char>| states_view(proj_to_machine_states).dom().contains(q) implies #[trigger] states_view(proj_to_machine_states)[q] == want[q] by {
                if q != node.state@ {
                    assert(before.has(q));
                    assert(states_view(before)[q] == keys_of(before@[q]@));
                }
            }
            assert(states_view(proj_to_machine_states) =~= want);
        }
        n += 1;
    }
    let option_proj = from_adaptation_graph_to_option_graph(&proj);
    let branches = paths_from_event_types(&option_proj, proto_info);
    let special_event_types = crate::composition::composition_types::get_branching_joining_proto_info(proto_info);
    let projection = from_option_to_machine(option_proj, proj_initial);
    proof {
        assert(projection@.1 =~= Seq::new(proj.edges().len(), |e: int| (proj.labels()[e], nodes[proj.edges()[e].0 as int].0, nodes[proj.edges()[e].1 as int].0))) by {
            proj.lemma_wf();
        }
        assert(special_event_types@ =~= union_of(proto_info@.branching_events).union(proto_info@.joining_events.dom()));
    }
    Some(ProjectionInfo { projection, branches, special_event_types, proj_to_machine_states })
}

} // verus!
