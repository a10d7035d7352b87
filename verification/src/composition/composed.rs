//! What leaves a state of a composition of protocols is told apart by its
//! command and by its event type, where that is so in each protocol and
//! among the labels of all of them.
use crate::composition::composition_swarm::{all_labels, drawn_from, lemma_composition_unambiguous, composed_with, composition, composition_upto, events_of, interface_with, label_roles, lemma_events_of, role_events_step, unambiguous, LabelKey, RoleLabels};
use crate::composition::composition_types::{EventLabel, ProtoInfoView};
use crate::composition::keys::confusion_free_labels;
use crate::composition::distinct::{lemma_labels_from, lemma_product_twin_free, shared_within, twin_free};
use crate::composition::products::{labels_at, lemma_product_shape, product_of, sides_ok, Sides};
use crate::names::Role;
use crate::ordmap::set_at;
use crate::ordset::{lemma_sorted_of, sorted};
use crate::seqs::fold_upto;
use crate::types::SwarmLabel;
use vstd::prelude::*;

verus! {

/// Whether the index of labels by role holds each label of each protocol
/// under its role, in finite sets.
pub open spec fn indexed(c: ProtoInfoView) -> bool {
    &&& forall|r: Seq<char>| (#[trigger] set_at(c.role_event_map, r)).finite()
    &&& forall|i: int, e: int| 0 <= i < c.protocols.len() && 0 <= e < c.protocols[i].labels.len() ==> set_at(c.role_event_map, c.protocols[i].labels[e].2).contains(#[trigger] c.protocols[i].labels[e])
}

/// The composition of the first protocols and the next one, as the two
/// graphs of a product over the interface between them.
pub open spec fn sides_at(c: ProtoInfoView, k: int) -> Sides<LabelKey> {
    let acc = composition_upto(c.protocols, c.role_event_map, k);
    let p = c.protocols[k];
    Sides {
        n1: acc.nodes.len(),
        e1: acc.edges,
        l1: acc.labels,
        i1: acc.initial,
        n2: p.nodes.len(),
        e2: p.edges,
        l2: p.labels,
        i2: p.initial->0,
        interface: interface_with(acc.roles, label_roles(p.labels), c.role_event_map),
    }
}

/// Whether each protocol after the first can be composed with those before
/// it: the graphs are within the limits of the machine.
pub open spec fn within_limits(c: ProtoInfoView) -> bool {
    forall|k: int| 1 <= k < c.protocols.len() ==> sides_ok(#[trigger] sides_at(c, k))
}

/// Whether no state of any protocol has two transitions with the same label.
pub open spec fn each_twin_free(c: ProtoInfoView) -> bool {
    forall|i: int| 0 <= i < c.protocols.len() ==> twin_free((#[trigger] c.protocols[i]).edges, c.protocols[i].labels)
}

/// Whether a label is one of the first protocols.
pub open spec fn drawn(c: ProtoInfoView, k: int, l: LabelKey) -> bool {
    exists|j: int| 0 <= j < k && (#[trigger] c.protocols[j]).labels.contains(l)
}

/// The event types of a role's labels are part of the interface over the
/// roles that hold it.
proof fn lemma_interface_upto(list: Seq<Seq<char>>, rem: RoleLabels, upto: int, q: int, x: Seq<char>)
    requires
        0 <= q < upto <= list.len(),
        events_of(set_at(rem, list[q])).contains(x),
    ensures
        fold_upto(list, Set::<Seq<char>>::empty(), role_events_step(rem), upto).contains(x),
    decreases upto,
{
    if q < upto - 1 {
        lemma_interface_upto(list, rem, upto - 1, q, x);
    }
}

/// What holds of the composition of the first protocols: no state has two
/// transitions with the same label, each label is one of the protocols,
/// and its role is one of the roles.
pub open spec fn composed_ok(c: ProtoInfoView, k: int) -> bool {
    let acc = composition_upto(c.protocols, c.role_event_map, k);
    &&& twin_free(acc.edges, acc.labels)
    &&& acc.edges.len() == acc.labels.len()
    &&& acc.roles.finite()
    &&& forall|e: int| 0 <= e < acc.labels.len() ==> drawn(c, k, #[trigger] acc.labels[e]) && acc.roles.contains(acc.labels[e].2)
}

/// The composition of the first protocols keeps the labels that leave a
/// state apart.
proof fn lemma_composed_upto(c: ProtoInfoView, k: int)
    requires
        1 <= k <= c.protocols.len(),
        c.protocols[0].edges.len() == c.protocols[0].labels.len(),
        each_twin_free(c),
        indexed(c),
        within_limits(c),
    ensures
        composed_ok(c, k),
    decreases k,
{
    let acc = composition_upto(c.protocols, c.role_event_map, k);
    if k == 1 {
        let p = c.protocols[0];
        vstd::seq_lib::seq_to_set_is_finite(Seq::new(p.labels.len(), |i: int| p.labels[i].2));
        assert forall|e: int| 0 <= e < acc.labels.len() implies drawn(c, k, #[trigger] acc.labels[e]) && acc.roles.contains(acc.labels[e].2) by {
            assert(c.protocols[0].labels.contains(acc.labels[e]));
            assert(Seq::new(p.labels.len(), |i: int| p.labels[i].2)[e] == acc.labels[e].2);
        }
    } else {
        lemma_composed_upto(c, k - 1);
        let before = composition_upto(c.protocols, c.role_event_map, k - 1);
        let p = c.protocols[k - 1];
        let sides = sides_at(c, k - 1);
        let roles = label_roles(p.labels);
        let role_list = Seq::new(p.labels.len(), |i: int| p.labels[i].2);
        vstd::seq_lib::seq_to_set_is_finite(role_list);
        let common = before.roles.intersect(roles);
        lemma_sorted_of::<Role>(common);
        let list = sorted::<Role>(common);
        assert(sides_ok(sides));
        assert(twin_free(p.edges, p.labels));
        assert forall|a: int, b: int| 0 <= a < sides.l1.len() && 0 <= b < sides.l2.len() && #[trigger] sides.l1[a] == #[trigger] sides.l2[b] implies sides.interface.contains(SwarmLabel::event_of(sides.l1[a])) by {
            let l = sides.l1[a];
            assert(before.roles.contains(l.2));
            assert(role_list[b] == l.2);
            assert(roles.contains(l.2));
            assert(list.to_set().contains(l.2));
            let q = choose|q: int| 0 <= q < list.len() && list[q] == l.2;
            assert(set_at(c.role_event_map, l.2).contains(p.labels[b]));
            lemma_events_of(set_at(c.role_event_map, l.2), l.1[0]);
            lemma_interface_upto(list, c.role_event_map, list.len() as int, q, l.1[0]);
        }
        assert(shared_within::<SwarmLabel>(sides));
        lemma_product_twin_free::<SwarmLabel>(sides);
        lemma_product_shape::<SwarmLabel>(sides);
        let prod = product_of::<SwarmLabel>(sides);
        assert(acc == composed_with(before, p, c.role_event_map));
        assert(acc.edges == prod.edges && acc.labels == prod.labels);
        assert forall|e: int| 0 <= e < acc.labels.len() implies drawn(c, k, #[trigger] acc.labels[e]) && acc.roles.contains(acc.labels[e].2) by {
            let l = acc.labels[e];
            let s = prod.origin[prod.edges[e].0 as int];
            assert(labels_at::<SwarmLabel>(sides, s).contains(prod.labels[e]));
            lemma_labels_from::<SwarmLabel>(sides, s, l);
            if sides.l1.contains(l) {
                let a = choose|a: int| 0 <= a < before.labels.len() && before.labels[a] == l;
                assert(drawn(c, k - 1, before.labels[a]));
                let j = choose|j: int| 0 <= j < k - 1 && (#[trigger] c.protocols[j]).labels.contains(l);
                assert(0 <= j < k && c.protocols[j].labels.contains(l));
            } else {
                let b = choose|b: int| 0 <= b < p.labels.len() && p.labels[b] == l;
                assert(c.protocols[k - 1].labels.contains(l));
                assert(role_list[b] == l.2);
                assert(roles.contains(l.2));
            }
        }
    }
}

/// Whether the transitions that leave a state differ in their commands and
/// in their event types.
pub open spec fn told_apart_at_states(edges: Seq<(usize, usize)>, labels: Seq<LabelKey>) -> bool {
    forall|a: int, b: int| 0 <= a < edges.len() && 0 <= b < edges.len() && a != b && (#[trigger] edges[a]).0 == (#[trigger] edges[b]).0 ==> labels[a].0 != labels[b].0 && labels[a].1[0] != labels[b].1[0]
}

/// Whether in each protocol no two transitions emit the same event type
/// and no two are enabled by the same command.
pub open spec fn each_confusion_free(c: ProtoInfoView) -> bool {
    forall|i: int| 0 <= i < c.protocols.len() ==> confusion_free_labels((#[trigger] c.protocols[i]).labels)
}

/// Confusion does not arise by composition: where each protocol is free of
/// confusion, and each command and each event type of the protocols
/// belongs to one label, each label of the composition is a label of a
/// protocol, each command and each event type of the composition belongs
/// to one label, and no state of the composition has two transitions with
/// the same command or the same event type.
pub proof fn lemma_composition_told_apart(c: ProtoInfoView)
    requires
        c.protocols.len() > 0,
        forall|i: int| 0 <= i < c.protocols.len() ==> (#[trigger] c.protocols[i]).edges.len() == c.protocols[i].labels.len(),
        each_confusion_free(c),
        unambiguous(all_labels(c.protocols)),
        indexed(c),
        within_limits(c),
    ensures
        drawn_from(composition(c).labels, c.protocols),
        unambiguous(composition(c).labels.to_set()),
        told_apart_at_states(composition(c).edges, composition(c).labels),
{
    assert forall|i: int| 0 <= i < c.protocols.len() implies twin_free((#[trigger] c.protocols[i]).edges, c.protocols[i].labels) by {
        let p = c.protocols[i];
        assert(confusion_free_labels(p.labels));
        assert forall|a: int, b: int| 0 <= a < p.edges.len() && 0 <= b < p.edges.len() && a != b && (#[trigger] p.edges[a]).0 == (#[trigger] p.edges[b]).0 implies p.labels[a] != p.labels[b] by {
            assert(p.labels[a].0 != p.labels[b].0);
        }
    }
    let k = c.protocols.len() as int;
    lemma_composed_upto(c, k);
    let g = composition(c);
    assert forall|a: int, b: int| 0 <= a < g.edges.len() && 0 <= b < g.edges.len() && a != b && (#[trigger] g.edges[a]).0 == (#[trigger] g.edges[b]).0 implies g.labels[a].0 != g.labels[b].0 && g.labels[a].1[0] != g.labels[b].1[0] by {
        assert(drawn(c, k, g.labels[a]));
        assert(drawn(c, k, g.labels[b]));
        let i = choose|i: int| 0 <= i < k && (#[trigger] c.protocols[i]).labels.contains(g.labels[a]);
        let j = choose|j: int| 0 <= j < k && (#[trigger] c.protocols[j]).labels.contains(g.labels[b]);
        assert(all_labels(c.protocols).contains(g.labels[a]));
        assert(all_labels(c.protocols).contains(g.labels[b]));
        assert(g.labels[a] != g.labels[b]);
    }
    assert forall|x: int| 0 <= x < g.labels.len() implies all_labels(c.protocols).contains(#[trigger] g.labels[x]) by {
        assert(drawn(c, k, g.labels[x]));
        let i = choose|i: int| 0 <= i < k && (#[trigger] c.protocols[i]).labels.contains(g.labels[x]);
    }
    lemma_composition_unambiguous(g.labels, c.protocols);
}

} // verus!
