//! Labels of machines and that by which they are told apart: when a
//! machine without two transitions of one label at a state is
//! deterministic.
use crate::composition::composition_machine::{carries_events, det_key, deterministic, distinct_out, labels_among};
use crate::types::MachineLabel;
use crate::composition::composition_swarm::{pos_of, LabelKey};
use crate::types::MachineLabelView;
use vstd::prelude::*;

verus! {

/// Whether each command of some labels of a protocol goes with one event
/// type.
pub open spec fn one_event_per_command(labels: Seq<LabelKey>) -> bool {
    forall|i: int, j: int| 0 <= i < labels.len() && 0 <= j < labels.len() && (#[trigger] labels[i]).0 == (#[trigger] labels[j]).0 ==> labels[i].1[0] == labels[j].1[0]
}

/// Whether labels of a machine that are not told apart are the same label.
pub open spec fn told_apart(labels: Seq<MachineLabelView>) -> bool {
    forall|a: int, b: int| 0 <= a < labels.len() && 0 <= b < labels.len() && det_key(#[trigger] labels[a]) == det_key(#[trigger] labels[b]) ==> labels[a] == labels[b]
}

/// Whether a label of a machine is made of a label of a protocol: the
/// input of its event type, or the execution of its command with its event
/// type.
pub open spec fn made_of(m: MachineLabelView, l: LabelKey) -> bool {
    m == (MachineLabelView::Input { event_type: l.1[0] }) || m == (MachineLabelView::Execute { cmd: l.0, log_type: seq![l.1[0]] })
}

/// Whether each label of a machine is made of one of some labels of a
/// protocol.
pub closed spec fn sourced(mlabels: Seq<MachineLabelView>, labels: Seq<LabelKey>) -> bool {
    forall|k: int| 0 <= k < mlabels.len() ==> exists|e: int| 0 <= e < labels.len() && made_of(#[trigger] mlabels[k], #[trigger] labels[e])
}

/// No labels are made of anything.
pub proof fn lemma_sourced_none(labels: Seq<LabelKey>)
    ensures
        sourced(Seq::empty(), labels),
{
}

/// A label made of a label of the protocol may join.
pub proof fn lemma_sourced_push(mlabels: Seq<MachineLabelView>, labels: Seq<LabelKey>, m: MachineLabelView, e: int)
    requires
        sourced(mlabels, labels),
        0 <= e < labels.len(),
        made_of(m, labels[e]),
    ensures
        sourced(mlabels.push(m), labels),
{
    let after = mlabels.push(m);
    assert forall|k: int| 0 <= k < after.len() implies exists|e: int| 0 <= e < labels.len() && made_of(#[trigger] after[k], #[trigger] labels[e]) by {
        if k < mlabels.len() {
            assert(after[k] == mlabels[k]);
            let e0 = choose|e0: int| 0 <= e0 < labels.len() && made_of(#[trigger] mlabels[k], #[trigger] labels[e0]);
            assert(made_of(after[k], labels[e0]));
        } else {
            assert(made_of(after[k], labels[e]));
        }
    }
}

/// Labels made of the labels of a protocol in which each command goes
/// with one event type are told apart by command and event type.
pub proof fn lemma_sourced_apart(mlabels: Seq<MachineLabelView>, labels: Seq<LabelKey>)
    requires
        sourced(mlabels, labels),
        one_event_per_command(labels),
    ensures
        told_apart(mlabels),
{
    assert forall|a: int, b: int| 0 <= a < mlabels.len() && 0 <= b < mlabels.len() && det_key(#[trigger] mlabels[a]) == det_key(#[trigger] mlabels[b]) implies mlabels[a] == mlabels[b] by {
        let ea = choose|e: int| 0 <= e < labels.len() && made_of(#[trigger] mlabels[a], #[trigger] labels[e]);
        let eb = choose|e: int| 0 <= e < labels.len() && made_of(#[trigger] mlabels[b], #[trigger] labels[e]);
        assert(made_of(mlabels[a], labels[ea]));
        assert(made_of(mlabels[b], labels[eb]));
    }
}

/// Labels among labels that are told apart are told apart.
pub proof fn lemma_apart_among(mlabels: Seq<MachineLabelView>, given: Seq<MachineLabelView>)
    requires
        told_apart(given),
        labels_among(mlabels, given),
    ensures
        told_apart(mlabels),
{
    assert forall|a: int, b: int| 0 <= a < mlabels.len() && 0 <= b < mlabels.len() && det_key(#[trigger] mlabels[a]) == det_key(#[trigger] mlabels[b]) implies mlabels[a] == mlabels[b] by {
        assert(given.contains(mlabels[a]));
        assert(given.contains(mlabels[b]));
        let ia = choose|i: int| 0 <= i < given.len() && given[i] == mlabels[a];
        let ib = choose|i: int| 0 <= i < given.len() && given[i] == mlabels[b];
        assert(det_key(given[ia]) == det_key(given[ib]));
    }
}

/// Labels among labels that are among others are among those.
pub proof fn lemma_among_among(a: Seq<MachineLabelView>, b: Seq<MachineLabelView>, c: Seq<MachineLabelView>)
    requires
        labels_among(a, b),
        labels_among(b, c),
    ensures
        labels_among(a, c),
{
    assert forall|e: int| 0 <= e < a.len() implies c.contains(#[trigger] a[e]) by {
        assert(b.contains(a[e]));
        let i = choose|i: int| 0 <= i < b.len() && b[i] == a[e];
        assert(c.contains(b[i]));
    }
}

/// A machine without two transitions of one label at a state, the labels
/// of which are told apart, is deterministic.
pub proof fn lemma_deterministic(edges: Seq<(usize, usize)>, labels: Seq<MachineLabelView>)
    requires
        edges.len() == labels.len(),
        distinct_out(edges, labels),
        told_apart(labels),
    ensures
        deterministic(edges, labels),
{
    assert forall|a: int, b: int| 0 <= a < edges.len() && 0 <= b < edges.len() && a != b && (#[trigger] edges[a]).0 == (#[trigger] edges[b]).0 implies det_key(labels[a]) != det_key(labels[b]) by {
        if det_key(labels[a]) == det_key(labels[b]) {
            assert(labels[a] == labels[b]);
        }
    }
}

/// Labels among labels that carry an event type each carry one each.
pub proof fn lemma_among_carry(labels: Seq<MachineLabelView>, given: Seq<MachineLabelView>)
    requires
        labels_among(labels, given),
    ensures
        carries_events::<MachineLabel>(given) ==> carries_events::<MachineLabel>(labels),
{
    if carries_events::<MachineLabel>(given) {
        assert forall|i: int| 0 <= i < labels.len() implies <MachineLabel as crate::composition::composition_types::EventLabel>::has_event(#[trigger] labels[i]) by {
            assert(given.contains(labels[i]));
            let q = choose|q: int| 0 <= q < given.len() && given[q] == labels[i];
            assert(<MachineLabel as crate::composition::composition_types::EventLabel>::has_event(given[q]));
        }
    }
}

/// Whether each event type of some labels of a protocol is emitted by one
/// transition and each command enabled by one.
pub open spec fn confusion_free_labels(labels: Seq<LabelKey>) -> bool {
    forall|i: int, j: int| 0 <= i < labels.len() && 0 <= j < labels.len() && i != j ==> (#[trigger] labels[i]).1[0] != (#[trigger] labels[j]).1[0] && labels[i].0 != labels[j].0
}

/// Labels of which each command is on one transition go with one event
/// type per command.
pub proof fn lemma_confusion_free(labels: Seq<LabelKey>)
    requires
        confusion_free_labels(labels),
    ensures
        one_event_per_command(labels),
{
}

/// Whether the transitions of a machine with one `Input` label all lead to
/// one state, and each transition with an `Execute` label leads back to
/// the state that it leaves.
pub open spec fn funnelled(edges: Seq<(usize, usize)>, labels: Seq<MachineLabelView>) -> bool {
    &&& forall|a: int, b: int| 0 <= a < edges.len() && 0 <= b < edges.len() && #[trigger] labels[a] == #[trigger] labels[b] && labels[a] is Input ==> edges[a].1 == edges[b].1
    &&& forall|a: int| 0 <= a < edges.len() && (#[trigger] labels[a]) is Execute ==> edges[a].0 == edges[a].1
}

/// Whether a transition of a machine with its label is made of a
/// transition of a protocol: an input that leads to the state of its
/// target, or an execution that leads back.
pub open spec fn made_by(edge: (usize, usize), label: MachineLabelView, sedges: Seq<(usize, usize)>, slabels: Seq<LabelKey>, kept: Seq<usize>, e: int) -> bool {
    match label {
        MachineLabelView::Input { event_type } => event_type == slabels[e].1[0] && edge.1 == pos_of(kept, sedges[e].1) as usize,
        MachineLabelView::Execute { .. } => edge.0 == edge.1,
    }
}

/// Whether each transition of a machine is made of a transition of a
/// protocol.
pub closed spec fn traced(edges: Seq<(usize, usize)>, labels: Seq<MachineLabelView>, sedges: Seq<(usize, usize)>, slabels: Seq<LabelKey>, kept: Seq<usize>) -> bool {
    &&& edges.len() == labels.len()
    &&& forall|k: int| 0 <= k < edges.len() ==> #[trigger] made_somewhere(edges, labels, sedges, slabels, kept, k)
}

/// Whether a transition of a machine is made of some transition of a
/// protocol.
pub open spec fn made_somewhere(edges: Seq<(usize, usize)>, labels: Seq<MachineLabelView>, sedges: Seq<(usize, usize)>, slabels: Seq<LabelKey>, kept: Seq<usize>, k: int) -> bool {
    exists|e: int| 0 <= e < slabels.len() && #[trigger] made_by(edges[k], labels[k], sedges, slabels, kept, e)
}

/// No transitions are made of anything.
pub proof fn lemma_traced_none(sedges: Seq<(usize, usize)>, slabels: Seq<LabelKey>, kept: Seq<usize>)
    ensures
        traced(Seq::empty(), Seq::empty(), sedges, slabels, kept),
{
}

/// A transition made of a transition of the protocol may join.
pub proof fn lemma_traced_push(edges: Seq<(usize, usize)>, labels: Seq<MachineLabelView>, sedges: Seq<(usize, usize)>, slabels: Seq<LabelKey>, kept: Seq<usize>, edge: (usize, usize), label: MachineLabelView, e: int)
    requires
        traced(edges, labels, sedges, slabels, kept),
        0 <= e < slabels.len(),
        made_by(edge, label, sedges, slabels, kept, e),
    ensures
        traced(edges.push(edge), labels.push(label), sedges, slabels, kept),
{
    let es = edges.push(edge);
    let ls = labels.push(label);
    assert forall|k: int| 0 <= k < es.len() implies #[trigger] made_somewhere(es, ls, sedges, slabels, kept, k) by {
        if k < edges.len() {
            assert(made_somewhere(edges, labels, sedges, slabels, kept, k));
            let e0 = choose|e0: int| 0 <= e0 < slabels.len() && #[trigger] made_by(edges[k], labels[k], sedges, slabels, kept, e0);
            assert(made_by(es[k], ls[k], sedges, slabels, kept, e0));
        } else {
            assert(made_by(es[k], ls[k], sedges, slabels, kept, e));
        }
    }
}

/// Transitions made of the transitions of a protocol in which each event
/// type is emitted by one transition are funnelled.
pub proof fn lemma_traced_funnelled(edges: Seq<(usize, usize)>, labels: Seq<MachineLabelView>, sedges: Seq<(usize, usize)>, slabels: Seq<LabelKey>, kept: Seq<usize>)
    requires
        traced(edges, labels, sedges, slabels, kept),
        confusion_free_labels(slabels),
    ensures
        funnelled(edges, labels),
{
    assert forall|a: int, b: int| 0 <= a < edges.len() && 0 <= b < edges.len() && #[trigger] labels[a] == #[trigger] labels[b] && labels[a] is Input implies edges[a].1 == edges[b].1 by {
        assert(made_somewhere(edges, labels, sedges, slabels, kept, a));
        assert(made_somewhere(edges, labels, sedges, slabels, kept, b));
        let ea = choose|e: int| 0 <= e < slabels.len() && #[trigger] made_by(edges[a], labels[a], sedges, slabels, kept, e);
        let eb = choose|e: int| 0 <= e < slabels.len() && #[trigger] made_by(edges[b], labels[b], sedges, slabels, kept, e);
        if ea != eb {
            assert(slabels[ea].1[0] != slabels[eb].1[0]);
        }
    }
    assert forall|a: int| 0 <= a < edges.len() && (#[trigger] labels[a]) is Execute implies edges[a].0 == edges[a].1 by {
        assert(made_somewhere(edges, labels, sedges, slabels, kept, a));
        let ea = choose|e: int| 0 <= e < slabels.len() && #[trigger] made_by(edges[a], labels[a], sedges, slabels, kept, e);
    }
}

} // verus!
