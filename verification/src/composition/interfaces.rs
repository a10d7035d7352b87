//! Protocols without findings keep their labels apart: each command and
//! each event type of the protocols belongs to one label, and so no state
//! of their composition has two transitions with the same command or the
//! same event type.
use crate::composition::composed::{each_confusion_free, indexed, lemma_composition_told_apart, told_apart_at_states, within_limits};
use crate::composition::composition_swarm::{
    all_labels, drawn_from, by_command, by_command_step, by_event, by_event_step, combine_all, combine_two, combine_upto, combined, command_clash_step, command_clashes, composition, confusion_checked, confusion_errors,
    confusion_free_errors, event_clash_step, event_clashes, has_errors, lemma_swarm_info_ready, prepared, prepared_all, proto_errors, proto_labels, ready_one, role_triples_step, swarm_info, triple_of, triple_step,
    triples_of, unambiguous, with_errors, with_joins, ErrorView, LabelKey, RoleLabels, Triple,
};
use crate::composition::composition_types::ProtoInfoView;
use crate::composition::confusion::lemma_confusion_found;
use crate::composition::indexing::{countable, holds, lemma_prepared_index};
use crate::composition::keys::confusion_free_labels;
use crate::names::{Command, EventType, Role};
use crate::ordmap::set_at;
use crate::ordset::{lemma_sorted_of, sorted};
use crate::seqs::fold_upto;
use crate::types::SwarmLabel;
use vstd::prelude::*;

verus! {

/// Whether a triple is that of a label of an index of labels by role.
pub open spec fn triple_in(rem: RoleLabels, x: Triple) -> bool {
    exists|r: Seq<char>, l: LabelKey| rem.dom().contains(r) && #[trigger] rem[r].contains(l) && triple_of(l) == x
}

/// Whether a triple is that of one of the first labels of a list.
pub open spec fn triple_among(list: Seq<LabelKey>, upto: int, x: Triple) -> bool {
    exists|i: int| 0 <= i < upto && triple_of(#[trigger] list[i]) == x
}

/// The triples of the first labels of a list join a set.
proof fn lemma_triples_upto(list: Seq<LabelKey>, acc: Set<Triple>, upto: int, x: Triple)
    requires
        0 <= upto <= list.len(),
    ensures
        fold_upto(list, acc, triple_step(), upto).contains(x) <==> acc.contains(x) || triple_among(list, upto, x),
        acc.finite() ==> fold_upto(list, acc, triple_step(), upto).finite(),
    decreases upto,
{
    if upto > 0 {
        lemma_triples_upto(list, acc, upto - 1, x);
        if triple_among(list, upto - 1, x) {
            let i = choose|i: int| 0 <= i < upto - 1 && triple_of(#[trigger] list[i]) == x;
            assert(0 <= i < upto && triple_of(list[i]) == x);
        }
        if triple_among(list, upto, x) {
            let i = choose|i: int| 0 <= i < upto && triple_of(#[trigger] list[i]) == x;
            if i < upto - 1 {
                assert(triple_among(list, upto - 1, x));
            }
        }
        if triple_of(list[upto - 1]) == x {
            assert(triple_among(list, upto, x));
        }
    }
}

/// Whether a triple is that of a label of one of the first roles of a list.
pub open spec fn triple_under(rem: RoleLabels, roles: Seq<Seq<char>>, upto: int, x: Triple) -> bool {
    exists|q: int, l: LabelKey| 0 <= q < upto && #[trigger] rem[roles[q]].contains(l) && triple_of(l) == x
}

/// The triples of the labels of the first roles of a list.
proof fn lemma_role_triples_upto(rem: RoleLabels, roles: Seq<Seq<char>>, upto: int, x: Triple)
    requires
        0 <= upto <= roles.len(),
        forall|q: int| 0 <= q < roles.len() ==> (#[trigger] rem[roles[q]]).finite(),
    ensures
        fold_upto(roles, Set::<Triple>::empty(), role_triples_step(rem), upto).contains(x) <==> triple_under(rem, roles, upto, x),
        fold_upto(roles, Set::<Triple>::empty(), role_triples_step(rem), upto).finite(),
    decreases upto,
{
    if upto > 0 {
        lemma_role_triples_upto(rem, roles, upto - 1, x);
        let before = fold_upto(roles, Set::<Triple>::empty(), role_triples_step(rem), upto - 1);
        let r = roles[upto - 1];
        assert(rem[roles[upto - 1]].finite());
        let list = sorted::<SwarmLabel>(rem[r]);
        lemma_sorted_of::<SwarmLabel>(rem[r]);
        lemma_triples_upto(list, before, list.len() as int, x);
        if triple_under(rem, roles, upto - 1, x) {
            let (q, l) = choose|q: int, l: LabelKey| 0 <= q < upto - 1 && #[trigger] rem[roles[q]].contains(l) && triple_of(l) == x;
            assert(0 <= q < upto && rem[roles[q]].contains(l) && triple_of(l) == x);
        }
        if triple_among(list, list.len() as int, x) {
            let i = choose|i: int| 0 <= i < list.len() && triple_of(#[trigger] list[i]) == x;
            assert(list.to_set().contains(list[i]));
            assert(rem[roles[upto - 1]].contains(list[i]));
            assert(triple_under(rem, roles, upto, x));
        }
        if triple_under(rem, roles, upto, x) {
            let (q, l) = choose|q: int, l: LabelKey| 0 <= q < upto && #[trigger] rem[roles[q]].contains(l) && triple_of(l) == x;
            if q < upto - 1 {
                assert(triple_under(rem, roles, upto - 1, x));
            } else {
                assert(list.to_set().contains(l));
                let i = choose|i: int| 0 <= i < list.len() && list[i] == l;
                assert(triple_among(list, list.len() as int, x));
            }
        }
    }
}

/// The triples of an index of labels by role are those of its labels.
pub proof fn lemma_triples_of(rem: RoleLabels, x: Triple)
    requires
        rem.dom().finite(),
        forall|r: Seq<char>| (#[trigger] set_at(rem, r)).finite(),
    ensures
        triples_of(rem).contains(x) <==> triple_in(rem, x),
        triples_of(rem).finite(),
{
    let roles = sorted::<Role>(rem.dom());
    lemma_sorted_of::<Role>(rem.dom());
    assert forall|q: int| 0 <= q < roles.len() implies (#[trigger] rem[roles[q]]).finite() by {
        assert(roles.to_set().contains(roles[q]));
        assert(set_at(rem, roles[q]).finite());
    }
    lemma_role_triples_upto(rem, roles, roles.len() as int, x);
    if triple_under(rem, roles, roles.len() as int, x) {
        let (q, l) = choose|q: int, l: LabelKey| 0 <= q < roles.len() && #[trigger] rem[roles[q]].contains(l) && triple_of(l) == x;
        assert(roles.to_set().contains(roles[q]));
        assert(rem.dom().contains(roles[q]) && rem[roles[q]].contains(l));
    }
    if triple_in(rem, x) {
        let (r, l) = choose|r: Seq<char>, l: LabelKey| rem.dom().contains(r) && #[trigger] rem[r].contains(l) && triple_of(l) == x;
        assert(roles.to_set().contains(r));
        let q = choose|q: int| 0 <= q < roles.len() && roles[q] == r;
        assert(rem[roles[q]].contains(l));
    }
}

/// Whether a map from event types names for an event type the command and
/// role of one of the first triples that carry it.
pub open spec fn event_entry(list: Seq<Triple>, upto: int, m: Map<Seq<char>, (Seq<char>, Seq<char>)>, t: Seq<char>) -> bool {
    exists|i: int| 0 <= i < upto && (#[trigger] list[i]).1 == t && m[t] == (list[i].0, list[i].2)
}

/// The map from the event types of the first triples of a list.
proof fn lemma_by_event_upto(list: Seq<Triple>, upto: int)
    requires
        0 <= upto <= list.len(),
    ensures
        fold_upto(list, Map::<Seq<char>, (Seq<char>, Seq<char>)>::empty(), by_event_step(), upto).dom().finite(),
        forall|i: int| 0 <= i < upto ==> fold_upto(list, Map::<Seq<char>, (Seq<char>, Seq<char>)>::empty(), by_event_step(), upto).dom().contains((#[trigger] list[i]).1),
        forall|t: Seq<char>|
            #[trigger] fold_upto(list, Map::<Seq<char>, (Seq<char>, Seq<char>)>::empty(), by_event_step(), upto).dom().contains(t) ==> event_entry(
                list,
                upto,
                fold_upto(list, Map::<Seq<char>, (Seq<char>, Seq<char>)>::empty(), by_event_step(), upto),
                t,
            ),
    decreases upto,
{
    if upto > 0 {
        lemma_by_event_upto(list, upto - 1);
        let before = fold_upto(list, Map::<Seq<char>, (Seq<char>, Seq<char>)>::empty(), by_event_step(), upto - 1);
        let after = fold_upto(list, Map::<Seq<char>, (Seq<char>, Seq<char>)>::empty(), by_event_step(), upto);
        let x = list[upto - 1];
        assert(after == before.insert(x.1, (x.0, x.2)));
        assert forall|t: Seq<char>| #[trigger] after.dom().contains(t) implies event_entry(list, upto, after, t) by {
            if t == x.1 {
                assert(list[upto - 1].1 == t && after[t] == (list[upto - 1].0, list[upto - 1].2));
            } else {
                assert(event_entry(list, upto - 1, before, t));
                let i = choose|i: int| 0 <= i < upto - 1 && (#[trigger] list[i]).1 == t && before[t] == (list[i].0, list[i].2);
                assert(list[i].1 == t && after[t] == (list[i].0, list[i].2));
            }
        }
    }
}

/// Whether a map from commands names for a command the event type and
/// role of one of the first triples that carry it.
pub open spec fn command_entry(list: Seq<Triple>, upto: int, m: Map<Seq<char>, (Seq<char>, Seq<char>)>, c: Seq<char>) -> bool {
    exists|i: int| 0 <= i < upto && (#[trigger] list[i]).0 == c && m[c] == (list[i].1, list[i].2)
}

/// The map from the commands of the first triples of a list.
proof fn lemma_by_command_upto(list: Seq<Triple>, upto: int)
    requires
        0 <= upto <= list.len(),
    ensures
        fold_upto(list, Map::<Seq<char>, (Seq<char>, Seq<char>)>::empty(), by_command_step(), upto).dom().finite(),
        forall|i: int| 0 <= i < upto ==> fold_upto(list, Map::<Seq<char>, (Seq<char>, Seq<char>)>::empty(), by_command_step(), upto).dom().contains((#[trigger] list[i]).0),
        forall|c: Seq<char>|
            #[trigger] fold_upto(list, Map::<Seq<char>, (Seq<char>, Seq<char>)>::empty(), by_command_step(), upto).dom().contains(c) ==> command_entry(
                list,
                upto,
                fold_upto(list, Map::<Seq<char>, (Seq<char>, Seq<char>)>::empty(), by_command_step(), upto),
                c,
            ),
    decreases upto,
{
    if upto > 0 {
        lemma_by_command_upto(list, upto - 1);
        let before = fold_upto(list, Map::<Seq<char>, (Seq<char>, Seq<char>)>::empty(), by_command_step(), upto - 1);
        let after = fold_upto(list, Map::<Seq<char>, (Seq<char>, Seq<char>)>::empty(), by_command_step(), upto);
        let x = list[upto - 1];
        assert(after == before.insert(x.0, (x.1, x.2)));
        assert forall|c: Seq<char>| #[trigger] after.dom().contains(c) implies command_entry(list, upto, after, c) by {
            if c == x.0 {
                assert(list[upto - 1].0 == c && after[c] == (list[upto - 1].1, list[upto - 1].2));
            } else {
                assert(command_entry(list, upto - 1, before, c));
                let i = choose|i: int| 0 <= i < upto - 1 && (#[trigger] list[i]).0 == c && before[c] == (list[i].1, list[i].2);
                assert(list[i].0 == c && after[c] == (list[i].1, list[i].2));
            }
        }
    }
}

/// Without a finding on the first event types, none of them has another
/// command or role in the second map.
proof fn lemma_event_clash_upto(m1: Map<Seq<char>, (Seq<char>, Seq<char>)>, m2: Map<Seq<char>, (Seq<char>, Seq<char>)>, list: Seq<Seq<char>>, upto: int)
    requires
        0 <= upto <= list.len(),
        fold_upto(list, Seq::<ErrorView>::empty(), event_clash_step(m1, m2), upto).len() == 0,
    ensures
        forall|i: int| 0 <= i < upto && m2.dom().contains(#[trigger] list[i]) ==> m1[list[i]] == m2[list[i]],
    decreases upto,
{
    if upto > 0 {
        let before = fold_upto(list, Seq::<ErrorView>::empty(), event_clash_step(m1, m2), upto - 1);
        lemma_event_clash_upto(m1, m2, list, upto - 1);
    }
}

/// Without a finding on the first commands, none of them has another
/// event type or role in the second map.
proof fn lemma_command_clash_upto(m1: Map<Seq<char>, (Seq<char>, Seq<char>)>, m2: Map<Seq<char>, (Seq<char>, Seq<char>)>, list: Seq<Seq<char>>, upto: int)
    requires
        0 <= upto <= list.len(),
        fold_upto(list, Seq::<ErrorView>::empty(), command_clash_step(m1, m2), upto).len() == 0,
    ensures
        forall|i: int| 0 <= i < upto && m2.dom().contains(#[trigger] list[i]) ==> m1[list[i]] == m2[list[i]],
    decreases upto,
{
    if upto > 0 {
        let before = fold_upto(list, Seq::<ErrorView>::empty(), command_clash_step(m1, m2), upto - 1);
        lemma_command_clash_upto(m1, m2, list, upto - 1);
    }
}

/// Whether a label is one of a protocol of a dossier.
pub open spec fn drawn_any(c: ProtoInfoView, l: LabelKey) -> bool {
    exists|i: int| 0 <= i < c.protocols.len() && (#[trigger] c.protocols[i]).labels.contains(l)
}

/// Whether the index of labels by role of a dossier is finite, holds each
/// label of each protocol under its role and nothing else, each with one
/// event type, and gives each command and each event type to one label.
pub open spec fn tidy(c: ProtoInfoView) -> bool {
    &&& c.role_event_map.dom().finite()
    &&& forall|r: Seq<char>| (#[trigger] set_at(c.role_event_map, r)).finite()
    &&& forall|r: Seq<char>, l: LabelKey| #[trigger] set_at(c.role_event_map, r).contains(l) ==> l.2 == r && l.1.len() == 1 && drawn_any(c, l)
    &&& forall|i: int, e: int| 0 <= i < c.protocols.len() && 0 <= e < c.protocols[i].labels.len() ==> holds(c.role_event_map, #[trigger] c.protocols[i].labels[e])
    &&& forall|a: LabelKey, b: LabelKey| #[trigger] holds(c.role_event_map, a) && #[trigger] holds(c.role_event_map, b) && (a.0 == b.0 || a.1[0] == b.1[0]) ==> a == b
}

/// Whether a dossier is without findings on its protocols and their
/// interfaces, and each protocol free of confusion.
pub open spec fn clean(c: ProtoInfoView) -> bool {
    &&& c.interface_errors.len() == 0
    &&& forall|i: int| 0 <= i < c.protocols.len() ==> (#[trigger] c.protocols[i]).errors.len() == 0 && confusion_free_labels(c.protocols[i].labels)
}

/// The dossier of a protocol without findings and free of confusion is
/// tidy.
proof fn lemma_prepared_tidy(proto: (Seq<char>, Seq<(LabelKey, Seq<char>, Seq<char>)>))
    requires
        countable(proto),
        clean(prepared(proto)),
    ensures
        tidy(prepared(proto)),
{
    let c = prepared(proto);
    let p = c.protocols[0];
    assert(p.errors.len() == 0 && confusion_free_labels(p.labels));
    assert(p.errors == proto_errors(proto));
    lemma_prepared_index(proto);
    let labels = proto_labels(proto);
    assert(p.labels == labels);
    let rem = c.role_event_map;
    assert forall|r: Seq<char>, l: LabelKey| #[trigger] set_at(rem, r).contains(l) implies l.2 == r && l.1.len() == 1 && drawn_any(c, l) by {
        assert(labels.contains(l));
        let e = choose|e: int| 0 <= e < labels.len() && labels[e] == l;
        assert(labels[e].1.len() == 1);
        assert(c.protocols[0].labels.contains(l));
    }
    assert forall|a: LabelKey, b: LabelKey| #[trigger] holds(rem, a) && #[trigger] holds(rem, b) && (a.0 == b.0 || a.1[0] == b.1[0]) implies a == b by {
        assert(set_at(rem, a.2).contains(a) && set_at(rem, b.2).contains(b));
        assert(labels.contains(a) && labels.contains(b));
        let i = choose|i: int| 0 <= i < labels.len() && labels[i] == a;
        let j = choose|j: int| 0 <= j < labels.len() && labels[j] == b;
        if i != j {
            assert(labels[i].1[0] != labels[j].1[0] && labels[i].0 != labels[j].0);
        }
    }
}

/// A label that an index holds has its triple among the triples of the
/// index, and a triple of the index is that of a label that it holds.
proof fn lemma_held_triple(c: ProtoInfoView, x: Triple)
    requires
        tidy(c),
    ensures
        triples_of(c.role_event_map).finite(),
        triples_of(c.role_event_map).contains(x) <==> exists|l: LabelKey| #[trigger] holds(c.role_event_map, l) && triple_of(l) == x,
{
    let rem = c.role_event_map;
    lemma_triples_of(rem, x);
    if triple_in(rem, x) {
        let (r, l) = choose|r: Seq<char>, l: LabelKey| rem.dom().contains(r) && #[trigger] rem[r].contains(l) && triple_of(l) == x;
        assert(set_at(rem, r).contains(l));
        assert(holds(rem, l));
    }
    if exists|l: LabelKey| #[trigger] holds(rem, l) && triple_of(l) == x {
        let l = choose|l: LabelKey| #[trigger] holds(rem, l) && triple_of(l) == x;
        assert(set_at(rem, l.2).contains(l));
        assert(rem.dom().contains(l.2) && rem[l.2].contains(l));
    }
}

/// Two labels of two tidy dossiers without findings on their interface
/// that share an event type or a command are the same label.
proof fn lemma_cross(a: ProtoInfoView, b: ProtoInfoView, x: LabelKey, y: LabelKey)
    requires
        tidy(a),
        tidy(b),
        event_clashes(a.role_event_map, b.role_event_map).len() == 0,
        command_clashes(a.role_event_map, b.role_event_map).len() == 0,
        holds(a.role_event_map, x),
        holds(b.role_event_map, y),
        x.0 == y.0 || x.1[0] == y.1[0],
    ensures
        x == y,
{
    let t1 = triples_of(a.role_event_map);
    let t2 = triples_of(b.role_event_map);
    lemma_held_triple(a, triple_of(x));
    lemma_held_triple(b, triple_of(y));
    assert(t1.contains(triple_of(x)));
    assert(t2.contains(triple_of(y)));
    let l1 = sorted::<(Command, EventType, Role)>(t1);
    let l2 = sorted::<(Command, EventType, Role)>(t2);
    lemma_sorted_of::<(Command, EventType, Role)>(t1);
    lemma_sorted_of::<(Command, EventType, Role)>(t2);
    assert(l1.to_set().contains(triple_of(x)));
    assert(l2.to_set().contains(triple_of(y)));
    let i1 = choose|i: int| 0 <= i < l1.len() && l1[i] == triple_of(x);
    let i2 = choose|i: int| 0 <= i < l2.len() && l2[i] == triple_of(y);
    assert(set_at(a.role_event_map, x.2).contains(x));
    assert(set_at(b.role_event_map, y.2).contains(y));
    assert(x.1.len() == 1 && y.1.len() == 1);
    if x.1[0] == y.1[0] {
        let t = x.1[0];
        let m1 = by_event(t1);
        let m2 = by_event(t2);
        lemma_by_event_upto(l1, l1.len() as int);
        lemma_by_event_upto(l2, l2.len() as int);
        assert(m1.dom().contains(l1[i1].1));
        assert(m2.dom().contains(l2[i2].1));
        assert(event_entry(l1, l1.len() as int, m1, t));
        assert(event_entry(l2, l2.len() as int, m2, t));
        let j1 = choose|i: int| 0 <= i < l1.len() && (#[trigger] l1[i]).1 == t && m1[t] == (l1[i].0, l1[i].2);
        let j2 = choose|i: int| 0 <= i < l2.len() && (#[trigger] l2[i]).1 == t && m2[t] == (l2[i].0, l2[i].2);
        assert(l1.to_set().contains(l1[j1]));
        assert(l2.to_set().contains(l2[j2]));
        lemma_held_triple(a, l1[j1]);
        lemma_held_triple(b, l2[j2]);
        let x2 = choose|l: LabelKey| #[trigger] holds(a.role_event_map, l) && triple_of(l) == l1[j1];
        let y2 = choose|l: LabelKey| #[trigger] holds(b.role_event_map, l) && triple_of(l) == l2[j2];
        assert(x2 == x);
        assert(y2 == y);
        let keys = sorted::<EventType>(m1.dom());
        lemma_sorted_of::<EventType>(m1.dom());
        assert(keys.to_set().contains(t));
        let k = choose|k: int| 0 <= k < keys.len() && keys[k] == t;
        lemma_event_clash_upto(m1, m2, keys, keys.len() as int);
        assert(m2.dom().contains(keys[k]));
        assert(m1[t] == m2[t]);
        assert(x.0 == y.0 && x.2 == y.2);
        assert(x.1 =~= y.1);
    } else {
        let c = x.0;
        let m1 = by_command(t1);
        let m2 = by_command(t2);
        lemma_by_command_upto(l1, l1.len() as int);
        lemma_by_command_upto(l2, l2.len() as int);
        assert(m1.dom().contains(l1[i1].0));
        assert(m2.dom().contains(l2[i2].0));
        assert(command_entry(l1, l1.len() as int, m1, c));
        assert(command_entry(l2, l2.len() as int, m2, c));
        let j1 = choose|i: int| 0 <= i < l1.len() && (#[trigger] l1[i]).0 == c && m1[c] == (l1[i].1, l1[i].2);
        let j2 = choose|i: int| 0 <= i < l2.len() && (#[trigger] l2[i]).0 == c && m2[c] == (l2[i].1, l2[i].2);
        assert(l1.to_set().contains(l1[j1]));
        assert(l2.to_set().contains(l2[j2]));
        lemma_held_triple(a, l1[j1]);
        lemma_held_triple(b, l2[j2]);
        let x2 = choose|l: LabelKey| #[trigger] holds(a.role_event_map, l) && triple_of(l) == l1[j1];
        let y2 = choose|l: LabelKey| #[trigger] holds(b.role_event_map, l) && triple_of(l) == l2[j2];
        assert(x2 == x);
        assert(y2 == y);
        let keys = sorted::<Command>(m1.dom());
        lemma_sorted_of::<Command>(m1.dom());
        assert(keys.to_set().contains(c));
        let k = choose|k: int| 0 <= k < keys.len() && keys[k] == c;
        lemma_command_clash_upto(m1, m2, keys, keys.len() as int);
        assert(m2.dom().contains(keys[k]));
        assert(m1[c] == m2[c]);
        assert(x.1[0] == y.1[0] && x.2 == y.2);
        assert(x.1 =~= y.1);
    }
}

/// Two tidy dossiers without findings on their interface are tidy taken
/// together.
proof fn lemma_combine_tidy(a: ProtoInfoView, b: ProtoInfoView)
    requires
        tidy(a),
        tidy(b),
        event_clashes(a.role_event_map, b.role_event_map).len() == 0,
        command_clashes(a.role_event_map, b.role_event_map).len() == 0,
    ensures
        tidy(combine_two(a, b)),
{
    let c = combine_two(a, b);
    let rem = c.role_event_map;
    assert(rem == combined(a.role_event_map, b.role_event_map, Set::<LabelKey>::empty()));
    assert(rem.dom() =~= a.role_event_map.dom().union(b.role_event_map.dom()));
    assert forall|r: Seq<char>| #[trigger] set_at(rem, r) =~= set_at(a.role_event_map, r).union(set_at(b.role_event_map, r)) by {
    }
    assert forall|r: Seq<char>| (#[trigger] set_at(rem, r)).finite() by {
        assert(set_at(a.role_event_map, r).finite() && set_at(b.role_event_map, r).finite());
        assert(set_at(rem, r) =~= set_at(a.role_event_map, r).union(set_at(b.role_event_map, r)));
    }
    assert forall|l: LabelKey| drawn_any(a, l) || drawn_any(b, l) implies drawn_any(c, l) by {
        if drawn_any(a, l) {
            let i = choose|i: int| 0 <= i < a.protocols.len() && (#[trigger] a.protocols[i]).labels.contains(l);
            assert(c.protocols[i] == a.protocols[i]);
        } else {
            let i = choose|i: int| 0 <= i < b.protocols.len() && (#[trigger] b.protocols[i]).labels.contains(l);
            assert(c.protocols[a.protocols.len() + i] == b.protocols[i]);
        }
    }
    assert forall|r: Seq<char>, l: LabelKey| #[trigger] set_at(rem, r).contains(l) implies l.2 == r && l.1.len() == 1 && drawn_any(c, l) by {
        assert(set_at(rem, r) =~= set_at(a.role_event_map, r).union(set_at(b.role_event_map, r)));
        if set_at(a.role_event_map, r).contains(l) {
            assert(drawn_any(a, l));
        } else {
            assert(set_at(b.role_event_map, r).contains(l));
            assert(drawn_any(b, l));
        }
    }
    assert forall|i: int, e: int| 0 <= i < c.protocols.len() && 0 <= e < c.protocols[i].labels.len() implies holds(rem, #[trigger] c.protocols[i].labels[e]) by {
        let l = c.protocols[i].labels[e];
        assert(set_at(rem, l.2) =~= set_at(a.role_event_map, l.2).union(set_at(b.role_event_map, l.2)));
        if i < a.protocols.len() {
            assert(c.protocols[i] == a.protocols[i]);
            assert(holds(a.role_event_map, a.protocols[i].labels[e]));
        } else {
            assert(c.protocols[i] == b.protocols[i - a.protocols.len()]);
            assert(holds(b.role_event_map, b.protocols[i - a.protocols.len()].labels[e]));
        }
    }
    assert forall|x: LabelKey, y: LabelKey| #[trigger] holds(rem, x) && #[trigger] holds(rem, y) && (x.0 == y.0 || x.1[0] == y.1[0]) implies x == y by {
        assert(set_at(rem, x.2) =~= set_at(a.role_event_map, x.2).union(set_at(b.role_event_map, x.2)));
        assert(set_at(rem, y.2) =~= set_at(a.role_event_map, y.2).union(set_at(b.role_event_map, y.2)));
        let xa = holds(a.role_event_map, x);
        let ya = holds(a.role_event_map, y);
        if xa && ya {
        } else if xa {
            assert(holds(b.role_event_map, y));
            lemma_cross(a, b, x, y);
        } else if ya {
            assert(holds(b.role_event_map, x));
            lemma_cross(a, b, y, x);
        } else {
            assert(holds(b.role_event_map, x) && holds(b.role_event_map, y));
        }
    }
}

/// The first protocols of a list taken together are tidy, where they are
/// without findings and free of confusion; and they are the protocols of
/// the list.
proof fn lemma_combined_tidy(protos: Seq<(Seq<char>, Seq<(LabelKey, Seq<char>, Seq<char>)>)>, upto: int)
    requires
        1 <= upto <= protos.len(),
        forall|j: int| 0 <= j < protos.len() ==> countable(#[trigger] protos[j]),
        clean(combine_upto(prepared_all(protos), upto)),
    ensures
        tidy(combine_upto(prepared_all(protos), upto)),
    decreases upto,
{
    let views = prepared_all(protos);
    if upto == 1 {
        assert(views[0] == prepared(protos[0]));
        lemma_prepared_tidy(protos[0]);
    } else {
        let a = combine_upto(views, upto - 1);
        let b = views[upto - 1];
        let c = combine_upto(views, upto);
        assert(c == combine_two(a, b));
        assert(b == prepared(protos[upto - 1]));
        assert(b.protocols.len() == 1);
        assert(c.protocols == a.protocols + b.protocols);
        assert forall|i: int| 0 <= i < a.protocols.len() implies (#[trigger] a.protocols[i]).errors.len() == 0 && confusion_free_labels(a.protocols[i].labels) by {
            assert(c.protocols[i] == a.protocols[i]);
        }
        assert forall|i: int| 0 <= i < b.protocols.len() implies (#[trigger] b.protocols[i]).errors.len() == 0 && confusion_free_labels(b.protocols[i].labels) by {
            assert(c.protocols[a.protocols.len() + i] == b.protocols[i]);
        }
        assert(clean(a));
        assert(clean(b));
        lemma_combined_tidy(protos, upto - 1);
        lemma_prepared_tidy(protos[upto - 1]);
        lemma_combine_tidy(a, b);
    }
}

/// Protocols without findings and free of confusion, taken together: the
/// protocols are those of the list, in its order.
proof fn lemma_combined_protocols(protos: Seq<(Seq<char>, Seq<(LabelKey, Seq<char>, Seq<char>)>)>, upto: int)
    requires
        1 <= upto <= protos.len(),
    ensures
        combine_upto(prepared_all(protos), upto).protocols.len() == upto,
        forall|j: int| 0 <= j < upto ==> #[trigger] combine_upto(prepared_all(protos), upto).protocols[j] == prepared(protos[j]).protocols[0],
    decreases upto,
{
    let views = prepared_all(protos);
    if upto > 1 {
        lemma_combined_protocols(protos, upto - 1);
        let a = combine_upto(views, upto - 1);
        let b = views[upto - 1];
        assert(b == prepared(protos[upto - 1]));
        assert(b.protocols.len() == 1);
        let c = combine_upto(views, upto);
        assert(c.protocols == a.protocols + b.protocols);
        assert forall|j: int| 0 <= j < upto implies #[trigger] c.protocols[j] == prepared(protos[j]).protocols[0] by {
            if j < upto - 1 {
                assert(c.protocols[j] == a.protocols[j]);
            } else {
                assert(c.protocols[j] == b.protocols[0]);
            }
        }
    } else {
        assert(views[0] == prepared(protos[0]));
    }
}

/// Confusion does not arise by composition. Of protocols without findings
/// each command and each event type belongs to one label; each label of
/// their composition is a label of one of them, so that the same holds of
/// the composition; and no state of the composition has two transitions
/// with the same command or the same event type. It is asked that the
/// protocols and their compositions can be counted by the machine.
pub proof fn lemma_swarm_told_apart(protos: Seq<(Seq<char>, Seq<(LabelKey, Seq<char>, Seq<char>)>)>)
    requires
        protos.len() > 0,
        forall|j: int| 0 <= j < protos.len() ==> countable(#[trigger] protos[j]),
        !has_errors(swarm_info(protos)),
        within_limits(swarm_info(protos)),
    ensures
        unambiguous(all_labels(swarm_info(protos).protocols)),
        drawn_from(composition(swarm_info(protos)).labels, swarm_info(protos).protocols),
        unambiguous(composition(swarm_info(protos)).labels.to_set()),
        told_apart_at_states(composition(swarm_info(protos)).edges, composition(swarm_info(protos)).labels),
{
    let views = prepared_all(protos);
    let n = protos.len() as int;
    let c0 = combine_upto(views, n);
    let c1 = combine_all(views);
    let c = swarm_info(protos);
    assert(c1 == with_joins(c0));
    assert(c == confusion_checked(c1));
    lemma_combined_protocols(protos, n);
    lemma_swarm_info_ready(protos);
    assert(c.protocols.len() == n);
    assert forall|i: int| 0 <= i < c0.protocols.len() implies (#[trigger] c0.protocols[i]).errors.len() == 0 && confusion_free_labels(c0.protocols[i].labels) by {
        assert(c.protocols[i] == with_errors(c1.protocols[i], confusion_free_errors(c1.protocols, i)));
        assert(c.protocols[i].errors.len() == 0);
        assert(c0.protocols[i].errors.len() == 0);
        assert(confusion_free_errors(c1.protocols, i).len() == 0);
        assert(ready_one(c.protocols[i]));
        assert(c1.protocols[i].initial is Some);
        assert(confusion_errors(c0.protocols[i].labels).len() == 0);
        assert(c0.protocols[i] == prepared(protos[i]).protocols[0]);
        assert(c0.protocols[i].labels == proto_labels(protos[i]));
        lemma_confusion_found(c0.protocols[i].labels);
    }
    assert(c0.interface_errors == c.interface_errors);
    assert(clean(c0));
    lemma_combined_tidy(protos, n);
    let rem = c0.role_event_map;
    assert(c.role_event_map == rem);
    assert forall|i: int| 0 <= i < c.protocols.len() implies (#[trigger] c.protocols[i]).labels == c0.protocols[i].labels && c.protocols[i].edges == c0.protocols[i].edges by {
        assert(c.protocols[i] == with_errors(c1.protocols[i], confusion_free_errors(c1.protocols, i)));
    }
    assert(indexed(c)) by {
        assert forall|i: int, e: int| 0 <= i < c.protocols.len() && 0 <= e < c.protocols[i].labels.len() implies set_at(c.role_event_map, c.protocols[i].labels[e].2).contains(#[trigger] c.protocols[i].labels[e]) by {
            assert(c.protocols[i].labels == c0.protocols[i].labels);
            assert(holds(rem, c0.protocols[i].labels[e]));
        }
    }
    assert(each_confusion_free(c)) by {
        assert forall|i: int| 0 <= i < c.protocols.len() implies confusion_free_labels((#[trigger] c.protocols[i]).labels) by {
            assert(c.protocols[i].labels == c0.protocols[i].labels);
        }
    }
    assert forall|a: LabelKey, b: LabelKey| all_labels(c.protocols).contains(a) && all_labels(c.protocols).contains(b) && (a.0 == b.0 || a.1[0] == b.1[0]) implies a == b by {
        let i = choose|i: int| 0 <= i < c.protocols.len() && (#[trigger] c.protocols[i]).labels.contains(a);
        let j = choose|j: int| 0 <= j < c.protocols.len() && (#[trigger] c.protocols[j]).labels.contains(b);
        let ea = choose|e: int| 0 <= e < c.protocols[i].labels.len() && c.protocols[i].labels[e] == a;
        let eb = choose|e: int| 0 <= e < c.protocols[j].labels.len() && c.protocols[j].labels[e] == b;
        assert(c.protocols[i].labels == c0.protocols[i].labels);
        assert(c.protocols[j].labels == c0.protocols[j].labels);
        assert(holds(rem, c0.protocols[i].labels[ea]));
        assert(holds(rem, c0.protocols[j].labels[eb]));
    }
    assert forall|i: int| 0 <= i < c.protocols.len() implies (#[trigger] c.protocols[i]).edges.len() == c.protocols[i].labels.len() by {
        assert(c0.protocols[i] == prepared(protos[i]).protocols[0]);
    }
    lemma_composition_told_apart(c);
}

} // verus!
