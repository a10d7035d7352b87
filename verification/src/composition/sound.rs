//! Why a subscription that the rules of well-formedness have settled
//! passes the check of well-formedness.
use crate::composition::composition_swarm::{
    active_not_conc, add_sub, and_after, branch_error_step, branching_here, edge_events, event_at, exact_edge_step, exact_later_step, exact_node_step, exact_role_step, exact_round, group_step,
    all_observe, involved_roles, involved_step, join_error_step, join_set, later_step, looping_role_step, looping_step, only, pairs_rows, share_one, wf_edge_errors, wf_edge_step, wf_node_step,
    with_looping, with_protocols, ErrorView, LabelKey, SubState, Subs, SuccMap,
};
use crate::composition::follows::{lemma_followers_transitive, transitive, Ground};
use crate::composition::composition_swarm::{check_report, composed_info, composition, exact_round_of, exact_settled, exact_settling, exact_sub, has_errors, report_empty, report_of, sub_fuel, swarm_info, wf_checked, wf_errors};
use crate::composition::rounds::{lemma_exact_settles, settled};
use crate::growth::until_stable;
use crate::names::EventType;
use crate::ordmap::map_add;
use crate::composition::composition_types::ProtoInfoView;
use crate::composition::rounds::{
    lemma_exact_edge, lemma_exact_node, label_events, label_roles, lemma_active_labels, lemma_branching_here, lemma_involved, lemma_join_set, lemma_label_sets, lemma_pairs_rows, lemma_roles_add, lemma_within_finite,
};
use crate::growth::{add_at, adds, grown, lemma_add_at, lemma_adds_chain, lemma_fold_adds, lemma_fold_still, within};
use crate::names::Role;
use crate::ordmap::set_at;
use crate::ordset::{lemma_sorted_of, sorted};
use crate::seqs::{fold, fold_upto};
use crate::topology::{dfs_order, edges_from, edges_into, lemma_edge_ids_at};
use vstd::prelude::*;

verus! {

/// Whether a subscription has what the rules ask of a transition: its role
/// observes its event type, and so does each role that can act directly
/// after it; the roles involved after it observe the event types that
/// branch at its source if there is more than one, and, if its event type
/// is interfacing, the event types of the join.
pub open spec fn edge_met(c: ProtoInfoView, edges: Seq<(usize, usize)>, labels: Seq<LabelKey>, x: Subs, node: usize, e: usize) -> bool {
    let et = event_at(labels, e);
    let later = active_not_conc(edges, labels, edges[e as int].1, et, c.concurrent_events);
    let involved = involved_roles(et, c.succeeding_events, x);
    let here = branching_here(c.branching_events, edges, labels, node, et);
    let joined = join_set(c.concurrent_events, edges, labels, node, et);
    &&& set_at(x, labels[e as int].2).contains(et)
    &&& forall|i: int| 0 <= i < later.len() ==> set_at(x, (#[trigger] later[i]).2).contains(et)
    &&& here.len() > 1 ==> forall|r: Seq<char>| #[trigger] involved.contains(r) ==> here.subset_of(set_at(x, r))
    &&& c.interfacing_events.contains(et) ==> forall|r: Seq<char>| #[trigger] involved.contains(r) ==> joined.subset_of(set_at(x, r))
}

/// Roles to whom event types are given without anything being new
/// observed them before.
proof fn lemma_roles_still(roles: Set<Seq<char>>, x: Subs, events: Set<Seq<char>>, keys: Set<Seq<char>>, items: Set<Seq<char>>)
    requires
        x.dom().finite(),
        keys.finite(),
        roles.subset_of(x.dom()),
        events.subset_of(items),
        fold(sorted::<Role>(roles), (x, true), exact_role_step(events)) == (x, true),
    ensures
        forall|r: Seq<char>| #[trigger] roles.contains(r) ==> events.subset_of(set_at(x, r)),
{
    vstd::set_lib::lemma_len_subset(roles, x.dom());
    lemma_sorted_of::<Role>(roles);
    let list = sorted::<Role>(roles);
    let step = exact_role_step(events);
    assert forall|acc: SubState, i: int| 0 <= i < list.len() implies adds(acc, #[trigger] step(acc, list[i]), x, keys, items) by {
        assert(list.to_set().contains(list[i]));
        if within(acc.0, x, keys, items) {
            assert(x.dom().contains(list[i]));
            assert(acc.0.dom().contains(list[i]));
        }
        lemma_add_at(acc, list[i], events, x, keys, items);
        assert(step(acc, list[i]) == add_at(acc, list[i], events));
    }
    assert forall|r: Seq<char>| #[trigger] roles.contains(r) implies events.subset_of(set_at(x, r)) by {
        assert(list.to_set().contains(r));
        let i = choose|i: int| 0 <= i < list.len() && list[i] == r;
        lemma_fold_still(list, x, step, keys, items, i);
        lemma_fold_still(list, x, step, keys, items, i + 1);
        assert(fold_upto(list, (x, true), step, i + 1) == step(fold_upto(list, (x, true), step, i), list[i]));
        assert(add_sub((x, true), r, events) == (x, true));
    }
}

/// A subscription that the rules for a transition leave as it is has what
/// they ask of the transition.
pub proof fn lemma_edge_met(c: ProtoInfoView, edges: Seq<(usize, usize)>, labels: Seq<LabelKey>, node: usize, x: Subs, e: usize)
    requires
        x.dom().finite(),
        edges.len() == labels.len(),
        labels.len() <= usize::MAX,
        e < labels.len(),
        exact_edge_step(c, edges, labels, node)((x, true), e) == (x, true),
    ensures
        edge_met(c, edges, labels, x, node, e),
{
    let keys = label_roles(labels);
    let items = label_events(labels);
    lemma_label_sets(labels);
    let st = (x, true);
    assert(grown(x, x));
    assert(within(x, x, keys, items));
    let et = event_at(labels, e);
    assert(event_at(labels, (e as int) as usize) == et);
    assert(items.contains(et));
    assert(labels[e as int].2 == labels[e as int].2);
    assert(keys.contains(labels[e as int].2));
    let s1 = add_sub(st, labels[e as int].2, only(et));
    lemma_add_at(st, labels[e as int].2, only(et), x, keys, items);
    assert(s1 == add_at(st, labels[e as int].2, only(et)));
    let target = edges[e as int].1;
    let ids = edges_from(edges, target);
    lemma_edge_ids_at(edges, target, true, edges.len() as int);
    let later = active_not_conc(edges, labels, target, et, c.concurrent_events);
    lemma_active_labels(ids, labels, et, c.concurrent_events, ids.len() as int);
    let lstep = exact_later_step(et);
    assert forall|acc: SubState, i: int| 0 <= i < later.len() implies adds(acc, #[trigger] lstep(acc, later[i]), x, keys, items) by {
        assert(keys.contains(later[i].2));
        lemma_add_at(acc, later[i].2, only(et), x, keys, items);
        assert(lstep(acc, later[i]) == add_at(acc, later[i].2, only(et)));
    }
    lemma_fold_adds(later, s1, lstep, x, keys, items, later.len() as int);
    let s2 = fold(later, s1, lstep);
    lemma_adds_chain(st, s1, s2, x, keys, items);
    lemma_within_finite(s2.0, x, keys, items);
    let involved2 = involved_roles(et, c.succeeding_events, s2.0);
    lemma_involved(et, c.succeeding_events, s2.0);
    let out = edges_from(edges, node);
    lemma_edge_ids_at(edges, node, true, edges.len() as int);
    let here = branching_here(c.branching_events, edges, labels, node, et);
    lemma_branching_here(out, labels, fold(c.branching_events, Set::<Seq<char>>::empty(), group_step(et)), out.len() as int);
    let s3 = if here.len() > 1 {
        fold(sorted::<Role>(involved2), s2, exact_role_step(here))
    } else {
        s2
    };
    if here.len() > 1 {
        lemma_roles_add(involved2, s2, here, x, keys, items);
    } else {
        assert(grown(s2.0, s2.0));
    }
    lemma_adds_chain(st, s2, s3, x, keys, items);
    let into = edges_into(edges, node);
    lemma_edge_ids_at(edges, node, false, edges.len() as int);
    let evs = edge_events(labels, into);
    let pairs = pairs_rows(evs, into.len() as int);
    lemma_pairs_rows(evs, evs.len() as int);
    assert forall|k: int| 0 <= k < pairs.len() implies (#[trigger] pairs[k]).to_set().subset_of(items) by {
        assert(pairs[k].to_set().subset_of(evs.to_set()));
        assert forall|y: Seq<char>| evs.to_set().contains(y) implies items.contains(y) by {
            let i = choose|i: int| 0 <= i < evs.len() && evs[i] == y;
            assert(event_at(labels, (into[i] as int) as usize) == y);
        }
    }
    lemma_join_set(pairs, c.concurrent_events, et, items, pairs.len() as int);
    let joined = join_set(c.concurrent_events, edges, labels, node, et);
    let s4 = if c.interfacing_events.contains(et) {
        fold(sorted::<Role>(involved2), s3, exact_role_step(joined))
    } else {
        s3
    };
    if c.interfacing_events.contains(et) {
        lemma_roles_add(involved2, s3, joined, x, keys, items);
    } else {
        assert(grown(s3.0, s3.0));
    }
    assert(s4 == (x, true));
    // what came last left everything as it was, and so did what came before
    assert(s3.0 =~= x && s3.1);
    assert(s2.0 =~= x && s2.1);
    assert(s1.0 =~= x && s1.1);
    assert(s1 == st && s2 == st && s3 == st);
    assert(set_at(x, labels[e as int].2).contains(et)) by {
        assert(only(et).contains(et));
    }
    assert forall|i: int| 0 <= i < later.len() implies set_at(x, (#[trigger] later[i]).2).contains(et) by {
        lemma_fold_still(later, x, lstep, keys, items, i);
        lemma_fold_still(later, x, lstep, keys, items, i + 1);
        assert(fold_upto(later, st, lstep, i + 1) == lstep(fold_upto(later, st, lstep, i), later[i]));
        assert(add_sub(st, later[i].2, only(et)) == st);
        assert(only(et).contains(et));
    }
    if here.len() > 1 {
        lemma_roles_still(involved2, x, here, keys, items);
    }
    if c.interfacing_events.contains(et) {
        lemma_roles_still(involved2, x, joined, keys, items);
    }
}

/// A subscription that a round of the rules leaves as it is has what the
/// rules ask of each transition that the round takes in.
pub proof fn lemma_round_met(c: ProtoInfoView, nodes: nat, edges: Seq<(usize, usize)>, labels: Seq<LabelKey>, initial: usize, x: Subs)
    requires
        x.dom().finite(),
        edges.len() == labels.len(),
        labels.len() <= usize::MAX,
        initial < nodes,
        exact_round(c, nodes, edges, labels, initial, x) == (x, true),
    ensures
        forall|w: int, k: int|
            0 <= w < dfs_order(nodes, edges, initial).len() && 0 <= k < edges_from(edges, dfs_order(nodes, edges, initial)[w]).len() ==> edge_met(
                with_protocols(c, Seq::empty()),
                edges,
                labels,
                x,
                dfs_order(nodes, edges, initial)[w],
                #[trigger] edges_from(edges, dfs_order(nodes, edges, initial)[w])[k],
            ),
{
    let keys = label_roles(labels);
    let items = label_events(labels);
    lemma_label_sets(labels);
    let c0 = with_protocols(c, Seq::empty());
    let walk = dfs_order(nodes, edges, initial);
    let nstep = exact_node_step(c0, edges, labels);
    assert forall|acc: SubState, i: int| 0 <= i < walk.len() implies adds(acc, #[trigger] nstep(acc, walk[i]), x, keys, items) by {
        lemma_exact_node(c0, edges, labels, acc, walk[i], x);
    }
    assert forall|w: int, k: int| 0 <= w < walk.len() && 0 <= k < edges_from(edges, walk[w]).len() implies edge_met(c0, edges, labels, x, walk[w], #[trigger] edges_from(edges, walk[w])[k]) by {
        lemma_fold_still(walk, x, nstep, keys, items, w);
        lemma_fold_still(walk, x, nstep, keys, items, w + 1);
        assert(fold_upto(walk, (x, true), nstep, w + 1) == nstep(fold_upto(walk, (x, true), nstep, w), walk[w]));
        let ids = edges_from(edges, walk[w]);
        lemma_edge_ids_at(edges, walk[w], true, edges.len() as int);
        let estep = exact_edge_step(c0, edges, labels, walk[w]);
        assert(fold(ids, (x, true), estep) == (x, true));
        assert forall|acc: SubState, i: int| 0 <= i < ids.len() implies adds(acc, #[trigger] estep(acc, ids[i]), x, keys, items) by {
            lemma_exact_edge(c0, edges, labels, walk[w], acc, ids[i], x);
        }
        lemma_fold_still(ids, x, estep, keys, items, k);
        lemma_fold_still(ids, x, estep, keys, items, k + 1);
        assert(fold_upto(ids, (x, true), estep, k + 1) == estep(fold_upto(ids, (x, true), estep, k), ids[k]));
        lemma_edge_met(c0, edges, labels, walk[w], x, ids[k]);
    }
}

/// No role that observes the event type is a finding.
proof fn lemma_later_clean(later: Seq<LabelKey>, y: Subs, et: Seq<char>, e: usize, upto: int)
    requires
        0 <= upto <= later.len(),
        forall|i: int| 0 <= i < later.len() ==> set_at(y, (#[trigger] later[i]).2).contains(et),
    ensures
        fold_upto(later, Seq::<ErrorView>::empty(), later_step(y, et, e), upto) == Seq::<ErrorView>::empty(),
    decreases upto,
{
    if upto > 0 {
        lemma_later_clean(later, y, et, e, upto - 1);
        assert(set_at(y, later[upto - 1].2).contains(et));
    }
}

/// No role that observes the event types that branch is a finding.
proof fn lemma_branch_clean(list: Seq<Seq<char>>, y: Subs, here: Set<Seq<char>>, e: usize, node: usize, upto: int)
    requires
        0 <= upto <= list.len(),
        forall|i: int| 0 <= i < list.len() ==> here.subset_of(set_at(y, #[trigger] list[i])),
    ensures
        fold_upto(list, Seq::<ErrorView>::empty(), branch_error_step(y, here, e, node), upto) == Seq::<ErrorView>::empty(),
    decreases upto,
{
    if upto > 0 {
        lemma_branch_clean(list, y, here, e, node, upto - 1);
        assert(here.subset_of(set_at(y, list[upto - 1])));
    }
}

/// No role that observes the event types of the join is a finding.
proof fn lemma_join_clean(list: Seq<Seq<char>>, y: Subs, needed: Set<Seq<char>>, e: usize, upto: int)
    requires
        0 <= upto <= list.len(),
        forall|i: int| 0 <= i < list.len() ==> needed.subset_of(set_at(y, #[trigger] list[i])),
    ensures
        fold_upto(list, Seq::<ErrorView>::empty(), join_error_step(y, needed, e), upto) == Seq::<ErrorView>::empty(),
    decreases upto,
{
    if upto > 0 {
        lemma_join_clean(list, y, needed, e, upto - 1);
        assert(needed.subset_of(set_at(y, list[upto - 1])));
    }
}

/// Whether a subscription holds what another holds.
pub open spec fn above(y: Subs, x: Subs) -> bool {
    forall|r: Seq<char>| #[trigger] set_at(x, r).subset_of(set_at(y, r))
}

/// A transition has no finding against a subscription above one that has
/// what the rules ask of the transition, if the same roles are involved
/// after it and, where its event type lies on a loop without an end, share
/// an event type of the loop.
pub proof fn lemma_edge_clean(c: ProtoInfoView, edges: Seq<(usize, usize)>, labels: Seq<LabelKey>, x: Subs, y: Subs, node: usize, e: usize)
    requires
        edge_met(c, edges, labels, x, node, e),
        above(y, x),
        involved_roles(event_at(labels, e), c.succeeding_events, y) == involved_roles(event_at(labels, e), c.succeeding_events, x),
        involved_roles(event_at(labels, e), c.succeeding_events, y).finite(),
        c.infinitely_looping_events.contains(event_at(labels, e)) ==> share_one(and_after(c.succeeding_events, event_at(labels, e)), involved_roles(event_at(labels, e), c.succeeding_events, y), y),
    ensures
        wf_edge_errors(c, edges, labels, y, node, e) == Seq::<ErrorView>::empty(),
{
    let et = event_at(labels, e);
    let role = labels[e as int].2;
    let involved = involved_roles(et, c.succeeding_events, y);
    let here = branching_here(c.branching_events, edges, labels, node, et);
    let needed = join_set(c.concurrent_events, edges, labels, node, et);
    let later = active_not_conc(edges, labels, edges[e as int].1, et, c.concurrent_events);
    let list = sorted::<Role>(involved);
    lemma_sorted_of::<Role>(involved);
    assert(set_at(x, role).subset_of(set_at(y, role)));
    assert forall|i: int| 0 <= i < later.len() implies set_at(y, (#[trigger] later[i]).2).contains(et) by {
        assert(set_at(x, later[i].2).subset_of(set_at(y, later[i].2)));
    }
    lemma_later_clean(later, y, et, e, later.len() as int);
    if here.len() > 1 {
        assert forall|i: int| 0 <= i < list.len() implies here.subset_of(set_at(y, #[trigger] list[i])) by {
            assert(list.to_set().contains(list[i]));
            assert(involved.contains(list[i]));
            assert(set_at(x, list[i]).subset_of(set_at(y, list[i])));
        }
        lemma_branch_clean(list, y, here, e, node, list.len() as int);
    }
    if c.interfacing_events.contains(et) {
        assert forall|i: int| 0 <= i < list.len() implies needed.subset_of(set_at(y, #[trigger] list[i])) by {
            assert(list.to_set().contains(list[i]));
            assert(involved.contains(list[i]));
            assert(set_at(x, list[i]).subset_of(set_at(y, list[i])));
        }
        lemma_join_clean(list, y, needed, e, list.len() as int);
    }
    assert(wf_edge_errors(c, edges, labels, y, node, e) =~= Seq::<ErrorView>::empty());
}

/// The transitions that leave a node add no finding where each is clean.
proof fn lemma_node_clean(c: ProtoInfoView, edges: Seq<(usize, usize)>, labels: Seq<LabelKey>, y: Subs, node: usize, upto: int)
    requires
        0 <= upto <= edges_from(edges, node).len(),
        forall|k: int| 0 <= k < edges_from(edges, node).len() ==> wf_edge_errors(c, edges, labels, y, node, #[trigger] edges_from(edges, node)[k]) == Seq::<ErrorView>::empty(),
    ensures
        fold_upto(edges_from(edges, node), Seq::<ErrorView>::empty(), wf_edge_step(c, edges, labels, y, node), upto) == Seq::<ErrorView>::empty(),
    decreases upto,
{
    if upto > 0 {
        lemma_node_clean(c, edges, labels, y, node, upto - 1);
        let ids = edges_from(edges, node);
        assert(wf_edge_errors(c, edges, labels, y, node, ids[upto - 1]) == Seq::<ErrorView>::empty());
        assert(Seq::<ErrorView>::empty() + Seq::<ErrorView>::empty() =~= Seq::<ErrorView>::empty());
    }
}

/// The nodes of a walk add no finding where each transition that leaves
/// one of them is clean.
pub proof fn lemma_walk_clean(c: ProtoInfoView, edges: Seq<(usize, usize)>, labels: Seq<LabelKey>, y: Subs, walk: Seq<usize>, upto: int)
    requires
        0 <= upto <= walk.len(),
        forall|w: int, k: int| 0 <= w < walk.len() && 0 <= k < edges_from(edges, walk[w]).len() ==> wf_edge_errors(c, edges, labels, y, walk[w], #[trigger] edges_from(edges, walk[w])[k]) == Seq::<ErrorView>::empty(),
    ensures
        fold_upto(walk, Seq::<ErrorView>::empty(), wf_node_step(c, edges, labels, y), upto) == Seq::<ErrorView>::empty(),
    decreases upto,
{
    if upto > 0 {
        lemma_walk_clean(c, edges, labels, y, walk, upto - 1);
        let node = walk[upto - 1];
        assert forall|k: int| 0 <= k < edges_from(edges, node).len() implies wf_edge_errors(c, edges, labels, y, node, #[trigger] edges_from(edges, node)[k]) == Seq::<ErrorView>::empty() by {
            assert(wf_edge_errors(c, edges, labels, y, walk[upto - 1], edges_from(edges, walk[upto - 1])[k]) == Seq::<ErrorView>::empty());
        }
        lemma_node_clean(c, edges, labels, y, node, edges_from(edges, node).len() as int);
    }
}

/// Whether a role observes an event type or one that follows it.
pub open spec fn observes_after(succ: SuccMap, s: Subs, et: Seq<char>, r: Seq<char>) -> bool {
    s.dom().contains(r) && exists|w: Seq<char>| #[trigger] s[r].contains(w) && and_after(succ, et).contains(w)
}

/// The roles found to be involved among the first of a list are those
/// that observe one of the event types.
proof fn lemma_involved_upto(list: Seq<Seq<char>>, s: Subs, events: Set<Seq<char>>, upto: int, r: Seq<char>)
    requires
        0 <= upto <= list.len(),
    ensures
        fold_upto(list, Set::<Seq<char>>::empty(), involved_step(s, events), upto).contains(r) <==> (exists|i: int| 0 <= i < upto && #[trigger] list[i] == r) && (exists|w: Seq<char>| #[trigger] s[r].contains(w) && events.contains(w)),
    decreases upto,
{
    if upto > 0 {
        lemma_involved_upto(list, s, events, upto - 1, r);
        let before = fold_upto(list, Set::<Seq<char>>::empty(), involved_step(s, events), upto - 1);
        let after = fold_upto(list, Set::<Seq<char>>::empty(), involved_step(s, events), upto);
        let y = list[upto - 1];
        if exists|i: int| 0 <= i < upto - 1 && #[trigger] list[i] == r {
            let i = choose|i: int| 0 <= i < upto - 1 && #[trigger] list[i] == r;
            assert(0 <= i < upto && list[i] == r);
        }
        if exists|i: int| 0 <= i < upto && #[trigger] list[i] == r {
            let i = choose|i: int| 0 <= i < upto && #[trigger] list[i] == r;
            if i < upto - 1 {
                assert(0 <= i < upto - 1 && list[i] == r);
            }
        }
        if y == r {
            assert(0 <= upto - 1 < upto && list[upto - 1] == r);
        }
    }
}

/// The roles involved after an event type are the roles that observe it
/// or an event type that follows it.
pub proof fn lemma_involved_iff(et: Seq<char>, succ: SuccMap, s: Subs, r: Seq<char>)
    requires
        s.dom().finite(),
    ensures
        involved_roles(et, succ, s).contains(r) <==> observes_after(succ, s, et, r),
{
    let list = sorted::<Role>(s.dom());
    lemma_sorted_of::<Role>(s.dom());
    lemma_involved_upto(list, s, and_after(succ, et), list.len() as int, r);
    if s.dom().contains(r) {
        assert(list.to_set().contains(r));
        let i = choose|i: int| 0 <= i < list.len() && list[i] == r;
        assert(0 <= i < list.len() && list[i] == r);
    }
    if exists|i: int| 0 <= i < list.len() && #[trigger] list[i] == r {
        let i = choose|i: int| 0 <= i < list.len() && #[trigger] list[i] == r;
        assert(list.to_set().contains(list[i]));
    }
}

/// Roles of a subscription are given an event type: each of them observes
/// it besides what it observed, and nothing else is new.
pub proof fn lemma_given(list: Seq<Seq<char>>, s: Subs, t: Seq<char>, upto: int)
    requires
        0 <= upto <= list.len(),
        forall|i: int| 0 <= i < list.len() ==> s.dom().contains(#[trigger] list[i]),
    ensures
        fold_upto(list, s, looping_role_step(t), upto).dom() == s.dom(),
        forall|r: Seq<char>|
            s.dom().contains(r) ==> #[trigger] fold_upto(list, s, looping_role_step(t), upto)[r] == if exists|i: int| 0 <= i < upto && #[trigger] list[i] == r {
                s[r].insert(t)
            } else {
                s[r]
            },
    decreases upto,
{
    if upto > 0 {
        lemma_given(list, s, t, upto - 1);
        let before = fold_upto(list, s, looping_role_step(t), upto - 1);
        let after = fold_upto(list, s, looping_role_step(t), upto);
        let y = list[upto - 1];
        assert(after == map_add(before, y, only(t)));
        assert(after.dom() =~= s.dom());
        assert forall|r: Seq<char>| s.dom().contains(r) implies #[trigger] after[r] == if exists|i: int| 0 <= i < upto && #[trigger] list[i] == r {
            s[r].insert(t)
        } else {
            s[r]
        } by {
            if exists|i: int| 0 <= i < upto - 1 && #[trigger] list[i] == r {
                let i = choose|i: int| 0 <= i < upto - 1 && #[trigger] list[i] == r;
                assert(0 <= i < upto && list[i] == r);
            }
            if exists|i: int| 0 <= i < upto && #[trigger] list[i] == r {
                let i = choose|i: int| 0 <= i < upto && #[trigger] list[i] == r;
                if i < upto - 1 {
                    assert(0 <= i < upto - 1 && list[i] == r);
                }
            }
            if y == r {
                assert(0 <= upto - 1 < upto && list[upto - 1] == r);
                assert(after[r] =~= before[r].union(only(t)));
                assert(before[r].union(only(t)) =~= s[r].insert(t));
            } else {
                assert(after[r] == before[r]);
            }
        }
    }
}

/// What holds of a subscription while the roles involved in loops are
/// made to share an event type: it holds what the subscription before held,
/// for the same roles; the same roles are involved after each event type;
/// and the roles involved after each event type that has been taken in
/// share an event type.
pub open spec fn sharing(succ: SuccMap, x: Subs, s: Subs, done: Seq<Seq<char>>) -> bool {
    &&& s.dom() == x.dom()
    &&& forall|r: Seq<char>| #[trigger] x.dom().contains(r) ==> x[r].subset_of(s[r])
    &&& forall|t: Seq<char>, r: Seq<char>| #[trigger] observes_after(succ, s, t, r) ==> observes_after(succ, x, t, r)
    &&& forall|j: int| 0 <= j < done.len() ==> share_one(and_after(succ, #[trigger] done[j]), involved_roles(done[j], succ, x), s)
}

/// An event type on a loop is taken in: the subscription goes on sharing.
proof fn lemma_sharing_step(succ: SuccMap, x: Subs, s: Subs, done: Seq<Seq<char>>, t: Seq<char>)
    requires
        x.dom().finite(),
        transitive(succ),
        sharing(succ, x, s, done),
    ensures
        sharing(succ, x, looping_step(succ)(s, t), done.push(t)),
{
    let after = looping_step(succ)(s, t);
    let involved = involved_roles(t, succ, s);
    let involved_x = involved_roles(t, succ, x);
    assert(involved =~= involved_x) by {
        assert forall|r: Seq<char>| involved.contains(r) <==> involved_x.contains(r) by {
            lemma_involved_iff(t, succ, s, r);
            lemma_involved_iff(t, succ, x, r);
            if observes_after(succ, x, t, r) {
                let w = choose|w: Seq<char>| #[trigger] x[r].contains(w) && and_after(succ, t).contains(w);
                assert(x[r].subset_of(s[r]));
                assert(s[r].contains(w));
            }
        }
    }
    let now = done.push(t);
    if share_one(and_after(succ, t), involved, s) {
        assert forall|j: int| 0 <= j < now.len() implies share_one(and_after(succ, #[trigger] now[j]), involved_roles(now[j], succ, x), after) by {
            if j < done.len() {
                assert(now[j] == done[j]);
            }
        }
    } else {
        crate::composition::rounds::lemma_involved(t, succ, s);
        lemma_sorted_of::<Role>(involved);
        let list = sorted::<Role>(involved);
        assert forall|i: int| 0 <= i < list.len() implies s.dom().contains(#[trigger] list[i]) by {
            assert(list.to_set().contains(list[i]));
        }
        lemma_given(list, s, t, list.len() as int);
        assert forall|r: Seq<char>| s.dom().contains(r) implies #[trigger] after[r] == if involved.contains(r) {
            s[r].insert(t)
        } else {
            s[r]
        } by {
            if involved.contains(r) {
                assert(list.to_set().contains(r));
                let i = choose|i: int| 0 <= i < list.len() && list[i] == r;
                assert(0 <= i < list.len() && list[i] == r);
            }
            if exists|i: int| 0 <= i < list.len() && #[trigger] list[i] == r {
                let i = choose|i: int| 0 <= i < list.len() && #[trigger] list[i] == r;
                assert(list.to_set().contains(list[i]));
            }
        }
        assert forall|r: Seq<char>| #[trigger] x.dom().contains(r) implies x[r].subset_of(after[r]) by {
            assert(x[r].subset_of(s[r]));
        }
        assert forall|u: Seq<char>, r: Seq<char>| #[trigger] observes_after(succ, after, u, r) implies observes_after(succ, x, u, r) by {
            let w = choose|w: Seq<char>| #[trigger] after[r].contains(w) && and_after(succ, u).contains(w);
            if s[r].contains(w) {
                assert(observes_after(succ, s, u, r));
            } else {
                assert(w == t && involved.contains(r));
                lemma_involved_iff(t, succ, x, r);
                assert(observes_after(succ, x, t, r));
                let v = choose|v: Seq<char>| #[trigger] x[r].contains(v) && and_after(succ, t).contains(v);
                // the event type follows `u` or is `u`, and so does what follows it
                if t != u {
                    assert(set_at(succ, u).contains(t));
                    assert(set_at(succ, t).subset_of(set_at(succ, u)));
                }
                assert(and_after(succ, u).contains(v));
            }
        }
        assert forall|j: int| 0 <= j < now.len() implies share_one(and_after(succ, #[trigger] now[j]), involved_roles(now[j], succ, x), after) by {
            if j < done.len() {
                assert(now[j] == done[j]);
                let w = choose|w: Seq<char>| and_after(succ, done[j]).contains(w) && all_observe(involved_roles(done[j], succ, x), s, w);
                assert forall|r: Seq<char>| involved_roles(done[j], succ, x).contains(r) implies #[trigger] set_at(after, r).contains(w) by {
                    lemma_involved_iff(done[j], succ, x, r);
                    assert(set_at(s, r).contains(w));
                }
                assert(and_after(succ, done[j]).contains(w) && all_observe(involved_roles(done[j], succ, x), after, w));
            } else {
                assert forall|r: Seq<char>| involved_x.contains(r) implies #[trigger] set_at(after, r).contains(t) by {
                    lemma_involved_iff(t, succ, x, r);
                    assert(s.dom().contains(r));
                    assert(involved.contains(r));
                    assert(after[r] == s[r].insert(t));
                }
                assert(and_after(succ, t).contains(t) && all_observe(involved_x, after, t));
            }
        }
    }
}

/// The first event types on loops are taken in: the subscription goes on
/// sharing.
pub proof fn lemma_sharing(succ: SuccMap, x: Subs, loops: Seq<Seq<char>>, upto: int)
    requires
        x.dom().finite(),
        transitive(succ),
        0 <= upto <= loops.len(),
    ensures
        sharing(succ, x, fold_upto(loops, x, looping_step(succ), upto), loops.take(upto)),
    decreases upto,
{
    if upto > 0 {
        lemma_sharing(succ, x, loops, upto - 1);
        lemma_sharing_step(succ, x, fold_upto(loops, x, looping_step(succ), upto - 1), loops.take(upto - 1), loops[upto - 1]);
        assert(loops.take(upto - 1).push(loops[upto - 1]) =~= loops.take(upto));
    } else {
        assert(loops.take(0) =~= Seq::<Seq<char>>::empty());
    }
}

/// A subscription that a round of the rules leaves as it is passes the
/// check of well-formedness once the roles involved in loops without an end
/// have been made to share an event type, where the map of followers names
/// with each follower its followers.
pub proof fn lemma_settled_passes(c: ProtoInfoView, x: Subs)
    requires
        c.protocols.len() > 0,
        c.protocols[0].initial is Some,
        c.protocols[0].edges.len() == c.protocols[0].labels.len(),
        c.protocols[0].labels.len() <= usize::MAX,
        x.dom().finite(),
        c.infinitely_looping_events.finite(),
        transitive(c.succeeding_events),
        exact_settled(c, 0, x),
    ensures
        wf_errors(c, 0, with_looping(c, x)) == Seq::<ErrorView>::empty(),
{
    let p = c.protocols[0];
    let initial = match p.initial {
        Some(i) => i,
        None => 0usize,
    };
    if initial < p.nodes.len() {
        let succ = c.succeeding_events;
        let c0 = with_protocols(c, Seq::empty());
        let y = with_looping(c, x);
        let loops = sorted::<EventType>(c.infinitely_looping_events);
        lemma_sorted_of::<EventType>(c.infinitely_looping_events);
        lemma_round_met(c, p.nodes.len(), p.edges, p.labels, initial, x);
        lemma_sharing(succ, x, loops, loops.len() as int);
        assert(loops.take(loops.len() as int) =~= loops);
        assert(sharing(succ, x, y, loops));
        assert(above(y, x)) by {
            assert forall|r: Seq<char>| #[trigger] set_at(x, r).subset_of(set_at(y, r)) by {
                if x.dom().contains(r) {
                    assert(x[r].subset_of(y[r]));
                }
            }
        }
        let walk = dfs_order(p.nodes.len(), p.edges, initial);
        assert forall|w: int, k: int| 0 <= w < walk.len() && 0 <= k < edges_from(p.edges, walk[w]).len() implies wf_edge_errors(c0, p.edges, p.labels, y, walk[w], #[trigger] edges_from(p.edges, walk[w])[k]) == Seq::<ErrorView>::empty() by {
            let e = edges_from(p.edges, walk[w])[k];
            let et = event_at(p.labels, e);
            assert(edge_met(c0, p.edges, p.labels, x, walk[w], e));
            let here = involved_roles(et, succ, y);
            let there = involved_roles(et, succ, x);
            assert(here =~= there) by {
                assert forall|r: Seq<char>| here.contains(r) <==> there.contains(r) by {
                    lemma_involved_iff(et, succ, y, r);
                    lemma_involved_iff(et, succ, x, r);
                    if observes_after(succ, x, et, r) {
                        let v = choose|v: Seq<char>| #[trigger] x[r].contains(v) && and_after(succ, et).contains(v);
                        assert(x[r].subset_of(y[r]));
                        assert(y[r].contains(v));
                    }
                }
            }
            lemma_involved(et, succ, x);
            if c.infinitely_looping_events.contains(et) {
                assert(loops.to_set().contains(et));
                let j = choose|j: int| 0 <= j < loops.len() && loops[j] == et;
                assert(share_one(and_after(succ, loops[j]), involved_roles(loops[j], succ, x), y));
            }
            lemma_edge_clean(c0, p.edges, p.labels, x, y, walk[w], e);
        }
        lemma_walk_clean(c0, p.edges, p.labels, y, walk, walk.len() as int);
    }
}

/// The smallest subscription above a given one for the composition of some
/// protocols passes the check of the composition: the check finds
/// nothing. It is asked that the protocols and their interfaces have no
/// finding, and that the composition and the subscription can be counted in
/// 64 bits.
pub proof fn lemma_exact_is_well_formed(protos: Seq<(Seq<char>, Seq<(LabelKey, Seq<char>, Seq<char>)>)>, subs: Subs)
    requires
        !has_errors(swarm_info(protos)),
        composition(swarm_info(protos)).edges.len() == composition(swarm_info(protos)).labels.len(),
        composition(swarm_info(protos)).labels.len() <= usize::MAX,
        subs.dom().finite(),
        subs.dom().len() + composition(swarm_info(protos)).edges.len() <= u64::MAX,
        composed_info(swarm_info(protos)).infinitely_looping_events.finite(),
    ensures
        report_empty(check_report(protos, exact_sub(composed_info(swarm_info(protos)), 0, subs))),
{
    let c = swarm_info(protos);
    let g = composition(c);
    let cc = composed_info(c);
    let p = cc.protocols[0];
    let ground = Ground { nodes: g.nodes.len(), edges: g.edges, labels: g.labels, initial: g.initial, conc: c.concurrent_events };
    lemma_followers_transitive(ground);
    lemma_exact_settles(cc, p.nodes.len(), p.edges, p.labels, g.initial, subs);
    let x = exact_settling(cc, 0, subs);
    crate::composition::rounds::lemma_label_sets(p.labels);
    lemma_within_finite(x, subs, label_roles(p.labels), label_events(p.labels));
    lemma_settled_passes(cc, x);
    let s = exact_sub(cc, 0, subs);
    assert(s == with_looping(cc, x));
    let checked = wf_checked(cc, s);
    assert(checked.protocols.len() == 1);
    assert(checked.protocols[0].errors =~= Seq::<ErrorView>::empty());
    let report = check_report(protos, s);
    assert(report == report_of(checked));
    assert forall|i: int| 0 <= i < report.len() implies (#[trigger] report[i]).errors.len() == 0 by {
        if i == 0 {
        } else {
            assert(c.interface_errors.len() == 0);
        }
    }
}

/// Whether a subscription with finitely many roles holds no more than
/// another.
pub open spec fn under(s: Subs, z: Subs) -> bool {
    above(z, s) && s.dom().finite()
}

/// A role is given event types that another subscription has for it: what
/// was under that subscription stays under it.
proof fn lemma_add_under(st: SubState, z: Subs, role: Seq<char>, events: Set<Seq<char>>)
    requires
        under(st.0, z),
        events.subset_of(set_at(z, role)),
    ensures
        under(add_sub(st, role, events).0, z),
{
    let r = add_sub(st, role, events);
    assert(r.0.dom() =~= st.0.dom().insert(role));
    assert forall|q: Seq<char>| #[trigger] set_at(r.0, q).subset_of(set_at(z, q)) by {
        assert(set_at(st.0, q).subset_of(set_at(z, q)));
        if q == role {
            assert(set_at(r.0, q) =~= set_at(st.0, q).union(events));
        } else {
            assert(set_at(r.0, q) =~= set_at(st.0, q));
        }
    }
}

/// The roles that can act after a transition are given its event type.
proof fn lemma_later_under(later: Seq<LabelKey>, st: SubState, z: Subs, et: Seq<char>, upto: int)
    requires
        0 <= upto <= later.len(),
        under(st.0, z),
        forall|i: int| 0 <= i < later.len() ==> set_at(z, (#[trigger] later[i]).2).contains(et),
    ensures
        under(fold_upto(later, st, exact_later_step(et), upto).0, z),
    decreases upto,
{
    if upto > 0 {
        lemma_later_under(later, st, z, et, upto - 1);
        let before = fold_upto(later, st, exact_later_step(et), upto - 1);
        assert(set_at(z, later[upto - 1].2).contains(et));
        lemma_add_under(before, z, later[upto - 1].2, only(et));
    }
}

/// Roles are given event types that another subscription has for them.
proof fn lemma_roles_under(list: Seq<Seq<char>>, st: SubState, z: Subs, events: Set<Seq<char>>, upto: int)
    requires
        0 <= upto <= list.len(),
        under(st.0, z),
        forall|i: int| 0 <= i < list.len() ==> events.subset_of(set_at(z, #[trigger] list[i])),
    ensures
        under(fold_upto(list, st, exact_role_step(events), upto).0, z),
    decreases upto,
{
    if upto > 0 {
        lemma_roles_under(list, st, z, events, upto - 1);
        let before = fold_upto(list, st, exact_role_step(events), upto - 1);
        assert(events.subset_of(set_at(z, list[upto - 1])));
        lemma_add_under(before, z, list[upto - 1], events);
    }
}

/// The roles involved for a subscription are involved for one that holds
/// more.
proof fn lemma_involved_under(et: Seq<char>, succ: SuccMap, s: Subs, z: Subs, r: Seq<char>)
    requires
        under(s, z),
        z.dom().finite(),
        involved_roles(et, succ, s).contains(r),
    ensures
        involved_roles(et, succ, z).contains(r),
{
    lemma_involved_iff(et, succ, s, r);
    lemma_involved_iff(et, succ, z, r);
    let w = choose|w: Seq<char>| #[trigger] s[r].contains(w) && and_after(succ, et).contains(w);
    assert(set_at(s, r).subset_of(set_at(z, r)));
    assert(set_at(z, r).contains(w));
    assert(z[r].contains(w));
}

/// What the rules ask of a transition is under a subscription that has
/// what they ask of it, if what was there before is.
proof fn lemma_edge_under(c: ProtoInfoView, edges: Seq<(usize, usize)>, labels: Seq<LabelKey>, node: usize, st: SubState, z: Subs, e: usize)
    requires
        under(st.0, z),
        z.dom().finite(),
        edge_met(c, edges, labels, z, node, e),
    ensures
        under(exact_edge_step(c, edges, labels, node)(st, e).0, z),
{
    let et = event_at(labels, e);
    let s1 = add_sub(st, labels[e as int].2, only(et));
    lemma_add_under(st, z, labels[e as int].2, only(et));
    let later = active_not_conc(edges, labels, edges[e as int].1, et, c.concurrent_events);
    lemma_later_under(later, s1, z, et, later.len() as int);
    let s2 = fold(later, s1, exact_later_step(et));
    let involved = involved_roles(et, c.succeeding_events, s2.0);
    lemma_involved(et, c.succeeding_events, s2.0);
    lemma_sorted_of::<Role>(involved);
    let list = sorted::<Role>(involved);
    let here = branching_here(c.branching_events, edges, labels, node, et);
    let joined = join_set(c.concurrent_events, edges, labels, node, et);
    let s3 = if here.len() > 1 {
        fold(list, s2, exact_role_step(here))
    } else {
        s2
    };
    if here.len() > 1 {
        assert forall|i: int| 0 <= i < list.len() implies here.subset_of(set_at(z, #[trigger] list[i])) by {
            assert(list.to_set().contains(list[i]));
            lemma_involved_under(et, c.succeeding_events, s2.0, z, list[i]);
        }
        lemma_roles_under(list, s2, z, here, list.len() as int);
    }
    if c.interfacing_events.contains(et) {
        assert forall|i: int| 0 <= i < list.len() implies joined.subset_of(set_at(z, #[trigger] list[i])) by {
            assert(list.to_set().contains(list[i]));
            lemma_involved_under(et, c.succeeding_events, s2.0, z, list[i]);
        }
        lemma_roles_under(list, s3, z, joined, list.len() as int);
    }
}

/// What the rules ask of the first transitions that leave a node is under
/// a subscription that has what they ask of each.
proof fn lemma_node_under(c: ProtoInfoView, edges: Seq<(usize, usize)>, labels: Seq<LabelKey>, node: usize, st: SubState, z: Subs, upto: int)
    requires
        under(st.0, z),
        z.dom().finite(),
        0 <= upto <= edges_from(edges, node).len(),
        forall|k: int| 0 <= k < edges_from(edges, node).len() ==> edge_met(c, edges, labels, z, node, #[trigger] edges_from(edges, node)[k]),
    ensures
        under(fold_upto(edges_from(edges, node), st, exact_edge_step(c, edges, labels, node), upto).0, z),
    decreases upto,
{
    if upto > 0 {
        lemma_node_under(c, edges, labels, node, st, z, upto - 1);
        let ids = edges_from(edges, node);
        let before = fold_upto(ids, st, exact_edge_step(c, edges, labels, node), upto - 1);
        assert(edge_met(c, edges, labels, z, node, ids[upto - 1]));
        lemma_edge_under(c, edges, labels, node, before, z, ids[upto - 1]);
    }
}

/// Whether a subscription has what the rules ask of each transition that
/// a round takes in.
pub open spec fn all_met(c: ProtoInfoView, nodes: nat, edges: Seq<(usize, usize)>, labels: Seq<LabelKey>, initial: usize, z: Subs) -> bool {
    forall|w: int, k: int|
        0 <= w < dfs_order(nodes, edges, initial).len() && 0 <= k < edges_from(edges, dfs_order(nodes, edges, initial)[w]).len() ==> edge_met(
            with_protocols(c, Seq::empty()),
            edges,
            labels,
            z,
            dfs_order(nodes, edges, initial)[w],
            #[trigger] edges_from(edges, dfs_order(nodes, edges, initial)[w])[k],
        )
}

/// What the rules ask of the transitions of the first nodes of the walk is
/// under a subscription that has what they ask of each.
proof fn lemma_walk_under(c: ProtoInfoView, nodes: nat, edges: Seq<(usize, usize)>, labels: Seq<LabelKey>, initial: usize, st: SubState, z: Subs, upto: int)
    requires
        under(st.0, z),
        z.dom().finite(),
        all_met(c, nodes, edges, labels, initial, z),
        0 <= upto <= dfs_order(nodes, edges, initial).len(),
    ensures
        under(fold_upto(dfs_order(nodes, edges, initial), st, exact_node_step(with_protocols(c, Seq::empty()), edges, labels), upto).0, z),
    decreases upto,
{
    if upto > 0 {
        lemma_walk_under(c, nodes, edges, labels, initial, st, z, upto - 1);
        let walk = dfs_order(nodes, edges, initial);
        let c0 = with_protocols(c, Seq::empty());
        let before = fold_upto(walk, st, exact_node_step(c0, edges, labels), upto - 1);
        let node = walk[upto - 1];
        assert forall|k: int| 0 <= k < edges_from(edges, node).len() implies edge_met(c0, edges, labels, z, node, #[trigger] edges_from(edges, node)[k]) by {
            assert(edge_met(c0, edges, labels, z, walk[upto - 1], edges_from(edges, walk[upto - 1])[k]));
        }
        lemma_node_under(c0, edges, labels, node, before, z, edges_from(edges, node).len() as int);
    }
}

/// What the rounds of the rules make of a subscription is under every
/// subscription above it that has what the rules ask: it is the least such.
pub proof fn lemma_rounds_under(c: ProtoInfoView, nodes: nat, edges: Seq<(usize, usize)>, labels: Seq<LabelKey>, initial: usize, s: Subs, z: Subs, fuel: nat)
    requires
        under(s, z),
        z.dom().finite(),
        all_met(c, nodes, edges, labels, initial, z),
    ensures
        under(until_stable(exact_round_of(c, nodes, edges, labels, initial), s, fuel), z),
    decreases fuel,
{
    if fuel > 0 {
        let next = exact_round(c, nodes, edges, labels, initial, s);
        if initial < nodes {
            lemma_walk_under(c, nodes, edges, labels, initial, (s, true), z, dfs_order(nodes, edges, initial).len() as int);
        }
        if !next.1 {
            lemma_rounds_under(c, nodes, edges, labels, initial, next.0, z, (fuel - 1) as nat);
        }
    }
}

/// Where holding the roles that can act later against a subscription
/// finds nothing, each of them observes the event type.
proof fn lemma_later_met(later: Seq<LabelKey>, z: Subs, et: Seq<char>, e: usize, upto: int)
    requires
        0 <= upto <= later.len(),
    ensures
        fold_upto(later, Seq::<ErrorView>::empty(), later_step(z, et, e), upto).len() == 0 ==> forall|i: int| 0 <= i < upto ==> set_at(z, (#[trigger] later[i]).2).contains(et),
    decreases upto,
{
    if upto > 0 {
        lemma_later_met(later, z, et, e, upto - 1);
    }
}

/// Where holding roles against a subscription for the event types that
/// branch finds nothing, each of them observes those.
proof fn lemma_branch_met(list: Seq<Seq<char>>, z: Subs, here: Set<Seq<char>>, e: usize, node: usize, upto: int)
    requires
        0 <= upto <= list.len(),
    ensures
        fold_upto(list, Seq::<ErrorView>::empty(), branch_error_step(z, here, e, node), upto).len() == 0 ==> forall|i: int| 0 <= i < upto ==> here.subset_of(set_at(z, #[trigger] list[i])),
    decreases upto,
{
    if upto > 0 {
        lemma_branch_met(list, z, here, e, node, upto - 1);
    }
}

/// Where holding roles against a subscription for the event types of a
/// join finds nothing, each of them observes those.
proof fn lemma_join_met(list: Seq<Seq<char>>, z: Subs, needed: Set<Seq<char>>, e: usize, upto: int)
    requires
        0 <= upto <= list.len(),
    ensures
        fold_upto(list, Seq::<ErrorView>::empty(), join_error_step(z, needed, e), upto).len() == 0 ==> forall|i: int| 0 <= i < upto ==> needed.subset_of(set_at(z, #[trigger] list[i])),
    decreases upto,
{
    if upto > 0 {
        lemma_join_met(list, z, needed, e, upto - 1);
    }
}

/// A subscription against which a transition has no finding has what the
/// rules ask of the transition.
pub proof fn lemma_clean_met(c: ProtoInfoView, edges: Seq<(usize, usize)>, labels: Seq<LabelKey>, z: Subs, node: usize, e: usize)
    requires
        z.dom().finite(),
        wf_edge_errors(c, edges, labels, z, node, e).len() == 0,
    ensures
        edge_met(c, edges, labels, z, node, e),
{
    let et = event_at(labels, e);
    let involved = involved_roles(et, c.succeeding_events, z);
    let here = branching_here(c.branching_events, edges, labels, node, et);
    let needed = join_set(c.concurrent_events, edges, labels, node, et);
    let later = active_not_conc(edges, labels, edges[e as int].1, et, c.concurrent_events);
    lemma_involved(et, c.succeeding_events, z);
    lemma_sorted_of::<Role>(involved);
    let list = sorted::<Role>(involved);
    lemma_later_met(later, z, et, e, later.len() as int);
    lemma_branch_met(list, z, here, e, node, list.len() as int);
    lemma_join_met(list, z, needed, e, list.len() as int);
    if here.len() > 1 {
        assert forall|r: Seq<char>| #[trigger] involved.contains(r) implies here.subset_of(set_at(z, r)) by {
            assert(list.to_set().contains(r));
            let i = choose|i: int| 0 <= i < list.len() && list[i] == r;
            assert(here.subset_of(set_at(z, list[i])));
        }
    }
    if c.interfacing_events.contains(et) {
        assert forall|r: Seq<char>| #[trigger] involved.contains(r) implies needed.subset_of(set_at(z, r)) by {
            assert(list.to_set().contains(r));
            let i = choose|i: int| 0 <= i < list.len() && list[i] == r;
            assert(needed.subset_of(set_at(z, list[i])));
        }
    }
}

/// The findings on the first transitions that leave a node are at least
/// those that there were, and none only if none of the transitions has one.
proof fn lemma_node_met(c: ProtoInfoView, edges: Seq<(usize, usize)>, labels: Seq<LabelKey>, z: Subs, node: usize, acc: Seq<ErrorView>, upto: int)
    requires
        0 <= upto <= edges_from(edges, node).len(),
    ensures
        fold_upto(edges_from(edges, node), acc, wf_edge_step(c, edges, labels, z, node), upto).len() >= acc.len(),
        fold_upto(edges_from(edges, node), acc, wf_edge_step(c, edges, labels, z, node), upto).len() == 0 ==> forall|k: int|
            0 <= k < upto ==> wf_edge_errors(c, edges, labels, z, node, #[trigger] edges_from(edges, node)[k]).len() == 0,
    decreases upto,
{
    if upto > 0 {
        lemma_node_met(c, edges, labels, z, node, acc, upto - 1);
    }
}

/// The findings on the first nodes of a walk are none only if no
/// transition that leaves one of them has one.
proof fn lemma_walk_met(c: ProtoInfoView, edges: Seq<(usize, usize)>, labels: Seq<LabelKey>, z: Subs, walk: Seq<usize>, upto: int)
    requires
        0 <= upto <= walk.len(),
    ensures
        fold_upto(walk, Seq::<ErrorView>::empty(), wf_node_step(c, edges, labels, z), upto).len() == 0 ==> forall|w: int, k: int|
            0 <= w < upto && 0 <= k < edges_from(edges, walk[w]).len() ==> wf_edge_errors(c, edges, labels, z, walk[w], #[trigger] edges_from(edges, walk[w])[k]).len() == 0,
    decreases upto,
{
    if upto > 0 {
        lemma_walk_met(c, edges, labels, z, walk, upto - 1);
        let before = fold_upto(walk, Seq::<ErrorView>::empty(), wf_node_step(c, edges, labels, z), upto - 1);
        let node = walk[upto - 1];
        lemma_node_met(c, edges, labels, z, node, before, edges_from(edges, node).len() as int);
    }
}

/// A subscription without an event type that the rules gave to a role
/// does not pass the check of well-formedness: the subscription with which
/// the rounds of the rules end, from the empty subscription on, holds
/// nothing that could be spared.
pub proof fn lemma_settled_needed(c: ProtoInfoView, z: Subs, r: Seq<char>, e: Seq<char>)
    requires
        c.protocols.len() > 0,
        c.protocols[0].initial is Some,
        z.dom().finite(),
        set_at(exact_settling(c, 0, Map::empty()), r).contains(e),
        !set_at(z, r).contains(e),
    ensures
        wf_errors(c, 0, z).len() > 0,
{
    let p = c.protocols[0];
    let initial = match p.initial {
        Some(i) => i,
        None => 0usize,
    };
    let none = Map::<Seq<char>, Set<Seq<char>>>::empty();
    let x = exact_settling(c, 0, none);
    if wf_errors(c, 0, z).len() == 0 {
        if initial < p.nodes.len() {
            let c0 = with_protocols(c, Seq::empty());
            let walk = dfs_order(p.nodes.len(), p.edges, initial);
            lemma_walk_met(c0, p.edges, p.labels, z, walk, walk.len() as int);
            assert forall|w: int, k: int| 0 <= w < walk.len() && 0 <= k < edges_from(p.edges, walk[w]).len() implies edge_met(c0, p.edges, p.labels, z, walk[w], #[trigger] edges_from(p.edges, walk[w])[k]) by {
                lemma_clean_met(c0, p.edges, p.labels, z, walk[w], edges_from(p.edges, walk[w])[k]);
            }
            assert(all_met(c, p.nodes.len(), p.edges, p.labels, initial, z));
            assert(under(none, z)) by {
                assert forall|q: Seq<char>| #[trigger] set_at(none, q).subset_of(set_at(z, q)) by {
                }
            }
            lemma_rounds_under(c, p.nodes.len(), p.edges, p.labels, initial, none, z, sub_fuel(none.dom().len(), p.edges.len()));
            assert(set_at(x, r).subset_of(set_at(z, r)));
        } else {
            lemma_idle(c, none, sub_fuel(none.dom().len(), p.edges.len()));
        }
    }
}

/// Without an initial node among the nodes the rounds of the rules leave
/// a subscription as it is.
proof fn lemma_idle(c: ProtoInfoView, s: Subs, fuel: nat)
    requires
        c.protocols.len() > 0,
        c.protocols[0].initial is Some,
        c.protocols[0].initial->0 >= c.protocols[0].nodes.len(),
    ensures
        until_stable(exact_round_of(c, c.protocols[0].nodes.len(), c.protocols[0].edges, c.protocols[0].labels, c.protocols[0].initial->0), s, fuel) == s,
{
    if fuel > 0 {
    }
}

/// The check of the composition of some protocols finds something against
/// every subscription that lacks, for a role, an event type that the rules
/// of well-formedness give to the role from the empty subscription on: of
/// what the rules give, nothing can be spared.
pub proof fn lemma_exact_is_minimal(protos: Seq<(Seq<char>, Seq<(LabelKey, Seq<char>, Seq<char>)>)>, z: Subs, r: Seq<char>, e: Seq<char>)
    requires
        !has_errors(swarm_info(protos)),
        z.dom().finite(),
        set_at(exact_settling(composed_info(swarm_info(protos)), 0, Map::empty()), r).contains(e),
        !set_at(z, r).contains(e),
    ensures
        !report_empty(check_report(protos, z)),
{
    let c = swarm_info(protos);
    let cc = composed_info(c);
    lemma_settled_needed(cc, z, r, e);
    let checked = wf_checked(cc, z);
    let report = check_report(protos, z);
    assert(report == report_of(checked));
    assert(checked.protocols[0].errors =~= wf_errors(cc, 0, z));
    assert(report[0].errors.len() > 0);
}

/// Whether a transition that a round takes in emits an event type.
pub open spec fn emitted_on_walk(nodes: nat, edges: Seq<(usize, usize)>, labels: Seq<LabelKey>, initial: usize, t: Seq<char>) -> bool {
    exists|w: int, k: int| 0 <= w < dfs_order(nodes, edges, initial).len() && 0 <= k < edges_from(edges, dfs_order(nodes, edges, initial)[w]).len() && #[trigger] event_at(labels, edges_from(edges, dfs_order(nodes, edges, initial)[w])[k]) == t
}

/// The check of well-formedness finds something against a subscription
/// for which the roles involved after an event type on a loop without an
/// end share no event type of the loop, where a transition of the walk
/// emits the event type.
pub proof fn lemma_loop_found(c: ProtoInfoView, z: Subs, t: Seq<char>)
    requires
        c.protocols.len() > 0,
        c.protocols[0].initial is Some,
        c.protocols[0].initial->0 < c.protocols[0].nodes.len(),
        emitted_on_walk(c.protocols[0].nodes.len(), c.protocols[0].edges, c.protocols[0].labels, c.protocols[0].initial->0, t),
        c.infinitely_looping_events.contains(t),
        !share_one(and_after(c.succeeding_events, t), involved_roles(t, c.succeeding_events, z), z),
    ensures
        wf_errors(c, 0, z).len() > 0,
{
    let p = c.protocols[0];
    let initial = match p.initial {
        Some(i) => i,
        None => 0usize,
    };
    let c0 = with_protocols(c, Seq::empty());
    let walk = dfs_order(p.nodes.len(), p.edges, initial);
    let (w, k) = choose|w: int, k: int| 0 <= w < walk.len() && 0 <= k < edges_from(p.edges, walk[w]).len() && #[trigger] event_at(p.labels, edges_from(p.edges, walk[w])[k]) == t;
    let e = edges_from(p.edges, walk[w])[k];
    assert(wf_edge_errors(c0, p.edges, p.labels, z, walk[w], e).len() > 0);
    lemma_walk_met(c0, p.edges, p.labels, z, walk, walk.len() as int);
}

/// The check of the composition of some protocols finds something against
/// a subscription in which a role that is involved after an event type on
/// a loop without an end does not observe that event type, if the roles
/// involved share no other event type of the loop and a transition of the
/// composition emits the event type: what is given for such a loop cannot
/// be spared then.
pub proof fn lemma_exact_loop_is_needed(protos: Seq<(Seq<char>, Seq<(LabelKey, Seq<char>, Seq<char>)>)>, z: Subs, r: Seq<char>, t: Seq<char>)
    requires
        !has_errors(swarm_info(protos)),
        composition(swarm_info(protos)).initial < composition(swarm_info(protos)).nodes.len(),
        emitted_on_walk(composition(swarm_info(protos)).nodes.len(), composition(swarm_info(protos)).edges, composition(swarm_info(protos)).labels, composition(swarm_info(protos)).initial, t),
        composed_info(swarm_info(protos)).infinitely_looping_events.contains(t),
        involved_roles(t, composed_info(swarm_info(protos)).succeeding_events, z).contains(r),
        !set_at(z, r).contains(t),
        forall|w: Seq<char>| w != t && #[trigger] and_after(composed_info(swarm_info(protos)).succeeding_events, t).contains(w) ==> !all_observe(involved_roles(t, composed_info(swarm_info(protos)).succeeding_events, z), z, w),
    ensures
        !report_empty(check_report(protos, z)),
{
    let c = swarm_info(protos);
    let cc = composed_info(c);
    let succ = cc.succeeding_events;
    let involved = involved_roles(t, succ, z);
    if share_one(and_after(succ, t), involved, z) {
        let w = choose|w: Seq<char>| and_after(succ, t).contains(w) && all_observe(involved, z, w);
        if w == t {
            assert(set_at(z, r).contains(t));
        }
    }
    lemma_loop_found(cc, z, t);
    let checked = wf_checked(cc, z);
    let report = check_report(protos, z);
    assert(report == report_of(checked));
    assert(checked.protocols[0].errors =~= wf_errors(cc, 0, z));
    assert(report[0].errors.len() > 0);
}

} // verus!
