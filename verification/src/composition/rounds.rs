//! Why the rounds of the rules on subscriptions end: a round that brings
//! something new gives a role an entry or an event type, and there are
//! only so many to give.
use crate::composition::composition_swarm::{active_not_conc, active_step, add_sub, and_after, branch_rule, branching_here, edge_events, event_at, event_budget, exact_edge_step, exact_later_step, exact_node_step, exact_role_step, exact_round, exact_round_of, finer_round, group_step, interested_step, interfacing_rule, involved_roles, involved_step, join_rule, join_set, join_size_step, join_step, only, pairs_row, pairs_rows, rule_fuel, size_step, sub_fuel, succ_edge_step, succ_fuel, succ_node_step, succ_of, succ_round_of, two_step_round, with_protocols, with_successors, within_step, LabelKey, SubState, Subs, SuccMap};
use crate::composition::composition_types::pair_key;
use crate::topology::{dfs_order, dfs_post_order, edges_from, edges_into, lemma_edge_ids_at};
use crate::composition::composition_types::{ProtoInfo, ProtoInfoView};
use crate::growth::{add_at, adds, ceiling, gains, grown, lemma_add_at, lemma_adds_chain, lemma_fold_adds, lemma_until_stable, until_stable, within};
use crate::names::{EventType, Role};
use crate::ordset::{lemma_sorted_of, sorted};
use crate::seqs::{fold, fold_upto};
use vstd::prelude::*;
use vstd::set_lib::*;

verus! {

/// Whether the sets by which the rules on branches, joins and interfaces
/// go are finite.
pub open spec fn finite_rules(c: ProtoInfoView) -> bool {
    &&& c.interfacing_events.finite()
    &&& c.joining_events.dom().finite()
    &&& forall|j: Seq<char>| #[trigger] c.joining_events.dom().contains(j) ==> c.joining_events[j].finite()
    &&& forall|g: int| 0 <= g < c.branching_events.len() ==> (#[trigger] c.branching_events[g]).finite()
}

/// The sets of a well-formed dossier are finite.
pub proof fn lemma_finite_rules(proto_info: &ProtoInfo)
    requires
        proto_info.wf(),
    ensures
        finite_rules(proto_info@),
{
    let c = proto_info@;
    proto_info.interfacing_events.lemma_wf();
    proto_info.joining_events.lemma_sets_keys();
    proto_info.joining_events.lemma_wf();
    crate::ordset::increasing_no_duplicates::<EventType>(proto_info.joining_events.keys());
    lemma_sorted_of_keys(proto_info);
    assert forall|j: Seq<char>| #[trigger] c.joining_events.dom().contains(j) implies c.joining_events[j].finite() by {
        assert(proto_info.joining_events.has(j));
        proto_info.joining_events.lemma_has(j);
        proto_info.joining_events.lemma_sets_at(proto_info.joining_events.index_of(j));
        proto_info.joining_events.vals()[proto_info.joining_events.index_of(j)].lemma_wf();
    }
    assert forall|g: int| 0 <= g < c.branching_events.len() implies (#[trigger] c.branching_events[g]).finite() by {
        proto_info.branching_events@[g].lemma_wf();
    }
}

/// The joining event types of a well-formed dossier are finitely many.
proof fn lemma_sorted_of_keys(proto_info: &ProtoInfo)
    requires
        proto_info.wf(),
    ensures
        proto_info@.joining_events.dom().finite(),
{
    proto_info.joining_events.lemma_sets_keys();
    proto_info.joining_events.lemma_wf();
    crate::ordset::increasing_no_duplicates::<EventType>(proto_info.joining_events.keys());
    assert(proto_info.joining_events.sets().dom() =~= proto_info.joining_events.keys().to_set());
}

/// Takes in a branching group: its event types join the stock.
pub open spec fn group_stock_step() -> spec_fn(Set<Seq<char>>, Set<Seq<char>>) -> Set<Seq<char>> {
    |acc: Set<Seq<char>>, g: Set<Seq<char>>| acc.union(g)
}

/// Takes in a joining event type: it joins the stock with the event types
/// before it.
pub open spec fn join_stock_step(joining: SuccMap) -> spec_fn(Set<Seq<char>>, Seq<char>) -> Set<Seq<char>> {
    |acc: Set<Seq<char>>, j: Seq<char>| acc.union(joining[j].insert(j))
}

/// The event types that the rules on branches, joins and interfaces can
/// give to a role.
pub open spec fn rule_stock(c: ProtoInfoView) -> Set<Seq<char>> {
    fold(sorted::<EventType>(c.joining_events.dom()), fold(c.branching_events, c.interfacing_events, group_stock_step()), join_stock_step(c.joining_events))
}

/// The stock after some branching groups holds them and what it held, and
/// no more event types than were counted.
proof fn lemma_group_stock(groups: Seq<Set<Seq<char>>>, start: Set<Seq<char>>, upto: int)
    requires
        start.finite(),
        forall|g: int| 0 <= g < groups.len() ==> (#[trigger] groups[g]).finite(),
        0 <= upto <= groups.len(),
    ensures
        fold_upto(groups, start, group_stock_step(), upto).finite(),
        fold_upto(groups, start, group_stock_step(), upto).len() <= fold_upto(groups, start.len(), size_step(), upto),
        start.subset_of(fold_upto(groups, start, group_stock_step(), upto)),
        forall|g: int| 0 <= g < upto ==> (#[trigger] groups[g]).subset_of(fold_upto(groups, start, group_stock_step(), upto)),
    decreases upto,
{
    broadcast use group_set_properties;

    if upto > 0 {
        lemma_group_stock(groups, start, upto - 1);
        let before = fold_upto(groups, start, group_stock_step(), upto - 1);
        lemma_len_union(before, groups[upto - 1]);
        assert forall|g: int| 0 <= g < upto implies (#[trigger] groups[g]).subset_of(before.union(groups[upto - 1])) by {
            if g < upto - 1 {
                assert(groups[g].subset_of(before));
            }
        }
    }
}

/// The stock after some joining event types holds them, the event types
/// before them and what it held, and no more event types than were
/// counted.
proof fn lemma_join_stock(list: Seq<Seq<char>>, joining: SuccMap, start: Set<Seq<char>>, counted: nat, upto: int)
    requires
        start.finite(),
        start.len() <= counted,
        forall|i: int| 0 <= i < list.len() ==> joining[#[trigger] list[i]].finite(),
        0 <= upto <= list.len(),
    ensures
        fold_upto(list, start, join_stock_step(joining), upto).finite(),
        fold_upto(list, start, join_stock_step(joining), upto).len() <= fold_upto(list, counted, join_size_step(joining), upto),
        start.subset_of(fold_upto(list, start, join_stock_step(joining), upto)),
        forall|i: int| 0 <= i < upto ==> joining[#[trigger] list[i]].insert(list[i]).subset_of(fold_upto(list, start, join_stock_step(joining), upto)),
    decreases upto,
{
    broadcast use group_set_properties;

    if upto > 0 {
        lemma_join_stock(list, joining, start, counted, upto - 1);
        let before = fold_upto(list, start, join_stock_step(joining), upto - 1);
        let j = list[upto - 1];
        assert(joining[j].finite());
        lemma_len_union(before, joining[j].insert(j));
        assert forall|i: int| 0 <= i < upto implies joining[#[trigger] list[i]].insert(list[i]).subset_of(before.union(joining[j].insert(j))) by {
            if i < upto - 1 {
                assert(joining[list[i]].insert(list[i]).subset_of(before));
            }
        }
    }
}

/// The stock of the rules is finite, no larger than the budget, and holds
/// what each rule gives.
pub proof fn lemma_rule_stock(c: ProtoInfoView)
    requires
        finite_rules(c),
    ensures
        rule_stock(c).finite(),
        rule_stock(c).len() <= event_budget(c),
        c.interfacing_events.subset_of(rule_stock(c)),
        forall|g: int| 0 <= g < c.branching_events.len() ==> (#[trigger] c.branching_events[g]).subset_of(rule_stock(c)),
        forall|j: Seq<char>| #[trigger] c.joining_events.dom().contains(j) ==> c.joining_events[j].insert(j).subset_of(rule_stock(c)),
{
    let list = sorted::<EventType>(c.joining_events.dom());
    lemma_sorted_of::<EventType>(c.joining_events.dom());
    lemma_group_stock(c.branching_events, c.interfacing_events, c.branching_events.len() as int);
    let mid = fold(c.branching_events, c.interfacing_events, group_stock_step());
    let counted = fold(c.branching_events, c.interfacing_events.len(), size_step());
    assert forall|i: int| 0 <= i < list.len() implies c.joining_events[#[trigger] list[i]].finite() by {
        assert(list.to_set().contains(list[i]));
    }
    lemma_join_stock(list, c.joining_events, mid, counted, list.len() as int);
    assert forall|j: Seq<char>| #[trigger] c.joining_events.dom().contains(j) implies c.joining_events[j].insert(j).subset_of(rule_stock(c)) by {
        assert(list.to_set().contains(j));
        let i = choose|i: int| 0 <= i < list.len() && list[i] == j;
        assert(c.joining_events[list[i]].insert(list[i]).subset_of(rule_stock(c)));
    }
    assert forall|g: int| 0 <= g < c.branching_events.len() implies (#[trigger] c.branching_events[g]).subset_of(rule_stock(c)) by {
        assert(c.branching_events[g].subset_of(mid));
    }
}

/// The roles found to be involved are roles of the subscription.
proof fn lemma_involved_upto(list: Seq<Seq<char>>, subs: Subs, events: Set<Seq<char>>, upto: int)
    requires
        0 <= upto <= list.len(),
    ensures
        fold_upto(list, Set::<Seq<char>>::empty(), involved_step(subs, events), upto).subset_of(list.to_set()),
    decreases upto,
{
    if upto > 0 {
        lemma_involved_upto(list, subs, events, upto - 1);
        assert(list.to_set().contains(list[upto - 1]));
    }
}

/// The roles involved after an event type are roles of the subscription.
pub proof fn lemma_involved(et: Seq<char>, succ: SuccMap, subs: Subs)
    requires
        subs.dom().finite(),
    ensures
        involved_roles(et, succ, subs).subset_of(subs.dom()),
        involved_roles(et, succ, subs).finite(),
{
    let list = sorted::<Role>(subs.dom());
    lemma_sorted_of::<Role>(subs.dom());
    lemma_involved_upto(list, subs, and_after(succ, et), list.len() as int);
    lemma_len_subset(involved_roles(et, succ, subs), subs.dom());
}

/// The roles involved after some event types are roles of the
/// subscription.
proof fn lemma_interested_upto(list: Seq<Seq<char>>, succ: SuccMap, subs: Subs, upto: int)
    requires
        subs.dom().finite(),
        0 <= upto <= list.len(),
    ensures
        fold_upto(list, Set::<Seq<char>>::empty(), interested_step(succ, subs), upto).subset_of(subs.dom()),
    decreases upto,
{
    if upto > 0 {
        lemma_interested_upto(list, succ, subs, upto - 1);
        lemma_involved(list[upto - 1], succ, subs);
    }
}

/// A subscription within bounds that are finite has finitely many roles.
pub proof fn lemma_within_finite(s: Subs, base: Subs, keys: Set<Seq<char>>, items: Set<Seq<char>>)
    requires
        base.dom().finite(),
        keys.finite(),
        within(s, base, keys, items),
    ensures
        s.dom().finite(),
        s.dom().subset_of(base.dom().union(keys)),
{
    broadcast use group_set_properties;

    assert(s.dom().subset_of(base.dom().union(keys))) by {
        assert forall|k: Seq<char>| s.dom().contains(k) implies base.dom().union(keys).contains(k) by {
        }
    }
    lemma_len_subset(s.dom(), base.dom().union(keys));
}

/// Giving event types of the stock to roles of a subscription within
/// bounds only adds.
pub proof fn lemma_roles_add(roles: Set<Seq<char>>, st: SubState, events: Set<Seq<char>>, base: Subs, keys: Set<Seq<char>>, items: Set<Seq<char>>)
    requires
        base.dom().finite(),
        keys.finite(),
        within(st.0, base, keys, items) ==> roles.subset_of(base.dom().union(keys)),
        events.subset_of(items),
    ensures
        adds(st, fold(sorted::<Role>(roles), st, exact_role_step(events)), base, keys, items),
{
    broadcast use group_set_properties;

    if within(st.0, base, keys, items) {
        lemma_len_subset(roles, base.dom().union(keys));
        lemma_sorted_of::<Role>(roles);
        let list = sorted::<Role>(roles);
        let step = exact_role_step(events);
        assert forall|acc: SubState, i: int| 0 <= i < list.len() implies adds(acc, #[trigger] step(acc, list[i]), base, keys, items) by {
            assert(list.to_set().contains(list[i]));
            assert(roles.contains(list[i]));
            if within(acc.0, base, keys, items) {
                if base.dom().contains(list[i]) {
                    assert(acc.0.dom().contains(list[i]));
                }
            }
            lemma_add_at(acc, list[i], events, base, keys, items);
            assert(step(acc, list[i]) == add_at(acc, list[i], events));
        }
        lemma_fold_adds(list, st, step, base, keys, items, list.len() as int);
    }
}

/// The rule on branches only adds.
pub proof fn lemma_branch_rule(succ: SuccMap, st: SubState, group: Set<Seq<char>>, base: Subs, keys: Set<Seq<char>>, items: Set<Seq<char>>)
    requires
        base.dom().finite(),
        keys.finite(),
        group.subset_of(items),
    ensures
        adds(st, branch_rule(succ)(st, group), base, keys, items),
{
    let list = sorted::<EventType>(group);
    let roles = fold(list, Set::<Seq<char>>::empty(), interested_step(succ, st.0));
    if within(st.0, base, keys, items) {
        lemma_within_finite(st.0, base, keys, items);
        lemma_interested_upto(list, succ, st.0, list.len() as int);
    }
    lemma_roles_add(roles, st, group, base, keys, items);
}

/// The rule on joins only adds.
pub proof fn lemma_join_rule(succ: SuccMap, joining: SuccMap, st: SubState, j: Seq<char>, base: Subs, keys: Set<Seq<char>>, items: Set<Seq<char>>)
    requires
        base.dom().finite(),
        keys.finite(),
        joining[j].insert(j).subset_of(items),
    ensures
        adds(st, join_rule(succ, joining)(st, j), base, keys, items),
{
    if within(st.0, base, keys, items) {
        lemma_within_finite(st.0, base, keys, items);
        lemma_involved(j, succ, st.0);
    }
    lemma_roles_add(involved_roles(j, succ, st.0), st, joining[j].insert(j), base, keys, items);
}

/// The rule on interfaces only adds.
pub proof fn lemma_interfacing_rule(succ: SuccMap, st: SubState, e: Seq<char>, base: Subs, keys: Set<Seq<char>>, items: Set<Seq<char>>)
    requires
        base.dom().finite(),
        keys.finite(),
        items.contains(e),
    ensures
        adds(st, interfacing_rule(succ)(st, e), base, keys, items),
{
    if within(st.0, base, keys, items) {
        lemma_within_finite(st.0, base, keys, items);
        lemma_involved(e, succ, st.0);
    }
    lemma_roles_add(involved_roles(e, succ, st.0), st, crate::composition::composition_swarm::only(e), base, keys, items);
}

/// The rule on branches, applied to each branching group, only adds.
pub proof fn lemma_branch_rules(c: ProtoInfoView, st: SubState, base: Subs)
    requires
        finite_rules(c),
        base.dom().finite(),
    ensures
        adds(st, fold(c.branching_events, st, branch_rule(c.succeeding_events)), base, Set::empty(), rule_stock(c)),
{
    lemma_rule_stock(c);
    let step = branch_rule(c.succeeding_events);
    assert forall|acc: SubState, g: int| 0 <= g < c.branching_events.len() implies adds(acc, #[trigger] step(acc, c.branching_events[g]), base, Set::empty(), rule_stock(c)) by {
        lemma_branch_rule(c.succeeding_events, acc, c.branching_events[g], base, Set::empty(), rule_stock(c));
    }
    lemma_fold_adds(c.branching_events, st, step, base, Set::empty(), rule_stock(c), c.branching_events.len() as int);
}

/// The rule on joins, applied to each joining event type, only adds.
pub proof fn lemma_join_rules(c: ProtoInfoView, st: SubState, base: Subs)
    requires
        finite_rules(c),
        base.dom().finite(),
    ensures
        adds(st, fold(sorted::<EventType>(c.joining_events.dom()), st, join_rule(c.succeeding_events, c.joining_events)), base, Set::empty(), rule_stock(c)),
{
    lemma_rule_stock(c);
    let list = sorted::<EventType>(c.joining_events.dom());
    lemma_sorted_of::<EventType>(c.joining_events.dom());
    let step = join_rule(c.succeeding_events, c.joining_events);
    assert forall|acc: SubState, i: int| 0 <= i < list.len() implies adds(acc, #[trigger] step(acc, list[i]), base, Set::empty(), rule_stock(c)) by {
        assert(list.to_set().contains(list[i]));
        assert(c.joining_events.dom().contains(list[i]));
        lemma_join_rule(c.succeeding_events, c.joining_events, acc, list[i], base, Set::empty(), rule_stock(c));
    }
    lemma_fold_adds(list, st, step, base, Set::empty(), rule_stock(c), list.len() as int);
}

/// The rule on interfaces, applied to each interfacing event type, only
/// adds.
pub proof fn lemma_interfacing_rules(c: ProtoInfoView, st: SubState, base: Subs)
    requires
        finite_rules(c),
        base.dom().finite(),
    ensures
        adds(st, fold(sorted::<EventType>(c.interfacing_events), st, interfacing_rule(c.succeeding_events)), base, Set::empty(), rule_stock(c)),
{
    lemma_rule_stock(c);
    let list = sorted::<EventType>(c.interfacing_events);
    lemma_sorted_of::<EventType>(c.interfacing_events);
    let step = interfacing_rule(c.succeeding_events);
    assert forall|acc: SubState, i: int| 0 <= i < list.len() implies adds(acc, #[trigger] step(acc, list[i]), base, Set::empty(), rule_stock(c)) by {
        assert(list.to_set().contains(list[i]));
        lemma_interfacing_rule(c.succeeding_events, acc, list[i], base, Set::empty(), rule_stock(c));
    }
    lemma_fold_adds(list, st, step, base, Set::empty(), rule_stock(c), list.len() as int);
}

/// A round of the two-step rules only adds.
pub proof fn lemma_two_step_round(c: ProtoInfoView, t: Subs, base: Subs)
    requires
        finite_rules(c),
        base.dom().finite(),
    ensures
        adds((t, true), two_step_round(c)(t), base, Set::empty(), rule_stock(c)),
{
    let s0 = (t, true);
    let s1 = fold(c.branching_events, s0, branch_rule(c.succeeding_events));
    let s2 = fold(sorted::<EventType>(c.joining_events.dom()), s1, join_rule(c.succeeding_events, c.joining_events));
    let s3 = fold(sorted::<EventType>(c.interfacing_events), s2, interfacing_rule(c.succeeding_events));
    lemma_branch_rules(c, s0, base);
    lemma_join_rules(c, s1, base);
    lemma_interfacing_rules(c, s2, base);
    lemma_adds_chain(s0, s1, s2, base, Set::empty(), rule_stock(c));
    lemma_adds_chain(s0, s2, s3, base, Set::empty(), rule_stock(c));
}

/// A round of the finer rules only adds.
pub proof fn lemma_finer_round(c: ProtoInfoView, t: Subs, base: Subs)
    requires
        finite_rules(c),
        base.dom().finite(),
    ensures
        adds((t, true), finer_round(c)(t), base, Set::empty(), rule_stock(c)),
{
    let s0 = (t, true);
    let s1 = fold(sorted::<EventType>(c.joining_events.dom()), s0, join_rule(c.succeeding_events, c.joining_events));
    let s2 = fold(c.branching_events, s1, branch_rule(c.succeeding_events));
    lemma_join_rules(c, s0, base);
    lemma_branch_rules(c, s1, base);
    lemma_adds_chain(s0, s1, s2, base, Set::empty(), rule_stock(c));
}

/// The rounds that the budget allows are enough for the stock.
proof fn lemma_rule_fuel(c: ProtoInfoView, base: Subs)
    requires
        finite_rules(c),
        base.dom().finite(),
        base.dom().len() <= u64::MAX,
        event_budget(c) <= u64::MAX,
    ensures
        within(base, base, Set::empty(), rule_stock(c)),
        rule_fuel(base.dom().len(), event_budget(c)) + gains(base, base).len() > ceiling(base, Set::<Seq<char>>::empty(), rule_stock(c)),
{
    broadcast use group_set_properties;

    lemma_rule_stock(c);
    assert(base.dom().union(Set::<Seq<char>>::empty()) =~= base.dom());
    let d = base.dom().len();
    let n = rule_stock(c).len();
    let b = event_budget(c);
    assert(d * n <= d * b) by (nonlinear_arith)
        requires
            n <= b,
    ;
    assert(grown(base, base));
}

/// The rounds of the two-step rules end because a round brings nothing
/// new: a further round leaves the subscription that they end with as it
/// is.
pub proof fn lemma_two_step_settles(c: ProtoInfoView, base: Subs)
    requires
        finite_rules(c),
        base.dom().finite(),
        base.dom().len() <= u64::MAX,
        event_budget(c) <= u64::MAX,
    ensures
        settled(two_step_round(c), until_stable(two_step_round(c), base, rule_fuel(base.dom().len(), event_budget(c)))),
{
    lemma_rule_stock(c);
    lemma_rule_fuel(c, base);
    let round = two_step_round(c);
    assert forall|t: Subs| adds((t, true), #[trigger] round(t), base, Set::empty(), rule_stock(c)) by {
        lemma_two_step_round(c, t, base);
    }
    lemma_until_stable(round, base, base, Set::empty(), rule_stock(c), rule_fuel(base.dom().len(), event_budget(c)));
}

/// The rounds of the finer rules end because a round brings nothing new:
/// a further round leaves the subscription that they end with as it is.
pub proof fn lemma_finer_settles(c: ProtoInfoView, base: Subs)
    requires
        finite_rules(c),
        base.dom().finite(),
        base.dom().len() <= u64::MAX,
        event_budget(c) <= u64::MAX,
    ensures
        settled(finer_round(c), until_stable(finer_round(c), base, rule_fuel(base.dom().len(), event_budget(c)))),
{
    lemma_rule_stock(c);
    lemma_rule_fuel(c, base);
    let round = finer_round(c);
    assert forall|t: Subs| adds((t, true), #[trigger] round(t), base, Set::empty(), rule_stock(c)) by {
        lemma_finer_round(c, t, base);
    }
    lemma_until_stable(round, base, base, Set::empty(), rule_stock(c), rule_fuel(base.dom().len(), event_budget(c)));
}

/// The roles of the labels of a graph.
pub open spec fn label_roles(labels: Seq<LabelKey>) -> Set<Seq<char>> {
    Set::new(|r: Seq<char>| exists|e: int| 0 <= e < labels.len() && (#[trigger] labels[e]).2 == r)
}

/// The event types of the labels of a graph.
pub open spec fn label_events(labels: Seq<LabelKey>) -> Set<Seq<char>> {
    Set::new(|x: Seq<char>| exists|e: int| 0 <= e < labels.len() && #[trigger] event_at(labels, e as usize) == x)
}

/// A graph has no more roles and no more event types than edges.
pub proof fn lemma_label_sets(labels: Seq<LabelKey>)
    requires
        labels.len() <= usize::MAX,
    ensures
        label_roles(labels).finite(),
        label_roles(labels).len() <= labels.len(),
        label_events(labels).finite(),
        label_events(labels).len() <= labels.len(),
{
    let ids = set_int_range(0, labels.len() as int);
    lemma_int_range(0, labels.len() as int);
    let role = |e: int| labels[e].2;
    let event = |e: int| event_at(labels, e as usize);
    assert(ids.map(role) =~= label_roles(labels)) by {
        assert forall|r: Seq<char>| label_roles(labels).contains(r) implies ids.map(role).contains(r) by {
            let e = choose|e: int| 0 <= e < labels.len() && (#[trigger] labels[e]).2 == r;
            assert(ids.contains(e) && role(e) == r);
        }
        assert forall|r: Seq<char>| ids.map(role).contains(r) implies label_roles(labels).contains(r) by {
            let e = choose|e: int| ids.contains(e) && role(e) == r;
            assert(labels[e].2 == r);
        }
    }
    assert(ids.map(event) =~= label_events(labels)) by {
        assert forall|x: Seq<char>| label_events(labels).contains(x) implies ids.map(event).contains(x) by {
            let e = choose|e: int| 0 <= e < labels.len() && #[trigger] event_at(labels, e as usize) == x;
            assert(ids.contains(e) && event(e) == x);
        }
        assert forall|x: Seq<char>| ids.map(event).contains(x) implies label_events(labels).contains(x) by {
            let e = choose|e: int| ids.contains(e) && event(e) == x;
            assert(event_at(labels, e as usize) == x);
        }
    }
    lemma_map_size_bound(ids, label_roles(labels), role);
    lemma_map_size_bound(ids, label_events(labels), event);
}

/// The labels that are active after a transition are labels of the graph.
pub proof fn lemma_active_labels(ids: Seq<usize>, labels: Seq<LabelKey>, et: Seq<char>, conc: Set<Seq<Seq<char>>>, upto: int)
    requires
        forall|i: int| 0 <= i < ids.len() ==> #[trigger] ids[i] < labels.len(),
        0 <= upto <= ids.len(),
    ensures
        forall|i: int| 0 <= i < fold_upto(ids, Seq::<LabelKey>::empty(), active_step(labels, et, conc), upto).len() ==> label_roles(labels).contains(
            (#[trigger] fold_upto(ids, Seq::<LabelKey>::empty(), active_step(labels, et, conc), upto)[i]).2,
        ),
    decreases upto,
{
    if upto > 0 {
        lemma_active_labels(ids, labels, et, conc, upto - 1);
        let e = ids[upto - 1];
        let before = fold_upto(ids, Seq::<LabelKey>::empty(), active_step(labels, et, conc), upto - 1);
        let after = fold_upto(ids, Seq::<LabelKey>::empty(), active_step(labels, et, conc), upto);
        assert forall|i: int| 0 <= i < after.len() implies label_roles(labels).contains((#[trigger] after[i]).2) by {
            if i < before.len() {
                assert(after[i] == before[i]);
            } else {
                assert(after[i] == labels[e as int]);
            }
        }
    }
}

/// The event types that branch at a node are event types of the graph.
pub proof fn lemma_branching_here(ids: Seq<usize>, labels: Seq<LabelKey>, set: Set<Seq<char>>, upto: int)
    requires
        forall|i: int| 0 <= i < ids.len() ==> #[trigger] ids[i] < labels.len(),
        0 <= upto <= ids.len(),
    ensures
        fold_upto(ids, Set::<Seq<char>>::empty(), within_step(labels, set), upto).subset_of(label_events(labels)),
    decreases upto,
{
    if upto > 0 {
        lemma_branching_here(ids, labels, set, upto - 1);
        let e = ids[upto - 1];
        assert(event_at(labels, (e as int) as usize) == event_at(labels, e));
    }
}

/// The pairs of one event type with later ones hold event types of the
/// list only.
pub proof fn lemma_pairs_row(evs: Seq<Seq<char>>, i: int, upto: int)
    requires
        0 <= i < evs.len(),
        upto <= evs.len(),
    ensures
        forall|k: int| 0 <= k < pairs_row(evs, i, upto).len() ==> (#[trigger] pairs_row(evs, i, upto)[k]).to_set().subset_of(evs.to_set()),
    decreases upto - i,
{
    if upto > i + 1 {
        lemma_pairs_row(evs, i, upto - 1);
        let p = pair_key(evs[i], evs[upto - 1]);
        assert(p.to_set().subset_of(evs.to_set())) by {
            assert forall|x: Seq<char>| p.to_set().contains(x) implies evs.to_set().contains(x) by {
                let k = choose|k: int| 0 <= k < p.len() && p[k] == x;
                assert(x == evs[i] || x == evs[upto - 1]);
            }
        }
        let before = pairs_row(evs, i, upto - 1);
        let after = pairs_row(evs, i, upto);
        assert forall|k: int| 0 <= k < after.len() implies (#[trigger] after[k]).to_set().subset_of(evs.to_set()) by {
            if k < before.len() {
                assert(after[k] == before[k]);
            } else {
                assert(after[k] == p);
            }
        }
    }
}

/// The pairs of event types of a list hold event types of the list only.
pub proof fn lemma_pairs_rows(evs: Seq<Seq<char>>, upto: int)
    requires
        upto <= evs.len(),
    ensures
        forall|k: int| 0 <= k < pairs_rows(evs, upto).len() ==> (#[trigger] pairs_rows(evs, upto)[k]).to_set().subset_of(evs.to_set()),
    decreases upto,
{
    if upto > 0 {
        lemma_pairs_rows(evs, upto - 1);
        lemma_pairs_row(evs, upto - 1, evs.len() as int);
        let before = pairs_rows(evs, upto - 1);
        let row = pairs_row(evs, upto - 1, evs.len() as int);
        let after = pairs_rows(evs, upto);
        assert forall|k: int| 0 <= k < after.len() implies (#[trigger] after[k]).to_set().subset_of(evs.to_set()) by {
            if k < before.len() {
                assert(after[k] == before[k]);
            } else {
                assert(after[k] == row[k - before.len()]);
            }
        }
    }
}

/// The event types of a join are among those of the pairs and the given
/// one.
pub proof fn lemma_join_set(pairs: Seq<Seq<Seq<char>>>, conc: Set<Seq<Seq<char>>>, et: Seq<char>, items: Set<Seq<char>>, upto: int)
    requires
        forall|k: int| 0 <= k < pairs.len() ==> (#[trigger] pairs[k]).to_set().subset_of(items),
        items.contains(et),
        0 <= upto <= pairs.len(),
    ensures
        fold_upto(pairs, Set::<Seq<char>>::empty(), join_step(conc, et), upto).subset_of(items),
    decreases upto,
{
    if upto > 0 {
        lemma_join_set(pairs, conc, et, items, upto - 1);
        assert(pairs[upto - 1].to_set().subset_of(items));
    }
}

/// What the rules ask of a transition only adds roles and event types of
/// the graph.
pub proof fn lemma_exact_edge(c: ProtoInfoView, edges: Seq<(usize, usize)>, labels: Seq<LabelKey>, node: usize, st: SubState, e: usize, base: Subs)
    requires
        base.dom().finite(),
        edges.len() == labels.len(),
        labels.len() <= usize::MAX,
        e < labels.len(),
    ensures
        adds(st, exact_edge_step(c, edges, labels, node)(st, e), base, label_roles(labels), label_events(labels)),
{
    let keys = label_roles(labels);
    let items = label_events(labels);
    lemma_label_sets(labels);
    if within(st.0, base, keys, items) {
        let et = event_at(labels, e);
        assert(event_at(labels, (e as int) as usize) == et);
        assert(items.contains(et));
        assert(labels[e as int].2 == labels[e as int].2);
        assert(keys.contains(labels[e as int].2));
        let s1 = add_sub(st, labels[e as int].2, only(et));
        lemma_add_at(st, labels[e as int].2, only(et), base, keys, items);
        assert(s1 == add_at(st, labels[e as int].2, only(et)));
        let target = edges[e as int].1;
        let ids = edges_from(edges, target);
        lemma_edge_ids_at(edges, target, true, edges.len() as int);
        let later = active_not_conc(edges, labels, target, et, c.concurrent_events);
        lemma_active_labels(ids, labels, et, c.concurrent_events, ids.len() as int);
        let lstep = exact_later_step(et);
        assert forall|acc: SubState, i: int| 0 <= i < later.len() implies adds(acc, #[trigger] lstep(acc, later[i]), base, keys, items) by {
            assert(keys.contains(later[i].2));
            lemma_add_at(acc, later[i].2, only(et), base, keys, items);
            assert(lstep(acc, later[i]) == add_at(acc, later[i].2, only(et)));
        }
        lemma_fold_adds(later, s1, lstep, base, keys, items, later.len() as int);
        let s2 = fold(later, s1, lstep);
        lemma_adds_chain(st, s1, s2, base, keys, items);
        lemma_within_finite(s2.0, base, keys, items);
        let involved = involved_roles(et, c.succeeding_events, s2.0);
        lemma_involved(et, c.succeeding_events, s2.0);
        let out = edges_from(edges, node);
        lemma_edge_ids_at(edges, node, true, edges.len() as int);
        let here = branching_here(c.branching_events, edges, labels, node, et);
        lemma_branching_here(out, labels, fold(c.branching_events, Set::<Seq<char>>::empty(), group_step(et)), out.len() as int);
        let s3 = if here.len() > 1 {
            fold(sorted::<Role>(involved), s2, exact_role_step(here))
        } else {
            s2
        };
        if here.len() > 1 {
            lemma_roles_add(involved, s2, here, base, keys, items);
        } else {
            assert(grown(s2.0, s2.0));
        }
        lemma_adds_chain(st, s2, s3, base, keys, items);
        let into = edges_into(edges, node);
        lemma_edge_ids_at(edges, node, false, edges.len() as int);
        let evs = edge_events(labels, into);
        let pairs = pairs_rows(evs, into.len() as int);
        lemma_pairs_rows(evs, evs.len() as int);
        assert forall|k: int| 0 <= k < pairs.len() implies (#[trigger] pairs[k]).to_set().subset_of(items) by {
            assert(pairs[k].to_set().subset_of(evs.to_set()));
            assert forall|x: Seq<char>| evs.to_set().contains(x) implies items.contains(x) by {
                let i = choose|i: int| 0 <= i < evs.len() && evs[i] == x;
                assert(event_at(labels, (into[i] as int) as usize) == x);
            }
        }
        lemma_join_set(pairs, c.concurrent_events, et, items, pairs.len() as int);
        let joined = join_set(c.concurrent_events, edges, labels, node, et);
        if c.interfacing_events.contains(et) {
            lemma_roles_add(involved, s3, joined, base, keys, items);
            lemma_adds_chain(st, s3, fold(sorted::<Role>(involved), s3, exact_role_step(joined)), base, keys, items);
        }
    }
}

/// What the rules ask of the transitions that leave a node only adds
/// roles and event types of the graph.
pub proof fn lemma_exact_node(c: ProtoInfoView, edges: Seq<(usize, usize)>, labels: Seq<LabelKey>, st: SubState, n: usize, base: Subs)
    requires
        base.dom().finite(),
        edges.len() == labels.len(),
        labels.len() <= usize::MAX,
    ensures
        adds(st, exact_node_step(c, edges, labels)(st, n), base, label_roles(labels), label_events(labels)),
{
    let ids = edges_from(edges, n);
    lemma_edge_ids_at(edges, n, true, edges.len() as int);
    let step = exact_edge_step(c, edges, labels, n);
    assert forall|acc: SubState, i: int| 0 <= i < ids.len() implies adds(acc, #[trigger] step(acc, ids[i]), base, label_roles(labels), label_events(labels)) by {
        lemma_exact_edge(c, edges, labels, n, acc, ids[i], base);
    }
    lemma_fold_adds(ids, st, step, base, label_roles(labels), label_events(labels), ids.len() as int);
}

/// A round of the rules of well-formedness only adds roles and event
/// types of the graph.
pub proof fn lemma_exact_round(c: ProtoInfoView, nodes: nat, edges: Seq<(usize, usize)>, labels: Seq<LabelKey>, initial: usize, t: Subs, base: Subs)
    requires
        base.dom().finite(),
        edges.len() == labels.len(),
        labels.len() <= usize::MAX,
    ensures
        adds((t, true), exact_round(c, nodes, edges, labels, initial, t), base, label_roles(labels), label_events(labels)),
{
    if initial >= nodes {
        assert(grown(t, t));
    } else {
        let walk = dfs_order(nodes, edges, initial);
        let step = exact_node_step(with_protocols(c, Seq::empty()), edges, labels);
        assert forall|acc: SubState, i: int| 0 <= i < walk.len() implies adds(acc, #[trigger] step(acc, walk[i]), base, label_roles(labels), label_events(labels)) by {
            lemma_exact_node(with_protocols(c, Seq::empty()), edges, labels, acc, walk[i], base);
        }
        lemma_fold_adds(walk, (t, true), step, base, label_roles(labels), label_events(labels), walk.len() as int);
    }
}

/// The rounds of the rules of well-formedness end because a round brings
/// nothing new: a further round leaves the subscription that they end with
/// as it is.
pub proof fn lemma_exact_settles(c: ProtoInfoView, nodes: nat, edges: Seq<(usize, usize)>, labels: Seq<LabelKey>, initial: usize, base: Subs)
    requires
        base.dom().finite(),
        edges.len() == labels.len(),
        labels.len() <= usize::MAX,
        base.dom().len() + edges.len() <= u64::MAX,
    ensures
        settled(exact_round_of(c, nodes, edges, labels, initial), until_stable(exact_round_of(c, nodes, edges, labels, initial), base, sub_fuel(base.dom().len(), edges.len()))),
        within(until_stable(exact_round_of(c, nodes, edges, labels, initial), base, sub_fuel(base.dom().len(), edges.len())), base, label_roles(labels), label_events(labels)),
{
    broadcast use group_set_properties;

    let keys = label_roles(labels);
    let items = label_events(labels);
    lemma_label_sets(labels);
    let round = exact_round_of(c, nodes, edges, labels, initial);
    assert forall|t: Subs| adds((t, true), #[trigger] round(t), base, keys, items) by {
        lemma_exact_round(c, nodes, edges, labels, initial, t, base);
    }
    assert(grown(base, base));
    lemma_len_union(base.dom(), keys);
    let d = base.dom().union(keys).len();
    let m = items.len() + (if keys.len() > 0 { 1nat } else { 0nat });
    let r = base.dom().len() + edges.len();
    let k = edges.len() + 1;
    assert(d * m <= r * k) by (nonlinear_arith)
        requires
            d <= r,
            m <= k,
    ;
    lemma_until_stable(round, base, base, keys, items, sub_fuel(base.dom().len(), edges.len()));
}

/// The labels that are active after a transition carry event types of
/// the graph.
pub proof fn lemma_active_events(ids: Seq<usize>, labels: Seq<LabelKey>, et: Seq<char>, conc: Set<Seq<Seq<char>>>, upto: int)
    requires
        forall|i: int| 0 <= i < ids.len() ==> #[trigger] ids[i] < labels.len(),
        0 <= upto <= ids.len(),
    ensures
        forall|i: int| 0 <= i < fold_upto(ids, Seq::<LabelKey>::empty(), active_step(labels, et, conc), upto).len() ==> label_events(labels).contains(
            (#[trigger] fold_upto(ids, Seq::<LabelKey>::empty(), active_step(labels, et, conc), upto)[i]).1[0],
        ),
    decreases upto,
{
    if upto > 0 {
        lemma_active_events(ids, labels, et, conc, upto - 1);
        let e = ids[upto - 1];
        let before = fold_upto(ids, Seq::<LabelKey>::empty(), active_step(labels, et, conc), upto - 1);
        let after = fold_upto(ids, Seq::<LabelKey>::empty(), active_step(labels, et, conc), upto);
        assert forall|i: int| 0 <= i < after.len() implies label_events(labels).contains((#[trigger] after[i]).1[0]) by {
            if i < before.len() {
                assert(after[i] == before[i]);
            } else {
                assert(after[i] == labels[e as int]);
                assert(event_at(labels, (e as int) as usize) == after[i].1[0]);
            }
        }
    }
}

/// What a transition tells of the event types that follow its own only
/// adds event types of the graph.
pub proof fn lemma_succ_edge(edges: Seq<(usize, usize)>, labels: Seq<LabelKey>, conc: Set<Seq<Seq<char>>>, st: (SuccMap, bool), e: usize)
    requires
        edges.len() == labels.len(),
        labels.len() <= usize::MAX,
        e < labels.len(),
    ensures
        adds(st, succ_edge_step(edges, labels, conc)(st, e), Map::<Seq<char>, Set<Seq<char>>>::empty(), label_events(labels), label_events(labels)),
{
    let base = Map::<Seq<char>, Set<Seq<char>>>::empty();
    let items = label_events(labels);
    if within(st.0, base, items, items) {
        let et = event_at(labels, e);
        assert(event_at(labels, (e as int) as usize) == et);
        let target = edges[e as int].1;
        let ids = edges_from(edges, target);
        lemma_edge_ids_at(edges, target, true, edges.len() as int);
        let act = active_not_conc(edges, labels, target, et, conc);
        lemma_active_events(ids, labels, et, conc, ids.len() as int);
        let add = with_successors(st.0, act, act.len() as int);
        assert(add.subset_of(items)) by {
            assert forall|x: Seq<char>| add.contains(x) implies items.contains(x) by {
                let i = choose|i: int| 0 <= i < act.len() && i < act.len() && (#[trigger] act[i].1[0] == x || succ_of(st.0, act[i].1[0]).contains(x));
                if act[i].1[0] != x {
                    assert(st.0.dom().contains(act[i].1[0]));
                    assert(st.0[act[i].1[0]].contains(x));
                }
            }
        }
        lemma_add_at(st, et, add, base, items, items);
        let r = succ_edge_step(edges, labels, conc)(st, e);
        if st.0.dom().contains(et) && add.subset_of(st.0[et]) {
            assert(st.0[et].union(add) =~= st.0[et]);
            assert(add_at(st, et, add).0 =~= st.0);
        } else {
            assert(r.0 =~= add_at(st, et, add).0);
            if st.1 {
                assert(r == add_at(st, et, add));
            } else {
                assert(r == add_at(st, et, add));
            }
        }
    }
}

/// What the transitions that leave a node tell of followers only adds
/// event types of the graph.
pub proof fn lemma_succ_node(edges: Seq<(usize, usize)>, labels: Seq<LabelKey>, conc: Set<Seq<Seq<char>>>, st: (SuccMap, bool), n: usize)
    requires
        edges.len() == labels.len(),
        labels.len() <= usize::MAX,
    ensures
        adds(st, succ_node_step(edges, labels, conc)(st, n), Map::<Seq<char>, Set<Seq<char>>>::empty(), label_events(labels), label_events(labels)),
{
    let ids = edges_from(edges, n);
    lemma_edge_ids_at(edges, n, true, edges.len() as int);
    let step = succ_edge_step(edges, labels, conc);
    assert forall|acc: (SuccMap, bool), i: int| 0 <= i < ids.len() implies adds(acc, #[trigger] step(acc, ids[i]), Map::<Seq<char>, Set<Seq<char>>>::empty(), label_events(labels), label_events(labels)) by {
        lemma_succ_edge(edges, labels, conc, acc, ids[i]);
    }
    lemma_fold_adds(ids, st, step, Map::<Seq<char>, Set<Seq<char>>>::empty(), label_events(labels), label_events(labels), ids.len() as int);
}

/// The rounds in which followers are found end because a round brings
/// nothing new: a further round leaves the map that they end with as it
/// is.
pub proof fn lemma_succ_settles(nodes: nat, edges: Seq<(usize, usize)>, labels: Seq<LabelKey>, initial: usize, conc: Set<Seq<Seq<char>>>)
    requires
        edges.len() == labels.len(),
        labels.len() <= usize::MAX,
    ensures
        settled(succ_round_of(nodes, edges, labels, initial, conc), until_stable(succ_round_of(nodes, edges, labels, initial, conc), Map::<Seq<char>, Set<Seq<char>>>::empty(), succ_fuel(edges))),
{
    broadcast use group_set_properties;

    let base = Map::<Seq<char>, Set<Seq<char>>>::empty();
    let items = label_events(labels);
    lemma_label_sets(labels);
    let round = succ_round_of(nodes, edges, labels, initial, conc);
    assert forall|t: SuccMap| adds((t, true), #[trigger] round(t), base, items, items) by {
        if initial >= nodes {
            assert(grown(t, t));
        } else {
            let walk = dfs_post_order(nodes, edges, initial);
            let step = succ_node_step(edges, labels, conc);
            assert forall|acc: (SuccMap, bool), i: int| 0 <= i < walk.len() implies adds(acc, #[trigger] step(acc, walk[i]), base, items, items) by {
                lemma_succ_node(edges, labels, conc, acc, walk[i]);
            }
            lemma_fold_adds(walk, (t, true), step, base, items, items, walk.len() as int);
        }
    }
    assert(grown(base, base));
    assert(within(base, base, items, items));
    assert(base.dom().union(items) =~= items);
    let d = items.len();
    let m = items.len() + (if items.len() > 0 { 1nat } else { 0nat });
    let k = edges.len();
    assert(d * m <= k * (k + 1)) by (nonlinear_arith)
        requires
            d <= k,
            m <= k + 1,
    ;
    lemma_until_stable(round, base, base, items, items, succ_fuel(edges));
}

/// Whether a round of rules leaves a subscription as it is.
pub open spec fn settled(round: spec_fn(Subs) -> SubState, subs: Subs) -> bool {
    round(subs) == (subs, true)
}

} // verus!
