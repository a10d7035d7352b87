//! What the rule on loops without an end gives to a role cannot be spared,
//! where the loop has no way into another loop without an end.
use crate::composition::composition_swarm::{
    all_observe, and_after, check_report, composed_info, composition, exact_settling, exact_sub, has_errors, involved_roles, looping_step, report_empty, report_of, share_one, swarm_info,
    wf_checked, wf_errors, LabelKey, Subs, SuccMap,
};
use crate::composition::follows::{lemma_followers_transitive, transitive, Ground};
use crate::composition::rounds::{label_events, label_roles, lemma_exact_settles, lemma_involved, lemma_label_sets, lemma_within_finite};
use crate::composition::sound::{emitted_on_walk, lemma_given, lemma_involved_iff, lemma_loop_found, lemma_sharing, observes_after, sharing};
use crate::names::{EventType, Role};
use crate::ordmap::set_at;
use crate::ordset::{lemma_sorted_of, sorted};
use crate::seqs::{fold, fold_upto};
use vstd::prelude::*;

verus! {

/// The subscription after the rule on loops has taken in the first event
/// types of a list.
pub open spec fn looped(succ: SuccMap, x: Subs, loops: Seq<Seq<char>>, upto: int) -> Subs {
    fold_upto(loops, x, looping_step(succ), upto)
}

/// Whether the rule on loops gives the event type at a position to the
/// roles involved after it: they share no event type of the loop when its
/// turn comes.
pub open spec fn gives(succ: SuccMap, x: Subs, loops: Seq<Seq<char>>, j: int) -> bool {
    !share_one(and_after(succ, loops[j]), involved_roles(loops[j], succ, x), looped(succ, x, loops, j))
}

/// Whether the rule on loops gives an event type to a role at one of the
/// first positions.
pub open spec fn given_at(succ: SuccMap, x: Subs, loops: Seq<Seq<char>>, upto: int, r: Seq<char>, w: Seq<char>) -> bool {
    exists|j: int| 0 <= j < upto && loops[j] == w && #[trigger] gives(succ, x, loops, j) && involved_roles(w, succ, x).contains(r)
}

/// What holds of the subscription while the rule on loops is applied: what
/// a role observes beyond what it observed before, the rule has given to
/// it; and what the rule gives, each role involved observes from then on.
pub open spec fn gifts(succ: SuccMap, x: Subs, loops: Seq<Seq<char>>, upto: int) -> bool {
    let s = looped(succ, x, loops, upto);
    &&& s.dom() == x.dom()
    &&& forall|r: Seq<char>, w: Seq<char>| x.dom().contains(r) && #[trigger] s[r].contains(w) && !x[r].contains(w) ==> given_at(succ, x, loops, upto, r, w)
    &&& forall|j: int, r: Seq<char>| 0 <= j < upto && gives(succ, x, loops, j) && involved_roles(loops[j], succ, x).contains(r) ==> #[trigger] s[r].contains(loops[j])
}

/// One turn of the rule on loops: the roles involved are those that were
/// involved at the start, and each of them is given the event type unless
/// they share one.
proof fn lemma_loop_step(succ: SuccMap, x: Subs, s: Subs, done: Seq<Seq<char>>, t: Seq<char>)
    requires
        x.dom().finite(),
        transitive(succ),
        sharing(succ, x, s, done),
    ensures
        involved_roles(t, succ, s) == involved_roles(t, succ, x),
        looping_step(succ)(s, t).dom() == s.dom(),
        forall|r: Seq<char>|
            s.dom().contains(r) ==> #[trigger] looping_step(succ)(s, t)[r] == if !share_one(and_after(succ, t), involved_roles(t, succ, x), s) && involved_roles(t, succ, x).contains(r) {
                s[r].insert(t)
            } else {
                s[r]
            },
{
    let after = looping_step(succ)(s, t);
    let involved = involved_roles(t, succ, s);
    let involved_x = involved_roles(t, succ, x);
    assert(involved =~= involved_x) by {
        assert forall|r: Seq<char>| involved.contains(r) <==> involved_x.contains(r) by {
            lemma_involved_iff(t, succ, s, r);
            lemma_involved_iff(t, succ, x, r);
            if observes_after(succ, x, t, r) {
                let w = choose|w: Seq<char>| #[trigger] x[r].contains(w) && and_after(succ, t).contains(w);
                assert(x[r].subset_of(s[r]));
                assert(s[r].contains(w));
            }
        }
    }
    if !share_one(and_after(succ, t), involved, s) {
        lemma_involved(t, succ, s);
        lemma_sorted_of::<Role>(involved);
        let list = sorted::<Role>(involved);
        assert forall|i: int| 0 <= i < list.len() implies s.dom().contains(#[trigger] list[i]) by {
            assert(list.to_set().contains(list[i]));
        }
        lemma_given(list, s, t, list.len() as int);
        assert forall|r: Seq<char>| s.dom().contains(r) implies #[trigger] after[r] == if involved.contains(r) {
            s[r].insert(t)
        } else {
            s[r]
        } by {
            if involved.contains(r) {
                assert(list.to_set().contains(r));
                let i = choose|i: int| 0 <= i < list.len() && list[i] == r;
                assert(0 <= i < list.len() && list[i] == r);
            }
            if exists|i: int| 0 <= i < list.len() && #[trigger] list[i] == r {
                let i = choose|i: int| 0 <= i < list.len() && #[trigger] list[i] == r;
                assert(list.to_set().contains(list[i]));
            }
        }
    }
}

/// The rule on loops has taken in the first event types: what is new, it
/// has given, and what it gives stays.
proof fn lemma_gifts(succ: SuccMap, x: Subs, loops: Seq<Seq<char>>, upto: int)
    requires
        x.dom().finite(),
        transitive(succ),
        0 <= upto <= loops.len(),
    ensures
        gifts(succ, x, loops, upto),
        sharing(succ, x, looped(succ, x, loops, upto), loops.take(upto)),
    decreases upto,
{
    lemma_sharing(succ, x, loops, upto);
    if upto > 0 {
        lemma_gifts(succ, x, loops, upto - 1);
        let before = looped(succ, x, loops, upto - 1);
        let s = looped(succ, x, loops, upto);
        let t = loops[upto - 1];
        lemma_loop_step(succ, x, before, loops.take(upto - 1), t);
        assert(s == looping_step(succ)(before, t));
        let involved = involved_roles(t, succ, x);
        lemma_involved(t, succ, x);
        assert forall|r: Seq<char>, w: Seq<char>| x.dom().contains(r) && #[trigger] s[r].contains(w) && !x[r].contains(w) implies given_at(succ, x, loops, upto, r, w) by {
            if before[r].contains(w) {
                assert(given_at(succ, x, loops, upto - 1, r, w));
                let j = choose|j: int| 0 <= j < upto - 1 && loops[j] == w && #[trigger] gives(succ, x, loops, j) && involved_roles(w, succ, x).contains(r);
                assert(0 <= j < upto && loops[j] == w && gives(succ, x, loops, j) && involved_roles(w, succ, x).contains(r));
            } else {
                assert(s[r] == before[r].insert(t));
                assert(w == t);
                assert(gives(succ, x, loops, upto - 1));
            }
        }
        assert forall|j: int, r: Seq<char>| 0 <= j < upto && gives(succ, x, loops, j) && involved_roles(loops[j], succ, x).contains(r) implies #[trigger] s[r].contains(loops[j]) by {
            lemma_involved(loops[j], succ, x);
            assert(before.dom().contains(r));
            if j < upto - 1 {
                assert(before[r].contains(loops[j]));
            } else {
                assert(s[r] == before[r].insert(t));
            }
        }
    }
}

/// Whether each event type on a loop without an end that follows an event
/// type is followed by it: the loop of the event type has no way into
/// another loop without an end.
pub open spec fn loop_without_exit(succ: SuccMap, looping: Set<Seq<char>>, t: Seq<char>) -> bool {
    forall|w: Seq<char>| #[trigger] looping.contains(w) && and_after(succ, t).contains(w) ==> and_after(succ, w).contains(t)
}

/// A subscription without an event type for a role.
pub open spec fn without(y: Subs, r: Seq<char>, t: Seq<char>) -> Subs {
    y.insert(r, y[r].remove(t))
}

/// Where the rule on loops has given an event type to a role, the roles
/// involved after the event type share no event type of the loop once the
/// role is without it, if the loop has no way into another loop without an
/// end.
pub proof fn lemma_gift_needed(succ: SuccMap, x: Subs, looping: Set<Seq<char>>, r: Seq<char>, t: Seq<char>)
    requires
        x.dom().finite(),
        looping.finite(),
        transitive(succ),
        x.dom().contains(r),
        fold(sorted::<EventType>(looping), x, looping_step(succ))[r].contains(t),
        !x[r].contains(t),
        loop_without_exit(succ, looping, t),
    ensures
        looping.contains(t),
        !share_one(and_after(succ, t), involved_roles(t, succ, without(fold(sorted::<EventType>(looping), x, looping_step(succ)), r, t)), without(fold(sorted::<EventType>(looping), x, looping_step(succ)), r, t)),
{
    let loops = sorted::<EventType>(looping);
    lemma_sorted_of::<EventType>(looping);
    let n = loops.len() as int;
    let y = fold(loops, x, looping_step(succ));
    let z = without(y, r, t);
    lemma_gifts(succ, x, loops, n);
    assert(y == looped(succ, x, loops, n));
    assert(loops.take(n) =~= loops);
    assert(given_at(succ, x, loops, n, r, t));
    let jt = choose|j: int| 0 <= j < n && loops[j] == t && #[trigger] gives(succ, x, loops, j) && involved_roles(t, succ, x).contains(r);
    assert(loops.to_set().contains(loops[jt]));
    let all = involved_roles(t, succ, x);
    lemma_involved(t, succ, x);
    assert(z.dom() =~= x.dom());
    assert(involved_roles(t, succ, z) =~= all) by {
        assert forall|q: Seq<char>| involved_roles(t, succ, z).contains(q) <==> all.contains(q) by {
            lemma_involved_iff(t, succ, z, q);
            lemma_involved_iff(t, succ, x, q);
            lemma_involved_iff(t, succ, y, q);
            if observes_after(succ, x, t, q) {
                let v = choose|v: Seq<char>| #[trigger] x[q].contains(v) && and_after(succ, t).contains(v);
                assert(x[q].subset_of(y[q]));
                assert(z[q].contains(v));
            }
            if observes_after(succ, z, t, q) {
                let v = choose|v: Seq<char>| #[trigger] z[q].contains(v) && and_after(succ, t).contains(v);
                assert(y[q].contains(v));
                assert(observes_after(succ, y, t, q));
            }
        }
    }
    if share_one(and_after(succ, t), all, z) {
        let w = choose|w: Seq<char>| and_after(succ, t).contains(w) && all_observe(all, z, w);
        assert(set_at(z, r).contains(w));
        assert(w != t);
        let at_t = looped(succ, x, loops, jt);
        lemma_gifts(succ, x, loops, jt);
        assert(!all_observe(all, at_t, w));
        let q = choose|q: Seq<char>| all.contains(q) && !(#[trigger] set_at(at_t, q)).contains(w);
        assert(x.dom().contains(q));
        assert(set_at(z, q).contains(w));
        assert(y[q].contains(w));
        assert(x[q].subset_of(at_t[q]));
        assert(!x[q].contains(w));
        assert(given_at(succ, x, loops, n, q, w));
        let jw = choose|j: int| 0 <= j < n && loops[j] == w && #[trigger] gives(succ, x, loops, j) && involved_roles(w, succ, x).contains(q);
        assert(loops.to_set().contains(loops[jw]));
        if jw < jt {
            assert(at_t[q].contains(loops[jw]));
        } else {
            let at_w = looped(succ, x, loops, jw);
            lemma_gifts(succ, x, loops, jw);
            let those = involved_roles(w, succ, x);
            assert(and_after(succ, w).contains(t));
            assert(set_at(succ, t).contains(w));
            assert(set_at(succ, w).subset_of(set_at(succ, t)));
            lemma_involved(w, succ, x);
            assert forall|p: Seq<char>| those.contains(p) implies #[trigger] set_at(at_w, p).contains(t) by {
                lemma_involved_iff(w, succ, x, p);
                lemma_involved_iff(t, succ, x, p);
                let v = choose|v: Seq<char>| #[trigger] x[p].contains(v) && and_after(succ, w).contains(v);
                assert(and_after(succ, t).contains(v));
                assert(all.contains(p));
                assert(at_w[p].contains(loops[jt]));
            }
            assert(all_observe(those, at_w, t));
            assert(share_one(and_after(succ, w), those, at_w));
        }
    }
}

/// The check of the composition of some protocols finds something against
/// the smallest well-formed subscription once a role is without an event
/// type that the rule on loops gave to it, if the loop has no way into
/// another loop without an end and a transition of the composition emits
/// the event type: what is given for such a loop cannot be spared.
pub proof fn lemma_exact_loop_gift_is_needed(protos: Seq<(Seq<char>, Seq<(LabelKey, Seq<char>, Seq<char>)>)>, r: Seq<char>, t: Seq<char>)
    requires
        !has_errors(swarm_info(protos)),
        composition(swarm_info(protos)).initial < composition(swarm_info(protos)).nodes.len(),
        composition(swarm_info(protos)).edges.len() == composition(swarm_info(protos)).labels.len(),
        composition(swarm_info(protos)).labels.len() <= usize::MAX,
        composition(swarm_info(protos)).edges.len() <= u64::MAX,
        composed_info(swarm_info(protos)).infinitely_looping_events.finite(),
        emitted_on_walk(composition(swarm_info(protos)).nodes.len(), composition(swarm_info(protos)).edges, composition(swarm_info(protos)).labels, composition(swarm_info(protos)).initial, t),
        exact_sub(composed_info(swarm_info(protos)), 0, Map::empty()).dom().contains(r),
        exact_sub(composed_info(swarm_info(protos)), 0, Map::empty())[r].contains(t),
        !set_at(exact_settling(composed_info(swarm_info(protos)), 0, Map::empty()), r).contains(t),
        loop_without_exit(composed_info(swarm_info(protos)).succeeding_events, composed_info(swarm_info(protos)).infinitely_looping_events, t),
    ensures
        !report_empty(check_report(protos, without(exact_sub(composed_info(swarm_info(protos)), 0, Map::empty()), r, t))),
{
    let c = swarm_info(protos);
    let g = composition(c);
    let cc = composed_info(c);
    let p = cc.protocols[0];
    let none = Map::<Seq<char>, Set<Seq<char>>>::empty();
    let ground = Ground { nodes: g.nodes.len(), edges: g.edges, labels: g.labels, initial: g.initial, conc: c.concurrent_events };
    lemma_followers_transitive(ground);
    assert(none.dom() =~= Set::<Seq<char>>::empty());
    lemma_exact_settles(cc, p.nodes.len(), p.edges, p.labels, g.initial, none);
    let x = exact_settling(cc, 0, none);
    lemma_label_sets(p.labels);
    lemma_within_finite(x, none, label_roles(p.labels), label_events(p.labels));
    let succ = cc.succeeding_events;
    let ex = exact_sub(cc, 0, none);
    let loops = sorted::<EventType>(cc.infinitely_looping_events);
    lemma_sorted_of::<EventType>(cc.infinitely_looping_events);
    lemma_sharing(succ, x, loops, loops.len() as int);
    assert(ex == fold(loops, x, looping_step(succ)));
    assert(x.dom().contains(r));
    lemma_gift_needed(succ, x, cc.infinitely_looping_events, r, t);
    let z = without(ex, r, t);
    lemma_loop_found(cc, z, t);
    let checked = wf_checked(cc, z);
    let report = check_report(protos, z);
    assert(report == report_of(checked));
    assert(checked.protocols[0].errors =~= wf_errors(cc, 0, z));
    assert(report[0].errors.len() > 0);
}

} // verus!
