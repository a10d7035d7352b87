//! The event types that may follow an event type in a machine: what the
//! walk through the machine meets, said directly.
use crate::composition::composition_machine::{following, lemma_following, walk_edge_step, walk_run, Walk};
use crate::composition::composition_types::{pair_key, EventLabel};
use crate::seqs::{fold, fold_upto};
use crate::topology::{edges_from, lemma_edge_ids_at};
use crate::types::{MachineLabel, MachineLabelView};
use vstd::prelude::*;

verus! {

/// The event type of a transition of a machine.
pub open spec fn event_on(labels: Seq<MachineLabelView>, e: int) -> Seq<char> {
    MachineLabel::event_of(labels[e])
}

/// Whether a transition whose event type is not special leads from the
/// state at a position of a sequence to the next.
pub open spec fn open_at(edges: Seq<(usize, usize)>, labels: Seq<MachineLabelView>, special: Set<Seq<char>>, p: Seq<usize>, t: int) -> bool {
    exists|e: int| 0 <= e < edges.len() && #[trigger] edges[e] == (p[t], p[t + 1]) && !special.contains(event_on(labels, e))
}

/// Whether a sequence of states is a way by transitions whose event types
/// are not special.
pub open spec fn open_way(edges: Seq<(usize, usize)>, labels: Seq<MachineLabelView>, special: Set<Seq<char>>, p: Seq<usize>) -> bool {
    p.len() >= 1 && forall|t: int| 0 <= t < p.len() - 1 ==> #[trigger] open_at(edges, labels, special, p, t)
}

/// Whether a state is reached from another by transitions whose event
/// types are not special, or is that state.
pub open spec fn openly(edges: Seq<(usize, usize)>, labels: Seq<MachineLabelView>, special: Set<Seq<char>>, a: usize, b: usize) -> bool {
    exists|p: Seq<usize>| #[trigger] open_way(edges, labels, special, p) && p[0] == a && p.last() == b
}

/// Whether an event type may follow another from a state on: it is not
/// concurrent with the other, and a transition emits it that leaves the
/// state or a state reached from it by transitions whose event types are
/// not special.
pub open spec fn may_follow(edges: Seq<(usize, usize)>, labels: Seq<MachineLabelView>, start: usize, et: Seq<char>, special: Set<Seq<char>>, conc: Set<Seq<Seq<char>>>, x: Seq<char>) -> bool {
    exists|e: int| 0 <= e < edges.len() && #[trigger] event_on(labels, e) == x && !conc.contains(pair_key(x, et)) && openly(edges, labels, special, start, edges[e].0)
}

/// Whether a transition of a visited state has been dealt with: its event
/// type has been met unless it is concurrent with the given one, and its
/// target has been visited or waits unless the event type is special.
pub open spec fn passed(edges: Seq<(usize, usize)>, labels: Seq<MachineLabelView>, et: Seq<char>, special: Set<Seq<char>>, conc: Set<Seq<Seq<char>>>, st: Walk, x: usize, i: int) -> bool {
    let e = edges_from(edges, x)[i] as int;
    let ev = event_on(labels, e);
    &&& conc.contains(pair_key(ev, et)) || st.events.contains(ev)
    &&& special.contains(ev) || st.visited.contains(edges[e].1) || st.stack.contains(edges[e].1)
}

/// Whether the transition at a position among those of a state is due.
pub open spec fn awaited(mid: Option<(usize, int)>, x: usize, i: int) -> bool {
    match mid {
        None => true,
        Some((cur, done)) => x != cur || i < done,
    }
}

/// What holds of the walk while it goes: the states visited or waiting
/// are reached openly from the start, which is one of them; each event type
/// met may follow; and each transition that is due of a visited state has
/// been dealt with.
pub open spec fn walking(edges: Seq<(usize, usize)>, labels: Seq<MachineLabelView>, start: usize, et: Seq<char>, special: Set<Seq<char>>, conc: Set<Seq<Seq<char>>>, st: Walk, mid: Option<(usize, int)>) -> bool {
    &&& st.visited.contains(start) || st.stack.contains(start)
    &&& forall|x: usize| #[trigger] st.visited.contains(x) ==> openly(edges, labels, special, start, x)
    &&& forall|i: int| 0 <= i < st.stack.len() ==> openly(edges, labels, special, start, #[trigger] st.stack[i])
    &&& forall|x: Seq<char>| #[trigger] st.events.contains(x) ==> may_follow(edges, labels, start, et, special, conc, x)
    &&& match mid {
        None => true,
        Some((cur, done)) => st.visited.contains(cur),
    }
    &&& forall|x: usize, i: int| st.visited.contains(x) && 0 <= i < edges_from(edges, x).len() && awaited(mid, x, i) ==> #[trigger] passed(edges, labels, et, special, conc, st, x, i)
}

/// An open way with an open transition after it is an open way.
proof fn lemma_open_more(edges: Seq<(usize, usize)>, labels: Seq<MachineLabelView>, special: Set<Seq<char>>, a: usize, e: int)
    requires
        0 <= e < edges.len(),
        !special.contains(event_on(labels, e)),
        openly(edges, labels, special, a, edges[e].0),
    ensures
        openly(edges, labels, special, a, edges[e].1),
{
    let p = choose|p: Seq<usize>| #[trigger] open_way(edges, labels, special, p) && p[0] == a && p.last() == edges[e].0;
    let q = p.push(edges[e].1);
    assert forall|t: int| 0 <= t < q.len() - 1 implies #[trigger] open_at(edges, labels, special, q, t) by {
        if t < p.len() - 1 {
            assert(open_at(edges, labels, special, p, t));
            let f = choose|f: int| 0 <= f < edges.len() && #[trigger] edges[f] == (p[t], p[t + 1]) && !special.contains(event_on(labels, f));
            assert(edges[f] == (q[t], q[t + 1]));
        } else {
            assert(edges[e] == (q[t], q[t + 1]));
        }
    }
    assert(open_way(edges, labels, special, q) && q[0] == a && q.last() == edges[e].1);
}

/// A transition of the state under visit is taken in.
proof fn lemma_walk_edge(edges: Seq<(usize, usize)>, labels: Seq<MachineLabelView>, start: usize, et: Seq<char>, special: Set<Seq<char>>, conc: Set<Seq<Seq<char>>>, st: Walk, cur: usize, j: int)
    requires
        edges.len() <= usize::MAX,
        walking(edges, labels, start, et, special, conc, st, Some((cur, j))),
        0 <= j < edges_from(edges, cur).len(),
    ensures
        walking(edges, labels, start, et, special, conc, walk_edge_step(edges, labels, et, special, conc)(st, edges_from(edges, cur)[j]), Some((cur, j + 1))),
{
    let ids = edges_from(edges, cur);
    lemma_edge_ids_at(edges, cur, true, edges.len() as int);
    let e = ids[j];
    let r = walk_edge_step(edges, labels, et, special, conc)(st, e);
    let ev = event_on(labels, e as int);
    let target = edges[e as int].1;
    assert(edges[e as int].0 == cur);
    assert forall|x: Seq<char>| #[trigger] r.events.contains(x) implies may_follow(edges, labels, start, et, special, conc, x) by {
        if !st.events.contains(x) {
            assert(x == ev);
            assert(event_on(labels, e as int) == x && !conc.contains(pair_key(x, et)) && openly(edges, labels, special, start, edges[e as int].0));
        }
    }
    assert forall|x: usize| st.stack.contains(x) implies r.stack.contains(x) by {
        let i = choose|i: int| 0 <= i < st.stack.len() && st.stack[i] == x;
        assert(r.stack[i] == x);
    }
    if !special.contains(ev) && !st.visited.contains(target) {
        lemma_open_more(edges, labels, special, start, e as int);
        assert(r.stack[st.stack.len() as int] == target);
        assert forall|i: int| 0 <= i < r.stack.len() implies openly(edges, labels, special, start, #[trigger] r.stack[i]) by {
            if i < st.stack.len() {
                assert(r.stack[i] == st.stack[i]);
            }
        }
    }
    assert forall|x: usize, i: int| r.visited.contains(x) && 0 <= i < edges_from(edges, x).len() && awaited(Some((cur, j + 1)), x, i) implies #[trigger] passed(edges, labels, et, special, conc, r, x, i) by {
        if x == cur && i == j {
        } else {
            assert(awaited(Some((cur, j)), x, i));
            assert(passed(edges, labels, et, special, conc, st, x, i));
        }
    }
}

/// The first transitions of the state under visit are taken in.
proof fn lemma_walk_edges(edges: Seq<(usize, usize)>, labels: Seq<MachineLabelView>, start: usize, et: Seq<char>, special: Set<Seq<char>>, conc: Set<Seq<Seq<char>>>, st: Walk, cur: usize, upto: int)
    requires
        edges.len() <= usize::MAX,
        walking(edges, labels, start, et, special, conc, st, Some((cur, 0int))),
        0 <= upto <= edges_from(edges, cur).len(),
    ensures
        walking(edges, labels, start, et, special, conc, fold_upto(edges_from(edges, cur), st, walk_edge_step(edges, labels, et, special, conc), upto), Some((cur, upto))),
    decreases upto,
{
    if upto > 0 {
        lemma_walk_edges(edges, labels, start, et, special, conc, st, cur, upto - 1);
        let before = fold_upto(edges_from(edges, cur), st, walk_edge_step(edges, labels, et, special, conc), upto - 1);
        lemma_walk_edge(edges, labels, start, et, special, conc, before, cur, upto - 1);
    }
}

/// The walk after some visits goes as it should.
proof fn lemma_walk_run(edges: Seq<(usize, usize)>, labels: Seq<MachineLabelView>, start: usize, et: Seq<char>, special: Set<Seq<char>>, conc: Set<Seq<Seq<char>>>, visits: nat)
    requires
        edges.len() <= usize::MAX,
    ensures
        walking(edges, labels, start, et, special, conc, walk_run(edges, labels, start, et, special, conc, visits), None),
    decreases visits,
{
    let st = walk_run(edges, labels, start, et, special, conc, visits);
    if visits == 0 {
        let p = seq![start];
        assert(open_way(edges, labels, special, p) && p[0] == start && p.last() == start);
        assert(st.stack[0] == start);
    } else {
        lemma_walk_run(edges, labels, start, et, special, conc, (visits - 1) as nat);
        let before = walk_run(edges, labels, start, et, special, conc, (visits - 1) as nat);
        if before.stack.len() > 0 {
            let cur = before.stack.last();
            let top = before.stack.len() - 1;
            assert(before.stack[top] == cur);
            let popped = Walk { stack: before.stack.drop_last(), visited: before.visited.insert(cur), events: before.events };
            assert forall|x: usize| before.stack.contains(x) implies popped.stack.contains(x) || x == cur by {
                let i = choose|i: int| 0 <= i < before.stack.len() && before.stack[i] == x;
                if i < top {
                    assert(popped.stack[i] == x);
                }
            }
            assert forall|i: int| 0 <= i < popped.stack.len() implies openly(edges, labels, special, start, #[trigger] popped.stack[i]) by {
                assert(popped.stack[i] == before.stack[i]);
            }
            assert forall|x: usize, i: int| popped.visited.contains(x) && 0 <= i < edges_from(edges, x).len() && awaited(Some((cur, 0int)), x, i) implies #[trigger] passed(edges, labels, et, special, conc, popped, x, i) by {
                assert(x != cur);
                assert(before.visited.contains(x));
                assert(awaited(None::<(usize, int)>, x, i));
                assert(passed(edges, labels, et, special, conc, before, x, i));
            }
            let ids = edges_from(edges, cur);
            lemma_walk_edges(edges, labels, start, et, special, conc, popped, cur, ids.len() as int);
            assert(st == fold(ids, popped, walk_edge_step(edges, labels, et, special, conc)));
            assert forall|x: usize, i: int| st.visited.contains(x) && 0 <= i < edges_from(edges, x).len() && awaited(None::<(usize, int)>, x, i) implies #[trigger] passed(edges, labels, et, special, conc, st, x, i) by {
                assert(awaited(Some((cur, ids.len() as int)), x, i));
            }
        }
    }
}

/// Where the walk has ended, each state that is reached openly from the
/// start has been visited.
proof fn lemma_all_visited(edges: Seq<(usize, usize)>, labels: Seq<MachineLabelView>, start: usize, et: Seq<char>, special: Set<Seq<char>>, conc: Set<Seq<Seq<char>>>, st: Walk, p: Seq<usize>)
    requires
        edges.len() <= usize::MAX,
        walking(edges, labels, start, et, special, conc, st, None),
        st.stack.len() == 0,
        open_way(edges, labels, special, p),
        p[0] == start,
    ensures
        st.visited.contains(p.last()),
    decreases p.len(),
{
    if p.len() > 1 {
        let front = p.drop_last();
        assert forall|t: int| 0 <= t < front.len() - 1 implies #[trigger] open_at(edges, labels, special, front, t) by {
            assert(open_at(edges, labels, special, p, t));
            let f = choose|f: int| 0 <= f < edges.len() && #[trigger] edges[f] == (p[t], p[t + 1]) && !special.contains(event_on(labels, f));
            assert(edges[f] == (front[t], front[t + 1]));
        }
        lemma_all_visited(edges, labels, start, et, special, conc, st, front);
        let x = front.last();
        assert(x == p[p.len() - 2]);
        assert(open_at(edges, labels, special, p, p.len() - 2));
        let e = choose|e: int| 0 <= e < edges.len() && #[trigger] edges[e] == (p[p.len() - 2], p[p.len() - 2 + 1]) && !special.contains(event_on(labels, e));
        lemma_edge_ids_at(edges, x, true, edges.len() as int);
        assert(edges[e].0 == x);
        assert(edges_from(edges, x).contains(e as usize));
        let i = choose|i: int| 0 <= i < edges_from(edges, x).len() && edges_from(edges, x)[i] == e as usize;
        assert(awaited(None::<(usize, int)>, x, i));
        assert(passed(edges, labels, et, special, conc, st, x, i));
    }
}

/// Where the walk comes to an end, the event types that it meets are
/// exactly those that may follow: those that are not concurrent with the
/// given one and emitted by a transition that leaves the start or a state
/// reached from it by transitions whose event types are not special.
pub proof fn lemma_following_is(edges: Seq<(usize, usize)>, labels: Seq<MachineLabelView>, start: usize, et: Seq<char>, special: Set<Seq<char>>, conc: Set<Seq<Seq<char>>>, visits: nat, x: Seq<char>)
    requires
        edges.len() <= usize::MAX,
        walk_run(edges, labels, start, et, special, conc, visits).stack.len() == 0,
    ensures
        following(edges, labels, start, et, special, conc).contains(x) <==> may_follow(edges, labels, start, et, special, conc, x),
{
    lemma_following(edges, labels, start, et, special, conc, visits);
    lemma_walk_run(edges, labels, start, et, special, conc, visits);
    let st = walk_run(edges, labels, start, et, special, conc, visits);
    if may_follow(edges, labels, start, et, special, conc, x) {
        let e = choose|e: int| 0 <= e < edges.len() && #[trigger] event_on(labels, e) == x && !conc.contains(pair_key(x, et)) && openly(edges, labels, special, start, edges[e].0);
        let p = choose|p: Seq<usize>| #[trigger] open_way(edges, labels, special, p) && p[0] == start && p.last() == edges[e].0;
        lemma_all_visited(edges, labels, start, et, special, conc, st, p);
        let y = edges[e].0;
        lemma_edge_ids_at(edges, y, true, edges.len() as int);
        assert(edges_from(edges, y).contains(e as usize));
        let i = choose|i: int| 0 <= i < edges_from(edges, y).len() && edges_from(edges, y)[i] == e as usize;
        assert(awaited(None::<(usize, int)>, y, i));
        assert(passed(edges, labels, et, special, conc, st, y, i));
    }
}

} // verus!
