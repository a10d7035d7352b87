//! The search for the transitions that a role observes next: what it
//! finds, said directly.
use crate::composition::composition_machine::{interesting_edges, search_edge_step, search_run, Search};
use crate::composition::composition_swarm::{event_at, LabelKey};
use crate::seqs::{fold, fold_upto};
use crate::topology::{edges_from, lemma_edge_ids_at};
use vstd::prelude::*;

verus! {

/// Whether an edge with an event type that the role does not observe
/// leads from the node at a position of a sequence to the next.
pub open spec fn quiet_at(edges: Seq<(usize, usize)>, labels: Seq<LabelKey>, obs: Set<Seq<char>>, p: Seq<usize>, t: int) -> bool {
    exists|e: int| 0 <= e < edges.len() && #[trigger] edges[e] == (p[t], p[t + 1]) && !obs.contains(event_at(labels, e as usize))
}

/// Whether a sequence of nodes is a way by edges with event types that
/// the role does not observe.
pub open spec fn quiet_way(edges: Seq<(usize, usize)>, labels: Seq<LabelKey>, obs: Set<Seq<char>>, p: Seq<usize>) -> bool {
    p.len() >= 1 && forall|t: int| 0 <= t < p.len() - 1 ==> #[trigger] quiet_at(edges, labels, obs, p, t)
}

/// Whether a node is reached from another by edges with event types that
/// the role does not observe, or is that node.
pub open spec fn quietly(edges: Seq<(usize, usize)>, labels: Seq<LabelKey>, obs: Set<Seq<char>>, a: usize, b: usize) -> bool {
    exists|p: Seq<usize>| #[trigger] quiet_way(edges, labels, obs, p) && p[0] == a && p.last() == b
}

/// Whether an edge is one that the role observes next from a node: the
/// role observes its event type, and the edge leaves the node or a node
/// that is reached from it by edges with event types that the role does not
/// observe.
pub open spec fn seen_next(edges: Seq<(usize, usize)>, labels: Seq<LabelKey>, obs: Set<Seq<char>>, node: usize, e: usize) -> bool {
    e < edges.len() && obs.contains(event_at(labels, e)) && quietly(edges, labels, obs, node, edges[e as int].0)
}

/// Whether an edge that leaves a node has been dealt with: it is found if
/// the role observes its event type, else its target has been reached.
pub open spec fn dealt(edges: Seq<(usize, usize)>, labels: Seq<LabelKey>, obs: Set<Seq<char>>, st: Search, x: usize, i: int) -> bool {
    let e = edges_from(edges, x)[i];
    if obs.contains(event_at(labels, e)) {
        st.found.contains(e)
    } else {
        st.visited.contains(edges[e as int].1)
    }
}

/// Whether the edge at a position among those that leave a node is due
/// to be dealt with: not those of the node under visit that have not been
/// taken in.
pub open spec fn owed(mid: Option<(usize, int)>, x: usize, i: int) -> bool {
    match mid {
        None => true,
        Some((cur, done)) => x != cur || i < done,
    }
}

/// What holds of the search while it runs: the nodes reached are nodes
/// reached quietly from the start, finitely many; the nodes that wait have
/// been reached, none waits twice; each edge found is seen next; and each
/// edge that is due of a node that does not wait has been dealt with.
pub open spec fn searching(n: nat, edges: Seq<(usize, usize)>, labels: Seq<LabelKey>, obs: Set<Seq<char>>, node: usize, st: Search, mid: Option<(usize, int)>) -> bool {
    &&& st.visited.finite()
    &&& st.visited.contains(node)
    &&& forall|x: usize| #[trigger] st.visited.contains(x) ==> x < n && quietly(edges, labels, obs, node, x)
    &&& forall|i: int| 0 <= i < st.stack.len() ==> st.visited.contains(#[trigger] st.stack[i])
    &&& st.stack.no_duplicates()
    &&& forall|k: int| 0 <= k < st.found.len() ==> seen_next(edges, labels, obs, node, #[trigger] st.found[k])
    &&& match mid {
        None => true,
        Some((cur, done)) => st.visited.contains(cur) && !st.stack.contains(cur),
    }
    &&& forall|x: usize, i: int| st.visited.contains(x) && !st.stack.contains(x) && 0 <= i < edges_from(edges, x).len() && owed(mid, x, i) ==> #[trigger] dealt(edges, labels, obs, st, x, i)
}

/// A quiet way with a quiet edge after it is a quiet way.
proof fn lemma_quiet_more(edges: Seq<(usize, usize)>, labels: Seq<LabelKey>, obs: Set<Seq<char>>, a: usize, e: int)
    requires
        0 <= e < edges.len(),
        !obs.contains(event_at(labels, e as usize)),
        quietly(edges, labels, obs, a, edges[e].0),
    ensures
        quietly(edges, labels, obs, a, edges[e].1),
{
    let p = choose|p: Seq<usize>| #[trigger] quiet_way(edges, labels, obs, p) && p[0] == a && p.last() == edges[e].0;
    let q = p.push(edges[e].1);
    assert forall|t: int| 0 <= t < q.len() - 1 implies #[trigger] quiet_at(edges, labels, obs, q, t) by {
        if t < p.len() - 1 {
            assert(quiet_at(edges, labels, obs, p, t));
            let f = choose|f: int| 0 <= f < edges.len() && #[trigger] edges[f] == (p[t], p[t + 1]) && !obs.contains(event_at(labels, f as usize));
            assert(edges[f] == (q[t], q[t + 1]));
        } else {
            assert(edges[e] == (q[t], q[t + 1]));
        }
    }
    assert(quiet_way(edges, labels, obs, q) && q[0] == a && q.last() == edges[e].1);
}

/// An edge of the node under visit is taken in.
proof fn lemma_search_edge(n: nat, edges: Seq<(usize, usize)>, labels: Seq<LabelKey>, obs: Set<Seq<char>>, node: usize, st: Search, cur: usize, j: int)
    requires
        edges.len() <= usize::MAX,
        forall|e: int| 0 <= e < edges.len() ==> (#[trigger] edges[e]).1 < n,
        searching(n, edges, labels, obs, node, st, Some((cur, j))),
        0 <= j < edges_from(edges, cur).len(),
    ensures
        searching(n, edges, labels, obs, node, search_edge_step(edges, labels, obs)(st, edges_from(edges, cur)[j]), Some((cur, j + 1))),
        search_edge_step(edges, labels, obs)(st, edges_from(edges, cur)[j]).visited.len() - search_edge_step(edges, labels, obs)(st, edges_from(edges, cur)[j]).stack.len() == st.visited.len() - st.stack.len(),
{
    broadcast use vstd::set_lib::group_set_properties;

    let ids = edges_from(edges, cur);
    lemma_edge_ids_at(edges, cur, true, edges.len() as int);
    let e = ids[j];
    let r = search_edge_step(edges, labels, obs)(st, e);
    assert(edges[e as int].0 == cur);
    let target = edges[e as int].1;
    if obs.contains(event_at(labels, e)) {
        assert forall|k: int| 0 <= k < r.found.len() implies seen_next(edges, labels, obs, node, #[trigger] r.found[k]) by {
            if k < st.found.len() {
                assert(r.found[k] == st.found[k]);
            }
        }
        assert forall|x: usize, i: int| r.visited.contains(x) && !r.stack.contains(x) && 0 <= i < edges_from(edges, x).len() && owed(Some((cur, j + 1)), x, i) implies #[trigger] dealt(edges, labels, obs, r, x, i) by {
            if x == cur && i == j {
                assert(r.found[st.found.len() as int] == e);
            } else {
                assert(owed(Some((cur, j)), x, i));
                assert(dealt(edges, labels, obs, st, x, i));
                let f = edges_from(edges, x)[i];
                if obs.contains(event_at(labels, f)) {
                    let k = choose|k: int| 0 <= k < st.found.len() && st.found[k] == f;
                    assert(r.found[k] == f);
                }
            }
        }
    } else if st.visited.contains(target) {
        assert forall|x: usize, i: int| r.visited.contains(x) && !r.stack.contains(x) && 0 <= i < edges_from(edges, x).len() && owed(Some((cur, j + 1)), x, i) implies #[trigger] dealt(edges, labels, obs, r, x, i) by {
            if x == cur && i == j {
            } else {
                assert(owed(Some((cur, j)), x, i));
                assert(dealt(edges, labels, obs, st, x, i));
            }
        }
    } else {
        lemma_quiet_more(edges, labels, obs, node, e as int);
        assert forall|x: usize| #[trigger] r.visited.contains(x) implies x < n && quietly(edges, labels, obs, node, x) by {
            if x != target {
                assert(st.visited.contains(x));
            }
        }
        assert forall|i: int| 0 <= i < r.stack.len() implies r.visited.contains(#[trigger] r.stack[i]) by {
            if i < st.stack.len() {
                assert(r.stack[i] == st.stack[i]);
                assert(st.visited.contains(st.stack[i]));
            }
        }
        assert forall|a: int, b: int| 0 <= a < r.stack.len() && 0 <= b < r.stack.len() && a != b implies r.stack[a] != r.stack[b] by {
            if a < st.stack.len() && b < st.stack.len() {
                assert(st.stack[a] != st.stack[b]);
            } else if a < st.stack.len() {
                assert(st.visited.contains(st.stack[a]));
            } else {
                assert(st.visited.contains(st.stack[b]));
            }
        }
        assert forall|x: usize| r.stack.contains(x) <==> st.stack.contains(x) || x == target by {
            if r.stack.contains(x) {
                let i = choose|i: int| 0 <= i < r.stack.len() && r.stack[i] == x;
                if i < st.stack.len() {
                    assert(st.stack[i] == x);
                }
            }
            if st.stack.contains(x) {
                let i = choose|i: int| 0 <= i < st.stack.len() && st.stack[i] == x;
                assert(r.stack[i] == x);
            }
            if x == target {
                assert(r.stack[st.stack.len() as int] == x);
            }
        }
        assert(target != cur);
        assert forall|x: usize, i: int| r.visited.contains(x) && !r.stack.contains(x) && 0 <= i < edges_from(edges, x).len() && owed(Some((cur, j + 1)), x, i) implies #[trigger] dealt(edges, labels, obs, r, x, i) by {
            assert(x != target);
            assert(st.visited.contains(x) && !st.stack.contains(x));
            if x == cur && i == j {
            } else {
                assert(owed(Some((cur, j)), x, i));
                assert(dealt(edges, labels, obs, st, x, i));
            }
        }
    }
}

/// The first edges of the node under visit are taken in.
proof fn lemma_search_edges(n: nat, edges: Seq<(usize, usize)>, labels: Seq<LabelKey>, obs: Set<Seq<char>>, node: usize, st: Search, cur: usize, upto: int)
    requires
        edges.len() <= usize::MAX,
        forall|e: int| 0 <= e < edges.len() ==> (#[trigger] edges[e]).1 < n,
        searching(n, edges, labels, obs, node, st, Some((cur, 0int))),
        0 <= upto <= edges_from(edges, cur).len(),
    ensures
        searching(n, edges, labels, obs, node, fold_upto(edges_from(edges, cur), st, search_edge_step(edges, labels, obs), upto), Some((cur, upto))),
        fold_upto(edges_from(edges, cur), st, search_edge_step(edges, labels, obs), upto).visited.len() - fold_upto(edges_from(edges, cur), st, search_edge_step(edges, labels, obs), upto).stack.len() == st.visited.len() - st.stack.len(),
    decreases upto,
{
    if upto > 0 {
        lemma_search_edges(n, edges, labels, obs, node, st, cur, upto - 1);
        let before = fold_upto(edges_from(edges, cur), st, search_edge_step(edges, labels, obs), upto - 1);
        lemma_search_edge(n, edges, labels, obs, node, before, cur, upto - 1);
    }
}

/// The search after some visits: it goes as it should, and as many nodes
/// have been visited as there were visits unless none was left to visit.
proof fn lemma_search_run(n: nat, edges: Seq<(usize, usize)>, labels: Seq<LabelKey>, obs: Set<Seq<char>>, node: usize, visits: nat)
    requires
        edges.len() <= usize::MAX,
        node < n,
        forall|e: int| 0 <= e < edges.len() ==> (#[trigger] edges[e]).1 < n,
    ensures
        searching(n, edges, labels, obs, node, search_run(edges, labels, obs, node, visits), None),
        search_run(edges, labels, obs, node, visits).stack.len() == 0 || search_run(edges, labels, obs, node, visits).visited.len() - search_run(edges, labels, obs, node, visits).stack.len() == visits,
    decreases visits,
{
    broadcast use vstd::set_lib::group_set_properties;

    let st = search_run(edges, labels, obs, node, visits);
    if visits == 0 {
        let p = seq![node];
        assert(quiet_way(edges, labels, obs, p) && p[0] == node && p.last() == node);
        assert(st.stack[0] == node);
        assert forall|x: usize| st.visited.contains(x) implies st.stack.contains(x) by {
            assert(st.stack[0] == x);
        }
        assert(st.visited.len() == 1);
    } else {
        lemma_search_run(n, edges, labels, obs, node, (visits - 1) as nat);
        let before = search_run(edges, labels, obs, node, (visits - 1) as nat);
        if before.stack.len() > 0 {
            let cur = before.stack.last();
            let top = before.stack.len() - 1;
            assert(before.stack[top] == cur);
            let popped = Search { stack: before.stack.drop_last(), visited: before.visited, found: before.found };
            assert forall|x: usize| popped.stack.contains(x) <==> before.stack.contains(x) && x != cur by {
                if popped.stack.contains(x) {
                    let i = choose|i: int| 0 <= i < popped.stack.len() && popped.stack[i] == x;
                    assert(before.stack[i] == x);
                    assert(before.stack[i] != before.stack[top]);
                }
                if before.stack.contains(x) && x != cur {
                    let i = choose|i: int| 0 <= i < before.stack.len() && before.stack[i] == x;
                    assert(popped.stack[i] == x);
                }
            }
            assert forall|i: int| 0 <= i < popped.stack.len() implies popped.visited.contains(#[trigger] popped.stack[i]) by {
                assert(popped.stack[i] == before.stack[i]);
            }
            assert forall|a: int, b: int| 0 <= a < popped.stack.len() && 0 <= b < popped.stack.len() && a != b implies popped.stack[a] != popped.stack[b] by {
                assert(popped.stack[a] == before.stack[a] && popped.stack[b] == before.stack[b]);
            }
            assert forall|x: usize, i: int| popped.visited.contains(x) && !popped.stack.contains(x) && 0 <= i < edges_from(edges, x).len() && owed(Some((cur, 0int)), x, i) implies #[trigger] dealt(edges, labels, obs, popped, x, i) by {
                assert(x != cur);
                assert(!before.stack.contains(x));
                assert(owed(None::<(usize, int)>, x, i));
                assert(dealt(edges, labels, obs, before, x, i));
            }
            let ids = edges_from(edges, cur);
            lemma_search_edges(n, edges, labels, obs, node, popped, cur, ids.len() as int);
            assert(st == fold(ids, popped, search_edge_step(edges, labels, obs)));
            assert forall|x: usize, i: int| st.visited.contains(x) && !st.stack.contains(x) && 0 <= i < edges_from(edges, x).len() && owed(None::<(usize, int)>, x, i) implies #[trigger] dealt(edges, labels, obs, st, x, i) by {
                assert(owed(Some((cur, ids.len() as int)), x, i));
            }
        }
    }
}

/// The nodes reached are no more than there are nodes.
proof fn lemma_reached_bounded(visited: Set<usize>, n: nat)
    requires
        visited.finite(),
        forall|x: usize| visited.contains(x) ==> x < n,
    ensures
        visited.len() <= n,
{
    let ids = vstd::set_lib::set_int_range(0, n as int);
    vstd::set_lib::lemma_int_range(0, n as int);
    let up = |x: usize| x as int;
    assert(vstd::relations::injective_on(up, visited));
    let lifted = visited.map(up);
    vstd::set_lib::lemma_map_size(visited, lifted, up);
    assert(lifted.subset_of(ids)) by {
        assert forall|i: int| lifted.contains(i) implies ids.contains(i) by {
            let x = choose|x: usize| visited.contains(x) && up(x) == i;
        }
    }
    vstd::set_lib::lemma_len_subset(lifted, ids);
}

/// Where the search has ended, each node that is reached quietly from the
/// start has been reached.
proof fn lemma_all_reached(n: nat, edges: Seq<(usize, usize)>, labels: Seq<LabelKey>, obs: Set<Seq<char>>, node: usize, st: Search, p: Seq<usize>)
    requires
        edges.len() <= usize::MAX,
        searching(n, edges, labels, obs, node, st, None),
        st.stack.len() == 0,
        quiet_way(edges, labels, obs, p),
        p[0] == node,
    ensures
        st.visited.contains(p.last()),
    decreases p.len(),
{
    if p.len() > 1 {
        let front = p.drop_last();
        assert forall|t: int| 0 <= t < front.len() - 1 implies #[trigger] quiet_at(edges, labels, obs, front, t) by {
            assert(quiet_at(edges, labels, obs, p, t));
            let f = choose|f: int| 0 <= f < edges.len() && #[trigger] edges[f] == (p[t], p[t + 1]) && !obs.contains(event_at(labels, f as usize));
            assert(edges[f] == (front[t], front[t + 1]));
        }
        lemma_all_reached(n, edges, labels, obs, node, st, front);
        let x = front.last();
        assert(x == p[p.len() - 2]);
        assert(quiet_at(edges, labels, obs, p, p.len() - 2));
        let e = choose|e: int| 0 <= e < edges.len() && #[trigger] edges[e] == (p[p.len() - 2], p[p.len() - 2 + 1]) && !obs.contains(event_at(labels, e as usize));
        lemma_edge_ids_at(edges, x, true, edges.len() as int);
        assert(edges[e].0 == x);
        assert(edges_from(edges, x).contains(e as usize));
        let i = choose|i: int| 0 <= i < edges_from(edges, x).len() && edges_from(edges, x)[i] == e as usize;
        assert(!st.stack.contains(x));
        assert(owed(None::<(usize, int)>, x, i));
        assert(dealt(edges, labels, obs, st, x, i));
    }
}

/// The search finds exactly the edges that the role observes next from
/// the node: those with an event type that it observes which leave the node
/// or a node reached from it by edges with event types that it does not
/// observe.
pub proof fn lemma_interesting_edges(n: nat, edges: Seq<(usize, usize)>, labels: Seq<LabelKey>, obs: Set<Seq<char>>, node: usize, e: usize)
    requires
        edges.len() <= usize::MAX,
        node < n,
        forall|k: int| 0 <= k < edges.len() ==> (#[trigger] edges[k]).1 < n,
    ensures
        interesting_edges(n, edges, labels, obs, node).contains(e) <==> seen_next(edges, labels, obs, node, e),
{
    let st = search_run(edges, labels, obs, node, n);
    lemma_search_run(n, edges, labels, obs, node, n);
    lemma_reached_bounded(st.visited, n);
    assert(st.stack.len() == 0);
    if st.found.contains(e) {
        let k = choose|k: int| 0 <= k < st.found.len() && st.found[k] == e;
        assert(seen_next(edges, labels, obs, node, st.found[k]));
    }
    if seen_next(edges, labels, obs, node, e) {
        let p = choose|p: Seq<usize>| #[trigger] quiet_way(edges, labels, obs, p) && p[0] == node && p.last() == edges[e as int].0;
        lemma_all_reached(n, edges, labels, obs, node, st, p);
        let x = edges[e as int].0;
        lemma_edge_ids_at(edges, x, true, edges.len() as int);
        assert(edges_from(edges, x).contains(e));
        let i = choose|i: int| 0 <= i < edges_from(edges, x).len() && edges_from(edges, x)[i] == e;
        assert(!st.stack.contains(x));
        assert(owed(None::<(usize, int)>, x, i));
        assert(dealt(edges, labels, obs, st, x, i));
    }
}

} // verus!
