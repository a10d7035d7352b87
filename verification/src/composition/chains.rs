//! Chains of followers: what the transitive closure of a map of followers
//! holds, and why the table of costs between the event types gives it.
use crate::composition::composition_swarm::{combined, SuccMap};
use crate::ordmap::set_at;
use crate::topology::{connected, has_entry, is_walk, joined_at, table_ok};
use vstd::prelude::*;

verus! {

/// Whether the event type at a position of a sequence is followed by the
/// next.
pub open spec fn link(succ: SuccMap, q: Seq<Seq<char>>, t: int) -> bool {
    set_at(succ, q[t]).contains(q[t + 1])
}

/// Whether a sequence of event types is a chain of followers: at least
/// two long, each followed by the next.
pub open spec fn is_chain(succ: SuccMap, q: Seq<Seq<char>>) -> bool {
    q.len() >= 2 && forall|t: int| 0 <= t < q.len() - 1 ==> #[trigger] link(succ, q, t)
}

/// Whether a chain of followers leads from an event type to another, or
/// back to itself.
pub open spec fn leads(succ: SuccMap, a: Seq<char>, b: Seq<char>) -> bool {
    exists|q: Seq<Seq<char>>| #[trigger] is_chain(succ, q) && q[0] == a && q.last() == b
}

/// The transitive closure of a map of followers: each event type of the
/// map is followed by every event type to which a chain of followers leads
/// from it, itself among them where a chain leads back to it.
pub open spec fn closure(succ: SuccMap) -> SuccMap {
    Map::new(|a: Seq<char>| succ.dom().contains(a), |a: Seq<char>| Set::new(|b: Seq<char>| leads(succ, a, b)))
}

/// Whether an entry of a table of costs tells of a path between two
/// different nodes.
pub open spec fn is_path(x: (usize, usize, i32)) -> bool {
    x.2 != i32::MAX && x.0 != x.1
}

/// Whether an entry of the table tells of a path from the node of one
/// event type to that of another.
pub open spec fn path_in(nodes: Seq<Seq<char>>, costs: Set<(usize, usize, i32)>, a: Seq<char>, b: Seq<char>) -> bool {
    exists|x: (usize, usize, i32)| costs.contains(x) && is_path(x) && nodes[x.0 as int] == a && nodes[x.1 as int] == b
}

/// For each event type with a path to another one those others.
pub open spec fn paths(nodes: Seq<Seq<char>>, costs: Set<(usize, usize, i32)>) -> SuccMap {
    Map::new(|a: Seq<char>| exists|b: Seq<char>| path_in(nodes, costs, a, b), |a: Seq<char>| Set::new(|b: Seq<char>| path_in(nodes, costs, a, b)))
}

/// Whether an event type has a path to another that has a path back.
pub open spec fn on_cycle(p: SuccMap, a: Seq<char>) -> bool {
    exists|b: Seq<char>| #[trigger] set_at(p, a).contains(b) && set_at(p, b).contains(a)
}

/// Each event type with a path to another and back, as its own follower.
pub open spec fn cycles(p: SuccMap) -> SuccMap {
    Map::new(|a: Seq<char>| on_cycle(p, a), |a: Seq<char>| Set::<Seq<char>>::empty().insert(a))
}

/// Whether a graph is the graph of a map of followers: its nodes are
/// event types, none twice; each edge leads from an event type to one that
/// follows it; and each event type has an edge to each that follows it.
pub open spec fn graph_of(succ: SuccMap, nodes: Seq<Seq<char>>, edges: Seq<(usize, usize)>) -> bool {
    &&& nodes.len() <= usize::MAX
    &&& nodes.no_duplicates()
    &&& forall|k: int| 0 <= k < edges.len() ==> (#[trigger] edges[k]).0 < nodes.len() && edges[k].1 < nodes.len() && set_at(succ, nodes[edges[k].0 as int]).contains(nodes[edges[k].1 as int])
    &&& forall|a: Seq<char>, b: Seq<char>| #[trigger] set_at(succ, a).contains(b) ==> has_edge(nodes, edges, a, b)
}

/// Whether an edge leads from the node of one event type to that of
/// another.
pub open spec fn has_edge(nodes: Seq<Seq<char>>, edges: Seq<(usize, usize)>, a: Seq<char>, b: Seq<char>) -> bool {
    exists|i: int, j: int| 0 <= i < nodes.len() && 0 <= j < nodes.len() && nodes[i] == a && nodes[j] == b && #[trigger] edge_between(edges, i, j)
}

/// Whether an edge leads from the node at one index to the node at
/// another.
pub open spec fn edge_between(edges: Seq<(usize, usize)>, i: int, j: int) -> bool {
    edges.contains((i as usize, j as usize))
}

/// A path in the graph of a map of followers is a chain of followers.
proof fn lemma_walk_chain(succ: SuccMap, nodes: Seq<Seq<char>>, edges: Seq<(usize, usize)>, p: Seq<usize>)
    requires
        graph_of(succ, nodes, edges),
        is_walk(edges, p),
    ensures
        p[0] < nodes.len(),
        p.last() < nodes.len(),
        leads(succ, nodes[p[0] as int], nodes[p.last() as int]),
{
    let q = Seq::new(p.len(), |t: int| nodes[p[t] as int]);
    assert forall|t: int| 0 <= t < q.len() - 1 implies #[trigger] link(succ, q, t) by {
        assert(joined_at(edges, p, t));
        let k = choose|k: int| 0 <= k < edges.len() && edges[k] == (p[t], p[t + 1]);
        assert(edges[k].0 == p[t] && edges[k].1 == p[t + 1]);
    }
    assert(joined_at(edges, p, 0));
    let k0 = choose|k: int| 0 <= k < edges.len() && edges[k] == (p[0], p[1]);
    assert(edges[k0].0 == p[0]);
    assert(joined_at(edges, p, p.len() - 2));
    let k1 = choose|k: int| 0 <= k < edges.len() && edges[k] == (p[p.len() - 2], p[p.len() - 2 + 1]);
    assert(edges[k1].1 == p.last());
    assert(is_chain(succ, q) && q[0] == nodes[p[0] as int] && q.last() == nodes[p.last() as int]);
}

/// A chain of followers is a path in the graph of the map.
proof fn lemma_chain_walk(succ: SuccMap, nodes: Seq<Seq<char>>, edges: Seq<(usize, usize)>, q: Seq<Seq<char>>)
    requires
        graph_of(succ, nodes, edges),
        is_chain(succ, q),
    ensures
        exists|i: int, j: int| 0 <= i < nodes.len() && 0 <= j < nodes.len() && nodes[i] == q[0] && nodes[j] == q.last() && #[trigger] connected(edges, i as usize, j as usize),
    decreases q.len(),
{
    assert(link(succ, q, 0));
    assert(has_edge(nodes, edges, q[0], q[1]));
    let (i, j) = choose|i: int, j: int| 0 <= i < nodes.len() && 0 <= j < nodes.len() && nodes[i] == q[0] && nodes[j] == q[1] && #[trigger] edge_between(edges, i, j);
    if q.len() == 2 {
        let p = seq![i as usize, j as usize];
        assert forall|t: int| 0 <= t < p.len() - 1 implies #[trigger] joined_at(edges, p, t) by {
            assert(p[0] == i as usize && p[1] == j as usize);
        }
        assert(is_walk(edges, p) && p[0] == i as usize && p.last() == j as usize);
        assert(connected(edges, i as usize, j as usize));
    } else {
        let rest = q.subrange(1, q.len() as int);
        assert forall|t: int| 0 <= t < rest.len() - 1 implies #[trigger] link(succ, rest, t) by {
            assert(rest[t] == q[t + 1] && rest[t + 1] == q[t + 2]);
            assert(link(succ, q, t + 1));
        }
        lemma_chain_walk(succ, nodes, edges, rest);
        let (j2, k) = choose|j2: int, k: int| 0 <= j2 < nodes.len() && 0 <= k < nodes.len() && nodes[j2] == rest[0] && nodes[k] == rest.last() && #[trigger] connected(edges, j2 as usize, k as usize);
        assert(rest[0] == q[1]);
        assert(j2 == j);
        let w = choose|w: Seq<usize>| #[trigger] is_walk(edges, w) && w[0] == j as usize && w.last() == k as usize;
        let p = seq![i as usize] + w;
        assert forall|t: int| 0 <= t < p.len() - 1 implies #[trigger] joined_at(edges, p, t) by {
            if t == 0 {
                assert(p[0] == i as usize && p[1] == w[0]);
            } else {
                assert(p[t] == w[t - 1] && p[t + 1] == w[t]);
                assert(joined_at(edges, w, t - 1));
            }
        }
        assert(is_walk(edges, p) && p[0] == i as usize && p.last() == k as usize);
        assert(rest.last() == q.last());
        assert(connected(edges, i as usize, k as usize));
    }
}

/// Two chains, the second from where the first ends, make a chain.
pub proof fn lemma_chain_join(succ: SuccMap, p: Seq<Seq<char>>, q: Seq<Seq<char>>)
    requires
        is_chain(succ, p),
        is_chain(succ, q),
        p.last() == q[0],
    ensures
        is_chain(succ, p + q.subrange(1, q.len() as int)),
        (p + q.subrange(1, q.len() as int))[0] == p[0],
        (p + q.subrange(1, q.len() as int)).last() == q.last(),
{
    let r = p + q.subrange(1, q.len() as int);
    assert forall|t: int| 0 <= t < r.len() - 1 implies #[trigger] link(succ, r, t) by {
        if t < p.len() - 1 {
            assert(r[t] == p[t] && r[t + 1] == p[t + 1]);
            assert(link(succ, p, t));
        } else {
            let j = t - (p.len() - 1);
            assert(r[t + 1] == q[j + 1]);
            if j == 0 {
                assert(r[t] == p[p.len() - 1]);
            } else {
                assert(r[t] == q[j]);
            }
            assert(link(succ, q, j));
        }
    }
}

/// The table of costs tells of a path between the nodes of two event
/// types exactly if the two are different and a chain leads from the one to
/// the other.
proof fn lemma_path_in(succ: SuccMap, nodes: Seq<Seq<char>>, edges: Seq<(usize, usize)>, table: Set<(usize, usize, i32)>, a: Seq<char>, b: Seq<char>)
    requires
        graph_of(succ, nodes, edges),
        table_ok(table, nodes.len(), edges),
    ensures
        path_in(nodes, table, a, b) <==> a != b && leads(succ, a, b),
{
    if path_in(nodes, table, a, b) {
        let x = choose|x: (usize, usize, i32)| table.contains(x) && is_path(x) && nodes[x.0 as int] == a && nodes[x.1 as int] == b;
        assert(connected(edges, x.0, x.1));
        let p = choose|p: Seq<usize>| #[trigger] is_walk(edges, p) && p[0] == x.0 && p.last() == x.1;
        lemma_walk_chain(succ, nodes, edges, p);
    }
    if a != b && leads(succ, a, b) {
        let q = choose|q: Seq<Seq<char>>| #[trigger] is_chain(succ, q) && q[0] == a && q.last() == b;
        lemma_chain_walk(succ, nodes, edges, q);
        let (i, j) = choose|i: int, j: int| 0 <= i < nodes.len() && 0 <= j < nodes.len() && nodes[i] == q[0] && nodes[j] == q.last() && #[trigger] connected(edges, i as usize, j as usize);
        assert(has_entry(table, i as usize, j as usize));
        let d = choose|d: i32| #[trigger] table.contains((i as usize, j as usize, d));
        let x = (i as usize, j as usize, d);
        assert(table.contains(x));
        assert(x.0 != x.1);
        assert(is_path(x) && nodes[x.0 as int] == a && nodes[x.1 as int] == b);
    }
}

/// What the table of costs gives for the graph of a map of followers is
/// the transitive closure of the map: the followers, the event types to
/// which the table tells of a path, and each event type itself that has a
/// path to another and back.
pub proof fn lemma_closure_by_table(succ: SuccMap, nodes: Seq<Seq<char>>, edges: Seq<(usize, usize)>, table: Set<(usize, usize, i32)>)
    requires
        graph_of(succ, nodes, edges),
        table_ok(table, nodes.len(), edges),
    ensures
        combined(combined(succ, paths(nodes, table), Set::empty()), cycles(paths(nodes, table)), Set::empty()) == closure(succ),
{
    let p = paths(nodes, table);
    let got = combined(combined(succ, p, Set::empty()), cycles(p), Set::empty());
    let want = closure(succ);
    assert forall|a: Seq<char>, b: Seq<char>| #[trigger] set_at(p, a).contains(b) <==> a != b && leads(succ, a, b) by {
        lemma_path_in(succ, nodes, edges, table, a, b);
    }
    assert forall|a: Seq<char>, b: Seq<char>| leads(succ, a, b) implies succ.dom().contains(a) by {
        let q = choose|q: Seq<Seq<char>>| #[trigger] is_chain(succ, q) && q[0] == a && q.last() == b;
        assert(link(succ, q, 0));
    }
    assert forall|a: Seq<char>| on_cycle(p, a) implies leads(succ, a, a) by {
        let b = choose|b: Seq<char>| #[trigger] set_at(p, a).contains(b) && set_at(p, b).contains(a);
        let q1 = choose|q: Seq<Seq<char>>| #[trigger] is_chain(succ, q) && q[0] == a && q.last() == b;
        let q2 = choose|q: Seq<Seq<char>>| #[trigger] is_chain(succ, q) && q[0] == b && q.last() == a;
        lemma_chain_join(succ, q1, q2);
    }
    assert forall|a: Seq<char>| leads(succ, a, a) implies set_at(succ, a).contains(a) || on_cycle(p, a) by {
        let q = choose|q: Seq<Seq<char>>| #[trigger] is_chain(succ, q) && q[0] == a && q.last() == a;
        assert(link(succ, q, 0));
        if q[1] != a {
            let c = q[1];
            let first = seq![a, c];
            assert forall|t: int| 0 <= t < first.len() - 1 implies #[trigger] link(succ, first, t) by {
                assert(first[0] == a && first[1] == c);
            }
            assert(is_chain(succ, first) && first[0] == a && first.last() == c);
            let rest = q.subrange(1, q.len() as int);
            assert(rest.len() >= 2) by {
                if q.len() == 2 {
                    assert(q.last() == q[1]);
                }
            }
            assert forall|t: int| 0 <= t < rest.len() - 1 implies #[trigger] link(succ, rest, t) by {
                assert(rest[t] == q[t + 1] && rest[t + 1] == q[t + 2]);
                assert(link(succ, q, t + 1));
            }
            assert(is_chain(succ, rest) && rest[0] == c && rest.last() == a);
            assert(set_at(p, a).contains(c) && set_at(p, c).contains(a));
        }
    }
    assert forall|a: Seq<char>| got.dom().contains(a) <==> want.dom().contains(a) by {
        if p.dom().contains(a) {
            let b = choose|b: Seq<char>| path_in(nodes, table, a, b);
            assert(set_at(p, a).contains(b));
        }
    }
    assert forall|a: Seq<char>| got.dom().contains(a) implies #[trigger] got[a] =~= want[a] by {
        assert forall|b: Seq<char>| got[a].contains(b) <==> want[a].contains(b) by {
            if set_at(succ, a).contains(b) {
                let q = seq![a, b];
                assert forall|t: int| 0 <= t < q.len() - 1 implies #[trigger] link(succ, q, t) by {
                    assert(q[0] == a && q[1] == b);
                }
                assert(is_chain(succ, q) && q[0] == a && q.last() == b);
            }
            if set_at(cycles(p), a).contains(b) {
                assert(b == a && on_cycle(p, a));
            }
            if leads(succ, a, b) {
                if a != b {
                    assert(set_at(p, a).contains(b));
                } else {
                    if on_cycle(p, a) {
                        assert(set_at(cycles(p), a).contains(a));
                    }
                }
            }
        }
    }
    assert(got =~= want);
}

/// Whether the first nodes and edges of a graph are those of another.
pub open spec fn grown_from(nodes: Seq<Seq<char>>, edges: Seq<(usize, usize)>, before: Seq<Seq<char>>, edges_before: Seq<(usize, usize)>) -> bool {
    &&& before.len() <= nodes.len()
    &&& forall|i: int| 0 <= i < before.len() ==> nodes[i] == #[trigger] before[i]
    &&& edges_before.len() <= edges.len()
    &&& forall|k: int| 0 <= k < edges_before.len() ==> edges[k] == #[trigger] edges_before[k]
}

/// An edge between the nodes of two event types stays one where the graph
/// grows.
pub proof fn lemma_has_edge_grows(nodes: Seq<Seq<char>>, edges: Seq<(usize, usize)>, before: Seq<Seq<char>>, edges_before: Seq<(usize, usize)>, a: Seq<char>, b: Seq<char>)
    requires
        grown_from(nodes, edges, before, edges_before),
        has_edge(before, edges_before, a, b),
    ensures
        has_edge(nodes, edges, a, b),
{
    let (i, j) = choose|i: int, j: int| 0 <= i < before.len() && 0 <= j < before.len() && before[i] == a && before[j] == b && #[trigger] edge_between(edges_before, i, j);
    let k = choose|k: int| 0 <= k < edges_before.len() && edges_before[k] == (i as usize, j as usize);
    assert(edges[k] == (i as usize, j as usize));
    assert(nodes[i] == before[i] && nodes[j] == before[j]);
    assert(0 <= i < nodes.len() && 0 <= j < nodes.len() && nodes[i] == a && nodes[j] == b && edge_between(edges, i, j));
}

/// What holds of the graph of a map of followers while it is built: each
/// edge leads from an event type to one that follows it; each key that has
/// been taken in has an edge to each of its followers; and the key under
/// way has an edge to each of its followers that has been taken in.
pub open spec fn graph_upto(succ: SuccMap, nodes: Seq<Seq<char>>, edges: Seq<(usize, usize)>, keys: Seq<Seq<char>>, i: int, cur: Seq<char>, vals: Seq<Seq<char>>, j: int) -> bool {
    &&& forall|k: int| 0 <= k < edges.len() ==> (#[trigger] edges[k]).0 < nodes.len() && edges[k].1 < nodes.len() && set_at(succ, nodes[edges[k].0 as int]).contains(nodes[edges[k].1 as int])
    &&& forall|q: int, b: Seq<char>| 0 <= q < i && q < keys.len() && #[trigger] set_at(succ, keys[q]).contains(b) ==> has_edge(nodes, edges, keys[q], b)
    &&& forall|t: int| 0 <= t < j && t < vals.len() ==> has_edge(nodes, edges, cur, #[trigger] vals[t])
}

/// The graph stays as far as it is built where it grows by a node.
pub proof fn lemma_upto_grows(succ: SuccMap, nodes: Seq<Seq<char>>, edges: Seq<(usize, usize)>, before: Seq<Seq<char>>, keys: Seq<Seq<char>>, i: int, cur: Seq<char>, vals: Seq<Seq<char>>, j: int)
    requires
        graph_upto(succ, before, edges, keys, i, cur, vals, j),
        grown_from(nodes, edges, before, edges),
    ensures
        graph_upto(succ, nodes, edges, keys, i, cur, vals, j),
{
    assert forall|k: int| 0 <= k < edges.len() implies (#[trigger] edges[k]).0 < nodes.len() && edges[k].1 < nodes.len() && set_at(succ, nodes[edges[k].0 as int]).contains(nodes[edges[k].1 as int]) by {
        assert(nodes[edges[k].0 as int] == before[edges[k].0 as int]);
        assert(nodes[edges[k].1 as int] == before[edges[k].1 as int]);
    }
    assert forall|q: int, b: Seq<char>| 0 <= q < i && q < keys.len() && #[trigger] set_at(succ, keys[q]).contains(b) implies has_edge(nodes, edges, keys[q], b) by {
        lemma_has_edge_grows(nodes, edges, before, edges, keys[q], b);
    }
    assert forall|t: int| 0 <= t < j && t < vals.len() implies has_edge(nodes, edges, cur, #[trigger] vals[t]) by {
        lemma_has_edge_grows(nodes, edges, before, edges, cur, vals[t]);
    }
}

/// The graph stays as far as it is built, with one more follower taken
/// in, where it grows by the edge to that follower.
pub proof fn lemma_upto_edge(succ: SuccMap, nodes: Seq<Seq<char>>, edges: Seq<(usize, usize)>, keys: Seq<Seq<char>>, i: int, cur: Seq<char>, vals: Seq<Seq<char>>, j: int, a: usize, b: usize)
    requires
        graph_upto(succ, nodes, edges, keys, i, cur, vals, j),
        0 <= j < vals.len(),
        a < nodes.len(),
        b < nodes.len(),
        nodes[a as int] == cur,
        nodes[b as int] == vals[j],
        set_at(succ, cur).contains(vals[j]),
    ensures
        graph_upto(succ, nodes, edges.push((a, b)), keys, i, cur, vals, j + 1),
{
    let after = edges.push((a, b));
    assert forall|k: int| 0 <= k < after.len() implies (#[trigger] after[k]).0 < nodes.len() && after[k].1 < nodes.len() && set_at(succ, nodes[after[k].0 as int]).contains(nodes[after[k].1 as int]) by {
        if k < edges.len() {
            assert(after[k] == edges[k]);
        }
    }
    assert(grown_from(nodes, after, nodes, edges));
    assert forall|q: int, y: Seq<char>| 0 <= q < i && q < keys.len() && #[trigger] set_at(succ, keys[q]).contains(y) implies has_edge(nodes, after, keys[q], y) by {
        lemma_has_edge_grows(nodes, after, nodes, edges, keys[q], y);
    }
    assert forall|t: int| 0 <= t < j + 1 && t < vals.len() implies has_edge(nodes, after, cur, #[trigger] vals[t]) by {
        if t < j {
            lemma_has_edge_grows(nodes, after, nodes, edges, cur, vals[t]);
        } else {
            assert(after[edges.len() as int] == (a, b));
            assert(0 <= a < nodes.len() && 0 <= b < nodes.len() && nodes[a as int] == cur && nodes[b as int] == vals[j] && edge_between(after, a as int, b as int));
        }
    }
}

/// The transitive closure holds what the map holds.
pub proof fn lemma_closure_holds(succ: SuccMap, a: Seq<char>, b: Seq<char>)
    requires
        set_at(succ, a).contains(b),
    ensures
        set_at(closure(succ), a).contains(b),
{
    let q = seq![a, b];
    assert forall|t: int| 0 <= t < q.len() - 1 implies #[trigger] link(succ, q, t) by {
        assert(q[0] == a && q[1] == b);
    }
    assert(is_chain(succ, q) && q[0] == a && q.last() == b);
}

/// Where a chain of followers in the transitive closure leads, a chain of
/// followers in the map leads.
proof fn lemma_closure_chain(succ: SuccMap, q: Seq<Seq<char>>)
    requires
        is_chain(closure(succ), q),
    ensures
        leads(succ, q[0], q.last()),
    decreases q.len(),
{
    assert(link(closure(succ), q, 0));
    assert(leads(succ, q[0], q[1]));
    if q.len() == 2 {
        assert(q.last() == q[1]);
    } else {
        let rest = q.subrange(1, q.len() as int);
        assert forall|t: int| 0 <= t < rest.len() - 1 implies #[trigger] link(closure(succ), rest, t) by {
            assert(rest[t] == q[t + 1] && rest[t + 1] == q[t + 2]);
            assert(link(closure(succ), q, t + 1));
        }
        lemma_closure_chain(succ, rest);
        assert(rest[0] == q[1] && rest.last() == q.last());
        let first = choose|p: Seq<Seq<char>>| #[trigger] is_chain(succ, p) && p[0] == q[0] && p.last() == q[1];
        let second = choose|p: Seq<Seq<char>>| #[trigger] is_chain(succ, p) && p[0] == q[1] && p.last() == q.last();
        lemma_chain_join(succ, first, second);
    }
}

/// The transitive closure of a transitive closure is that closure.
pub proof fn lemma_closure_again(succ: SuccMap)
    ensures
        closure(closure(succ)) == closure(succ),
{
    let once = closure(succ);
    let twice = closure(once);
    assert forall|a: Seq<char>| twice.dom().contains(a) implies #[trigger] twice[a] =~= once[a] by {
        assert forall|b: Seq<char>| twice[a].contains(b) <==> once[a].contains(b) by {
            if leads(once, a, b) {
                let q = choose|q: Seq<Seq<char>>| #[trigger] is_chain(once, q) && q[0] == a && q.last() == b;
                lemma_closure_chain(succ, q);
            }
            if leads(succ, a, b) {
                let q = seq![a, b];
                assert forall|t: int| 0 <= t < q.len() - 1 implies #[trigger] link(once, q, t) by {
                    assert(q[0] == a && q[1] == b);
                }
                assert(is_chain(once, q) && q[0] == a && q.last() == b);
            }
        }
    }
    assert(twice =~= once);
}

} // verus!
