//! The machine of the blocks of a partition: how its transitions stand for
//! those of the machine, and why refining it again splits nothing.
use crate::bounds::{below, lemma_below_finite};
use crate::composition::blocks::{agreed, apart, coarsest_below, finer, lemma_coarsest, lemma_heads, lemma_moves, lemma_pre_label, no_state, steady, steady_below, together};
use crate::composition::composition_machine::{covered, first_block, first_partition, merge_edge_step, merge_node_step, minimal_view, moves_into, pre_labels_of, refinement, sink_step, Blocks, MachineView, Merged};
use crate::composition::composition_swarm::indices;
use crate::ordset::{increasing, increasing_no_duplicates, lemma_sorted_of, sorted, OrdSet};
use crate::seqs::{fold, fold_upto};
use crate::topology::{edges_from, lemma_edge_ids_at};
use crate::types::MachineLabelView;
use vstd::prelude::*;
use vstd::set_lib::*;

verus! {

/// Among the blocks that hold a state there is a first.
proof fn lemma_least_block(blocks: Seq<Seq<usize>>, x: usize, k: int)
    requires
        0 <= k < blocks.len(),
        blocks[k].contains(x),
    ensures
        exists|m: int| 0 <= m <= k && blocks[m].contains(x) && forall|j: int| 0 <= j < m ==> !(#[trigger] blocks[j]).contains(x),
    decreases k,
{
    if exists|j: int| 0 <= j < k && (#[trigger] blocks[j]).contains(x) {
        let j = choose|j: int| 0 <= j < k && (#[trigger] blocks[j]).contains(x);
        lemma_least_block(blocks, x, j);
        let m = choose|m: int| 0 <= m <= j && blocks[m].contains(x) && forall|i: int| 0 <= i < m ==> !(#[trigger] blocks[i]).contains(x);
        assert(0 <= m <= k && blocks[m].contains(x) && forall|i: int| 0 <= i < m ==> !(#[trigger] blocks[i]).contains(x));
    } else {
        assert(0 <= k <= k && blocks[k].contains(x) && forall|j: int| 0 <= j < k ==> !(#[trigger] blocks[j]).contains(x));
    }
}

/// The first block that holds a state is a block that holds it, and where
/// the blocks are apart it is the only one.
pub proof fn lemma_first_block(blocks: Seq<Seq<usize>>, x: usize, k: int, n: nat)
    requires
        0 <= k < blocks.len(),
        blocks[k].contains(x),
    ensures
        0 <= first_block(blocks, x) < blocks.len(),
        blocks[first_block(blocks, x)].contains(x),
        apart(blocks.to_set(), n) && blocks.no_duplicates() ==> first_block(blocks, x) == k,
{
    lemma_least_block(blocks, x, k);
    let m = choose|m: int| 0 <= m <= k && blocks[m].contains(x) && forall|j: int| 0 <= j < m ==> !(#[trigger] blocks[j]).contains(x);
    assert(0 <= m < blocks.len() && blocks[m].contains(x) && forall|j: int| 0 <= j < m ==> !(#[trigger] blocks[j]).contains(x));
    let f = first_block(blocks, x);
    if apart(blocks.to_set(), n) && blocks.no_duplicates() {
        assert(blocks.to_set().contains(blocks[f]));
        assert(blocks.to_set().contains(blocks[k]));
        assert(blocks[f] == blocks[k]);
    }
}

/// Whether no transition leaves a state.
pub open spec fn ends(edges: Seq<(usize, usize)>, x: usize) -> bool {
    edges_from(edges, x).len() == 0
}

/// The first states go with the states without transitions or with the
/// others.
proof fn lemma_sinks(n: nat, edges: Seq<(usize, usize)>, upto: int)
    requires
        0 <= upto <= n,
        n <= usize::MAX,
    ensures
        ({
            let p = fold_upto(indices(n), (Set::<usize>::empty(), Set::<usize>::empty()), sink_step(edges), upto);
            &&& p.0.finite()
            &&& p.1.finite()
            &&& forall|x: usize| #[trigger] p.0.contains(x) <==> x < upto && ends(edges, x)
            &&& forall|x: usize| #[trigger] p.1.contains(x) <==> x < upto && !ends(edges, x)
        }),
    decreases upto,
{
    let p = fold_upto(indices(n), (Set::<usize>::empty(), Set::<usize>::empty()), sink_step(edges), upto);
    if upto > 0 {
        lemma_sinks(n, edges, upto - 1);
        let before = fold_upto(indices(n), (Set::<usize>::empty(), Set::<usize>::empty()), sink_step(edges), upto - 1);
        let y = (upto - 1) as usize;
        assert(indices(n)[upto - 1] == y);
        assert(p == sink_step(edges)(before, y));
        assert forall|x: usize| #[trigger] p.0.contains(x) <==> x < upto && ends(edges, x) by {
            assert(before.0.contains(x) <==> x < upto - 1 && ends(edges, x));
            if ends(edges, y) {
                assert(p.0 == before.0.insert(y));
            } else {
                assert(p.0 == before.0);
            }
        }
        assert forall|x: usize| #[trigger] p.1.contains(x) <==> x < upto && !ends(edges, x) by {
            assert(before.1.contains(x) <==> x < upto - 1 && !ends(edges, x));
            if ends(edges, y) {
                assert(p.1 == before.1);
            } else {
                assert(p.1 == before.1.insert(y));
            }
        }
    }
}

/// The partition from which refinement starts keeps the states without
/// transitions apart from the others, and nothing else.
pub proof fn lemma_first_partition(n: nat, edges: Seq<(usize, usize)>)
    requires
        n <= usize::MAX,
    ensures
        forall|x: usize, y: usize| #[trigger] together(first_partition(n, edges), x, y) <==> x < n && y < n && ends(edges, x) == ends(edges, y),
{
    let p = fold(indices(n), (Set::<usize>::empty(), Set::<usize>::empty()), sink_step(edges));
    lemma_sinks(n, edges, n as int);
    lemma_sorted_of::<usize>(p.0);
    lemma_sorted_of::<usize>(p.1);
    let a = sorted::<usize>(p.0);
    let b = sorted::<usize>(p.1);
    let first = first_partition(n, edges);
    assert(first.contains(a) && first.contains(b));
    assert forall|x: usize, y: usize| #[trigger] together(first, x, y) <==> x < n && y < n && ends(edges, x) == ends(edges, y) by {
        if together(first, x, y) {
            let c = choose|c: Seq<usize>| #[trigger] first.contains(c) && c.contains(x) && c.contains(y);
            assert(c.to_set().contains(x) && c.to_set().contains(y));
            assert(c == a || c == b);
            if c == a {
                assert(p.0.contains(x) && p.0.contains(y));
            } else {
                assert(p.1.contains(x) && p.1.contains(y));
            }
        }
        if x < n && y < n && ends(edges, x) == ends(edges, y) {
            if ends(edges, x) {
                assert(p.0.contains(x) && p.0.contains(y));
                assert(a.to_set().contains(x) && a.to_set().contains(y));
                assert(first.contains(a) && a.contains(x) && a.contains(y));
            } else {
                assert(p.1.contains(x) && p.1.contains(y));
                assert(b.to_set().contains(x) && b.to_set().contains(y));
                assert(first.contains(b) && b.contains(x) && b.contains(y));
            }
        }
    }
}

/// The block of a state: the position of the first block that holds it.
pub open spec fn block_of(blocks: Seq<Seq<usize>>, x: usize) -> usize {
    first_block(blocks, x) as usize
}

/// What stands for a transition of a machine among the blocks: the block
/// of its source, its label and the block of its target.
pub open spec fn lifted(edges: Seq<(usize, usize)>, labels: Seq<MachineLabelView>, blocks: Seq<Seq<usize>>, e: int) -> (usize, MachineLabelView, usize) {
    (block_of(blocks, edges[e].0), labels[e], block_of(blocks, edges[e].1))
}

/// Whether the transitions between blocks are those that were seen, each
/// standing for a transition of the machine.
pub open spec fn merged_inv(edges: Seq<(usize, usize)>, labels: Seq<MachineLabelView>, blocks: Seq<Seq<usize>>, st: Merged) -> bool {
    &&& st.edges.len() == st.labels.len()
    &&& forall|j: int| 0 <= j < st.edges.len() ==> st.seen.contains(((#[trigger] st.edges[j]).0, st.labels[j], st.edges[j].1))
    &&& forall|t: (usize, MachineLabelView, usize)| #[trigger] st.seen.contains(t) ==> has_edge(st, t) && stands_for(edges, labels, blocks, t)
}

/// Whether a transition between blocks has the given ends and label.
pub open spec fn has_edge(st: Merged, t: (usize, MachineLabelView, usize)) -> bool {
    exists|j: int| 0 <= j < st.edges.len() && (#[trigger] st.edges[j]) == (t.0, t.2) && st.labels[j] == t.1
}

/// Whether ends and a label among the blocks stand for a transition of the
/// machine.
pub open spec fn stands_for(edges: Seq<(usize, usize)>, labels: Seq<MachineLabelView>, blocks: Seq<Seq<usize>>, t: (usize, MachineLabelView, usize)) -> bool {
    exists|e: int| 0 <= e < edges.len() && #[trigger] lifted(edges, labels, blocks, e) == t
}

/// One transition of the machine is taken in: what stands for it is seen.
proof fn lemma_merge_edge(edges: Seq<(usize, usize)>, labels: Seq<MachineLabelView>, blocks: Seq<Seq<usize>>, st: Merged, e: usize)
    requires
        merged_inv(edges, labels, blocks, st),
        e < edges.len(),
    ensures
        merged_inv(edges, labels, blocks, merge_edge_step(edges, labels, blocks)(st, e)),
        st.seen.subset_of(merge_edge_step(edges, labels, blocks)(st, e).seen),
        merge_edge_step(edges, labels, blocks)(st, e).seen.contains(lifted(edges, labels, blocks, e as int)),
{
    let r = merge_edge_step(edges, labels, blocks)(st, e);
    let t = lifted(edges, labels, blocks, e as int);
    if !st.seen.contains(t) {
        let last = st.edges.len() as int;
        assert forall|j: int| 0 <= j < r.edges.len() implies r.seen.contains(((#[trigger] r.edges[j]).0, r.labels[j], r.edges[j].1)) by {
            if j < last {
                assert(r.edges[j] == st.edges[j]);
                assert(r.labels[j] == st.labels[j]);
            }
        }
        assert forall|u: (usize, MachineLabelView, usize)| #[trigger] r.seen.contains(u) implies has_edge(r, u) && stands_for(edges, labels, blocks, u) by {
            if u == t {
                assert(r.edges[last] == (t.0, t.2) && r.labels[last] == t.1);
                assert(lifted(edges, labels, blocks, e as int) == u);
            } else {
                assert(st.seen.contains(u));
                let j = choose|j: int| 0 <= j < st.edges.len() && (#[trigger] st.edges[j]) == (u.0, u.2) && st.labels[j] == u.1;
                assert(r.edges[j] == st.edges[j] && r.labels[j] == st.labels[j]);
            }
        }
    }
}

/// Some transitions of the machine are taken in: what stands for each is
/// seen, and what was seen stays so.
proof fn lemma_merge_edges(edges: Seq<(usize, usize)>, labels: Seq<MachineLabelView>, blocks: Seq<Seq<usize>>, ids: Seq<usize>, st: Merged, upto: int)
    requires
        merged_inv(edges, labels, blocks, st),
        forall|k: int| 0 <= k < ids.len() ==> #[trigger] ids[k] < edges.len(),
        0 <= upto <= ids.len(),
    ensures
        merged_inv(edges, labels, blocks, fold_upto(ids, st, merge_edge_step(edges, labels, blocks), upto)),
        st.seen.subset_of(fold_upto(ids, st, merge_edge_step(edges, labels, blocks), upto).seen),
        forall|k: int| 0 <= k < upto ==> fold_upto(ids, st, merge_edge_step(edges, labels, blocks), upto).seen.contains(#[trigger] lifted(edges, labels, blocks, ids[k] as int)),
    decreases upto,
{
    if upto > 0 {
        lemma_merge_edges(edges, labels, blocks, ids, st, upto - 1);
        let before = fold_upto(ids, st, merge_edge_step(edges, labels, blocks), upto - 1);
        lemma_merge_edge(edges, labels, blocks, before, ids[upto - 1]);
        let after = fold_upto(ids, st, merge_edge_step(edges, labels, blocks), upto);
        assert forall|k: int| 0 <= k < upto implies after.seen.contains(#[trigger] lifted(edges, labels, blocks, ids[k] as int)) by {
            if k < upto - 1 {
                assert(before.seen.contains(lifted(edges, labels, blocks, ids[k] as int)));
            }
        }
    }
}

/// The transitions that leave the first states are taken in: what stands
/// for each is seen.
proof fn lemma_merge_nodes(edges: Seq<(usize, usize)>, labels: Seq<MachineLabelView>, blocks: Seq<Seq<usize>>, n: nat, upto: int)
    requires
        0 <= upto <= n,
        n <= usize::MAX,
        edges.len() <= usize::MAX,
    ensures
        merged_inv(edges, labels, blocks, fold_upto(indices(n), Merged { edges: Seq::empty(), labels: Seq::empty(), seen: Set::empty() }, merge_node_step(edges, labels, blocks), upto)),
        forall|e: int|
            0 <= e < edges.len() && edges[e].0 < upto ==> fold_upto(indices(n), Merged { edges: Seq::empty(), labels: Seq::empty(), seen: Set::empty() }, merge_node_step(edges, labels, blocks), upto).seen.contains(
                #[trigger] lifted(edges, labels, blocks, e),
            ),
    decreases upto,
{
    let init = Merged { edges: Seq::empty(), labels: Seq::empty(), seen: Set::empty() };
    if upto > 0 {
        lemma_merge_nodes(edges, labels, blocks, n, upto - 1);
        let before = fold_upto(indices(n), init, merge_node_step(edges, labels, blocks), upto - 1);
        let after = fold_upto(indices(n), init, merge_node_step(edges, labels, blocks), upto);
        let y = (upto - 1) as usize;
        assert(indices(n)[upto - 1] == y);
        let ids = edges_from(edges, y);
        lemma_edge_ids_at(edges, y, true, edges.len() as int);
        lemma_merge_edges(edges, labels, blocks, ids, before, ids.len() as int);
        assert(after == fold(ids, before, merge_edge_step(edges, labels, blocks)));
        assert forall|e: int| 0 <= e < edges.len() && edges[e].0 < upto implies after.seen.contains(#[trigger] lifted(edges, labels, blocks, e)) by {
            if edges[e].0 < upto - 1 {
                assert(before.seen.contains(lifted(edges, labels, blocks, e)));
            } else {
                assert(ids.contains(e as usize));
                let k = choose|k: int| 0 <= k < ids.len() && ids[k] == e as usize;
                assert(after.seen.contains(lifted(edges, labels, blocks, ids[k] as int)));
            }
        }
    }
}

/// The machine of the blocks of a partition has, for each transition of
/// the machine, a transition with its label between the blocks of its
/// ends, and no other transitions.
pub proof fn lemma_quotient(edges: Seq<(usize, usize)>, labels: Seq<MachineLabelView>, blocks: Seq<Seq<usize>>, n: nat)
    requires
        n <= usize::MAX,
        edges.len() <= usize::MAX,
        forall|e: int| 0 <= e < edges.len() ==> (#[trigger] edges[e]).0 < n,
    ensures
        ({
            let st = fold(indices(n), Merged { edges: Seq::empty(), labels: Seq::empty(), seen: Set::empty() }, merge_node_step(edges, labels, blocks));
            &&& st.edges.len() == st.labels.len()
            &&& forall|e: int| 0 <= e < edges.len() ==> has_edge(st, #[trigger] lifted(edges, labels, blocks, e))
            &&& forall|j: int| 0 <= j < st.edges.len() ==> stands_for(edges, labels, blocks, ((#[trigger] st.edges[j]).0, st.labels[j], st.edges[j].1))
        }),
{
    lemma_merge_nodes(edges, labels, blocks, n, n as int);
    let st = fold(indices(n), Merged { edges: Seq::empty(), labels: Seq::empty(), seen: Set::empty() }, merge_node_step(edges, labels, blocks));
    assert(indices(n).len() == n);
    assert forall|e: int| 0 <= e < edges.len() implies has_edge(st, #[trigger] lifted(edges, labels, blocks, e)) by {
        assert(edges[e].0 < n);
        assert(st.seen.contains(lifted(edges, labels, blocks, e)));
    }
    assert forall|j: int| 0 <= j < st.edges.len() implies stands_for(edges, labels, blocks, ((#[trigger] st.edges[j]).0, st.labels[j], st.edges[j].1)) by {
        assert(st.seen.contains((st.edges[j].0, st.labels[j], st.edges[j].1)));
    }
}

/// The states of a machine whose blocks are among some states of the
/// machine of blocks.
pub open spec fn members(blocks: Seq<Seq<usize>>, q: Seq<usize>, n: nat) -> Set<usize> {
    Set::new(|x: usize| x < n && q.contains(block_of(blocks, x)))
}

/// A block of states of the machine of blocks as a block of states of the
/// machine.
pub open spec fn lift_block(blocks: Seq<Seq<usize>>, n: nat) -> spec_fn(Seq<usize>) -> Seq<usize> {
    |q: Seq<usize>| sorted::<usize>(members(blocks, q, n))
}

/// A partition of the states of the machine of blocks as a partition of
/// the states of the machine.
pub open spec fn lift(blocks: Seq<Seq<usize>>, fine: Blocks, n: nat) -> Blocks {
    fine.map(lift_block(blocks, n))
}

/// Whether a machine is given with its states counted, its transitions
/// between its states, and a label for each.
pub open spec fn machine_ok(n: nat, edges: Seq<(usize, usize)>, labels: Seq<MachineLabelView>) -> bool {
    &&& n <= usize::MAX
    &&& edges.len() == labels.len()
    &&& edges.len() <= usize::MAX
    &&& forall|e: int| 0 <= e < edges.len() ==> (#[trigger] edges[e]).0 < n && edges[e].1 < n
}

/// Whether a list holds the blocks of a partition of the states of a
/// machine: blocks that are apart, each with a state, no state left out,
/// no block twice.
pub open spec fn blocks_of(blocks: Seq<Seq<usize>>, n: nat) -> bool {
    &&& blocks.len() <= usize::MAX
    &&& blocks.no_duplicates()
    &&& apart(blocks.to_set(), n)
    &&& !blocks.to_set().contains(no_state())
    &&& forall|x: usize| x < n ==> covered(blocks.to_set(), x)
}

/// A state of the machine is in its block, and in no other.
pub proof fn lemma_block_of(blocks: Seq<Seq<usize>>, n: nat, x: usize)
    requires
        blocks_of(blocks, n),
        x < n,
    ensures
        block_of(blocks, x) < blocks.len(),
        blocks[block_of(blocks, x) as int].contains(x),
        forall|k: int| 0 <= k < blocks.len() && (#[trigger] blocks[k]).contains(x) ==> k == block_of(blocks, x),
{
    assert(covered(blocks.to_set(), x));
    let b = choose|b: Seq<usize>| blocks.to_set().contains(b) && b.contains(x);
    let k = choose|k: int| 0 <= k < blocks.len() && blocks[k] == b;
    lemma_first_block(blocks, x, k, n);
    assert forall|j: int| 0 <= j < blocks.len() && (#[trigger] blocks[j]).contains(x) implies j == block_of(blocks, x) by {
        lemma_first_block(blocks, x, j, n);
    }
}

/// What the lifted blocks hold.
pub proof fn lemma_lift_block(blocks: Seq<Seq<usize>>, q: Seq<usize>, n: nat)
    ensures
        increasing::<usize>(lift_block(blocks, n)(q)),
        below(lift_block(blocks, n)(q).to_set(), n),
        forall|x: usize| #[trigger] lift_block(blocks, n)(q).contains(x) <==> x < n && q.contains(block_of(blocks, x)),
{
    let s = members(blocks, q, n);
    lemma_below_finite(s, n);
    lemma_sorted_of::<usize>(s);
    let c = lift_block(blocks, n)(q);
    assert forall|x: usize| #[trigger] c.contains(x) <==> x < n && q.contains(block_of(blocks, x)) by {
        assert(c.contains(x) <==> c.to_set().contains(x));
    }
}

/// States are together in the lifted partition exactly if their blocks
/// are together in the partition.
pub proof fn lemma_lift_together(blocks: Seq<Seq<usize>>, fine: Blocks, n: nat, x: usize, y: usize)
    requires
        fine.finite(),
    ensures
        together(lift(blocks, fine, n), x, y) <==> x < n && y < n && together(fine, block_of(blocks, x), block_of(blocks, y)),
{
    let q = lift(blocks, fine, n);
    if together(q, x, y) {
        let c = choose|c: Seq<usize>| #[trigger] q.contains(c) && c.contains(x) && c.contains(y);
        let b = choose|b: Seq<usize>| fine.contains(b) && lift_block(blocks, n)(b) == c;
        lemma_lift_block(blocks, b, n);
        assert(fine.contains(b) && b.contains(block_of(blocks, x)) && b.contains(block_of(blocks, y)));
    }
    if x < n && y < n && together(fine, block_of(blocks, x), block_of(blocks, y)) {
        let b = choose|b: Seq<usize>| #[trigger] fine.contains(b) && b.contains(block_of(blocks, x)) && b.contains(block_of(blocks, y));
        lemma_lift_block(blocks, b, n);
        let c = lift_block(blocks, n)(b);
        assert(q.contains(c));
        assert(q.contains(c) && c.contains(x) && c.contains(y));
    }
}

/// The lifted partition is a partition of the states of the machine.
pub proof fn lemma_lift_apart(blocks: Seq<Seq<usize>>, fine: Blocks, n: nat)
    requires
        blocks_of(blocks, n),
        apart(fine, blocks.len()),
        forall|k: usize| k < blocks.len() ==> covered(fine, k),
    ensures
        apart(lift(blocks, fine, n), n),
        forall|x: usize| x < n ==> covered(lift(blocks, fine, n), x),
{
    let q = lift(blocks, fine, n);
    fine.lemma_map_finite(lift_block(blocks, n));
    assert forall|c: Seq<usize>| #[trigger] q.contains(c) implies increasing::<usize>(c) && below(c.to_set(), n) by {
        let b = choose|b: Seq<usize>| fine.contains(b) && lift_block(blocks, n)(b) == c;
        lemma_lift_block(blocks, b, n);
    }
    assert forall|c: Seq<usize>, d: Seq<usize>, x: usize| q.contains(c) && q.contains(d) && #[trigger] c.contains(x) && #[trigger] d.contains(x) implies c == d by {
        let b = choose|b: Seq<usize>| fine.contains(b) && lift_block(blocks, n)(b) == c;
        let e = choose|e: Seq<usize>| fine.contains(e) && lift_block(blocks, n)(e) == d;
        lemma_lift_block(blocks, b, n);
        lemma_lift_block(blocks, e, n);
        assert(b.contains(block_of(blocks, x)) && e.contains(block_of(blocks, x)));
        assert(b == e);
    }
    assert forall|x: usize| x < n implies covered(q, x) by {
        lemma_block_of(blocks, n, x);
        assert(covered(fine, block_of(blocks, x)));
        let b = choose|b: Seq<usize>| fine.contains(b) && b.contains(block_of(blocks, x));
        lemma_lift_block(blocks, b, n);
        let c = lift_block(blocks, n)(b);
        assert(q.contains(c) && c.contains(x));
    }
}

/// Whether some transitions between blocks make the machine of the blocks
/// of a machine: one for each transition of the machine, with its label,
/// between the blocks of its ends, and no others.
pub open spec fn quotient_of(edges: Seq<(usize, usize)>, labels: Seq<MachineLabelView>, blocks: Seq<Seq<usize>>, st: Merged) -> bool {
    &&& machine_ok(blocks.len(), st.edges, st.labels)
    &&& forall|e: int| 0 <= e < edges.len() ==> has_edge(st, #[trigger] lifted(edges, labels, blocks, e))
    &&& forall|j: int| 0 <= j < st.edges.len() ==> stands_for(edges, labels, blocks, ((#[trigger] st.edges[j]).0, st.labels[j], st.edges[j].1))
}

/// A state has transitions exactly if its block has, where the blocks keep
/// states without transitions apart from the others.
proof fn lemma_ends(edges: Seq<(usize, usize)>, labels: Seq<MachineLabelView>, n: nat, blocks: Seq<Seq<usize>>, st: Merged, x: usize)
    requires
        machine_ok(n, edges, labels),
        blocks_of(blocks, n),
        finer(blocks.to_set(), first_partition(n, edges)),
        quotient_of(edges, labels, blocks, st),
        x < n,
    ensures
        ends(edges, x) == ends(st.edges, block_of(blocks, x)),
{
    let ix = block_of(blocks, x);
    lemma_block_of(blocks, n, x);
    lemma_edge_ids_at(edges, x, true, edges.len() as int);
    lemma_edge_ids_at(st.edges, ix, true, st.edges.len() as int);
    if !ends(edges, x) {
        let e = edges_from(edges, x)[0] as int;
        assert(edges[e].0 == x);
        assert(has_edge(st, lifted(edges, labels, blocks, e)));
        let j = choose|j: int| 0 <= j < st.edges.len() && (#[trigger] st.edges[j]) == (lifted(edges, labels, blocks, e).0, lifted(edges, labels, blocks, e).2) && st.labels[j] == lifted(edges, labels, blocks, e).1;
        assert(st.edges[j].0 == ix);
        assert(edges_from(st.edges, ix).contains(j as usize));
    }
    if !ends(st.edges, ix) {
        let j = edges_from(st.edges, ix)[0] as int;
        assert(st.edges[j].0 == ix);
        assert(stands_for(edges, labels, blocks, (st.edges[j].0, st.labels[j], st.edges[j].1)));
        let e = choose|e: int| 0 <= e < edges.len() && #[trigger] lifted(edges, labels, blocks, e) == (st.edges[j].0, st.labels[j], st.edges[j].1);
        let x0 = edges[e].0;
        lemma_block_of(blocks, n, x0);
        lemma_edge_ids_at(edges, x0, true, edges.len() as int);
        assert(edges_from(edges, x0).contains(e as usize));
        assert(blocks.to_set().contains(blocks[ix as int]));
        assert(together(blocks.to_set(), x0, x));
        lemma_first_partition(n, edges);
        assert(together(first_partition(n, edges), x0, x));
    }
}

/// The lifted partition keeps states without transitions apart from the
/// others if the partition does so among the blocks.
pub proof fn lemma_lift_finer(edges: Seq<(usize, usize)>, labels: Seq<MachineLabelView>, n: nat, blocks: Seq<Seq<usize>>, st: Merged, fine: Blocks)
    requires
        machine_ok(n, edges, labels),
        blocks_of(blocks, n),
        finer(blocks.to_set(), first_partition(n, edges)),
        quotient_of(edges, labels, blocks, st),
        fine.finite(),
        finer(fine, first_partition(blocks.len(), st.edges)),
    ensures
        finer(lift(blocks, fine, n), first_partition(n, edges)),
{
    assert forall|x: usize, y: usize| #[trigger] together(lift(blocks, fine, n), x, y) implies together(first_partition(n, edges), x, y) by {
        lemma_lift_together(blocks, fine, n, x, y);
        let ix = block_of(blocks, x);
        let iy = block_of(blocks, y);
        assert(together(fine, ix, iy));
        assert(together(first_partition(blocks.len(), st.edges), ix, iy));
        lemma_first_partition(blocks.len(), st.edges);
        lemma_ends(edges, labels, n, blocks, st, x);
        lemma_ends(edges, labels, n, blocks, st, y);
        lemma_first_partition(n, edges);
    }
}

/// In the lifted partition a state that is together with a state that
/// moves into a lifted block moves into that block too.
proof fn lemma_lift_moves(edges: Seq<(usize, usize)>, labels: Seq<MachineLabelView>, n: nat, blocks: Seq<Seq<usize>>, st: Merged, fine: Blocks, t2: Seq<usize>, b2: Seq<usize>, l: MachineLabelView, x: usize, y: usize)
    requires
        machine_ok(n, edges, labels),
        blocks_of(blocks, n),
        steady(blocks.to_set(), edges, labels),
        quotient_of(edges, labels, blocks, st),
        steady(fine, st.edges, st.labels),
        fine.contains(t2),
        fine.contains(b2),
        x < n,
        y < n,
        b2.contains(block_of(blocks, x)),
        b2.contains(block_of(blocks, y)),
        moves_into(edges, labels, x, l, lift_block(blocks, n)(t2).to_set()),
    ensures
        moves_into(edges, labels, y, l, lift_block(blocks, n)(t2).to_set()),
{
    let big = lift_block(blocks, n)(t2);
    lemma_lift_block(blocks, t2, n);
    let ix = block_of(blocks, x);
    let iy = block_of(blocks, y);
    lemma_block_of(blocks, n, x);
    lemma_block_of(blocks, n, y);
    // the move of the first state, among the blocks
    let ids = edges_from(edges, x);
    lemma_edge_ids_at(edges, x, true, edges.len() as int);
    let k = choose|k: int| 0 <= k < ids.len() && labels[(#[trigger] ids[k]) as int] == l && big.to_set().contains(edges[ids[k] as int].1);
    let e = ids[k] as int;
    let z = edges[e].1;
    assert(big.contains(z));
    assert(has_edge(st, lifted(edges, labels, blocks, e)));
    let j = choose|j: int| 0 <= j < st.edges.len() && (#[trigger] st.edges[j]) == (lifted(edges, labels, blocks, e).0, lifted(edges, labels, blocks, e).2) && st.labels[j] == lifted(edges, labels, blocks, e).1;
    assert(st.edges[j] == (ix, block_of(blocks, z)) && st.labels[j] == l);
    lemma_pre_label(st.edges, st.labels, t2, j);
    lemma_moves(st.edges, st.labels, j, t2.to_set());
    assert(agreed(fine, st.edges, st.labels, t2.to_set(), l));
    assert(moves_into(st.edges, st.labels, iy, l, t2.to_set()));
    // the move of the block of the second state, in the machine
    let ids2 = edges_from(st.edges, iy);
    lemma_edge_ids_at(st.edges, iy, true, st.edges.len() as int);
    let k2 = choose|k2: int| 0 <= k2 < ids2.len() && st.labels[(#[trigger] ids2[k2]) as int] == l && t2.to_set().contains(st.edges[ids2[k2] as int].1);
    let j2 = ids2[k2] as int;
    let c = st.edges[j2].1;
    assert(st.edges[j2].0 == iy);
    assert(stands_for(edges, labels, blocks, (st.edges[j2].0, st.labels[j2], st.edges[j2].1)));
    let e2 = choose|e2: int| 0 <= e2 < edges.len() && #[trigger] lifted(edges, labels, blocks, e2) == (st.edges[j2].0, st.labels[j2], st.edges[j2].1);
    let y0 = edges[e2].0;
    let z0 = edges[e2].1;
    lemma_block_of(blocks, n, y0);
    lemma_block_of(blocks, n, z0);
    let from = blocks[iy as int];
    let to = blocks[c as int];
    assert(blocks.to_set().contains(from) && blocks.to_set().contains(to));
    lemma_pre_label(edges, labels, to, e2);
    lemma_moves(edges, labels, e2, to.to_set());
    assert(agreed(blocks.to_set(), edges, labels, to.to_set(), l));
    assert(from.contains(y0) && from.contains(y));
    assert(moves_into(edges, labels, y, l, to.to_set()));
    let ids3 = edges_from(edges, y);
    lemma_edge_ids_at(edges, y, true, edges.len() as int);
    let k3 = choose|k3: int| 0 <= k3 < ids3.len() && labels[(#[trigger] ids3[k3]) as int] == l && to.to_set().contains(edges[ids3[k3] as int].1);
    let z3 = edges[ids3[k3] as int].1;
    assert(to.contains(z3));
    lemma_block_of(blocks, n, z3);
    assert(block_of(blocks, z3) == c);
    assert(t2.contains(c));
    assert(big.contains(z3));
    assert(big.to_set().contains(z3));
}

/// The lifted partition of a steady partition of the machine of the blocks
/// of a steady partition is steady.
pub proof fn lemma_lift_steady(edges: Seq<(usize, usize)>, labels: Seq<MachineLabelView>, n: nat, blocks: Seq<Seq<usize>>, st: Merged, fine: Blocks)
    requires
        machine_ok(n, edges, labels),
        blocks_of(blocks, n),
        steady(blocks.to_set(), edges, labels),
        quotient_of(edges, labels, blocks, st),
        fine.finite(),
        steady(fine, st.edges, st.labels),
    ensures
        steady(lift(blocks, fine, n), edges, labels),
{
    let q = lift(blocks, fine, n);
    assert forall|sup: Seq<usize>, l: MachineLabelView| #[trigger] q.contains(sup) && #[trigger] pre_labels_of(edges, labels, sup).contains(l) implies agreed(q, edges, labels, sup.to_set(), l) by {
        let t2 = choose|t2: Seq<usize>| fine.contains(t2) && lift_block(blocks, n)(t2) == sup;
        assert forall|b: Seq<usize>, x: usize, y: usize| q.contains(b) && #[trigger] b.contains(x) && #[trigger] b.contains(y) implies moves_into(edges, labels, x, l, sup.to_set()) == moves_into(edges, labels, y, l, sup.to_set()) by {
            let b2 = choose|b2: Seq<usize>| fine.contains(b2) && lift_block(blocks, n)(b2) == b;
            lemma_lift_block(blocks, b2, n);
            if moves_into(edges, labels, x, l, sup.to_set()) {
                lemma_lift_moves(edges, labels, n, blocks, st, fine, t2, b2, l, x, y);
            }
            if moves_into(edges, labels, y, l, sup.to_set()) {
                lemma_lift_moves(edges, labels, n, blocks, st, fine, t2, b2, l, y, x);
            }
        }
    }
}

/// Whether a partition of the states of a machine is one with which
/// refinement ends well: its blocks are apart and hold a state each, no
/// state is left out, it is steady, it keeps states without transitions
/// apart from the others, and it keeps apart only what every steady
/// partition that does so keeps apart.
pub open spec fn refined_well(n: nat, edges: Seq<(usize, usize)>, labels: Seq<MachineLabelView>, p: Blocks) -> bool {
    &&& apart(p, n)
    &&& forall|x: usize| x < n ==> covered(p, x)
    &&& !p.contains(no_state())
    &&& steady(p, edges, labels)
    &&& finer(p, first_partition(n, edges))
    &&& coarsest_below(p, first_partition(n, edges), edges, labels, n)
}

/// The blocks of a partition with which refinement ends well, in their
/// order.
proof fn lemma_blocks(n: nat, edges: Seq<(usize, usize)>, labels: Seq<MachineLabelView>, p: Blocks)
    requires
        n <= usize::MAX,
        refined_well(n, edges, labels, p),
    ensures
        blocks_of(sorted::<OrdSet<usize>>(p), n),
        sorted::<OrdSet<usize>>(p).to_set() == p,
{
    let blocks = sorted::<OrdSet<usize>>(p);
    lemma_sorted_of::<OrdSet<usize>>(p);
    increasing_no_duplicates::<OrdSet<usize>>(blocks);
    lemma_heads(p, n);
    assert(p.remove(no_state()) =~= p);
}

/// The machine of the blocks with which refinement ends well is not made
/// smaller by refining it again: a steady partition of its states that
/// leaves no state out and keeps the states without transitions apart from
/// the others keeps every two states apart.
pub proof fn lemma_minimal_stays(m: MachineView, fine: Blocks)
    requires
        machine_ok(m.nodes.len(), m.edges, m.labels),
        refined_well(m.nodes.len(), m.edges, m.labels, refinement(m.nodes.len(), m.edges, m.labels)),
        machine_ok(minimal_view(m).nodes.len(), minimal_view(m).edges, minimal_view(m).labels),
        steady_below(fine, first_partition(minimal_view(m).nodes.len(), minimal_view(m).edges), minimal_view(m).edges, minimal_view(m).labels, minimal_view(m).nodes.len()),
    ensures
        forall|a: usize, b: usize| #[trigger] together(fine, a, b) ==> a == b,
{
    let n = m.nodes.len();
    let p = refinement(n, m.edges, m.labels);
    let first = first_partition(n, m.edges);
    let blocks = sorted::<OrdSet<usize>>(p);
    lemma_blocks(n, m.edges, m.labels, p);
    let st = fold(indices(n), Merged { edges: Seq::empty(), labels: Seq::empty(), seen: Set::empty() }, merge_node_step(m.edges, m.labels, blocks));
    lemma_quotient(m.edges, m.labels, blocks, n);
    let q = minimal_view(m);
    assert(q.edges == st.edges && q.labels == st.labels && q.nodes.len() == blocks.len());
    assert(quotient_of(m.edges, m.labels, blocks, st));
    let up = lift(blocks, fine, n);
    lemma_lift_apart(blocks, fine, n);
    lemma_lift_finer(m.edges, m.labels, n, blocks, st, fine);
    lemma_lift_steady(m.edges, m.labels, n, blocks, st, fine);
    assert(steady_below(up, first, m.edges, m.labels, n));
    lemma_coarsest(p, first, up, m.edges, m.labels, n);
    assert forall|a: usize, b: usize| #[trigger] together(fine, a, b) implies a == b by {
        let c = choose|c: Seq<usize>| #[trigger] fine.contains(c) && c.contains(a) && c.contains(b);
        assert(c.to_set().contains(a) && c.to_set().contains(b));
        assert(a < blocks.len() && b < blocks.len());
        let ba = blocks[a as int];
        let bb = blocks[b as int];
        assert(p.contains(ba) && p.contains(bb));
        assert(ba.len() > 0) by {
            if ba.len() == 0 {
                assert(ba =~= no_state());
            }
        }
        assert(bb.len() > 0) by {
            if bb.len() == 0 {
                assert(bb =~= no_state());
            }
        }
        let x = ba[0];
        let y = bb[0];
        assert(ba.contains(x) && bb.contains(y));
        assert(ba.to_set().contains(x) && bb.to_set().contains(y));
        lemma_block_of(blocks, n, x);
        lemma_block_of(blocks, n, y);
        assert(block_of(blocks, x) == a && block_of(blocks, y) == b);
        lemma_lift_together(blocks, fine, n, x, y);
        assert(together(up, x, y));
        assert(together(p, x, y));
        let d = choose|d: Seq<usize>| #[trigger] p.contains(d) && d.contains(x) && d.contains(y);
        assert(d == ba && d == bb);
    }
}

} // verus!
