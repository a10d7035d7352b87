//! Partitions of the states of a machine: what refinement keeps of them,
//! and why it ends.
use crate::bounds::below;
use crate::composition::composition_machine::{covered, distinct_out, moves_into, pre_label_edge_step, pre_label_step, pre_labels_of, refine_step, refined, refined_block, split_step, Blocks};
use crate::topology::{edges_from, edges_into, lemma_edge_ids_at};
use crate::ordset::{increasing, lemma_increasing_at, lemma_sorted_of, sorted, OrdSet};
use crate::seqs::{fold, fold_upto};
use crate::types::MachineLabelView;
use vstd::prelude::*;
use vstd::relations::injective_on;
use vstd::set_lib::*;

verus! {

/// Whether the blocks are finitely many increasing sequences of states of
/// a machine with `n` states, no state in two of them.
pub open spec fn apart(p: Blocks, n: nat) -> bool {
    &&& p.finite()
    &&& forall|b: Seq<usize>| #[trigger] p.contains(b) ==> increasing::<usize>(b) && below(b.to_set(), n)
    &&& forall|a: Seq<usize>, b: Seq<usize>, x: usize| p.contains(a) && p.contains(b) && #[trigger] a.contains(x) && #[trigger] b.contains(x) ==> a == b
}

/// Whether a block holds both of two states.
pub open spec fn together(p: Blocks, x: usize, y: usize) -> bool {
    exists|b: Seq<usize>| #[trigger] p.contains(b) && b.contains(x) && b.contains(y)
}

/// Whether states that are together in one partition are together in
/// another.
pub open spec fn finer(q: Blocks, p: Blocks) -> bool {
    forall|x: usize, y: usize| #[trigger] together(q, x, y) ==> together(p, x, y)
}

/// The first states of the blocks that hold a state.
pub open spec fn heads(p: Blocks) -> Set<usize> {
    Set::new(|x: usize| exists|b: Seq<usize>| #[trigger] p.contains(b) && b.len() > 0 && b[0] == x)
}

/// The empty block.
pub open spec fn no_state() -> Seq<usize> {
    Seq::<usize>::empty()
}

/// Blocks that are apart have as many first states as there are blocks
/// that hold a state, and no more than the machine has states.
pub proof fn lemma_heads(p: Blocks, n: nat)
    requires
        apart(p, n),
    ensures
        heads(p).finite(),
        heads(p).len() == p.remove(no_state()).len(),
        heads(p).len() <= n,
{
    broadcast use group_set_properties;

    let full = p.remove(no_state());
    let first = |b: Seq<usize>| b[0];
    assert(injective_on(first, full)) by {
        assert forall|a: Seq<usize>, b: Seq<usize>| full.contains(a) && full.contains(b) && #[trigger] first(a) == #[trigger] first(b) implies a == b by {
            assert(a.len() > 0) by {
                if a.len() == 0 {
                    assert(a =~= no_state());
                }
            }
            assert(b.len() > 0) by {
                if b.len() == 0 {
                    assert(b =~= no_state());
                }
            }
            assert(a.contains(a[0]));
            assert(b.contains(b[0]));
        }
    }
    assert(full.map(first) =~= heads(p)) by {
        assert forall|x: usize| heads(p).contains(x) implies full.map(first).contains(x) by {
            let b = choose|b: Seq<usize>| #[trigger] p.contains(b) && b.len() > 0 && b[0] == x;
            assert(full.contains(b) && first(b) == x);
        }
        assert forall|x: usize| full.map(first).contains(x) implies heads(p).contains(x) by {
            let b = choose|b: Seq<usize>| full.contains(b) && first(b) == x;
            if b.len() == 0 {
                assert(b =~= no_state());
            }
            assert(p.contains(b) && b.len() > 0 && b[0] == x);
        }
    }
    lemma_map_size(full, heads(p), first);
    let ids = set_int_range(0, n as int);
    lemma_int_range(0, n as int);
    let as_int = |x: usize| x as int;
    assert(injective_on(as_int, heads(p)));
    let image = heads(p).map(as_int);
    lemma_map_size(heads(p), image, as_int);
    assert(image.subset_of(ids)) by {
        assert forall|i: int| image.contains(i) implies ids.contains(i) by {
            let x = choose|x: usize| heads(p).contains(x) && as_int(x) == i;
            let b = choose|b: Seq<usize>| #[trigger] p.contains(b) && b.len() > 0 && b[0] == x;
            assert(b.to_set().contains(b[0]));
        }
    }
    lemma_len_subset(image, ids);
}

/// The split of the first states of a block: the two parts hold those
/// states and no others, each state in the part that says whether it has
/// the move.
pub proof fn lemma_split(edges: Seq<(usize, usize)>, labels: Seq<MachineLabelView>, block: Seq<usize>, sup: Set<usize>, l: MachineLabelView, upto: int)
    requires
        0 <= upto <= block.len(),
    ensures
        ({
            let p = fold_upto(block, (Set::<usize>::empty(), Set::<usize>::empty()), split_step(edges, labels, sup, l), upto);
            &&& p.0.finite()
            &&& p.1.finite()
            &&& forall|x: usize| p.0.contains(x) <==> block.take(upto).contains(x) && moves_into(edges, labels, x, l, sup)
            &&& forall|x: usize| p.1.contains(x) <==> block.take(upto).contains(x) && !moves_into(edges, labels, x, l, sup)
        }),
    decreases upto,
{
    if upto > 0 {
        lemma_split(edges, labels, block, sup, l, upto - 1);
        let before = fold_upto(block, (Set::<usize>::empty(), Set::<usize>::empty()), split_step(edges, labels, sup, l), upto - 1);
        let p = fold_upto(block, (Set::<usize>::empty(), Set::<usize>::empty()), split_step(edges, labels, sup, l), upto);
        let y = block[upto - 1];
        let prev = block.take(upto - 1);
        let cur = block.take(upto);
        assert forall|x: usize| cur.contains(x) <==> prev.contains(x) || x == y by {
            if cur.contains(x) {
                let i = choose|i: int| 0 <= i < cur.len() && cur[i] == x;
                if i < upto - 1 {
                    assert(prev[i] == x);
                }
            }
            if prev.contains(x) {
                let i = choose|i: int| 0 <= i < prev.len() && prev[i] == x;
                assert(cur[i] == x);
            }
            if x == y {
                assert(cur[upto - 1] == x);
            }
        }
    }
}

/// What a block is split into: parts that hold a state, increasing, of
/// states of the block, no state in two of them, each state of the block
/// in one of them; and the block itself where all of its states have the
/// move or none has.
pub proof fn lemma_refined_block(edges: Seq<(usize, usize)>, labels: Seq<MachineLabelView>, block: Seq<usize>, sup: Set<usize>, l: MachineLabelView)
    requires
        increasing::<usize>(block),
    ensures
        ({
            let r = refined_block(edges, labels, block, sup, l);
            &&& r.finite()
            &&& forall|q: Seq<usize>| #[trigger] r.contains(q) ==> increasing::<usize>(q) && q.len() > 0 && q.to_set().subset_of(block.to_set())
            &&& forall|a: Seq<usize>, b: Seq<usize>, x: usize| r.contains(a) && r.contains(b) && #[trigger] a.contains(x) && #[trigger] b.contains(x) ==> a == b
            &&& forall|x: usize| block.contains(x) ==> covered(r, x)
            &&& forall|q: Seq<usize>, x: usize, y: usize| r.contains(q) && #[trigger] q.contains(x) && #[trigger] q.contains(y) ==> moves_into(edges, labels, x, l, sup) == moves_into(edges, labels, y, l, sup)
            &&& (forall|a: Seq<usize>, b: Seq<usize>| r.contains(a) && r.contains(b) ==> a == b) ==> block.len() == 0 || r == Set::<Seq<usize>>::empty().insert(block)
            &&& forall|x: usize, y: usize|
                block.contains(x) && block.contains(y) && moves_into(edges, labels, x, l, sup) == moves_into(edges, labels, y, l, sup) ==> #[trigger] together(r, x, y)
        }),
{
    broadcast use group_set_properties;

    let p = fold(block, (Set::<usize>::empty(), Set::<usize>::empty()), split_step(edges, labels, sup, l));
    let r = refined_block(edges, labels, block, sup, l);
    lemma_split(edges, labels, block, sup, l, block.len() as int);
    assert(block.take(block.len() as int) =~= block);
    lemma_sorted_of::<usize>(p.0);
    lemma_sorted_of::<usize>(p.1);
    let yes = sorted::<usize>(p.0);
    let no = sorted::<usize>(p.1);
    assert(r.contains(yes) <==> p.0 != Set::<usize>::empty());
    assert(r.contains(no) <==> p.1 != Set::<usize>::empty());
    assert forall|q: Seq<usize>| #[trigger] r.contains(q) implies q == yes && p.0 != Set::<usize>::empty() || q == no && p.1 != Set::<usize>::empty() by {
    }
    assert forall|q: Seq<usize>| #[trigger] r.contains(q) implies increasing::<usize>(q) && q.len() > 0 && q.to_set().subset_of(block.to_set()) by {
        if q == yes && p.0 != Set::<usize>::empty() {
            assert(p.0.len() > 0);
        } else {
            assert(p.1.len() > 0);
        }
    }
    assert forall|a: Seq<usize>, b: Seq<usize>, x: usize| r.contains(a) && r.contains(b) && #[trigger] a.contains(x) && #[trigger] b.contains(x) implies a == b by {
        assert(a.to_set().contains(x));
        assert(b.to_set().contains(x));
    }
    assert forall|x: usize| block.contains(x) implies covered(r, x) by {
        if moves_into(edges, labels, x, l, sup) {
            assert(p.0.contains(x));
            assert(yes.to_set().contains(x));
            assert(r.contains(yes) && yes.contains(x));
        } else {
            assert(p.1.contains(x));
            assert(no.to_set().contains(x));
            assert(r.contains(no) && no.contains(x));
        }
    }
    assert forall|q: Seq<usize>, x: usize, y: usize| r.contains(q) && #[trigger] q.contains(x) && #[trigger] q.contains(y) implies moves_into(edges, labels, x, l, sup) == moves_into(edges, labels, y, l, sup) by {
        assert(q.to_set().contains(x));
        assert(q.to_set().contains(y));
    }
    assert forall|x: usize, y: usize| block.contains(x) && block.contains(y) && moves_into(edges, labels, x, l, sup) == moves_into(edges, labels, y, l, sup) implies #[trigger] together(r, x, y) by {
        if moves_into(edges, labels, x, l, sup) {
            assert(p.0.contains(x) && p.0.contains(y));
            assert(yes.to_set().contains(x) && yes.to_set().contains(y));
            assert(r.contains(yes) && yes.contains(x) && yes.contains(y));
        } else {
            assert(p.1.contains(x) && p.1.contains(y));
            assert(no.to_set().contains(x) && no.to_set().contains(y));
            assert(r.contains(no) && no.contains(x) && no.contains(y));
        }
    }
    if (forall|a: Seq<usize>, b: Seq<usize>| r.contains(a) && r.contains(b) ==> a == b) && block.len() > 0 {
        assert(block.contains(block[0]));
        if p.0 != Set::<usize>::empty() && p.1 != Set::<usize>::empty() {
            assert(yes != no) by {
                let x = p.0.choose();
                assert(yes.to_set().contains(x));
                if yes == no {
                    assert(no.to_set().contains(x));
                }
            }
            assert(r.contains(yes) && r.contains(no));
        }
        if p.1 == Set::<usize>::empty() {
            assert(p.0 =~= block.to_set());
            crate::ordset::increasing_unique::<usize>(yes, block);
            assert(r =~= Set::<Seq<usize>>::empty().insert(block));
        } else {
            assert(p.0 == Set::<usize>::empty());
            assert(p.1 =~= block.to_set());
            crate::ordset::increasing_unique::<usize>(no, block);
            assert(r =~= Set::<Seq<usize>>::empty().insert(block));
        }
    }
}

/// The parts into which the first blocks of a list are split.
pub proof fn lemma_refined_upto(edges: Seq<(usize, usize)>, labels: Seq<MachineLabelView>, list: Seq<Seq<usize>>, sup: Set<usize>, l: MachineLabelView, upto: int)
    requires
        0 <= upto <= list.len(),
        forall|i: int| 0 <= i < list.len() ==> increasing::<usize>(#[trigger] list[i]),
    ensures
        fold_upto(list, Set::<Seq<usize>>::empty(), refine_step(edges, labels, sup, l), upto).finite(),
        forall|q: Seq<usize>|
            fold_upto(list, Set::<Seq<usize>>::empty(), refine_step(edges, labels, sup, l), upto).contains(q) <==> exists|i: int| 0 <= i < upto && #[trigger] refined_block(edges, labels, list[i], sup, l).contains(q),
    decreases upto,
{
    broadcast use group_set_properties;

    if upto > 0 {
        lemma_refined_upto(edges, labels, list, sup, l, upto - 1);
        lemma_refined_block(edges, labels, list[upto - 1], sup, l);
        let before = fold_upto(list, Set::<Seq<usize>>::empty(), refine_step(edges, labels, sup, l), upto - 1);
        let after = fold_upto(list, Set::<Seq<usize>>::empty(), refine_step(edges, labels, sup, l), upto);
        assert forall|q: Seq<usize>| after.contains(q) <==> exists|i: int| 0 <= i < upto && #[trigger] refined_block(edges, labels, list[i], sup, l).contains(q) by {
            if after.contains(q) {
                if before.contains(q) {
                    let i = choose|i: int| 0 <= i < upto - 1 && #[trigger] refined_block(edges, labels, list[i], sup, l).contains(q);
                    assert(0 <= i < upto && refined_block(edges, labels, list[i], sup, l).contains(q));
                } else {
                    assert(refined_block(edges, labels, list[upto - 1], sup, l).contains(q));
                }
            }
            if exists|i: int| 0 <= i < upto && #[trigger] refined_block(edges, labels, list[i], sup, l).contains(q) {
                let i = choose|i: int| 0 <= i < upto && #[trigger] refined_block(edges, labels, list[i], sup, l).contains(q);
                if i < upto - 1 {
                    assert(before.contains(q));
                }
            }
        }
    }
}

/// Whether the states of each block agree on the move with a label into a
/// set of states: all have it or none has.
pub open spec fn agreed(p: Blocks, edges: Seq<(usize, usize)>, labels: Seq<MachineLabelView>, sup: Set<usize>, l: MachineLabelView) -> bool {
    forall|b: Seq<usize>, x: usize, y: usize| p.contains(b) && #[trigger] b.contains(x) && #[trigger] b.contains(y) ==> moves_into(edges, labels, x, l, sup) == moves_into(edges, labels, y, l, sup)
}

/// What refinement makes of blocks that are apart: blocks that are apart,
/// each with a state and inside a block that was, each state that a block
/// held in one of them, the states of each agreed on the move, and at
/// least the first states that there were.
pub proof fn lemma_refined(edges: Seq<(usize, usize)>, labels: Seq<MachineLabelView>, p: Blocks, sup: Set<usize>, l: MachineLabelView, n: nat)
    requires
        apart(p, n),
    ensures
        apart(refined(edges, labels, p, sup, l), n),
        !refined(edges, labels, p, sup, l).contains(no_state()),
        heads(p).subset_of(heads(refined(edges, labels, p, sup, l))),
        forall|x: usize| covered(p, x) ==> covered(refined(edges, labels, p, sup, l), x),
        agreed(refined(edges, labels, p, sup, l), edges, labels, sup, l),
        forall|q: Seq<usize>| #[trigger] refined(edges, labels, p, sup, l).contains(q) ==> exists|b: Seq<usize>| #[trigger] p.contains(b) && q.to_set().subset_of(b.to_set()),
        forall|q: Seq<usize>| #[trigger] refined(edges, labels, p, sup, l).contains(q) <==> exists|b: Seq<usize>| #[trigger] p.contains(b) && refined_block(edges, labels, b, sup, l).contains(q),
{
    broadcast use group_set_properties;

    let list = sorted::<OrdSet<usize>>(p);
    lemma_sorted_of::<OrdSet<usize>>(p);
    let r = refined(edges, labels, p, sup, l);
    assert forall|i: int| 0 <= i < list.len() implies increasing::<usize>(#[trigger] list[i]) by {
        assert(list.to_set().contains(list[i]));
    }
    lemma_refined_upto(edges, labels, list, sup, l, list.len() as int);
    assert forall|q: Seq<usize>| #[trigger] r.contains(q) implies exists|b: Seq<usize>| #[trigger] p.contains(b) && refined_block(edges, labels, b, sup, l).contains(q) by {
        let i = choose|i: int| 0 <= i < list.len() && #[trigger] refined_block(edges, labels, list[i], sup, l).contains(q);
        assert(list.to_set().contains(list[i]));
        assert(p.contains(list[i]) && refined_block(edges, labels, list[i], sup, l).contains(q));
    }
    assert forall|b: Seq<usize>, q: Seq<usize>| p.contains(b) && #[trigger] refined_block(edges, labels, b, sup, l).contains(q) implies r.contains(q) by {
        assert(list.to_set().contains(b));
        let i = choose|i: int| 0 <= i < list.len() && list[i] == b;
        assert(refined_block(edges, labels, list[i], sup, l).contains(q));
    }
    assert forall|q: Seq<usize>| #[trigger] r.contains(q) implies increasing::<usize>(q) && below(q.to_set(), n) && q.len() > 0 && exists|b: Seq<usize>| #[trigger] p.contains(b) && q.to_set().subset_of(b.to_set()) by {
        let b = choose|b: Seq<usize>| #[trigger] p.contains(b) && refined_block(edges, labels, b, sup, l).contains(q);
        lemma_refined_block(edges, labels, b, sup, l);
        assert(q.to_set().subset_of(b.to_set()));
    }
    assert forall|a: Seq<usize>, b: Seq<usize>, x: usize| r.contains(a) && r.contains(b) && #[trigger] a.contains(x) && #[trigger] b.contains(x) implies a == b by {
        let ba = choose|ba: Seq<usize>| #[trigger] p.contains(ba) && refined_block(edges, labels, ba, sup, l).contains(a);
        let bb = choose|bb: Seq<usize>| #[trigger] p.contains(bb) && refined_block(edges, labels, bb, sup, l).contains(b);
        lemma_refined_block(edges, labels, ba, sup, l);
        lemma_refined_block(edges, labels, bb, sup, l);
        assert(a.to_set().contains(x));
        assert(b.to_set().contains(x));
        assert(ba.to_set().contains(x));
        assert(bb.to_set().contains(x));
        assert(ba.contains(x) && bb.contains(x));
    }
    assert(!r.contains(no_state()));
    assert forall|x: usize| heads(p).contains(x) implies heads(r).contains(x) by {
        let b = choose|b: Seq<usize>| #[trigger] p.contains(b) && b.len() > 0 && b[0] == x;
        lemma_refined_block(edges, labels, b, sup, l);
        assert(b.contains(x));
        assert(covered(refined_block(edges, labels, b, sup, l), x));
        let q = choose|q: Seq<usize>| refined_block(edges, labels, b, sup, l).contains(q) && q.contains(x);
        assert(r.contains(q));
        let i = choose|i: int| 0 <= i < q.len() && q[i] == x;
        if i > 0 {
            lemma_increasing_at::<usize>(q, 0, i);
            assert(q.to_set().contains(q[0]));
            assert(b.to_set().contains(q[0]));
            let j = choose|j: int| 0 <= j < b.len() && b[j] == q[0];
            if j > 0 {
                lemma_increasing_at::<usize>(b, 0, j);
            }
        }
        assert(r.contains(q) && q.len() > 0 && q[0] == x);
    }
    assert forall|x: usize| covered(p, x) implies covered(r, x) by {
        let b = choose|b: Seq<usize>| p.contains(b) && b.contains(x);
        lemma_refined_block(edges, labels, b, sup, l);
        assert(covered(refined_block(edges, labels, b, sup, l), x));
        let q = choose|q: Seq<usize>| refined_block(edges, labels, b, sup, l).contains(q) && q.contains(x);
        assert(r.contains(q) && q.contains(x));
    }
    assert(agreed(r, edges, labels, sup, l)) by {
        assert forall|q: Seq<usize>, x: usize, y: usize| r.contains(q) && #[trigger] q.contains(x) && #[trigger] q.contains(y) implies moves_into(edges, labels, x, l, sup) == moves_into(edges, labels, y, l, sup) by {
            let b = choose|b: Seq<usize>| #[trigger] p.contains(b) && refined_block(edges, labels, b, sup, l).contains(q);
            lemma_refined_block(edges, labels, b, sup, l);
        }
    }
}

/// Where refinement brings no new first state, each part of a block
/// begins with the first state of the block.
proof fn lemma_part_head(edges: Seq<(usize, usize)>, labels: Seq<MachineLabelView>, p: Blocks, block: Seq<usize>, q: Seq<usize>, sup: Set<usize>, l: MachineLabelView, n: nat)
    requires
        apart(p, n),
        p.contains(block),
        refined_block(edges, labels, block, sup, l).contains(q),
        heads(refined(edges, labels, p, sup, l)).subset_of(heads(p)),
    ensures
        block.len() > 0,
        q.contains(block[0]),
{
    let r = refined(edges, labels, p, sup, l);
    lemma_refined(edges, labels, p, sup, l, n);
    lemma_refined_block(edges, labels, block, sup, l);
    assert(r.contains(q));
    assert(q.len() > 0);
    assert(heads(r).contains(q[0]));
    assert(heads(p).contains(q[0]));
    let other = choose|other: Seq<usize>| #[trigger] p.contains(other) && other.len() > 0 && other[0] == q[0];
    assert(q.to_set().contains(q[0]));
    assert(block.to_set().contains(q[0]));
    assert(block.contains(q[0]));
    assert(other.contains(other[0]));
    assert(other == block);
    assert(q.contains(q[0]));
}

/// Where refinement brings no new first state, a block is split into
/// itself.
proof fn lemma_one_part(edges: Seq<(usize, usize)>, labels: Seq<MachineLabelView>, p: Blocks, block: Seq<usize>, sup: Set<usize>, l: MachineLabelView, n: nat)
    requires
        apart(p, n),
        !p.contains(no_state()),
        p.contains(block),
        heads(refined(edges, labels, p, sup, l)).subset_of(heads(p)),
    ensures
        refined_block(edges, labels, block, sup, l) == Set::<Seq<usize>>::empty().insert(block),
{
    let rb = refined_block(edges, labels, block, sup, l);
    lemma_refined_block(edges, labels, block, sup, l);
    assert(block.len() > 0) by {
        if block.len() == 0 {
            assert(block =~= no_state());
        }
    }
    assert forall|x: Seq<usize>, y: Seq<usize>| rb.contains(x) && rb.contains(y) implies x == y by {
        lemma_part_head(edges, labels, p, block, x, sup, l, n);
        lemma_part_head(edges, labels, p, block, y, sup, l, n);
    }
}

/// Refinement of blocks that are apart and hold a state each takes no
/// block away, and where it adds none it leaves the blocks as they are.
pub proof fn lemma_refined_same(edges: Seq<(usize, usize)>, labels: Seq<MachineLabelView>, p: Blocks, sup: Set<usize>, l: MachineLabelView, n: nat)
    requires
        apart(p, n),
        !p.contains(no_state()),
    ensures
        refined(edges, labels, p, sup, l).len() >= p.len(),
        refined(edges, labels, p, sup, l).len() == p.len() ==> refined(edges, labels, p, sup, l) == p,
{
    let r = refined(edges, labels, p, sup, l);
    lemma_refined(edges, labels, p, sup, l, n);
    lemma_heads(p, n);
    lemma_heads(r, n);
    assert(p.remove(no_state()) =~= p);
    assert(r.remove(no_state()) =~= r);
    lemma_len_subset(heads(p), heads(r));
    if r.len() == p.len() {
        lemma_subset_equality(heads(p), heads(r));
        assert forall|q: Seq<usize>| r.contains(q) implies p.contains(q) by {
            let b = choose|b: Seq<usize>| #[trigger] p.contains(b) && refined_block(edges, labels, b, sup, l).contains(q);
            lemma_one_part(edges, labels, p, b, sup, l, n);
        }
        assert forall|q: Seq<usize>| p.contains(q) implies r.contains(q) by {
            lemma_one_part(edges, labels, p, q, sup, l, n);
            assert(refined_block(edges, labels, q, sup, l).contains(q));
        }
        assert(r =~= p);
    }
}

/// One step of a sweep: what refinement by a block and a label keeps of
/// the partition that the sweep began with.
pub proof fn lemma_sweep_step(edges: Seq<(usize, usize)>, labels: Seq<MachineLabelView>, start: Blocks, before: Blocks, sup: Set<usize>, l: MachineLabelView, n: nat, whole: bool)
    requires
        apart(before, n),
        heads(start).subset_of(heads(before)),
        whole ==> !before.contains(no_state()) && before.len() >= start.len(),
    ensures
        apart(refined(edges, labels, before, sup, l), n),
        !refined(edges, labels, before, sup, l).contains(no_state()),
        heads(start).subset_of(heads(refined(edges, labels, before, sup, l))),
        whole ==> refined(edges, labels, before, sup, l).len() >= start.len(),
        whole && refined(edges, labels, before, sup, l).len() == start.len() ==> refined(edges, labels, before, sup, l) == before && before.len() == start.len() && agreed(
            before,
            edges,
            labels,
            sup,
            l,
        ),
{
    lemma_refined(edges, labels, before, sup, l, n);
    if whole {
        lemma_refined_same(edges, labels, before, sup, l, n);
    }
}

/// Whether the states of each block agree, for each block and each label
/// of a transition into it, on having a transition with the label into it.
pub open spec fn steady(p: Blocks, edges: Seq<(usize, usize)>, labels: Seq<MachineLabelView>) -> bool {
    forall|sup: Seq<usize>, l: MachineLabelView| #[trigger] p.contains(sup) && #[trigger] pre_labels_of(edges, labels, sup).contains(l) ==> agreed(p, edges, labels, sup.to_set(), l)
}

/// The labels of some edges join a set of labels and stay in it.
proof fn lemma_pre_edges(ids: Seq<usize>, labels: Seq<MachineLabelView>, acc: Set<MachineLabelView>, upto: int)
    requires
        0 <= upto <= ids.len(),
    ensures
        acc.subset_of(fold_upto(ids, acc, pre_label_edge_step(labels), upto)),
        forall|k: int| 0 <= k < upto ==> fold_upto(ids, acc, pre_label_edge_step(labels), upto).contains(labels[(#[trigger] ids[k]) as int]),
    decreases upto,
{
    if upto > 0 {
        lemma_pre_edges(ids, labels, acc, upto - 1);
    }
}

/// The labels of the transitions into the first states of a block are
/// among the labels into the block.
proof fn lemma_pre_states(edges: Seq<(usize, usize)>, labels: Seq<MachineLabelView>, block: Seq<usize>, upto: int)
    requires
        0 <= upto <= block.len(),
    ensures
        forall|i: int, k: int|
            0 <= i < upto && 0 <= k < edges_into(edges, block[i]).len() ==> fold_upto(block, Set::<MachineLabelView>::empty(), pre_label_step(edges, labels), upto).contains(
                labels[(#[trigger] edges_into(edges, block[i])[k]) as int],
            ),
    decreases upto,
{
    if upto > 0 {
        lemma_pre_states(edges, labels, block, upto - 1);
        let before = fold_upto(block, Set::<MachineLabelView>::empty(), pre_label_step(edges, labels), upto - 1);
        let ids = edges_into(edges, block[upto - 1]);
        lemma_pre_edges(ids, labels, before, ids.len() as int);
    }
}

/// The label of a transition into a state of a block is a label into the
/// block.
pub proof fn lemma_pre_label(edges: Seq<(usize, usize)>, labels: Seq<MachineLabelView>, block: Seq<usize>, e: int)
    requires
        0 <= e < edges.len(),
        edges.len() <= usize::MAX,
        block.contains(edges[e].1),
    ensures
        pre_labels_of(edges, labels, block).contains(labels[e]),
{
    let i = choose|i: int| 0 <= i < block.len() && block[i] == edges[e].1;
    lemma_edge_ids_at(edges, block[i], false, edges.len() as int);
    let ids = edges_into(edges, block[i]);
    assert(ids.contains(e as usize));
    let k = choose|k: int| 0 <= k < ids.len() && ids[k] == e as usize;
    lemma_pre_states(edges, labels, block, block.len() as int);
    assert(labels[(edges_into(edges, block[i])[k]) as int] == labels[e]);
}

/// A transition into a set of states is a move of its source into the set
/// with its label.
pub proof fn lemma_moves(edges: Seq<(usize, usize)>, labels: Seq<MachineLabelView>, e: int, sup: Set<usize>)
    requires
        0 <= e < edges.len(),
        edges.len() <= usize::MAX,
        sup.contains(edges[e].1),
    ensures
        moves_into(edges, labels, edges[e].0, labels[e], sup),
{
    lemma_edge_ids_at(edges, edges[e].0, true, edges.len() as int);
    let ids = edges_from(edges, edges[e].0);
    assert(ids.contains(e as usize));
    let k = choose|k: int| 0 <= k < ids.len() && ids[k] == e as usize;
    assert(labels[(edges_from(edges, edges[e].0)[k]) as int] == labels[e] && sup.contains(edges[edges_from(edges, edges[e].0)[k] as int].1));
}

/// Whether a transition between blocks stands for a transition of the
/// machine with the same label, from a state of the one block to a state
/// of the other.
pub open spec fn drawn(edges: Seq<(usize, usize)>, labels: Seq<MachineLabelView>, blocks: Seq<Seq<usize>>, edge: (usize, usize), label: MachineLabelView) -> bool {
    exists|e: int| 0 <= e < edges.len() && #[trigger] labels[e] == label && blocks[edge.0 as int].contains(edges[e].0) && blocks[edge.1 as int].contains(edges[e].1)
}

/// Whether the transitions between blocks are drawn from the machine, no
/// two with the same ends and label.
pub open spec fn merged_ok(edges: Seq<(usize, usize)>, labels: Seq<MachineLabelView>, blocks: Seq<Seq<usize>>, medges: Seq<(usize, usize)>, mlabels: Seq<MachineLabelView>) -> bool {
    &&& medges.len() == mlabels.len()
    &&& forall|k: int| 0 <= k < medges.len() ==> (#[trigger] medges[k]).0 < blocks.len() && medges[k].1 < blocks.len() && drawn(edges, labels, blocks, medges[k], mlabels[k])
    &&& forall|j: int, k: int| 0 <= j < k < medges.len() ==> !((#[trigger] medges[j]) == (#[trigger] medges[k]) && mlabels[j] == mlabels[k])
}

/// The machine of the blocks of a steady partition of a machine in which
/// no state has two transitions with the same label is such a machine too.
pub proof fn lemma_quotient_distinct(edges: Seq<(usize, usize)>, labels: Seq<MachineLabelView>, blocks: Seq<Seq<usize>>, medges: Seq<(usize, usize)>, mlabels: Seq<MachineLabelView>, n: nat)
    requires
        edges.len() == labels.len(),
        edges.len() <= usize::MAX,
        distinct_out(edges, labels),
        blocks.no_duplicates(),
        apart(blocks.to_set(), n),
        steady(blocks.to_set(), edges, labels),
        merged_ok(edges, labels, blocks, medges, mlabels),
    ensures
        distinct_out(medges, mlabels),
{
    let p = blocks.to_set();
    assert forall|a: int, b: int| 0 <= a < medges.len() && 0 <= b < medges.len() && a != b && (#[trigger] medges[a]).0 == (#[trigger] medges[b]).0 implies mlabels[a] != mlabels[b] by {
        if mlabels[a] == mlabels[b] {
            let l = mlabels[a];
            assert(drawn(edges, labels, blocks, medges[a], mlabels[a]));
            assert(drawn(edges, labels, blocks, medges[b], mlabels[b]));
            let ea = choose|e: int| 0 <= e < edges.len() && #[trigger] labels[e] == l && blocks[medges[a].0 as int].contains(edges[e].0) && blocks[medges[a].1 as int].contains(edges[e].1);
            let eb = choose|e: int| 0 <= e < edges.len() && #[trigger] labels[e] == l && blocks[medges[b].0 as int].contains(edges[e].0) && blocks[medges[b].1 as int].contains(edges[e].1);
            let from = blocks[medges[a].0 as int];
            let to = blocks[medges[a].1 as int];
            let other = blocks[medges[b].1 as int];
            assert(p.contains(from) && p.contains(to) && p.contains(other));
            lemma_pre_label(edges, labels, to, ea);
            lemma_moves(edges, labels, ea, to.to_set());
            assert(agreed(p, edges, labels, to.to_set(), l));
            assert(from.contains(edges[ea].0) && from.contains(edges[eb].0));
            assert(moves_into(edges, labels, edges[eb].0, l, to.to_set()));
            lemma_edge_ids_at(edges, edges[eb].0, true, edges.len() as int);
            let ids = edges_from(edges, edges[eb].0);
            let k = choose|k: int| 0 <= k < ids.len() && labels[(#[trigger] ids[k]) as int] == l && to.to_set().contains(edges[ids[k] as int].1);
            let ec = ids[k] as int;
            assert(edges[ec].0 == edges[eb].0);
            if ec != eb {
                assert(labels[ec] != labels[eb]);
            }
            assert(to.contains(edges[eb].1));
            assert(other.contains(edges[eb].1));
            assert(to == other);
            assert(medges[a].1 == medges[b].1);
            if a < b {
                assert(!(medges[a] == medges[b] && mlabels[a] == mlabels[b]));
            } else {
                assert(!(medges[b] == medges[a] && mlabels[b] == mlabels[a]));
            }
        }
    }
}

/// What holds of the transitions between blocks while they are gathered:
/// they are drawn from the machine, no two with the same ends and label,
/// each has its ends and label among those seen, and each label is one of
/// the machine.
pub closed spec fn gathered(edges: Seq<(usize, usize)>, labels: Seq<MachineLabelView>, blocks: Seq<Seq<usize>>, medges: Seq<(usize, usize)>, mlabels: Seq<MachineLabelView>, seen: Set<(usize, MachineLabelView, usize)>) -> bool {
    &&& merged_ok(edges, labels, blocks, medges, mlabels)
    &&& forall|k: int| 0 <= k < medges.len() ==> seen.contains(((#[trigger] medges[k]).0, mlabels[k], medges[k].1))
    &&& forall|k: int| 0 <= k < mlabels.len() ==> labels.contains(#[trigger] mlabels[k])
}

/// Nothing gathered is well gathered.
pub proof fn lemma_gathered_none(edges: Seq<(usize, usize)>, labels: Seq<MachineLabelView>, blocks: Seq<Seq<usize>>, seen: Set<(usize, MachineLabelView, usize)>)
    ensures
        gathered(edges, labels, blocks, Seq::empty(), Seq::empty(), seen),
{
}

/// A transition between the blocks of the ends of a transition of the
/// machine, with its label, joins what is gathered unless it was seen.
pub proof fn lemma_gathered_push(
    edges: Seq<(usize, usize)>,
    labels: Seq<MachineLabelView>,
    blocks: Seq<Seq<usize>>,
    medges: Seq<(usize, usize)>,
    mlabels: Seq<MachineLabelView>,
    seen: Set<(usize, MachineLabelView, usize)>,
    e: int,
    a: usize,
    b: usize,
)
    requires
        gathered(edges, labels, blocks, medges, mlabels, seen),
        0 <= e < edges.len(),
        edges.len() == labels.len(),
        a < blocks.len(),
        b < blocks.len(),
        blocks[a as int].contains(edges[e].0),
        blocks[b as int].contains(edges[e].1),
        !seen.contains((a, labels[e], b)),
    ensures
        gathered(edges, labels, blocks, medges.push((a, b)), mlabels.push(labels[e]), seen.insert((a, labels[e], b))),
{
    let es = medges.push((a, b));
    let ls = mlabels.push(labels[e]);
    let last = medges.len() as int;
    assert(drawn(edges, labels, blocks, es[last], ls[last])) by {
        assert(0 <= e < edges.len() && labels[e] == ls[last] && blocks[es[last].0 as int].contains(edges[e].0) && blocks[es[last].1 as int].contains(edges[e].1));
    }
    assert forall|q: int| 0 <= q < es.len() implies (#[trigger] es[q]).0 < blocks.len() && es[q].1 < blocks.len() && drawn(edges, labels, blocks, es[q], ls[q]) by {
        if q < last {
            assert(es[q] == medges[q]);
            assert(ls[q] == mlabels[q]);
        }
    }
    assert forall|j: int, q: int| 0 <= j < q < es.len() implies !((#[trigger] es[j]) == (#[trigger] es[q]) && ls[j] == ls[q]) by {
        assert(es[j] == medges[j]);
        assert(ls[j] == mlabels[j]);
        if q < last {
            assert(es[q] == medges[q]);
            assert(ls[q] == mlabels[q]);
        } else {
            assert(seen.contains((medges[j].0, mlabels[j], medges[j].1)));
        }
    }
    assert forall|q: int| 0 <= q < es.len() implies seen.insert((a, labels[e], b)).contains(((#[trigger] es[q]).0, ls[q], es[q].1)) by {
        if q < last {
            assert(es[q] == medges[q]);
            assert(ls[q] == mlabels[q]);
        }
    }
    assert forall|q: int| 0 <= q < ls.len() implies labels.contains(#[trigger] ls[q]) by {
        if q < last {
            assert(ls[q] == mlabels[q]);
        }
    }
}

/// What is gathered from a steady partition of a machine in which no
/// state has two transitions with the same label makes such a machine too,
/// and its labels are labels of the machine.
pub proof fn lemma_gathered(edges: Seq<(usize, usize)>, labels: Seq<MachineLabelView>, blocks: Seq<Seq<usize>>, medges: Seq<(usize, usize)>, mlabels: Seq<MachineLabelView>, seen: Set<(usize, MachineLabelView, usize)>, n: nat)
    requires
        gathered(edges, labels, blocks, medges, mlabels, seen),
        edges.len() == labels.len(),
        edges.len() <= usize::MAX,
        blocks.no_duplicates(),
        apart(blocks.to_set(), n),
    ensures
        forall|k: int| 0 <= k < mlabels.len() ==> labels.contains(#[trigger] mlabels[k]),
        distinct_out(edges, labels) && steady(blocks.to_set(), edges, labels) ==> distinct_out(medges, mlabels),
{
    if distinct_out(edges, labels) && steady(blocks.to_set(), edges, labels) {
        lemma_quotient_distinct(edges, labels, blocks, medges, mlabels, n);
    }
}

/// Whether a partition of the states of a machine is steady, keeps apart
/// what a given partition keeps apart, and leaves no state out.
pub open spec fn steady_below(q: Blocks, first: Blocks, edges: Seq<(usize, usize)>, labels: Seq<MachineLabelView>, n: nat) -> bool {
    &&& apart(q, n)
    &&& forall|x: usize| x < n ==> covered(q, x)
    &&& steady(q, edges, labels)
    &&& finer(q, first)
}

/// Whether a partition keeps apart only what every steady partition below
/// a given one keeps apart.
pub closed spec fn coarsest_below(p: Blocks, first: Blocks, edges: Seq<(usize, usize)>, labels: Seq<MachineLabelView>, n: nat) -> bool {
    forall|q: Blocks| #[trigger] steady_below(q, first, edges, labels, n) ==> finer(q, p)
}

/// What it is to keep apart only what every steady partition keeps apart.
pub proof fn lemma_coarsest(p: Blocks, first: Blocks, q: Blocks, edges: Seq<(usize, usize)>, labels: Seq<MachineLabelView>, n: nat)
    requires
        coarsest_below(p, first, edges, labels, n),
        steady_below(q, first, edges, labels, n),
    ensures
        finer(q, p),
{
}

/// A partition keeps apart only what the partitions below it keep apart.
pub proof fn lemma_coarsest_first(first: Blocks, edges: Seq<(usize, usize)>, labels: Seq<MachineLabelView>, n: nat)
    ensures
        coarsest_below(first, first, edges, labels, n),
{
}

/// In a steady partition a state that is together with a state that moves
/// into a block of a coarser partition moves into that block too.
proof fn lemma_moves_follow(edges: Seq<(usize, usize)>, labels: Seq<MachineLabelView>, q: Blocks, start: Blocks, sup: Seq<usize>, l: MachineLabelView, x: usize, y: usize, n: nat)
    requires
        edges.len() == labels.len(),
        edges.len() <= usize::MAX,
        forall|e: int| 0 <= e < edges.len() ==> (#[trigger] edges[e]).1 < n,
        apart(q, n),
        forall|z: usize| z < n ==> covered(q, z),
        steady(q, edges, labels),
        finer(q, start),
        apart(start, n),
        start.contains(sup),
        together(q, x, y),
        moves_into(edges, labels, x, l, sup.to_set()),
    ensures
        moves_into(edges, labels, y, l, sup.to_set()),
{
    let ids = edges_from(edges, x);
    lemma_edge_ids_at(edges, x, true, edges.len() as int);
    let k = choose|k: int| 0 <= k < ids.len() && labels[(#[trigger] ids[k]) as int] == l && sup.to_set().contains(edges[ids[k] as int].1);
    let e = ids[k] as int;
    let z = edges[e].1;
    assert(edges[e].0 == x);
    assert(covered(q, z));
    let t = choose|t: Seq<usize>| q.contains(t) && t.contains(z);
    lemma_pre_label(edges, labels, t, e);
    lemma_moves(edges, labels, e, t.to_set());
    assert(agreed(q, edges, labels, t.to_set(), l));
    let b = choose|b: Seq<usize>| #[trigger] q.contains(b) && b.contains(x) && b.contains(y);
    assert(moves_into(edges, labels, y, l, t.to_set()));
    let ids2 = edges_from(edges, y);
    let k2 = choose|k2: int| 0 <= k2 < ids2.len() && labels[(#[trigger] ids2[k2]) as int] == l && t.to_set().contains(edges[ids2[k2] as int].1);
    let z2 = edges[ids2[k2] as int].1;
    assert(t.contains(z2));
    assert(together(q, z, z2));
    assert(together(start, z, z2));
    let other = choose|other: Seq<usize>| #[trigger] start.contains(other) && other.contains(z) && other.contains(z2);
    assert(sup.contains(z));
    assert(other == sup);
    assert(sup.to_set().contains(z2));
}

/// Refinement by a block of a partition keeps apart only what every
/// steady partition below the first keeps apart, if the partition that is
/// refined and the partition of the block do.
pub proof fn lemma_coarsest_step(edges: Seq<(usize, usize)>, labels: Seq<MachineLabelView>, first: Blocks, start: Blocks, p: Blocks, sup: Seq<usize>, l: MachineLabelView, n: nat)
    requires
        edges.len() == labels.len(),
        edges.len() <= usize::MAX,
        forall|e: int| 0 <= e < edges.len() ==> (#[trigger] edges[e]).1 < n,
        coarsest_below(start, first, edges, labels, n),
        apart(start, n),
        start.contains(sup),
        coarsest_below(p, first, edges, labels, n),
        apart(p, n),
    ensures
        coarsest_below(refined(edges, labels, p, sup.to_set(), l), first, edges, labels, n),
{
    let r = refined(edges, labels, p, sup.to_set(), l);
    lemma_refined(edges, labels, p, sup.to_set(), l, n);
    assert forall|q: Blocks| #[trigger] steady_below(q, first, edges, labels, n) implies finer(q, r) by {
        assert(finer(q, start));
        assert(finer(q, p));
        assert forall|x: usize, y: usize| #[trigger] together(q, x, y) implies together(r, x, y) by {
            assert(together(p, x, y));
            let b = choose|b: Seq<usize>| #[trigger] p.contains(b) && b.contains(x) && b.contains(y);
            lemma_refined_block(edges, labels, b, sup.to_set(), l);
            if moves_into(edges, labels, x, l, sup.to_set()) {
                lemma_moves_follow(edges, labels, q, start, sup, l, x, y, n);
            }
            if moves_into(edges, labels, y, l, sup.to_set()) {
                let c = choose|c: Seq<usize>| #[trigger] q.contains(c) && c.contains(x) && c.contains(y);
                assert(q.contains(c) && c.contains(y) && c.contains(x));
                assert(together(q, y, x));
                lemma_moves_follow(edges, labels, q, start, sup, l, y, x, n);
            }
            let rb = refined_block(edges, labels, b, sup.to_set(), l);
            assert(together(rb, x, y));
            let part = choose|part: Seq<usize>| #[trigger] rb.contains(part) && part.contains(x) && part.contains(y);
            assert(r.contains(part));
        }
    }
}

/// What refinement makes of a partition below another is below it too.
pub proof fn lemma_refined_finer(edges: Seq<(usize, usize)>, labels: Seq<MachineLabelView>, first: Blocks, p: Blocks, sup: Set<usize>, l: MachineLabelView, n: nat)
    requires
        apart(p, n),
        finer(p, first),
    ensures
        finer(refined(edges, labels, p, sup, l), first),
{
    let r = refined(edges, labels, p, sup, l);
    lemma_refined(edges, labels, p, sup, l, n);
    assert forall|x: usize, y: usize| #[trigger] together(r, x, y) implies together(first, x, y) by {
        let part = choose|part: Seq<usize>| #[trigger] r.contains(part) && part.contains(x) && part.contains(y);
        let b = choose|b: Seq<usize>| #[trigger] p.contains(b) && part.to_set().subset_of(b.to_set());
        assert(part.to_set().contains(x) && part.to_set().contains(y));
        assert(b.to_set().contains(x) && b.to_set().contains(y));
        assert(p.contains(b) && b.contains(x) && b.contains(y));
        assert(together(p, x, y));
    }
}

/// What is gathered from a partition of a funnelled machine has no two
/// transitions of one label at a block, whether the partition is steady or
/// not: all transitions of an `Input` label lead to the block of one state,
/// and each of an `Execute` label leads back to its block.
pub proof fn lemma_gathered_funnelled(edges: Seq<(usize, usize)>, labels: Seq<MachineLabelView>, blocks: Seq<Seq<usize>>, medges: Seq<(usize, usize)>, mlabels: Seq<MachineLabelView>, seen: Set<(usize, MachineLabelView, usize)>, n: nat)
    requires
        gathered(edges, labels, blocks, medges, mlabels, seen),
        edges.len() == labels.len(),
        blocks.no_duplicates(),
        apart(blocks.to_set(), n),
        crate::composition::keys::funnelled(edges, labels),
    ensures
        distinct_out(medges, mlabels),
{
    let p = blocks.to_set();
    assert forall|a: int, b: int| 0 <= a < medges.len() && 0 <= b < medges.len() && a != b && (#[trigger] medges[a]).0 == (#[trigger] medges[b]).0 implies mlabels[a] != mlabels[b] by {
        if mlabels[a] == mlabels[b] {
            let l = mlabels[a];
            assert(drawn(edges, labels, blocks, medges[a], mlabels[a]));
            assert(drawn(edges, labels, blocks, medges[b], mlabels[b]));
            let ea = choose|e: int| 0 <= e < edges.len() && #[trigger] labels[e] == l && blocks[medges[a].0 as int].contains(edges[e].0) && blocks[medges[a].1 as int].contains(edges[e].1);
            let eb = choose|e: int| 0 <= e < edges.len() && #[trigger] labels[e] == l && blocks[medges[b].0 as int].contains(edges[e].0) && blocks[medges[b].1 as int].contains(edges[e].1);
            let from = blocks[medges[a].0 as int];
            let ta = blocks[medges[a].1 as int];
            let tb = blocks[medges[b].1 as int];
            assert(p.contains(from) && p.contains(ta) && p.contains(tb));
            match l {
                MachineLabelView::Input { .. } => {
                    assert(labels[ea] == labels[eb]);
                    assert(edges[ea].1 == edges[eb].1);
                    assert(ta.contains(edges[ea].1) && tb.contains(edges[ea].1));
                    assert(ta == tb);
                },
                MachineLabelView::Execute { .. } => {
                    assert(labels[ea] is Execute && labels[eb] is Execute);
                    assert(edges[ea].0 == edges[ea].1 && edges[eb].0 == edges[eb].1);
                    assert(from.contains(edges[ea].1) && ta.contains(edges[ea].1));
                    assert(from.contains(edges[eb].1) && tb.contains(edges[eb].1));
                    assert(ta == from && tb == from);
                },
            }
            assert(medges[a].1 == medges[b].1);
            if a < b {
                assert(!(medges[a] == medges[b] && mlabels[a] == mlabels[b]));
            } else {
                assert(!(medges[b] == medges[a] && mlabels[b] == mlabels[a]));
            }
        }
    }
}

} // verus!
