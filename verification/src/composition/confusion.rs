//! What the findings on confusion among the labels of a protocol say: there
//! is none exactly if no two transitions share an event type or a command.
use crate::composition::composition_swarm::{command_bucket_step, confusion_errors, event_bucket_step, indices, repeated_command_step, repeated_event_step, Buckets, ErrorView, LabelKey};
use crate::composition::composition_types::labelled;
use crate::composition::keys::confusion_free_labels;
use crate::names::{Command, EventType};
use crate::ordmap::{list_at, map_push};
use crate::ordset::{lemma_sorted_of, sorted};
use crate::seqs::{fold, fold_upto};
use vstd::prelude::*;

verus! {

/// Whether the edges before a position are sorted into lists by a key:
/// each list holds edges of its key and none twice, and each edge is in the
/// list of its key.
pub open spec fn bucketed(m: Buckets, key: spec_fn(int) -> Seq<char>, k: int) -> bool {
    &&& m.dom().finite()
    &&& forall|t: Seq<char>, i: int| m.dom().contains(t) && 0 <= i < m[t].len() ==> (#[trigger] m[t][i]) < k && key(m[t][i] as int) == t
    &&& forall|t: Seq<char>| #[trigger] m.dom().contains(t) ==> m[t].no_duplicates()
    &&& forall|e: int| 0 <= e < k ==> m.dom().contains(#[trigger] key(e)) && m[key(e)].contains(e as usize)
}

/// An edge joins the list of its key.
proof fn lemma_bucket_push(m: Buckets, key: spec_fn(int) -> Seq<char>, k: int)
    requires
        bucketed(m, key, k),
        0 <= k < usize::MAX,
    ensures
        bucketed(map_push(m, key(k), k as usize), key, k + 1),
{
    let t0 = key(k);
    let list = list_at(m, t0).push(k as usize);
    let after = map_push(m, t0, k as usize);
    assert(after == m.insert(t0, list));
    assert forall|t: Seq<char>, i: int| after.dom().contains(t) && 0 <= i < after[t].len() implies (#[trigger] after[t][i]) < k + 1 && key(after[t][i] as int) == t by {
        if t == t0 {
            if i < list.len() - 1 {
                assert(m.dom().contains(t0));
                assert(after[t][i] == m[t0][i]);
            }
        } else {
            assert(after[t][i] == m[t][i]);
        }
    }
    assert forall|t: Seq<char>| #[trigger] after.dom().contains(t) implies after[t].no_duplicates() by {
        if t == t0 {
            assert forall|i: int, j: int| 0 <= i < list.len() && 0 <= j < list.len() && i != j implies list[i] != list[j] by {
                if i < list.len() - 1 {
                    assert(m.dom().contains(t0));
                    assert(list[i] == m[t0][i]);
                }
                if j < list.len() - 1 {
                    assert(m.dom().contains(t0));
                    assert(list[j] == m[t0][j]);
                }
            }
        } else {
            assert(m.dom().contains(t));
        }
    }
    assert forall|e: int| 0 <= e < k + 1 implies after.dom().contains(#[trigger] key(e)) && after[key(e)].contains(e as usize) by {
        if e == k {
            assert(list[list.len() - 1] == k as usize);
        } else if key(e) == t0 {
            let i = choose|i: int| 0 <= i < m[t0].len() && m[t0][i] == e as usize;
            assert(list[i] == e as usize);
        } else {
        }
    }
}

/// The edges before a position are sorted by their event types.
proof fn lemma_event_buckets(labels: Seq<LabelKey>, upto: int)
    requires
        labelled(labels),
        labels.len() <= usize::MAX,
        0 <= upto <= labels.len(),
    ensures
        bucketed(fold_upto(indices(labels.len()), Map::<Seq<char>, Seq<usize>>::empty(), event_bucket_step(labels), upto), |e: int| labels[e].1[0], upto),
    decreases upto,
{
    if upto > 0 {
        lemma_event_buckets(labels, upto - 1);
        let key = |e: int| labels[e].1[0];
        let before = fold_upto(indices(labels.len()), Map::<Seq<char>, Seq<usize>>::empty(), event_bucket_step(labels), upto - 1);
        assert(indices(labels.len())[upto - 1] == (upto - 1) as usize);
        assert(labels[upto - 1].1.len() > 0);
        lemma_bucket_push(before, key, upto - 1);
        assert(key(upto - 1) == labels[upto - 1].1[0]);
    }
}

/// The edges before a position are sorted by their commands.
proof fn lemma_command_buckets(labels: Seq<LabelKey>, upto: int)
    requires
        labels.len() <= usize::MAX,
        0 <= upto <= labels.len(),
    ensures
        bucketed(fold_upto(indices(labels.len()), Map::<Seq<char>, Seq<usize>>::empty(), command_bucket_step(labels), upto), |e: int| labels[e].0, upto),
    decreases upto,
{
    if upto > 0 {
        lemma_command_buckets(labels, upto - 1);
        let key = |e: int| labels[e].0;
        let before = fold_upto(indices(labels.len()), Map::<Seq<char>, Seq<usize>>::empty(), command_bucket_step(labels), upto - 1);
        assert(indices(labels.len())[upto - 1] == (upto - 1) as usize);
        lemma_bucket_push(before, key, upto - 1);
        assert(key(upto - 1) == labels[upto - 1].0);
    }
}

/// Whether a list of more than one edge is found at one of the first keys.
pub open spec fn crowded(buckets: Buckets, list: Seq<Seq<char>>, upto: int) -> bool {
    exists|i: int| 0 <= i < upto && (#[trigger] buckets[list[i]]).len() > 1
}

/// There is a finding on an event type exactly if one of them has more
/// than one edge.
proof fn lemma_repeated_events(buckets: Buckets, list: Seq<Seq<char>>, upto: int)
    requires
        0 <= upto <= list.len(),
    ensures
        fold_upto(list, Seq::<ErrorView>::empty(), repeated_event_step(buckets), upto).len() > 0 <==> crowded(buckets, list, upto),
    decreases upto,
{
    if upto > 0 {
        lemma_repeated_events(buckets, list, upto - 1);
        if crowded(buckets, list, upto) {
            let i = choose|i: int| 0 <= i < upto && (#[trigger] buckets[list[i]]).len() > 1;
            if i < upto - 1 {
                assert(crowded(buckets, list, upto - 1));
            }
        }
        if buckets[list[upto - 1]].len() > 1 {
            assert(crowded(buckets, list, upto));
        }
        if crowded(buckets, list, upto - 1) {
            let i = choose|i: int| 0 <= i < upto - 1 && (#[trigger] buckets[list[i]]).len() > 1;
            assert(crowded(buckets, list, upto));
        }
    }
}

/// There is a finding on a command exactly if one of them has more than
/// one edge.
proof fn lemma_repeated_commands(buckets: Buckets, list: Seq<Seq<char>>, upto: int)
    requires
        0 <= upto <= list.len(),
    ensures
        fold_upto(list, Seq::<ErrorView>::empty(), repeated_command_step(buckets), upto).len() > 0 <==> crowded(buckets, list, upto),
    decreases upto,
{
    if upto > 0 {
        lemma_repeated_commands(buckets, list, upto - 1);
        if crowded(buckets, list, upto) {
            let i = choose|i: int| 0 <= i < upto && (#[trigger] buckets[list[i]]).len() > 1;
            if i < upto - 1 {
                assert(crowded(buckets, list, upto - 1));
            }
        }
        if buckets[list[upto - 1]].len() > 1 {
            assert(crowded(buckets, list, upto));
        }
        if crowded(buckets, list, upto - 1) {
            let i = choose|i: int| 0 <= i < upto - 1 && (#[trigger] buckets[list[i]]).len() > 1;
            assert(crowded(buckets, list, upto));
        }
    }
}

/// Whether two of the first edges have the same key.
pub open spec fn shared(key: spec_fn(int) -> Seq<char>, n: int) -> bool {
    exists|i: int, j: int| 0 <= i < n && 0 <= j < n && i != j && #[trigger] key(i) == #[trigger] key(j)
}

/// A key has a list of more than one edge exactly if two edges have the
/// same key.
proof fn lemma_crowded(m: Buckets, key: spec_fn(int) -> Seq<char>, n: int, list: Seq<Seq<char>>)
    requires
        bucketed(m, key, n),
        n <= usize::MAX,
        list.to_set() == m.dom(),
    ensures
        crowded(m, list, list.len() as int) <==> shared(key, n),
{
    if crowded(m, list, list.len() as int) {
        let x = choose|x: int| 0 <= x < list.len() && (#[trigger] m[list[x]]).len() > 1;
        let t = list[x];
        assert(list.to_set().contains(t));
        assert(m.dom().contains(t));
        let a = m[t][0];
        let b = m[t][1];
        assert(a != b);
        assert(key(a as int) == t && key(b as int) == t);
        assert(shared(key, n));
    }
    if shared(key, n) {
        let (i, j) = choose|i: int, j: int| 0 <= i < n && 0 <= j < n && i != j && #[trigger] key(i) == #[trigger] key(j);
        let t = key(i);
        assert(m.dom().contains(t));
        assert(m[t].contains(i as usize));
        assert(m[key(j)].contains(j as usize));
        let a = choose|a: int| 0 <= a < m[t].len() && m[t][a] == i as usize;
        let b = choose|b: int| 0 <= b < m[t].len() && m[t][b] == j as usize;
        assert(a != b);
        assert(m[t].len() > 1);
        assert(list.to_set().contains(t));
        let x = choose|x: int| 0 <= x < list.len() && list[x] == t;
        assert(m[list[x]].len() > 1);
        assert(crowded(m, list, list.len() as int));
    }
}

/// The labels of a protocol are without a finding on confusion exactly if
/// no two transitions emit the same event type and no two are enabled by
/// the same command.
pub proof fn lemma_confusion_found(labels: Seq<LabelKey>)
    requires
        labelled(labels),
        labels.len() <= usize::MAX,
    ensures
        confusion_errors(labels).len() == 0 <==> confusion_free_labels(labels),
{
    let n = labels.len() as int;
    let by_event = |e: int| labels[e].1[0];
    let by_command = |e: int| labels[e].0;
    let events = fold(indices(labels.len()), Map::<Seq<char>, Seq<usize>>::empty(), event_bucket_step(labels));
    let commands = fold(indices(labels.len()), Map::<Seq<char>, Seq<usize>>::empty(), command_bucket_step(labels));
    lemma_event_buckets(labels, n);
    lemma_command_buckets(labels, n);
    let elist = sorted::<EventType>(events.dom());
    let clist = sorted::<Command>(commands.dom());
    lemma_sorted_of::<EventType>(events.dom());
    lemma_sorted_of::<Command>(commands.dom());
    lemma_repeated_events(events, elist, elist.len() as int);
    lemma_repeated_commands(commands, clist, clist.len() as int);
    lemma_crowded(events, by_event, n, elist);
    lemma_crowded(commands, by_command, n, clist);
    if shared(by_event, n) {
        let (i, j) = choose|i: int, j: int| 0 <= i < n && 0 <= j < n && i != j && #[trigger] by_event(i) == #[trigger] by_event(j);
        assert(labels[i].1[0] == labels[j].1[0]);
        assert(!confusion_free_labels(labels));
    }
    if shared(by_command, n) {
        let (i, j) = choose|i: int, j: int| 0 <= i < n && 0 <= j < n && i != j && #[trigger] by_command(i) == #[trigger] by_command(j);
        assert(labels[i].0 == labels[j].0);
        assert(!confusion_free_labels(labels));
    }
    if !confusion_free_labels(labels) {
        let (i, j) = choose|i: int, j: int| 0 <= i < labels.len() && 0 <= j < labels.len() && i != j && !((#[trigger] labels[i]).1[0] != (#[trigger] labels[j]).1[0] && labels[i].0 != labels[j].0);
        if labels[i].1[0] == labels[j].1[0] {
            assert(by_event(i) == by_event(j));
            assert(shared(by_event, n));
        } else {
            assert(by_command(i) == by_command(j));
            assert(shared(by_command, n));
        }
    }
}

} // verus!
