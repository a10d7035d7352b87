//! Maps of sets that only grow: how rules that add to such a map are told
//! apart from rules that leave it alone, and why rounds of such rules end.
use crate::ordmap::{map_add, set_at};
use crate::seqs::{fold, fold_upto};
use vstd::prelude::*;
use vstd::relations::injective_on;
use vstd::set_lib::*;

verus! {

/// Whether a map of sets holds each key of another with at least its items.
pub open spec fn grown<A, B>(a: Map<A, Set<B>>, b: Map<A, Set<B>>) -> bool {
    forall|k: A| #[trigger] a.dom().contains(k) ==> b.dom().contains(k) && a[k].subset_of(b[k])
}

/// Whether a map of sets has grown from a base by nothing but the given
/// keys, and by nothing but the given items at any key.
pub open spec fn within<A, B>(s: Map<A, Set<B>>, base: Map<A, Set<B>>, keys: Set<A>, items: Set<B>) -> bool {
    &&& grown(base, s)
    &&& forall|k: A| #[trigger] s.dom().contains(k) ==> base.dom().contains(k) || keys.contains(k)
    &&& forall|k: A, x: B| s.dom().contains(k) && #[trigger] s[k].contains(x) ==> set_at(base, k).contains(x) || items.contains(x)
}

/// What a map of sets has that a base has not: each new key, marked by
/// `None`, and each new item at a key.
pub open spec fn gains<A, B>(s: Map<A, Set<B>>, base: Map<A, Set<B>>) -> Set<(A, Option<B>)> {
    Set::new(
        |p: (A, Option<B>)|
            s.dom().contains(p.0) && match p.1 {
                None => !base.dom().contains(p.0),
                Some(x) => s[p.0].contains(x) && !set_at(base, p.0).contains(x),
            },
    )
}

/// The pairs of a member of one set and a member of another.
pub open spec fn pairs_of<A, B>(a: Set<A>, b: Set<B>) -> Set<(A, B)> {
    Set::new(|p: (A, B)| a.contains(p.0) && b.contains(p.1))
}

/// The items of a set as options, with `None` if asked for.
pub open spec fn marks<B>(items: Set<B>, none: bool) -> Set<Option<B>> {
    Set::new(
        |o: Option<B>|
            match o {
                None => none,
                Some(x) => items.contains(x),
            },
    )
}

/// There are as many pairs as the sizes of the two sets multiply to.
pub proof fn lemma_pairs_len<A, B>(a: Set<A>, b: Set<B>)
    requires
        a.finite(),
        b.finite(),
    ensures
        pairs_of(a, b).finite(),
        pairs_of(a, b).len() == a.len() * b.len(),
    decreases a.len(),
{
    broadcast use group_set_properties;

    if a.len() == 0 {
        assert(pairs_of(a, b) =~= Set::<(A, B)>::empty());
        assert(a.len() * b.len() == 0) by (nonlinear_arith)
            requires
                a.len() == 0,
        ;
    } else {
        let x = a.choose();
        let rest = a.remove(x);
        lemma_pairs_len(rest, b);
        let f = |y: B| (x, y);
        let row = b.map(f);
        assert(injective_on(f, b));
        lemma_map_size(b, row, f);
        assert(pairs_of(a, b) =~= pairs_of(rest, b).union(row)) by {
            assert forall|p: (A, B)| pairs_of(a, b).contains(p) implies pairs_of(rest, b).union(row).contains(p) by {
                if p.0 == x {
                    assert(f(p.1) == p);
                    assert(row.contains(p));
                }
            }
        }
        assert(pairs_of(rest, b).disjoint(row));
        lemma_set_disjoint_lens(pairs_of(rest, b), row);
        assert(a.len() * b.len() == rest.len() * b.len() + b.len()) by (nonlinear_arith)
            requires
                a.len() == rest.len() + 1,
        ;
    }
}

/// There are as many marks as items, and one more with `None`.
pub proof fn lemma_marks_len<B>(items: Set<B>, none: bool)
    requires
        items.finite(),
    ensures
        marks(items, none).finite(),
        marks(items, none).len() == items.len() + (if none { 1nat } else { 0nat }),
{
    broadcast use group_set_properties;

    let f = |x: B| Some(x);
    let some = items.map(f);
    assert(injective_on(f, items));
    lemma_map_size(items, some, f);
    if none {
        assert(marks(items, none) =~= some.insert(None::<B>)) by {
            assert forall|o: Option<B>| marks(items, none).contains(o) implies some.insert(None::<B>).contains(o) by {
                if let Some(x) = o {
                    assert(f(x) == o);
                }
            }
        }
        assert(!some.contains(None::<B>));
    } else {
        assert(marks(items, none) =~= some) by {
            assert forall|o: Option<B>| marks(items, none).contains(o) implies some.contains(o) by {
                if let Some(x) = o {
                    assert(f(x) == o);
                }
            }
        }
    }
}

/// The number of gains at which a map of sets that grows from a base by
/// the given keys and items has taken in all of them.
pub open spec fn ceiling<A, B>(base: Map<A, Set<B>>, keys: Set<A>, items: Set<B>) -> nat {
    (base.dom().union(keys).len() * (items.len() + (if keys.len() > 0 { 1nat } else { 0nat }))) as nat
}

/// What a map of sets has gained within bounds is no more than the
/// bounds allow.
pub proof fn lemma_gains_bounded<A, B>(s: Map<A, Set<B>>, base: Map<A, Set<B>>, keys: Set<A>, items: Set<B>)
    requires
        base.dom().finite(),
        keys.finite(),
        items.finite(),
        within(s, base, keys, items),
    ensures
        gains(s, base).finite(),
        gains(s, base).len() <= ceiling(base, keys, items),
{
    broadcast use group_set_properties;

    let all = base.dom().union(keys);
    let none = keys.len() > 0;
    lemma_marks_len(items, none);
    lemma_pairs_len(all, marks(items, none));
    assert(gains(s, base).subset_of(pairs_of(all, marks(items, none)))) by {
        assert forall|p: (A, Option<B>)| gains(s, base).contains(p) implies pairs_of(all, marks(items, none)).contains(p) by {
            assert(s.dom().contains(p.0));
            match p.1 {
                None => {
                    assert(keys.contains(p.0));
                    if keys.len() == 0 {
                        assert(keys =~= Set::<A>::empty());
                    }
                },
                Some(x) => {
                    assert(s[p.0].contains(x));
                },
            }
        }
    }
    lemma_len_subset(gains(s, base), pairs_of(all, marks(items, none)));
}

/// A map of sets that has grown and is not what it was has gained
/// something.
pub proof fn lemma_gains_grow<A, B>(a: Map<A, Set<B>>, b: Map<A, Set<B>>, base: Map<A, Set<B>>)
    requires
        grown(base, a),
        grown(a, b),
        a != b,
        gains(b, base).finite(),
    ensures
        gains(a, base).finite(),
        gains(a, base).len() < gains(b, base).len(),
{
    broadcast use group_set_properties;

    assert(gains(a, base).subset_of(gains(b, base))) by {
        assert forall|p: (A, Option<B>)| gains(a, base).contains(p) implies gains(b, base).contains(p) by {
            assert(a.dom().contains(p.0));
        }
    }
    let found = exists|p: (A, Option<B>)| gains(b, base).contains(p) && !gains(a, base).contains(p);
    if !found {
        assert forall|k: A| b.dom().contains(k) implies a.dom().contains(k) by {
            if !a.dom().contains(k) {
                if base.dom().contains(k) {
                    assert(a.dom().contains(k));
                }
                assert(gains(b, base).contains((k, None::<B>)));
                assert(!gains(a, base).contains((k, None::<B>)));
            }
        }
        assert(a.dom() =~= b.dom()) by {
            assert forall|k: A| a.dom().contains(k) implies b.dom().contains(k) by {
            }
        }
        assert forall|k: A| a.dom().contains(k) implies a[k] =~= b[k] by {
            assert(a[k].subset_of(b[k]));
            assert forall|x: B| b[k].contains(x) implies a[k].contains(x) by {
                if !a[k].contains(x) {
                    if base.dom().contains(k) {
                        assert(base[k].subset_of(a[k]));
                    }
                    assert(gains(b, base).contains((k, Some(x))));
                    assert(!gains(a, base).contains((k, Some(x))));
                }
            }
        }
        assert(a =~= b);
    }
    let p = choose|p: (A, Option<B>)| gains(b, base).contains(p) && !gains(a, base).contains(p);
    assert(gains(a, base).subset_of(gains(b, base).remove(p)));
    lemma_len_subset(gains(a, base), gains(b, base).remove(p));
}

/// A map of sets with a flag that says whether nothing was new so far.
pub type Flagged<A, B> = (Map<A, Set<B>>, bool);

/// Items are added at a key: the flag falls if the map had no such key or
/// lacked one of the items at it.
pub open spec fn add_at<A, B>(st: Flagged<A, B>, k: A, items: Set<B>) -> Flagged<A, B> {
    (map_add(st.0, k, items), st.1 && st.0.dom().contains(k) && items.subset_of(st.0[k]))
}

/// Whether one state follows from another as after rules that only add:
/// where the first is within the bounds, so is the second, it has grown
/// from the first, and its flag stands exactly if the flag stood before and
/// the map is what it was.
pub open spec fn adds<A, B>(a: Flagged<A, B>, b: Flagged<A, B>, base: Map<A, Set<B>>, keys: Set<A>, items: Set<B>) -> bool {
    within(a.0, base, keys, items) ==> {
        &&& within(b.0, base, keys, items)
        &&& grown(a.0, b.0)
        &&& b.1 == (a.1 && b.0 == a.0)
    }
}

/// Adding items of the bounds at a key of the bounds only adds.
pub proof fn lemma_add_at<A, B>(st: Flagged<A, B>, k: A, added: Set<B>, base: Map<A, Set<B>>, keys: Set<A>, items: Set<B>)
    requires
        within(st.0, base, keys, items) ==> st.0.dom().contains(k) || keys.contains(k),
        added.subset_of(items),
    ensures
        adds(st, add_at(st, k, added), base, keys, items),
{
    if within(st.0, base, keys, items) {
        let r = add_at(st, k, added);
        assert(grown(st.0, r.0)) by {
            assert forall|j: A| #[trigger] st.0.dom().contains(j) implies r.0.dom().contains(j) && st.0[j].subset_of(r.0[j]) by {
            }
        }
        assert(grown(base, r.0)) by {
            assert forall|j: A| #[trigger] base.dom().contains(j) implies r.0.dom().contains(j) && base[j].subset_of(r.0[j]) by {
                assert(st.0.dom().contains(j));
            }
        }
        assert forall|j: A, x: B| r.0.dom().contains(j) && #[trigger] r.0[j].contains(x) implies set_at(base, j).contains(x) || items.contains(x) by {
            if j == k {
                if set_at(st.0, k).contains(x) {
                    assert(st.0[k].contains(x));
                }
            } else {
                assert(st.0[j].contains(x));
            }
        }
        if st.0.dom().contains(k) && added.subset_of(st.0[k]) {
            assert(st.0[k].union(added) =~= st.0[k]);
            assert(r.0 =~= st.0);
        } else {
            if r.0 == st.0 {
                assert(r.0.dom().contains(k));
                assert(st.0.dom().contains(k));
                assert(r.0[k] == st.0[k].union(added));
                assert(added.subset_of(st.0[k]));
            }
        }
    }
}

/// Rules that only add, one after the other, only add.
pub proof fn lemma_adds_chain<A, B>(a: Flagged<A, B>, b: Flagged<A, B>, c: Flagged<A, B>, base: Map<A, Set<B>>, keys: Set<A>, items: Set<B>)
    requires
        adds(a, b, base, keys, items),
        adds(b, c, base, keys, items),
    ensures
        adds(a, c, base, keys, items),
{
    if within(a.0, base, keys, items) {
        assert(grown(a.0, c.0)) by {
            assert forall|k: A| #[trigger] a.0.dom().contains(k) implies c.0.dom().contains(k) && a.0[k].subset_of(c.0[k]) by {
                assert(b.0.dom().contains(k));
            }
        }
        if c.0 == a.0 {
            assert(b.0 =~= a.0) by {
                assert forall|k: A| b.0.dom().contains(k) implies a.0.dom().contains(k) by {
                }
                assert(b.0.dom() =~= a.0.dom());
                assert forall|k: A| a.0.dom().contains(k) implies a.0[k] =~= b.0[k] by {
                    assert(b.0.dom().contains(k));
                    assert(a.0[k].subset_of(b.0[k]));
                    assert(b.0[k].subset_of(c.0[k]));
                }
            }
        }
    }
}

/// A fold whose step only adds, whatever the state, only adds.
pub proof fn lemma_fold_adds<A, B, T>(list: Seq<T>, st: Flagged<A, B>, step: spec_fn(Flagged<A, B>, T) -> Flagged<A, B>, base: Map<A, Set<B>>, keys: Set<A>, items: Set<B>, upto: int)
    requires
        0 <= upto <= list.len(),
        forall|acc: Flagged<A, B>, i: int| 0 <= i < list.len() ==> adds(acc, #[trigger] step(acc, list[i]), base, keys, items),
    ensures
        adds(st, fold_upto(list, st, step, upto), base, keys, items),
    decreases upto,
{
    if upto > 0 {
        lemma_fold_adds(list, st, step, base, keys, items, upto - 1);
        let mid = fold_upto(list, st, step, upto - 1);
        assert(adds(mid, step(mid, list[upto - 1]), base, keys, items));
        lemma_adds_chain(st, mid, step(mid, list[upto - 1]), base, keys, items);
    } else {
        assert(grown(st.0, st.0));
    }
}

/// The rounds of a rule from a map of sets on: until a round brings
/// nothing new, and no more rounds than `fuel`.
pub open spec fn until_stable<A, B>(round: spec_fn(Map<A, Set<B>>) -> Flagged<A, B>, s: Map<A, Set<B>>, fuel: nat) -> Map<A, Set<B>>
    decreases fuel,
{
    if fuel == 0 {
        s
    } else {
        let next = round(s);
        if next.1 {
            next.0
        } else {
            until_stable(round, next.0, (fuel - 1) as nat)
        }
    }
}

/// Rounds of a rule that only adds within bounds end because a round
/// brings nothing new, if there are more rounds to go than gains to make:
/// the map of sets that they end with is one that a further round leaves
/// as it is.
pub proof fn lemma_until_stable<A, B>(round: spec_fn(Map<A, Set<B>>) -> Flagged<A, B>, s: Map<A, Set<B>>, base: Map<A, Set<B>>, keys: Set<A>, items: Set<B>, fuel: nat)
    requires
        base.dom().finite(),
        keys.finite(),
        items.finite(),
        within(s, base, keys, items),
        forall|t: Map<A, Set<B>>| adds((t, true), #[trigger] round(t), base, keys, items),
        fuel + gains(s, base).len() > ceiling(base, keys, items),
    ensures
        round(until_stable(round, s, fuel)) == (until_stable(round, s, fuel), true),
        within(until_stable(round, s, fuel), base, keys, items),
    decreases fuel,
{
    lemma_gains_bounded(s, base, keys, items);
    let next = round(s);
    assert(adds((s, true), next, base, keys, items));
    if next.1 {
        assert(next.0 == s);
    } else {
        lemma_gains_bounded(next.0, base, keys, items);
        lemma_gains_grow(s, next.0, base);
        lemma_until_stable(round, next.0, base, keys, items, (fuel - 1) as nat);
    }
}

/// A fold of steps that only add, which ends as it began with the flag up,
/// has the flag up and the map as it was after every step.
pub proof fn lemma_fold_still<A, B, T>(list: Seq<T>, x: Map<A, Set<B>>, step: spec_fn(Flagged<A, B>, T) -> Flagged<A, B>, keys: Set<A>, items: Set<B>, upto: int)
    requires
        0 <= upto <= list.len(),
        forall|acc: Flagged<A, B>, i: int| 0 <= i < list.len() ==> adds(acc, #[trigger] step(acc, list[i]), x, keys, items),
        fold(list, (x, true), step) == (x, true),
    ensures
        fold_upto(list, (x, true), step, upto) == (x, true),
    decreases list.len() - upto,
{
    if upto < list.len() {
        lemma_fold_still(list, x, step, keys, items, upto + 1);
        lemma_fold_adds(list, (x, true), step, x, keys, items, upto);
        let here = fold_upto(list, (x, true), step, upto);
        let next = fold_upto(list, (x, true), step, upto + 1);
        assert(next == step(here, list[upto]));
        assert(grown(x, x));
        assert(within(x, x, keys, items));
        assert(adds(here, next, x, keys, items));
        assert(here.0 =~= x);
    }
}

/// What only adds above a base only adds above a map that is within the
/// bounds above that base.
pub proof fn lemma_rebase<A, B>(a: Flagged<A, B>, b: Flagged<A, B>, base: Map<A, Set<B>>, m: Map<A, Set<B>>, keys: Set<A>, items: Set<B>)
    requires
        adds(a, b, base, keys, items),
        within(m, base, keys, items),
    ensures
        adds(a, b, m, keys, items),
{
    if within(a.0, m, keys, items) {
        assert(grown(base, a.0)) by {
            assert forall|k: A| #[trigger] base.dom().contains(k) implies a.0.dom().contains(k) && base[k].subset_of(a.0[k]) by {
                assert(m.dom().contains(k));
            }
        }
        assert forall|k: A| #[trigger] a.0.dom().contains(k) implies base.dom().contains(k) || keys.contains(k) by {
            if m.dom().contains(k) {
            }
        }
        assert forall|k: A, x: B| a.0.dom().contains(k) && #[trigger] a.0[k].contains(x) implies set_at(base, k).contains(x) || items.contains(x) by {
            if set_at(m, k).contains(x) {
                assert(m[k].contains(x));
            }
        }
        assert(within(a.0, base, keys, items));
        assert(grown(m, b.0)) by {
            assert forall|k: A| #[trigger] m.dom().contains(k) implies b.0.dom().contains(k) && m[k].subset_of(b.0[k]) by {
                assert(a.0.dom().contains(k));
            }
        }
        assert forall|k: A| #[trigger] b.0.dom().contains(k) implies m.dom().contains(k) || keys.contains(k) by {
            if base.dom().contains(k) {
            }
        }
        assert forall|k: A, x: B| b.0.dom().contains(k) && #[trigger] b.0[k].contains(x) implies set_at(m, k).contains(x) || items.contains(x) by {
            if set_at(base, k).contains(x) {
                assert(base.dom().contains(k));
                assert(base[k].subset_of(m[k]));
            }
        }
    }
}

} // verus!
