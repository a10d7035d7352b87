//! Bounds on the length of increasing sequences, by which walks over
//! graphs are shown to end.
use crate::ordset::{increasing, lemma_increasing_at};
use vstd::prelude::*;

verus! {

/// An increasing sequence of indices below a bound is no longer than the
/// bound.
pub proof fn lemma_ids_bounded(keys: Seq<usize>, n: nat)
    requires
        increasing::<usize>(keys),
        forall|i: int| 0 <= i < keys.len() ==> #[trigger] keys[i] < n,
    ensures
        keys.len() <= n,
{
    if keys.len() > 0 {
        lemma_ids_rank(keys, keys.len() - 1);
    }
}

proof fn lemma_ids_rank(keys: Seq<usize>, i: int)
    requires
        increasing::<usize>(keys),
        0 <= i < keys.len(),
    ensures
        keys[i] >= i,
    decreases i,
{
    if i > 0 {
        lemma_ids_rank(keys, i - 1);
        lemma_increasing_at::<usize>(keys, i - 1, i);
    }
}

/// The position of a pair when all pairs below the bounds are counted row
/// by row.
pub open spec fn pair_rank(p: (usize, usize), n2: nat) -> int {
    p.0 * n2 + p.1
}

/// An increasing sequence of pairs of indices below two bounds is no
/// longer than the product of the bounds.
pub proof fn lemma_pairs_bounded(keys: Seq<(usize, usize)>, n1: nat, n2: nat)
    requires
        increasing::<(usize, usize)>(keys),
        forall|i: int| 0 <= i < keys.len() ==> (#[trigger] keys[i]).0 < n1 && keys[i].1 < n2,
    ensures
        keys.len() <= n1 * n2,
{
    if keys.len() > 0 {
        let last = keys.len() - 1;
        lemma_pairs_rank(keys, n2, last);
        let p = keys[last];
        assert(p.0 * n2 + p.1 < n1 * n2) by (nonlinear_arith)
            requires
                p.0 < n1,
                p.1 < n2,
        ;
    } else {
        assert(0 <= n1 * n2) by (nonlinear_arith);
    }
}

proof fn lemma_pairs_rank(keys: Seq<(usize, usize)>, n2: nat, i: int)
    requires
        increasing::<(usize, usize)>(keys),
        forall|j: int| 0 <= j < keys.len() ==> (#[trigger] keys[j]).1 < n2,
        0 <= i < keys.len(),
    ensures
        pair_rank(keys[i], n2) >= i,
    decreases i,
{
    let q = keys[i];
    if i > 0 {
        lemma_pairs_rank(keys, n2, i - 1);
        let p = keys[i - 1];
        lemma_increasing_at::<(usize, usize)>(keys, i - 1, i);
        assert(p.1 < n2);
        assert(p.0 * n2 + p.1 < q.0 * n2 + q.1) by (nonlinear_arith)
            requires
                p.0 < q.0 || (p.0 == q.0 && p.1 < q.1),
                p.1 < n2,
        ;
    } else {
        assert(0 <= q.0 * n2 + q.1) by (nonlinear_arith);
    }
}

/// Two to the power of a number.
pub open spec fn two_to(n: nat) -> nat
    decreases n,
{
    if n == 0 {
        1
    } else {
        2 * two_to((n - 1) as nat)
    }
}

/// Whether every index of a set is below a bound.
pub open spec fn below(s: Set<usize>, n: nat) -> bool {
    forall|x: usize| s.contains(x) ==> x < n
}

/// A finite family of sets of indices below `n` has no more than two to
/// the power of `n` members.
pub proof fn lemma_family_bounded(family: Set<Set<usize>>, n: nat)
    requires
        family.finite(),
        n <= usize::MAX + 1,
        forall|s: Set<usize>| family.contains(s) ==> below(s, n),
    ensures
        family.len() <= two_to(n),
    decreases n,
{
    if n == 0 {
        let only = Set::<Set<usize>>::empty().insert(Set::<usize>::empty());
        assert forall|s: Set<usize>| family.contains(s) implies only.contains(s) by {
            assert(below(s, n));
            assert(s =~= Set::<usize>::empty());
        }
        vstd::set_lib::lemma_len_subset(family, only);
        assert(only.len() == 1) by {
            assert(only.remove(Set::<usize>::empty()) =~= Set::<Set<usize>>::empty());
        }
    } else {
        let top = (n - 1) as usize;
        let has = |s: Set<usize>| s.contains(top);
        let lacks = |s: Set<usize>| !s.contains(top);
        let with = family.filter(has);
        let without = family.filter(lacks);
        family.lemma_len_filter(has);
        family.lemma_len_filter(lacks);
        assert(with.finite() && without.finite()) by {
            vstd::set_lib::lemma_len_subset(with, family);
            vstd::set_lib::lemma_len_subset(without, family);
        }
        assert(family =~= with + without);
        assert(with.disjoint(without));
        vstd::set_lib::lemma_set_disjoint_lens(with, without);
        assert forall|s: Set<usize>| without.contains(s) implies below(s, (n - 1) as nat) by {
            assert(below(s, n));
        }
        lemma_family_bounded(without, (n - 1) as nat);
        let strip = |s: Set<usize>| s.remove(top);
        let image = with.map(strip);
        assert(vstd::relations::injective_on(strip, with)) by {
            assert forall|a: Set<usize>, b: Set<usize>| with.contains(a) && with.contains(b) && #[trigger] strip(a) == #[trigger] strip(b) implies a == b by {
                assert(a =~= strip(a).insert(top));
                assert(b =~= strip(b).insert(top));
            }
        }
        vstd::set_lib::lemma_map_size(with, image, strip);
        assert forall|s: Set<usize>| image.contains(s) implies below(s, (n - 1) as nat) by {
            let a = choose|a: Set<usize>| with.contains(a) && strip(a) == s;
            assert(below(a, n));
        }
        lemma_family_bounded(image, (n - 1) as nat);
    }
}

/// An increasing sequence of increasing sequences of indices below `n` is
/// no longer than two to the power of `n`.
pub proof fn lemma_subsets_bounded(keys: Seq<Seq<usize>>, n: nat)
    requires
        increasing::<crate::ordset::OrdSet<usize>>(keys),
        n <= usize::MAX + 1,
        forall|i: int| 0 <= i < keys.len() ==> increasing::<usize>(#[trigger] keys[i]) && below(keys[i].to_set(), n),
    ensures
        keys.len() <= two_to(n),
{
    crate::ordset::increasing_no_duplicates::<crate::ordset::OrdSet<usize>>(keys);
    let all = keys.to_set();
    let members = |k: Seq<usize>| k.to_set();
    let family = all.map(members);
    assert(vstd::relations::injective_on(members, all)) by {
        assert forall|a: Seq<usize>, b: Seq<usize>| all.contains(a) && all.contains(b) && #[trigger] members(a) == #[trigger] members(b) implies a == b by {
            let i = choose|i: int| 0 <= i < keys.len() && keys[i] == a;
            let j = choose|j: int| 0 <= j < keys.len() && keys[j] == b;
            crate::ordset::increasing_unique::<usize>(a, b);
        }
    }
    vstd::set_lib::lemma_map_size(all, family, members);
    assert forall|s: Set<usize>| family.contains(s) implies below(s, n) by {
        let k = choose|k: Seq<usize>| all.contains(k) && members(k) == s;
        let i = choose|i: int| 0 <= i < keys.len() && keys[i] == k;
        assert(below(keys[i].to_set(), n));
    }
    lemma_family_bounded(family, n);
}

/// A set of indices below a bound is finite.
pub proof fn lemma_below_finite(s: Set<usize>, n: nat)
    requires
        below(s, n),
    ensures
        s.finite(),
{
    let ids = vstd::set_lib::set_int_range(0, n as int);
    vstd::set_lib::lemma_int_range(0, n as int);
    let back = |i: int| i as usize;
    let all = ids.map(back);
    ids.lemma_map_finite(back);
    assert(s.subset_of(all)) by {
        assert forall|x: usize| s.contains(x) implies all.contains(x) by {
            assert(ids.contains(x as int) && back(x as int) == x);
        }
    }
    vstd::set_lib::lemma_len_subset(s, all);
}

} // verus!
