//! Folds over sequences, by which the walks of this library are stated.
use vstd::prelude::*;

verus! {

/// The state after the first `upto` items of a sequence have been taken in,
/// one after the other, starting from `init`.
pub open spec fn fold_upto<A, B>(s: Seq<A>, init: B, f: spec_fn(B, A) -> B, upto: int) -> B
    decreases upto,
{
    if upto <= 0 {
        init
    } else {
        f(fold_upto(s, init, f, upto - 1), s[upto - 1])
    }
}

/// The state after every item of a sequence has been taken in.
pub open spec fn fold<A, B>(s: Seq<A>, init: B, f: spec_fn(B, A) -> B) -> B {
    fold_upto(s, init, f, s.len() as int)
}

/// The items up to a position form the set of those before it with the one
/// at it.
pub proof fn lemma_take_to_set<T>(s: Seq<T>, i: int)
    requires
        0 <= i < s.len(),
    ensures
        s.take(i + 1).to_set() == s.take(i).to_set().insert(s[i]),
{
    let a = s.take(i);
    let b = s.take(i + 1);
    assert forall|x: T| b.to_set().contains(x) <==> a.to_set().insert(s[i]).contains(x) by {
        if b.to_set().contains(x) {
            let j = choose|j: int| 0 <= j < b.len() && b[j] == x;
            if j < i {
                assert(a[j] == x);
            }
        }
        if a.to_set().contains(x) {
            let j = choose|j: int| 0 <= j < a.len() && a[j] == x;
            assert(b[j] == x);
        }
        if x == s[i] {
            assert(b[i] == x);
        }
    }
    assert(b.to_set() =~= a.to_set().insert(s[i]));
}

/// All of a sequence taken is the sequence.
pub proof fn lemma_take_all<T>(s: Seq<T>)
    ensures
        s.take(s.len() as int) == s,
        s.take(0).to_set() == Set::<T>::empty(),
{
    assert(s.take(s.len() as int) =~= s);
    assert(s.take(0).to_set() =~= Set::<T>::empty());
}

} // verus!
