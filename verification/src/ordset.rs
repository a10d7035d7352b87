//! Sets kept as strictly increasing vectors, so that they are walked in the
//! order of their items.
use crate::order::{all_valid, compare_slices, duplicate_items, keys_of, lt_asymmetric, seq_lt, seq_lt_connected_from, seq_lt_irreflexive_from, seq_lt_transitive_from, Key, Order};
use vstd::prelude::*;

verus! {

/// Whether a sequence of keys is strictly increasing.
pub open spec fn increasing<K: Key>(s: Seq<K::V>) -> bool {
    forall|i: int, j: int| 0 <= i < j < s.len() ==> #[trigger] K::lt(s[i], s[j])
}

/// In an increasing sequence an earlier key is below a later one.
pub proof fn lemma_increasing_at<K: Key>(s: Seq<K::V>, i: int, j: int)
    requires
        increasing::<K>(s),
        0 <= i < j < s.len(),
    ensures
        K::lt(s[i], s[j]),
{
}

/// A strictly increasing sequence holds no key twice.
pub proof fn increasing_no_duplicates<K: Key>(s: Seq<K::V>)
    requires
        increasing::<K>(s),
    ensures
        s.no_duplicates(),
        s.to_set().finite(),
        s.to_set().len() == s.len(),
{
    assert forall|i: int, j: int| 0 <= i < s.len() && 0 <= j < s.len() && i != j implies s[i] != s[j] by {
        if i < j {
            assert(K::lt(s[i], s[j]));
            lt_asymmetric::<K>(s[i], s[j]);
        } else {
            assert(K::lt(s[j], s[i]));
            lt_asymmetric::<K>(s[j], s[i]);
        }
    }
    s.unique_seq_to_set();
}

/// Two strictly increasing sequences with the same keys are the same sequence.
pub proof fn increasing_unique<K: Key>(a: Seq<K::V>, b: Seq<K::V>)
    requires
        increasing::<K>(a),
        increasing::<K>(b),
        a.to_set() == b.to_set(),
    ensures
        a == b,
    decreases a.len(),
{
    increasing_no_duplicates::<K>(a);
    increasing_no_duplicates::<K>(b);
    if a.len() == 0 {
        assert(a =~= b);
    } else {
        // the first key of each is the least of the common set
        assert(a.to_set().contains(a[0]));
        assert(b.to_set().contains(b[0]));
        let ia = choose|i: int| 0 <= i < a.len() && a[i] == b[0];
        let ib = choose|i: int| 0 <= i < b.len() && b[i] == a[0];
        if ia != 0 && ib != 0 {
            assert(K::lt(a[0], a[ia]));
            assert(K::lt(b[0], b[ib]));
            lt_asymmetric::<K>(a[0], b[0]);
        }
        assert(a[0] == b[0]);
        let ra = a.subrange(1, a.len() as int);
        let rb = b.subrange(1, b.len() as int);
        assert(increasing::<K>(ra)) by {
            assert forall|i: int, j: int| 0 <= i < j < ra.len() implies #[trigger] K::lt(ra[i], ra[j]) by {
                assert(K::lt(a[i + 1], a[j + 1]));
            }
        }
        assert(increasing::<K>(rb)) by {
            assert forall|i: int, j: int| 0 <= i < j < rb.len() implies #[trigger] K::lt(rb[i], rb[j]) by {
                assert(K::lt(b[i + 1], b[j + 1]));
            }
        }
        assert(ra.to_set() =~= rb.to_set()) by {
            assert forall|x: K::V| ra.to_set().contains(x) implies rb.to_set().contains(x) by {
                let i = choose|i: int| 0 <= i < ra.len() && ra[i] == x;
                assert(a[i + 1] == x);
                assert(a.to_set().contains(x));
                assert(b.to_set().contains(x));
                let j = choose|j: int| 0 <= j < b.len() && b[j] == x;
                assert(K::lt(a[0], a[i + 1]));
                lt_asymmetric::<K>(a[0], x);
                assert(j != 0);
                assert(rb[j - 1] == x);
            }
            assert forall|x: K::V| rb.to_set().contains(x) implies ra.to_set().contains(x) by {
                let i = choose|i: int| 0 <= i < rb.len() && rb[i] == x;
                assert(b[i + 1] == x);
                assert(b.to_set().contains(x));
                assert(a.to_set().contains(x));
                let j = choose|j: int| 0 <= j < a.len() && a[j] == x;
                assert(K::lt(b[0], b[i + 1]));
                lt_asymmetric::<K>(b[0], x);
                assert(j != 0);
                assert(ra[j - 1] == x);
            }
        }
        increasing_unique::<K>(ra, rb);
        assert(a =~= seq![a[0]] + ra);
        assert(b =~= seq![b[0]] + rb);
    }
}

/// The keys of a finite set in increasing order.
pub open spec fn sorted<K: Key>(s: Set<K::V>) -> Seq<K::V> {
    choose|q: Seq<K::V>| increasing::<K>(q) && q.to_set() == s
}

/// An increasing sequence is the sorted sequence of its keys.
pub proof fn lemma_sorted<K: Key>(q: Seq<K::V>)
    requires
        increasing::<K>(q),
    ensures
        sorted::<K>(q.to_set()) == q,
{
    let p = sorted::<K>(q.to_set());
    assert(increasing::<K>(p) && p.to_set() == q.to_set());
    increasing_unique::<K>(p, q);
}

/// An increasing sequence with one more key at its place.
pub open spec fn with_key<K: Key>(q: Seq<K::V>, x: K::V) -> Seq<K::V>
    decreases q.len(),
{
    if q.len() == 0 || K::lt(q.last(), x) {
        q.push(x)
    } else {
        with_key::<K>(q.drop_last(), x).push(q.last())
    }
}

/// A key that an increasing sequence lacks finds its place in it.
pub proof fn lemma_with_key<K: Key>(q: Seq<K::V>, x: K::V)
    requires
        increasing::<K>(q),
        !q.contains(x),
    ensures
        increasing::<K>(with_key::<K>(q, x)),
        with_key::<K>(q, x).to_set() == q.to_set().insert(x),
    decreases q.len(),
{
    let r = with_key::<K>(q, x);
    if q.len() == 0 || K::lt(q.last(), x) {
        assert forall|i: int, j: int| 0 <= i < j < r.len() implies #[trigger] K::lt(r[i], r[j]) by {
            if j < q.len() {
                assert(K::lt(q[i], q[j]));
            } else if i < q.len() - 1 {
                assert(K::lt(q[i], q[q.len() - 1]));
                K::lt_transitive(q[i], q.last(), x);
            }
        }
        assert(r.to_set() =~= q.to_set().insert(x)) by {
            assert forall|y: K::V| r.to_set().contains(y) <==> q.to_set().insert(x).contains(y) by {
                if r.to_set().contains(y) {
                    let i = choose|i: int| 0 <= i < r.len() && r[i] == y;
                    if i < q.len() {
                        assert(q[i] == y);
                    }
                }
                if q.to_set().contains(y) {
                    let i = choose|i: int| 0 <= i < q.len() && q[i] == y;
                    assert(r[i] == y);
                }
                if y == x {
                    assert(r[q.len() as int] == x);
                }
            }
        }
    } else {
        let front = q.drop_last();
        let last = q.last();
        assert(increasing::<K>(front)) by {
            assert forall|i: int, j: int| 0 <= i < j < front.len() implies #[trigger] K::lt(front[i], front[j]) by {
                assert(K::lt(q[i], q[j]));
            }
        }
        assert(!front.contains(x)) by {
            if front.contains(x) {
                let i = choose|i: int| 0 <= i < front.len() && front[i] == x;
                assert(q[i] == x);
            }
        }
        lemma_with_key::<K>(front, x);
        let mid = with_key::<K>(front, x);
        K::lt_connected(last, x);
        assert(q[q.len() - 1] == last);
        assert(K::lt(x, last));
        assert forall|i: int| 0 <= i < mid.len() implies K::lt(#[trigger] mid[i], last) by {
            assert(mid.to_set().contains(mid[i]));
            if mid[i] != x {
                assert(front.to_set().contains(mid[i]));
                let j = choose|j: int| 0 <= j < front.len() && front[j] == mid[i];
                assert(K::lt(q[j], q[q.len() - 1]));
            }
        }
        assert forall|i: int, j: int| 0 <= i < j < r.len() implies #[trigger] K::lt(r[i], r[j]) by {
            if j < mid.len() {
                assert(K::lt(mid[i], mid[j]));
            } else {
                assert(K::lt(mid[i], last));
            }
        }
        assert(r.to_set() =~= q.to_set().insert(x)) by {
            assert forall|y: K::V| r.to_set().contains(y) <==> q.to_set().insert(x).contains(y) by {
                if r.to_set().contains(y) {
                    let i = choose|i: int| 0 <= i < r.len() && r[i] == y;
                    if i < mid.len() {
                        assert(mid.to_set().contains(mid[i]));
                        if y != x {
                            assert(front.to_set().contains(y));
                            let j = choose|j: int| 0 <= j < front.len() && front[j] == y;
                            assert(q[j] == y);
                        }
                    } else {
                        assert(q[q.len() - 1] == y);
                    }
                }
                if q.to_set().contains(y) {
                    let i = choose|i: int| 0 <= i < q.len() && q[i] == y;
                    if i < front.len() {
                        assert(front[i] == y);
                        assert(front.to_set().contains(y));
                        assert(mid.to_set().contains(y));
                        let j = choose|j: int| 0 <= j < mid.len() && mid[j] == y;
                        assert(r[j] == y);
                    } else {
                        assert(r[mid.len() as int] == y);
                    }
                }
                if y == x {
                    assert(mid.to_set().contains(x));
                    let j = choose|j: int| 0 <= j < mid.len() && mid[j] == x;
                    assert(r[j] == x);
                }
            }
        }
    }
}

/// The keys of a finite set can be put in increasing order, so its sorted
/// sequence is increasing and holds its keys and no others.
pub proof fn lemma_sorted_of<K: Key>(s: Set<K::V>)
    requires
        s.finite(),
    ensures
        increasing::<K>(sorted::<K>(s)),
        sorted::<K>(s).to_set() == s,
        sorted::<K>(s).len() == s.len(),
    decreases s.len(),
{
    if s.len() == 0 {
        let q = Seq::<K::V>::empty();
        assert(s =~= Set::<K::V>::empty());
        assert(q.to_set() =~= s);
        assert(increasing::<K>(q) && q.to_set() == s);
    } else {
        let x = s.choose();
        let rest = s.remove(x);
        lemma_sorted_of::<K>(rest);
        let q = sorted::<K>(rest);
        assert(!q.contains(x)) by {
            if q.contains(x) {
                assert(q.to_set().contains(x));
            }
        }
        lemma_with_key::<K>(q, x);
        let r = with_key::<K>(q, x);
        assert(rest.insert(x) =~= s);
        assert(increasing::<K>(r) && r.to_set() == s);
    }
    increasing_no_duplicates::<K>(sorted::<K>(s));
}

/// A set of items, walked in increasing order of their keys.
#[derive(Debug)]
pub struct OrdSet<K: Key> {
    items: Vec<K>,
}

impl<K: Key> OrdSet<K> {
    /// The keys of the items, in increasing order.
    pub closed spec fn keys(&self) -> Seq<K::V> {
        keys_of(self.items@)
    }

    /// The items are valid and strictly increasing.
    pub closed spec fn wf(&self) -> bool {
        all_valid(self.items@) && increasing::<K>(keys_of(self.items@))
    }

    pub open spec fn view(&self) -> Set<K::V> {
        self.keys().to_set()
    }

    /// What well-formedness means for the keys.
    pub proof fn lemma_wf(&self)
        requires
            self.wf(),
        ensures
            increasing::<K>(self.keys()),
            self.keys().no_duplicates(),
            self@.finite(),
            self@.len() == self.keys().len(),
            self.keys() == sorted::<K>(self@),
    {
        increasing_no_duplicates::<K>(self.keys());
        lemma_sorted::<K>(self.keys());
    }

    pub fn new() -> (r: Self)
        ensures
            r.wf(),
            r.keys() == Seq::<K::V>::empty(),
            r@ == Set::<K::V>::empty(),
    {
        let r = OrdSet { items: Vec::new() };
        assert(r.keys() =~= Seq::<K::V>::empty());
        assert(r@ =~= Set::<K::V>::empty());
        r
    }

    pub fn len(&self) -> (n: usize)
        ensures
            n == self.keys().len(),
    {
        self.items.len()
    }

    pub fn is_empty(&self) -> (r: bool)
        ensures
            r == (self.keys().len() == 0),
            self.wf() ==> r == (self@ == Set::<K::V>::empty()),
    {
        proof {
            if self.keys().len() == 0 {
                assert(self@ =~= Set::<K::V>::empty());
            } else {
                assert(self@.contains(self.keys()[0]));
            }
        }
        self.items.len() == 0
    }

    /// The item at a position, counting in increasing order.
    pub fn get(&self, i: usize) -> (r: &K)
        requires
            self.wf(),
            i < self.keys().len(),
        ensures
            r.valid(),
            r.key() == self.keys()[i as int],
            self@.contains(r.key()),
    {
        proof {
            assert(self.keys()[i as int] == self.items@[i as int].key());
            assert(self.keys().contains(self.keys()[i as int]));
        }
        &self.items[i]
    }

    /// Where an item stands or would stand: every key before the position is
    /// below the item's, and every key from it on is not.
    pub fn position(&self, k: &K) -> (r: (bool, usize))
        requires
            self.wf(),
            k.valid(),
        ensures
            r.1 <= self.keys().len(),
            forall|j: int| 0 <= j < r.1 ==> K::lt(#[trigger] self.keys()[j], k.key()),
            r.0 ==> r.1 < self.keys().len() && self.keys()[r.1 as int] == k.key(),
            !r.0 ==> forall|j: int| r.1 <= j < self.keys().len() ==> K::lt(k.key(), #[trigger] self.keys()[j]),
            r.0 == self@.contains(k.key()),
    {
        let ghost ks = self.keys();
        let mut i: usize = 0;
        while i < self.items.len()
            invariant
                i <= self.items.len(),
                self.wf(),
                k.valid(),
                ks == self.keys(),
                forall|j: int| 0 <= j < i ==> K::lt(#[trigger] ks[j], k.key()),
            decreases self.items.len() - i,
        {
            match self.items[i].compare(k) {
                Order::Less => {},
                Order::Equal => {
                    proof {
                        assert(ks[i as int] == k.key());
                        assert(ks.contains(ks[i as int]));
                    }
                    return (true, i);
                },
                Order::Greater => {
                    proof {
                        assert forall|j: int| i <= j < ks.len() implies K::lt(k.key(), #[trigger] ks[j]) by {
                            if j > i {
                                assert(K::lt(ks[i as int], ks[j]));
                                K::lt_transitive(k.key(), ks[i as int], ks[j]);
                            }
                        }
                        assert forall|j: int| 0 <= j < ks.len() implies ks[j] != k.key() by {
                            if j < i {
                                lt_asymmetric::<K>(ks[j], k.key());
                            } else {
                                lt_asymmetric::<K>(k.key(), ks[j]);
                            }
                        }
                    }
                    return (false, i);
                },
            }
            i += 1;
        }
        proof {
            assert forall|j: int| 0 <= j < ks.len() implies ks[j] != k.key() by {
                lt_asymmetric::<K>(ks[j], k.key());
            }
        }
        (false, i)
    }

    pub fn contains(&self, k: &K) -> (r: bool)
        requires
            self.wf(),
            k.valid(),
        ensures
            r == self@.contains(k.key()),
    {
        self.position(k).0
    }

    /// Puts an item into the set; says whether it was new.
    pub fn insert(&mut self, k: K) -> (r: bool)
        requires
            old(self).wf(),
            k.valid(),
        ensures
            final(self).wf(),
            final(self)@ == old(self)@.insert(k.key()),
            r == !old(self)@.contains(k.key()),
    {
        let (found, pos) = self.position(&k);
        if found {
            assert(self@ =~= self@.insert(k.key()));
            return false;
        }
        let ghost old_keys = self.keys();
        let ghost kk = k.key();
        self.items.insert(pos, k);
        proof {
            let new_keys = self.keys();
            assert(new_keys =~= old_keys.insert(pos as int, kk));
            assert forall|i: int, j: int| 0 <= i < j < new_keys.len() implies #[trigger] K::lt(new_keys[i], new_keys[j]) by {
                if j < pos {
                    assert(K::lt(old_keys[i], old_keys[j]));
                } else if j == pos {
                    assert(K::lt(old_keys[i], kk));
                } else if i < pos {
                    assert(K::lt(old_keys[i], old_keys[j - 1]));
                } else if i == pos {
                    assert(K::lt(kk, old_keys[j - 1]));
                } else {
                    assert(K::lt(old_keys[i - 1], old_keys[j - 1]));
                }
            }
            assert forall|i: int| 0 <= i < self.items@.len() implies (#[trigger] self.items@[i]).valid() by {
                if i < pos {
                    assert(old(self).items@[i].valid());
                } else if i > pos {
                    assert(old(self).items@[i - 1].valid());
                }
            }
            assert forall|x: K::V| new_keys.to_set().contains(x) <==> old_keys.to_set().insert(kk).contains(x) by {
                if new_keys.to_set().contains(x) {
                    let i = choose|i: int| 0 <= i < new_keys.len() && new_keys[i] == x;
                    if i < pos {
                        assert(old_keys[i] == x);
                    } else if i > pos {
                        assert(old_keys[i - 1] == x);
                    }
                }
                if old_keys.to_set().contains(x) {
                    let i = choose|i: int| 0 <= i < old_keys.len() && old_keys[i] == x;
                    if i < pos {
                        assert(new_keys[i] == x);
                    } else {
                        assert(new_keys[i + 1] == x);
                    }
                }
                if x == kk {
                    assert(new_keys[pos as int] == x);
                }
            }
            assert(new_keys.to_set() =~= old_keys.to_set().insert(kk));
        }
        true
    }

    /// The set of one item.
    pub fn singleton(k: K) -> (r: Self)
        requires
            k.valid(),
        ensures
            r.wf(),
            r@ == Set::<K::V>::empty().insert(k.key()),
    {
        let mut r = Self::new();
        r.insert(k);
        r
    }

    /// Adds every item of another set.
    pub fn extend(&mut self, other: &Self)
        requires
            old(self).wf(),
            other.wf(),
        ensures
            final(self).wf(),
            final(self)@ == old(self)@.union(other@),
    {
        let mut i: usize = 0;
        while i < other.len()
            invariant
                i <= other.keys().len(),
                self.wf(),
                other.wf(),
                self@ == old(self)@.union(other.keys().take(i as int).to_set()),
            decreases other.keys().len() - i,
        {
            let item = other.get(i).duplicate();
            self.insert(item);
            proof {
                let a = other.keys().take(i as int);
                let b = other.keys().take(i as int + 1);
                assert(b =~= a.push(other.keys()[i as int]));
                assert(b.to_set() =~= a.to_set().insert(other.keys()[i as int])) by {
                    assert forall|x: K::V| b.to_set().contains(x) <==> a.to_set().insert(other.keys()[i as int]).contains(x) by {
                        if b.to_set().contains(x) {
                            let j = choose|j: int| 0 <= j < b.len() && b[j] == x;
                            if j < i {
                                assert(a[j] == x);
                            }
                        }
                        if a.to_set().contains(x) {
                            let j = choose|j: int| 0 <= j < a.len() && a[j] == x;
                            assert(b[j] == x);
                        }
                        if x == other.keys()[i as int] {
                            assert(b[i as int] == x);
                        }
                    }
                }
                assert(self@ =~= old(self)@.union(b.to_set()));
            }
            i += 1;
        }
        proof {
            assert(other.keys().take(i as int) =~= other.keys());
        }
    }

    /// Whether every item of this set is in the other.
    pub fn is_subset(&self, other: &Self) -> (r: bool)
        requires
            self.wf(),
            other.wf(),
        ensures
            r == self@.subset_of(other@),
    {
        let mut i: usize = 0;
        while i < self.len()
            invariant
                i <= self.keys().len(),
                self.wf(),
                other.wf(),
                forall|j: int| 0 <= j < i ==> other@.contains(#[trigger] self.keys()[j]),
            decreases self.keys().len() - i,
        {
            if !other.contains(self.get(i)) {
                return false;
            }
            i += 1;
        }
        true
    }

    /// Whether the two sets share an item.
    pub fn intersects(&self, other: &Self) -> (r: bool)
        requires
            self.wf(),
            other.wf(),
        ensures
            r == exists|x: K::V| self@.contains(x) && other@.contains(x),
    {
        let mut i: usize = 0;
        while i < self.len()
            invariant
                i <= self.keys().len(),
                self.wf(),
                other.wf(),
                forall|j: int| 0 <= j < i ==> !other@.contains(#[trigger] self.keys()[j]),
            decreases self.keys().len() - i,
        {
            if other.contains(self.get(i)) {
                return true;
            }
            i += 1;
        }
        proof {
            assert forall|x: K::V| self@.contains(x) implies !other@.contains(x) by {
                let j = choose|j: int| 0 <= j < self.keys().len() && self.keys()[j] == x;
                assert(!other@.contains(self.keys()[j]));
            }
        }
        false
    }

    /// The items of this set that the other holds (`keep`) or lacks.
    fn select(&self, other: &Self, keep: bool) -> (r: Self)
        requires
            self.wf(),
            other.wf(),
        ensures
            r.wf(),
            r@ == if keep {
                self@.intersect(other@)
            } else {
                self@.difference(other@)
            },
    {
        let mut r = Self::new();
        let mut i: usize = 0;
        while i < self.len()
            invariant
                i <= self.keys().len(),
                self.wf(),
                other.wf(),
                r.wf(),
                forall|x: K::V| r@.contains(x) <==> (exists|j: int| 0 <= j < i && #[trigger] self.keys()[j] == x) && (other@.contains(x) == keep),
            decreases self.keys().len() - i,
        {
            let item = self.get(i);
            if other.contains(item) == keep {
                r.insert(item.duplicate());
            }
            i += 1;
        }
        proof {
            if keep {
                assert(r@ =~= self@.intersect(other@));
            } else {
                assert(r@ =~= self@.difference(other@));
            }
        }
        r
    }

    /// The items that are in both sets.
    pub fn intersection(&self, other: &Self) -> (r: Self)
        requires
            self.wf(),
            other.wf(),
        ensures
            r.wf(),
            r@ == self@.intersect(other@),
    {
        self.select(other, true)
    }

    /// The items of this set that are not in the other.
    pub fn difference(&self, other: &Self) -> (r: Self)
        requires
            self.wf(),
            other.wf(),
        ensures
            r.wf(),
            r@ == self@.difference(other@),
    {
        self.select(other, false)
    }

    /// The set of the items of a vector.
    pub fn from_vec(v: &Vec<K>) -> (r: Self)
        requires
            all_valid(v@),
        ensures
            r.wf(),
            r@ == keys_of(v@).to_set(),
    {
        let mut r = Self::new();
        let mut i: usize = 0;
        while i < v.len()
            invariant
                i <= v.len(),
                all_valid(v@),
                r.wf(),
                forall|x: K::V| r@.contains(x) <==> exists|j: int| 0 <= j < i && #[trigger] keys_of(v@)[j] == x,
            decreases v.len() - i,
        {
            let ghost before = r@;
            r.insert(v[i].duplicate());
            proof {
                let ks = keys_of(v@);
                assert forall|x: K::V| r@.contains(x) <==> exists|j: int| 0 <= j < i + 1 && #[trigger] ks[j] == x by {
                    if before.contains(x) {
                        let j = choose|j: int| 0 <= j < i && #[trigger] ks[j] == x;
                        assert(0 <= j < i + 1 && ks[j] == x);
                    }
                    if x == ks[i as int] {
                        assert(0 <= i < i + 1 && ks[i as int] == x);
                    }
                    if exists|j: int| 0 <= j < i + 1 && #[trigger] ks[j] == x {
                        let j = choose|j: int| 0 <= j < i + 1 && #[trigger] ks[j] == x;
                        if j < i {
                            assert(before.contains(x));
                        }
                    }
                }
            }
            i += 1;
        }
        assert(r@ =~= keys_of(v@).to_set()) by {
            let ks = keys_of(v@);
            assert forall|x: K::V| r@.contains(x) <==> ks.to_set().contains(x) by {
                if r@.contains(x) {
                    let j = choose|j: int| 0 <= j < i && #[trigger] ks[j] == x;
                    assert(ks.contains(x));
                }
                if ks.to_set().contains(x) {
                    let j = choose|j: int| 0 <= j < ks.len() && ks[j] == x;
                    assert(0 <= j < i && ks[j] == x);
                }
            }
        }
        r
    }

    /// The items in increasing order.
    pub fn to_vec(&self) -> (r: Vec<K>)
        requires
            self.wf(),
        ensures
            all_valid(r@),
            keys_of(r@) == self.keys(),
    {
        duplicate_items(&self.items)
    }

    /// Two well-formed sets with the same items are walked alike.
    pub proof fn lemma_same_keys(&self, other: &Self)
        requires
            self.wf(),
            other.wf(),
            self@ == other@,
        ensures
            self.keys() == other.keys(),
    {
        increasing_unique::<K>(self.keys(), other.keys());
    }
}

impl<K: Key> Key for OrdSet<K> {
    type V = Seq<K::V>;

    open spec fn key(&self) -> Seq<K::V> {
        self.keys()
    }

    open spec fn valid(&self) -> bool {
        self.wf()
    }

    open spec fn lt(a: Seq<K::V>, b: Seq<K::V>) -> bool {
        seq_lt::<K>(a, b)
    }

    proof fn lt_irreflexive(a: Seq<K::V>) {
        seq_lt_irreflexive_from::<K>(a, 0);
    }

    proof fn lt_transitive(a: Seq<K::V>, b: Seq<K::V>, c: Seq<K::V>) {
        seq_lt_transitive_from::<K>(a, b, c, 0);
    }

    proof fn lt_connected(a: Seq<K::V>, b: Seq<K::V>) {
        seq_lt_connected_from::<K>(a, b, 0);
    }

    fn compare(&self, other: &Self) -> (o: Order) {
        compare_slices(&self.items, &other.items)
    }

    fn duplicate(&self) -> (r: Self) {
        OrdSet { items: duplicate_items(&self.items) }
    }
}

} // verus!
