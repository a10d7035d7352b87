//! Maps kept as vectors in strictly increasing order of their keys.
use crate::order::{all_valid, keys_of, lt_asymmetric, Key, Order};
use crate::ordset::{increasing, increasing_no_duplicates, OrdSet};
use vstd::prelude::*;

verus! {

/// A map from keys to values, walked in increasing order of the keys.
#[derive(Debug)]
pub struct OrdMap<K: Key, V> {
    keys: Vec<K>,
    vals: Vec<V>,
}

impl<K: Key, V> OrdMap<K, V> {
    /// The keys in increasing order.
    pub closed spec fn keys(&self) -> Seq<K::V> {
        keys_of(self.keys@)
    }

    /// The values, each at the position of its key.
    pub closed spec fn vals(&self) -> Seq<V> {
        self.vals@
    }

    /// The keys are valid and strictly increasing, one value for each.
    pub closed spec fn wf(&self) -> bool {
        &&& all_valid(self.keys@)
        &&& increasing::<K>(keys_of(self.keys@))
        &&& self.keys@.len() == self.vals@.len()
    }

    /// The position of a key that the map holds.
    pub open spec fn index_of(&self, k: K::V) -> int {
        choose|i: int| 0 <= i < self.keys().len() && self.keys()[i] == k
    }

    pub open spec fn has(&self, k: K::V) -> bool {
        self.keys().to_set().contains(k)
    }

    pub open spec fn view(&self) -> Map<K::V, V> {
        Map::new(|k: K::V| self.has(k), |k: K::V| self.vals()[self.index_of(k)])
    }

    /// What well-formedness means for keys and values.
    pub proof fn lemma_wf(&self)
        requires
            self.wf(),
        ensures
            increasing::<K>(self.keys()),
            self.keys().no_duplicates(),
            self.keys().len() == self.vals().len(),
            self@.dom() == self.keys().to_set(),
            forall|i: int| 0 <= i < self.keys().len() ==> self.has(#[trigger] self.keys()[i]) && self.index_of(self.keys()[i]) == i,
            forall|i: int| 0 <= i < self.keys().len() ==> self@[#[trigger] self.keys()[i]] == self.vals()[i],
            self.keys() == crate::ordset::sorted::<K>(self@.dom()),
    {
        increasing_no_duplicates::<K>(self.keys());
        crate::ordset::lemma_sorted::<K>(self.keys());
        assert(self@.dom() =~= self.keys().to_set());
        assert forall|i: int| 0 <= i < self.keys().len() implies self.has(#[trigger] self.keys()[i]) && self.index_of(self.keys()[i]) == i by {
            assert(self.keys().contains(self.keys()[i]));
        }
    }

    /// A key that the map holds stands at a position.
    pub proof fn lemma_has(&self, k: K::V)
        requires
            self.wf(),
            self.has(k),
        ensures
            0 <= self.index_of(k) < self.keys().len(),
            self.keys()[self.index_of(k)] == k,
            self@[k] == self.vals()[self.index_of(k)],
    {
        assert(self.keys().contains(k));
    }

    pub fn new() -> (r: Self)
        ensures
            r.wf(),
            r.keys() == Seq::<K::V>::empty(),
            r.vals() == Seq::<V>::empty(),
            r@ == Map::<K::V, V>::empty(),
    {
        let r = OrdMap { keys: Vec::new(), vals: Vec::new() };
        assert(r.keys() =~= Seq::<K::V>::empty());
        assert(r@ =~= Map::<K::V, V>::empty());
        r
    }

    pub fn len(&self) -> (n: usize)
        ensures
            n == self.keys().len(),
    {
        self.keys.len()
    }

    pub fn key_at(&self, i: usize) -> (r: &K)
        requires
            self.wf(),
            i < self.keys().len(),
        ensures
            r.valid(),
            r.key() == self.keys()[i as int],
            self.has(r.key()),
    {
        proof {
            assert(self.keys()[i as int] == self.keys@[i as int].key());
            assert(self.keys().contains(self.keys()[i as int]));
        }
        &self.keys[i]
    }

    pub fn val_at(&self, i: usize) -> (r: &V)
        requires
            self.wf(),
            i < self.keys().len(),
        ensures
            *r == self.vals()[i as int],
            *r == self@[self.keys()[i as int]],
    {
        proof {
            self.lemma_wf();
        }
        &self.vals[i]
    }

    /// Replaces the value at a position.
    pub fn set_val(&mut self, i: usize, v: V)
        requires
            old(self).wf(),
            i < old(self).keys().len(),
        ensures
            final(self).wf(),
            final(self).keys() == old(self).keys(),
            final(self).vals() == old(self).vals().update(i as int, v),
            final(self)@ == old(self)@.insert(old(self).keys()[i as int], v),
    {
        self.vals.set(i, v);
        proof {
            old(self).lemma_wf();
            self.lemma_wf();
            assert(self@ =~= old(self)@.insert(old(self).keys()[i as int], v)) by {
                assert forall|k: K::V| self.has(k) implies #[trigger] self@[k] == old(self)@.insert(old(self).keys()[i as int], v)[k] by {
                    self.lemma_has(k);
                }
            }
        }
    }

    /// Where a key stands or would stand.
    pub fn position(&self, k: &K) -> (r: (bool, usize))
        requires
            self.wf(),
            k.valid(),
        ensures
            r.1 <= self.keys().len(),
            forall|j: int| 0 <= j < r.1 ==> K::lt(#[trigger] self.keys()[j], k.key()),
            r.0 ==> r.1 < self.keys().len() && self.keys()[r.1 as int] == k.key(),
            !r.0 ==> forall|j: int| r.1 <= j < self.keys().len() ==> K::lt(k.key(), #[trigger] self.keys()[j]),
            r.0 == self.has(k.key()),
    {
        let ghost ks = self.keys();
        let mut i: usize = 0;
        while i < self.keys.len()
            invariant
                i <= self.keys.len(),
                self.wf(),
                k.valid(),
                ks == self.keys(),
                forall|j: int| 0 <= j < i ==> K::lt(#[trigger] ks[j], k.key()),
            decreases self.keys.len() - i,
        {
            match self.keys[i].compare(k) {
                Order::Less => {},
                Order::Equal => {
                    proof {
                        assert(ks[i as int] == k.key());
                        assert(ks.contains(ks[i as int]));
                    }
                    return (true, i);
                },
                Order::Greater => {
                    proof {
                        assert forall|j: int| i <= j < ks.len() implies K::lt(k.key(), #[trigger] ks[j]) by {
                            if j > i {
                                assert(K::lt(ks[i as int], ks[j]));
                                K::lt_transitive(k.key(), ks[i as int], ks[j]);
                            }
                        }
                        assert forall|j: int| 0 <= j < ks.len() implies ks[j] != k.key() by {
                            if j < i {
                                lt_asymmetric::<K>(ks[j], k.key());
                            } else {
                                lt_asymmetric::<K>(k.key(), ks[j]);
                            }
                        }
                    }
                    return (false, i);
                },
            }
            i += 1;
        }
        proof {
            assert forall|j: int| 0 <= j < ks.len() implies ks[j] != k.key() by {
                lt_asymmetric::<K>(ks[j], k.key());
            }
        }
        (false, i)
    }

    /// The position of a key, if the map holds it.
    pub fn find(&self, k: &K) -> (r: Option<usize>)
        requires
            self.wf(),
            k.valid(),
        ensures
            r is Some == self.has(k.key()),
            r is Some ==> r->0 < self.keys().len() && self.keys()[r->0 as int] == k.key() && self.index_of(k.key()) == r->0,
    {
        let (found, pos) = self.position(k);
        proof {
            self.lemma_wf();
        }
        if found {
            Some(pos)
        } else {
            None
        }
    }

    pub fn contains_key(&self, k: &K) -> (r: bool)
        requires
            self.wf(),
            k.valid(),
        ensures
            r == self.has(k.key()),
            r == self@.dom().contains(k.key()),
    {
        self.position(k).0
    }

    pub fn get(&self, k: &K) -> (r: Option<&V>)
        requires
            self.wf(),
            k.valid(),
        ensures
            r is Some == self.has(k.key()),
            r is Some ==> *r->0 == self@[k.key()],
    {
        match self.find(k) {
            Some(i) => Some(&self.vals[i]),
            None => None,
        }
    }

    /// Sets the value of a key, which may be new.
    pub fn insert(&mut self, k: K, v: V)
        requires
            old(self).wf(),
            k.valid(),
        ensures
            final(self).wf(),
            final(self)@ == old(self)@.insert(k.key(), v),
            final(self).keys().to_set() == old(self).keys().to_set().insert(k.key()),
    {
        let (found, pos) = self.position(&k);
        if found {
            self.set_val(pos, v);
            assert(self.keys().to_set() =~= old(self).keys().to_set().insert(k.key()));
            return ;
        }
        let ghost old_keys = self.keys();
        let ghost old_vals = self.vals();
        let ghost kk = k.key();
        self.keys.insert(pos, k);
        self.vals.insert(pos, v);
        proof {
            let new_keys = self.keys();
            assert(new_keys =~= old_keys.insert(pos as int, kk));
            assert forall|i: int, j: int| 0 <= i < j < new_keys.len() implies #[trigger] K::lt(new_keys[i], new_keys[j]) by {
                if j < pos {
                    assert(K::lt(old_keys[i], old_keys[j]));
                } else if j == pos {
                    assert(K::lt(old_keys[i], kk));
                } else if i < pos {
                    assert(K::lt(old_keys[i], old_keys[j - 1]));
                } else if i == pos {
                    assert(K::lt(kk, old_keys[j - 1]));
                } else {
                    assert(K::lt(old_keys[i - 1], old_keys[j - 1]));
                }
            }
            assert forall|i: int| 0 <= i < self.keys@.len() implies (#[trigger] self.keys@[i]).valid() by {
                if i < pos {
                    assert(old(self).keys@[i].valid());
                } else if i > pos {
                    assert(old(self).keys@[i - 1].valid());
                }
            }
            assert forall|x: K::V| new_keys.to_set().contains(x) <==> old_keys.to_set().insert(kk).contains(x) by {
                if new_keys.to_set().contains(x) {
                    let i = choose|i: int| 0 <= i < new_keys.len() && new_keys[i] == x;
                    if i < pos {
                        assert(old_keys[i] == x);
                    } else if i > pos {
                        assert(old_keys[i - 1] == x);
                    }
                }
                if old_keys.to_set().contains(x) {
                    let i = choose|i: int| 0 <= i < old_keys.len() && old_keys[i] == x;
                    if i < pos {
                        assert(new_keys[i] == x);
                    } else {
                        assert(new_keys[i + 1] == x);
                    }
                }
                if x == kk {
                    assert(new_keys[pos as int] == x);
                }
            }
            assert(new_keys.to_set() =~= old_keys.to_set().insert(kk));
            old(self).lemma_wf();
            self.lemma_wf();
            assert(self@ =~= old(self)@.insert(kk, v)) by {
                assert forall|x: K::V| self.has(x) implies #[trigger] self@[x] == old(self)@.insert(kk, v)[x] by {
                    self.lemma_has(x);
                    let i = self.index_of(x);
                    if i < pos {
                        assert(old_keys[i] == x);
                        assert(old(self)@[old_keys[i]] == old_vals[i]);
                    } else if i > pos {
                        assert(old_keys[i - 1] == x);
                        assert(old(self)@[old_keys[i - 1]] == old_vals[i - 1]);
                        assert(K::lt(new_keys[pos as int], new_keys[i]));
                        lt_asymmetric::<K>(kk, x);
                    }
                }
            }
        }
    }
}

/// Maps whose values are identified by keys of their own.
impl<K: Key, V: Key> OrdMap<K, V> {
    /// The map is well-formed and each value is valid.
    pub open spec fn wf_vals(&self) -> bool {
        &&& self.wf()
        &&& forall|i: int| 0 <= i < self.vals().len() ==> (#[trigger] self.vals()[i]).valid()
    }

    /// The map from each key to the key of its value.
    pub open spec fn kv(&self) -> Map<K::V, V::V> {
        Map::new(|k: K::V| self.has(k), |k: K::V| self@[k].key())
    }

    /// The keys are those of `kv()` in increasing order, and the values
    /// stand at the positions of their keys.
    pub proof fn lemma_kv(&self)
        requires
            self.wf_vals(),
        ensures
            self.keys() == crate::ordset::sorted::<K>(self.kv().dom()),
            self.keys().len() == self.vals().len(),
            forall|i: int| 0 <= i < self.keys().len() ==> self.kv().dom().contains(#[trigger] self.keys()[i]) && self.kv()[self.keys()[i]] == self.vals()[i].key() && self.vals()[i].valid(),
    {
        self.lemma_wf();
        assert(self.kv().dom() =~= self@.dom());
    }

    /// Sets the value of a key, which may be new.
    pub fn put(&mut self, k: K, v: V)
        requires
            old(self).wf_vals(),
            k.valid(),
            v.valid(),
        ensures
            final(self).wf_vals(),
            final(self).kv() == old(self).kv().insert(k.key(), v.key()),
    {
        let ghost kk = k.key();
        let ghost vk = v.key();
        self.insert(k, v);
        proof {
            self.lemma_wf();
            old(self).lemma_wf();
            assert forall|i: int| 0 <= i < self.vals().len() implies (#[trigger] self.vals()[i]).valid() by {
                let q = self.keys()[i];
                assert(self@[q] == self.vals()[i]);
                if q != kk {
                    assert(old(self).keys().to_set().contains(q));
                    old(self).lemma_has(q);
                }
            }
            assert(self.kv() =~= old(self).kv().insert(kk, vk));
        }
    }

    /// The value of a key, if the map holds it.
    pub fn lookup(&self, k: &K) -> (r: Option<&V>)
        requires
            self.wf_vals(),
            k.valid(),
        ensures
            r is Some == self.kv().dom().contains(k.key()),
            r is Some ==> r->0.valid() && r->0.key() == self.kv()[k.key()],
    {
        let r = self.get(k);
        proof {
            if self.has(k.key()) {
                self.lemma_has(k.key());
            }
        }
        r
    }
}

/// The list at a key of a map of lists: empty where the map has no entry.
pub open spec fn list_at<A, B>(m: Map<A, Seq<B>>, k: A) -> Seq<B> {
    if m.dom().contains(k) {
        m[k]
    } else {
        Seq::empty()
    }
}

/// A map of lists with an item added at the end of the list at a key.
pub open spec fn map_push<A, B>(m: Map<A, Seq<B>>, k: A, item: B) -> Map<A, Seq<B>> {
    m.insert(k, list_at(m, k).push(item))
}

/// Maps whose values are lists.
impl<K: Key, T> OrdMap<K, Vec<T>> {
    /// The map from each key to the items of its list.
    pub open spec fn lists(&self) -> Map<K::V, Seq<T>> {
        Map::new(|k: K::V| self.has(k), |k: K::V| self@[k]@)
    }

    /// Adds an item at the end of the list of a key, which gets an entry if
    /// it has none.
    pub fn push_at(&mut self, k: &K, item: T)
        requires
            old(self).wf(),
            k.valid(),
        ensures
            final(self).wf(),
            final(self).lists() == map_push(old(self).lists(), k.key(), item),
    {
        proof {
            self.lemma_wf();
        }
        match self.find(k) {
            Some(i) => {
                let mut list: Vec<T> = Vec::new();
                core::mem::swap(&mut list, &mut self.vals[i]);
                list.push(item);
                let ghost mid = *self;
                proof {
                    assert(mid.keys() == old(self).keys());
                    assert(mid.wf());
                }
                self.set_val(i, list);
                proof {
                    self.lemma_wf();
                    let want = map_push(old(self).lists(), k.key(), item);
                    assert forall|q: K::V| self.has(q) implies #[trigger] self.lists()[q] == want[q] by {
                        self.lemma_has(q);
                        old(self).lemma_has(q);
                    }
                    assert(self.lists() =~= want);
                }
            },
            None => {
                let mut list: Vec<T> = Vec::new();
                list.push(item);
                self.insert(k.duplicate(), list);
                proof {
                    let want = map_push(old(self).lists(), k.key(), item);
                    assert(list@ =~= Seq::<T>::empty().push(item));
                    assert forall|q: K::V| self.has(q) implies #[trigger] self.lists()[q] == want[q] by {
                    }
                    assert(self.lists() =~= want);
                }
            },
        }
    }
}

/// The set at a key of a map of sets: empty where the map has no entry.
pub open spec fn set_at<A, B>(m: Map<A, Set<B>>, k: A) -> Set<B> {
    if m.dom().contains(k) {
        m[k]
    } else {
        Set::empty()
    }
}

/// A map of sets with items added to the set at a key.
pub open spec fn map_add<A, B>(m: Map<A, Set<B>>, k: A, items: Set<B>) -> Map<A, Set<B>> {
    m.insert(k, set_at(m, k).union(items))
}

/// Maps whose values are sets.
impl<K: Key, T: Key> OrdMap<K, OrdSet<T>> {
    /// The map is well-formed and so is each of its sets.
    pub open spec fn wf_sets(&self) -> bool {
        &&& self.wf()
        &&& forall|i: int| 0 <= i < self.vals().len() ==> (#[trigger] self.vals()[i]).wf()
    }

    /// The set that a key stands for: that of its entry, or the empty set.
    pub open spec fn set_of(&self, k: K::V) -> Set<T::V> {
        if self.has(k) {
            self@[k]@
        } else {
            Set::empty()
        }
    }

    /// The map from each key to the items of its set.
    pub open spec fn sets(&self) -> Map<K::V, Set<T::V>> {
        Map::new(|k: K::V| self.has(k), |k: K::V| self@[k]@)
    }

    /// Whether the key's set holds the item.
    pub open spec fn holds(&self, k: K::V, x: T::V) -> bool {
        self.has(k) && self@[k]@.contains(x)
    }

    /// Every set of a well-formed map of sets is well-formed.
    pub proof fn lemma_wf_sets(&self)
        requires
            self.wf_sets(),
        ensures
            forall|k: K::V| self.has(k) ==> (#[trigger] self@[k]).wf(),
    {
        assert forall|k: K::V| self.has(k) implies (#[trigger] self@[k]).wf() by {
            self.lemma_has(k);
        }
    }

    /// The keys are those of `sets()` in increasing order.
    pub proof fn lemma_sets_keys(&self)
        requires
            self.wf_sets(),
        ensures
            self.keys() == crate::ordset::sorted::<K>(self.sets().dom()),
            self.keys().len() == self.vals().len(),
            forall|k: K::V| self.has(k) <==> #[trigger] self.sets().dom().contains(k),
            forall|k: K::V| #[trigger] self.set_of(k) == set_at(self.sets(), k),
    {
        self.lemma_wf();
        assert(self.sets().dom() =~= self@.dom());
    }

    /// The set at a position is that of the key at the position.
    pub proof fn lemma_sets_at(&self, i: int)
        requires
            self.wf_sets(),
            0 <= i < self.keys().len(),
        ensures
            self.has(self.keys()[i]),
            self.sets().dom().contains(self.keys()[i]),
            self.sets()[self.keys()[i]] == self.vals()[i]@,
            self.set_of(self.keys()[i]) == self.vals()[i]@,
            self.vals()[i].wf(),
            self.vals()[i].keys() == crate::ordset::sorted::<T>(self.sets()[self.keys()[i]]),
    {
        self.lemma_wf();
        self.vals()[i].lemma_wf();
    }

    /// A map with the same keys and the same sets.
    pub fn duplicate_sets(&self) -> (r: Self)
        requires
            self.wf_sets(),
        ensures
            r.wf_sets(),
            r.sets() == self.sets(),
            r.keys() == self.keys(),
    {
        let mut vals: Vec<OrdSet<T>> = Vec::new();
        let mut i: usize = 0;
        while i < self.vals.len()
            invariant
                i <= self.vals@.len(),
                self.wf_sets(),
                vals@.len() == i,
                forall|j: int| 0 <= j < i ==> (#[trigger] vals@[j]).wf() && vals@[j]@ == self.vals@[j]@,
            decreases self.vals@.len() - i,
        {
            proof {
                assert(self.vals()[i as int].wf());
            }
            let set = self.vals[i].duplicate();
            proof {
                self.vals@[i as int].lemma_same_keys(&set);
                assert(set@ == self.vals@[i as int]@);
            }
            vals.push(set);
            i += 1;
        }
        let r = OrdMap { keys: crate::order::duplicate_items(&self.keys), vals };
        proof {
            assert(r.wf());
            r.lemma_wf();
            self.lemma_wf();
            assert forall|k: K::V| r.has(k) implies #[trigger] r.sets()[k] == self.sets()[k] by {
                r.lemma_has(k);
                self.lemma_has(k);
                let i = r.index_of(k);
                assert(self.keys()[i] == k);
                assert(self.index_of(self.keys()[i]) == i);
            }
            assert(r.sets() =~= self.sets());
        }
        r
    }

    /// Sets the set of a key, which may be new.
    pub fn put_set(&mut self, k: K, set: OrdSet<T>)
        requires
            old(self).wf_sets(),
            k.valid(),
            set.wf(),
        ensures
            final(self).wf_sets(),
            final(self).sets() == old(self).sets().insert(k.key(), set@),
    {
        let ghost kk = k.key();
        self.insert(k, set);
        proof {
            self.lemma_wf();
            old(self).lemma_wf();
            assert forall|i: int| 0 <= i < self.vals().len() implies (#[trigger] self.vals()[i]).wf() by {
                let q = self.keys()[i];
                assert(self@[q] == self.vals()[i]);
                if q != kk {
                    assert(old(self).keys().to_set().contains(q));
                    old(self).lemma_has(q);
                }
            }
            assert(self.sets() =~= old(self).sets().insert(kk, set@));
        }
    }

    /// Whether the key's set holds the item.
    pub fn has_item(&self, k: &K, x: &T) -> (r: bool)
        requires
            self.wf_sets(),
            k.valid(),
            x.valid(),
        ensures
            r == self.holds(k.key(), x.key()),
    {
        proof {
            self.lemma_wf_sets();
        }
        match self.get(k) {
            Some(s) => s.contains(x),
            None => false,
        }
    }

    /// Adds items to the set of a key, which gets an entry if it has none.
    /// Says whether the entry was there and held all the items already.
    pub fn add_all(&mut self, k: &K, items: &OrdSet<T>) -> (unchanged: bool)
        requires
            old(self).wf_sets(),
            k.valid(),
            items.wf(),
        ensures
            final(self).wf_sets(),
            final(self).keys().to_set() == old(self).keys().to_set().insert(k.key()),
            forall|q: K::V| #[trigger] final(self).set_of(q) == if q == k.key() {
                old(self).set_of(q).union(items@)
            } else {
                old(self).set_of(q)
            },
            unchanged == (old(self).has(k.key()) && items@.subset_of(old(self).set_of(k.key()))),
            unchanged ==> final(self).keys() == old(self).keys() && final(self).vals() == old(self).vals(),
            final(self).sets() == if unchanged {
                old(self).sets()
            } else {
                old(self).sets().insert(k.key(), old(self).set_of(k.key()).union(items@))
            },
            final(self).sets() == map_add(old(self).sets(), k.key(), items@),
    {
        proof {
            self.lemma_wf();
            self.lemma_wf_sets();
        }
        match self.find(k) {
            Some(i) => {
                if items.is_subset(&self.vals[i]) {
                    proof {
                        assert forall|q: K::V| #[trigger] self.set_of(q) == if q == k.key() {
                            old(self).set_of(q).union(items@)
                        } else {
                            old(self).set_of(q)
                        } by {
                            if q == k.key() {
                                assert(self.set_of(q) =~= old(self).set_of(q).union(items@));
                            }
                        }
                        assert(self.keys().to_set() =~= old(self).keys().to_set().insert(k.key()));
                        assert(self.sets() =~= old(self).sets());
                        assert(old(self).set_of(k.key()).union(items@) =~= old(self).set_of(k.key()));
                        assert(self.sets() =~= map_add(old(self).sets(), k.key(), items@));
                    }
                    return true;
                }
                let mut s = self.vals[i].duplicate();
                proof {
                    self.vals[i as int].lemma_same_keys(&s);
                    assert(s@ == self.vals()[i as int]@);
                }
                s.extend(items);
                self.set_val(i, s);
                proof {
                    self.lemma_wf();
                    assert(self.keys().to_set() =~= old(self).keys().to_set().insert(k.key()));
                    assert forall|q: K::V| #[trigger] self.set_of(q) == if q == k.key() {
                        old(self).set_of(q).union(items@)
                    } else {
                        old(self).set_of(q)
                    } by {}
                    Self::lemma_sets_insert(*old(self), *self, k.key(), items@);
                }
                false
            },
            None => {
                let s = items.duplicate();
                proof {
                    items.lemma_same_keys(&s);
                }
                self.insert(k.duplicate(), s);
                proof {
                    self.lemma_wf();
                    assert forall|i: int| 0 <= i < self.vals().len() implies (#[trigger] self.vals()[i]).wf() by {
                        let q = self.keys()[i];
                        assert(self@[q] == self.vals()[i]);
                        if q != k.key() {
                            assert(old(self).keys().to_set().contains(q));
                            old(self).lemma_has(q);
                        }
                    }
                    assert forall|q: K::V| #[trigger] self.set_of(q) == if q == k.key() {
                        old(self).set_of(q).union(items@)
                    } else {
                        old(self).set_of(q)
                    } by {
                        if q == k.key() {
                            assert(self.set_of(q) =~= old(self).set_of(q).union(items@));
                        }
                    }
                    Self::lemma_sets_insert(*old(self), *self, k.key(), items@);
                }
                false
            },
        }
    }

    /// A map whose sets are those of another but for one key, whose set has
    /// grown, is that map with the key's set put in.
    pub proof fn lemma_sets_insert(before: Self, after: Self, k: K::V, items: Set<T::V>)
        requires
            after.keys().to_set() == before.keys().to_set().insert(k),
            forall|q: K::V| #[trigger] after.set_of(q) == if q == k {
                before.set_of(q).union(items)
            } else {
                before.set_of(q)
            },
        ensures
            after.sets() == before.sets().insert(k, before.set_of(k).union(items)),
    {
        let want = before.sets().insert(k, before.set_of(k).union(items));
        assert forall|q: K::V| after.sets().dom().contains(q) implies #[trigger] after.sets()[q] == want[q] by {
            assert(after.set_of(q) == after.sets()[q]);
            if q != k {
                assert(before.has(q));
                assert(before.set_of(q) == before.sets()[q]);
            }
        }
        assert(after.sets() =~= want);
    }
}

} // verus!
