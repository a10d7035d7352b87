//! Total orders: the trait by which sorted collections compare their items,
//! and the lexicographic orders on tuples and sequences.
use vstd::prelude::*;

verus! {

/// The outcome of a three-way comparison.
#[derive(Clone, Copy, Debug)]
pub enum Order {
    Less,
    Equal,
    Greater,
}

/// A type whose values are identified and strictly ordered by a mathematical
/// value, its key. Two values with the same key are interchangeable.
pub trait Key: Sized {
    /// The mathematical value that identifies an item.
    type V;

    spec fn key(&self) -> Self::V;

    /// The item's own invariant.
    spec fn valid(&self) -> bool;

    /// The strict order on keys.
    spec fn lt(a: Self::V, b: Self::V) -> bool;

    proof fn lt_irreflexive(a: Self::V)
        ensures
            !Self::lt(a, a),
    ;

    proof fn lt_transitive(a: Self::V, b: Self::V, c: Self::V)
        requires
            Self::lt(a, b),
            Self::lt(b, c),
        ensures
            Self::lt(a, c),
    ;

    proof fn lt_connected(a: Self::V, b: Self::V)
        ensures
            Self::lt(a, b) || a == b || Self::lt(b, a),
    ;

    fn compare(&self, other: &Self) -> (o: Order)
        requires
            self.valid(),
            other.valid(),
        ensures
            (o is Less) == Self::lt(self.key(), other.key()),
            (o is Equal) == (self.key() == other.key()),
            (o is Greater) == Self::lt(other.key(), self.key()),
    ;

    fn duplicate(&self) -> (r: Self)
        requires
            self.valid(),
        ensures
            r.valid(),
            r.key() == self.key(),
    ;
}

/// No key is both below and above another.
pub proof fn lt_asymmetric<K: Key>(a: K::V, b: K::V)
    requires
        K::lt(a, b),
    ensures
        !K::lt(b, a),
        a != b,
{
    if K::lt(b, a) {
        K::lt_transitive(a, b, a);
    }
    K::lt_irreflexive(a);
}

/// Whether two items have the same key.
pub fn same<K: Key>(a: &K, b: &K) -> (r: bool)
    requires
        a.valid(),
        b.valid(),
    ensures
        r == (a.key() == b.key()),
{
    match a.compare(b) {
        Order::Equal => true,
        _ => false,
    }
}

impl Key for usize {
    type V = usize;

    open spec fn key(&self) -> usize {
        *self
    }

    open spec fn valid(&self) -> bool {
        true
    }

    open spec fn lt(a: usize, b: usize) -> bool {
        a < b
    }

    proof fn lt_irreflexive(a: usize) {
    }

    proof fn lt_transitive(a: usize, b: usize, c: usize) {
    }

    proof fn lt_connected(a: usize, b: usize) {
    }

    fn compare(&self, other: &Self) -> (o: Order) {
        if *self < *other {
            Order::Less
        } else if *self == *other {
            Order::Equal
        } else {
            Order::Greater
        }
    }

    fn duplicate(&self) -> (r: Self) {
        *self
    }
}

impl Key for char {
    type V = char;

    open spec fn key(&self) -> char {
        *self
    }

    open spec fn valid(&self) -> bool {
        true
    }

    open spec fn lt(a: char, b: char) -> bool {
        (a as u32) < (b as u32)
    }

    proof fn lt_irreflexive(a: char) {
    }

    proof fn lt_transitive(a: char, b: char, c: char) {
    }

    proof fn lt_connected(a: char, b: char) {
        if (a as u32) == (b as u32) {
            vstd::utf8::char_u32_cast(a, a as u32);
            vstd::utf8::char_u32_cast(b, a as u32);
        }
    }

    fn compare(&self, other: &Self) -> (o: Order) {
        let a: u32 = *self as u32;
        let b: u32 = *other as u32;
        proof {
            Self::lt_connected(*self, *other);
        }
        if a < b {
            Order::Less
        } else if a == b {
            Order::Equal
        } else {
            Order::Greater
        }
    }

    fn duplicate(&self) -> (r: Self) {
        *self
    }
}

impl<A: Key, B: Key> Key for (A, B) {
    type V = (A::V, B::V);

    open spec fn key(&self) -> (A::V, B::V) {
        (self.0.key(), self.1.key())
    }

    open spec fn valid(&self) -> bool {
        self.0.valid() && self.1.valid()
    }

    open spec fn lt(a: (A::V, B::V), b: (A::V, B::V)) -> bool {
        A::lt(a.0, b.0) || (a.0 == b.0 && B::lt(a.1, b.1))
    }

    proof fn lt_irreflexive(a: (A::V, B::V)) {
        A::lt_irreflexive(a.0);
        B::lt_irreflexive(a.1);
    }

    proof fn lt_transitive(a: (A::V, B::V), b: (A::V, B::V), c: (A::V, B::V)) {
        if A::lt(a.0, b.0) && A::lt(b.0, c.0) {
            A::lt_transitive(a.0, b.0, c.0);
        }
        A::lt_irreflexive(a.0);
        if a.0 == b.0 && b.0 == c.0 {
            B::lt_transitive(a.1, b.1, c.1);
        }
    }

    proof fn lt_connected(a: (A::V, B::V), b: (A::V, B::V)) {
        A::lt_connected(a.0, b.0);
        B::lt_connected(a.1, b.1);
    }

    fn compare(&self, other: &Self) -> (o: Order) {
        proof {
            A::lt_irreflexive(self.0.key());
            B::lt_irreflexive(self.1.key());
        }
        match self.0.compare(&other.0) {
            Order::Less => {
                proof {
                    lt_asymmetric::<A>(self.0.key(), other.0.key());
                }
                Order::Less
            },
            Order::Greater => {
                proof {
                    lt_asymmetric::<A>(other.0.key(), self.0.key());
                }
                Order::Greater
            },
            Order::Equal => {
                let o = self.1.compare(&other.1);
                proof {
                    if B::lt(self.1.key(), other.1.key()) {
                        lt_asymmetric::<B>(self.1.key(), other.1.key());
                    }
                    if B::lt(other.1.key(), self.1.key()) {
                        lt_asymmetric::<B>(other.1.key(), self.1.key());
                    }
                }
                o
            },
        }
    }

    fn duplicate(&self) -> (r: Self) {
        (self.0.duplicate(), self.1.duplicate())
    }
}

/// The lexicographic order on triples.
pub open spec fn lt3<A: Key, B: Key, C: Key>(x: (A::V, B::V, C::V), y: (A::V, B::V, C::V)) -> bool {
    A::lt(x.0, y.0) || (x.0 == y.0 && (B::lt(x.1, y.1) || (x.1 == y.1 && C::lt(x.2, y.2))))
}

pub proof fn lt3_irreflexive<A: Key, B: Key, C: Key>(x: (A::V, B::V, C::V))
    ensures
        !lt3::<A, B, C>(x, x),
{
    A::lt_irreflexive(x.0);
    B::lt_irreflexive(x.1);
    C::lt_irreflexive(x.2);
}

pub proof fn lt3_transitive<A: Key, B: Key, C: Key>(x: (A::V, B::V, C::V), y: (A::V, B::V, C::V), z: (A::V, B::V, C::V))
    requires
        lt3::<A, B, C>(x, y),
        lt3::<A, B, C>(y, z),
    ensures
        lt3::<A, B, C>(x, z),
{
    A::lt_irreflexive(x.0);
    B::lt_irreflexive(x.1);
    if A::lt(x.0, y.0) && A::lt(y.0, z.0) {
        A::lt_transitive(x.0, y.0, z.0);
    }
    if x.0 == y.0 && y.0 == z.0 {
        if B::lt(x.1, y.1) && B::lt(y.1, z.1) {
            B::lt_transitive(x.1, y.1, z.1);
        }
        if x.1 == y.1 && y.1 == z.1 {
            C::lt_transitive(x.2, y.2, z.2);
        }
    }
}

pub proof fn lt3_connected<A: Key, B: Key, C: Key>(x: (A::V, B::V, C::V), y: (A::V, B::V, C::V))
    ensures
        lt3::<A, B, C>(x, y) || x == y || lt3::<A, B, C>(y, x),
{
    A::lt_connected(x.0, y.0);
    B::lt_connected(x.1, y.1);
    C::lt_connected(x.2, y.2);
}

/// Compares two triples, given by their parts, lexicographically.
pub fn compare3<A: Key, B: Key, C: Key>(a1: &A, b1: &B, c1: &C, a2: &A, b2: &B, c2: &C) -> (o: Order)
    requires
        a1.valid(),
        b1.valid(),
        c1.valid(),
        a2.valid(),
        b2.valid(),
        c2.valid(),
    ensures
        (o is Less) == lt3::<A, B, C>((a1.key(), b1.key(), c1.key()), (a2.key(), b2.key(), c2.key())),
        (o is Equal) == ((a1.key(), b1.key(), c1.key()) == (a2.key(), b2.key(), c2.key())),
        (o is Greater) == lt3::<A, B, C>((a2.key(), b2.key(), c2.key()), (a1.key(), b1.key(), c1.key())),
{
    proof {
        A::lt_irreflexive(a1.key());
        B::lt_irreflexive(b1.key());
        C::lt_irreflexive(c1.key());
        if A::lt(a1.key(), a2.key()) {
            lt_asymmetric::<A>(a1.key(), a2.key());
        }
        if A::lt(a2.key(), a1.key()) {
            lt_asymmetric::<A>(a2.key(), a1.key());
        }
        if B::lt(b1.key(), b2.key()) {
            lt_asymmetric::<B>(b1.key(), b2.key());
        }
        if B::lt(b2.key(), b1.key()) {
            lt_asymmetric::<B>(b2.key(), b1.key());
        }
        if C::lt(c1.key(), c2.key()) {
            lt_asymmetric::<C>(c1.key(), c2.key());
        }
        if C::lt(c2.key(), c1.key()) {
            lt_asymmetric::<C>(c2.key(), c1.key());
        }
    }
    match a1.compare(a2) {
        Order::Less => Order::Less,
        Order::Greater => Order::Greater,
        Order::Equal => match b1.compare(b2) {
            Order::Less => Order::Less,
            Order::Greater => Order::Greater,
            Order::Equal => c1.compare(c2),
        },
    }
}

impl<A: Key, B: Key, C: Key> Key for (A, B, C) {
    type V = (A::V, B::V, C::V);

    open spec fn key(&self) -> (A::V, B::V, C::V) {
        (self.0.key(), self.1.key(), self.2.key())
    }

    open spec fn valid(&self) -> bool {
        self.0.valid() && self.1.valid() && self.2.valid()
    }

    open spec fn lt(a: (A::V, B::V, C::V), b: (A::V, B::V, C::V)) -> bool {
        lt3::<A, B, C>(a, b)
    }

    proof fn lt_irreflexive(a: (A::V, B::V, C::V)) {
        lt3_irreflexive::<A, B, C>(a);
    }

    proof fn lt_transitive(a: (A::V, B::V, C::V), b: (A::V, B::V, C::V), c: (A::V, B::V, C::V)) {
        lt3_transitive::<A, B, C>(a, b, c);
    }

    proof fn lt_connected(a: (A::V, B::V, C::V), b: (A::V, B::V, C::V)) {
        lt3_connected::<A, B, C>(a, b);
    }

    fn compare(&self, other: &Self) -> (o: Order) {
        compare3(&self.0, &self.1, &self.2, &other.0, &other.1, &other.2)
    }

    fn duplicate(&self) -> (r: Self) {
        (self.0.duplicate(), self.1.duplicate(), self.2.duplicate())
    }
}

impl<K: Key> Key for Option<K> {
    type V = Option<K::V>;

    open spec fn key(&self) -> Option<K::V> {
        match self {
            Some(k) => Some(k.key()),
            None => None,
        }
    }

    open spec fn valid(&self) -> bool {
        match self {
            Some(k) => k.valid(),
            None => true,
        }
    }

    open spec fn lt(a: Option<K::V>, b: Option<K::V>) -> bool {
        match (a, b) {
            (None, Some(_)) => true,
            (Some(x), Some(y)) => K::lt(x, y),
            _ => false,
        }
    }

    proof fn lt_irreflexive(a: Option<K::V>) {
        if let Some(x) = a {
            K::lt_irreflexive(x);
        }
    }

    proof fn lt_transitive(a: Option<K::V>, b: Option<K::V>, c: Option<K::V>) {
        if let (Some(x), Some(y), Some(z)) = (a, b, c) {
            K::lt_transitive(x, y, z);
        }
    }

    proof fn lt_connected(a: Option<K::V>, b: Option<K::V>) {
        if let (Some(x), Some(y)) = (a, b) {
            K::lt_connected(x, y);
        }
    }

    fn compare(&self, other: &Self) -> (o: Order) {
        match (self, other) {
            (None, None) => Order::Equal,
            (None, Some(_)) => Order::Less,
            (Some(_), None) => Order::Greater,
            (Some(x), Some(y)) => x.compare(y),
        }
    }

    fn duplicate(&self) -> (r: Self) {
        match self {
            Some(k) => Some(k.duplicate()),
            None => None,
        }
    }
}

/// The lexicographic order on sequences, read from position `i` on.
pub open spec fn seq_lt_from<K: Key>(a: Seq<K::V>, b: Seq<K::V>, i: int) -> bool
    decreases a.len() - i,
{
    if i < 0 || i >= b.len() {
        false
    } else if i >= a.len() {
        true
    } else if K::lt(a[i], b[i]) {
        true
    } else if a[i] == b[i] {
        seq_lt_from::<K>(a, b, i + 1)
    } else {
        false
    }
}

/// The lexicographic order on sequences: a proper prefix comes first, and
/// otherwise the first position that differs decides.
pub open spec fn seq_lt<K: Key>(a: Seq<K::V>, b: Seq<K::V>) -> bool {
    seq_lt_from::<K>(a, b, 0)
}

pub proof fn seq_lt_irreflexive_from<K: Key>(a: Seq<K::V>, i: int)
    requires
        0 <= i,
    ensures
        !seq_lt_from::<K>(a, a, i),
    decreases a.len() - i,
{
    if i < a.len() {
        K::lt_irreflexive(a[i]);
        seq_lt_irreflexive_from::<K>(a, i + 1);
    }
}

pub proof fn seq_lt_transitive_from<K: Key>(a: Seq<K::V>, b: Seq<K::V>, c: Seq<K::V>, i: int)
    requires
        0 <= i,
        seq_lt_from::<K>(a, b, i),
        seq_lt_from::<K>(b, c, i),
    ensures
        seq_lt_from::<K>(a, c, i),
    decreases a.len() - i,
{
    if i < a.len() {
        if K::lt(a[i], b[i]) {
            if K::lt(b[i], c[i]) {
                K::lt_transitive(a[i], b[i], c[i]);
            }
        } else {
            if K::lt(b[i], c[i]) {
            } else {
                seq_lt_transitive_from::<K>(a, b, c, i + 1);
            }
        }
    }
}

pub proof fn seq_lt_connected_from<K: Key>(a: Seq<K::V>, b: Seq<K::V>, i: int)
    requires
        0 <= i <= a.len(),
        i <= b.len(),
        forall|j: int| 0 <= j < i ==> a[j] == b[j],
    ensures
        seq_lt_from::<K>(a, b, i) || a == b || seq_lt_from::<K>(b, a, i),
    decreases a.len() - i,
{
    if i < a.len() && i < b.len() {
        K::lt_connected(a[i], b[i]);
        if a[i] == b[i] {
            seq_lt_connected_from::<K>(a, b, i + 1);
        }
    } else if i == a.len() && i == b.len() {
        assert(a =~= b);
    }
}

/// Two sequences that agree before `i` compare as their rests from `i` do.
pub proof fn seq_lt_skip_prefix<K: Key>(a: Seq<K::V>, b: Seq<K::V>, i: int)
    requires
        0 <= i <= a.len(),
        i <= b.len(),
        forall|j: int| 0 <= j < i ==> a[j] == b[j],
    ensures
        seq_lt::<K>(a, b) == seq_lt_from::<K>(a, b, i),
    decreases i,
{
    if i > 0 {
        seq_lt_skip_prefix::<K>(a, b, i - 1);
        K::lt_irreflexive(a[i - 1]);
    }
}

/// The keys of a sequence of items.
pub open spec fn keys_of<K: Key>(s: Seq<K>) -> Seq<K::V> {
    Seq::new(s.len(), |i: int| s[i].key())
}

/// Whether every item of a sequence is valid.
pub open spec fn all_valid<K: Key>(s: Seq<K>) -> bool {
    forall|i: int| 0 <= i < s.len() ==> (#[trigger] s[i]).valid()
}

impl<K: Key> Key for Vec<K> {
    type V = Seq<K::V>;

    open spec fn key(&self) -> Seq<K::V> {
        keys_of(self@)
    }

    open spec fn valid(&self) -> bool {
        all_valid(self@)
    }

    open spec fn lt(a: Seq<K::V>, b: Seq<K::V>) -> bool {
        seq_lt::<K>(a, b)
    }

    proof fn lt_irreflexive(a: Seq<K::V>) {
        seq_lt_irreflexive_from::<K>(a, 0);
    }

    proof fn lt_transitive(a: Seq<K::V>, b: Seq<K::V>, c: Seq<K::V>) {
        seq_lt_transitive_from::<K>(a, b, c, 0);
    }

    proof fn lt_connected(a: Seq<K::V>, b: Seq<K::V>) {
        seq_lt_connected_from::<K>(a, b, 0);
    }

    fn compare(&self, other: &Self) -> (o: Order) {
        let o = compare_slices(self, other);
        o
    }

    fn duplicate(&self) -> (r: Self) {
        duplicate_items(self)
    }
}

/// Compares two vectors of items lexicographically.
pub fn compare_slices<K: Key>(a: &Vec<K>, b: &Vec<K>) -> (o: Order)
    requires
        all_valid(a@),
        all_valid(b@),
    ensures
        (o is Less) == seq_lt::<K>(keys_of(a@), keys_of(b@)),
        (o is Equal) == (keys_of(a@) == keys_of(b@)),
        (o is Greater) == seq_lt::<K>(keys_of(b@), keys_of(a@)),
{
    let ghost ka = keys_of(a@);
    let ghost kb = keys_of(b@);
    let mut i: usize = 0;
    while i < a.len() && i < b.len()
        invariant
            i <= a.len(),
            i <= b.len(),
            ka == keys_of(a@),
            kb == keys_of(b@),
            all_valid(a@),
            all_valid(b@),
            forall|j: int| 0 <= j < i ==> ka[j] == kb[j],
        decreases a.len() - i,
    {
        let o = a[i].compare(&b[i]);
        match o {
            Order::Equal => {},
            _ => {
                proof {
                    seq_lt_skip_prefix::<K>(ka, kb, i as int);
                    seq_lt_skip_prefix::<K>(kb, ka, i as int);
                    if K::lt(ka[i as int], kb[i as int]) {
                        lt_asymmetric::<K>(ka[i as int], kb[i as int]);
                    } else {
                        lt_asymmetric::<K>(kb[i as int], ka[i as int]);
                    }
                }
                return o;
            },
        }
        i += 1;
    }
    proof {
        seq_lt_skip_prefix::<K>(ka, kb, i as int);
        seq_lt_skip_prefix::<K>(kb, ka, i as int);
        if a.len() == b.len() {
            assert(ka =~= kb);
        }
    }
    if a.len() < b.len() {
        Order::Less
    } else if a.len() == b.len() {
        Order::Equal
    } else {
        Order::Greater
    }
}

/// A vector with a duplicate of each item, in the same order.
pub fn duplicate_items<K: Key>(v: &Vec<K>) -> (r: Vec<K>)
    requires
        all_valid(v@),
    ensures
        all_valid(r@),
        keys_of(r@) == keys_of(v@),
        r@.len() == v@.len(),
{
    let mut r: Vec<K> = Vec::new();
    let mut i: usize = 0;
    while i < v.len()
        invariant
            i <= v.len(),
            r.len() == i,
            all_valid(v@),
            all_valid(r@),
            forall|j: int| 0 <= j < i ==> r@[j].key() == v@[j].key(),
        decreases v.len() - i,
    {
        let item = v[i].duplicate();
        r.push(item);
        i += 1;
    }
    assert(keys_of(r@) =~= keys_of(v@));
    r
}

} // verus!
