//! Interned identifiers: states, roles, commands and event types.
//!
//! Each is an immutable string with value equality and the lexicographic
//! order of its characters.
use crate::order::{all_valid, keys_of, same, seq_lt, seq_lt_connected_from, seq_lt_irreflexive_from, seq_lt_transitive_from, Key, Order};
use crate::text::joined;
use vstd::prelude::*;

verus! {

/// The interned handle of `intern_arc`; what it holds is opaque here.
#[verifier::external_type_specification]
#[verifier::external_body]
#[verifier::reject_recursive_types(T)]
pub struct ExInternedHash<T: ?Sized + Eq + std::hash::Hash>(intern_arc::InternedHash<T>);

/// The text that an interned string stands for.
pub uninterp spec fn interned_text(h: intern_arc::InternedHash<str>) -> Seq<char>;

/// `hash_interner().intern_ref(..)` of `intern_arc`: the handle that comes
/// back stands for the text handed in.
#[verifier::external_body]
fn intern(text: &str) -> (h: intern_arc::InternedHash<str>)
    ensures
        interned_text(h) == text@,
{
    intern_arc::global::hash_interner().intern_ref(text)
}

/// `Deref::deref` of an interned string: the text it stands for.
#[verifier::external_body]
fn interned_str(h: &intern_arc::InternedHash<str>) -> (s: &str)
    ensures
        s@ == interned_text(*h),
{
    std::ops::Deref::deref(h)
}

/// `Clone::clone` of an interned string: another handle for the same text.
#[verifier::external_body]
fn interned_clone(h: &intern_arc::InternedHash<str>) -> (r: intern_arc::InternedHash<str>)
    ensures
        interned_text(r) == interned_text(*h),
{
    h.clone()
}

/// `Ord` of an interned string, which is that of `str`: the texts are
/// compared lexicographically by their bytes, and so by their code points.
#[verifier::external_body]
fn interned_order(a: &intern_arc::InternedHash<str>, b: &intern_arc::InternedHash<str>) -> (o: Order)
    ensures
        (o is Less) == seq_lt::<char>(interned_text(*a), interned_text(*b)),
        (o is Equal) == (interned_text(*a) == interned_text(*b)),
        (o is Greater) == seq_lt::<char>(interned_text(*b), interned_text(*a)),
{
    match Ord::cmp(a, b) {
        std::cmp::Ordering::Less => Order::Less,
        std::cmp::Ordering::Equal => Order::Equal,
        std::cmp::Ordering::Greater => Order::Greater,
    }
}

/// The order of names: lexicographic by code point.
pub open spec fn name_lt(a: Seq<char>, b: Seq<char>) -> bool {
    seq_lt::<char>(a, b)
}

/// An identifier that is a text.
pub trait Name: Key {
    /// The text that a key stands for.
    spec fn text_of(k: Self::V) -> Seq<char>;

    fn text(&self) -> (s: &str)
        ensures
            s@ == Self::text_of(self.key()),
    ;
}

/// The texts of a sequence of keys of names.
pub open spec fn texts<T: Name>(ks: Seq<T::V>) -> Seq<Seq<char>> {
    Seq::new(ks.len(), |i: int| T::text_of(ks[i]))
}

/// Writes names in a row, with the separator between each two neighbours.
pub fn join_names<T: Name>(names: &Vec<T>, sep: &str) -> (r: String)
    requires
        all_valid(names@),
    ensures
        r@ == joined(texts::<T>(keys_of(names@)), sep@),
{
    let ghost parts = texts::<T>(keys_of(names@));
    let mut out = String::new();
    let mut i: usize = 0;
    while i < names.len()
        invariant
            i <= names.len(),
            parts == texts::<T>(keys_of(names@)),
            out@ == joined(parts.take(i as int), sep@),
        decreases names.len() - i,
    {
        let ghost before = out@;
        if i > 0 {
            out.append(sep);
        }
        out.append(names[i].text());
        proof {
            let now = parts.take(i as int + 1);
            assert(now.drop_last() =~= parts.take(i as int));
            assert(now.last() == T::text_of(names@[i as int].key()));
            if i == 0 {
                assert(before =~= Seq::<char>::empty());
                assert(out@ =~= now[0]);
            }
        }
        i += 1;
    }
    proof {
        assert(parts.take(i as int) =~= parts);
    }
    out
}

/// The name of a state of a protocol or machine.
#[derive(Debug, PartialOrd, Ord, Hash)]
pub struct State(intern_arc::InternedHash<str>);

impl State {
    pub closed spec fn view(&self) -> Seq<char> {
        interned_text(self.0)
    }

    /// The state with the given text.
    pub fn new(name: &str) -> (r: Self)
        ensures
            r@ == name@,
    {
        State(intern(name))
    }

    pub fn as_str(&self) -> (s: &str)
        ensures
            s@ == self@,
    {
        interned_str(&self.0)
    }

    pub fn to_string(&self) -> (s: String)
        ensures
            s@ == self@,
    {
        String::from_str(interned_str(&self.0))
    }
}

impl Clone for State {
    fn clone(&self) -> (r: Self)
        ensures
            r@ == self@,
    {
        State(interned_clone(&self.0))
    }
}

impl Name for State {
    open spec fn text_of(k: Seq<char>) -> Seq<char> {
        k
    }

    fn text(&self) -> (s: &str) {
        self.as_str()
    }
}

impl PartialEq for State {
    fn eq(&self, other: &Self) -> (r: bool) {
        same(self, other)
    }
}

impl Eq for State {
}

impl vstd::std_specs::cmp::PartialEqSpecImpl for State {
    open spec fn obeys_eq_spec() -> bool {
        true
    }

    open spec fn eq_spec(&self, other: &Self) -> bool {
        self@ == other@
    }
}

impl Key for State {
    type V = Seq<char>;

    open spec fn key(&self) -> Seq<char> {
        self@
    }

    open spec fn valid(&self) -> bool {
        true
    }

    open spec fn lt(a: Seq<char>, b: Seq<char>) -> bool {
        name_lt(a, b)
    }

    proof fn lt_irreflexive(a: Seq<char>) {
        seq_lt_irreflexive_from::<char>(a, 0);
    }

    proof fn lt_transitive(a: Seq<char>, b: Seq<char>, c: Seq<char>) {
        seq_lt_transitive_from::<char>(a, b, c, 0);
    }

    proof fn lt_connected(a: Seq<char>, b: Seq<char>) {
        seq_lt_connected_from::<char>(a, b, 0);
    }

    fn compare(&self, other: &Self) -> (o: Order) {
        interned_order(&self.0, &other.0)
    }

    fn duplicate(&self) -> (r: Self) {
        self.clone()
    }
}

/// The name of a role that takes part in a protocol.
#[derive(Debug, PartialOrd, Ord, Hash)]
pub struct Role(intern_arc::InternedHash<str>);

impl Role {
    pub closed spec fn view(&self) -> Seq<char> {
        interned_text(self.0)
    }

    /// The role with the given text.
    pub fn new(name: &str) -> (r: Self)
        ensures
            r@ == name@,
    {
        Role(intern(name))
    }

    pub fn as_str(&self) -> (s: &str)
        ensures
            s@ == self@,
    {
        interned_str(&self.0)
    }

    pub fn to_string(&self) -> (s: String)
        ensures
            s@ == self@,
    {
        String::from_str(interned_str(&self.0))
    }
}

impl Clone for Role {
    fn clone(&self) -> (r: Self)
        ensures
            r@ == self@,
    {
        Role(interned_clone(&self.0))
    }
}

impl Name for Role {
    open spec fn text_of(k: Seq<char>) -> Seq<char> {
        k
    }

    fn text(&self) -> (s: &str) {
        self.as_str()
    }
}

impl PartialEq for Role {
    fn eq(&self, other: &Self) -> (r: bool) {
        same(self, other)
    }
}

impl Eq for Role {
}

impl vstd::std_specs::cmp::PartialEqSpecImpl for Role {
    open spec fn obeys_eq_spec() -> bool {
        true
    }

    open spec fn eq_spec(&self, other: &Self) -> bool {
        self@ == other@
    }
}

impl Key for Role {
    type V = Seq<char>;

    open spec fn key(&self) -> Seq<char> {
        self@
    }

    open spec fn valid(&self) -> bool {
        true
    }

    open spec fn lt(a: Seq<char>, b: Seq<char>) -> bool {
        name_lt(a, b)
    }

    proof fn lt_irreflexive(a: Seq<char>) {
        seq_lt_irreflexive_from::<char>(a, 0);
    }

    proof fn lt_transitive(a: Seq<char>, b: Seq<char>, c: Seq<char>) {
        seq_lt_transitive_from::<char>(a, b, c, 0);
    }

    proof fn lt_connected(a: Seq<char>, b: Seq<char>) {
        seq_lt_connected_from::<char>(a, b, 0);
    }

    fn compare(&self, other: &Self) -> (o: Order) {
        interned_order(&self.0, &other.0)
    }

    fn duplicate(&self) -> (r: Self) {
        self.clone()
    }
}

/// The name of a command that a role may issue.
#[derive(Debug, PartialOrd, Ord, Hash)]
pub struct Command(intern_arc::InternedHash<str>);

impl Command {
    pub closed spec fn view(&self) -> Seq<char> {
        interned_text(self.0)
    }

    /// The command with the given text.
    pub fn new(name: &str) -> (r: Self)
        ensures
            r@ == name@,
    {
        Command(intern(name))
    }

    pub fn as_str(&self) -> (s: &str)
        ensures
            s@ == self@,
    {
        interned_str(&self.0)
    }

    pub fn to_string(&self) -> (s: String)
        ensures
            s@ == self@,
    {
        String::from_str(interned_str(&self.0))
    }
}

impl Clone for Command {
    fn clone(&self) -> (r: Self)
        ensures
            r@ == self@,
    {
        Command(interned_clone(&self.0))
    }
}

impl Name for Command {
    open spec fn text_of(k: Seq<char>) -> Seq<char> {
        k
    }

    fn text(&self) -> (s: &str) {
        self.as_str()
    }
}

impl PartialEq for Command {
    fn eq(&self, other: &Self) -> (r: bool) {
        same(self, other)
    }
}

impl Eq for Command {
}

impl vstd::std_specs::cmp::PartialEqSpecImpl for Command {
    open spec fn obeys_eq_spec() -> bool {
        true
    }

    open spec fn eq_spec(&self, other: &Self) -> bool {
        self@ == other@
    }
}

impl Key for Command {
    type V = Seq<char>;

    open spec fn key(&self) -> Seq<char> {
        self@
    }

    open spec fn valid(&self) -> bool {
        true
    }

    open spec fn lt(a: Seq<char>, b: Seq<char>) -> bool {
        name_lt(a, b)
    }

    proof fn lt_irreflexive(a: Seq<char>) {
        seq_lt_irreflexive_from::<char>(a, 0);
    }

    proof fn lt_transitive(a: Seq<char>, b: Seq<char>, c: Seq<char>) {
        seq_lt_transitive_from::<char>(a, b, c, 0);
    }

    proof fn lt_connected(a: Seq<char>, b: Seq<char>) {
        seq_lt_connected_from::<char>(a, b, 0);
    }

    fn compare(&self, other: &Self) -> (o: Order) {
        interned_order(&self.0, &other.0)
    }

    fn duplicate(&self) -> (r: Self) {
        self.clone()
    }
}

/// The name of a type of event.
#[derive(Debug, PartialOrd, Ord, Hash)]
pub struct EventType(intern_arc::InternedHash<str>);

impl EventType {
    pub closed spec fn view(&self) -> Seq<char> {
        interned_text(self.0)
    }

    /// The event type with the given text.
    pub fn new(name: &str) -> (r: Self)
        ensures
            r@ == name@,
    {
        EventType(intern(name))
    }

    pub fn as_str(&self) -> (s: &str)
        ensures
            s@ == self@,
    {
        interned_str(&self.0)
    }

    pub fn to_string(&self) -> (s: String)
        ensures
            s@ == self@,
    {
        String::from_str(interned_str(&self.0))
    }
}

impl Clone for EventType {
    fn clone(&self) -> (r: Self)
        ensures
            r@ == self@,
    {
        EventType(interned_clone(&self.0))
    }
}

impl Name for EventType {
    open spec fn text_of(k: Seq<char>) -> Seq<char> {
        k
    }

    fn text(&self) -> (s: &str) {
        self.as_str()
    }
}

impl PartialEq for EventType {
    fn eq(&self, other: &Self) -> (r: bool) {
        same(self, other)
    }
}

impl Eq for EventType {
}

impl vstd::std_specs::cmp::PartialEqSpecImpl for EventType {
    open spec fn obeys_eq_spec() -> bool {
        true
    }

    open spec fn eq_spec(&self, other: &Self) -> bool {
        self@ == other@
    }
}

impl Key for EventType {
    type V = Seq<char>;

    open spec fn key(&self) -> Seq<char> {
        self@
    }

    open spec fn valid(&self) -> bool {
        true
    }

    open spec fn lt(a: Seq<char>, b: Seq<char>) -> bool {
        name_lt(a, b)
    }

    proof fn lt_irreflexive(a: Seq<char>) {
        seq_lt_irreflexive_from::<char>(a, 0);
    }

    proof fn lt_transitive(a: Seq<char>, b: Seq<char>, c: Seq<char>) {
        seq_lt_transitive_from::<char>(a, b, c, 0);
    }

    proof fn lt_connected(a: Seq<char>, b: Seq<char>) {
        seq_lt_connected_from::<char>(a, b, 0);
    }

    fn compare(&self, other: &Self) -> (o: Order) {
        interned_order(&self.0, &other.0)
    }

    fn duplicate(&self) -> (r: Self) {
        self.clone()
    }
}

} // verus!
