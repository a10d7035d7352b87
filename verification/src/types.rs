//! The labels of protocols and machines, and the shapes in which protocols,
//! machines and results are exchanged.
use crate::names::{join_names, name_lt, texts, Command, EventType, Role, State};
use crate::order::{compare3, compare_slices, duplicate_items, keys_of, lt3, lt3_connected, lt3_irreflexive, lt3_transitive, lt_asymmetric, same, seq_lt, Key, Order};
use crate::text::joined;
use vstd::prelude::*;

verus! {

/// The outcome of a check.
#[derive(Debug)]
pub enum CheckResult {
    OK,
    ERROR { errors: Vec<String> },
}

/// The outcome of a computation that yields a value.
#[derive(Debug)]
pub enum DataResult<T> {
    OK { data: T },
    ERROR { errors: Vec<String> },
}

/// A transition between two named states.
#[derive(Debug, Clone, PartialEq, Eq)]
pub struct Transition<L> {
    pub label: L,
    pub source: State,
    pub target: State,
}

/// A protocol or machine as a list of transitions and an initial state.
#[derive(Debug, Clone, PartialEq, Eq)]
pub struct ProtocolType<L> {
    pub initial: State,
    pub transitions: Vec<Transition<L>>,
}

/// The texts of a list of event types.
pub open spec fn log_texts(log: Seq<EventType>) -> Seq<Seq<char>> {
    keys_of(log)
}

/// Writes the event types of a log in a row, with commas between them.
pub fn print_log(log: &Vec<EventType>) -> (r: String)
    ensures
        r@ == joined(log_texts(log@), ","@),
{
    let r = join_names(log, ",");
    assert(texts::<EventType>(keys_of(log@)) =~= log_texts(log@));
    r
}

/// The label of a transition of a swarm protocol: the command, the event
/// types it emits and the role that issues it.
#[derive(Debug, PartialOrd, Ord, Hash)]
pub struct SwarmLabel {
    pub cmd: Command,
    pub log_type: Vec<EventType>,
    pub role: Role,
}

impl SwarmLabel {
    pub open spec fn view(&self) -> (Seq<char>, Seq<Seq<char>>, Seq<char>) {
        (self.cmd@, log_texts(self.log_type@), self.role@)
    }

    /// The text `cmd@role<log>`.
    pub open spec fn text(l: (Seq<char>, Seq<Seq<char>>, Seq<char>)) -> Seq<char> {
        l.0 + "@"@ + l.2 + "<"@ + joined(l.1, ","@) + ">"@
    }

    pub fn to_string(&self) -> (r: String)
        ensures
            r@ == Self::text(self@),
    {
        let mut out = self.cmd.to_string();
        out.append("@");
        out.append(self.role.as_str());
        out.append("<");
        let log = print_log(&self.log_type);
        out.append(log.as_str());
        out.append(">");
        out
    }
}

impl Key for SwarmLabel {
    type V = (Seq<char>, Seq<Seq<char>>, Seq<char>);

    open spec fn key(&self) -> Self::V {
        self@
    }

    open spec fn valid(&self) -> bool {
        true
    }

    open spec fn lt(a: Self::V, b: Self::V) -> bool {
        lt3::<Command, Vec<EventType>, Role>(a, b)
    }

    proof fn lt_irreflexive(a: Self::V) {
        lt3_irreflexive::<Command, Vec<EventType>, Role>(a);
    }

    proof fn lt_transitive(a: Self::V, b: Self::V, c: Self::V) {
        lt3_transitive::<Command, Vec<EventType>, Role>(a, b, c);
    }

    proof fn lt_connected(a: Self::V, b: Self::V) {
        lt3_connected::<Command, Vec<EventType>, Role>(a, b);
    }

    fn compare(&self, other: &Self) -> (o: Order) {
        compare3(&self.cmd, &self.log_type, &self.role, &other.cmd, &other.log_type, &other.role)
    }

    fn duplicate(&self) -> (r: Self) {
        SwarmLabel { cmd: self.cmd.duplicate(), log_type: duplicate_items(&self.log_type), role: self.role.duplicate() }
    }
}

impl Clone for SwarmLabel {
    fn clone(&self) -> (r: Self)
        ensures
            r@ == self@,
    {
        self.duplicate()
    }
}

impl PartialEq for SwarmLabel {
    fn eq(&self, other: &Self) -> (r: bool) {
        same(self, other)
    }
}

impl Eq for SwarmLabel {
}

impl vstd::std_specs::cmp::PartialEqSpecImpl for SwarmLabel {
    open spec fn obeys_eq_spec() -> bool {
        true
    }

    open spec fn eq_spec(&self, other: &Self) -> bool {
        self@ == other@
    }
}

/// The label of a transition of a machine.
#[derive(Debug, PartialOrd, Ord, Hash)]
pub enum MachineLabel {
    /// The role may issue the command in this state.
    Execute { cmd: Command, log_type: Vec<EventType> },
    /// The role observes an event of this type and moves on.
    Input { event_type: EventType },
}

/// What a machine label stands for.
pub enum MachineLabelView {
    Execute { cmd: Seq<char>, log_type: Seq<Seq<char>> },
    Input { event_type: Seq<char> },
}

impl MachineLabel {
    pub open spec fn view(&self) -> MachineLabelView {
        match self {
            MachineLabel::Execute { cmd, log_type } => MachineLabelView::Execute { cmd: cmd@, log_type: log_texts(log_type@) },
            MachineLabel::Input { event_type } => MachineLabelView::Input { event_type: event_type@ },
        }
    }

    /// The text `cmd/log` of an `Execute` label, `event?` of an `Input` label.
    pub open spec fn text(l: MachineLabelView) -> Seq<char> {
        match l {
            MachineLabelView::Execute { cmd, log_type } => cmd + "/"@ + joined(log_type, ","@),
            MachineLabelView::Input { event_type } => event_type + "?"@,
        }
    }

    pub fn to_string(&self) -> (r: String)
        ensures
            r@ == Self::text(self@),
    {
        match self {
            MachineLabel::Execute { cmd, log_type } => {
                let mut out = cmd.to_string();
                out.append("/");
                let log = print_log(log_type);
                out.append(log.as_str());
                out
            },
            MachineLabel::Input { event_type } => {
                let mut out = event_type.to_string();
                out.append("?");
                out
            },
        }
    }
}

impl Key for MachineLabel {
    type V = MachineLabelView;

    open spec fn key(&self) -> Self::V {
        self@
    }

    open spec fn valid(&self) -> bool {
        true
    }

    /// `Execute` labels come before `Input` labels; among themselves they go
    /// by command and then log, `Input` labels by event type.
    open spec fn lt(a: Self::V, b: Self::V) -> bool {
        match (a, b) {
            (MachineLabelView::Execute { cmd: c1, log_type: l1 }, MachineLabelView::Execute { cmd: c2, log_type: l2 }) => name_lt(c1, c2) || (c1 == c2 && seq_lt::<EventType>(l1, l2)),
            (MachineLabelView::Execute { .. }, MachineLabelView::Input { .. }) => true,
            (MachineLabelView::Input { event_type: e1 }, MachineLabelView::Input { event_type: e2 }) => name_lt(e1, e2),
            _ => false,
        }
    }

    proof fn lt_irreflexive(a: Self::V) {
        match a {
            MachineLabelView::Execute { cmd, log_type } => {
                <(Command, Vec<EventType>) as Key>::lt_irreflexive((cmd, log_type));
            },
            MachineLabelView::Input { event_type } => {
                EventType::lt_irreflexive(event_type);
            },
        }
    }

    proof fn lt_transitive(a: Self::V, b: Self::V, c: Self::V) {
        match (a, b, c) {
            (MachineLabelView::Execute { cmd: c1, log_type: l1 }, MachineLabelView::Execute { cmd: c2, log_type: l2 }, MachineLabelView::Execute { cmd: c3, log_type: l3 }) => {
                <(Command, Vec<EventType>) as Key>::lt_transitive((c1, l1), (c2, l2), (c3, l3));
            },
            (MachineLabelView::Input { event_type: e1 }, MachineLabelView::Input { event_type: e2 }, MachineLabelView::Input { event_type: e3 }) => {
                EventType::lt_transitive(e1, e2, e3);
            },
            _ => {},
        }
    }

    proof fn lt_connected(a: Self::V, b: Self::V) {
        match (a, b) {
            (MachineLabelView::Execute { cmd: c1, log_type: l1 }, MachineLabelView::Execute { cmd: c2, log_type: l2 }) => {
                <(Command, Vec<EventType>) as Key>::lt_connected((c1, l1), (c2, l2));
            },
            (MachineLabelView::Input { event_type: e1 }, MachineLabelView::Input { event_type: e2 }) => {
                EventType::lt_connected(e1, e2);
            },
            _ => {},
        }
    }

    fn compare(&self, other: &Self) -> (o: Order) {
        match (self, other) {
            (MachineLabel::Execute { cmd: c1, log_type: l1 }, MachineLabel::Execute { cmd: c2, log_type: l2 }) => {
                proof {
                    Command::lt_irreflexive(c1@);
                    if name_lt(c1@, c2@) {
                        lt_asymmetric::<Command>(c1@, c2@);
                    }
                    if name_lt(c2@, c1@) {
                        lt_asymmetric::<Command>(c2@, c1@);
                    }
                    if seq_lt::<EventType>(log_texts(l1@), log_texts(l2@)) {
                        lt_asymmetric::<Vec<EventType>>(log_texts(l1@), log_texts(l2@));
                    }
                    if seq_lt::<EventType>(log_texts(l2@), log_texts(l1@)) {
                        lt_asymmetric::<Vec<EventType>>(log_texts(l2@), log_texts(l1@));
                    }
                }
                match c1.compare(c2) {
                    Order::Less => Order::Less,
                    Order::Greater => Order::Greater,
                    Order::Equal => compare_slices(l1, l2),
                }
            },
            (MachineLabel::Execute { .. }, MachineLabel::Input { .. }) => Order::Less,
            (MachineLabel::Input { .. }, MachineLabel::Execute { .. }) => Order::Greater,
            (MachineLabel::Input { event_type: e1 }, MachineLabel::Input { event_type: e2 }) => e1.compare(e2),
        }
    }

    fn duplicate(&self) -> (r: Self) {
        match self {
            MachineLabel::Execute { cmd, log_type } => MachineLabel::Execute { cmd: cmd.duplicate(), log_type: duplicate_items(log_type) },
            MachineLabel::Input { event_type } => MachineLabel::Input { event_type: event_type.duplicate() },
        }
    }
}

impl Clone for MachineLabel {
    fn clone(&self) -> (r: Self)
        ensures
            r@ == self@,
    {
        self.duplicate()
    }
}

impl PartialEq for MachineLabel {
    fn eq(&self, other: &Self) -> (r: bool) {
        same(self, other)
    }
}

impl Eq for MachineLabel {
}

impl vstd::std_specs::cmp::PartialEqSpecImpl for MachineLabel {
    open spec fn obeys_eq_spec() -> bool {
        true
    }

    open spec fn eq_spec(&self, other: &Self) -> bool {
        self@ == other@
    }
}

/// A node weight that carries the name of a state.
pub trait StateName: Key {
    /// The name of the state that a weight stands for.
    spec fn name_of(k: Self::V) -> Seq<char>;

    fn state_name(&self) -> (s: &State)
        requires
            self.valid(),
        ensures
            s@ == Self::name_of(self.key()),
    ;
}

impl StateName for State {
    open spec fn name_of(k: Seq<char>) -> Seq<char> {
        k
    }

    fn state_name(&self) -> (s: &State) {
        self
    }
}

/// A node weight from which the name of a state can be made.
pub trait Named: Key {
    /// The name of the state that a weight stands for.
    spec fn named(k: Self::V) -> Seq<char>;

    fn name(&self) -> (s: State)
        requires
            self.valid(),
        ensures
            s@ == Self::named(self.key()),
    ;
}

impl Named for State {
    open spec fn named(k: Seq<char>) -> Seq<char> {
        k
    }

    fn name(&self) -> (s: State) {
        self.duplicate()
    }
}

impl Named for Option<State> {
    /// The name of a state without a name is empty.
    open spec fn named(k: Option<Seq<char>>) -> Seq<char> {
        match k {
            Some(name) => name,
            None => Seq::empty(),
        }
    }

    fn name(&self) -> (s: State) {
        match self {
            Some(state) => state.duplicate(),
            None => {
                proof {
                    reveal_strlit("");
                }
                State::new("")
            },
        }
    }
}

/// A node weight that can be made from the name of a state.
pub trait FromName: StateName {
    fn from_name(name: String) -> (r: Self)
        ensures
            r.valid(),
            Self::name_of(r.key()) == name@,
    ;
}

impl FromName for State {
    fn from_name(name: String) -> (r: Self) {
        State::new(name.as_str())
    }
}

impl<L: Key> Transition<L> {
    /// The label's key with the names of the source and the target.
    pub open spec fn view(&self) -> (L::V, Seq<char>, Seq<char>) {
        (self.label.key(), self.source@, self.target@)
    }
}

/// The transitions of a list as mathematical values.
pub open spec fn transitions_view<L: Key>(ts: Seq<Transition<L>>) -> Seq<(L::V, Seq<char>, Seq<char>)> {
    Seq::new(ts.len(), |i: int| ts[i]@)
}

impl<L: Key> ProtocolType<L> {
    /// The name of the initial state and the transitions.
    pub open spec fn view(&self) -> (Seq<char>, Seq<(L::V, Seq<char>, Seq<char>)>) {
        (self.initial@, transitions_view(self.transitions@))
    }

    /// Every label is valid.
    pub open spec fn wf(&self) -> bool {
        forall|i: int| 0 <= i < self.transitions@.len() ==> (#[trigger] self.transitions@[i]).label.valid()
    }

    /// Whether two protocols have the same initial state and the same
    /// transitions in the same order.
    pub fn equals(&self, other: &Self) -> (r: bool)
        requires
            self.wf(),
            other.wf(),
        ensures
            r == (self@ == other@),
    {
        if !same(&self.initial, &other.initial) {
            return false;
        }
        if self.transitions.len() != other.transitions.len() {
            assert(transitions_view(self.transitions@).len() != transitions_view(other.transitions@).len());
            return false;
        }
        let mut i: usize = 0;
        while i < self.transitions.len()
            invariant
                i <= self.transitions.len(),
                self.transitions.len() == other.transitions.len(),
                self.wf(),
                other.wf(),
                forall|j: int| 0 <= j < i ==> self.transitions@[j]@ == other.transitions@[j]@,
            decreases self.transitions.len() - i,
        {
            let a = &self.transitions[i];
            let b = &other.transitions[i];
            if !(same(&a.label, &b.label) && same(&a.source, &b.source) && same(&a.target, &b.target)) {
                assert(transitions_view(self.transitions@)[i as int] == a@);
                assert(transitions_view(other.transitions@)[i as int] == b@);
                return false;
            }
            i += 1;
        }
        assert(transitions_view(self.transitions@) =~= transitions_view(other.transitions@));
        true
    }
}

} // verus!
