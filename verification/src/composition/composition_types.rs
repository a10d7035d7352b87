//! What is known of a composition of swarm protocols.
use crate::composition::composition_swarm::{duplicate_errors, errors_fit, errors_view, Error};
use crate::graph::Digraph;
use crate::names::{Command, EventType, Role, State};
use crate::order::Key;
use crate::ordmap::OrdMap;
use crate::ordset::OrdSet;
use crate::types::{MachineLabel, MachineLabelView, ProtocolType, SwarmLabel};
use vstd::prelude::*;

verus! {

/// For each role the event types that it observes.
pub type Subscriptions = OrdMap<Role, OrdSet<EventType>>;

pub type SwarmProtocolType = ProtocolType<SwarmLabel>;

pub type MachineType = ProtocolType<MachineLabel>;

/// A swarm protocol as a graph.
pub type SwarmGraph = Digraph<State, SwarmLabel>;

/// For each role the labels of its transitions.
pub type RoleEventMap = OrdMap<Role, OrdSet<SwarmLabel>>;

/// Two event types without an order between them.
pub type UnordEventPair = OrdSet<EventType>;

pub type BranchMap = OrdMap<EventType, Vec<EventType>>;

pub type SpecialEventTypes = OrdSet<EventType>;

pub type ProjToMachineStates = OrdMap<State, Vec<State>>;

/// The increasing sequence that stands for the pair of two names.
pub open spec fn pair_key(a: Seq<char>, b: Seq<char>) -> Seq<Seq<char>> {
    if a == b {
        seq![a]
    } else if crate::names::name_lt(a, b) {
        seq![a, b]
    } else {
        seq![b, a]
    }
}

/// The unordered pair of two event types.
pub fn unord_event_pair(a: EventType, b: EventType) -> (r: UnordEventPair)
    ensures
        r.wf(),
        r@ == Set::<Seq<char>>::empty().insert(a@).insert(b@),
        r.keys() == pair_key(a@, b@),
{
    let mut r: OrdSet<EventType> = OrdSet::new();
    let ghost ka = a@;
    let ghost kb = b@;
    r.insert(a);
    r.insert(b);
    proof {
        r.lemma_wf();
        let ks = r.keys();
        let expected = pair_key(ka, kb);
        assert(crate::ordset::increasing::<EventType>(expected)) by {
            EventType::lt_connected(ka, kb);
        }
        assert(expected.to_set() =~= r@) by {
            assert forall|x: Seq<char>| expected.to_set().contains(x) <==> r@.contains(x) by {
                if expected.to_set().contains(x) {
                    let i = choose|i: int| 0 <= i < expected.len() && expected[i] == x;
                }
                if x == ka {
                    if ka == kb {
                        assert(expected[0] == x);
                    } else if crate::names::name_lt(ka, kb) {
                        assert(expected[0] == x);
                    } else {
                        assert(expected[1] == x);
                    }
                }
                if x == kb {
                    if ka == kb {
                        assert(expected[0] == x);
                    } else if crate::names::name_lt(ka, kb) {
                        assert(expected[1] == x);
                    } else {
                        assert(expected[0] == x);
                    }
                }
            }
        }
        crate::ordset::increasing_unique::<EventType>(ks, expected);
    }
    r
}

/// Whether every label of a list carries an event type.
pub open spec fn labelled(labels: Seq<(Seq<char>, Seq<Seq<char>>, Seq<char>)>) -> bool {
    forall|i: int| 0 <= i < labels.len() ==> (#[trigger] labels[i]).1.len() > 0
}

/// A protocol as a graph, with what ingestion found.
#[derive(Debug)]
pub struct ProtoStruct {
    pub graph: SwarmGraph,
    pub initial: Option<usize>,
    pub errors: Vec<Error>,
    pub roles: OrdSet<Role>,
}

impl ProtoStruct {
    /// The graph and the set of roles are well-formed, the findings speak of
    /// nodes of the graph, a protocol without findings has an event type on
    /// every transition, and the initial node is a node of the graph or no
    /// node at all.
    pub open spec fn wf(&self) -> bool {
        &&& self.graph.wf()
        &&& self.roles.wf()
        &&& errors_fit(self.errors@, self.graph.nodes().len())
        &&& (self.errors@.len() == 0 ==> labelled(self.graph.labels()))
        &&& (self.initial is Some ==> self.initial->0 < self.graph.nodes().len() || self.initial->0 == crate::graph::NO_NODE)
    }

    pub fn new(graph: SwarmGraph, initial: Option<usize>, errors: Vec<Error>, roles: OrdSet<Role>) -> (r: Self)
        ensures
            r.graph == graph,
            r.initial == initial,
            r.errors == errors,
            r.roles == roles,
    {
        Self { graph, initial, errors, roles }
    }

    /// Copies of the graph, the initial state and the findings.
    pub fn get_triple(&self) -> (r: (SwarmGraph, Option<usize>, Vec<Error>))
        requires
            self.wf(),
        ensures
            r.0.wf(),
            r.0.nodes() == self.graph.nodes(),
            r.0.edges() == self.graph.edges(),
            r.0.labels() == self.graph.labels(),
            r.1 == self.initial,
            errors_view(r.2@) == errors_view(self.errors@),
    {
        (self.graph.duplicate(), self.initial, duplicate_errors(&self.errors))
    }

    pub fn no_errors(&self) -> (r: bool)
        ensures
            r == (self.errors@.len() == 0),
    {
        self.errors.len() == 0
    }

    pub fn duplicate(&self) -> (r: Self)
        requires
            self.wf(),
        ensures
            r.wf(),
            r.graph.nodes() == self.graph.nodes(),
            r.graph.edges() == self.graph.edges(),
            r.graph.labels() == self.graph.labels(),
            r.initial == self.initial,
            errors_view(r.errors@) == errors_view(self.errors@),
            r.roles@ == self.roles@,
    {
        let errors = duplicate_errors(&self.errors);
        let roles = self.roles.duplicate();
        proof {
            assert(errors@.len() == errors_view(errors@).len());
            assert(self.errors@.len() == errors_view(self.errors@).len());
            assert forall|i: int| 0 <= i < errors@.len() implies Error::fits(#[trigger] errors@[i]@, self.graph.nodes().len()) by {
                assert(errors_view(errors@)[i] == errors_view(self.errors@)[i]);
            }
        }
        Self { graph: self.graph.duplicate(), initial: self.initial, errors, roles }
    }
}

/// The roles and event types that two protocols share.
#[derive(Debug)]
pub struct InterfaceStruct {
    pub interfacing_roles: OrdSet<Role>,
    pub interfacing_event_types: OrdSet<EventType>,
}

impl InterfaceStruct {
    pub fn new() -> (r: Self)
        ensures
            r.interfacing_roles.wf(),
            r.interfacing_event_types.wf(),
            r.interfacing_roles@ == Set::<Seq<char>>::empty(),
            r.interfacing_event_types@ == Set::<Seq<char>>::empty(),
    {
        InterfaceStruct { interfacing_roles: OrdSet::new(), interfacing_event_types: OrdSet::new() }
    }
}

/// Whether each set of a list is well-formed.
pub open spec fn all_wf<K: Key>(sets: Seq<OrdSet<K>>) -> bool {
    forall|i: int| 0 <= i < sets.len() ==> (#[trigger] sets[i]).wf()
}

/// The sets of a list as mathematical values.
pub open spec fn sets_view<K: Key>(sets: Seq<OrdSet<K>>) -> Seq<Set<K::V>> {
    Seq::new(sets.len(), |i: int| sets[i]@)
}

/// What is known of a list of protocols and of their composition.
#[derive(Debug)]
pub struct ProtoInfo {
    pub protocols: Vec<ProtoStruct>,
    pub role_event_map: RoleEventMap,
    pub concurrent_events: OrdSet<UnordEventPair>,
    pub branching_events: Vec<OrdSet<EventType>>,
    pub joining_events: OrdMap<EventType, OrdSet<EventType>>,
    pub immediately_pre: OrdMap<EventType, OrdSet<EventType>>,
    pub succeeding_events: OrdMap<EventType, OrdSet<EventType>>,
    pub interfacing_events: OrdSet<EventType>,
    pub infinitely_looping_events: OrdSet<EventType>,
    pub interface_errors: Vec<Error>,
}

impl ProtoInfo {
    /// Every part is well-formed, every label of the role index carries an
    /// event type, and the findings on interfaces name no node.
    pub open spec fn wf(&self) -> bool {
        &&& forall|i: int| 0 <= i < self.protocols@.len() ==> (#[trigger] self.protocols@[i]).wf()
        &&& self.role_event_map.wf_sets()
        &&& forall|r: Seq<char>, l: (Seq<char>, Seq<Seq<char>>, Seq<char>)| #[trigger] self.role_event_map.holds(r, l) ==> l.1.len() > 0
        &&& self.concurrent_events.wf()
        &&& all_wf(self.branching_events@)
        &&& self.joining_events.wf_sets()
        &&& self.immediately_pre.wf_sets()
        &&& self.succeeding_events.wf_sets()
        &&& self.interfacing_events.wf()
        &&& self.infinitely_looping_events.wf()
        &&& errors_fit(self.interface_errors@, 0)
    }

    pub fn new(
        protocols: Vec<ProtoStruct>,
        role_event_map: RoleEventMap,
        concurrent_events: OrdSet<UnordEventPair>,
        branching_events: Vec<OrdSet<EventType>>,
        joining_events: OrdMap<EventType, OrdSet<EventType>>,
        immediately_pre: OrdMap<EventType, OrdSet<EventType>>,
        succeeding_events: OrdMap<EventType, OrdSet<EventType>>,
        interfacing_events: OrdSet<EventType>,
        infinitely_looping_events: OrdSet<EventType>,
        interface_errors: Vec<Error>,
    ) -> (r: Self)
        ensures
            r.protocols == protocols,
            r.role_event_map == role_event_map,
            r.concurrent_events == concurrent_events,
            r.branching_events == branching_events,
            r.joining_events == joining_events,
            r.immediately_pre == immediately_pre,
            r.succeeding_events == succeeding_events,
            r.interfacing_events == interfacing_events,
            r.infinitely_looping_events == infinitely_looping_events,
            r.interface_errors == interface_errors,
    {
        Self {
            protocols,
            role_event_map,
            concurrent_events,
            branching_events,
            joining_events,
            immediately_pre,
            succeeding_events,
            interfacing_events,
            infinitely_looping_events,
            interface_errors,
        }
    }

    /// What is known when only the protocols are: every derived set is empty.
    pub fn new_only_proto(protocols: Vec<ProtoStruct>) -> (r: Self)
        requires
            forall|i: int| 0 <= i < protocols@.len() ==> (#[trigger] protocols@[i]).wf(),
        ensures
            r.wf(),
            r.protocols == protocols,
            r.role_event_map.sets() == Map::<Seq<char>, Set<(Seq<char>, Seq<Seq<char>>, Seq<char>)>>::empty(),
            r.concurrent_events@ == Set::<Seq<Seq<char>>>::empty(),
            r.branching_events@.len() == 0,
            r.joining_events.sets() == Map::<Seq<char>, Set<Seq<char>>>::empty(),
            r.immediately_pre.sets() == Map::<Seq<char>, Set<Seq<char>>>::empty(),
            r.succeeding_events.sets() == Map::<Seq<char>, Set<Seq<char>>>::empty(),
            r.interfacing_events@ == Set::<Seq<char>>::empty(),
            r.infinitely_looping_events@ == Set::<Seq<char>>::empty(),
            r.interface_errors@.len() == 0,
    {
        let r = Self {
            protocols,
            role_event_map: OrdMap::new(),
            concurrent_events: OrdSet::new(),
            branching_events: Vec::new(),
            joining_events: OrdMap::new(),
            immediately_pre: OrdMap::new(),
            succeeding_events: OrdMap::new(),
            interfacing_events: OrdSet::new(),
            infinitely_looping_events: OrdSet::new(),
            interface_errors: Vec::new(),
        };
        proof {
            assert(r.role_event_map.sets() =~= Map::<Seq<char>, Set<(Seq<char>, Seq<Seq<char>>, Seq<char>)>>::empty());
            assert(r.joining_events.sets() =~= Map::<Seq<char>, Set<Seq<char>>>::empty());
            assert(r.immediately_pre.sets() =~= Map::<Seq<char>, Set<Seq<char>>>::empty());
            assert(r.succeeding_events.sets() =~= Map::<Seq<char>, Set<Seq<char>>>::empty());
        }
        r
    }

    /// A copy of the protocol at an index, if there is one.
    pub fn get_ith_proto(&self, i: usize) -> (r: Option<ProtoStruct>)
        requires
            self.wf(),
        ensures
            r is Some == (i < self.protocols@.len()),
            r is Some ==> {
                let p = r->0;
                let q = self.protocols@[i as int];
                &&& p.wf()
                &&& p.graph.nodes() == q.graph.nodes()
                &&& p.graph.edges() == q.graph.edges()
                &&& p.graph.labels() == q.graph.labels()
                &&& p.initial == q.initial
                &&& errors_view(p.errors@) == errors_view(q.errors@)
                &&& p.roles@ == q.roles@
            },
    {
        if i >= self.protocols.len() {
            None
        } else {
            Some(self.protocols[i].duplicate())
        }
    }

    /// Whether no protocol has a finding and no interface has one.
    pub fn no_errors(&self) -> (r: bool)
        ensures
            r == ((forall|i: int| 0 <= i < self.protocols@.len() ==> (#[trigger] self.protocols@[i]).errors@.len() == 0) && self.interface_errors@.len() == 0),
    {
        let mut i: usize = 0;
        while i < self.protocols.len()
            invariant
                i <= self.protocols.len(),
                forall|j: int| 0 <= j < i ==> (#[trigger] self.protocols@[j]).errors@.len() == 0,
            decreases self.protocols.len() - i,
        {
            if !self.protocols[i].no_errors() {
                return false;
            }
            i += 1;
        }
        self.interface_errors.len() == 0
    }
}

/// What a protocol with its findings stands for.
pub struct ProtoView {
    pub nodes: Seq<Seq<char>>,
    pub edges: Seq<(usize, usize)>,
    pub labels: Seq<(Seq<char>, Seq<Seq<char>>, Seq<char>)>,
    pub initial: Option<usize>,
    pub errors: Seq<crate::composition::composition_swarm::ErrorView>,
    pub roles: Set<Seq<char>>,
}

/// What a dossier stands for.
pub struct ProtoInfoView {
    pub protocols: Seq<ProtoView>,
    pub role_event_map: Map<Seq<char>, Set<(Seq<char>, Seq<Seq<char>>, Seq<char>)>>,
    pub concurrent_events: Set<Seq<Seq<char>>>,
    pub branching_events: Seq<Set<Seq<char>>>,
    pub joining_events: Map<Seq<char>, Set<Seq<char>>>,
    pub immediately_pre: Map<Seq<char>, Set<Seq<char>>>,
    pub succeeding_events: Map<Seq<char>, Set<Seq<char>>>,
    pub interfacing_events: Set<Seq<char>>,
    pub infinitely_looping_events: Set<Seq<char>>,
    pub interface_errors: Seq<crate::composition::composition_swarm::ErrorView>,
}

impl ProtoStruct {
    pub open spec fn view(&self) -> ProtoView {
        ProtoView {
            nodes: self.graph.nodes(),
            edges: self.graph.edges(),
            labels: self.graph.labels(),
            initial: self.initial,
            errors: errors_view(self.errors@),
            roles: self.roles@,
        }
    }
}

/// The protocols of a list as mathematical values.
pub open spec fn protos_view(ps: Seq<ProtoStruct>) -> Seq<ProtoView> {
    Seq::new(ps.len(), |i: int| ps[i]@)
}

impl ProtoInfo {
    pub open spec fn view(&self) -> ProtoInfoView {
        ProtoInfoView {
            protocols: protos_view(self.protocols@),
            role_event_map: self.role_event_map.sets(),
            concurrent_events: self.concurrent_events@,
            branching_events: sets_view(self.branching_events@),
            joining_events: self.joining_events.sets(),
            immediately_pre: self.immediately_pre.sets(),
            succeeding_events: self.succeeding_events.sets(),
            interfacing_events: self.interfacing_events@,
            infinitely_looping_events: self.infinitely_looping_events@,
            interface_errors: errors_view(self.interface_errors@),
        }
    }
}

/// The union of the sets of a list.
pub open spec fn union_of<T>(sets: Seq<Set<T>>) -> Set<T> {
    Set::new(|x: T| exists|i: int| 0 <= i < sets.len() && #[trigger] sets[i].contains(x))
}

/// The union of the sets up to a position is that of the sets before it
/// with the set at it.
pub proof fn lemma_union_take<T>(sets: Seq<Set<T>>, i: int)
    requires
        0 <= i < sets.len(),
    ensures
        union_of(sets.take(i + 1)) == union_of(sets.take(i)).union(sets[i]),
{
    let a = sets.take(i);
    let b = sets.take(i + 1);
    assert forall|x: T| union_of(b).contains(x) <==> union_of(a).union(sets[i]).contains(x) by {
        if union_of(a).contains(x) {
            let j = choose|j: int| 0 <= j < a.len() && #[trigger] a[j].contains(x);
            assert(b[j].contains(x));
        }
        if sets[i].contains(x) {
            assert(b[i].contains(x));
        }
        if union_of(b).contains(x) {
            let j = choose|j: int| 0 <= j < b.len() && #[trigger] b[j].contains(x);
            if j < i {
                assert(a[j].contains(x));
            }
        }
    }
    assert(union_of(b) =~= union_of(a).union(sets[i]));
}

/// The event types at which a role has to tell branches apart or to wait
/// for a join: every branching event type and every joining event type.
pub fn get_branching_joining_proto_info(proto_info: &ProtoInfo) -> (r: OrdSet<EventType>)
    requires
        proto_info.wf(),
    ensures
        r.wf(),
        r@ == union_of(sets_view(proto_info.branching_events@)).union(proto_info.joining_events@.dom()),
{
    let mut r: OrdSet<EventType> = OrdSet::new();
    let mut i: usize = 0;
    while i < proto_info.branching_events.len()
        invariant
            i <= proto_info.branching_events.len(),
            proto_info.wf(),
            r.wf(),
            r@ == union_of(sets_view(proto_info.branching_events@).take(i as int)),
        decreases proto_info.branching_events.len() - i,
    {
        r.extend(&proto_info.branching_events[i]);
        proof {
            let sets = sets_view(proto_info.branching_events@);
            let a = sets.take(i as int);
            let b = sets.take(i as int + 1);
            assert forall|x: Seq<char>| r@.contains(x) <==> union_of(b).contains(x) by {
                if union_of(a).contains(x) {
                    let j = choose|j: int| 0 <= j < a.len() && #[trigger] a[j].contains(x);
                    assert(b[j].contains(x));
                }
                if sets[i as int].contains(x) {
                    assert(b[i as int].contains(x));
                }
                if union_of(b).contains(x) {
                    let j = choose|j: int| 0 <= j < b.len() && #[trigger] b[j].contains(x);
                    if j < i {
                        assert(a[j].contains(x));
                    }
                }
            }
            assert(r@ =~= union_of(b));
        }
        i += 1;
    }
    proof {
        assert(sets_view(proto_info.branching_events@).take(i as int) =~= sets_view(proto_info.branching_events@));
        proto_info.joining_events.lemma_wf();
    }
    let ghost base = r@;
    let mut j: usize = 0;
    while j < proto_info.joining_events.len()
        invariant
            j <= proto_info.joining_events.keys().len(),
            proto_info.wf(),
            r.wf(),
            r@ == base.union(proto_info.joining_events.keys().take(j as int).to_set()),
        decreases proto_info.joining_events.keys().len() - j,
    {
        r.insert(proto_info.joining_events.key_at(j).duplicate());
        proof {
            let ks = proto_info.joining_events.keys();
            assert(ks.take(j as int + 1) =~= ks.take(j as int).push(ks[j as int]));
            assert(ks.take(j as int + 1).to_set() =~= ks.take(j as int).to_set().insert(ks[j as int])) by {
                let a = ks.take(j as int);
                let b = ks.take(j as int + 1);
                assert forall|x: Seq<char>| b.to_set().contains(x) <==> a.to_set().insert(ks[j as int]).contains(x) by {
                    if b.to_set().contains(x) {
                        let q = choose|q: int| 0 <= q < b.len() && b[q] == x;
                        if q < j {
                            assert(a[q] == x);
                        }
                    }
                    if a.to_set().contains(x) {
                        let q = choose|q: int| 0 <= q < a.len() && a[q] == x;
                        assert(b[q] == x);
                    }
                    if x == ks[j as int] {
                        assert(b[j as int] == x);
                    }
                }
            }
            assert(r@ =~= base.union(ks.take(j as int + 1).to_set()));
        }
        j += 1;
    }
    proof {
        assert(proto_info.joining_events.keys().take(j as int) =~= proto_info.joining_events.keys());
    }
    r
}

/// A protocol with the interface on which it joins the ones before it.
pub struct CompositionComponent<T> {
    pub protocol: SwarmProtocolType,
    pub interface: Option<T>,
}

/// Protocols, each with its interface.
pub struct InterfacingSwarms<T>(pub Vec<CompositionComponent<T>>);

/// Protocols that are composed in the order of the list.
#[derive(Debug, Clone, PartialEq, Eq)]
pub struct InterfacingProtocols(pub Vec<SwarmProtocolType>);

/// How closely a subscription is fitted to a composition.
#[derive(Debug, Clone, Copy)]
pub enum Granularity {
    Fine,
    Medium,
    Coarse,
    TwoStep,
}

/// A projection with what a caller needs to run it: which event types may
/// follow which, the event types at branches and joins, and the states of
/// the caller's machine that each state of the projection refines.
pub struct ProjectionInfo {
    pub projection: MachineType,
    pub branches: BranchMap,
    pub special_event_types: SpecialEventTypes,
    pub proj_to_machine_states: ProjToMachineStates,
}

/// A label from which an event type can be read.
pub trait EventLabel: Key {
    /// Whether the label carries an event type.
    spec fn has_event(k: Self::V) -> bool;

    /// The label's event type: the first of those it carries.
    spec fn event_of(k: Self::V) -> Seq<char>;

    /// Every label is valid.
    proof fn lemma_valid(&self)
        ensures
            self.valid(),
    ;

    fn get_event_type(&self) -> (r: EventType)
        requires
            Self::has_event(self.key()),
        ensures
            r@ == Self::event_of(self.key()),
    ;
}

impl EventLabel for SwarmLabel {
    open spec fn has_event(k: Self::V) -> bool {
        k.1.len() > 0
    }

    open spec fn event_of(k: Self::V) -> Seq<char> {
        k.1[0]
    }

    proof fn lemma_valid(&self) {
    }

    fn get_event_type(&self) -> (r: EventType) {
        self.log_type[0].duplicate()
    }
}

impl EventLabel for MachineLabel {
    open spec fn has_event(k: Self::V) -> bool {
        match k {
            MachineLabelView::Execute { log_type, .. } => log_type.len() > 0,
            MachineLabelView::Input { .. } => true,
        }
    }

    open spec fn event_of(k: Self::V) -> Seq<char> {
        match k {
            MachineLabelView::Execute { log_type, .. } => log_type[0],
            MachineLabelView::Input { event_type } => event_type,
        }
    }

    proof fn lemma_valid(&self) {
    }

    fn get_event_type(&self) -> (r: EventType) {
        match self {
            MachineLabel::Execute { log_type, .. } => log_type[0].duplicate(),
            MachineLabel::Input { event_type } => event_type.duplicate(),
        }
    }
}

/// A command, the event type it emits and the role that issues it.
pub type LabelTriple = (Seq<char>, Seq<char>, Seq<char>);

/// Something that has labels: a protocol or a dossier of protocols.
pub trait ProtoLabel {
    /// Whether the labels can be read.
    spec fn readable(&self) -> bool;

    /// The labels as triples of command, event type and role.
    spec fn triples(&self) -> Set<LabelTriple>;

    /// The roles.
    spec fn roles(&self) -> Set<Seq<char>>;

    fn get_labels(&self) -> (r: OrdSet<(Command, EventType, Role)>)
        requires
            self.readable(),
        ensures
            r.wf(),
            r@ == self.triples(),
    ;

    fn get_roles(&self) -> (r: OrdSet<Role>)
        requires
            self.readable(),
        ensures
            r.wf(),
            r@ == self.roles(),
    ;

    fn get_event_types(&self) -> (r: OrdSet<EventType>)
        requires
            self.readable(),
        ensures
            r.wf(),
            r@ == triple_events(self.triples()),
    ;
}

/// Takes in a triple: its event type joins the set.
pub open spec fn triple_event() -> spec_fn(Set<Seq<char>>, LabelTriple) -> Set<Seq<char>> {
    |acc: Set<Seq<char>>, x: LabelTriple| acc.insert(x.1)
}

/// The event types of a set of triples.
pub open spec fn triple_events(triples: Set<LabelTriple>) -> Set<Seq<char>> {
    crate::seqs::fold(crate::ordset::sorted::<(Command, EventType, Role)>(triples), Set::<Seq<char>>::empty(), triple_event())
}

/// Takes in a triple: its role joins the set.
pub open spec fn triple_role() -> spec_fn(Set<Seq<char>>, LabelTriple) -> Set<Seq<char>> {
    |acc: Set<Seq<char>>, x: LabelTriple| acc.insert(x.2)
}

/// The roles of a set of triples.
pub open spec fn triple_roles(triples: Set<LabelTriple>) -> Set<Seq<char>> {
    crate::seqs::fold(crate::ordset::sorted::<(Command, EventType, Role)>(triples), Set::<Seq<char>>::empty(), triple_role())
}

/// The event types of a set of triples.
pub fn event_types_of_triples(triples: &OrdSet<(Command, EventType, Role)>) -> (r: OrdSet<EventType>)
    requires
        triples.wf(),
    ensures
        r.wf(),
        r@ == triple_events(triples@),
{
    let mut r: OrdSet<EventType> = OrdSet::new();
    proof {
        triples.lemma_wf();
    }
    let mut i: usize = 0;
    while i < triples.len()
        invariant
            i <= triples.keys().len(),
            triples.wf(),
            r.wf(),
            r@ == crate::seqs::fold_upto(triples.keys(), Set::<Seq<char>>::empty(), triple_event(), i as int),
        decreases triples.keys().len() - i,
    {
        r.insert(triples.get(i).1.duplicate());
        i += 1;
    }
    r
}

/// The roles of a set of triples.
pub fn roles_of_triples(triples: &OrdSet<(Command, EventType, Role)>) -> (r: OrdSet<Role>)
    requires
        triples.wf(),
    ensures
        r.wf(),
        r@ == triple_roles(triples@),
{
    let mut r: OrdSet<Role> = OrdSet::new();
    proof {
        triples.lemma_wf();
    }
    let mut i: usize = 0;
    while i < triples.len()
        invariant
            i <= triples.keys().len(),
            triples.wf(),
            r.wf(),
            r@ == crate::seqs::fold_upto(triples.keys(), Set::<Seq<char>>::empty(), triple_role(), i as int),
        decreases triples.keys().len() - i,
    {
        r.insert(triples.get(i).2.duplicate());
        i += 1;
    }
    r
}

/// The triples of the labels of a graph.
pub open spec fn graph_triples(labels: Seq<(Seq<char>, Seq<Seq<char>>, Seq<char>)>) -> Set<LabelTriple> {
    Seq::new(labels.len(), |i: int| (labels[i].0, labels[i].1[0], labels[i].2)).to_set()
}

impl ProtoLabel for SwarmGraph {
    open spec fn readable(&self) -> bool {
        self.wf() && labelled(self.labels())
    }

    open spec fn triples(&self) -> Set<LabelTriple> {
        graph_triples(self.labels())
    }

    open spec fn roles(&self) -> Set<Seq<char>> {
        triple_roles(graph_triples(self.labels()))
    }

    fn get_labels(&self) -> (r: OrdSet<(Command, EventType, Role)>) {
        let ghost all = Seq::new(self.labels().len(), |i: int| (self.labels()[i].0, self.labels()[i].1[0], self.labels()[i].2));
        let mut r: OrdSet<(Command, EventType, Role)> = OrdSet::new();
        proof {
            self.lemma_wf();
            crate::seqs::lemma_take_all(all);
        }
        let count = self.edge_count();
        let mut e: usize = 0;
        while e < count
            invariant
                e <= count,
                count == self.labels().len(),
                self.wf(),
                labelled(self.labels()),
                self.edges().len() == self.labels().len(),
                all == Seq::new(self.labels().len(), |i: int| (self.labels()[i].0, self.labels()[i].1[0], self.labels()[i].2)),
                r.wf(),
                r@ == all.take(e as int).to_set(),
            decreases count - e,
        {
            let label = self.label(e);
            r.insert((label.cmd.duplicate(), label.get_event_type(), label.role.duplicate()));
            proof {
                crate::seqs::lemma_take_to_set(all, e as int);
            }
            e += 1;
        }
        r
    }

    fn get_roles(&self) -> (r: OrdSet<Role>) {
        roles_of_triples(&self.get_labels())
    }

    fn get_event_types(&self) -> (r: OrdSet<EventType>) {
        event_types_of_triples(&self.get_labels())
    }
}

impl ProtoLabel for ProtoInfo {
    open spec fn readable(&self) -> bool {
        self.wf()
    }

    open spec fn triples(&self) -> Set<LabelTriple> {
        crate::composition::composition_swarm::triples_of(self@.role_event_map)
    }

    /// The roles that have labels.
    open spec fn roles(&self) -> Set<Seq<char>> {
        self@.role_event_map.dom()
    }

    fn get_labels(&self) -> (r: OrdSet<(Command, EventType, Role)>) {
        crate::composition::composition_swarm::get_labels(self)
    }

    fn get_roles(&self) -> (r: OrdSet<Role>) {
        let mut r: OrdSet<Role> = OrdSet::new();
        proof {
            self.role_event_map.lemma_wf();
            crate::seqs::lemma_take_all(self.role_event_map.keys());
        }
        let mut i: usize = 0;
        while i < self.role_event_map.len()
            invariant
                i <= self.role_event_map.keys().len(),
                self.role_event_map.wf(),
                r.wf(),
                r@ == self.role_event_map.keys().take(i as int).to_set(),
            decreases self.role_event_map.keys().len() - i,
        {
            r.insert(self.role_event_map.key_at(i).duplicate());
            proof {
                crate::seqs::lemma_take_to_set(self.role_event_map.keys(), i as int);
            }
            i += 1;
        }
        proof {
            assert(r@ =~= self@.role_event_map.dom());
        }
        r
    }

    fn get_event_types(&self) -> (r: OrdSet<EventType>) {
        event_types_of_triples(&crate::composition::composition_swarm::get_labels(self))
    }
}

/// Takes in a label of one side: a finding if it belongs to the interface
/// role and the other side lacks it, or if it belongs to another role and
/// the other side has its event type or its command.
pub open spec fn interface_step(role: Seq<char>, others: Set<LabelTriple>) -> spec_fn(Seq<crate::composition::composition_swarm::ErrorView>, LabelTriple) -> Seq<crate::composition::composition_swarm::ErrorView> {
    |acc: Seq<crate::composition::composition_swarm::ErrorView>, x: LabelTriple|
        if x.2 == role && !others.contains(x) {
            acc.push(crate::composition::composition_swarm::ErrorView::InterfaceEventNotInBothProtocols(x.1))
        } else if x.2 != role && (triple_events(others).contains(x.1) || exists|y: LabelTriple| others.contains(y) && y.0 == x.0) {
            acc.push(crate::composition::composition_swarm::ErrorView::SpuriousInterface(x.0, x.1, x.2))
        } else {
            acc
        }
}

/// The findings on a role as the interface between two sides: that it is
/// not the one role that both have; then for the labels of the first side
/// and then for those of the second what `interface_step` finds.
pub open spec fn interface_findings(role: Seq<char>, roles_a: Set<Seq<char>>, triples_a: Set<LabelTriple>, roles_b: Set<Seq<char>>, triples_b: Set<LabelTriple>) -> Seq<crate::composition::composition_swarm::ErrorView> {
    let shared = roles_a.intersect(roles_b);
    let first = if shared.contains(role) && shared.len() == 1 {
        Seq::<crate::composition::composition_swarm::ErrorView>::empty()
    } else {
        seq![crate::composition::composition_swarm::ErrorView::InvalidInterfaceRole(role)]
    };
    crate::seqs::fold(
        crate::ordset::sorted::<(Command, EventType, Role)>(triples_b),
        crate::seqs::fold(crate::ordset::sorted::<(Command, EventType, Role)>(triples_a), first, interface_step(role, triples_b)),
        interface_step(role, triples_a),
    )
}

/// Something that can serve as the interface between two protocols.
pub trait SwarmInterface {
    /// The name of the interface.
    spec fn interface_name(&self) -> Seq<char>;

    /// The findings on this interface between two sides.
    fn check_interface<T: ProtoLabel>(&self, a: &T, b: &T) -> (errors: Vec<Error>)
        requires
            a.readable(),
            b.readable(),
        ensures
            errors_view(errors@) == interface_findings(self.interface_name(), a.roles(), a.triples(), b.roles(), b.triples()),
    ;

    /// The event types of the interface in the first side, none where the
    /// interface has findings.
    fn interfacing_event_types<T: ProtoLabel>(&self, a: &T, b: &T) -> (r: OrdSet<EventType>)
        requires
            a.readable(),
            b.readable(),
        ensures
            r.wf(),
            r@ == if interface_findings(self.interface_name(), a.roles(), a.triples(), b.roles(), b.triples()).len() == 0 {
                own_events(self.interface_name(), a.triples())
            } else {
                Set::empty()
            },
    ;

    /// The event types of the interface in one side.
    fn interfacing_event_types_single<T: ProtoLabel>(&self, a: &T) -> (r: OrdSet<EventType>)
        requires
            a.readable(),
        ensures
            r.wf(),
            r@ == own_events(self.interface_name(), a.triples()),
    ;
}

/// Takes in a triple: its event type joins the set if the role issues it.
pub open spec fn own_event(role: Seq<char>) -> spec_fn(Set<Seq<char>>, LabelTriple) -> Set<Seq<char>> {
    |acc: Set<Seq<char>>, x: LabelTriple|
        if x.2 == role {
            acc.insert(x.1)
        } else {
            acc
        }
}

/// The event types of the triples of a role.
pub open spec fn own_events(role: Seq<char>, triples: Set<LabelTriple>) -> Set<Seq<char>> {
    crate::seqs::fold(crate::ordset::sorted::<(Command, EventType, Role)>(triples), Set::<Seq<char>>::empty(), own_event(role))
}

/// Whether a set of triples has a triple with the command.
pub fn has_command(triples: &OrdSet<(Command, EventType, Role)>, command: &Command) -> (r: bool)
    requires
        triples.wf(),
    ensures
        r == exists|y: LabelTriple| triples@.contains(y) && y.0 == command@,
{
    let mut i: usize = 0;
    while i < triples.len()
        invariant
            i <= triples.keys().len(),
            triples.wf(),
            forall|q: int| 0 <= q < i ==> (#[trigger] triples.keys()[q]).0 != command@,
        decreases triples.keys().len() - i,
    {
        if crate::order::same(&triples.get(i).0, command) {
            return true;
        }
        i += 1;
    }
    proof {
        if exists|y: LabelTriple| triples@.contains(y) && y.0 == command@ {
            let y = choose|y: LabelTriple| triples@.contains(y) && y.0 == command@;
            let q = choose|q: int| 0 <= q < triples.keys().len() && triples.keys()[q] == y;
            assert(triples.keys()[q].0 != command@);
        }
    }
    false
}

/// Adds to the findings what `interface_step` finds for the labels of one
/// side against the other.
pub fn interface_side(role: &Role, own: &OrdSet<(Command, EventType, Role)>, others: &OrdSet<(Command, EventType, Role)>, errors: &mut Vec<Error>)
    requires
        own.wf(),
        others.wf(),
    ensures
        errors_view(final(errors)@) == crate::seqs::fold(crate::ordset::sorted::<(Command, EventType, Role)>(own@), errors_view(old(errors)@), interface_step(role@, others@)),
{
    let other_events = event_types_of_triples(others);
    let ghost step = interface_step(role@, others@);
    let ghost start = errors_view(old(errors)@);
    proof {
        own.lemma_wf();
    }
    let mut i: usize = 0;
    while i < own.len()
        invariant
            i <= own.keys().len(),
            own.wf(),
            others.wf(),
            other_events.wf(),
            other_events@ == triple_events(others@),
            step == interface_step(role@, others@),
            errors_view(errors@) == crate::seqs::fold_upto(own.keys(), start, step, i as int),
        decreases own.keys().len() - i,
    {
        let triple = own.get(i);
        let ghost before = errors_view(errors@);
        if crate::order::same(&triple.2, role) {
            if !others.contains(triple) {
                errors.push(Error::InterfaceEventNotInBothProtocols(triple.1.duplicate()));
                assert(errors_view(errors@) =~= before.push(crate::composition::composition_swarm::ErrorView::InterfaceEventNotInBothProtocols(triple.1@)));
            }
        } else if other_events.contains(&triple.1) || has_command(others, &triple.0) {
            errors.push(Error::SpuriousInterface(triple.0.duplicate(), triple.1.duplicate(), triple.2.duplicate()));
            assert(errors_view(errors@) =~= before.push(crate::composition::composition_swarm::ErrorView::SpuriousInterface(triple.0@, triple.1@, triple.2@)));
        }
        i += 1;
    }
}

/// The event types of the triples of a role.
pub fn events_of_role(role: &Role, triples: &OrdSet<(Command, EventType, Role)>) -> (r: OrdSet<EventType>)
    requires
        triples.wf(),
    ensures
        r.wf(),
        r@ == own_events(role@, triples@),
{
    let mut r: OrdSet<EventType> = OrdSet::new();
    proof {
        triples.lemma_wf();
    }
    let mut i: usize = 0;
    while i < triples.len()
        invariant
            i <= triples.keys().len(),
            triples.wf(),
            r.wf(),
            r@ == crate::seqs::fold_upto(triples.keys(), Set::<Seq<char>>::empty(), own_event(role@), i as int),
        decreases triples.keys().len() - i,
    {
        let triple = triples.get(i);
        if crate::order::same(&triple.2, role) {
            r.insert(triple.1.duplicate());
        }
        i += 1;
    }
    r
}

impl SwarmInterface for Role {
    open spec fn interface_name(&self) -> Seq<char> {
        self@
    }

    fn check_interface<T: ProtoLabel>(&self, a: &T, b: &T) -> (errors: Vec<Error>) {
        let role_intersection = a.get_roles().intersection(&b.get_roles());
        proof {
            role_intersection.lemma_wf();
        }
        // there should only be one role that appears in both protocols
        let mut errors: Vec<Error> = Vec::new();
        if !(role_intersection.contains(self) && role_intersection.len() == 1) {
            errors.push(Error::InvalidInterfaceRole(self.duplicate()));
        }
        proof {
            let shared = a.roles().intersect(b.roles());
            assert(errors_view(errors@) =~= if shared.contains(self@) && shared.len() == 1 {
                Seq::<crate::composition::composition_swarm::ErrorView>::empty()
            } else {
                seq![crate::composition::composition_swarm::ErrorView::InvalidInterfaceRole(self@)]
            });
        }
        let triples_a = a.get_labels();
        let triples_b = b.get_labels();
        interface_side(self, &triples_a, &triples_b, &mut errors);
        interface_side(self, &triples_b, &triples_a, &mut errors);
        errors
    }

    fn interfacing_event_types<T: ProtoLabel>(&self, a: &T, b: &T) -> (r: OrdSet<EventType>) {
        if self.check_interface(a, b).len() != 0 {
            return OrdSet::new();
        }
        events_of_role(self, &a.get_labels())
    }

    fn interfacing_event_types_single<T: ProtoLabel>(&self, a: &T) -> (r: OrdSet<EventType>) {
        events_of_role(self, &a.get_labels())
    }
}

} // verus!
