//! Machines as graphs, and the findings of their comparison.
use crate::composition::composition_swarm::{node_for, with_new, pos_of};
use crate::composition::composition_types::MachineType;
use crate::graph::Digraph;
use crate::names::State;
use crate::order::{all_valid, Key};
use crate::ordmap::OrdMap;
use crate::types::{MachineLabel, MachineLabelView, Named, ProtocolType, Transition};
use vstd::prelude::*;

verus! {

/// A machine as a graph whose states may lack a name.
pub type OptionGraph = Digraph<Option<State>, MachineLabel>;

/// A machine as a graph of named states.
pub type MachineGraph = Digraph<State, MachineLabel>;

/// Which of two machines a finding speaks of.
#[derive(Clone, Copy, Debug, PartialEq, Eq, Structural)]
pub enum Side {
    Left,
    Right,
}

/// A finding of the comparison of two machines.
#[derive(Clone, Copy, Debug, PartialEq, Eq, Structural)]
pub enum Error {
    /// Two transitions of a state of the machine on this side go by the
    /// same command or the same event type; the later one is named.
    NonDeterministic(Side, usize),
    /// The machine on this side lacks, in the given state of its own, the
    /// given transition of the other machine.
    MissingTransition(Side, usize, usize),
}

/// The text `(source)--[label]-->(target)` of an edge of a machine, and a
/// fixed text for an index that is not an edge's.
pub open spec fn machine_edge_text<N: Named>(nodes: Seq<N::V>, edges: Seq<(usize, usize)>, labels: Seq<MachineLabelView>, e: usize) -> Seq<char> {
    if e < edges.len() {
        "("@ + N::named(nodes[edges[e as int].0 as int]) + ")--["@ + MachineLabel::text(labels[e as int]) + "]-->("@ + N::named(nodes[edges[e as int].1 as int]) + ")"@
    } else {
        "[invalid EdgeId]"@
    }
}

/// Writes an edge of a machine as `(source)--[label]-->(target)`.
pub fn print_machine_edge<N: Named>(graph: &Digraph<N, MachineLabel>, e: usize) -> (r: String)
    requires
        graph.wf(),
    ensures
        r@ == machine_edge_text::<N>(graph.nodes(), graph.edges(), graph.labels(), e),
{
    if e >= graph.edge_count() {
        return String::from_str("[invalid EdgeId]");
    }
    let (a, b) = graph.endpoints(e);
    let mut out = String::from_str("(");
    out.append(graph.node(a).name().as_str());
    out.append(")--[");
    let label = graph.label(e).to_string();
    out.append(label.as_str());
    out.append("]-->(");
    out.append(graph.node(b).name().as_str());
    out.append(")");
    out
}

impl Error {
    /// Whether the state that the finding names is one of the machine that
    /// it belongs to.
    pub open spec fn fits(self, left_nodes: nat, right_nodes: nat) -> bool {
        match self {
            Error::MissingTransition(Side::Left, n, _) => n < left_nodes,
            Error::MissingTransition(Side::Right, n, _) => n < right_nodes,
            _ => true,
        }
    }

    /// How a finding reads, with the left machine as the reference and the
    /// right one as the machine that is held against it.
    pub open spec fn text(self, left_nodes: Seq<Option<Seq<char>>>, left_edges: Seq<(usize, usize)>, left_labels: Seq<MachineLabelView>, right_nodes: Seq<Option<Seq<char>>>, right_edges: Seq<(usize, usize)>, right_labels: Seq<MachineLabelView>) -> Seq<char> {
        match self {
            Error::NonDeterministic(Side::Left, e) => "non-deterministic transition "@ + machine_edge_text::<Option<State>>(left_nodes, left_edges, left_labels, e) + " in the reference"@,
            Error::NonDeterministic(Side::Right, e) => "non-deterministic transition "@ + machine_edge_text::<Option<State>>(right_nodes, right_edges, right_labels, e),
            Error::MissingTransition(Side::Left, n, e) => "extraneous transition "@ + machine_edge_text::<Option<State>>(right_nodes, right_edges, right_labels, e) + " (reference state "@ + <Option<State> as Named>::named(left_nodes[n as int]) + ")"@,
            Error::MissingTransition(Side::Right, n, e) => "missing transition "@ + machine_edge_text::<Option<State>>(left_nodes, left_edges, left_labels, e) + " in state "@ + <Option<State> as Named>::named(right_nodes[n as int]),
        }
    }

    /// Writes the finding for a reader.
    pub fn convert(left: &OptionGraph, right: &OptionGraph, err: &Error) -> (r: String)
        requires
            left.wf(),
            right.wf(),
            err.fits(left.nodes().len(), right.nodes().len()),
        ensures
            r@ == err.text(left.nodes(), left.edges(), left.labels(), right.nodes(), right.edges(), right.labels()),
    {
        match err {
            Error::NonDeterministic(Side::Left, e) => {
                let mut out = String::from_str("non-deterministic transition ");
                let edge = print_machine_edge(left, *e);
                out.append(edge.as_str());
                out.append(" in the reference");
                out
            },
            Error::NonDeterministic(Side::Right, e) => {
                let mut out = String::from_str("non-deterministic transition ");
                let edge = print_machine_edge(right, *e);
                out.append(edge.as_str());
                out
            },
            Error::MissingTransition(Side::Left, n, e) => {
                let mut out = String::from_str("extraneous transition ");
                let edge = print_machine_edge(right, *e);
                out.append(edge.as_str());
                out.append(" (reference state ");
                out.append(left.node(*n).name().as_str());
                out.append(")");
                out
            },
            Error::MissingTransition(Side::Right, n, e) => {
                let mut out = String::from_str("missing transition ");
                let edge = print_machine_edge(left, *e);
                out.append(edge.as_str());
                out.append(" in state ");
                out.append(right.node(*n).name().as_str());
                out
            },
        }
    }
}

/// The names of the states of the first `upto` transitions of a machine,
/// each once, in the order in which they first occur.
pub open spec fn machine_nodes(ts: Seq<(MachineLabelView, Seq<char>, Seq<char>)>) -> Seq<Seq<char>> {
    crate::composition::composition_swarm::states_seen::<MachineLabel>(ts, ts.len() as int)
}

/// The graph of a machine and its initial node, if a transition names the
/// initial state. The nodes are the states in the order in which the
/// transitions first name them, and the edges are the transitions in their
/// order. No finding is made on the machine.
pub fn from_json(proto: MachineType) -> (r: (OptionGraph, Option<usize>, Vec<String>))
    ensures
        r.0.wf(),
        r.0.nodes() == Seq::new(machine_nodes(proto@.1).len(), |i: int| Some(machine_nodes(proto@.1)[i])),
        r.0.edges() == Seq::new(proto@.1.len(), |i: int| (pos_of(machine_nodes(proto@.1), proto@.1[i].1) as usize, pos_of(machine_nodes(proto@.1), proto@.1[i].2) as usize)),
        r.0.labels() == Seq::new(proto@.1.len(), |i: int| proto@.1[i].0),
        r.1 == if machine_nodes(proto@.1).contains(proto@.0) {
            Some(pos_of(machine_nodes(proto@.1), proto@.0) as usize)
        } else {
            None
        },
        r.1 is Some ==> r.1->0 < r.0.nodes().len(),
        r.2@.len() == 0,
{
    let mut graph: MachineGraph = Digraph::new();
    let mut nodes: OrdMap<State, usize> = OrdMap::new();
    let ghost ts = proto@.1;
    let mut k: usize = 0;
    while k < proto.transitions.len()
        invariant
            k <= proto.transitions.len(),
            ts == proto@.1,
            graph.wf(),
            nodes.wf(),
            graph.nodes().no_duplicates(),
            forall|q: Seq<char>| nodes.has(q) <==> graph.nodes().contains(q),
            forall|i: int| 0 <= i < graph.nodes().len() ==> nodes@[#[trigger] graph.nodes()[i]] == i,
            graph.nodes() == crate::composition::composition_swarm::states_seen::<MachineLabel>(ts, k as int),
            graph.edges().len() == k,
            graph.labels() == Seq::new(k as nat, |i: int| ts[i].0),
            forall|i: int| 0 <= i < k ==> {
                &&& (#[trigger] graph.edges()[i]).0 < graph.nodes().len()
                &&& graph.edges()[i].1 < graph.nodes().len()
                &&& graph.nodes()[graph.edges()[i].0 as int] == ts[i].1
                &&& graph.nodes()[graph.edges()[i].1 as int] == ts[i].2
            },
        decreases proto.transitions.len() - k,
    {
        let t = &proto.transitions[k];
        proof {
            assert(ts[k as int] == t@);
        }
        let ghost nodes0 = graph.nodes();
        let source = node_for(&mut graph, &mut nodes, &t.source);
        let ghost nodes1 = graph.nodes();
        proof {
            assert(nodes1 == with_new(nodes0, t.source@));
        }
        let target = node_for(&mut graph, &mut nodes, &t.target);
        let ghost nodes2 = graph.nodes();
        proof {
            assert(forall|i: int| 0 <= i < nodes0.len() ==> nodes1[i] == nodes0[i]);
            assert(forall|i: int| 0 <= i < nodes1.len() ==> nodes2[i] == nodes1[i]);
        }
        graph.add_edge(source, target, t.label.duplicate());
        proof {
            assert(graph.labels() =~= Seq::new((k + 1) as nat, |i: int| ts[i].0));
        }
        k += 1;
    }
    let initial = match nodes.get(&proto.initial) {
        Some(i) => Some(*i),
        None => None,
    };
    let machine = to_option_machine(&graph);
    proof {
        let names = machine_nodes(ts);
        assert(graph.nodes() == names);
        assert forall|i: int| 0 <= i < ts.len() implies graph.edges()[i] == (pos_of(names, ts[i].1) as usize, pos_of(names, ts[i].2) as usize) by {
            let e = graph.edges()[i];
            let a = pos_of(names, ts[i].1);
            let b = pos_of(names, ts[i].2);
            assert(names[e.0 as int] == ts[i].1);
            assert(names[e.1 as int] == ts[i].2);
            assert(0 <= a < names.len() && names[a] == ts[i].1);
            assert(0 <= b < names.len() && names[b] == ts[i].2);
        }
        assert(machine.edges() =~= Seq::new(ts.len(), |i: int| (pos_of(names, ts[i].1) as usize, pos_of(names, ts[i].2) as usize)));
        if names.contains(proto@.0) {
            let j = choose|j: int| 0 <= j < names.len() && names[j] == proto@.0;
            assert(nodes@[names[j]] == j);
            let a = pos_of(names, proto@.0);
            assert(0 <= a < names.len() && names[a] == proto@.0);
        }
    }
    (machine, initial, Vec::new())
}

/// A machine with every state named.
pub fn to_option_machine(graph: &MachineGraph) -> (r: OptionGraph)
    requires
        graph.wf(),
    ensures
        r.wf(),
        r.nodes() == Seq::new(graph.nodes().len(), |i: int| Some(graph.nodes()[i])),
        r.edges() == graph.edges(),
        r.labels() == graph.labels(),
{
    let mut nodes: Vec<Option<State>> = Vec::new();
    let count = graph.node_count();
    let mut n: usize = 0;
    while n < count
        invariant
            n <= count,
            count == graph.nodes().len(),
            graph.wf(),
            nodes@.len() == n,
            all_valid(nodes@),
            forall|i: int| 0 <= i < n ==> (#[trigger] nodes@[i]).key() == Some(graph.nodes()[i]),
        decreases count - n,
    {
        nodes.push(Some(graph.node(n).duplicate()));
        n += 1;
    }
    let r = graph.with_nodes(nodes);
    proof {
        assert(r.nodes() =~= Seq::new(graph.nodes().len(), |i: int| Some(graph.nodes()[i])));
    }
    r
}

/// A machine in which a state without a name has the empty name.
pub fn from_option_graph_to_graph(graph: &OptionGraph) -> (r: MachineGraph)
    requires
        graph.wf(),
    ensures
        r.wf(),
        r.nodes() == Seq::new(graph.nodes().len(), |i: int| <Option<State> as Named>::named(graph.nodes()[i])),
        r.edges() == graph.edges(),
        r.labels() == graph.labels(),
{
    let mut nodes: Vec<State> = Vec::new();
    let count = graph.node_count();
    let mut n: usize = 0;
    while n < count
        invariant
            n <= count,
            count == graph.nodes().len(),
            graph.wf(),
            nodes@.len() == n,
            forall|i: int| 0 <= i < n ==> (#[trigger] nodes@[i])@ == <Option<State> as Named>::named(graph.nodes()[i]),
        decreases count - n,
    {
        nodes.push(graph.node(n).name());
        n += 1;
    }
    let r = graph.with_nodes(nodes);
    proof {
        assert(r.nodes() =~= Seq::new(graph.nodes().len(), |i: int| <Option<State> as Named>::named(graph.nodes()[i])));
    }
    r
}

/// The transitions of a machine in their order, each between the names of
/// its states.
pub open spec fn machine_transitions<N: Named>(nodes: Seq<N::V>, edges: Seq<(usize, usize)>, labels: Seq<MachineLabelView>) -> Seq<(MachineLabelView, Seq<char>, Seq<char>)> {
    Seq::new(edges.len(), |e: int| (labels[e], N::named(nodes[edges[e].0 as int]), N::named(nodes[edges[e].1 as int])))
}

/// A machine as a list of transitions in their order, with the name of its
/// initial state.
pub fn machine_of<N: Named>(graph: &Digraph<N, MachineLabel>, initial: usize) -> (r: MachineType)
    requires
        graph.wf(),
        initial < graph.nodes().len(),
    ensures
        r@ == (N::named(graph.nodes()[initial as int]), machine_transitions::<N>(graph.nodes(), graph.edges(), graph.labels())),
{
    let mut transitions: Vec<Transition<MachineLabel>> = Vec::new();
    proof {
        graph.lemma_wf();
    }
    let count = graph.edge_count();
    let mut e: usize = 0;
    while e < count
        invariant
            e <= count,
            count == graph.edges().len(),
            graph.wf(),
            transitions@.len() == e,
            forall|k: int| 0 <= k < e ==> (#[trigger] transitions@[k])@ == (graph.labels()[k], N::named(graph.nodes()[graph.edges()[k].0 as int]), N::named(graph.nodes()[graph.edges()[k].1 as int])),
        decreases count - e,
    {
        let (a, b) = graph.endpoints(e);
        transitions.push(Transition { label: graph.label(e).duplicate(), source: graph.node(a).name(), target: graph.node(b).name() });
        e += 1;
    }
    let r = ProtocolType { initial: graph.node(initial).name(), transitions };
    proof {
        assert(r@.1 =~= machine_transitions::<N>(graph.nodes(), graph.edges(), graph.labels()));
    }
    r
}

} // verus!
