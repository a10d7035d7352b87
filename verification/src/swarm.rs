//! The findings on a single swarm protocol and how they read.
use crate::graph::Digraph;
use crate::names::Role;
use crate::order::Key;
use crate::types::{StateName, SwarmLabel};
use vstd::prelude::*;

verus! {

/// A finding on the shape of a protocol or on a subscription.
#[derive(Debug, Clone)]
pub enum Error {
    InitialStateDisconnected,
    StateUnreachable(usize),
    LogTypeEmpty(usize),
    ActiveRoleNotSubscribed(usize),
    LaterActiveRoleNotSubscribed(usize, Role),
}

/// What a finding stands for.
pub enum ErrorView {
    InitialStateDisconnected,
    StateUnreachable(usize),
    LogTypeEmpty(usize),
    ActiveRoleNotSubscribed(usize),
    LaterActiveRoleNotSubscribed(usize, Seq<char>),
}

/// The text `(source)--[label]-->(target)` of an edge of the graph, and a
/// fixed text for an index that is not an edge's.
pub open spec fn edge_text<N: StateName>(nodes: Seq<N::V>, edges: Seq<(usize, usize)>, labels: Seq<(Seq<char>, Seq<Seq<char>>, Seq<char>)>, e: usize) -> Seq<char> {
    if e < edges.len() {
        "("@ + N::name_of(nodes[edges[e as int].0 as int]) + ")--["@ + SwarmLabel::text(labels[e as int]) + "]-->("@ + N::name_of(nodes[edges[e as int].1 as int]) + ")"@
    } else {
        "[invalid EdgeId]"@
    }
}

/// Writes an edge of the graph as `(source)--[label]-->(target)`.
pub fn print_edge<N: StateName>(graph: &Digraph<N, SwarmLabel>, e: usize) -> (r: String)
    requires
        graph.wf(),
    ensures
        r@ == edge_text::<N>(graph.nodes(), graph.edges(), graph.labels(), e),
{
    if e >= graph.edge_count() {
        return String::from_str("[invalid EdgeId]");
    }
    let (a, b) = graph.endpoints(e);
    let mut out = String::from_str("(");
    out.append(graph.node(a).state_name().as_str());
    out.append(")--[");
    let label = graph.label(e).to_string();
    out.append(label.as_str());
    out.append("]-->(");
    out.append(graph.node(b).state_name().as_str());
    out.append(")");
    out
}

impl Error {
    pub open spec fn view(&self) -> ErrorView {
        match self {
            Error::InitialStateDisconnected => ErrorView::InitialStateDisconnected,
            Error::StateUnreachable(n) => ErrorView::StateUnreachable(*n),
            Error::LogTypeEmpty(e) => ErrorView::LogTypeEmpty(*e),
            Error::ActiveRoleNotSubscribed(e) => ErrorView::ActiveRoleNotSubscribed(*e),
            Error::LaterActiveRoleNotSubscribed(e, r) => ErrorView::LaterActiveRoleNotSubscribed(*e, r@),
        }
    }

    /// Whether each node that the finding names is one of a graph with so
    /// many nodes.
    pub open spec fn fits(e: ErrorView, nodes: nat) -> bool {
        match e {
            ErrorView::StateUnreachable(n) => n < nodes,
            _ => true,
        }
    }

    /// How a finding reads, with the transitions and states of the graph
    /// written out.
    pub open spec fn text<N: StateName>(e: ErrorView, nodes: Seq<N::V>, edges: Seq<(usize, usize)>, labels: Seq<(Seq<char>, Seq<Seq<char>>, Seq<char>)>) -> Seq<char> {
        match e {
            ErrorView::InitialStateDisconnected => "initial swarm protocol state has no transitions"@,
            ErrorView::StateUnreachable(n) => "state "@ + N::name_of(nodes[n as int]) + " is unreachable from initial state"@,
            ErrorView::LogTypeEmpty(e) => "log type must not be empty "@ + edge_text::<N>(nodes, edges, labels, e),
            ErrorView::ActiveRoleNotSubscribed(e) => "active role does not subscribe to any of its emitted event types in transition "@ + edge_text::<N>(nodes, edges, labels, e),
            ErrorView::LaterActiveRoleNotSubscribed(e, role) => "subsequently active role "@ + role + " does not subscribe to events in transition "@ + edge_text::<N>(nodes, edges, labels, e),
        }
    }

    /// Writes the finding for a reader, with the transitions and states of
    /// the graph written out.
    pub fn convert<N: StateName>(&self, graph: &Digraph<N, SwarmLabel>) -> (r: String)
        requires
            graph.wf(),
            Self::fits(self@, graph.nodes().len()),
        ensures
            r@ == Self::text::<N>(self@, graph.nodes(), graph.edges(), graph.labels()),
    {
        match self {
            Error::InitialStateDisconnected => String::from_str("initial swarm protocol state has no transitions"),
            Error::StateUnreachable(n) => {
                let mut out = String::from_str("state ");
                out.append(graph.node(*n).state_name().as_str());
                out.append(" is unreachable from initial state");
                out
            },
            Error::LogTypeEmpty(e) => {
                let mut out = String::from_str("log type must not be empty ");
                let edge = print_edge(graph, *e);
                out.append(edge.as_str());
                out
            },
            Error::ActiveRoleNotSubscribed(e) => {
                let mut out = String::from_str("active role does not subscribe to any of its emitted event types in transition ");
                let edge = print_edge(graph, *e);
                out.append(edge.as_str());
                out
            },
            Error::LaterActiveRoleNotSubscribed(e, role) => {
                let mut out = String::from_str("subsequently active role ");
                out.append(role.as_str());
                out.append(" does not subscribe to events in transition ");
                let edge = print_edge(graph, *e);
                out.append(edge.as_str());
                out
            },
        }
    }

    pub fn duplicate(&self) -> (r: Self)
        ensures
            r@ == self@,
    {
        match self {
            Error::InitialStateDisconnected => Error::InitialStateDisconnected,
            Error::StateUnreachable(n) => Error::StateUnreachable(*n),
            Error::LogTypeEmpty(e) => Error::LogTypeEmpty(*e),
            Error::ActiveRoleNotSubscribed(e) => Error::ActiveRoleNotSubscribed(*e),
            Error::LaterActiveRoleNotSubscribed(e, r) => Error::LaterActiveRoleNotSubscribed(*e, r.duplicate()),
        }
    }
}

} // verus!
