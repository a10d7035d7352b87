//! Swarm protocols and their composition: ingestion, the checks on a
//! composition and the subscriptions that make it well-formed.
use crate::graph::{Digraph, NO_NODE};
use crate::growth::until_stable;
use crate::composition::chains::{closure, cycles, graph_of, graph_upto, grown_from, has_edge, is_path, lemma_closure_by_table, lemma_upto_edge, lemma_upto_grows, on_cycle, path_in, paths};
use crate::composition::rounds::{lemma_succ_settles, lemma_exact_settles, lemma_finer_settles, lemma_finite_rules, lemma_two_step_settles, settled};
use crate::composition::confusion::lemma_confusion_found;
use crate::composition::keys::confusion_free_labels;
use crate::names::{join_names, texts, Command, EventType, Role, State};
use crate::order::{all_valid, duplicate_items, keys_of, same, Key};
use crate::swarm::{edge_text, print_edge};
use crate::text::{join_texts, joined, texts_of};
use crate::composition::composition_types::{Granularity, Subscriptions, lemma_union_take, union_of, InterfacingProtocols, ProtoInfoView, ProtoView, all_wf, labelled, pair_key, sets_view, unord_event_pair, EventLabel, ProtoInfo, ProtoStruct, RoleEventMap, SwarmGraph, SwarmProtocolType, UnordEventPair};
use crate::seqs::{fold, fold_upto, lemma_take_all, lemma_take_to_set};
use crate::ordmap::{map_add, map_push, set_at, OrdMap};
use crate::ordset::{sorted, OrdSet};
use crate::types::{ProtocolType, Transition};
use crate::topology::{dfs_order, dfs_order_reversed, dfs_post_order, edges_from, edges_into, unit_costs};
use crate::types::{StateName, SwarmLabel};
use vstd::prelude::*;

verus! {

/// A finding on a protocol, on an interface between protocols or on a
/// subscription.
#[derive(Debug, Clone)]
pub enum Error {
    SwarmError(crate::swarm::Error),
    SwarmErrorString(String),
    InvalidInterfaceRole(Role),
    InterfaceEventNotInBothProtocols(EventType),
    SpuriousInterface(Command, EventType, Role),
    EventTypeOnDifferentLabels(EventType, Command, Role, Command, Role),
    CommandOnDifferentLabels(Command, EventType, Role, EventType, Role),
    RoleNotSubscribedToBranch(Vec<EventType>, usize, usize, Role),
    RoleNotSubscribedToJoin(Vec<EventType>, usize, Role),
    LoopingError(usize, Vec<Role>),
    MoreThanOneEventTypeInCommand(usize),
    EventEmittedMultipleTimes(EventType, Vec<usize>),
    CommandOnMultipleTransitions(Command, Vec<usize>),
    StateCanNotReachTerminal(usize),
    InvalidArg,
}

/// What a finding stands for.
pub enum ErrorView {
    SwarmError(crate::swarm::ErrorView),
    SwarmErrorString(Seq<char>),
    InvalidInterfaceRole(Seq<char>),
    InterfaceEventNotInBothProtocols(Seq<char>),
    SpuriousInterface(Seq<char>, Seq<char>, Seq<char>),
    EventTypeOnDifferentLabels(Seq<char>, Seq<char>, Seq<char>, Seq<char>, Seq<char>),
    CommandOnDifferentLabels(Seq<char>, Seq<char>, Seq<char>, Seq<char>, Seq<char>),
    RoleNotSubscribedToBranch(Seq<Seq<char>>, usize, usize, Seq<char>),
    RoleNotSubscribedToJoin(Seq<Seq<char>>, usize, Seq<char>),
    LoopingError(usize, Seq<Seq<char>>),
    MoreThanOneEventTypeInCommand(usize),
    EventEmittedMultipleTimes(Seq<char>, Seq<usize>),
    CommandOnMultipleTransitions(Seq<char>, Seq<usize>),
    StateCanNotReachTerminal(usize),
    InvalidArg,
}

/// The texts of the edges with the given indices.
pub open spec fn edge_texts<N: StateName>(nodes: Seq<N::V>, edges: Seq<(usize, usize)>, labels: Seq<(Seq<char>, Seq<Seq<char>>, Seq<char>)>, ids: Seq<usize>) -> Seq<Seq<char>> {
    Seq::new(ids.len(), |i: int| edge_text::<N>(nodes, edges, labels, ids[i]))
}

/// Writes the edges with the given indices, with `, ` between them.
pub fn print_edges<N: StateName>(graph: &Digraph<N, SwarmLabel>, ids: &Vec<usize>) -> (r: String)
    requires
        graph.wf(),
    ensures
        r@ == joined(edge_texts::<N>(graph.nodes(), graph.edges(), graph.labels(), ids@), ", "@),
{
    let mut parts: Vec<String> = Vec::new();
    let mut i: usize = 0;
    while i < ids.len()
        invariant
            i <= ids.len(),
            graph.wf(),
            parts@.len() == i,
            forall|j: int| 0 <= j < i ==> (#[trigger] parts@[j])@ == edge_text::<N>(graph.nodes(), graph.edges(), graph.labels(), ids@[j]),
        decreases ids.len() - i,
    {
        parts.push(print_edge(graph, ids[i]));
        i += 1;
    }
    assert(texts_of(parts@) =~= edge_texts::<N>(graph.nodes(), graph.edges(), graph.labels(), ids@));
    join_texts(&parts, ", ")
}

impl Error {
    pub open spec fn view(&self) -> ErrorView {
        match self {
            Error::SwarmError(e) => ErrorView::SwarmError(e@),
            Error::SwarmErrorString(s) => ErrorView::SwarmErrorString(s@),
            Error::InvalidInterfaceRole(r) => ErrorView::InvalidInterfaceRole(r@),
            Error::InterfaceEventNotInBothProtocols(t) => ErrorView::InterfaceEventNotInBothProtocols(t@),
            Error::SpuriousInterface(c, t, r) => ErrorView::SpuriousInterface(c@, t@, r@),
            Error::EventTypeOnDifferentLabels(t, c1, r1, c2, r2) => ErrorView::EventTypeOnDifferentLabels(t@, c1@, r1@, c2@, r2@),
            Error::CommandOnDifferentLabels(c, t1, r1, t2, r2) => ErrorView::CommandOnDifferentLabels(c@, t1@, r1@, t2@, r2@),
            Error::RoleNotSubscribedToBranch(ts, e, n, r) => ErrorView::RoleNotSubscribedToBranch(keys_of(ts@), *e, *n, r@),
            Error::RoleNotSubscribedToJoin(ts, e, r) => ErrorView::RoleNotSubscribedToJoin(keys_of(ts@), *e, r@),
            Error::LoopingError(e, rs) => ErrorView::LoopingError(*e, keys_of(rs@)),
            Error::MoreThanOneEventTypeInCommand(e) => ErrorView::MoreThanOneEventTypeInCommand(*e),
            Error::EventEmittedMultipleTimes(t, es) => ErrorView::EventEmittedMultipleTimes(t@, es@),
            Error::CommandOnMultipleTransitions(c, es) => ErrorView::CommandOnMultipleTransitions(c@, es@),
            Error::StateCanNotReachTerminal(n) => ErrorView::StateCanNotReachTerminal(*n),
            Error::InvalidArg => ErrorView::InvalidArg,
        }
    }

    /// Whether each node that the finding names is one of a graph with so
    /// many nodes.
    pub open spec fn fits(e: ErrorView, nodes: nat) -> bool {
        match e {
            ErrorView::SwarmError(e) => crate::swarm::Error::fits(e, nodes),
            ErrorView::RoleNotSubscribedToBranch(_, _, n, _) => n < nodes,
            ErrorView::StateCanNotReachTerminal(n) => n < nodes,
            _ => true,
        }
    }

    /// How a finding reads, with the transitions and states of the graph
    /// written out.
    pub open spec fn text<N: StateName>(e: ErrorView, nodes: Seq<N::V>, edges: Seq<(usize, usize)>, labels: Seq<(Seq<char>, Seq<Seq<char>>, Seq<char>)>) -> Seq<char> {
        match e {
            ErrorView::SwarmError(e) => crate::swarm::Error::text::<N>(e, nodes, edges, labels),
            ErrorView::SwarmErrorString(s) => s,
            ErrorView::InvalidInterfaceRole(role) => "role "@ + role + " can not be used as interface"@,
            ErrorView::InterfaceEventNotInBothProtocols(t) => "event type "@ + t + " does not appear in both protocols"@,
            ErrorView::SpuriousInterface(c, t, r) => "Role "@ + r + " is not used as an interface, but the command "@ + c + " or the event type "@ + t + " appear in both protocols"@,
            ErrorView::EventTypeOnDifferentLabels(t, c1, r1, c2, r2) => "Event type "@ + t + " appears as "@ + c1 + "@"@ + r1 + "<"@ + t + "> and as "@ + c2 + "@"@ + r2 + "<"@ + t + ">"@,
            ErrorView::CommandOnDifferentLabels(c, t1, r1, t2, r2) => "Command "@ + c + " appears as "@ + c + "@"@ + r1 + "<"@ + t1 + "> and as "@ + c + "@"@ + r2 + "<"@ + t2 + ">"@,
            ErrorView::RoleNotSubscribedToBranch(ts, e, n, r) => "role "@ + r + " does not subscribe to event types "@ + joined(ts, ", "@) + " in branching transitions at state "@ + N::name_of(nodes[n as int]) + ", but is involved after transition "@ + edge_text::<N>(nodes, edges, labels, e),
            ErrorView::RoleNotSubscribedToJoin(ts, e, r) => "role "@ + r + " does not subscribe to event types "@ + joined(ts, ", "@) + " leading to or in joining event in transition "@ + edge_text::<N>(nodes, edges, labels, e),
            ErrorView::LoopingError(e, rs) => "transition "@ + edge_text::<N>(nodes, edges, labels, e) + " is part of loop that can not reach a terminal state, but no looping event type in the loop is subscribed to by roles "@ + joined(rs, ", "@) + " involved in the loop"@,
            ErrorView::MoreThanOneEventTypeInCommand(e) => "transition "@ + edge_text::<N>(nodes, edges, labels, e) + " emits more than one event type"@,
            ErrorView::EventEmittedMultipleTimes(t, es) => "event type "@ + t + " emitted in more than one transition: "@ + joined(edge_texts::<N>(nodes, edges, labels, es), ", "@),
            ErrorView::CommandOnMultipleTransitions(c, es) => "command "@ + c + " enabled in more than one transition: "@ + joined(edge_texts::<N>(nodes, edges, labels, es), ", "@),
            ErrorView::StateCanNotReachTerminal(n) => "state "@ + N::name_of(nodes[n as int]) + " can not reach terminal node"@,
            ErrorView::InvalidArg => "invalid argument"@,
        }
    }

    /// Writes the finding for a reader, with the transitions and states of
    /// the graph written out.
    pub fn to_string<N: StateName>(&self, graph: &Digraph<N, SwarmLabel>) -> (r: String)
        requires
            graph.wf(),
            Self::fits(self@, graph.nodes().len()),
        ensures
            r@ == Self::text::<N>(self@, graph.nodes(), graph.edges(), graph.labels()),
    {
        match self {
            Error::SwarmError(e) => e.convert(graph),
            Error::SwarmErrorString(s) => s.clone(),
            Error::InvalidInterfaceRole(role) => {
                let mut out = String::from_str("role ");
                out.append(role.as_str());
                out.append(" can not be used as interface");
                out
            },
            Error::InterfaceEventNotInBothProtocols(t) => {
                let mut out = String::from_str("event type ");
                out.append(t.as_str());
                out.append(" does not appear in both protocols");
                out
            },
            Error::SpuriousInterface(c, t, r) => {
                let mut out = String::from_str("Role ");
                out.append(r.as_str());
                out.append(" is not used as an interface, but the command ");
                out.append(c.as_str());
                out.append(" or the event type ");
                out.append(t.as_str());
                out.append(" appear in both protocols");
                out
            },
            Error::EventTypeOnDifferentLabels(t, c1, r1, c2, r2) => {
                let mut out = String::from_str("Event type ");
                out.append(t.as_str());
                out.append(" appears as ");
                out.append(c1.as_str());
                out.append("@");
                out.append(r1.as_str());
                out.append("<");
                out.append(t.as_str());
                out.append("> and as ");
                out.append(c2.as_str());
                out.append("@");
                out.append(r2.as_str());
                out.append("<");
                out.append(t.as_str());
                out.append(">");
                out
            },
            Error::CommandOnDifferentLabels(c, t1, r1, t2, r2) => {
                let mut out = String::from_str("Command ");
                out.append(c.as_str());
                out.append(" appears as ");
                out.append(c.as_str());
                out.append("@");
                out.append(r1.as_str());
                out.append("<");
                out.append(t1.as_str());
                out.append("> and as ");
                out.append(c.as_str());
                out.append("@");
                out.append(r2.as_str());
                out.append("<");
                out.append(t2.as_str());
                out.append(">");
                out
            },
            Error::RoleNotSubscribedToBranch(ts, e, n, r) => {
                let mut out = String::from_str("role ");
                out.append(r.as_str());
                out.append(" does not subscribe to event types ");
                let events = join_names(ts, ", ");
                assert(texts::<EventType>(keys_of(ts@)) =~= keys_of(ts@));
                out.append(events.as_str());
                out.append(" in branching transitions at state ");
                out.append(graph.node(*n).state_name().as_str());
                out.append(", but is involved after transition ");
                let edge = print_edge(graph, *e);
                out.append(edge.as_str());
                out
            },
            Error::RoleNotSubscribedToJoin(ts, e, r) => {
                let mut out = String::from_str("role ");
                out.append(r.as_str());
                out.append(" does not subscribe to event types ");
                let events = join_names(ts, ", ");
                assert(texts::<EventType>(keys_of(ts@)) =~= keys_of(ts@));
                out.append(events.as_str());
                out.append(" leading to or in joining event in transition ");
                let edge = print_edge(graph, *e);
                out.append(edge.as_str());
                out
            },
            Error::LoopingError(e, rs) => {
                let mut out = String::from_str("transition ");
                let edge = print_edge(graph, *e);
                out.append(edge.as_str());
                out.append(" is part of loop that can not reach a terminal state, but no looping event type in the loop is subscribed to by roles ");
                let roles = join_names(rs, ", ");
                assert(texts::<Role>(keys_of(rs@)) =~= keys_of(rs@));
                out.append(roles.as_str());
                out.append(" involved in the loop");
                out
            },
            Error::MoreThanOneEventTypeInCommand(e) => {
                let mut out = String::from_str("transition ");
                let edge = print_edge(graph, *e);
                out.append(edge.as_str());
                out.append(" emits more than one event type");
                out
            },
            Error::EventEmittedMultipleTimes(t, es) => {
                let mut out = String::from_str("event type ");
                out.append(t.as_str());
                out.append(" emitted in more than one transition: ");
                let edges = print_edges(graph, es);
                out.append(edges.as_str());
                out
            },
            Error::CommandOnMultipleTransitions(c, es) => {
                let mut out = String::from_str("command ");
                out.append(c.as_str());
                out.append(" enabled in more than one transition: ");
                let edges = print_edges(graph, es);
                out.append(edges.as_str());
                out
            },
            Error::StateCanNotReachTerminal(n) => {
                let mut out = String::from_str("state ");
                out.append(graph.node(*n).state_name().as_str());
                out.append(" can not reach terminal node");
                out
            },
            Error::InvalidArg => String::from_str("invalid argument"),
        }
    }

    /// Writes the finding for a reader, with the transitions and states of
    /// the graph written out.
    pub fn convert<N: StateName>(graph: &Digraph<N, SwarmLabel>, err: &Error) -> (r: String)
        requires
            graph.wf(),
            Self::fits(err@, graph.nodes().len()),
        ensures
            r@ == Self::text::<N>(err@, graph.nodes(), graph.edges(), graph.labels()),
    {
        err.to_string(graph)
    }

    pub fn duplicate(&self) -> (r: Self)
        ensures
            r@ == self@,
    {
        match self {
            Error::SwarmError(e) => Error::SwarmError(e.duplicate()),
            Error::SwarmErrorString(s) => Error::SwarmErrorString(s.clone()),
            Error::InvalidInterfaceRole(r) => Error::InvalidInterfaceRole(r.duplicate()),
            Error::InterfaceEventNotInBothProtocols(t) => Error::InterfaceEventNotInBothProtocols(t.duplicate()),
            Error::SpuriousInterface(c, t, r) => Error::SpuriousInterface(c.duplicate(), t.duplicate(), r.duplicate()),
            Error::EventTypeOnDifferentLabels(t, c1, r1, c2, r2) => Error::EventTypeOnDifferentLabels(t.duplicate(), c1.duplicate(), r1.duplicate(), c2.duplicate(), r2.duplicate()),
            Error::CommandOnDifferentLabels(c, t1, r1, t2, r2) => Error::CommandOnDifferentLabels(c.duplicate(), t1.duplicate(), r1.duplicate(), t2.duplicate(), r2.duplicate()),
            Error::RoleNotSubscribedToBranch(ts, e, n, r) => Error::RoleNotSubscribedToBranch(duplicate_items(ts), *e, *n, r.duplicate()),
            Error::RoleNotSubscribedToJoin(ts, e, r) => Error::RoleNotSubscribedToJoin(duplicate_items(ts), *e, r.duplicate()),
            Error::LoopingError(e, rs) => Error::LoopingError(*e, duplicate_items(rs)),
            Error::MoreThanOneEventTypeInCommand(e) => Error::MoreThanOneEventTypeInCommand(*e),
            Error::EventEmittedMultipleTimes(t, es) => Error::EventEmittedMultipleTimes(t.duplicate(), es.clone()),
            Error::CommandOnMultipleTransitions(c, es) => Error::CommandOnMultipleTransitions(c.duplicate(), es.clone()),
            Error::StateCanNotReachTerminal(n) => Error::StateCanNotReachTerminal(*n),
            Error::InvalidArg => Error::InvalidArg,
        }
    }
}

/// The findings of a list as mathematical values.
pub open spec fn errors_view(errors: Seq<Error>) -> Seq<ErrorView> {
    Seq::new(errors.len(), |i: int| errors[i]@)
}

/// Whether each finding of a list fits a graph with so many nodes.
pub open spec fn errors_fit(errors: Seq<Error>, nodes: nat) -> bool {
    forall|i: int| 0 <= i < errors.len() ==> Error::fits(#[trigger] errors[i]@, nodes)
}

/// A copy of a list of findings.
pub fn duplicate_errors(errors: &Vec<Error>) -> (r: Vec<Error>)
    ensures
        errors_view(r@) == errors_view(errors@),
{
    let mut r: Vec<Error> = Vec::new();
    let mut i: usize = 0;
    while i < errors.len()
        invariant
            i <= errors.len(),
            r@.len() == i,
            forall|j: int| 0 <= j < i ==> r@[j]@ == errors@[j]@,
        decreases errors.len() - i,
    {
        r.push(errors[i].duplicate());
        i += 1;
    }
    assert(errors_view(r@) =~= errors_view(errors@));
    r
}

/// A sequence with an item added at its end unless it holds the item.
pub open spec fn with_new<T>(s: Seq<T>, x: T) -> Seq<T> {
    if s.contains(x) {
        s
    } else {
        s.push(x)
    }
}

/// The names of the states of the first `upto` transitions, each once, in
/// the order in which they first occur, a source before its target.
pub open spec fn states_seen<L: Key>(ts: Seq<(L::V, Seq<char>, Seq<char>)>, upto: int) -> Seq<Seq<char>>
    decreases upto,
{
    if upto <= 0 {
        Seq::empty()
    } else {
        with_new(with_new(states_seen::<L>(ts, upto - 1), ts[upto - 1].1), ts[upto - 1].2)
    }
}

/// The position of a state's name among the names seen.
pub open spec fn state_index(names: Seq<Seq<char>>, name: Seq<char>) -> int {
    choose|i: int| 0 <= i < names.len() && names[i] == name
}

/// The index of the graph's node for a weight: weights are told apart by
/// `index`, which maps the key of each node to that node.
pub fn node_for<N: Key, E: Key>(graph: &mut Digraph<N, E>, index: &mut OrdMap<N, usize>, state: &N) -> (id: usize)
    requires
        old(graph).wf(),
        old(index).wf(),
        state.valid(),
        old(graph).nodes().no_duplicates(),
        forall|k: N::V| old(index).has(k) <==> old(graph).nodes().contains(k),
        forall|i: int| 0 <= i < old(graph).nodes().len() ==> old(index)@[#[trigger] old(graph).nodes()[i]] == i,
    ensures
        final(graph).wf(),
        final(index).wf(),
        final(graph).nodes() == with_new(old(graph).nodes(), state.key()),
        final(graph).edges() == old(graph).edges(),
        final(graph).labels() == old(graph).labels(),
        final(graph).nodes().no_duplicates(),
        forall|k: N::V| final(index).has(k) <==> final(graph).nodes().contains(k),
        forall|i: int| 0 <= i < final(graph).nodes().len() ==> final(index)@[#[trigger] final(graph).nodes()[i]] == i,
        id < final(graph).nodes().len(),
        final(graph).nodes()[id as int] == state.key(),
        id == pos_of(final(graph).nodes(), state.key()),
{
    match index.get(state) {
        Some(i) => {
            let id = *i;
            proof {
                let j = choose|j: int| 0 <= j < graph.nodes().len() && graph.nodes()[j] == state.key();
                assert(index@[graph.nodes()[j]] == j);
                let q = pos_of(graph.nodes(), state.key());
                assert(0 <= q < graph.nodes().len() && graph.nodes()[q] == state.key());
            }
            id
        },
        None => {
            let id = graph.add_node(state.duplicate());
            index.insert(state.duplicate(), id);
            proof {
                let old_nodes = old(graph).nodes();
                let new_nodes = graph.nodes();
                assert(new_nodes == old_nodes.push(state.key()));
                assert forall|k: N::V| index.has(k) <==> new_nodes.contains(k) by {
                    assert(index.has(k) == (old(index).has(k) || k == state.key()));
                    assert(old(index).has(k) <==> old_nodes.contains(k));
                    if new_nodes.contains(k) {
                        let j = choose|j: int| 0 <= j < new_nodes.len() && new_nodes[j] == k;
                        if j < old_nodes.len() {
                            assert(old_nodes[j] == k);
                            assert(old_nodes.contains(k));
                        }
                    }
                    if old_nodes.contains(k) {
                        let j = choose|j: int| 0 <= j < old_nodes.len() && old_nodes[j] == k;
                        assert(new_nodes[j] == k);
                    }
                    if k == state.key() {
                        assert(new_nodes[old_nodes.len() as int] == k);
                    }
                }
                assert forall|i: int| 0 <= i < new_nodes.len() implies index@[#[trigger] new_nodes[i]] == i by {
                    if i < old_nodes.len() {
                        assert(old_nodes[i] == new_nodes[i]);
                        assert(old_nodes.contains(old_nodes[i]));
                    }
                }
                assert forall|i: int, j: int| 0 <= i < new_nodes.len() && 0 <= j < new_nodes.len() && i != j implies new_nodes[i] != new_nodes[j] by {
                    if i < old_nodes.len() {
                        assert(old_nodes.contains(old_nodes[i]));
                    }
                    if j < old_nodes.len() {
                        assert(old_nodes.contains(old_nodes[j]));
                    }
                }
                assert(new_nodes[id as int] == state.key());
                let q = pos_of(new_nodes, state.key());
                assert(0 <= q < new_nodes.len() && new_nodes[q] == state.key());
            }
            id
        },
    }
}

/// The position of an item in a sequence that holds it.
pub open spec fn pos_of<T>(s: Seq<T>, x: T) -> int {
    choose|i: int| 0 <= i < s.len() && s[i] == x
}

/// The findings on the logs of the first `upto` transitions: an empty log
/// and a log of more than one event type, each with the transition's index.
pub open spec fn log_errors(ts: Seq<((Seq<char>, Seq<Seq<char>>, Seq<char>), Seq<char>, Seq<char>)>, upto: int) -> Seq<ErrorView>
    decreases upto,
{
    if upto <= 0 {
        Seq::empty()
    } else {
        let before = log_errors(ts, upto - 1);
        let log = ts[upto - 1].0.1;
        if log.len() == 0 {
            before.push(ErrorView::SwarmError(crate::swarm::ErrorView::LogTypeEmpty((upto - 1) as usize)))
        } else if log.len() > 1 {
            before.push(ErrorView::MoreThanOneEventTypeInCommand((upto - 1) as usize))
        } else {
            before
        }
    }
}

/// A finding for each of the first `upto` nodes that the walk did not reach.
pub open spec fn unreachable_errors(reached: Seq<usize>, upto: int) -> Seq<ErrorView>
    decreases upto,
{
    if upto <= 0 {
        Seq::empty()
    } else {
        let before = unreachable_errors(reached, upto - 1);
        if reached.contains((upto - 1) as usize) {
            before
        } else {
            before.push(ErrorView::SwarmError(crate::swarm::ErrorView::StateUnreachable((upto - 1) as usize)))
        }
    }
}

/// A node is found unreachable among the first nodes exactly if it is one
/// of them and the walk does not hold it.
pub proof fn lemma_unreachable(reached: Seq<usize>, upto: int, n: usize)
    requires
        0 <= upto <= usize::MAX,
    ensures
        unreachable_errors(reached, upto).contains(ErrorView::SwarmError(crate::swarm::ErrorView::StateUnreachable(n))) <==> n < upto && !reached.contains(n),
    decreases upto,
{
    let want = ErrorView::SwarmError(crate::swarm::ErrorView::StateUnreachable(n));
    if upto > 0 {
        lemma_unreachable(reached, upto - 1, n);
        let before = unreachable_errors(reached, upto - 1);
        let after = unreachable_errors(reached, upto);
        if reached.contains((upto - 1) as usize) {
        } else {
            let last = ErrorView::SwarmError(crate::swarm::ErrorView::StateUnreachable((upto - 1) as usize));
            assert(after == before.push(last));
            if after.contains(want) {
                let i = choose|i: int| 0 <= i < after.len() && after[i] == want;
                if i < before.len() {
                    assert(before[i] == want);
                }
            }
            if before.contains(want) {
                let i = choose|i: int| 0 <= i < before.len() && before[i] == want;
                assert(after[i] == want);
            }
            if n == (upto - 1) as usize {
                assert(after[before.len() as int] == want);
            }
        }
    }
}

/// The states that a depth-first search from the initial state does not
/// reach, each as a finding, in the order of the nodes: a state is found
/// exactly if it is not the initial state and no path leads to it from
/// there.
pub fn all_nodes_reachable(graph: &SwarmGraph, initial: usize) -> (errors: Vec<Error>)
    requires
        graph.wf(),
        initial < graph.nodes().len(),
    ensures
        errors_view(errors@) == unreachable_errors(dfs_order(graph.nodes().len(), graph.edges(), initial), graph.nodes().len() as int),
        errors_fit(errors@, graph.nodes().len()),
        forall|n: usize| #[trigger] errors_view(errors@).contains(ErrorView::SwarmError(crate::swarm::ErrorView::StateUnreachable(n))) <==> n < graph.nodes().len() && n != initial && !crate::topology::connected(graph.edges(), initial, n),
{
    let order = graph.dfs(initial);
    let visited: OrdSet<usize> = OrdSet::from_vec(&order);
    proof {
        assert(keys_of(order@) =~= order@);
        graph.lemma_wf();
        assert forall|n: usize| #[trigger] unreachable_errors(order@, graph.nodes().len() as int).contains(ErrorView::SwarmError(crate::swarm::ErrorView::StateUnreachable(n))) <==> n < graph.nodes().len() && n != initial && !crate::topology::connected(graph.edges(), initial, n) by {
            lemma_unreachable(order@, graph.nodes().len() as int, n);
            assert(order@.contains(n) <==> n == initial || crate::topology::connected(graph.edges(), initial, n));
        }
    }
    let mut errors: Vec<Error> = Vec::new();
    let mut n: usize = 0;
    while n < graph.node_count()
        invariant
            n <= graph.nodes().len(),
            visited.wf(),
            visited@ == order@.to_set(),
            errors_view(errors@) == unreachable_errors(order@, n as int),
            errors_fit(errors@, graph.nodes().len()),
        decreases graph.nodes().len() - n,
    {
        if !visited.contains(&n) {
            errors.push(Error::SwarmError(crate::swarm::Error::StateUnreachable(n)));
            assert(errors_view(errors@) =~= unreachable_errors(order@, n as int).push(ErrorView::SwarmError(crate::swarm::ErrorView::StateUnreachable(n))));
        }
        n += 1;
    }
    errors
}

/// The graph of a protocol, its initial node if the initial state occurs in
/// a transition, and the findings on its shape.
///
/// The nodes are the states in the order in which the transitions first name
/// them, and the edges are the transitions in their order. The findings are
/// those on the logs and then either those on states that the initial state
/// does not reach or, where no transition names the initial state, that one.
pub fn swarm_to_graph(proto: &SwarmProtocolType) -> (r: (SwarmGraph, Option<usize>, Vec<Error>))
    ensures
        r.0.wf(),
        r.0.nodes() == states_seen::<SwarmLabel>(proto@.1, proto@.1.len() as int),
        r.0.nodes().no_duplicates(),
        r.0.edges().len() == proto@.1.len(),
        forall|i: int| 0 <= i < proto@.1.len() ==> {
            &&& r.0.nodes()[(#[trigger] r.0.edges()[i]).0 as int] == proto@.1[i].1
            &&& r.0.nodes()[r.0.edges()[i].1 as int] == proto@.1[i].2
        },
        r.0.labels() == Seq::new(proto@.1.len(), |i: int| proto@.1[i].0),
        match r.1 {
            Some(i) => i < r.0.nodes().len() && r.0.nodes()[i as int] == proto@.0,
            None => !r.0.nodes().contains(proto@.0),
        },
        errors_view(r.2@) == log_errors(proto@.1, proto@.1.len() as int) + (match r.1 {
            Some(i) => unreachable_errors(dfs_order(r.0.nodes().len(), r.0.edges(), i), r.0.nodes().len() as int),
            None => seq![ErrorView::SwarmError(crate::swarm::ErrorView::InitialStateDisconnected)],
        }),
        errors_fit(r.2@, r.0.nodes().len()),
{
    let mut graph: SwarmGraph = Digraph::new();
    let mut errors: Vec<Error> = Vec::new();
    let mut nodes: OrdMap<State, usize> = OrdMap::new();
    let ghost ts = proto@.1;
    let mut k: usize = 0;
    while k < proto.transitions.len()
        invariant
            k <= proto.transitions.len(),
            ts == proto@.1,
            graph.wf(),
            nodes.wf(),
            graph.nodes().no_duplicates(),
            forall|q: Seq<char>| nodes.has(q) <==> graph.nodes().contains(q),
            forall|i: int| 0 <= i < graph.nodes().len() ==> nodes@[#[trigger] graph.nodes()[i]] == i,
            graph.nodes() == states_seen::<SwarmLabel>(ts, k as int),
            graph.edges().len() == k,
            graph.labels() == Seq::new(k as nat, |i: int| ts[i].0),
            forall|i: int| 0 <= i < k ==> {
                &&& (#[trigger] graph.edges()[i]).0 < graph.nodes().len()
                &&& graph.edges()[i].1 < graph.nodes().len()
                &&& graph.nodes()[graph.edges()[i].0 as int] == ts[i].1
                &&& graph.nodes()[graph.edges()[i].1 as int] == ts[i].2
            },
            errors_view(errors@) == log_errors(ts, k as int),
            errors_fit(errors@, 0),
        decreases proto.transitions.len() - k,
    {
        let t = &proto.transitions[k];
        proof {
            assert(ts[k as int] == t@);
        }
        let ghost nodes0 = graph.nodes();
        let source = node_for(&mut graph, &mut nodes, &t.source);
        let ghost nodes1 = graph.nodes();
        proof {
            assert(nodes1 == with_new(nodes0, t.source@));
        }
        let target = node_for(&mut graph, &mut nodes, &t.target);
        let ghost nodes2 = graph.nodes();
        proof {
            assert(forall|i: int| 0 <= i < nodes0.len() ==> nodes1[i] == nodes0[i]);
            assert(forall|i: int| 0 <= i < nodes1.len() ==> nodes2[i] == nodes1[i]);
        }
        let ghost old_labels = graph.labels();
        let edge = graph.add_edge(source, target, t.label.duplicate());
        proof {
            assert(graph.labels() =~= Seq::new((k + 1) as nat, |i: int| ts[i].0));
        }
        if t.label.log_type.len() == 0 {
            errors.push(Error::SwarmError(crate::swarm::Error::LogTypeEmpty(edge)));
            assert(errors_view(errors@) =~= log_errors(ts, k as int).push(ErrorView::SwarmError(crate::swarm::ErrorView::LogTypeEmpty(k))));
        } else if t.label.log_type.len() > 1 {
            errors.push(Error::MoreThanOneEventTypeInCommand(edge));
            assert(errors_view(errors@) =~= log_errors(ts, k as int).push(ErrorView::MoreThanOneEventTypeInCommand(k)));
        }
        k += 1;
    }
    let ghost shape = errors_view(errors@);
    match nodes.get(&proto.initial) {
        Some(idx) => {
            let idx = *idx;
            proof {
                let j = choose|j: int| 0 <= j < graph.nodes().len() && graph.nodes()[j] == proto.initial@;
                assert(nodes@[graph.nodes()[j]] == j);
            }
            let mut more = all_nodes_reachable(&graph, idx);
            let ghost more_view = errors_view(more@);
            let ghost old_errors = errors@;
            let ghost more_seq = more@;
            errors.append(&mut more);
            proof {
                assert(errors@ =~= old_errors + more_seq);
                assert(errors_view(errors@) =~= shape + more_view);
            }
            (graph, Some(idx), errors)
        },
        None => {
            errors.push(Error::SwarmError(crate::swarm::Error::InitialStateDisconnected));
            proof {
                assert(errors_view(errors@) =~= shape + seq![ErrorView::SwarmError(crate::swarm::ErrorView::InitialStateDisconnected)]);
            }
            (graph, None, errors)
        },
    }
}

/// What a swarm label stands for: command, log and role.
pub type LabelKey = (Seq<char>, Seq<Seq<char>>, Seq<char>);

/// For each event type the event types that follow it.
pub type SuccMap = Map<Seq<char>, Set<Seq<char>>>;

/// The event type of an edge.
pub open spec fn event_at(labels: Seq<LabelKey>, e: usize) -> Seq<char> {
    labels[e as int].1[0]
}

/// Whether every index of a list is below a bound.
pub open spec fn ids_in(ids: Seq<usize>, n: nat) -> bool {
    forall|i: int| 0 <= i < ids.len() ==> #[trigger] ids[i] < n
}

/// The event types of the edges of a list, in its order.
pub open spec fn edge_events(labels: Seq<LabelKey>, ids: Seq<usize>) -> Seq<Seq<char>> {
    Seq::new(ids.len(), |i: int| event_at(labels, ids[i]))
}

/// The targets of the edges of a list, in its order.
pub open spec fn edge_targets(edges: Seq<(usize, usize)>, ids: Seq<usize>) -> Seq<usize> {
    Seq::new(ids.len(), |i: int| edges[ids[i] as int].1)
}

/// The set of the event types of some edges of a graph.
pub fn event_types_of(graph: &SwarmGraph, ids: &Vec<usize>) -> (r: OrdSet<EventType>)
    requires
        graph.wf(),
        labelled(graph.labels()),
        ids_in(ids@, graph.edges().len()),
    ensures
        r.wf(),
        r@ == edge_events(graph.labels(), ids@).to_set(),
{
    let mut r: OrdSet<EventType> = OrdSet::new();
    let ghost evs = edge_events(graph.labels(), ids@);
    proof {
        lemma_take_all(evs);
        graph.lemma_wf();
    }
    let mut i: usize = 0;
    while i < ids.len()
        invariant
            i <= ids.len(),
            graph.wf(),
            labelled(graph.labels()),
            ids_in(ids@, graph.edges().len()),
            graph.edges().len() == graph.labels().len(),
            r.wf(),
            evs == edge_events(graph.labels(), ids@),
            r@ == evs.take(i as int).to_set(),
        decreases ids.len() - i,
    {
        let et = graph.label(ids[i]).get_event_type();
        r.insert(et);
        proof {
            lemma_take_to_set(evs, i as int);
        }
        i += 1;
    }
    r
}

/// The set of the nodes that a node's outgoing edges lead to.
pub fn direct_successors(graph: &SwarmGraph, node: usize) -> (r: OrdSet<usize>)
    requires
        graph.wf(),
        node < graph.nodes().len(),
    ensures
        r.wf(),
        r@ == edge_targets(graph.edges(), edges_from(graph.edges(), node)).to_set(),
{
    let ids = graph.out_edges(node);
    let mut r: OrdSet<usize> = OrdSet::new();
    let ghost ts = edge_targets(graph.edges(), ids@);
    proof {
        lemma_take_all(ts);
    }
    let mut i: usize = 0;
    while i < ids.len()
        invariant
            i <= ids.len(),
            graph.wf(),
            ids_in(ids@, graph.edges().len()),
            r.wf(),
            ts == edge_targets(graph.edges(), ids@),
            r@ == ts.take(i as int).to_set(),
        decreases ids.len() - i,
    {
        let t = graph.target(ids[i]);
        r.insert(t);
        proof {
            lemma_take_to_set(ts, i as int);
        }
        i += 1;
    }
    r
}

/// Whether two event types are not known to be concurrent.
pub open spec fn not_concurrent(conc: Set<Seq<Seq<char>>>, a: Seq<char>, b: Seq<char>) -> bool {
    !conc.contains(pair_key(a, b))
}

/// Takes in an edge: its label is kept unless its event type is concurrent
/// with the given one.
pub open spec fn active_step(labels: Seq<LabelKey>, et: Seq<char>, conc: Set<Seq<Seq<char>>>) -> spec_fn(Seq<LabelKey>, usize) -> Seq<LabelKey> {
    |acc: Seq<LabelKey>, e: usize|
        if not_concurrent(conc, et, event_at(labels, e)) {
            acc.push(labels[e as int])
        } else {
            acc
        }
}

/// The labels of the edges that leave a node and whose event types are not
/// concurrent with the given one, the edge added last first.
pub open spec fn active_not_conc(edges: Seq<(usize, usize)>, labels: Seq<LabelKey>, node: usize, et: Seq<char>, conc: Set<Seq<Seq<char>>>) -> Seq<LabelKey> {
    fold(edges_from(edges, node), Seq::<LabelKey>::empty(), active_step(labels, et, conc))
}

/// Folding edges with `active_step` keeps labels of the graph.
pub proof fn lemma_active_labelled(ids: Seq<usize>, labels: Seq<LabelKey>, et: Seq<char>, conc: Set<Seq<Seq<char>>>, upto: int)
    requires
        labelled(labels),
        ids_in(ids, labels.len()),
        0 <= upto <= ids.len(),
    ensures
        labelled(fold_upto(ids, Seq::<LabelKey>::empty(), active_step(labels, et, conc), upto)),
    decreases upto,
{
    if upto > 0 {
        lemma_active_labelled(ids, labels, et, conc, upto - 1);
    }
}

/// The labels of the transitions that leave a node and whose event types are
/// not concurrent with the given one.
pub fn active_transitions_not_conc(node: usize, graph: &SwarmGraph, event_type: &EventType, concurrent_events: &OrdSet<UnordEventPair>) -> (r: Vec<SwarmLabel>)
    requires
        graph.wf(),
        labelled(graph.labels()),
        node < graph.nodes().len(),
        concurrent_events.wf(),
    ensures
        keys_of(r@) == active_not_conc(graph.edges(), graph.labels(), node, event_type@, concurrent_events@),
        labelled(keys_of(r@)),
{
    let ids = graph.out_edges(node);
    let mut r: Vec<SwarmLabel> = Vec::new();
    let ghost step = active_step(graph.labels(), event_type@, concurrent_events@);
    proof {
        graph.lemma_wf();
    }
    let mut i: usize = 0;
    while i < ids.len()
        invariant
            i <= ids.len(),
            graph.wf(),
            labelled(graph.labels()),
            graph.edges().len() == graph.labels().len(),
            ids_in(ids@, graph.edges().len()),
            concurrent_events.wf(),
            step == active_step(graph.labels(), event_type@, concurrent_events@),
            keys_of(r@) == fold_upto(ids@, Seq::<LabelKey>::empty(), step, i as int),
        decreases ids.len() - i,
    {
        let label = graph.label(ids[i]);
        let pair = unord_event_pair(event_type.duplicate(), label.get_event_type());
        if !concurrent_events.contains(&pair) {
            let ghost before = keys_of(r@);
            r.push(label.duplicate());
            assert(keys_of(r@) =~= before.push(label.key()));
        }
        i += 1;
    }
    proof {
        lemma_active_labelled(ids@, graph.labels(), event_type@, concurrent_events@, ids@.len() as int);
    }
    r
}

/// The event types that follow an event type according to a map.
pub open spec fn succ_of(m: SuccMap, e: Seq<char>) -> Set<Seq<char>> {
    if m.dom().contains(e) {
        m[e]
    } else {
        Set::empty()
    }
}

/// The event types of the first `upto` labels with all that follow them.
pub open spec fn with_successors(m: SuccMap, act: Seq<LabelKey>, upto: int) -> Set<Seq<char>> {
    Set::new(|x: Seq<char>| exists|i: int| 0 <= i < upto && i < act.len() && (#[trigger] act[i].1[0] == x || succ_of(m, act[i].1[0]).contains(x)))
}

/// Takes in an edge: its event type is followed by the event types of the
/// transitions that leave the edge's target and are not concurrent with it,
/// and by all that follow those. The flag falls when this is news.
pub open spec fn succ_edge_step(edges: Seq<(usize, usize)>, labels: Seq<LabelKey>, conc: Set<Seq<Seq<char>>>) -> spec_fn((SuccMap, bool), usize) -> (SuccMap, bool) {
    |st: (SuccMap, bool), e: usize|
        {
            let et = event_at(labels, e);
            let act = active_not_conc(edges, labels, edges[e as int].1, et, conc);
            let add = with_successors(st.0, act, act.len() as int);
            if st.0.dom().contains(et) && add.subset_of(st.0[et]) {
                st
            } else {
                (st.0.insert(et, succ_of(st.0, et).union(add)), false)
            }
        }
}

/// Takes in a node: each edge that leaves it, the one added last first.
pub open spec fn succ_node_step(edges: Seq<(usize, usize)>, labels: Seq<LabelKey>, conc: Set<Seq<Seq<char>>>) -> spec_fn((SuccMap, bool), usize) -> (SuccMap, bool) {
    |st: (SuccMap, bool), n: usize| fold(edges_from(edges, n), st, succ_edge_step(edges, labels, conc))
}

/// One round over the graph in the order in which a depth-first search from
/// the initial node finishes the nodes: the map after it, and whether the
/// round brought nothing new.
pub open spec fn succ_round(nodes: nat, edges: Seq<(usize, usize)>, labels: Seq<LabelKey>, initial: usize, conc: Set<Seq<Seq<char>>>, m: SuccMap) -> (SuccMap, bool) {
    if initial >= nodes {
        (m, true)
    } else {
        fold(dfs_post_order(nodes, edges, initial), (m, true), succ_node_step(edges, labels, conc))
    }
}

/// One round of `after_not_concurrent`: says whether it brought nothing new.
pub fn after_not_concurrent_step(graph: &SwarmGraph, initial: usize, concurrent_events: &OrdSet<UnordEventPair>, succ_map: &mut OrdMap<EventType, OrdSet<EventType>>) -> (is_stable: bool)
    requires
        graph.wf(),
        labelled(graph.labels()),
        concurrent_events.wf(),
        old(succ_map).wf_sets(),
    ensures
        final(succ_map).wf_sets(),
        (final(succ_map).sets(), is_stable) == succ_round(graph.nodes().len(), graph.edges(), graph.labels(), initial, concurrent_events@, old(succ_map).sets()),
{
    if initial >= graph.node_count() {
        return true;
    }
    let mut is_stable = true;
    let walk = graph.dfs_post(initial);
    let ghost node_step = succ_node_step(graph.edges(), graph.labels(), concurrent_events@);
    let ghost edge_step = succ_edge_step(graph.edges(), graph.labels(), concurrent_events@);
    let ghost start = (old(succ_map).sets(), true);
    proof {
        graph.lemma_wf();
    }
    let mut w: usize = 0;
    while w < walk.len()
        invariant
            w <= walk.len(),
            graph.wf(),
            labelled(graph.labels()),
            graph.edges().len() == graph.labels().len(),
            concurrent_events.wf(),
            succ_map.wf_sets(),
            ids_in(walk@, graph.nodes().len()),
            node_step == succ_node_step(graph.edges(), graph.labels(), concurrent_events@),
            edge_step == succ_edge_step(graph.edges(), graph.labels(), concurrent_events@),
            (succ_map.sets(), is_stable) == fold_upto(walk@, start, node_step, w as int),
        decreases walk.len() - w,
    {
        let node = walk[w];
        let ids = graph.out_edges(node);
        let ghost at_node = (succ_map.sets(), is_stable);
        let mut i: usize = 0;
        while i < ids.len()
            invariant
                i <= ids.len(),
                graph.wf(),
                labelled(graph.labels()),
                graph.edges().len() == graph.labels().len(),
                concurrent_events.wf(),
                succ_map.wf_sets(),
                ids_in(ids@, graph.edges().len()),
                edge_step == succ_edge_step(graph.edges(), graph.labels(), concurrent_events@),
                (succ_map.sets(), is_stable) == fold_upto(ids@, at_node, edge_step, i as int),
            decreases ids.len() - i,
        {
            let e = ids[i];
            let event_type = graph.label(e).get_event_type();
            let target = graph.target(e);
            let active = active_transitions_not_conc(target, graph, &event_type, concurrent_events);
            let ghost act = keys_of(active@);
            let ghost m = succ_map.sets();
            let mut succ_events: OrdSet<EventType> = OrdSet::new();
            let mut a: usize = 0;
            while a < active.len()
                invariant
                    a <= active.len(),
                    act == keys_of(active@),
                    labelled(act),
                    succ_map.wf_sets(),
                    m == succ_map.sets(),
                    succ_events.wf(),
                    succ_events@ == with_successors(m, act, a as int),
                decreases active.len() - a,
            {
                proof {
                    assert(act[a as int] == active@[a as int].key());
                }
                let t = active[a].get_event_type();
                let ghost before = succ_events@;
                proof {
                    succ_map.lemma_wf_sets();
                }
                match succ_map.get(&t) {
                    Some(after_t) => {
                        succ_events.extend(after_t);
                    },
                    None => {},
                }
                succ_events.insert(t);
                proof {
                    let now = with_successors(m, act, a as int + 1);
                    assert forall|x: Seq<char>| succ_events@.contains(x) <==> now.contains(x) by {
                        if before.contains(x) {
                            let i0 = choose|i0: int| 0 <= i0 < a && i0 < act.len() && (#[trigger] act[i0].1[0] == x || succ_of(m, act[i0].1[0]).contains(x));
                            assert(0 <= i0 < a + 1 && (act[i0].1[0] == x || succ_of(m, act[i0].1[0]).contains(x)));
                        }
                        if x == act[a as int].1[0] || succ_of(m, act[a as int].1[0]).contains(x) {
                            assert(0 <= a < a + 1 && (act[a as int].1[0] == x || succ_of(m, act[a as int].1[0]).contains(x)));
                        }
                        if now.contains(x) {
                            let i0 = choose|i0: int| 0 <= i0 < a + 1 && i0 < act.len() && (#[trigger] act[i0].1[0] == x || succ_of(m, act[i0].1[0]).contains(x));
                            if i0 < a {
                                assert(before.contains(x));
                            }
                        }
                    }
                    assert(succ_events@ =~= now);
                }
                a += 1;
            }
            let unchanged = succ_map.add_all(&event_type, &succ_events);
            if !unchanged {
                is_stable = false;
            }
            proof {
                let add = with_successors(m, act, act.len() as int);
                assert(m.dom().contains(event_type@) ==> m[event_type@] == succ_of(m, event_type@));
            }
            i += 1;
        }
        w += 1;
    }
    is_stable
}

/// A round of `after_not_concurrent`, as a map from the map before it to
/// the map after it and whether nothing was new.
pub open spec fn succ_round_of(nodes: nat, edges: Seq<(usize, usize)>, labels: Seq<LabelKey>, initial: usize, conc: Set<Seq<Seq<char>>>) -> spec_fn(SuccMap) -> (SuccMap, bool) {
    |m: SuccMap| succ_round(nodes, edges, labels, initial, conc, m)
}

/// The rounds of `after_not_concurrent` from a map on: until a round brings
/// nothing new, and no more rounds than `fuel`.
pub open spec fn succ_rounds(nodes: nat, edges: Seq<(usize, usize)>, labels: Seq<LabelKey>, initial: usize, conc: Set<Seq<Seq<char>>>, m: SuccMap, fuel: nat) -> SuccMap {
    until_stable(succ_round_of(nodes, edges, labels, initial, conc), m, fuel)
}

/// The number of rounds after which `after_not_concurrent` has stopped at
/// the latest: each round before the last tells of an event type of an
/// edge that it is followed, or by which event type of an edge.
pub open spec fn succ_fuel(edges: Seq<(usize, usize)>) -> nat {
    edges.len() * (edges.len() + 1) + 1
}

/// For each event type of the graph the event types that can be emitted
/// after it and are not concurrent with it: those of the transitions that
/// follow directly, and all that follow those.
pub fn after_not_concurrent(graph: &SwarmGraph, initial: usize, concurrent_events: &OrdSet<UnordEventPair>) -> (succ_map: OrdMap<EventType, OrdSet<EventType>>)
    requires
        graph.wf(),
        labelled(graph.labels()),
        concurrent_events.wf(),
    ensures
        succ_map.wf_sets(),
        succ_map.sets() == succ_rounds(graph.nodes().len(), graph.edges(), graph.labels(), initial, concurrent_events@, Map::empty(), succ_fuel(graph.edges())),
        settled(succ_round_of(graph.nodes().len(), graph.edges(), graph.labels(), initial, concurrent_events@), succ_map.sets()),
{
    let mut succ_map: OrdMap<EventType, OrdSet<EventType>> = OrdMap::new();
    let n: u128 = graph.edge_count() as u128;
    assert(n * (n + 1) + 1 <= u128::MAX) by (nonlinear_arith)
        requires
            n <= 0xffff_ffff_ffff_ffff,
    ;
    let mut fuel: u128 = n * (n + 1) + 1;
    proof {
        assert(succ_map.sets() =~= Map::<Seq<char>, Set<Seq<char>>>::empty());
        graph.lemma_wf();
        lemma_succ_settles(graph.nodes().len(), graph.edges(), graph.labels(), initial, concurrent_events@);
    }
    while fuel > 0
        invariant
            graph.wf(),
            labelled(graph.labels()),
            concurrent_events.wf(),
            succ_map.wf_sets(),
            succ_rounds(graph.nodes().len(), graph.edges(), graph.labels(), initial, concurrent_events@, Map::empty(), succ_fuel(graph.edges())) == succ_rounds(graph.nodes().len(), graph.edges(), graph.labels(), initial, concurrent_events@, succ_map.sets(), fuel as nat),
            settled(succ_round_of(graph.nodes().len(), graph.edges(), graph.labels(), initial, concurrent_events@), succ_rounds(graph.nodes().len(), graph.edges(), graph.labels(), initial, concurrent_events@, Map::empty(), succ_fuel(graph.edges()))),
        decreases fuel,
    {
        let is_stable = after_not_concurrent_step(graph, initial, concurrent_events, &mut succ_map);
        if is_stable {
            return succ_map;
        }
        fuel -= 1;
    }
    succ_map
}

/// The indices below a bound, in increasing order.
pub open spec fn indices(n: nat) -> Seq<usize> {
    Seq::new(n, |i: int| i as usize)
}

/// Takes in a node: if no edge leaves it, all nodes that a depth-first
/// search against the edges reaches from it join the set.
pub open spec fn terminal_step(nodes: nat, edges: Seq<(usize, usize)>) -> spec_fn(Set<usize>, usize) -> Set<usize> {
    |acc: Set<usize>, n: usize|
        if edges_from(edges, n).len() == 0 {
            acc.union(dfs_order_reversed(nodes, edges, n).to_set())
        } else {
            acc
        }
}

/// The nodes from which a node without outgoing edges is found.
pub open spec fn reaching_terminal(nodes: nat, edges: Seq<(usize, usize)>) -> Set<usize> {
    fold(indices(nodes), Set::<usize>::empty(), terminal_step(nodes, edges))
}

/// Takes in a node: it is kept unless the set holds it.
pub open spec fn outside_step(set: Set<usize>) -> spec_fn(Seq<usize>, usize) -> Seq<usize> {
    |acc: Seq<usize>, n: usize|
        if set.contains(n) {
            acc
        } else {
            acc.push(n)
        }
}

/// The nodes, in increasing order, from which no node without outgoing
/// edges is found.
pub open spec fn not_reaching_terminal(nodes: nat, edges: Seq<(usize, usize)>) -> Seq<usize> {
    fold(indices(nodes), Seq::<usize>::empty(), outside_step(reaching_terminal(nodes, edges)))
}

/// Folding nodes below a bound with `outside_step` keeps nodes below it.
pub proof fn lemma_outside_in(set: Set<usize>, n: nat, upto: int)
    requires
        0 <= upto <= n,
        n <= usize::MAX,
    ensures
        ids_in(fold_upto(indices(n), Seq::<usize>::empty(), outside_step(set), upto), n),
    decreases upto,
{
    if upto > 0 {
        lemma_outside_in(set, n, upto - 1);
    }
}

/// The nodes that cannot reach a terminal node, in increasing order.
pub fn nodes_not_reaching_terminal(graph: &SwarmGraph) -> (r: Vec<usize>)
    requires
        graph.wf(),
    ensures
        r@ == not_reaching_terminal(graph.nodes().len(), graph.edges()),
        ids_in(r@, graph.nodes().len()),
{
    let count = graph.node_count();
    let ghost nodes = graph.nodes().len();
    let ghost all = indices(nodes);
    let ghost tstep = terminal_step(nodes, graph.edges());
    let mut can_reach: OrdSet<usize> = OrdSet::new();
    let mut n: usize = 0;
    while n < count
        invariant
            n <= count,
            count == nodes,
            nodes == graph.nodes().len(),
            all == indices(nodes),
            tstep == terminal_step(nodes, graph.edges()),
            graph.wf(),
            can_reach.wf(),
            can_reach@ == fold_upto(all, Set::<usize>::empty(), tstep, n as int),
        decreases count - n,
    {
        let out = graph.out_edges(n);
        if out.len() == 0 {
            let before = graph.dfs_reversed(n);
            let set: OrdSet<usize> = OrdSet::from_vec(&before);
            proof {
                assert(keys_of(before@) =~= before@);
            }
            can_reach.extend(&set);
        }
        n += 1;
    }
    let ghost ostep = outside_step(can_reach@);
    let mut r: Vec<usize> = Vec::new();
    let mut k: usize = 0;
    while k < count
        invariant
            k <= count,
            count == nodes,
            all == indices(nodes),
            can_reach.wf(),
            ostep == outside_step(can_reach@),
            r@ == fold_upto(all, Seq::<usize>::empty(), ostep, k as int),
        decreases count - k,
    {
        if !can_reach.contains(&k) {
            r.push(k);
        }
        k += 1;
    }
    proof {
        lemma_outside_in(can_reach@, nodes, nodes as int);
    }
    r
}

/// Takes in an edge: its event type joins the set if it follows itself.
pub open spec fn looping_edge_step(labels: Seq<LabelKey>, succ: SuccMap) -> spec_fn(Set<Seq<char>>, usize) -> Set<Seq<char>> {
    |acc: Set<Seq<char>>, e: usize|
        {
            let t = event_at(labels, e);
            if succ.dom().contains(t) && succ[t].contains(t) {
                acc.insert(t)
            } else {
                acc
            }
        }
}

/// Takes in a node: each edge that leaves it.
pub open spec fn looping_node_step(edges: Seq<(usize, usize)>, labels: Seq<LabelKey>, succ: SuccMap) -> spec_fn(Set<Seq<char>>, usize) -> Set<Seq<char>> {
    |acc: Set<Seq<char>>, n: usize| fold(edges_from(edges, n), acc, looping_edge_step(labels, succ))
}

/// The event types that follow themselves and are emitted at a node from
/// which no terminal node is found.
pub open spec fn looping_events(nodes: nat, edges: Seq<(usize, usize)>, labels: Seq<LabelKey>, succ: SuccMap) -> Set<Seq<char>> {
    fold(not_reaching_terminal(nodes, edges), Set::<Seq<char>>::empty(), looping_node_step(edges, labels, succ))
}

/// The event types that lie on a loop without a way to a terminal state.
pub fn infinitely_looping_event_types(graph: &SwarmGraph, succ_map: &OrdMap<EventType, OrdSet<EventType>>) -> (r: OrdSet<EventType>)
    requires
        graph.wf(),
        labelled(graph.labels()),
        succ_map.wf_sets(),
    ensures
        r.wf(),
        r@ == looping_events(graph.nodes().len(), graph.edges(), graph.labels(), succ_map.sets()),
{
    let stuck = nodes_not_reaching_terminal(graph);
    let ghost nstep = looping_node_step(graph.edges(), graph.labels(), succ_map.sets());
    let ghost estep = looping_edge_step(graph.labels(), succ_map.sets());
    let mut r: OrdSet<EventType> = OrdSet::new();
    proof {
        graph.lemma_wf();
    }
    let mut s: usize = 0;
    while s < stuck.len()
        invariant
            s <= stuck.len(),
            graph.wf(),
            labelled(graph.labels()),
            graph.edges().len() == graph.labels().len(),
            succ_map.wf_sets(),
            ids_in(stuck@, graph.nodes().len()),
            nstep == looping_node_step(graph.edges(), graph.labels(), succ_map.sets()),
            estep == looping_edge_step(graph.labels(), succ_map.sets()),
            r.wf(),
            r@ == fold_upto(stuck@, Set::<Seq<char>>::empty(), nstep, s as int),
        decreases stuck.len() - s,
    {
        let ids = graph.out_edges(stuck[s]);
        let ghost at_node = r@;
        let mut i: usize = 0;
        while i < ids.len()
            invariant
                i <= ids.len(),
                graph.wf(),
                labelled(graph.labels()),
                graph.edges().len() == graph.labels().len(),
                succ_map.wf_sets(),
                ids_in(ids@, graph.edges().len()),
                estep == looping_edge_step(graph.labels(), succ_map.sets()),
                r.wf(),
                r@ == fold_upto(ids@, at_node, estep, i as int),
            decreases ids.len() - i,
        {
            let t = graph.label(ids[i]).get_event_type();
            if succ_map.has_item(&t, &t) {
                r.insert(t);
            }
            i += 1;
        }
        s += 1;
    }
    r
}

/// Takes in a node: if more than one edge leaves it and they lead to more
/// than one node, the event types of those edges form a branching group.
pub open spec fn branching_step(edges: Seq<(usize, usize)>, labels: Seq<LabelKey>) -> spec_fn(Seq<Set<Seq<char>>>, usize) -> Seq<Set<Seq<char>>> {
    |acc: Seq<Set<Seq<char>>>, n: usize|
        {
            let ids = edges_from(edges, n);
            if ids.len() > 1 && edge_targets(edges, ids).to_set().len() > 1 {
                acc.push(edge_events(labels, ids).to_set())
            } else {
                acc
            }
        }
}

/// Takes in an edge: its label joins the labels of its role.
pub open spec fn role_edge_step(labels: Seq<LabelKey>) -> spec_fn(Map<Seq<char>, Set<LabelKey>>, usize) -> Map<Seq<char>, Set<LabelKey>> {
    |m: Map<Seq<char>, Set<LabelKey>>, e: usize| map_add(m, labels[e as int].2, Set::<LabelKey>::empty().insert(labels[e as int]))
}

/// Takes in a node: each edge that leaves it.
pub open spec fn role_node_step(edges: Seq<(usize, usize)>, labels: Seq<LabelKey>) -> spec_fn(Map<Seq<char>, Set<LabelKey>>, usize) -> Map<Seq<char>, Set<LabelKey>> {
    |m: Map<Seq<char>, Set<LabelKey>>, n: usize| fold(edges_from(edges, n), m, role_edge_step(labels))
}

/// Takes in an edge that leaves a node: the event types of the edges that
/// enter the node come immediately before the edge's event type.
pub open spec fn pre_edge_step(edges: Seq<(usize, usize)>, labels: Seq<LabelKey>, n: usize) -> spec_fn(SuccMap, usize) -> SuccMap {
    |m: SuccMap, e: usize| map_add(m, event_at(labels, e), edge_events(labels, edges_into(edges, n)).to_set())
}

/// Takes in a node: each edge that leaves it.
pub open spec fn pre_node_step(edges: Seq<(usize, usize)>, labels: Seq<LabelKey>) -> spec_fn(SuccMap, usize) -> SuccMap {
    |m: SuccMap, n: usize| fold(edges_from(edges, n), m, pre_edge_step(edges, labels, n))
}

/// Transitions without a finding on their logs carry one event type each.
pub proof fn lemma_no_log_errors(ts: Seq<(LabelKey, Seq<char>, Seq<char>)>, upto: int)
    requires
        0 <= upto <= ts.len(),
        log_errors(ts, upto).len() == 0,
    ensures
        forall|i: int| 0 <= i < upto ==> (#[trigger] ts[i]).0.1.len() == 1,
    decreases upto,
{
    if upto > 0 {
        assert(log_errors(ts, upto - 1).len() <= log_errors(ts, upto).len());
        lemma_no_log_errors(ts, upto - 1);
    }
}

/// Whether a graph, an initial node and findings are those of a protocol:
/// the nodes are the states in the order in which the transitions first name
/// them, the edges are the transitions in their order, and the findings are
/// those on the logs and then those on reaching the states.
pub open spec fn is_graph_of(graph: SwarmGraph, initial: Option<usize>, errors: Seq<ErrorView>, proto: (Seq<char>, Seq<(LabelKey, Seq<char>, Seq<char>)>)) -> bool {
    &&& graph.wf()
    &&& graph.nodes() == states_seen::<SwarmLabel>(proto.1, proto.1.len() as int)
    &&& graph.nodes().no_duplicates()
    &&& graph.edges().len() == proto.1.len()
    &&& forall|i: int| 0 <= i < proto.1.len() ==> {
        &&& graph.nodes()[(#[trigger] graph.edges()[i]).0 as int] == proto.1[i].1
        &&& graph.nodes()[graph.edges()[i].1 as int] == proto.1[i].2
    }
    &&& graph.labels() == Seq::new(proto.1.len(), |i: int| proto.1[i].0)
    &&& match initial {
        Some(i) => i < graph.nodes().len() && graph.nodes()[i as int] == proto.0,
        None => !graph.nodes().contains(proto.0),
    }
    &&& errors == shape_errors(graph, initial, proto)
}

/// The findings on the shape of a protocol with the given graph: those on
/// the logs and then either those on states that the initial state does not
/// reach or, where no transition names the initial state, that one.
pub open spec fn shape_errors(graph: SwarmGraph, initial: Option<usize>, proto: (Seq<char>, Seq<(LabelKey, Seq<char>, Seq<char>)>)) -> Seq<ErrorView> {
    log_errors(proto.1, proto.1.len() as int) + (match initial {
        Some(i) => unreachable_errors(dfs_order(graph.nodes().len(), graph.edges(), i), graph.nodes().len() as int),
        None => seq![ErrorView::SwarmError(crate::swarm::ErrorView::InitialStateDisconnected)],
    })
}

/// The names of the states of a protocol, each once, in the order in which
/// its transitions first name them.
pub open spec fn proto_nodes(proto: (Seq<char>, Seq<(LabelKey, Seq<char>, Seq<char>)>)) -> Seq<Seq<char>> {
    states_seen::<SwarmLabel>(proto.1, proto.1.len() as int)
}

/// The transitions of a protocol as edges between the positions of their
/// states.
pub open spec fn proto_edges(proto: (Seq<char>, Seq<(LabelKey, Seq<char>, Seq<char>)>)) -> Seq<(usize, usize)> {
    Seq::new(proto.1.len(), |i: int| (state_index(proto_nodes(proto), proto.1[i].1) as usize, state_index(proto_nodes(proto), proto.1[i].2) as usize))
}

/// The labels of the transitions of a protocol.
pub open spec fn proto_labels(proto: (Seq<char>, Seq<(LabelKey, Seq<char>, Seq<char>)>)) -> Seq<LabelKey> {
    Seq::new(proto.1.len(), |i: int| proto.1[i].0)
}

/// The position of the initial state of a protocol, if a transition names it.
pub open spec fn proto_initial(proto: (Seq<char>, Seq<(LabelKey, Seq<char>, Seq<char>)>)) -> Option<usize> {
    if proto_nodes(proto).contains(proto.0) {
        Some(state_index(proto_nodes(proto), proto.0) as usize)
    } else {
        None
    }
}

/// The findings on the shape of a protocol.
pub open spec fn proto_errors(proto: (Seq<char>, Seq<(LabelKey, Seq<char>, Seq<char>)>)) -> Seq<ErrorView> {
    log_errors(proto.1, proto.1.len() as int) + (match proto_initial(proto) {
        Some(i) => unreachable_errors(dfs_order(proto_nodes(proto).len(), proto_edges(proto), i), proto_nodes(proto).len() as int),
        None => seq![ErrorView::SwarmError(crate::swarm::ErrorView::InitialStateDisconnected)],
    })
}

/// A graph of a protocol is the graph of the protocol.
pub proof fn lemma_graph_of(graph: SwarmGraph, initial: Option<usize>, errors: Seq<ErrorView>, proto: (Seq<char>, Seq<(LabelKey, Seq<char>, Seq<char>)>))
    requires
        is_graph_of(graph, initial, errors, proto),
    ensures
        graph.nodes() == proto_nodes(proto),
        graph.edges() == proto_edges(proto),
        graph.labels() == proto_labels(proto),
        initial == proto_initial(proto),
        errors == proto_errors(proto),
{
    graph.lemma_wf();
    let nodes = graph.nodes();
    assert forall|i: int| 0 <= i < proto.1.len() implies graph.edges()[i] == proto_edges(proto)[i] by {
        let e = graph.edges()[i];
        assert(nodes[e.0 as int] == proto.1[i].1);
        assert(nodes[e.1 as int] == proto.1[i].2);
        let a = state_index(nodes, proto.1[i].1);
        let b = state_index(nodes, proto.1[i].2);
        assert(0 <= a < nodes.len() && nodes[a] == proto.1[i].1);
        assert(0 <= b < nodes.len() && nodes[b] == proto.1[i].2);
    }
    assert(graph.edges() =~= proto_edges(proto));
    match initial {
        Some(i) => {
            assert(nodes.contains(proto.0));
            let a = state_index(nodes, proto.0);
            assert(0 <= a < nodes.len() && nodes[a] == proto.0);
        },
        None => {},
    }
}

/// What is known of a single protocol.
///
/// A protocol with a finding on its shape, or whose initial state no
/// transition names, has its graph and findings alone. For any other the
/// nodes are walked in the order of a depth-first search from the initial
/// node: the branching groups, the labels of each role and the event types
/// immediately before each event type are read off the nodes, and from the
/// graph the event types that follow each and those on loops without an end.
pub open spec fn prepared(proto: (Seq<char>, Seq<(LabelKey, Seq<char>, Seq<char>)>)) -> ProtoInfoView {
    let nodes = proto_nodes(proto);
    let edges = proto_edges(proto);
    let labels = proto_labels(proto);
    let errors = proto_errors(proto);
    match proto_initial(proto) {
        Some(initial) if errors.len() == 0 => {
            let walk = dfs_order(nodes.len(), edges, initial);
            let rem = fold(walk, Map::<Seq<char>, Set<LabelKey>>::empty(), role_node_step(edges, labels));
            let succ = succ_rounds(nodes.len(), edges, labels, initial, Set::empty(), Map::empty(), succ_fuel(edges));
            ProtoInfoView {
                protocols: seq![ProtoView { nodes, edges, labels, initial: Some(initial), errors, roles: rem.dom() }],
                role_event_map: rem,
                concurrent_events: Set::empty(),
                branching_events: fold(walk, Seq::<Set<Seq<char>>>::empty(), branching_step(edges, labels)),
                joining_events: Map::empty(),
                immediately_pre: fold(walk, Map::<Seq<char>, Set<Seq<char>>>::empty(), pre_node_step(edges, labels)),
                succeeding_events: succ,
                interfacing_events: Set::empty(),
                infinitely_looping_events: looping_events(nodes.len(), edges, labels, succ),
                interface_errors: Seq::empty(),
            }
        },
        _ => ProtoInfoView {
            protocols: seq![ProtoView { nodes, edges, labels, initial: proto_initial(proto), errors, roles: Set::empty() }],
            role_event_map: Map::empty(),
            concurrent_events: Set::empty(),
            branching_events: Seq::empty(),
            joining_events: Map::empty(),
            immediately_pre: Map::empty(),
            succeeding_events: Map::empty(),
            interfacing_events: Set::empty(),
            infinitely_looping_events: Set::empty(),
            interface_errors: Seq::empty(),
        },
    }
}

/// What is known of a single protocol: see `prepared`.
pub fn prepare_proto_info(proto: SwarmProtocolType) -> (r: ProtoInfo)
    ensures
        r.wf(),
        r@ == prepared(proto@),
        r.protocols@.len() == 1,
        is_graph_of(r.protocols@[0].graph, r.protocols@[0].initial, errors_view(r.protocols@[0].errors@), proto@),
{
    let mut role_event_map: RoleEventMap = OrdMap::new();
    let mut branching_events: Vec<OrdSet<EventType>> = Vec::new();
    let mut immediately_pre_map: OrdMap<EventType, OrdSet<EventType>> = OrdMap::new();
    let (graph, initial, errors) = swarm_to_graph(&proto);
    if initial.is_none() || errors.len() != 0 {
        proof {
            assert(errors_view(errors@).len() == errors@.len());
            assert(errors@.len() > 0);
        }
        let only = ProtoStruct::new(graph, initial, errors, OrdSet::new());
        assert(only.wf());
        let r = ProtoInfo::new_only_proto(vec![only]);
        proof {
            lemma_graph_of(only.graph, only.initial, errors_view(only.errors@), proto@);
            assert(r@.protocols =~= prepared(proto@).protocols);
            assert(r@.branching_events =~= prepared(proto@).branching_events);
            assert(r@.interface_errors =~= prepared(proto@).interface_errors);
        }
        return r;
    }
    let start = initial.unwrap();
    proof {
        assert(errors_view(errors@).len() == 0);
        assert(log_errors(proto@.1, proto@.1.len() as int).len() == 0);
        lemma_no_log_errors(proto@.1, proto@.1.len() as int);
        assert(labelled(graph.labels()));
        graph.lemma_wf();
        assert(role_event_map.sets() =~= Map::<Seq<char>, Set<LabelKey>>::empty());
        assert(immediately_pre_map.sets() =~= Map::<Seq<char>, Set<Seq<char>>>::empty());
        assert(sets_view(branching_events@) =~= Seq::<Set<Seq<char>>>::empty());
    }
    let walk = graph.dfs(start);
    let ghost rstep = role_node_step(graph.edges(), graph.labels());
    let ghost bstep = branching_step(graph.edges(), graph.labels());
    let ghost pstep = pre_node_step(graph.edges(), graph.labels());
    let mut w: usize = 0;
    while w < walk.len()
        invariant
            w <= walk.len(),
            graph.wf(),
            labelled(graph.labels()),
            graph.edges().len() == graph.labels().len(),
            ids_in(walk@, graph.nodes().len()),
            rstep == role_node_step(graph.edges(), graph.labels()),
            bstep == branching_step(graph.edges(), graph.labels()),
            pstep == pre_node_step(graph.edges(), graph.labels()),
            role_event_map.wf_sets(),
            forall|r: Seq<char>, l: LabelKey| #[trigger] role_event_map.holds(r, l) ==> l.1.len() > 0,
            all_wf(branching_events@),
            immediately_pre_map.wf_sets(),
            role_event_map.sets() == fold_upto(walk@, Map::<Seq<char>, Set<LabelKey>>::empty(), rstep, w as int),
            sets_view(branching_events@) == fold_upto(walk@, Seq::<Set<Seq<char>>>::empty(), bstep, w as int),
            immediately_pre_map.sets() == fold_upto(walk@, Map::<Seq<char>, Set<Seq<char>>>::empty(), pstep, w as int),
        decreases walk.len() - w,
    {
        let node_id = walk[w];
        let outgoing = graph.out_edges(node_id);
        let incoming = graph.in_edges(node_id);
        let incoming_event_types = event_types_of(&graph, &incoming);
        if outgoing.len() > 1 {
            let successors = direct_successors(&graph, node_id);
            proof {
                successors.lemma_wf();
            }
            if successors.len() > 1 {
                let group = event_types_of(&graph, &outgoing);
                let ghost before = sets_view(branching_events@);
                branching_events.push(group);
                assert(sets_view(branching_events@) =~= before.push(group@));
            }
        }
        let ghost role_at_node = role_event_map.sets();
        let ghost pre_at_node = immediately_pre_map.sets();
        let ghost restep = role_edge_step(graph.labels());
        let ghost pestep = pre_edge_step(graph.edges(), graph.labels(), node_id);
        let mut i: usize = 0;
        while i < outgoing.len()
            invariant
                i <= outgoing.len(),
                graph.wf(),
                labelled(graph.labels()),
                graph.edges().len() == graph.labels().len(),
                ids_in(outgoing@, graph.edges().len()),
                restep == role_edge_step(graph.labels()),
                pestep == pre_edge_step(graph.edges(), graph.labels(), node_id),
                incoming_event_types.wf(),
                incoming_event_types@ == edge_events(graph.labels(), edges_into(graph.edges(), node_id)).to_set(),
                role_event_map.wf_sets(),
                forall|r: Seq<char>, l: LabelKey| #[trigger] role_event_map.holds(r, l) ==> l.1.len() > 0,
                immediately_pre_map.wf_sets(),
                role_event_map.sets() == fold_upto(outgoing@, role_at_node, restep, i as int),
                immediately_pre_map.sets() == fold_upto(outgoing@, pre_at_node, pestep, i as int),
            decreases outgoing.len() - i,
        {
            let label = graph.label(outgoing[i]);
            let ghost before = role_event_map;
            role_event_map.add_all(&label.role, &OrdSet::singleton(label.duplicate()));
            proof {
                assert forall|r: Seq<char>, l: LabelKey| #[trigger] role_event_map.holds(r, l) implies l.1.len() > 0 by {
                    assert(role_event_map.set_of(r).contains(l));
                    if !(r == label.role@ && l == label.key()) {
                        assert(before.set_of(r).contains(l));
                        assert(before.holds(r, l));
                    }
                }
            }
            immediately_pre_map.add_all(&label.get_event_type(), &incoming_event_types);
            i += 1;
        }
        w += 1;
    }
    let happens_after = after_not_concurrent(&graph, start, &OrdSet::new());
    let infinitely_looping_events = infinitely_looping_event_types(&graph, &happens_after);
    let mut roles: OrdSet<Role> = OrdSet::new();
    let mut k: usize = 0;
    proof {
        lemma_take_all(role_event_map.keys());
        role_event_map.lemma_wf();
    }
    while k < role_event_map.len()
        invariant
            k <= role_event_map.keys().len(),
            role_event_map.wf(),
            roles.wf(),
            roles@ == role_event_map.keys().take(k as int).to_set(),
        decreases role_event_map.keys().len() - k,
    {
        roles.insert(role_event_map.key_at(k).duplicate());
        proof {
            lemma_take_to_set(role_event_map.keys(), k as int);
        }
        k += 1;
    }
    proof {
        assert(roles@ =~= role_event_map.sets().dom());
    }
    let joining: OrdMap<EventType, OrdSet<EventType>> = OrdMap::new();
    proof {
        assert(joining.sets() =~= Map::<Seq<char>, Set<Seq<char>>>::empty());
    }
    let only = ProtoStruct::new(graph, initial, errors, roles);
    assert(only.wf());
    let r = ProtoInfo::new(
        vec![only],
        role_event_map,
        OrdSet::new(),
        branching_events,
        joining,
        immediately_pre_map,
        happens_after,
        OrdSet::new(),
        infinitely_looping_events,
        Vec::new(),
    );
    proof {
        lemma_graph_of(only.graph, only.initial, errors_view(only.errors@), proto@);
        assert(r@.protocols =~= prepared(proto@).protocols);
        assert(r@.interface_errors =~= prepared(proto@).interface_errors);
    }
    r
}

/// For each event type or command the edges that carry it, in their order.
pub type Buckets = Map<Seq<char>, Seq<usize>>;

/// Takes in an edge: it joins the edges of its event type, if it has one.
pub open spec fn event_bucket_step(labels: Seq<LabelKey>) -> spec_fn(Buckets, usize) -> Buckets {
    |m: Buckets, e: usize|
        if labels[e as int].1.len() > 0 {
            map_push(m, labels[e as int].1[0], e)
        } else {
            m
        }
}

/// Takes in an edge: it joins the edges of its command.
pub open spec fn command_bucket_step(labels: Seq<LabelKey>) -> spec_fn(Buckets, usize) -> Buckets {
    |m: Buckets, e: usize| map_push(m, labels[e as int].0, e)
}

/// Takes in an event type: a finding if more than one edge carries it.
pub open spec fn repeated_event_step(buckets: Buckets) -> spec_fn(Seq<ErrorView>, Seq<char>) -> Seq<ErrorView> {
    |acc: Seq<ErrorView>, t: Seq<char>|
        if buckets[t].len() > 1 {
            acc.push(ErrorView::EventEmittedMultipleTimes(t, buckets[t]))
        } else {
            acc
        }
}

/// Takes in a command: a finding if more than one edge carries it.
pub open spec fn repeated_command_step(buckets: Buckets) -> spec_fn(Seq<ErrorView>, Seq<char>) -> Seq<ErrorView> {
    |acc: Seq<ErrorView>, c: Seq<char>|
        if buckets[c].len() > 1 {
            acc.push(ErrorView::CommandOnMultipleTransitions(c, buckets[c]))
        } else {
            acc
        }
}

/// The findings on confusion among labels: each event type that more than
/// one edge emits, in the order of the event types, and then each command
/// that more than one edge enables, in the order of the commands; each with
/// its edges in their order.
pub open spec fn confusion_errors(labels: Seq<LabelKey>) -> Seq<ErrorView> {
    let events = fold(indices(labels.len()), Map::<Seq<char>, Seq<usize>>::empty(), event_bucket_step(labels));
    let commands = fold(indices(labels.len()), Map::<Seq<char>, Seq<usize>>::empty(), command_bucket_step(labels));
    fold(sorted::<EventType>(events.dom()), Seq::<ErrorView>::empty(), repeated_event_step(events)) + fold(sorted::<Command>(commands.dom()), Seq::<ErrorView>::empty(), repeated_command_step(commands))
}

/// The findings of `confusion_free` at an index of a list of protocols:
/// for an index outside the list that the argument is invalid; for a
/// protocol without an initial node its own findings; for any other the
/// findings on confusion among its labels.
pub open spec fn confusion_free_errors(protocols: Seq<ProtoView>, i: int) -> Seq<ErrorView> {
    if i < 0 || i >= protocols.len() {
        seq![ErrorView::InvalidArg]
    } else if protocols[i].initial is None {
        protocols[i].errors
    } else {
        confusion_errors(protocols[i].labels)
    }
}

/// Checks that each event type is emitted by one transition and each command
/// enabled by one transition of the protocol at an index: of a protocol with
/// an initial node and an event type on each transition nothing is found
/// exactly if that is so.
pub fn confusion_free(proto_info: &ProtoInfo, proto_pointer: usize) -> (errors: Vec<Error>)
    requires
        proto_info.wf(),
    ensures
        errors_view(errors@) == confusion_free_errors(proto_info@.protocols, proto_pointer as int),
        proto_pointer < proto_info.protocols@.len() ==> errors_fit(errors@, proto_info.protocols@[proto_pointer as int].graph.nodes().len()),
        proto_pointer < proto_info.protocols@.len() && proto_info.protocols@[proto_pointer as int].initial is Some ==> errors_fit(errors@, 0),
        proto_pointer < proto_info.protocols@.len() && proto_info.protocols@[proto_pointer as int].initial is Some && labelled(proto_info.protocols@[proto_pointer as int].graph.labels()) ==> (errors@.len() == 0
            <==> confusion_free_labels(proto_info.protocols@[proto_pointer as int].graph.labels())),
{
    proof {
        if proto_pointer < proto_info.protocols@.len() {
            let p = proto_info.protocols@[proto_pointer as int];
            assert(p.wf());
            p.graph.lemma_wf();
            if p.initial is Some && labelled(p.graph.labels()) {
                lemma_confusion_found(p.graph.labels());
                assert(proto_info@.protocols[proto_pointer as int].labels == p.graph.labels());
            }
        }
    }
    if proto_pointer >= proto_info.protocols.len() {
        let r = vec![Error::InvalidArg];
        assert(errors_view(r@) =~= seq![ErrorView::InvalidArg]);
        return r;
    }
    let proto = &proto_info.protocols[proto_pointer];
    if proto.initial.is_none() {
        let r = duplicate_errors(&proto.errors);
        proof {
            assert(r@.len() == errors_view(r@).len());
            assert forall|i: int| 0 <= i < r@.len() implies Error::fits(#[trigger] r@[i]@, proto.graph.nodes().len()) by {
                assert(errors_view(r@)[i] == errors_view(proto.errors@)[i]);
            }
        }
        return r;
    }
    let graph = &proto.graph;
    let ghost labels = graph.labels();
    let ghost all = indices(labels.len());
    let ghost estep = event_bucket_step(labels);
    let ghost cstep = command_bucket_step(labels);
    let mut event_types: OrdMap<EventType, Vec<usize>> = OrdMap::new();
    let mut commands: OrdMap<Command, Vec<usize>> = OrdMap::new();
    let mut errors: Vec<Error> = Vec::new();
    proof {
        graph.lemma_wf();
        assert(event_types.lists() =~= Map::<Seq<char>, Seq<usize>>::empty());
        assert(commands.lists() =~= Map::<Seq<char>, Seq<usize>>::empty());
    }
    let count = graph.edge_count();
    let mut e: usize = 0;
    while e < count
        invariant
            e <= count,
            count == labels.len(),
            graph.wf(),
            labels == graph.labels(),
            graph.edges().len() == labels.len(),
            all == indices(labels.len()),
            estep == event_bucket_step(labels),
            cstep == command_bucket_step(labels),
            event_types.wf(),
            commands.wf(),
            event_types.lists() == fold_upto(all, Map::<Seq<char>, Seq<usize>>::empty(), estep, e as int),
            commands.lists() == fold_upto(all, Map::<Seq<char>, Seq<usize>>::empty(), cstep, e as int),
        decreases count - e,
    {
        let weight = graph.label(e);
        if weight.log_type.len() > 0 {
            event_types.push_at(&weight.get_event_type(), e);
        }
        commands.push_at(&weight.cmd, e);
        e += 1;
    }
    let ghost ebuckets = event_types.lists();
    let ghost cbuckets = commands.lists();
    let ghost restep = repeated_event_step(ebuckets);
    let ghost rcstep = repeated_command_step(cbuckets);
    proof {
        event_types.lemma_wf();
        commands.lemma_wf();
        assert(ebuckets.dom() =~= event_types@.dom());
        assert(cbuckets.dom() =~= commands@.dom());
    }
    let mut i: usize = 0;
    while i < event_types.len()
        invariant
            i <= event_types.keys().len(),
            event_types.wf(),
            ebuckets == event_types.lists(),
            restep == repeated_event_step(ebuckets),
            errors_view(errors@) == fold_upto(event_types.keys(), Seq::<ErrorView>::empty(), restep, i as int),
            errors_fit(errors@, 0),
        decreases event_types.keys().len() - i,
    {
        let edge_indices = event_types.val_at(i);
        if edge_indices.len() > 1 {
            let ghost before = errors_view(errors@);
            errors.push(Error::EventEmittedMultipleTimes(event_types.key_at(i).duplicate(), edge_indices.clone()));
            assert(errors_view(errors@) =~= before.push(ErrorView::EventEmittedMultipleTimes(event_types.keys()[i as int], edge_indices@)));
        }
        i += 1;
    }
    let ghost first = errors_view(errors@);
    let mut j: usize = 0;
    while j < commands.len()
        invariant
            j <= commands.keys().len(),
            commands.wf(),
            cbuckets == commands.lists(),
            rcstep == repeated_command_step(cbuckets),
            errors_view(errors@) == first + fold_upto(commands.keys(), Seq::<ErrorView>::empty(), rcstep, j as int),
            errors_fit(errors@, 0),
        decreases commands.keys().len() - j,
    {
        let edge_indices = commands.val_at(j);
        if edge_indices.len() > 1 {
            let ghost before = fold_upto(commands.keys(), Seq::<ErrorView>::empty(), rcstep, j as int);
            let ghost prev = errors_view(errors@);
            errors.push(Error::CommandOnMultipleTransitions(commands.key_at(j).duplicate(), edge_indices.clone()));
            assert(errors_view(errors@) =~= prev.push(ErrorView::CommandOnMultipleTransitions(commands.keys()[j as int], edge_indices@)));
            assert(errors_view(errors@) =~= first + before.push(ErrorView::CommandOnMultipleTransitions(commands.keys()[j as int], edge_indices@)));
        }
        j += 1;
    }
    proof {
        assert(first + Seq::<ErrorView>::empty() =~= first);
    }
    errors
}

/// Whether two protocols differ in their findings alone.
pub open spec fn same_but_errors(p: ProtoStruct, q: ProtoStruct) -> bool {
    &&& p.graph == q.graph
    &&& p.initial == q.initial
    &&& p.roles == q.roles
}

/// Whether two dossiers agree in all but the protocols.
pub open spec fn same_derived(a: ProtoInfo, b: ProtoInfo) -> bool {
    &&& a.role_event_map == b.role_event_map
    &&& a.concurrent_events == b.concurrent_events
    &&& a.branching_events == b.branching_events
    &&& a.joining_events == b.joining_events
    &&& a.immediately_pre == b.immediately_pre
    &&& a.succeeding_events == b.succeeding_events
    &&& a.interfacing_events == b.interfacing_events
    &&& a.infinitely_looping_events == b.infinitely_looping_events
    &&& a.interface_errors == b.interface_errors
}

/// A protocol with further findings.
pub open spec fn with_errors(p: ProtoView, more: Seq<ErrorView>) -> ProtoView {
    ProtoView { nodes: p.nodes, edges: p.edges, labels: p.labels, initial: p.initial, errors: p.errors + more, roles: p.roles }
}

/// A dossier with the given protocols in place of its own.
pub open spec fn with_protocols(c: ProtoInfoView, protocols: Seq<ProtoView>) -> ProtoInfoView {
    ProtoInfoView {
        protocols,
        role_event_map: c.role_event_map,
        concurrent_events: c.concurrent_events,
        branching_events: c.branching_events,
        joining_events: c.joining_events,
        immediately_pre: c.immediately_pre,
        succeeding_events: c.succeeding_events,
        interfacing_events: c.interfacing_events,
        infinitely_looping_events: c.infinitely_looping_events,
        interface_errors: c.interface_errors,
    }
}

/// A dossier in which each protocol has the findings of `confusion_free`
/// after its own.
pub open spec fn confusion_checked(c: ProtoInfoView) -> ProtoInfoView {
    with_protocols(c, Seq::new(c.protocols.len(), |i: int| with_errors(c.protocols[i], confusion_free_errors(c.protocols, i))))
}

/// Adds to each protocol the findings of `confusion_free` on it.
pub fn confusion_free_proto_info(proto_info: ProtoInfo) -> (r: ProtoInfo)
    requires
        proto_info.wf(),
    ensures
        r.wf(),
        r@ == confusion_checked(proto_info@),
        same_derived(r, proto_info),
        r.protocols@.len() == proto_info.protocols@.len(),
        forall|i: int| 0 <= i < r.protocols@.len() ==> same_but_errors(#[trigger] r.protocols@[i], proto_info.protocols@[i]),
{
    let mut r = proto_info;
    let mut i: usize = 0;
    while i < r.protocols.len()
        invariant
            i <= r.protocols@.len(),
            r.wf(),
            proto_info.wf(),
            same_derived(r, proto_info),
            r.protocols@.len() == proto_info.protocols@.len(),
            forall|j: int| 0 <= j < r.protocols@.len() ==> same_but_errors(#[trigger] r.protocols@[j], proto_info.protocols@[j]),
            forall|j: int| i <= j < r.protocols@.len() ==> (#[trigger] r.protocols@[j]).errors == proto_info.protocols@[j].errors,
            forall|j: int| 0 <= j < i ==> errors_view((#[trigger] r.protocols@[j]).errors@) == errors_view(proto_info.protocols@[j].errors@) + confusion_free_errors(proto_info@.protocols, j),
        decreases r.protocols@.len() - i,
    {
        let mut more = confusion_free(&r, i);
        proof {
            assert(r.protocols@[i as int].wf());
            assert(r@.protocols[i as int] == proto_info@.protocols[i as int]);
            assert(confusion_free_errors(r@.protocols, i as int) == confusion_free_errors(proto_info@.protocols, i as int));
        }
        let ghost before = r;
        let ghost old_errors = r.protocols@[i as int].errors@;
        let ghost added = more@;
        r.protocols[i].errors.append(&mut more);
        proof {
            assert(r.protocols@[i as int].errors@ =~= old_errors + added);
            assert(errors_view(r.protocols@[i as int].errors@) =~= errors_view(old_errors) + errors_view(added));
            assert forall|j: int| 0 <= j < r.protocols@.len() implies (#[trigger] r.protocols@[j]).wf() by {
                if j != i {
                    assert(r.protocols@[j] == before.protocols@[j]);
                } else {
                    assert(before.protocols@[j].wf());
                }
            }
        }
        i += 1;
    }
    proof {
        assert(r@.protocols =~= confusion_checked(proto_info@).protocols);
    }
    r
}

/// The findings of an analysis, each list with the graph that it speaks of.
#[derive(Debug)]
pub struct ErrorReport(pub Vec<(SwarmGraph, Vec<Error>)>);

impl ErrorReport {
    /// Each graph is well-formed and its findings speak of its nodes.
    pub open spec fn wf(&self) -> bool {
        forall|i: int| 0 <= i < self.0@.len() ==> (#[trigger] self.0@[i]).0.wf() && errors_fit(self.0@[i].1@, self.0@[i].0.nodes().len())
    }

    /// Whether there is no finding at all.
    pub fn is_empty(&self) -> (r: bool)
        ensures
            r == forall|i: int| 0 <= i < self.0@.len() ==> (#[trigger] self.0@[i]).1@.len() == 0,
    {
        let mut i: usize = 0;
        while i < self.0.len()
            invariant
                i <= self.0.len(),
                forall|j: int| 0 <= j < i ==> (#[trigger] self.0@[j]).1@.len() == 0,
            decreases self.0.len() - i,
        {
            if self.0[i].1.len() != 0 {
                return false;
            }
            i += 1;
        }
        true
    }

    /// Copies of the graphs with their findings.
    pub fn errors(&self) -> (r: Vec<(SwarmGraph, Vec<Error>)>)
        requires
            self.wf(),
        ensures
            r@.len() == self.0@.len(),
            forall|i: int| 0 <= i < r@.len() ==> {
                &&& (#[trigger] r@[i]).0.wf()
                &&& r@[i].0.nodes() == self.0@[i].0.nodes()
                &&& r@[i].0.edges() == self.0@[i].0.edges()
                &&& r@[i].0.labels() == self.0@[i].0.labels()
                &&& errors_view(r@[i].1@) == errors_view(self.0@[i].1@)
            },
    {
        let mut r: Vec<(SwarmGraph, Vec<Error>)> = Vec::new();
        let mut i: usize = 0;
        while i < self.0.len()
            invariant
                i <= self.0.len(),
                self.wf(),
                r@.len() == i,
                forall|j: int| 0 <= j < i ==> {
                    &&& (#[trigger] r@[j]).0.wf()
                    &&& r@[j].0.nodes() == self.0@[j].0.nodes()
                    &&& r@[j].0.edges() == self.0@[j].0.edges()
                    &&& r@[j].0.labels() == self.0@[j].0.labels()
                    &&& errors_view(r@[j].1@) == errors_view(self.0@[j].1@)
                },
            decreases self.0.len() - i,
        {
            r.push((self.0[i].0.duplicate(), duplicate_errors(&self.0[i].1)));
            i += 1;
        }
        r
    }
}

/// The findings of a dossier as a report: those of each protocol with its
/// graph, and last those on interfaces with an empty graph.
pub fn proto_info_to_error_report(proto_info: ProtoInfo) -> (r: ErrorReport)
    requires
        proto_info.wf(),
    ensures
        r.wf(),
        r.0@.len() == proto_info.protocols@.len() + 1,
        forall|i: int| 0 <= i < proto_info.protocols@.len() ==> {
            &&& (#[trigger] r.0@[i]).0.nodes() == proto_info.protocols@[i].graph.nodes()
            &&& r.0@[i].0.edges() == proto_info.protocols@[i].graph.edges()
            &&& r.0@[i].0.labels() == proto_info.protocols@[i].graph.labels()
            &&& errors_view(r.0@[i].1@) == errors_view(proto_info.protocols@[i].errors@)
        },
        r.0@[proto_info.protocols@.len() as int].0.nodes().len() == 0,
        r.0@[proto_info.protocols@.len() as int].0.edges().len() == 0,
        errors_view(r.0@[proto_info.protocols@.len() as int].1@) == errors_view(proto_info.interface_errors@),
        r@ == report_of(proto_info@),
{
    let mut out: Vec<(SwarmGraph, Vec<Error>)> = Vec::new();
    let mut i: usize = 0;
    while i < proto_info.protocols.len()
        invariant
            i <= proto_info.protocols.len(),
            proto_info.wf(),
            out@.len() == i,
            forall|j: int| 0 <= j < i ==> {
                &&& (#[trigger] out@[j]).0.wf()
                &&& errors_fit(out@[j].1@, out@[j].0.nodes().len())
                &&& out@[j].0.nodes() == proto_info.protocols@[j].graph.nodes()
                &&& out@[j].0.edges() == proto_info.protocols@[j].graph.edges()
                &&& out@[j].0.labels() == proto_info.protocols@[j].graph.labels()
                &&& errors_view(out@[j].1@) == errors_view(proto_info.protocols@[j].errors@)
            },
        decreases proto_info.protocols.len() - i,
    {
        let p = proto_info.protocols[i].duplicate();
        proof {
            assert(proto_info.protocols@[i as int].wf());
        }
        out.push((p.graph, p.errors));
        i += 1;
    }
    let empty: SwarmGraph = Digraph::new();
    let errors = duplicate_errors(&proto_info.interface_errors);
    proof {
        assert(errors@.len() == errors_view(errors@).len());
        assert forall|k: int| 0 <= k < errors@.len() implies Error::fits(#[trigger] errors@[k]@, 0) by {
            assert(errors_view(errors@)[k] == errors_view(proto_info.interface_errors@)[k]);
        }
    }
    out.push((empty, errors));
    let r = ErrorReport(out);
    proof {
        empty.lemma_wf();
        let last = proto_info.protocols@.len() as int;
        assert(r@[last].nodes =~= Seq::<Seq<char>>::empty());
        assert(r@[last].edges =~= Seq::<(usize, usize)>::empty());
        assert(r@[last].labels =~= Seq::<LabelKey>::empty());
        assert(r@ =~= report_of(proto_info@));
    }
    r
}

/// The dossiers of a list as mathematical values.
pub open spec fn infos_view(infos: Seq<ProtoInfo>) -> Seq<ProtoInfoView> {
    Seq::new(infos.len(), |i: int| infos[i]@)
}

/// The protocols of a list as mathematical values.
pub open spec fn protocols_view(protos: Seq<SwarmProtocolType>) -> Seq<(Seq<char>, Seq<(LabelKey, Seq<char>, Seq<char>)>)> {
    Seq::new(protos.len(), |i: int| protos[i]@)
}

/// What is known of each protocol of a list by itself.
pub open spec fn prepared_all(protos: Seq<(Seq<char>, Seq<(LabelKey, Seq<char>, Seq<char>)>)>) -> Seq<ProtoInfoView> {
    Seq::new(protos.len(), |i: int| prepared(protos[i]))
}

/// What is known of each protocol of a list by itself.
pub fn prepare_proto_infos(protos: InterfacingProtocols) -> (r: Vec<ProtoInfo>)
    ensures
        r@.len() == protos.0@.len(),
        forall|i: int| 0 <= i < r@.len() ==> (#[trigger] r@[i]).wf(),
        infos_view(r@) == prepared_all(protocols_view(protos.0@)),
{
    let mut r: Vec<ProtoInfo> = Vec::new();
    let mut protos = protos;
    let ghost all = protos.0@;
    let mut i: usize = 0;
    while i < protos.0.len()
        invariant
            i <= protos.0.len(),
            protos.0@.len() == all.len(),
            forall|j: int| i <= j < all.len() ==> protos.0@[j] == all[j],
            r@.len() == i,
            forall|j: int| 0 <= j < i ==> (#[trigger] r@[j]).wf() && r@[j]@ == prepared(all[j]@),
        decreases protos.0.len() - i,
    {
        let mut p = ProtocolType { initial: State::new(""), transitions: Vec::new() };
        core::mem::swap(&mut p, &mut protos.0[i]);
        r.push(prepare_proto_info(p));
        i += 1;
    }
    proof {
        assert(infos_view(r@) =~= prepared_all(protocols_view(all)));
    }
    r
}

/// The texts of a list of findings on a graph.
pub open spec fn error_texts(errors: Seq<ErrorView>, graph: SwarmGraph) -> Seq<Seq<char>> {
    Seq::new(errors.len(), |i: int| Error::text::<State>(errors[i], graph.nodes(), graph.edges(), graph.labels()))
}

/// Writes each finding of a list for a reader.
pub fn errors_to_strings(graph: &SwarmGraph, errors: &Vec<Error>) -> (r: Vec<String>)
    requires
        graph.wf(),
        errors_fit(errors@, graph.nodes().len()),
    ensures
        texts_of(r@) == error_texts(errors_view(errors@), *graph),
{
    let mut r: Vec<String> = Vec::new();
    let mut i: usize = 0;
    while i < errors.len()
        invariant
            i <= errors.len(),
            graph.wf(),
            errors_fit(errors@, graph.nodes().len()),
            r@.len() == i,
            forall|j: int| 0 <= j < i ==> (#[trigger] r@[j])@ == Error::text::<State>(errors@[j]@, graph.nodes(), graph.edges(), graph.labels()),
        decreases errors.len() - i,
    {
        r.push(errors[i].to_string(graph));
        i += 1;
    }
    assert(texts_of(r@) =~= error_texts(errors_view(errors@), *graph));
    r
}

/// The graph of a protocol, its initial node if a transition names the
/// initial state, and the findings on its shape as texts.
pub fn from_json(proto: SwarmProtocolType) -> (r: (SwarmGraph, Option<usize>, Vec<String>))
    ensures
        is_graph_of(r.0, r.1, shape_errors(r.0, r.1, proto@), proto@),
        texts_of(r.2@) == error_texts(shape_errors(r.0, r.1, proto@), r.0),
{
    let proto_info = prepare_proto_info(proto);
    let p = proto_info.protocols[0].duplicate();
    let e = errors_to_strings(&p.graph, &p.errors);
    proof {
        let q = proto_info.protocols@[0];
        assert(shape_errors(p.graph, p.initial, proto@) == shape_errors(q.graph, q.initial, proto@));
        assert(errors_view(q.errors@) == shape_errors(q.graph, q.initial, proto@));
    }
    (p.graph, p.initial, e)
}

/// A command, the event type it emits and the role that issues it.
pub type Triple = (Seq<char>, Seq<char>, Seq<char>);

/// For each role the labels of its transitions, as mathematical values.
pub type RoleLabels = Map<Seq<char>, Set<LabelKey>>;

/// The command, event type and role of a label.
pub open spec fn triple_of(l: LabelKey) -> Triple {
    (l.0, l.1[0], l.2)
}

/// Takes in a label: its triple joins the set.
pub open spec fn triple_step() -> spec_fn(Set<Triple>, LabelKey) -> Set<Triple> {
    |acc: Set<Triple>, l: LabelKey| acc.insert(triple_of(l))
}

/// Takes in a role: the triples of its labels join the set.
pub open spec fn role_triples_step(rem: RoleLabels) -> spec_fn(Set<Triple>, Seq<char>) -> Set<Triple> {
    |acc: Set<Triple>, r: Seq<char>| fold(sorted::<SwarmLabel>(rem[r]), acc, triple_step())
}

/// The triples of all labels of a role index.
pub open spec fn triples_of(rem: RoleLabels) -> Set<Triple> {
    fold(sorted::<Role>(rem.dom()), Set::<Triple>::empty(), role_triples_step(rem))
}

/// The labels of a dossier's role index as triples of command, event type
/// and role.
pub fn get_labels(proto_info: &ProtoInfo) -> (r: OrdSet<(Command, EventType, Role)>)
    requires
        proto_info.wf(),
    ensures
        r.wf(),
        r@ == triples_of(proto_info@.role_event_map),
{
    let map = &proto_info.role_event_map;
    let ghost rem = map.sets();
    let ghost ostep = role_triples_step(rem);
    let mut r: OrdSet<(Command, EventType, Role)> = OrdSet::new();
    proof {
        map.lemma_sets_keys();
    }
    let mut i: usize = 0;
    while i < map.len()
        invariant
            i <= map.keys().len(),
            proto_info.wf(),
            map == &proto_info.role_event_map,
            rem == map.sets(),
            ostep == role_triples_step(rem),
            r.wf(),
            r@ == fold_upto(map.keys(), Set::<Triple>::empty(), ostep, i as int),
        decreases map.keys().len() - i,
    {
        proof {
            map.lemma_sets_at(i as int);
        }
        let labels = map.val_at(i);
        let ghost at_role = r@;
        proof {
            assert forall|q: int| 0 <= q < labels.keys().len() implies (#[trigger] labels.keys()[q]).1.len() > 0 by {
                assert(labels.keys().contains(labels.keys()[q]));
                assert(map.holds(map.keys()[i as int], labels.keys()[q]));
            }
        }
        let mut j: usize = 0;
        while j < labels.len()
            invariant
                j <= labels.keys().len(),
                labels.wf(),
                forall|q: int| 0 <= q < labels.keys().len() ==> (#[trigger] labels.keys()[q]).1.len() > 0,
                r.wf(),
                r@ == fold_upto(labels.keys(), at_role, triple_step(), j as int),
            decreases labels.keys().len() - j,
        {
            let sl = labels.get(j);
            r.insert((sl.cmd.duplicate(), sl.get_event_type(), sl.role.duplicate()));
            j += 1;
        }
        i += 1;
    }
    r
}

/// Takes in a triple: its event type stands for its command and role.
pub open spec fn by_event_step() -> spec_fn(Map<Seq<char>, (Seq<char>, Seq<char>)>, Triple) -> Map<Seq<char>, (Seq<char>, Seq<char>)> {
    |m: Map<Seq<char>, (Seq<char>, Seq<char>)>, x: Triple| m.insert(x.1, (x.0, x.2))
}

/// For each event type of a set of triples the command and role of the last
/// triple that carries it.
pub open spec fn by_event(triples: Set<Triple>) -> Map<Seq<char>, (Seq<char>, Seq<char>)> {
    fold(sorted::<(Command, EventType, Role)>(triples), Map::<Seq<char>, (Seq<char>, Seq<char>)>::empty(), by_event_step())
}

/// Takes in a triple: its command stands for its event type and role.
pub open spec fn by_command_step() -> spec_fn(Map<Seq<char>, (Seq<char>, Seq<char>)>, Triple) -> Map<Seq<char>, (Seq<char>, Seq<char>)> {
    |m: Map<Seq<char>, (Seq<char>, Seq<char>)>, x: Triple| m.insert(x.0, (x.1, x.2))
}

/// For each command of a set of triples the event type and role of the last
/// triple that carries it.
pub open spec fn by_command(triples: Set<Triple>) -> Map<Seq<char>, (Seq<char>, Seq<char>)> {
    fold(sorted::<(Command, EventType, Role)>(triples), Map::<Seq<char>, (Seq<char>, Seq<char>)>::empty(), by_command_step())
}

/// For each event type of a dossier's labels its command and role.
pub fn event_type_map(proto_info: &ProtoInfo) -> (r: OrdMap<EventType, (Command, Role)>)
    requires
        proto_info.wf(),
    ensures
        r.wf_vals(),
        r.kv() == by_event(triples_of(proto_info@.role_event_map)),
{
    let triples = get_labels(proto_info);
    let mut r: OrdMap<EventType, (Command, Role)> = OrdMap::new();
    proof {
        triples.lemma_wf();
        assert(r.kv() =~= Map::<Seq<char>, (Seq<char>, Seq<char>)>::empty());
    }
    let mut i: usize = 0;
    while i < triples.len()
        invariant
            i <= triples.keys().len(),
            triples.wf(),
            r.wf_vals(),
            r.kv() == fold_upto(triples.keys(), Map::<Seq<char>, (Seq<char>, Seq<char>)>::empty(), by_event_step(), i as int),
        decreases triples.keys().len() - i,
    {
        let x = triples.get(i);
        r.put(x.1.duplicate(), (x.0.duplicate(), x.2.duplicate()));
        i += 1;
    }
    r
}

/// For each command of a dossier's labels its event type and role.
pub fn command_map(proto_info: &ProtoInfo) -> (r: OrdMap<Command, (EventType, Role)>)
    requires
        proto_info.wf(),
    ensures
        r.wf_vals(),
        r.kv() == by_command(triples_of(proto_info@.role_event_map)),
{
    let triples = get_labels(proto_info);
    let mut r: OrdMap<Command, (EventType, Role)> = OrdMap::new();
    proof {
        triples.lemma_wf();
        assert(r.kv() =~= Map::<Seq<char>, (Seq<char>, Seq<char>)>::empty());
    }
    let mut i: usize = 0;
    while i < triples.len()
        invariant
            i <= triples.keys().len(),
            triples.wf(),
            r.wf_vals(),
            r.kv() == fold_upto(triples.keys(), Map::<Seq<char>, (Seq<char>, Seq<char>)>::empty(), by_command_step(), i as int),
        decreases triples.keys().len() - i,
    {
        let x = triples.get(i);
        r.put(x.0.duplicate(), (x.1.duplicate(), x.2.duplicate()));
        i += 1;
    }
    r
}

/// Takes in an event type of the first protocol: a finding if the second
/// has it with another command or role.
pub open spec fn event_clash_step(m1: Map<Seq<char>, (Seq<char>, Seq<char>)>, m2: Map<Seq<char>, (Seq<char>, Seq<char>)>) -> spec_fn(Seq<ErrorView>, Seq<char>) -> Seq<ErrorView> {
    |acc: Seq<ErrorView>, t: Seq<char>|
        if m2.dom().contains(t) && m1[t] != m2[t] {
            acc.push(ErrorView::EventTypeOnDifferentLabels(t, m1[t].0, m1[t].1, m2[t].0, m2[t].1))
        } else {
            acc
        }
}

/// Takes in a command of the first protocol: a finding if the second has it
/// with another event type or role.
pub open spec fn command_clash_step(m1: Map<Seq<char>, (Seq<char>, Seq<char>)>, m2: Map<Seq<char>, (Seq<char>, Seq<char>)>) -> spec_fn(Seq<ErrorView>, Seq<char>) -> Seq<ErrorView> {
    |acc: Seq<ErrorView>, c: Seq<char>|
        if m2.dom().contains(c) && m1[c] != m2[c] {
            acc.push(ErrorView::CommandOnDifferentLabels(c, m1[c].0, m1[c].1, m2[c].0, m2[c].1))
        } else {
            acc
        }
}

/// The findings on event types that two role indices give to different
/// commands or roles, in the order of the event types.
pub open spec fn event_clashes(rem1: RoleLabels, rem2: RoleLabels) -> Seq<ErrorView> {
    let m1 = by_event(triples_of(rem1));
    let m2 = by_event(triples_of(rem2));
    fold(sorted::<EventType>(m1.dom()), Seq::<ErrorView>::empty(), event_clash_step(m1, m2))
}

/// The findings on commands that two role indices give to different event
/// types or roles, in the order of the commands.
pub open spec fn command_clashes(rem1: RoleLabels, rem2: RoleLabels) -> Seq<ErrorView> {
    let m1 = by_command(triples_of(rem1));
    let m2 = by_command(triples_of(rem2));
    fold(sorted::<Command>(m1.dom()), Seq::<ErrorView>::empty(), command_clash_step(m1, m2))
}

/// Checks that an event type that occurs in both dossiers has the same
/// command and role in both.
pub fn cross_protocol_event_type_errors(proto_info1: &ProtoInfo, proto_info2: &ProtoInfo) -> (errors: Vec<Error>)
    requires
        proto_info1.wf(),
        proto_info2.wf(),
    ensures
        errors_view(errors@) == event_clashes(proto_info1@.role_event_map, proto_info2@.role_event_map),
        errors_fit(errors@, 0),
{
    let map1 = event_type_map(proto_info1);
    let map2 = event_type_map(proto_info2);
    let ghost step = event_clash_step(map1.kv(), map2.kv());
    let mut errors: Vec<Error> = Vec::new();
    proof {
        map1.lemma_kv();
    }
    let mut i: usize = 0;
    while i < map1.len()
        invariant
            i <= map1.keys().len(),
            map1.wf_vals(),
            map2.wf_vals(),
            map1.keys().len() == map1.vals().len(),
            forall|q: int| 0 <= q < map1.keys().len() ==> map1.kv().dom().contains(#[trigger] map1.keys()[q]) && map1.kv()[map1.keys()[q]] == map1.vals()[q].key() && map1.vals()[q].valid(),
            step == event_clash_step(map1.kv(), map2.kv()),
            errors_view(errors@) == fold_upto(map1.keys(), Seq::<ErrorView>::empty(), step, i as int),
            errors_fit(errors@, 0),
        decreases map1.keys().len() - i,
    {
        let t = map1.key_at(i);
        let (c1, r1) = map1.val_at(i);
        match map2.lookup(t) {
            Some((c2, r2)) => {
                if !same(c1, c2) || !same(r1, r2) {
                    let ghost before = errors_view(errors@);
                    errors.push(Error::EventTypeOnDifferentLabels(t.duplicate(), c1.duplicate(), r1.duplicate(), c2.duplicate(), r2.duplicate()));
                    assert(errors_view(errors@) =~= before.push(ErrorView::EventTypeOnDifferentLabels(t@, c1@, r1@, c2@, r2@)));
                }
            },
            None => {},
        }
        i += 1;
    }
    errors
}

/// Checks that a command that occurs in both dossiers has the same event
/// type and role in both.
pub fn cross_protocol_command_errors(proto_info1: &ProtoInfo, proto_info2: &ProtoInfo) -> (errors: Vec<Error>)
    requires
        proto_info1.wf(),
        proto_info2.wf(),
    ensures
        errors_view(errors@) == command_clashes(proto_info1@.role_event_map, proto_info2@.role_event_map),
        errors_fit(errors@, 0),
{
    let map1 = command_map(proto_info1);
    let map2 = command_map(proto_info2);
    let ghost step = command_clash_step(map1.kv(), map2.kv());
    let mut errors: Vec<Error> = Vec::new();
    proof {
        map1.lemma_kv();
    }
    let mut i: usize = 0;
    while i < map1.len()
        invariant
            i <= map1.keys().len(),
            map1.wf_vals(),
            map2.wf_vals(),
            map1.keys().len() == map1.vals().len(),
            forall|q: int| 0 <= q < map1.keys().len() ==> map1.kv().dom().contains(#[trigger] map1.keys()[q]) && map1.kv()[map1.keys()[q]] == map1.vals()[q].key() && map1.vals()[q].valid(),
            step == command_clash_step(map1.kv(), map2.kv()),
            errors_view(errors@) == fold_upto(map1.keys(), Seq::<ErrorView>::empty(), step, i as int),
            errors_fit(errors@, 0),
        decreases map1.keys().len() - i,
    {
        let c = map1.key_at(i);
        let (t1, r1) = map1.val_at(i);
        match map2.lookup(c) {
            Some((t2, r2)) => {
                if !same(t1, t2) || !same(r1, r2) {
                    let ghost before = errors_view(errors@);
                    errors.push(Error::CommandOnDifferentLabels(c.duplicate(), t1.duplicate(), r1.duplicate(), t2.duplicate(), r2.duplicate()));
                    assert(errors_view(errors@) =~= before.push(ErrorView::CommandOnDifferentLabels(c@, t1@, r1@, t2@, r2@)));
                }
            },
            None => {},
        }
        i += 1;
    }
    errors
}

/// Checks that event types and commands that occur in both dossiers belong
/// to the same labels in both: first the findings on event types, then
/// those on commands.
pub fn check_interface(proto_info1: &ProtoInfo, proto_info2: &ProtoInfo) -> (errors: Vec<Error>)
    requires
        proto_info1.wf(),
        proto_info2.wf(),
    ensures
        errors_view(errors@) == event_clashes(proto_info1@.role_event_map, proto_info2@.role_event_map) + command_clashes(proto_info1@.role_event_map, proto_info2@.role_event_map),
        errors_fit(errors@, 0),
{
    let mut errors = cross_protocol_event_type_errors(proto_info1, proto_info2);
    let mut more = cross_protocol_command_errors(proto_info1, proto_info2);
    let ghost a = errors@;
    let ghost b = more@;
    errors.append(&mut more);
    proof {
        assert(errors@ =~= a + b);
        assert(errors_view(errors@) =~= errors_view(a) + errors_view(b));
    }
    errors
}

/// The roles of the protocols of a list.
pub open spec fn all_roles(ps: Seq<ProtoView>) -> Set<Seq<char>> {
    union_of(Seq::new(ps.len(), |i: int| ps[i].roles))
}

/// The roles of the protocols of a dossier.
pub fn roles_of(proto_info: &ProtoInfo) -> (r: OrdSet<Role>)
    requires
        proto_info.wf(),
    ensures
        r.wf(),
        r@ == all_roles(proto_info@.protocols),
{
    let ghost sets = Seq::new(proto_info@.protocols.len(), |i: int| proto_info@.protocols[i].roles);
    let mut r: OrdSet<Role> = OrdSet::new();
    proof {
        assert(r@ =~= union_of(sets.take(0)));
    }
    let mut i: usize = 0;
    while i < proto_info.protocols.len()
        invariant
            i <= proto_info.protocols.len(),
            proto_info.wf(),
            sets == Seq::new(proto_info@.protocols.len(), |i: int| proto_info@.protocols[i].roles),
            r.wf(),
            r@ == union_of(sets.take(i as int)),
        decreases proto_info.protocols.len() - i,
    {
        proof {
            assert(proto_info.protocols@[i as int].wf());
            lemma_union_take(sets, i as int);
        }
        r.extend(&proto_info.protocols[i].roles);
        i += 1;
    }
    proof {
        assert(sets.take(i as int) =~= sets);
    }
    r
}

/// The roles that occur in both dossiers.
pub fn get_interfacing_roles(proto_info1: &ProtoInfo, proto_info2: &ProtoInfo) -> (r: OrdSet<Role>)
    requires
        proto_info1.wf(),
        proto_info2.wf(),
    ensures
        r.wf(),
        r@ == all_roles(proto_info1@.protocols).intersect(all_roles(proto_info2@.protocols)),
{
    let roles1 = roles_of(proto_info1);
    let roles2 = roles_of(proto_info2);
    roles1.intersection(&roles2)
}

/// Takes in a label: its event type joins the set.
pub open spec fn event_step() -> spec_fn(Set<Seq<char>>, LabelKey) -> Set<Seq<char>> {
    |acc: Set<Seq<char>>, l: LabelKey| acc.insert(l.1[0])
}

/// The event types of a set of labels.
pub open spec fn events_of(labels: Set<LabelKey>) -> Set<Seq<char>> {
    fold(sorted::<SwarmLabel>(labels), Set::<Seq<char>>::empty(), event_step())
}

/// The event types of the first labels of a list are those of its labels.
proof fn lemma_events_upto(list: Seq<LabelKey>, upto: int, x: Seq<char>)
    requires
        0 <= upto <= list.len(),
    ensures
        fold_upto(list, Set::<Seq<char>>::empty(), event_step(), upto).contains(x) <==> exists|i: int| 0 <= i < upto && (#[trigger] list[i]).1[0] == x,
    decreases upto,
{
    if upto > 0 {
        lemma_events_upto(list, upto - 1, x);
        if exists|i: int| 0 <= i < upto - 1 && (#[trigger] list[i]).1[0] == x {
            let i = choose|i: int| 0 <= i < upto - 1 && (#[trigger] list[i]).1[0] == x;
            assert(0 <= i < upto && list[i].1[0] == x);
        }
        if exists|i: int| 0 <= i < upto && (#[trigger] list[i]).1[0] == x {
            let i = choose|i: int| 0 <= i < upto && (#[trigger] list[i]).1[0] == x;
            if i < upto - 1 {
                assert(0 <= i < upto - 1 && list[i].1[0] == x);
            }
        }
        if list[upto - 1].1[0] == x {
            assert(0 <= upto - 1 < upto && list[upto - 1].1[0] == x);
        }
    }
}

/// An event type is one of a finite set of labels exactly if a label of
/// the set carries it first.
pub proof fn lemma_events_of(labels: Set<LabelKey>, x: Seq<char>)
    requires
        labels.finite(),
    ensures
        events_of(labels).contains(x) <==> exists|l: LabelKey| #[trigger] labels.contains(l) && l.1[0] == x,
{
    let list = sorted::<SwarmLabel>(labels);
    crate::ordset::lemma_sorted_of::<SwarmLabel>(labels);
    lemma_events_upto(list, list.len() as int, x);
    if exists|i: int| 0 <= i < list.len() && (#[trigger] list[i]).1[0] == x {
        let i = choose|i: int| 0 <= i < list.len() && (#[trigger] list[i]).1[0] == x;
        assert(list.to_set().contains(list[i]));
        assert(labels.contains(list[i]) && list[i].1[0] == x);
    }
    if exists|l: LabelKey| #[trigger] labels.contains(l) && l.1[0] == x {
        let l = choose|l: LabelKey| #[trigger] labels.contains(l) && l.1[0] == x;
        assert(list.to_set().contains(l));
        let i = choose|i: int| 0 <= i < list.len() && list[i] == l;
        assert(0 <= i < list.len() && list[i].1[0] == x);
    }
}

/// The event types of a set of labels.
pub fn label_events(labels: &OrdSet<SwarmLabel>) -> (r: OrdSet<EventType>)
    requires
        labels.wf(),
        forall|l: LabelKey| labels@.contains(l) ==> l.1.len() > 0,
    ensures
        r.wf(),
        r@ == events_of(labels@),
{
    let mut r: OrdSet<EventType> = OrdSet::new();
    proof {
        labels.lemma_wf();
    }
    let mut j: usize = 0;
    while j < labels.len()
        invariant
            j <= labels.keys().len(),
            labels.wf(),
            forall|l: LabelKey| labels@.contains(l) ==> l.1.len() > 0,
            r.wf(),
            r@ == fold_upto(labels.keys(), Set::<Seq<char>>::empty(), event_step(), j as int),
        decreases labels.keys().len() - j,
    {
        r.insert(labels.get(j).get_event_type());
        j += 1;
    }
    r
}

/// Takes in a role: the event types of its labels in either role index join
/// the set.
pub open spec fn interfacing_step(rem1: RoleLabels, rem2: RoleLabels) -> spec_fn(Set<Seq<char>>, Seq<char>) -> Set<Seq<char>> {
    |acc: Set<Seq<char>>, r: Seq<char>| acc.union(events_of(set_at(rem1, r).union(set_at(rem2, r))))
}

/// The event types that the given roles emit in either role index.
pub open spec fn events_of_roles(roles: Set<Seq<char>>, rem1: RoleLabels, rem2: RoleLabels) -> Set<Seq<char>> {
    fold(sorted::<Role>(roles), Set::<Seq<char>>::empty(), interfacing_step(rem1, rem2))
}

/// The labels of a role in a role index, none for a role that it lacks.
pub fn labels_of_role(map: &RoleEventMap, role: &Role) -> (r: OrdSet<SwarmLabel>)
    requires
        map.wf_sets(),
    ensures
        r.wf(),
        r@ == set_at(map.sets(), role@),
{
    proof {
        map.lemma_wf_sets();
    }
    match map.get(role) {
        Some(labels) => {
            let r = labels.duplicate();
            proof {
                labels.lemma_same_keys(&r);
                assert(r@ == labels@);
            }
            r
        },
        None => OrdSet::new(),
    }
}

/// The event types that the roles of both dossiers emit in either.
pub fn get_interfacing_event_types(proto_info1: &ProtoInfo, proto_info2: &ProtoInfo) -> (r: OrdSet<EventType>)
    requires
        proto_info1.wf(),
        proto_info2.wf(),
    ensures
        r.wf(),
        r@ == events_of_roles(all_roles(proto_info1@.protocols).intersect(all_roles(proto_info2@.protocols)), proto_info1@.role_event_map, proto_info2@.role_event_map),
{
    let roles = get_interfacing_roles(proto_info1, proto_info2);
    let ghost step = interfacing_step(proto_info1@.role_event_map, proto_info2@.role_event_map);
    let mut r: OrdSet<EventType> = OrdSet::new();
    proof {
        roles.lemma_wf();
    }
    let mut i: usize = 0;
    while i < roles.len()
        invariant
            i <= roles.keys().len(),
            roles.wf(),
            proto_info1.wf(),
            proto_info2.wf(),
            step == interfacing_step(proto_info1@.role_event_map, proto_info2@.role_event_map),
            r.wf(),
            r@ == fold_upto(roles.keys(), Set::<Seq<char>>::empty(), step, i as int),
        decreases roles.keys().len() - i,
    {
        let role = roles.get(i);
        let mut labels = labels_of_role(&proto_info1.role_event_map, role);
        let more = labels_of_role(&proto_info2.role_event_map, role);
        labels.extend(&more);
        proof {
            assert forall|l: LabelKey| labels@.contains(l) implies l.1.len() > 0 by {
                if set_at(proto_info1.role_event_map.sets(), role@).contains(l) {
                    assert(proto_info1.role_event_map.holds(role@, l));
                } else {
                    assert(proto_info2.role_event_map.holds(role@, l));
                }
            }
        }
        let events = label_events(&labels);
        r.extend(&events);
        i += 1;
    }
    r
}

/// Whether a key stands at one of the first `upto` positions.
pub open spec fn among<A>(keys: Seq<A>, upto: int, k: A) -> bool {
    exists|q: int| 0 <= q < upto && q < keys.len() && keys[q] == k
}

/// Two maps of sets as one: a key of either maps to the items it has in
/// either, with the extra items.
pub open spec fn combined<A, B>(m1: Map<A, Set<B>>, m2: Map<A, Set<B>>, extra: Set<B>) -> Map<A, Set<B>> {
    Map::new(|k: A| m1.dom().contains(k) || m2.dom().contains(k), |k: A| set_at(m1, k).union(set_at(m2, k)).union(extra))
}

/// Combines two maps of sets: each key of either map gets the items that it
/// has in either, and the extra items if there are any.
pub fn combine_maps<K: Key, V: Key>(map1: OrdMap<K, OrdSet<V>>, map2: OrdMap<K, OrdSet<V>>, extra: Option<OrdSet<V>>) -> (r: OrdMap<K, OrdSet<V>>)
    requires
        map1.wf_sets(),
        map2.wf_sets(),
        extra is Some ==> extra->0.wf(),
    ensures
        r.wf_sets(),
        r.sets() == combined(map1.sets(), map2.sets(), if extra is Some {
            extra->0@
        } else {
            Set::empty()
        }),
{
    let extra = match extra {
        Some(e) => e,
        None => OrdSet::new(),
    };
    let ghost m1 = map1.sets();
    let ghost m2 = map2.sets();
    let ghost ex = extra@;
    let mut r: OrdMap<K, OrdSet<V>> = OrdMap::new();
    proof {
        map1.lemma_sets_keys();
        map2.lemma_sets_keys();
        map1.lemma_wf();
        map2.lemma_wf();
        assert(r.sets() =~= Map::new(|k: K::V| among(map1.keys(), 0, k), |k: K::V| set_at(m1, k).union(ex)));
    }
    let mut i: usize = 0;
    while i < map1.len()
        invariant
            i <= map1.keys().len(),
            map1.wf_sets(),
            extra.wf(),
            m1 == map1.sets(),
            ex == extra@,
            map1.keys().no_duplicates(),
            forall|k: K::V| map1.has(k) <==> #[trigger] m1.dom().contains(k),
            r.wf_sets(),
            r.sets() == Map::new(|k: K::V| among(map1.keys(), i as int, k), |k: K::V| set_at(m1, k).union(ex)),
        decreases map1.keys().len() - i,
    {
        let ghost before = r.sets();
        proof {
            map1.lemma_sets_at(i as int);
        }
        let k = map1.key_at(i);
        r.add_all(k, map1.val_at(i));
        r.add_all(k, &extra);
        proof {
            let kk = map1.keys()[i as int];
            let want = Map::new(|k: K::V| among(map1.keys(), i as int + 1, k), |k: K::V| set_at(m1, k).union(ex));
            assert(!among(map1.keys(), i as int, kk));
            assert forall|q: K::V| #[trigger] r.sets().dom().contains(q) <==> want.dom().contains(q) by {
                if among(map1.keys(), i as int, q) {
                    let p = choose|p: int| 0 <= p < i && p < map1.keys().len() && map1.keys()[p] == q;
                    assert(0 <= p < i + 1 && map1.keys()[p] == q);
                }
                if q == kk {
                    assert(0 <= i < i + 1 && map1.keys()[i as int] == q);
                }
                if among(map1.keys(), i as int + 1, q) {
                    let p = choose|p: int| 0 <= p < i + 1 && p < map1.keys().len() && map1.keys()[p] == q;
                    if p < i {
                        assert(among(map1.keys(), i as int, q));
                    }
                }
            }
            assert forall|q: K::V| r.sets().dom().contains(q) implies #[trigger] r.sets()[q] =~= want[q] by {
                if q == kk {
                    assert(set_at(before, kk) =~= Set::<V::V>::empty());
                }
            }
            assert(r.sets() =~~= want);
        }
        i += 1;
    }
    let ghost half = r.sets();
    proof {
        assert forall|k: K::V| among(map1.keys(), map1.keys().len() as int, k) <==> m1.dom().contains(k) by {
            if m1.dom().contains(k) {
                assert(map1.keys().contains(k));
                let p = choose|p: int| 0 <= p < map1.keys().len() && map1.keys()[p] == k;
                assert(among(map1.keys(), map1.keys().len() as int, k));
            }
            if among(map1.keys(), map1.keys().len() as int, k) {
                let p = choose|p: int| 0 <= p < map1.keys().len() && p < map1.keys().len() && map1.keys()[p] == k;
                assert(map1.keys().contains(k));
            }
        }
        assert(r.sets() =~~= Map::new(|k: K::V| m1.dom().contains(k) || among(map2.keys(), 0, k), |k: K::V| set_at(m1, k).union(if among(map2.keys(), 0, k) {
            set_at(m2, k)
        } else {
            Set::empty()
        }).union(ex)));
    }
    let mut j: usize = 0;
    while j < map2.len()
        invariant
            j <= map2.keys().len(),
            map2.wf_sets(),
            extra.wf(),
            m2 == map2.sets(),
            ex == extra@,
            map2.keys().no_duplicates(),
            forall|k: K::V| map2.has(k) <==> #[trigger] m2.dom().contains(k),
            r.wf_sets(),
            r.sets() == Map::new(|k: K::V| m1.dom().contains(k) || among(map2.keys(), j as int, k), |k: K::V| set_at(m1, k).union(if among(map2.keys(), j as int, k) {
                set_at(m2, k)
            } else {
                Set::empty()
            }).union(ex)),
        decreases map2.keys().len() - j,
    {
        let ghost before = r.sets();
        proof {
            map2.lemma_sets_at(j as int);
        }
        let k = map2.key_at(j);
        r.add_all(k, map2.val_at(j));
        r.add_all(k, &extra);
        proof {
            let kk = map2.keys()[j as int];
            let want = Map::new(|k: K::V| m1.dom().contains(k) || among(map2.keys(), j as int + 1, k), |k: K::V| set_at(m1, k).union(if among(map2.keys(), j as int + 1, k) {
                set_at(m2, k)
            } else {
                Set::empty()
            }).union(ex));
            assert(!among(map2.keys(), j as int, kk));
            assert(among(map2.keys(), j as int + 1, kk)) by {
                assert(0 <= j < j + 1 && map2.keys()[j as int] == kk);
            }
            assert forall|q: K::V| q != kk implies (among(map2.keys(), j as int, q) <==> among(map2.keys(), j as int + 1, q)) by {
                if among(map2.keys(), j as int, q) {
                    let p = choose|p: int| 0 <= p < j && p < map2.keys().len() && map2.keys()[p] == q;
                    assert(0 <= p < j + 1 && map2.keys()[p] == q);
                }
                if among(map2.keys(), j as int + 1, q) {
                    let p = choose|p: int| 0 <= p < j + 1 && p < map2.keys().len() && map2.keys()[p] == q;
                    assert(p < j);
                }
            }
            assert forall|q: K::V| #[trigger] r.sets().dom().contains(q) <==> want.dom().contains(q) by {
            }
            assert forall|q: K::V| r.sets().dom().contains(q) implies #[trigger] r.sets()[q] =~= want[q] by {
            }
            assert(r.sets() =~~= want);
        }
        j += 1;
    }
    proof {
        assert forall|k: K::V| among(map2.keys(), map2.keys().len() as int, k) <==> m2.dom().contains(k) by {
            if m2.dom().contains(k) {
                assert(map2.keys().contains(k));
                let p = choose|p: int| 0 <= p < map2.keys().len() && map2.keys()[p] == k;
                assert(among(map2.keys(), map2.keys().len() as int, k));
            }
            if among(map2.keys(), map2.keys().len() as int, k) {
                let p = choose|p: int| 0 <= p < map2.keys().len() && p < map2.keys().len() && map2.keys()[p] == k;
                assert(map2.keys().contains(k));
            }
        }
        assert(r.sets() =~~= combined(m1, m2, ex));
    }
    r
}

/// Takes in a second event type: both join the set if they differ and are
/// concurrent.
pub open spec fn pre_join_inner(conc: Set<Seq<Seq<char>>>, a: Seq<char>) -> spec_fn(Set<Seq<char>>, Seq<char>) -> Set<Seq<char>> {
    |acc: Set<Seq<char>>, b: Seq<char>|
        if a != b && conc.contains(pair_key(a, b)) {
            acc.insert(a).insert(b)
        } else {
            acc
        }
}

/// Takes in a first event type: it is held against every event type.
pub open spec fn pre_join_outer(conc: Set<Seq<Seq<char>>>, pre: Set<Seq<char>>) -> spec_fn(Set<Seq<char>>, Seq<char>) -> Set<Seq<char>> {
    |acc: Set<Seq<char>>, a: Seq<char>| fold(sorted::<EventType>(pre), acc, pre_join_inner(conc, a))
}

/// The event types of a set that are concurrent with another of the set.
pub open spec fn pre_joins(pre: Set<Seq<char>>, conc: Set<Seq<Seq<char>>>) -> Set<Seq<char>> {
    fold(sorted::<EventType>(pre), Set::<Seq<char>>::empty(), pre_join_outer(conc, pre))
}

/// Takes in an interfacing event type: it is a joining event type if event
/// types immediately before it are concurrent with each other, and stands
/// for those.
pub open spec fn joining_step(pre_map: SuccMap, conc: Set<Seq<Seq<char>>>) -> spec_fn(SuccMap, Seq<char>) -> SuccMap {
    |m: SuccMap, e: Seq<char>|
        {
            let joins = pre_joins(set_at(pre_map, e), conc);
            if joins == Set::<Seq<char>>::empty() {
                m
            } else {
                m.insert(e, joins)
            }
        }
}

/// The joining event types among the interfacing ones, each with the
/// concurrent event types immediately before it.
pub open spec fn joining_map(interfacing: Set<Seq<char>>, pre_map: SuccMap, conc: Set<Seq<Seq<char>>>) -> SuccMap {
    fold(sorted::<EventType>(interfacing), Map::<Seq<char>, Set<Seq<char>>>::empty(), joining_step(pre_map, conc))
}

/// The set at a key of a map of sets, empty for a key that it lacks.
pub fn set_of_key(map: &OrdMap<EventType, OrdSet<EventType>>, key: &EventType) -> (r: OrdSet<EventType>)
    requires
        map.wf_sets(),
    ensures
        r.wf(),
        r@ == set_at(map.sets(), key@),
{
    proof {
        map.lemma_wf_sets();
    }
    match map.get(key) {
        Some(set) => {
            let r = set.duplicate();
            proof {
                set.lemma_same_keys(&r);
                assert(r@ == set@);
            }
            r
        },
        None => OrdSet::new(),
    }
}

/// The joining event types of a dossier, each with the concurrent event
/// types immediately before it.
pub fn joining_event_types_map(proto_info: &ProtoInfo) -> (r: OrdMap<EventType, OrdSet<EventType>>)
    requires
        proto_info.wf(),
    ensures
        r.wf_sets(),
        r.sets() == joining_map(proto_info@.interfacing_events, proto_info@.immediately_pre, proto_info@.concurrent_events),
{
    let conc = &proto_info.concurrent_events;
    let ghost jstep = joining_step(proto_info@.immediately_pre, conc@);
    let mut r: OrdMap<EventType, OrdSet<EventType>> = OrdMap::new();
    proof {
        proto_info.interfacing_events.lemma_wf();
        assert(r.sets() =~= Map::<Seq<char>, Set<Seq<char>>>::empty());
    }
    let mut i: usize = 0;
    while i < proto_info.interfacing_events.len()
        invariant
            i <= proto_info.interfacing_events.keys().len(),
            proto_info.wf(),
            conc == &proto_info.concurrent_events,
            jstep == joining_step(proto_info@.immediately_pre, conc@),
            r.wf_sets(),
            r.sets() == fold_upto(proto_info.interfacing_events.keys(), Map::<Seq<char>, Set<Seq<char>>>::empty(), jstep, i as int),
        decreases proto_info.interfacing_events.keys().len() - i,
    {
        let e = proto_info.interfacing_events.get(i);
        let pre = set_of_key(&proto_info.immediately_pre, e);
        let ghost ostep = pre_join_outer(conc@, pre@);
        let mut joins: OrdSet<EventType> = OrdSet::new();
        proof {
            pre.lemma_wf();
        }
        let mut a: usize = 0;
        while a < pre.len()
            invariant
                a <= pre.keys().len(),
                pre.wf(),
                pre.keys() == sorted::<EventType>(pre@),
                conc.wf(),
                ostep == pre_join_outer(conc@, pre@),
                joins.wf(),
                joins@ == fold_upto(pre.keys(), Set::<Seq<char>>::empty(), ostep, a as int),
            decreases pre.keys().len() - a,
        {
            let e1 = pre.get(a);
            let ghost at_a = joins@;
            let ghost istep = pre_join_inner(conc@, e1@);
            let mut b: usize = 0;
            while b < pre.len()
                invariant
                    b <= pre.keys().len(),
                    pre.wf(),
                    conc.wf(),
                    istep == pre_join_inner(conc@, e1@),
                    joins.wf(),
                    joins@ == fold_upto(pre.keys(), at_a, istep, b as int),
                decreases pre.keys().len() - b,
            {
                let e2 = pre.get(b);
                if !same(e1, e2) {
                    let pair = unord_event_pair(e1.duplicate(), e2.duplicate());
                    if conc.contains(&pair) {
                        joins.insert(e1.duplicate());
                        joins.insert(e2.duplicate());
                    }
                }
                b += 1;
            }
            a += 1;
        }
        if !joins.is_empty() {
            r.put_set(e.duplicate(), joins);
        }
        i += 1;
    }
    r
}

/// Takes in a joining event type: it joins the set with the event types
/// that it stands for.
pub open spec fn flatten_step(m: SuccMap) -> spec_fn(Set<Seq<char>>, Seq<char>) -> Set<Seq<char>> {
    |acc: Set<Seq<char>>, j: Seq<char>| acc.union(m[j]).insert(j)
}

/// The keys of a map of sets with the items of its sets.
pub open spec fn flattened(m: SuccMap) -> Set<Seq<char>> {
    fold(sorted::<EventType>(m.dom()), Set::<Seq<char>>::empty(), flatten_step(m))
}

/// Whether an item is a key of a map of sets or an item of the set of a
/// key.
pub open spec fn named_in(m: SuccMap, x: Seq<char>) -> bool {
    exists|j: Seq<char>| #[trigger] m.dom().contains(j) && (x == j || m[j].contains(x))
}

/// What the first keys of a list give when flattened.
proof fn lemma_flattened_upto(m: SuccMap, list: Seq<Seq<char>>, upto: int, x: Seq<char>)
    requires
        0 <= upto <= list.len(),
    ensures
        fold_upto(list, Set::<Seq<char>>::empty(), flatten_step(m), upto).contains(x) <==> exists|i: int| 0 <= i < upto && (x == #[trigger] list[i] || m[list[i]].contains(x)),
    decreases upto,
{
    if upto > 0 {
        lemma_flattened_upto(m, list, upto - 1, x);
        if exists|i: int| 0 <= i < upto - 1 && (x == #[trigger] list[i] || m[list[i]].contains(x)) {
            let i = choose|i: int| 0 <= i < upto - 1 && (x == #[trigger] list[i] || m[list[i]].contains(x));
            assert(0 <= i < upto && (x == list[i] || m[list[i]].contains(x)));
        }
        if exists|i: int| 0 <= i < upto && (x == #[trigger] list[i] || m[list[i]].contains(x)) {
            let i = choose|i: int| 0 <= i < upto && (x == #[trigger] list[i] || m[list[i]].contains(x));
            if i < upto - 1 {
                assert(0 <= i < upto - 1 && (x == list[i] || m[list[i]].contains(x)));
            }
        }
        if x == list[upto - 1] || m[list[upto - 1]].contains(x) {
            assert(0 <= upto - 1 < upto && (x == list[upto - 1] || m[list[upto - 1]].contains(x)));
        }
    }
}

/// A map of sets with finitely many keys, flattened, holds its keys and
/// the items of their sets, and nothing else.
pub proof fn lemma_flattened(m: SuccMap, x: Seq<char>)
    requires
        m.dom().finite(),
    ensures
        flattened(m).contains(x) <==> named_in(m, x),
{
    let list = sorted::<EventType>(m.dom());
    crate::ordset::lemma_sorted_of::<EventType>(m.dom());
    lemma_flattened_upto(m, list, list.len() as int, x);
    if exists|i: int| 0 <= i < list.len() && (x == #[trigger] list[i] || m[list[i]].contains(x)) {
        let i = choose|i: int| 0 <= i < list.len() && (x == #[trigger] list[i] || m[list[i]].contains(x));
        assert(list.to_set().contains(list[i]));
        assert(m.dom().contains(list[i]) && (x == list[i] || m[list[i]].contains(x)));
    }
    if named_in(m, x) {
        let j = choose|j: Seq<char>| #[trigger] m.dom().contains(j) && (x == j || m[j].contains(x));
        assert(list.to_set().contains(j));
        let i = choose|i: int| 0 <= i < list.len() && list[i] == j;
        assert(0 <= i < list.len() && (x == list[i] || m[list[i]].contains(x)));
    }
}

/// The joining event types of a map with the event types before them.
pub fn flatten_joining_map(joining_event_types: &OrdMap<EventType, OrdSet<EventType>>) -> (r: OrdSet<EventType>)
    requires
        joining_event_types.wf_sets(),
    ensures
        r.wf(),
        r@ == flattened(joining_event_types.sets()),
{
    let ghost step = flatten_step(joining_event_types.sets());
    let mut r: OrdSet<EventType> = OrdSet::new();
    proof {
        joining_event_types.lemma_sets_keys();
    }
    let mut i: usize = 0;
    while i < joining_event_types.len()
        invariant
            i <= joining_event_types.keys().len(),
            joining_event_types.wf_sets(),
            step == flatten_step(joining_event_types.sets()),
            r.wf(),
            r@ == fold_upto(joining_event_types.keys(), Set::<Seq<char>>::empty(), step, i as int),
        decreases joining_event_types.keys().len() - i,
    {
        proof {
            joining_event_types.lemma_sets_at(i as int);
        }
        r.extend(joining_event_types.val_at(i));
        r.insert(joining_event_types.key_at(i).duplicate());
        i += 1;
    }
    r
}

/// Takes in a triple: its event type joins the set.
pub open spec fn triple_event_step() -> spec_fn(Set<Seq<char>>, Triple) -> Set<Seq<char>> {
    |acc: Set<Seq<char>>, x: Triple| acc.insert(x.1)
}

/// The event types of the labels of a role index.
pub open spec fn event_types_in(rem: RoleLabels) -> Set<Seq<char>> {
    fold(sorted::<(Command, EventType, Role)>(triples_of(rem)), Set::<Seq<char>>::empty(), triple_event_step())
}

/// The event types of the labels of a dossier's role index.
pub fn get_event_types(proto_info: &ProtoInfo) -> (r: OrdSet<EventType>)
    requires
        proto_info.wf(),
    ensures
        r.wf(),
        r@ == event_types_in(proto_info@.role_event_map),
{
    let triples = get_labels(proto_info);
    let mut r: OrdSet<EventType> = OrdSet::new();
    proof {
        triples.lemma_wf();
    }
    let mut i: usize = 0;
    while i < triples.len()
        invariant
            i <= triples.keys().len(),
            triples.wf(),
            r.wf(),
            r@ == fold_upto(triples.keys(), Set::<Seq<char>>::empty(), triple_event_step(), i as int),
        decreases triples.keys().len() - i,
    {
        r.insert(triples.get(i).1.duplicate());
        i += 1;
    }
    r
}

/// Takes in an event type of the second protocol: its pair with the given
/// one joins the set.
pub open spec fn cross_inner(a: Seq<char>) -> spec_fn(Set<Seq<Seq<char>>>, Seq<char>) -> Set<Seq<Seq<char>>> {
    |acc: Set<Seq<Seq<char>>>, b: Seq<char>| acc.insert(pair_key(a, b))
}

/// Takes in an event type of the first protocol: it is paired with every
/// event type of the second.
pub open spec fn cross_outer(others: Set<Seq<char>>) -> spec_fn(Set<Seq<Seq<char>>>, Seq<char>) -> Set<Seq<Seq<char>>> {
    |acc: Set<Seq<Seq<char>>>, a: Seq<char>| fold(sorted::<EventType>(others), acc, cross_inner(a))
}

/// The pairs of concurrent event types of two dossiers taken together:
/// those of either, and each event type of the one with each of the other,
/// the interfacing event types left out.
pub open spec fn concurrent_of(a: ProtoInfoView, b: ProtoInfoView, interfacing: Set<Seq<char>>) -> Set<Seq<Seq<char>>> {
    fold(sorted::<EventType>(event_types_in(a.role_event_map).difference(interfacing)), a.concurrent_events.union(b.concurrent_events), cross_outer(event_types_in(b.role_event_map).difference(interfacing)))
}

/// The pairs of event types that may be concurrent when two dossiers are
/// composed: any two from different dossiers that are not interfacing, and
/// those that were concurrent before.
pub fn get_concurrent_events(proto_info1: &ProtoInfo, proto_info2: &ProtoInfo, interfacing_event_types: &OrdSet<EventType>) -> (r: OrdSet<UnordEventPair>)
    requires
        proto_info1.wf(),
        proto_info2.wf(),
        interfacing_event_types.wf(),
    ensures
        r.wf(),
        r@ == concurrent_of(proto_info1@, proto_info2@, interfacing_event_types@),
{
    let mut r = proto_info1.concurrent_events.duplicate();
    proof {
        proto_info1.concurrent_events.lemma_same_keys(&r);
        assert(r@ == proto_info1.concurrent_events@);
    }
    r.extend(&proto_info2.concurrent_events);
    let events_proto1 = get_event_types(proto_info1).difference(interfacing_event_types);
    let events_proto2 = get_event_types(proto_info2).difference(interfacing_event_types);
    let ghost ostep = cross_outer(events_proto2@);
    let ghost start = r@;
    proof {
        events_proto1.lemma_wf();
        events_proto2.lemma_wf();
    }
    let mut i: usize = 0;
    while i < events_proto1.len()
        invariant
            i <= events_proto1.keys().len(),
            events_proto1.wf(),
            events_proto2.wf(),
            events_proto2.keys() == sorted::<EventType>(events_proto2@),
            ostep == cross_outer(events_proto2@),
            r.wf(),
            r@ == fold_upto(events_proto1.keys(), start, ostep, i as int),
        decreases events_proto1.keys().len() - i,
    {
        let a = events_proto1.get(i);
        let ghost at_a = r@;
        let ghost istep = cross_inner(a@);
        let mut j: usize = 0;
        while j < events_proto2.len()
            invariant
                j <= events_proto2.keys().len(),
                events_proto2.wf(),
                istep == cross_inner(a@),
                r.wf(),
                r@ == fold_upto(events_proto2.keys(), at_a, istep, j as int),
            decreases events_proto2.keys().len() - j,
        {
            let b = events_proto2.get(j);
            r.insert(unord_event_pair(a.duplicate(), b.duplicate()));
            j += 1;
        }
        i += 1;
    }
    r
}

/// What is known of two dossiers taken together, before joins are looked
/// for: the protocols, branching groups and findings of both in a row, the
/// maps and sets of both united, the event types of the roles that both
/// have as further interfacing event types, and the findings on their
/// interface.
pub open spec fn combine_two(a: ProtoInfoView, b: ProtoInfoView) -> ProtoInfoView {
    let interfacing = events_of_roles(all_roles(a.protocols).intersect(all_roles(b.protocols)), a.role_event_map, b.role_event_map);
    ProtoInfoView {
        protocols: a.protocols + b.protocols,
        role_event_map: combined(a.role_event_map, b.role_event_map, Set::empty()),
        concurrent_events: concurrent_of(a, b, interfacing),
        branching_events: a.branching_events + b.branching_events,
        joining_events: Map::empty(),
        immediately_pre: combined(a.immediately_pre, b.immediately_pre, Set::empty()),
        succeeding_events: combined(a.succeeding_events, b.succeeding_events, Set::empty()),
        interfacing_events: a.interfacing_events.union(b.interfacing_events).union(interfacing),
        infinitely_looping_events: a.infinitely_looping_events.union(b.infinitely_looping_events),
        interface_errors: a.interface_errors + b.interface_errors + (event_clashes(a.role_event_map, b.role_event_map) + command_clashes(a.role_event_map, b.role_event_map)),
    }
}

/// Combines what is known of two dossiers: see `combine_two`.
pub fn combine_two_proto_infos(proto_info1: ProtoInfo, proto_info2: ProtoInfo) -> (r: ProtoInfo)
    requires
        proto_info1.wf(),
        proto_info2.wf(),
    ensures
        r.wf(),
        r@ == combine_two(proto_info1@, proto_info2@),
{
    let mut interface_errors = check_interface(&proto_info1, &proto_info2);
    let new_interfacing = get_interfacing_event_types(&proto_info1, &proto_info2);
    let concurrent_events = get_concurrent_events(&proto_info1, &proto_info2, &new_interfacing);
    let ghost a = proto_info1@;
    let ghost b = proto_info2@;
    let ghost rem1 = proto_info1.role_event_map;
    let ghost rem2 = proto_info2.role_event_map;
    proof {
        rem1.lemma_sets_keys();
        rem2.lemma_sets_keys();
    }
    let ProtoInfo {
        protocols: mut protocols,
        role_event_map: role_event_map1,
        concurrent_events: _,
        branching_events: mut branching_events,
        joining_events: _,
        immediately_pre: immediately_pre1,
        succeeding_events: succeeding_events1,
        interfacing_events: mut interfacing_events,
        infinitely_looping_events: mut infinitely_looping_events,
        interface_errors: mut errors,
    } = proto_info1;
    let ProtoInfo {
        protocols: mut protocols2,
        role_event_map: role_event_map2,
        concurrent_events: _,
        branching_events: mut branching_events2,
        joining_events: _,
        immediately_pre: immediately_pre2,
        succeeding_events: succeeding_events2,
        interfacing_events: interfacing_events2,
        infinitely_looping_events: infinitely_looping_events2,
        interface_errors: mut errors2,
    } = proto_info2;
    let ghost ours = protocols@;
    let ghost theirs = protocols2@;
    protocols.append(&mut protocols2);
    let role_event_map = combine_maps(role_event_map1, role_event_map2, None);
    let ghost b1 = branching_events@;
    let ghost b2 = branching_events2@;
    branching_events.append(&mut branching_events2);
    let immediately_pre = combine_maps(immediately_pre1, immediately_pre2, None);
    let happens_after = combine_maps(succeeding_events1, succeeding_events2, None);
    interfacing_events.extend(&interfacing_events2);
    interfacing_events.extend(&new_interfacing);
    infinitely_looping_events.extend(&infinitely_looping_events2);
    let ghost e1 = errors@;
    let ghost e2 = errors2@;
    let ghost e3 = interface_errors@;
    errors.append(&mut errors2);
    errors.append(&mut interface_errors);
    let joining: OrdMap<EventType, OrdSet<EventType>> = OrdMap::new();
    proof {
        assert(joining.sets() =~= Map::<Seq<char>, Set<Seq<char>>>::empty());
        assert(protocols@ =~= ours + theirs);
        assert(branching_events@ =~= b1 + b2);
        assert(errors@ =~= e1 + e2 + e3);
        role_event_map.lemma_sets_keys();
        assert forall|r: Seq<char>, l: LabelKey| #[trigger] role_event_map.holds(r, l) implies l.1.len() > 0 by {
            assert(role_event_map.set_of(r).contains(l));
            assert(set_at(role_event_map.sets(), r).contains(l));
            if set_at(rem1.sets(), r).contains(l) {
                assert(rem1.set_of(r).contains(l));
                assert(rem1.holds(r, l));
            } else {
                assert(set_at(rem2.sets(), r).contains(l));
                assert(rem2.set_of(r).contains(l));
                assert(rem2.holds(r, l));
            }
        }
    }
    let r = ProtoInfo::new(protocols, role_event_map, concurrent_events, branching_events, joining, immediately_pre, happens_after, interfacing_events, infinitely_looping_events, errors);
    proof {
        assert(r@.protocols =~= a.protocols + b.protocols);
        assert(r@.branching_events =~= a.branching_events + b.branching_events);
        assert(r@.interface_errors =~= combine_two(a, b).interface_errors);
    }
    r
}

/// The first `upto` dossiers of a list combined, from the left.
pub open spec fn combine_upto(views: Seq<ProtoInfoView>, upto: int) -> ProtoInfoView
    decreases upto,
{
    if upto <= 1 {
        views[0]
    } else {
        combine_two(combine_upto(views, upto - 1), views[upto - 1])
    }
}

/// The dossier without protocols.
pub open spec fn empty_info() -> ProtoInfoView {
    ProtoInfoView {
        protocols: Seq::empty(),
        role_event_map: Map::empty(),
        concurrent_events: Set::empty(),
        branching_events: Seq::empty(),
        joining_events: Map::empty(),
        immediately_pre: Map::empty(),
        succeeding_events: Map::empty(),
        interfacing_events: Set::empty(),
        infinitely_looping_events: Set::empty(),
        interface_errors: Seq::empty(),
    }
}

/// A dossier with its joining event types found.
pub open spec fn with_joins(c: ProtoInfoView) -> ProtoInfoView {
    ProtoInfoView {
        protocols: c.protocols,
        role_event_map: c.role_event_map,
        concurrent_events: c.concurrent_events,
        branching_events: c.branching_events,
        joining_events: joining_map(c.interfacing_events, c.immediately_pre, c.concurrent_events),
        immediately_pre: c.immediately_pre,
        succeeding_events: c.succeeding_events,
        interfacing_events: c.interfacing_events,
        infinitely_looping_events: c.infinitely_looping_events,
        interface_errors: c.interface_errors,
    }
}

/// What is known of a list of dossiers taken together: they are combined
/// from the left, and then the joining event types are found.
pub open spec fn combine_all(views: Seq<ProtoInfoView>) -> ProtoInfoView {
    if views.len() == 0 {
        empty_info()
    } else {
        with_joins(combine_upto(views, views.len() as int))
    }
}

/// Combines what is known of the dossiers of a list: see `combine_all`.
pub fn combine_proto_infos(protos: Vec<ProtoInfo>) -> (r: ProtoInfo)
    requires
        forall|i: int| 0 <= i < protos@.len() ==> (#[trigger] protos@[i]).wf(),
    ensures
        r.wf(),
        r@ == combine_all(infos_view(protos@)),
{
    if protos.len() == 0 {
        let r = ProtoInfo::new_only_proto(Vec::new());
        proof {
            assert(r@.protocols =~= empty_info().protocols);
            assert(r@.branching_events =~= empty_info().branching_events);
            assert(r@.interface_errors =~= empty_info().interface_errors);
        }
        return r;
    }
    let ghost views = infos_view(protos@);
    let mut protos = protos;
    let mut combined = ProtoInfo::new_only_proto(Vec::new());
    core::mem::swap(&mut combined, &mut protos[0]);
    let mut i: usize = 1;
    while i < protos.len()
        invariant
            1 <= i <= protos.len(),
            protos@.len() == views.len(),
            forall|j: int| i <= j < protos@.len() ==> (#[trigger] protos@[j]).wf() && protos@[j]@ == views[j],
            combined.wf(),
            combined@ == combine_upto(views, i as int),
        decreases protos.len() - i,
    {
        let mut p = ProtoInfo::new_only_proto(Vec::new());
        core::mem::swap(&mut p, &mut protos[i]);
        combined = combine_two_proto_infos(combined, p);
        i += 1;
    }
    let joining = joining_event_types_map(&combined);
    combined.joining_events = joining;
    combined
}

/// What is known of a list of protocols taken together, with the findings
/// on confusion in each protocol.
pub open spec fn swarm_info(protos: Seq<(Seq<char>, Seq<(LabelKey, Seq<char>, Seq<char>)>)>) -> ProtoInfoView {
    confusion_checked(combine_all(prepared_all(protos)))
}

/// What is known of the protocols of a list and of their composition: each
/// protocol is ingested, the dossiers are combined, and each protocol is
/// checked for confusion.
pub fn swarms_to_proto_info(protos: InterfacingProtocols) -> (r: ProtoInfo)
    ensures
        r.wf(),
        r@ == swarm_info(protocols_view(protos.0@)),
{
    let combined_proto_info = combine_proto_infos(prepare_proto_infos(protos));
    confusion_free_proto_info(combined_proto_info)
}

/// The roles of the labels of a graph.
pub open spec fn label_roles(labels: Seq<LabelKey>) -> Set<Seq<char>> {
    Seq::new(labels.len(), |i: int| labels[i].2).to_set()
}

/// The roles that issue the commands of a graph.
pub fn graph_roles(graph: &SwarmGraph) -> (r: OrdSet<Role>)
    requires
        graph.wf(),
    ensures
        r.wf(),
        r@ == label_roles(graph.labels()),
{
    let ghost roles = Seq::new(graph.labels().len(), |i: int| graph.labels()[i].2);
    let mut r: OrdSet<Role> = OrdSet::new();
    proof {
        graph.lemma_wf();
        lemma_take_all(roles);
    }
    let count = graph.edge_count();
    let mut e: usize = 0;
    while e < count
        invariant
            e <= count,
            count == graph.labels().len(),
            graph.wf(),
            graph.edges().len() == graph.labels().len(),
            roles == Seq::new(graph.labels().len(), |i: int| graph.labels()[i].2),
            r.wf(),
            r@ == roles.take(e as int).to_set(),
        decreases count - e,
    {
        r.insert(graph.label(e).role.duplicate());
        proof {
            lemma_take_to_set(roles, e as int);
        }
        e += 1;
    }
    r
}

/// A swarm protocol as a graph with its initial node, and the roles that
/// take part in it.
pub struct SwarmView {
    pub nodes: Seq<Seq<char>>,
    pub edges: Seq<(usize, usize)>,
    pub labels: Seq<LabelKey>,
    pub initial: usize,
    pub roles: Set<Seq<char>>,
}

/// Takes in a role: the event types of its labels join the set.
pub open spec fn role_events_step(rem: RoleLabels) -> spec_fn(Set<Seq<char>>, Seq<char>) -> Set<Seq<char>> {
    |acc: Set<Seq<char>>, r: Seq<char>| acc.union(events_of(set_at(rem, r)))
}

/// The event types on which a protocol is composed with the ones before
/// it: those that the roles which it shares with them emit anywhere.
pub open spec fn interface_with(acc_roles: Set<Seq<char>>, roles: Set<Seq<char>>, rem: RoleLabels) -> Set<Seq<char>> {
    fold(sorted::<Role>(acc_roles.intersect(roles)), Set::<Seq<char>>::empty(), role_events_step(rem))
}

/// The composition of a composition with one more protocol: their product
/// over the interface between them, each state named by the names of its
/// pair with ` || ` between them.
pub open spec fn composed_with(acc: SwarmView, p: ProtoView, rem: RoleLabels) -> SwarmView {
    let interface = interface_with(acc.roles, label_roles(p.labels), rem);
    let prod = crate::composition::composition_machine::product::<SwarmLabel>(acc.nodes.len(), acc.edges, acc.labels, acc.initial, p.nodes.len(), p.edges, p.labels, p.initial->0, interface);
    SwarmView {
        nodes: Seq::new(prod.origin.len(), |x: int| acc.nodes[prod.origin[x].0 as int] + " || "@ + p.nodes[prod.origin[x].1 as int]),
        edges: prod.edges,
        labels: prod.labels,
        initial: 0,
        roles: acc.roles.union(label_roles(p.labels)),
    }
}

/// The composition of the first `upto` protocols, from the left.
pub open spec fn composition_upto(protocols: Seq<ProtoView>, rem: RoleLabels, upto: int) -> SwarmView
    decreases upto,
{
    if upto <= 1 {
        SwarmView { nodes: protocols[0].nodes, edges: protocols[0].edges, labels: protocols[0].labels, initial: protocols[0].initial->0, roles: label_roles(protocols[0].labels) }
    } else {
        composed_with(composition_upto(protocols, rem, upto - 1), protocols[upto - 1], rem)
    }
}

/// The composition of the protocols of a dossier: the empty graph where
/// there is none.
pub open spec fn composition(c: ProtoInfoView) -> SwarmView {
    if c.protocols.len() == 0 {
        SwarmView { nodes: Seq::empty(), edges: Seq::empty(), labels: Seq::empty(), initial: NO_NODE, roles: Set::empty() }
    } else {
        composition_upto(c.protocols, c.role_event_map, c.protocols.len() as int)
    }
}

/// Whether each protocol has an initial node and an event type on every
/// transition.
pub open spec fn composable(protocols: Seq<ProtoView>) -> bool {
    forall|i: int| 0 <= i < protocols.len() ==> (#[trigger] protocols[i]).initial is Some && protocols[i].initial->0 < protocols[i].nodes.len() && labelled(protocols[i].labels)
}

/// The composition of the protocols of a dossier as one graph: see
/// `composition`.
pub fn explicit_composition(proto_info: &ProtoInfo) -> (r: (SwarmGraph, usize))
    requires
        proto_info.wf(),
        composable(proto_info@.protocols),
    ensures
        r.0.wf(),
        labelled(r.0.labels()),
        r.0.nodes() == composition(proto_info@).nodes,
        r.0.edges() == composition(proto_info@).edges,
        r.0.labels() == composition(proto_info@).labels,
        r.1 == composition(proto_info@).initial,
        proto_info.protocols@.len() > 0 ==> r.1 < r.0.nodes().len(),
        drawn_from(r.0.labels(), proto_info@.protocols),
{
    if proto_info.protocols.len() == 0 {
        return (Digraph::new(), NO_NODE);
    }
    let ghost views = proto_info@.protocols;
    let ghost rem = proto_info@.role_event_map;
    proof {
        assert(proto_info.protocols@[0].wf());
        assert(views[0] == proto_info.protocols@[0]@);
    }
    let (g, i, _) = proto_info.protocols[0].get_triple();
    proof {
        assert forall|x: int| 0 <= x < g.labels().len() implies all_labels(views).contains(#[trigger] g.labels()[x]) by {
            assert(views[0].labels.contains(g.labels()[x]));
        }
    }
    let mut acc_roles = graph_roles(&g);
    let mut acc_g = g;
    let mut acc_i = i.unwrap();
    let mut k: usize = 1;
    while k < proto_info.protocols.len()
        invariant
            1 <= k <= proto_info.protocols.len(),
            proto_info.wf(),
            views == proto_info@.protocols,
            rem == proto_info@.role_event_map,
            composable(views),
            acc_g.wf(),
            labelled(acc_g.labels()),
            acc_roles.wf(),
            acc_i < acc_g.nodes().len(),
            (SwarmView { nodes: acc_g.nodes(), edges: acc_g.edges(), labels: acc_g.labels(), initial: acc_i, roles: acc_roles@ }) == composition_upto(views, rem, k as int),
            drawn_from(acc_g.labels(), views),
        decreases proto_info.protocols.len() - k,
    {
        proof {
            assert(proto_info.protocols@[k as int].wf());
            assert(views[k as int] == proto_info.protocols@[k as int]@);
        }
        let p = &proto_info.protocols[k];
        let p_roles = graph_roles(&p.graph);
        let shared = acc_roles.intersection(&p_roles);
        let ghost istep = role_events_step(rem);
        let mut interface: OrdSet<EventType> = OrdSet::new();
        proof {
            shared.lemma_wf();
        }
        let mut j: usize = 0;
        while j < shared.len()
            invariant
                j <= shared.keys().len(),
                shared.wf(),
                proto_info.wf(),
                rem == proto_info@.role_event_map,
                istep == role_events_step(rem),
                interface.wf(),
                interface@ == fold_upto(shared.keys(), Set::<Seq<char>>::empty(), istep, j as int),
            decreases shared.keys().len() - j,
        {
            let role = shared.get(j);
            let labels = labels_of_role(&proto_info.role_event_map, role);
            proof {
                assert forall|l: LabelKey| labels@.contains(l) implies l.1.len() > 0 by {
                    assert(proto_info.role_event_map.holds(role@, l));
                }
            }
            let events = label_events(&labels);
            interface.extend(&events);
            j += 1;
        }
        acc_roles.extend(&p_roles);
        let pg = p.graph.duplicate();
        let pi = p.initial.unwrap();
        let ghost before = SwarmView { nodes: acc_g.nodes(), edges: acc_g.edges(), labels: acc_g.labels(), initial: acc_i, roles: acc_roles@ };
        let ghost acc_labels = acc_g.labels();
        let ghost p_labels = pg.labels();
        proof {
            acc_g.lemma_wf();
            pg.lemma_wf();
        }
        let (graph, initial) = crate::composition::composition_machine::compose(acc_g, acc_i, pg, pi, interface, crate::composition::composition_machine::gen_state_name::<State>);
        proof {
            graph.lemma_wf();
            let want = composition_upto(views, rem, k as int + 1);
            assert forall|x: int| 0 <= x < graph.nodes().len() implies graph.nodes()[x] == want.nodes[x] by {
                assert(graph.nodes()[x] == graph.weights()[x].key());
            }
            assert(graph.nodes() =~= want.nodes);
            assert forall|x: int| 0 <= x < graph.labels().len() implies all_labels(views).contains(#[trigger] graph.labels()[x]) by {
                let l = graph.labels()[x];
                assert(crate::composition::composition_machine::from_either(l, acc_labels, p_labels));
                if acc_labels.contains(l) {
                    let y = choose|y: int| 0 <= y < acc_labels.len() && acc_labels[y] == l;
                    assert(all_labels(views).contains(acc_labels[y]));
                } else {
                    assert(views[k as int].labels.contains(l));
                }
            }
        }
        acc_g = graph;
        acc_i = initial;
        k += 1;
    }
    (acc_g, acc_i)
}

/// Whether each label of a list is a label of one of the protocols.
pub open spec fn drawn_from(labels: Seq<LabelKey>, protocols: Seq<ProtoView>) -> bool {
    forall|x: int| 0 <= x < labels.len() ==> all_labels(protocols).contains(#[trigger] labels[x])
}

/// Whether in some labels each command belongs to one label and each event
/// type to one label.
pub open spec fn unambiguous(labels: Set<LabelKey>) -> bool {
    forall|a: LabelKey, b: LabelKey| labels.contains(a) && labels.contains(b) && (a.0 == b.0 || a.1[0] == b.1[0]) ==> a == b
}

/// The labels of the protocols of a list.
pub open spec fn all_labels(protocols: Seq<ProtoView>) -> Set<LabelKey> {
    Set::new(|l: LabelKey| exists|j: int| 0 <= j < protocols.len() && (#[trigger] protocols[j]).labels.contains(l))
}

/// Confusion among labels does not arise by composition: where each
/// command and each event type of the protocols belongs to one label, the
/// same holds of a graph whose labels are drawn from the protocols, as
/// those of their composition are.
pub proof fn lemma_composition_unambiguous(labels: Seq<LabelKey>, protocols: Seq<ProtoView>)
    requires
        drawn_from(labels, protocols),
        unambiguous(all_labels(protocols)),
    ensures
        unambiguous(labels.to_set()),
{
    assert forall|a: LabelKey, b: LabelKey| labels.to_set().contains(a) && labels.to_set().contains(b) && (a.0 == b.0 || a.1[0] == b.1[0]) implies a == b by {
        let x = choose|x: int| 0 <= x < labels.len() && labels[x] == a;
        let y = choose|y: int| 0 <= y < labels.len() && labels[y] == b;
        assert(all_labels(protocols).contains(labels[x]));
        assert(all_labels(protocols).contains(labels[y]));
    }
}

/// A dossier with the composition of its protocols in their place: the
/// event types that follow each and those on loops without an end are read
/// off the composition.
pub open spec fn composed_info(c: ProtoInfoView) -> ProtoInfoView {
    let g = composition(c);
    let succ = succ_rounds(g.nodes.len(), g.edges, g.labels, g.initial, c.concurrent_events, Map::empty(), succ_fuel(g.edges));
    ProtoInfoView {
        protocols: seq![ProtoView {
            nodes: g.nodes,
            edges: g.edges,
            labels: g.labels,
            initial: Some(g.initial),
            errors: Seq::empty(),
            roles: Set::empty(),
        }],
        role_event_map: c.role_event_map,
        concurrent_events: c.concurrent_events,
        branching_events: c.branching_events,
        joining_events: c.joining_events,
        immediately_pre: c.immediately_pre,
        succeeding_events: succ,
        interfacing_events: c.interfacing_events,
        infinitely_looping_events: looping_events(g.nodes.len(), g.edges, g.labels, succ),
        interface_errors: c.interface_errors,
    }
}

/// Puts the composition of the protocols of a dossier in their place: see
/// `composed_info`.
pub fn explicit_composition_proto_info(proto_info: ProtoInfo) -> (r: ProtoInfo)
    requires
        proto_info.wf(),
        composable(proto_info@.protocols),
    ensures
        r.wf(),
        r@ == composed_info(proto_info@),
        r.protocols@.len() == 1,
        labelled(r.protocols@[0].graph.labels()),
{
    let (composed, composed_initial) = explicit_composition(&proto_info);
    let succeeding_events = after_not_concurrent(&composed, composed_initial, &proto_info.concurrent_events);
    let infinitely_looping_events = infinitely_looping_event_types(&composed, &succeeding_events);
    let only = ProtoStruct::new(composed, Some(composed_initial), Vec::new(), OrdSet::new());
    let mut r = proto_info;
    r.protocols = vec![only];
    r.succeeding_events = succeeding_events;
    r.infinitely_looping_events = infinitely_looping_events;
    proof {
        assert(only.wf());
        assert(errors_view(only.errors@) =~= Seq::<ErrorView>::empty());
        assert(r.protocols@[0] == only);
        assert(r@.protocols[0] == composed_info(proto_info@).protocols[0]);
        assert(r@.protocols =~= composed_info(proto_info@).protocols);
    }
    r
}

/// For each role the event types that it observes, as mathematical values.
pub type Subs = Map<Seq<char>, Set<Seq<char>>>;

/// The event types that a role observes: none for a role without entry.
pub fn sub_of(subs: &Subscriptions, role: &Role) -> (r: OrdSet<EventType>)
    requires
        subs.wf_sets(),
    ensures
        r.wf(),
        r@ == set_at(subs.sets(), role@),
{
    proof {
        subs.lemma_wf_sets();
    }
    match subs.get(role) {
        Some(set) => {
            let r = set.duplicate();
            proof {
                set.lemma_same_keys(&r);
                assert(r@ == set@);
            }
            r
        },
        None => OrdSet::new(),
    }
}

/// Whether a role observes an event type.
pub fn subscribes(subs: &Subscriptions, role: &Role, event_type: &EventType) -> (r: bool)
    requires
        subs.wf_sets(),
    ensures
        r == set_at(subs.sets(), role@).contains(event_type@),
{
    proof {
        subs.lemma_sets_keys();
    }
    subs.has_item(role, event_type)
}

/// An event type with the event types that follow it.
pub open spec fn and_after(succ: SuccMap, et: Seq<char>) -> Set<Seq<char>> {
    set_at(succ, et).insert(et)
}

/// An event type with the event types that follow it.
pub fn event_and_after(succeeding_events: &OrdMap<EventType, OrdSet<EventType>>, event_type: &EventType) -> (r: OrdSet<EventType>)
    requires
        succeeding_events.wf_sets(),
    ensures
        r.wf(),
        r@ == and_after(succeeding_events.sets(), event_type@),
{
    let mut r = set_of_key(succeeding_events, event_type);
    r.insert(event_type.duplicate());
    r
}

/// Takes in a role: it is involved if it observes one of the event types.
pub open spec fn involved_step(subs: Subs, events: Set<Seq<char>>) -> spec_fn(Set<Seq<char>>, Seq<char>) -> Set<Seq<char>> {
    |acc: Set<Seq<char>>, r: Seq<char>|
        if exists|x: Seq<char>| subs[r].contains(x) && events.contains(x) {
            acc.insert(r)
        } else {
            acc
        }
}

/// The roles that observe an event type or one that follows it.
pub open spec fn involved_roles(et: Seq<char>, succ: SuccMap, subs: Subs) -> Set<Seq<char>> {
    fold(sorted::<Role>(subs.dom()), Set::<Seq<char>>::empty(), involved_step(subs, and_after(succ, et)))
}

/// The roles that are involved after an event type: those that observe it
/// or an event type that follows it.
pub fn roles_on_path(event_type: EventType, proto_info: &ProtoInfo, subs: &Subscriptions) -> (r: OrdSet<Role>)
    requires
        proto_info.wf(),
        subs.wf_sets(),
    ensures
        r.wf(),
        r@ == involved_roles(event_type@, proto_info@.succeeding_events, subs.sets()),
{
    let succeeding_events = event_and_after(&proto_info.succeeding_events, &event_type);
    let ghost step = involved_step(subs.sets(), succeeding_events@);
    let mut r: OrdSet<Role> = OrdSet::new();
    proof {
        subs.lemma_sets_keys();
    }
    let mut i: usize = 0;
    while i < subs.len()
        invariant
            i <= subs.keys().len(),
            subs.wf_sets(),
            succeeding_events.wf(),
            step == involved_step(subs.sets(), succeeding_events@),
            r.wf(),
            r@ == fold_upto(subs.keys(), Set::<Seq<char>>::empty(), step, i as int),
        decreases subs.keys().len() - i,
    {
        proof {
            subs.lemma_sets_at(i as int);
        }
        if subs.val_at(i).intersects(&succeeding_events) {
            r.insert(subs.key_at(i).duplicate());
        }
        i += 1;
    }
    r
}

/// Whether all the roles observe an event type.
pub open spec fn all_observe(roles: Set<Seq<char>>, subs: Subs, t: Seq<char>) -> bool {
    forall|r: Seq<char>| roles.contains(r) ==> #[trigger] set_at(subs, r).contains(t)
}

/// Whether all the roles observe one and the same of the event types.
pub open spec fn share_one(events: Set<Seq<char>>, roles: Set<Seq<char>>, subs: Subs) -> bool {
    exists|t: Seq<char>| events.contains(t) && all_observe(roles, subs, t)
}

/// Whether there is an event type among the given ones that all the
/// given roles observe.
pub fn all_roles_sub_to_same(event_types: OrdSet<EventType>, involved_roles: &OrdSet<Role>, subs: &Subscriptions) -> (r: bool)
    requires
        event_types.wf(),
        involved_roles.wf(),
        subs.wf_sets(),
    ensures
        r == share_one(event_types@, involved_roles@, subs.sets()),
{
    let mut i: usize = 0;
    while i < event_types.len()
        invariant
            i <= event_types.keys().len(),
            event_types.wf(),
            involved_roles.wf(),
            subs.wf_sets(),
            forall|q: int| 0 <= q < i ==> !all_observe(involved_roles@, subs.sets(), #[trigger] event_types.keys()[q]),
        decreases event_types.keys().len() - i,
    {
        let t = event_types.get(i);
        let mut all = true;
        let mut j: usize = 0;
        while j < involved_roles.len()
            invariant
                j <= involved_roles.keys().len(),
                involved_roles.wf(),
                subs.wf_sets(),
                all == forall|q: int| 0 <= q < j ==> set_at(subs.sets(), #[trigger] involved_roles.keys()[q]).contains(t@),
            decreases involved_roles.keys().len() - j,
        {
            if !subscribes(subs, involved_roles.get(j), t) {
                all = false;
            }
            j += 1;
        }
        proof {
            if all {
                assert forall|r: Seq<char>| involved_roles@.contains(r) implies #[trigger] set_at(subs.sets(), r).contains(t@) by {
                    let q = choose|q: int| 0 <= q < involved_roles.keys().len() && involved_roles.keys()[q] == r;
                    assert(set_at(subs.sets(), involved_roles.keys()[q]).contains(t@));
                }
                assert(all_observe(involved_roles@, subs.sets(), t@));
                assert(event_types@.contains(t@));
            } else {
                let q = choose|q: int| 0 <= q < j && !set_at(subs.sets(), #[trigger] involved_roles.keys()[q]).contains(t@);
                assert(involved_roles.keys().contains(involved_roles.keys()[q]));
                assert(involved_roles@.contains(involved_roles.keys()[q]));
            }
        }
        if all {
            return true;
        }
        i += 1;
    }
    proof {
        if share_one(event_types@, involved_roles@, subs.sets()) {
            let t = choose|t: Seq<char>| event_types@.contains(t) && all_observe(involved_roles@, subs.sets(), t);
            let q = choose|q: int| 0 <= q < event_types.keys().len() && event_types.keys()[q] == t;
            assert(!all_observe(involved_roles@, subs.sets(), event_types.keys()[q]));
            assert(false);
        }
    }
    false
}

/// The direction in which the edges at a node are taken.
#[derive(Clone, Copy, Debug)]
pub enum Direction {
    Outgoing,
    Incoming,
}

/// The pairs of an event type with each later one of the first `upto`.
pub open spec fn pairs_row(evs: Seq<Seq<char>>, i: int, upto: int) -> Seq<Seq<Seq<char>>>
    decreases upto - i,
{
    if upto <= i + 1 {
        Seq::empty()
    } else {
        pairs_row(evs, i, upto - 1).push(pair_key(evs[i], evs[upto - 1]))
    }
}

/// The pairs of each of the first `upto` event types with each later one.
pub open spec fn pairs_rows(evs: Seq<Seq<char>>, upto: int) -> Seq<Seq<Seq<char>>>
    decreases upto,
{
    if upto <= 0 {
        Seq::empty()
    } else {
        pairs_rows(evs, upto - 1) + pairs_row(evs, upto - 1, evs.len() as int)
    }
}

/// The edges that leave or enter a node, the one added last first.
pub open spec fn edges_at(edges: Seq<(usize, usize)>, node: usize, direction: Direction) -> Seq<usize> {
    match direction {
        Direction::Outgoing => edges_from(edges, node),
        Direction::Incoming => edges_into(edges, node),
    }
}

/// The pairs of the event types of each two edges that leave or enter a
/// node: the first edge with each later one, then the second, and so on.
pub fn event_pairs_from_node(node: usize, graph: &SwarmGraph, direction: Direction) -> (r: Vec<UnordEventPair>)
    requires
        graph.wf(),
        labelled(graph.labels()),
        node < graph.nodes().len(),
    ensures
        all_valid(r@),
        keys_of(r@) == pairs_rows(edge_events(graph.labels(), edges_at(graph.edges(), node, direction)), edges_at(graph.edges(), node, direction).len() as int),
{
    let ids = match direction {
        Direction::Outgoing => graph.out_edges(node),
        Direction::Incoming => graph.in_edges(node),
    };
    let ghost evs = edge_events(graph.labels(), ids@);
    let mut r: Vec<UnordEventPair> = Vec::new();
    proof {
        graph.lemma_wf();
        assert(keys_of(r@) =~= pairs_rows(evs, 0));
    }
    let mut i: usize = 0;
    while i < ids.len()
        invariant
            i <= ids.len(),
            graph.wf(),
            labelled(graph.labels()),
            graph.edges().len() == graph.labels().len(),
            ids_in(ids@, graph.edges().len()),
            evs == edge_events(graph.labels(), ids@),
            all_valid(r@),
            keys_of(r@) == pairs_rows(evs, i as int),
        decreases ids.len() - i,
    {
        let ghost at_row = keys_of(r@);
        let mut j: usize = i + 1;
        proof {
            assert(at_row + pairs_row(evs, i as int, j as int) =~= at_row);
        }
        while j < ids.len()
            invariant
                i < j <= ids.len(),
                graph.wf(),
                labelled(graph.labels()),
                graph.edges().len() == graph.labels().len(),
                ids_in(ids@, graph.edges().len()),
                evs == edge_events(graph.labels(), ids@),
                all_valid(r@),
                keys_of(r@) == at_row + pairs_row(evs, i as int, j as int),
            decreases ids.len() - j,
        {
            let a = graph.label(ids[i]).get_event_type();
            let b = graph.label(ids[j]).get_event_type();
            let ghost before = keys_of(r@);
            let pair = unord_event_pair(a, b);
            r.push(pair);
            proof {
                assert(keys_of(r@) =~= before.push(pair.keys()));
                assert(keys_of(r@) =~= at_row + pairs_row(evs, i as int, j as int + 1));
            }
            j += 1;
        }
        i += 1;
    }
    r
}

/// Takes in a label that follows a transition: a finding if its role does
/// not observe the transition's event type.
pub open spec fn later_step(subs: Subs, et: Seq<char>, e: usize) -> spec_fn(Seq<ErrorView>, LabelKey) -> Seq<ErrorView> {
    |acc: Seq<ErrorView>, l: LabelKey|
        if set_at(subs, l.2).contains(et) {
            acc
        } else {
            acc.push(ErrorView::SwarmError(crate::swarm::ErrorView::LaterActiveRoleNotSubscribed(e, l.2)))
        }
}

/// Takes in a branching group: its event types join the set if the group
/// holds the given event type.
pub open spec fn group_step(et: Seq<char>) -> spec_fn(Set<Seq<char>>, Set<Seq<char>>) -> Set<Seq<char>> {
    |acc: Set<Seq<char>>, group: Set<Seq<char>>|
        if group.contains(et) {
            acc.union(group)
        } else {
            acc
        }
}

/// Takes in an edge: its event type joins the set if the given set holds it.
pub open spec fn within_step(labels: Seq<LabelKey>, set: Set<Seq<char>>) -> spec_fn(Set<Seq<char>>, usize) -> Set<Seq<char>> {
    |acc: Set<Seq<char>>, e: usize|
        if set.contains(event_at(labels, e)) {
            acc.insert(event_at(labels, e))
        } else {
            acc
        }
}

/// The event types that leave a node and branch together with the given
/// one in some branching group.
pub open spec fn branching_here(branching: Seq<Set<Seq<char>>>, edges: Seq<(usize, usize)>, labels: Seq<LabelKey>, node: usize, et: Seq<char>) -> Set<Seq<char>> {
    fold(edges_from(edges, node), Set::<Seq<char>>::empty(), within_step(labels, fold(branching, Set::<Seq<char>>::empty(), group_step(et))))
}

/// Takes in an involved role: a finding if it does not observe all of the
/// event types that branch here, with those that it lacks.
pub open spec fn branch_error_step(subs: Subs, here: Set<Seq<char>>, e: usize, node: usize) -> spec_fn(Seq<ErrorView>, Seq<char>) -> Seq<ErrorView> {
    |acc: Seq<ErrorView>, r: Seq<char>|
        if here.subset_of(set_at(subs, r)) {
            acc
        } else {
            acc.push(ErrorView::RoleNotSubscribedToBranch(sorted::<EventType>(here.difference(set_at(subs, r))), e, node, r))
        }
}

/// Takes in a pair of event types that enter a node: the pair and the
/// given event type join the set if the two are concurrent with each other
/// and neither is concurrent with the given one.
pub open spec fn join_step(conc: Set<Seq<Seq<char>>>, et: Seq<char>) -> spec_fn(Set<Seq<char>>, Seq<Seq<char>>) -> Set<Seq<char>> {
    |acc: Set<Seq<char>>, pair: Seq<Seq<char>>|
        if conc.contains(pair) && (forall|x: Seq<char>| pair.to_set().contains(x) ==> !conc.contains(#[trigger] pair_key(x, et))) {
            acc.union(pair.to_set()).insert(et)
        } else {
            acc
        }
}

/// The event types that a role has to observe for the join at a
/// transition: the concurrent event types that enter the transition's
/// source and are not concurrent with its event type, and that event type.
pub open spec fn join_set(conc: Set<Seq<Seq<char>>>, edges: Seq<(usize, usize)>, labels: Seq<LabelKey>, node: usize, et: Seq<char>) -> Set<Seq<char>> {
    let pairs = pairs_rows(edge_events(labels, edges_into(edges, node)), edges_into(edges, node).len() as int);
    fold(pairs, Set::<Seq<char>>::empty(), join_step(conc, et))
}

/// Takes in an involved role: a finding if it does not observe all of the
/// event types of the join, with those that it lacks.
pub open spec fn join_error_step(subs: Subs, needed: Set<Seq<char>>, e: usize) -> spec_fn(Seq<ErrorView>, Seq<char>) -> Seq<ErrorView> {
    |acc: Seq<ErrorView>, r: Seq<char>|
        if needed.subset_of(set_at(subs, r)) {
            acc
        } else {
            acc.push(ErrorView::RoleNotSubscribedToJoin(sorted::<EventType>(needed.difference(set_at(subs, r))), e, r))
        }
}

/// The findings on a transition of a composition against a subscription.
///
/// The role of the transition has to observe its event type, and so has
/// each role that can act directly after it. The roles involved after it
/// have to observe the event types that branch at its source if there is
/// more than one, and, if its event type is interfacing, the event types of
/// the join. If its event type lies on a loop without an end, the involved
/// roles have to share one event type of the loop.
pub open spec fn wf_edge_errors(c: ProtoInfoView, edges: Seq<(usize, usize)>, labels: Seq<LabelKey>, subs: Subs, node: usize, e: usize) -> Seq<ErrorView> {
    let et = event_at(labels, e);
    let role = labels[e as int].2;
    let involved = involved_roles(et, c.succeeding_events, subs);
    let here = branching_here(c.branching_events, edges, labels, node, et);
    let needed = join_set(c.concurrent_events, edges, labels, node, et);
    (if set_at(subs, role).contains(et) {
        Seq::<ErrorView>::empty()
    } else {
        seq![ErrorView::SwarmError(crate::swarm::ErrorView::ActiveRoleNotSubscribed(e))]
    }) + fold(active_not_conc(edges, labels, edges[e as int].1, et, c.concurrent_events), Seq::<ErrorView>::empty(), later_step(subs, et, e)) + (if here.len() > 1 {
        fold(sorted::<Role>(involved), Seq::<ErrorView>::empty(), branch_error_step(subs, here, e, node))
    } else {
        Seq::<ErrorView>::empty()
    }) + (if c.interfacing_events.contains(et) {
        fold(sorted::<Role>(involved), Seq::<ErrorView>::empty(), join_error_step(subs, needed, e))
    } else {
        Seq::<ErrorView>::empty()
    }) + (if c.infinitely_looping_events.contains(et) && !share_one(and_after(c.succeeding_events, et), involved, subs) {
        seq![ErrorView::LoopingError(e, sorted::<Role>(involved))]
    } else {
        Seq::<ErrorView>::empty()
    })
}

/// Takes in an edge that leaves a node: its findings follow the others.
pub open spec fn wf_edge_step(c: ProtoInfoView, edges: Seq<(usize, usize)>, labels: Seq<LabelKey>, subs: Subs, node: usize) -> spec_fn(Seq<ErrorView>, usize) -> Seq<ErrorView> {
    |acc: Seq<ErrorView>, e: usize| acc + wf_edge_errors(c, edges, labels, subs, node, e)
}

/// Takes in a node: each edge that leaves it, the one added last first.
pub open spec fn wf_node_step(c: ProtoInfoView, edges: Seq<(usize, usize)>, labels: Seq<LabelKey>, subs: Subs) -> spec_fn(Seq<ErrorView>, usize) -> Seq<ErrorView> {
    |acc: Seq<ErrorView>, n: usize| fold(edges_from(edges, n), acc, wf_edge_step(c, edges, labels, subs, n))
}

/// The findings of `well_formed` at an index of the protocols of a
/// dossier: for an index outside the list that the argument is invalid;
/// for a protocol without an initial node its own findings; for any other
/// the findings on its transitions, node by node in the order of a
/// depth-first search from the initial node, none where the initial node
/// is no node.
pub open spec fn wf_errors(c: ProtoInfoView, i: int, subs: Subs) -> Seq<ErrorView> {
    if i < 0 || i >= c.protocols.len() {
        seq![ErrorView::InvalidArg]
    } else if c.protocols[i].initial is None {
        c.protocols[i].errors
    } else if c.protocols[i].initial->0 >= c.protocols[i].nodes.len() {
        Seq::empty()
    } else {
        let p = c.protocols[i];
        fold(dfs_order(p.nodes.len(), p.edges, p.initial->0), Seq::<ErrorView>::empty(), wf_node_step(with_protocols(c, Seq::empty()), p.edges, p.labels, subs))
    }
}

/// The event types that leave a node and branch together with the given
/// one in some branching group of the dossier.
pub fn branching_at(proto_info: &ProtoInfo, graph: &SwarmGraph, node: usize, event_type: &EventType) -> (r: OrdSet<EventType>)
    requires
        proto_info.wf(),
        graph.wf(),
        labelled(graph.labels()),
        node < graph.nodes().len(),
    ensures
        r.wf(),
        r@ == branching_here(proto_info@.branching_events, graph.edges(), graph.labels(), node, event_type@),
{
    let ghost groups = sets_view(proto_info.branching_events@);
    let ghost gstep = group_step(event_type@);
    let mut with: OrdSet<EventType> = OrdSet::new();
    let mut g: usize = 0;
    while g < proto_info.branching_events.len()
        invariant
            g <= proto_info.branching_events.len(),
            proto_info.wf(),
            groups == sets_view(proto_info.branching_events@),
            gstep == group_step(event_type@),
            with.wf(),
            with@ == fold_upto(groups, Set::<Seq<char>>::empty(), gstep, g as int),
        decreases proto_info.branching_events.len() - g,
    {
        let group = &proto_info.branching_events[g];
        if group.contains(event_type) {
            with.extend(group);
        }
        g += 1;
    }
    let ids = graph.out_edges(node);
    let ghost wstep = within_step(graph.labels(), with@);
    let mut r: OrdSet<EventType> = OrdSet::new();
    proof {
        graph.lemma_wf();
    }
    let mut i: usize = 0;
    while i < ids.len()
        invariant
            i <= ids.len(),
            graph.wf(),
            labelled(graph.labels()),
            graph.edges().len() == graph.labels().len(),
            ids_in(ids@, graph.edges().len()),
            with.wf(),
            wstep == within_step(graph.labels(), with@),
            r.wf(),
            r@ == fold_upto(ids@, Set::<Seq<char>>::empty(), wstep, i as int),
        decreases ids.len() - i,
    {
        let t = graph.label(ids[i]).get_event_type();
        if with.contains(&t) {
            r.insert(t);
        }
        i += 1;
    }
    r
}

/// The event types that a role has to observe for the join at a
/// transition that leaves a node.
pub fn join_set_at(proto_info: &ProtoInfo, graph: &SwarmGraph, node: usize, event_type: &EventType) -> (r: OrdSet<EventType>)
    requires
        proto_info.wf(),
        graph.wf(),
        labelled(graph.labels()),
        node < graph.nodes().len(),
    ensures
        r.wf(),
        r@ == join_set(proto_info@.concurrent_events, graph.edges(), graph.labels(), node, event_type@),
{
    let conc = &proto_info.concurrent_events;
    let pairs = event_pairs_from_node(node, graph, Direction::Incoming);
    let ghost jstep = join_step(conc@, event_type@);
    let mut r: OrdSet<EventType> = OrdSet::new();
    let mut p: usize = 0;
    while p < pairs.len()
        invariant
            p <= pairs.len(),
            conc.wf(),
            all_valid(pairs@),
            jstep == join_step(conc@, event_type@),
            r.wf(),
            r@ == fold_upto(keys_of(pairs@), Set::<Seq<char>>::empty(), jstep, p as int),
        decreases pairs.len() - p,
    {
        let pair = &pairs[p];
        proof {
            assert(keys_of(pairs@)[p as int] == pair.keys());
        }
        if conc.contains(pair) {
            let mut none = true;
            let mut q: usize = 0;
            while q < pair.len()
                invariant
                    q <= pair.keys().len(),
                    pair.wf(),
                    conc.wf(),
                    none == forall|x: int| 0 <= x < q ==> !conc@.contains(#[trigger] pair_key(pair.keys()[x], event_type@)),
                decreases pair.keys().len() - q,
            {
                let other = unord_event_pair(pair.get(q).duplicate(), event_type.duplicate());
                if conc.contains(&other) {
                    none = false;
                }
                q += 1;
            }
            proof {
                let cond = forall|x: Seq<char>| pair.keys().to_set().contains(x) ==> !conc@.contains(#[trigger] pair_key(x, event_type@));
                if none {
                    assert forall|x: Seq<char>| pair.keys().to_set().contains(x) implies !conc@.contains(#[trigger] pair_key(x, event_type@)) by {
                        let i = choose|i: int| 0 <= i < pair.keys().len() && pair.keys()[i] == x;
                        assert(!conc@.contains(pair_key(pair.keys()[i], event_type@)));
                    }
                } else {
                    let i = choose|i: int| 0 <= i < q && conc@.contains(#[trigger] pair_key(pair.keys()[i], event_type@));
                    assert(pair.keys().contains(pair.keys()[i]));
                    assert(pair.keys().to_set().contains(pair.keys()[i]));
                    assert(!cond);
                }
            }
            if none {
                r.extend(pair);
                r.insert(event_type.duplicate());
            }
        }
        p += 1;
    }
    r
}

/// The findings on a transition of a composition against a subscription:
/// see `wf_edge_errors`.
pub fn well_formed_edge(proto_info: &ProtoInfo, graph: &SwarmGraph, subs: &Subscriptions, node: usize, e: usize) -> (errors: Vec<Error>)
    requires
        proto_info.wf(),
        graph.wf(),
        labelled(graph.labels()),
        subs.wf_sets(),
        node < graph.nodes().len(),
        e < graph.edges().len(),
    ensures
        errors_view(errors@) == wf_edge_errors(with_protocols(proto_info@, Seq::empty()), graph.edges(), graph.labels(), subs.sets(), node, e),
        errors_fit(errors@, graph.nodes().len()),
{
    let ghost c = with_protocols(proto_info@, Seq::empty());
    let ghost sv = subs.sets();
    let mut errors: Vec<Error> = Vec::new();
    proof {
        graph.lemma_wf();
    }
    let label = graph.label(e);
    let event_type = label.get_event_type();
    let ghost et = event_type@;
    // the role subscribes to the event type that it emits
    if !subscribes(subs, &label.role, &event_type) {
        errors.push(Error::SwarmError(crate::swarm::Error::ActiveRoleNotSubscribed(e)));
    }
    let ghost part1 = errors_view(errors@);
    proof {
        assert(part1 =~= if set_at(sv, label.role@).contains(et) {
            Seq::<ErrorView>::empty()
        } else {
            seq![ErrorView::SwarmError(crate::swarm::ErrorView::ActiveRoleNotSubscribed(e))]
        });
    }
    // the roles with a command directly after it subscribe to it
    let active = active_transitions_not_conc(graph.target(e), graph, &event_type, &proto_info.concurrent_events);
    let ghost lstep = later_step(sv, et, e);
    let mut a: usize = 0;
    proof {
        assert(part1 + Seq::<ErrorView>::empty() =~= part1);
    }
    while a < active.len()
        invariant
            a <= active.len(),
            subs.wf_sets(),
            sv == subs.sets(),
            et == event_type@,
            lstep == later_step(sv, et, e),
            errors_view(errors@) == part1 + fold_upto(keys_of(active@), Seq::<ErrorView>::empty(), lstep, a as int),
            errors_fit(errors@, graph.nodes().len()),
        decreases active.len() - a,
    {
        let successor = &active[a];
        proof {
            assert(keys_of(active@)[a as int] == successor.key());
        }
        if !subscribes(subs, &successor.role, &event_type) {
            let ghost before = fold_upto(keys_of(active@), Seq::<ErrorView>::empty(), lstep, a as int);
            let ghost prev = errors_view(errors@);
            errors.push(Error::SwarmError(crate::swarm::Error::LaterActiveRoleNotSubscribed(e, successor.role.duplicate())));
            proof {
                let x = ErrorView::SwarmError(crate::swarm::ErrorView::LaterActiveRoleNotSubscribed(e, successor.role@));
                assert(errors_view(errors@) =~= prev.push(x));
                assert(errors_view(errors@) =~= part1 + before.push(x));
            }
        }
        a += 1;
    }
    let ghost part2 = errors_view(errors@);
    let involved = roles_on_path(event_type.duplicate(), proto_info, subs);
    proof {
        involved.lemma_wf();
    }
    // the involved roles subscribe to the event types that branch here
    let here = branching_at(proto_info, graph, node, &event_type);
    proof {
        here.lemma_wf();
        assert(part2 + Seq::<ErrorView>::empty() =~= part2);
    }
    if here.len() > 1 {
        let ghost bstep = branch_error_step(sv, here@, e, node);
        let mut r: usize = 0;
        while r < involved.len()
            invariant
                r <= involved.keys().len(),
                involved.wf(),
                here.wf(),
                subs.wf_sets(),
                sv == subs.sets(),
                node < graph.nodes().len(),
                bstep == branch_error_step(sv, here@, e, node),
                errors_view(errors@) == part2 + fold_upto(involved.keys(), Seq::<ErrorView>::empty(), bstep, r as int),
                errors_fit(errors@, graph.nodes().len()),
            decreases involved.keys().len() - r,
        {
            let role = involved.get(r);
            let missing = here.difference(&sub_of(subs, role));
            proof {
                missing.lemma_wf();
                if here@.subset_of(set_at(sv, role@)) {
                    assert(missing@ =~= Set::<Seq<char>>::empty());
                } else {
                    let x = choose|x: Seq<char>| here@.contains(x) && !set_at(sv, role@).contains(x);
                    assert(missing@.contains(x));
                }
            }
            if !missing.is_empty() {
                let ghost before = fold_upto(involved.keys(), Seq::<ErrorView>::empty(), bstep, r as int);
                let ghost prev = errors_view(errors@);
                let event_types = missing.to_vec();
                errors.push(Error::RoleNotSubscribedToBranch(event_types, e, node, role.duplicate()));
                proof {
                    let x = ErrorView::RoleNotSubscribedToBranch(missing.keys(), e, node, role@);
                    assert(errors_view(errors@) =~= prev.push(x));
                    assert(errors_view(errors@) =~= part2 + before.push(x));
                }
            }
            r += 1;
        }
    }
    let ghost part3 = errors_view(errors@);
    // the involved roles subscribe to the event types of the join
    proof {
        assert(part3 + Seq::<ErrorView>::empty() =~= part3);
    }
    if proto_info.interfacing_events.contains(&event_type) {
        let needed = join_set_at(proto_info, graph, node, &event_type);
        let ghost jstep = join_error_step(sv, needed@, e);
        let mut r: usize = 0;
        while r < involved.len()
            invariant
                r <= involved.keys().len(),
                involved.wf(),
                needed.wf(),
                subs.wf_sets(),
                sv == subs.sets(),
                jstep == join_error_step(sv, needed@, e),
                errors_view(errors@) == part3 + fold_upto(involved.keys(), Seq::<ErrorView>::empty(), jstep, r as int),
                errors_fit(errors@, graph.nodes().len()),
            decreases involved.keys().len() - r,
        {
            let role = involved.get(r);
            let missing = needed.difference(&sub_of(subs, role));
            proof {
                missing.lemma_wf();
                if needed@.subset_of(set_at(sv, role@)) {
                    assert(missing@ =~= Set::<Seq<char>>::empty());
                } else {
                    let x = choose|x: Seq<char>| needed@.contains(x) && !set_at(sv, role@).contains(x);
                    assert(missing@.contains(x));
                }
            }
            if !missing.is_empty() {
                let ghost before = fold_upto(involved.keys(), Seq::<ErrorView>::empty(), jstep, r as int);
                let ghost prev = errors_view(errors@);
                let event_types = missing.to_vec();
                errors.push(Error::RoleNotSubscribedToJoin(event_types, e, role.duplicate()));
                proof {
                    let x = ErrorView::RoleNotSubscribedToJoin(missing.keys(), e, role@);
                    assert(errors_view(errors@) =~= prev.push(x));
                    assert(errors_view(errors@) =~= part3 + before.push(x));
                }
            }
            r += 1;
        }
    }
    let ghost part4 = errors_view(errors@);
    // the involved roles share an event type of a loop without an end
    if proto_info.infinitely_looping_events.contains(&event_type) {
        let t_and_after_t = event_and_after(&proto_info.succeeding_events, &event_type);
        if !all_roles_sub_to_same(t_and_after_t, &involved, subs) {
            errors.push(Error::LoopingError(e, involved.to_vec()));
            proof {
                assert(errors_view(errors@) =~= part4 + seq![ErrorView::LoopingError(e, involved.keys())]);
            }
        }
    }
    proof {
        assert(part4 + Seq::<ErrorView>::empty() =~= part4);
        assert(errors_view(errors@) =~= wf_edge_errors(c, graph.edges(), graph.labels(), sv, node, e));
    }
    errors
}

/// Checks the protocol at an index of a dossier against a subscription:
/// see `wf_errors`. Confusion-freeness is not checked.
pub fn well_formed(proto_info: &ProtoInfo, proto_pointer: usize, subs: &Subscriptions) -> (errors: Vec<Error>)
    requires
        proto_info.wf(),
        subs.wf_sets(),
        proto_pointer < proto_info.protocols@.len() ==> labelled(proto_info.protocols@[proto_pointer as int].graph.labels()),
    ensures
        errors_view(errors@) == wf_errors(proto_info@, proto_pointer as int, subs.sets()),
        proto_pointer < proto_info.protocols@.len() ==> errors_fit(errors@, proto_info.protocols@[proto_pointer as int].graph.nodes().len()),
{
    if proto_pointer >= proto_info.protocols.len() {
        let r = vec![Error::InvalidArg];
        assert(errors_view(r@) =~= seq![ErrorView::InvalidArg]);
        return r;
    }
    let proto = &proto_info.protocols[proto_pointer];
    proof {
        assert(proto.wf());
        assert(proto_info@.protocols[proto_pointer as int] == proto@);
    }
    let initial = match proto.initial {
        Some(i) => i,
        None => {
            let r = duplicate_errors(&proto.errors);
            proof {
                assert(r@.len() == errors_view(r@).len());
                assert forall|i: int| 0 <= i < r@.len() implies Error::fits(#[trigger] r@[i]@, proto.graph.nodes().len()) by {
                    assert(errors_view(r@)[i] == errors_view(proto.errors@)[i]);
                }
            }
            return r;
        },
    };
    let graph = &proto.graph;
    let ghost c = with_protocols(proto_info@, Seq::empty());
    let ghost sv = subs.sets();
    let ghost nstep = wf_node_step(c, graph.edges(), graph.labels(), sv);
    let mut errors: Vec<Error> = Vec::new();
    if initial >= graph.node_count() {
        assert(errors_view(errors@) =~= Seq::<ErrorView>::empty());
        return errors;
    }
    let walk = graph.dfs(initial);
    let mut w: usize = 0;
    while w < walk.len()
        invariant
            w <= walk.len(),
            proto_info.wf(),
            graph.wf(),
            labelled(graph.labels()),
            subs.wf_sets(),
            c == with_protocols(proto_info@, Seq::empty()),
            sv == subs.sets(),
            ids_in(walk@, graph.nodes().len()),
            nstep == wf_node_step(c, graph.edges(), graph.labels(), sv),
            errors_view(errors@) == fold_upto(walk@, Seq::<ErrorView>::empty(), nstep, w as int),
            errors_fit(errors@, graph.nodes().len()),
        decreases walk.len() - w,
    {
        let node = walk[w];
        let ids = graph.out_edges(node);
        let ghost at_node = errors_view(errors@);
        let ghost estep = wf_edge_step(c, graph.edges(), graph.labels(), sv, node);
        let mut i: usize = 0;
        while i < ids.len()
            invariant
                i <= ids.len(),
                proto_info.wf(),
                graph.wf(),
                labelled(graph.labels()),
                subs.wf_sets(),
                c == with_protocols(proto_info@, Seq::empty()),
                sv == subs.sets(),
                node < graph.nodes().len(),
                ids_in(ids@, graph.edges().len()),
                estep == wf_edge_step(c, graph.edges(), graph.labels(), sv, node),
                errors_view(errors@) == fold_upto(ids@, at_node, estep, i as int),
                errors_fit(errors@, graph.nodes().len()),
            decreases ids.len() - i,
        {
            let mut more = well_formed_edge(proto_info, graph, subs, node, ids[i]);
            let ghost a = errors@;
            let ghost b = more@;
            errors.append(&mut more);
            proof {
                assert(errors@ =~= a + b);
                assert(errors_view(errors@) =~= errors_view(a) + errors_view(b));
            }
            i += 1;
        }
        w += 1;
    }
    errors
}

/// A dossier in which each protocol has the findings of `well_formed`
/// after its own.
pub open spec fn wf_checked(c: ProtoInfoView, subs: Subs) -> ProtoInfoView {
    with_protocols(c, Seq::new(c.protocols.len(), |i: int| with_errors(c.protocols[i], wf_errors(c, i, subs))))
}

/// Whether each protocol has an event type on every transition.
pub open spec fn all_labelled(protocols: Seq<ProtoView>) -> bool {
    forall|i: int| 0 <= i < protocols.len() ==> labelled((#[trigger] protocols[i]).labels)
}

/// Adds to each protocol the findings of `well_formed` on it.
pub fn well_formed_proto_info(proto_info: ProtoInfo, subs: &Subscriptions) -> (r: ProtoInfo)
    requires
        proto_info.wf(),
        subs.wf_sets(),
        all_labelled(proto_info@.protocols),
    ensures
        r.wf(),
        r@ == wf_checked(proto_info@, subs.sets()),
{
    let ghost given = proto_info;
    let mut r = proto_info;
    let mut i: usize = 0;
    while i < r.protocols.len()
        invariant
            i <= r.protocols@.len(),
            r.wf(),
            given.wf(),
            subs.wf_sets(),
            all_labelled(given@.protocols),
            same_derived(r, given),
            r.protocols@.len() == given.protocols@.len(),
            forall|j: int| 0 <= j < r.protocols@.len() ==> same_but_errors(#[trigger] r.protocols@[j], given.protocols@[j]),
            forall|j: int| i <= j < r.protocols@.len() ==> (#[trigger] r.protocols@[j]).errors == given.protocols@[j].errors,
            forall|j: int| 0 <= j < i ==> errors_view((#[trigger] r.protocols@[j]).errors@) == errors_view(given.protocols@[j].errors@) + wf_errors(given@, j, subs.sets()),
        decreases r.protocols@.len() - i,
    {
        proof {
            assert(r.protocols@[i as int].wf());
            assert(given@.protocols[i as int] == given.protocols@[i as int]@);
            assert(labelled(given@.protocols[i as int].labels));
            assert(r@.protocols[i as int] == given@.protocols[i as int]);
            assert(with_protocols(r@, Seq::empty()) == with_protocols(given@, Seq::empty()));
        }
        let mut more = well_formed(&r, i, subs);
        let ghost before = r;
        let ghost old_errors = r.protocols@[i as int].errors@;
        let ghost added = more@;
        r.protocols[i].errors.append(&mut more);
        proof {
            assert(r.protocols@[i as int].errors@ =~= old_errors + added);
            assert(errors_view(r.protocols@[i as int].errors@) =~= errors_view(old_errors) + errors_view(added));
            assert forall|j: int| 0 <= j < r.protocols@.len() implies (#[trigger] r.protocols@[j]).wf() by {
                if j != i {
                    assert(r.protocols@[j] == before.protocols@[j]);
                } else {
                    assert(before.protocols@[j].wf());
                    assert(given.protocols@[j].wf());
                }
            }
        }
        i += 1;
    }
    proof {
        assert(r@.protocols =~= wf_checked(given@, subs.sets()).protocols);
    }
    r
}

/// Whether each protocol without findings has an initial node and an event
/// type on every transition.
pub open spec fn ready(protocols: Seq<ProtoView>) -> bool {
    forall|i: int| 0 <= i < protocols.len() ==> ready_one(#[trigger] protocols[i])
}

/// Whether a protocol, if it has no findings, has an initial node and an
/// event type on every transition.
pub open spec fn ready_one(p: ProtoView) -> bool {
    p.errors.len() == 0 ==> p.initial is Some && p.initial->0 < p.nodes.len() && labelled(p.labels)
}

/// A protocol without findings on its shape has an initial node and an event
/// type on every transition.
pub proof fn lemma_prepared_ready(proto: (Seq<char>, Seq<(LabelKey, Seq<char>, Seq<char>)>))
    ensures
        ready(prepared(proto).protocols),
{
    let p = prepared(proto).protocols[0];
    if p.errors.len() == 0 {
        assert(log_errors(proto.1, proto.1.len() as int).len() == 0);
        lemma_no_log_errors(proto.1, proto.1.len() as int);
        assert(proto_initial(proto) is Some);
        let nodes = proto_nodes(proto);
        let i = state_index(nodes, proto.0);
        assert(0 <= i < nodes.len() && nodes[i] == proto.0);
        assert forall|k: int| 0 <= k < p.labels.len() implies (#[trigger] p.labels[k]).1.len() > 0 by {
            assert(proto.1[k].0.1.len() == 1);
        }
    }
}

/// Combining dossiers of ready protocols gives ready protocols.
pub proof fn lemma_combine_ready(views: Seq<ProtoInfoView>, upto: int)
    requires
        1 <= upto <= views.len(),
        forall|j: int| 0 <= j < views.len() ==> ready(#[trigger] views[j].protocols),
    ensures
        ready(combine_upto(views, upto).protocols),
    decreases upto,
{
    if upto > 1 {
        lemma_combine_ready(views, upto - 1);
        let a = combine_upto(views, upto - 1).protocols;
        let b = views[upto - 1].protocols;
        assert(ready(b));
        assert forall|i: int| 0 <= i < (a + b).len() implies ready_one(#[trigger] (a + b)[i]) by {
            if i < a.len() {
                assert((a + b)[i] == a[i]);
            } else {
                assert((a + b)[i] == b[i - a.len()]);
            }
        }
    } else {
        assert(ready(views[0].protocols));
    }
}

/// In what is known of a list of protocols each protocol without findings
/// has an initial node and an event type on every transition.
pub proof fn lemma_swarm_info_ready(protos: Seq<(Seq<char>, Seq<(LabelKey, Seq<char>, Seq<char>)>)>)
    ensures
        ready(swarm_info(protos).protocols),
{
    let views = prepared_all(protos);
    assert forall|j: int| 0 <= j < views.len() implies ready(#[trigger] views[j].protocols) by {
        lemma_prepared_ready(protos[j]);
    }
    let c = combine_all(views);
    if views.len() > 0 {
        lemma_combine_ready(views, views.len() as int);
    }
    assert(ready(c.protocols));
    let r = swarm_info(protos).protocols;
    assert forall|i: int| 0 <= i < r.len() implies ready_one(#[trigger] r[i]) by {
        assert(r[i] == with_errors(c.protocols[i], confusion_free_errors(c.protocols, i)));
        if r[i].errors.len() == 0 {
            assert(c.protocols[i].errors.len() == 0);
        }
    }
}

/// Whether a dossier has a finding.
pub open spec fn has_errors(c: ProtoInfoView) -> bool {
    (exists|i: int| 0 <= i < c.protocols.len() && (#[trigger] c.protocols[i]).errors.len() > 0) || c.interface_errors.len() > 0
}

/// A graph with the findings on it.
pub struct ReportView {
    pub nodes: Seq<Seq<char>>,
    pub edges: Seq<(usize, usize)>,
    pub labels: Seq<LabelKey>,
    pub errors: Seq<ErrorView>,
}

impl ErrorReport {
    pub open spec fn view(&self) -> Seq<ReportView> {
        Seq::new(self.0@.len(), |i: int| ReportView { nodes: self.0@[i].0.nodes(), edges: self.0@[i].0.edges(), labels: self.0@[i].0.labels(), errors: errors_view(self.0@[i].1@) })
    }
}

/// The findings of a dossier as a report: those of each protocol with its
/// graph, and last those on interfaces with an empty graph.
pub open spec fn report_of(c: ProtoInfoView) -> Seq<ReportView> {
    Seq::new(c.protocols.len(), |i: int| ReportView { nodes: c.protocols[i].nodes, edges: c.protocols[i].edges, labels: c.protocols[i].labels, errors: c.protocols[i].errors }).push(ReportView { nodes: Seq::empty(), edges: Seq::empty(), labels: Seq::empty(), errors: c.interface_errors })
}

/// Whether a report has no finding.
pub open spec fn report_empty(report: Seq<ReportView>) -> bool {
    forall|i: int| 0 <= i < report.len() ==> (#[trigger] report[i]).errors.len() == 0
}

/// The report of `check` on a list of protocols and a subscription: the
/// findings on the protocols and their interfaces if there are any, else
/// the findings on the composition against the subscription.
pub open spec fn check_report(protos: Seq<(Seq<char>, Seq<(LabelKey, Seq<char>, Seq<char>)>)>, subs: Subs) -> Seq<ReportView> {
    let c = swarm_info(protos);
    if has_errors(c) {
        report_of(c)
    } else {
        report_of(wf_checked(composed_info(c), subs))
    }
}

/// Checks that the composition of the protocols is well-formed for the
/// subscription: see `check_report`.
pub fn check(protos: InterfacingProtocols, subs: &Subscriptions) -> (r: ErrorReport)
    requires
        subs.wf_sets(),
    ensures
        r.wf(),
        r@ == check_report(protocols_view(protos.0@), subs.sets()),
{
    let ghost views = protocols_view(protos.0@);
    let combined_proto_info = swarms_to_proto_info(protos);
    if !combined_proto_info.no_errors() {
        proof {
            lemma_no_errors(&combined_proto_info);
        }
        return proto_info_to_error_report(combined_proto_info);
    }
    proof {
        lemma_no_errors(&combined_proto_info);
        lemma_swarm_info_ready(views);
        lemma_ready_composable(combined_proto_info@);
    }
    let composition = explicit_composition_proto_info(combined_proto_info);
    proof {
        assert(all_labelled(composition@.protocols)) by {
            assert(composition@.protocols[0] == composition.protocols@[0]@);
        }
    }
    let composition_checked = well_formed_proto_info(composition, subs);
    proto_info_to_error_report(composition_checked)
}

/// A dossier has no findings exactly if `no_errors` says so.
pub proof fn lemma_no_errors(proto_info: &ProtoInfo)
    ensures
        has_errors(proto_info@) == !((forall|i: int| 0 <= i < proto_info.protocols@.len() ==> (#[trigger] proto_info.protocols@[i]).errors@.len() == 0) && proto_info.interface_errors@.len() == 0),
{
    let c = proto_info@;
    if has_errors(c) {
        if exists|i: int| 0 <= i < c.protocols.len() && (#[trigger] c.protocols[i]).errors.len() > 0 {
            let i = choose|i: int| 0 <= i < c.protocols.len() && (#[trigger] c.protocols[i]).errors.len() > 0;
            assert(proto_info.protocols@[i].errors@.len() > 0);
        }
    } else {
        assert forall|i: int| 0 <= i < proto_info.protocols@.len() implies (#[trigger] proto_info.protocols@[i]).errors@.len() == 0 by {
            assert(c.protocols[i].errors.len() == 0);
        }
    }
}

/// Ready protocols without findings can be composed.
pub proof fn lemma_ready_composable(c: ProtoInfoView)
    requires
        ready(c.protocols),
        !has_errors(c),
    ensures
        composable(c.protocols),
{
    assert forall|i: int| 0 <= i < c.protocols.len() implies (#[trigger] c.protocols[i]).initial is Some && c.protocols[i].initial->0 < c.protocols[i].nodes.len() && labelled(c.protocols[i].labels) by {
        assert(c.protocols[i].errors.len() == 0);
    }
}

/// A subscription with a flag that says whether nothing was new so far.
pub type SubState = (Subs, bool);

/// A role is made to observe event types: the flag falls if the role had
/// no entry or lacked one of them.
pub open spec fn add_sub(st: SubState, role: Seq<char>, events: Set<Seq<char>>) -> SubState {
    (map_add(st.0, role, events), st.1 && st.0.dom().contains(role) && events.subset_of(st.0[role]))
}

/// Makes a role observe event types. Says whether the role had an entry
/// that held all of them already.
pub fn add_to_sub(role: Role, event_types: OrdSet<EventType>, subs: &mut Subscriptions) -> (unchanged: bool)
    requires
        old(subs).wf_sets(),
        event_types.wf(),
    ensures
        final(subs).wf_sets(),
        (final(subs).sets(), unchanged) == add_sub((old(subs).sets(), true), role@, event_types@),
{
    proof {
        subs.lemma_sets_keys();
    }
    subs.add_all(&role, &event_types)
}

/// The set of one event type.
pub open spec fn only(et: Seq<char>) -> Set<Seq<char>> {
    Set::<Seq<char>>::empty().insert(et)
}

/// Takes in a label that follows a transition: its role observes the
/// transition's event type.
pub open spec fn exact_later_step(et: Seq<char>) -> spec_fn(SubState, LabelKey) -> SubState {
    |st: SubState, l: LabelKey| add_sub(st, l.2, only(et))
}

/// Takes in an involved role: it observes the given event types.
pub open spec fn exact_role_step(events: Set<Seq<char>>) -> spec_fn(SubState, Seq<char>) -> SubState {
    |st: SubState, r: Seq<char>| add_sub(st, r, events)
}

/// Takes in a transition that leaves a node, as the rules of
/// well-formedness ask: its role observes its event type, and so does
/// each role that can act directly after it; the roles involved after it
/// observe the event types that branch at the node if there is more than
/// one, and, if its event type is interfacing, the event types of the join.
pub open spec fn exact_edge_step(c: ProtoInfoView, edges: Seq<(usize, usize)>, labels: Seq<LabelKey>, node: usize) -> spec_fn(SubState, usize) -> SubState {
    |st: SubState, e: usize|
        {
            let et = event_at(labels, e);
            let s1 = add_sub(st, labels[e as int].2, only(et));
            let s2 = fold(active_not_conc(edges, labels, edges[e as int].1, et, c.concurrent_events), s1, exact_later_step(et));
            let involved = sorted::<Role>(involved_roles(et, c.succeeding_events, s2.0));
            let here = branching_here(c.branching_events, edges, labels, node, et);
            let s3 = if here.len() > 1 {
                fold(involved, s2, exact_role_step(here))
            } else {
                s2
            };
            if c.interfacing_events.contains(et) {
                fold(involved, s3, exact_role_step(join_set(c.concurrent_events, edges, labels, node, et)))
            } else {
                s3
            }
        }
}

/// Takes in a node: each edge that leaves it, the one added last first.
pub open spec fn exact_node_step(c: ProtoInfoView, edges: Seq<(usize, usize)>, labels: Seq<LabelKey>) -> spec_fn(SubState, usize) -> SubState {
    |st: SubState, n: usize| fold(edges_from(edges, n), st, exact_edge_step(c, edges, labels, n))
}

/// One round of the rules over a graph, node by node in the order of a
/// depth-first search from the initial node: the subscription after it,
/// and whether the round brought nothing new.
pub open spec fn exact_round(c: ProtoInfoView, nodes: nat, edges: Seq<(usize, usize)>, labels: Seq<LabelKey>, initial: usize, subs: Subs) -> SubState {
    if initial >= nodes {
        (subs, true)
    } else {
        fold(dfs_order(nodes, edges, initial), (subs, true), exact_node_step(with_protocols(c, Seq::empty()), edges, labels))
    }
}

/// One round of the rules of well-formedness over a graph: each
/// transition adds to the subscription what the rules ask of it. Says
/// whether the round brought nothing new.
pub fn exact_wf_sub_step(proto_info: &ProtoInfo, graph: &SwarmGraph, initial: usize, subscriptions: &mut Subscriptions) -> (is_stable: bool)
    requires
        proto_info.wf(),
        graph.wf(),
        labelled(graph.labels()),
        old(subscriptions).wf_sets(),
    ensures
        final(subscriptions).wf_sets(),
        (final(subscriptions).sets(), is_stable) == exact_round(proto_info@, graph.nodes().len(), graph.edges(), graph.labels(), initial, old(subscriptions).sets()),
{
    if initial >= graph.node_count() {
        return true;
    }
    let ghost c = with_protocols(proto_info@, Seq::empty());
    let ghost nstep = exact_node_step(c, graph.edges(), graph.labels());
    let ghost start = (old(subscriptions).sets(), true);
    let mut is_stable = true;
    let walk = graph.dfs(initial);
    proof {
        graph.lemma_wf();
    }
    let mut w: usize = 0;
    while w < walk.len()
        invariant
            w <= walk.len(),
            proto_info.wf(),
            graph.wf(),
            labelled(graph.labels()),
            graph.edges().len() == graph.labels().len(),
            subscriptions.wf_sets(),
            c == with_protocols(proto_info@, Seq::empty()),
            ids_in(walk@, graph.nodes().len()),
            nstep == exact_node_step(c, graph.edges(), graph.labels()),
            (subscriptions.sets(), is_stable) == fold_upto(walk@, start, nstep, w as int),
        decreases walk.len() - w,
    {
        let node = walk[w];
        let ids = graph.out_edges(node);
        let ghost at_node = (subscriptions.sets(), is_stable);
        let ghost estep = exact_edge_step(c, graph.edges(), graph.labels(), node);
        let mut i: usize = 0;
        while i < ids.len()
            invariant
                i <= ids.len(),
                proto_info.wf(),
                graph.wf(),
                labelled(graph.labels()),
                graph.edges().len() == graph.labels().len(),
                subscriptions.wf_sets(),
                c == with_protocols(proto_info@, Seq::empty()),
                node < graph.nodes().len(),
                ids_in(ids@, graph.edges().len()),
                estep == exact_edge_step(c, graph.edges(), graph.labels(), node),
                (subscriptions.sets(), is_stable) == fold_upto(ids@, at_node, estep, i as int),
            decreases ids.len() - i,
        {
            let e = ids[i];
            let label = graph.label(e);
            let event_type = label.get_event_type();
            let ghost et = event_type@;
            let ghost s0 = (subscriptions.sets(), is_stable);
            // the role subscribes to the event type that it emits
            let same = add_to_sub(label.role.duplicate(), OrdSet::singleton(event_type.duplicate()), subscriptions);
            is_stable = same && is_stable;
            let ghost s1 = (subscriptions.sets(), is_stable);
            proof {
                assert(s1 == add_sub(s0, label.role@, only(et)));
            }
            // the roles with a command directly after it subscribe to it
            let active = active_transitions_not_conc(graph.target(e), graph, &event_type, &proto_info.concurrent_events);
            let ghost lstep = exact_later_step(et);
            let mut a: usize = 0;
            while a < active.len()
                invariant
                    a <= active.len(),
                    subscriptions.wf_sets(),
                    et == event_type@,
                    lstep == exact_later_step(et),
                    (subscriptions.sets(), is_stable) == fold_upto(keys_of(active@), s1, lstep, a as int),
                decreases active.len() - a,
            {
                proof {
                    assert(keys_of(active@)[a as int] == active@[a as int].key());
                }
                let same = add_to_sub(active[a].role.duplicate(), OrdSet::singleton(event_type.duplicate()), subscriptions);
                is_stable = same && is_stable;
                a += 1;
            }
            let ghost s2 = (subscriptions.sets(), is_stable);
            let involved = roles_on_path(event_type.duplicate(), proto_info, subscriptions);
            proof {
                involved.lemma_wf();
            }
            // the involved roles subscribe to the event types that branch here
            let here = branching_at(proto_info, graph, node, &event_type);
            proof {
                here.lemma_wf();
            }
            if here.len() > 1 {
                let ghost rstep = exact_role_step(here@);
                let mut r: usize = 0;
                while r < involved.len()
                    invariant
                        r <= involved.keys().len(),
                        involved.wf(),
                        here.wf(),
                        subscriptions.wf_sets(),
                        rstep == exact_role_step(here@),
                        (subscriptions.sets(), is_stable) == fold_upto(involved.keys(), s2, rstep, r as int),
                    decreases involved.keys().len() - r,
                {
                    let same = add_to_sub(involved.get(r).duplicate(), here.duplicate(), subscriptions);
                    is_stable = same && is_stable;
                    r += 1;
                }
            }
            let ghost s3 = (subscriptions.sets(), is_stable);
            // the involved roles subscribe to the event types of the join
            if proto_info.interfacing_events.contains(&event_type) {
                let events_to_add = join_set_at(proto_info, graph, node, &event_type);
                let ghost rstep = exact_role_step(events_to_add@);
                let mut r: usize = 0;
                while r < involved.len()
                    invariant
                        r <= involved.keys().len(),
                        involved.wf(),
                        events_to_add.wf(),
                        subscriptions.wf_sets(),
                        rstep == exact_role_step(events_to_add@),
                        (subscriptions.sets(), is_stable) == fold_upto(involved.keys(), s3, rstep, r as int),
                    decreases involved.keys().len() - r,
                {
                    let same = add_to_sub(involved.get(r).duplicate(), events_to_add.duplicate(), subscriptions);
                    is_stable = same && is_stable;
                    r += 1;
                }
            }
            i += 1;
        }
        w += 1;
    }
    is_stable
}

/// Takes in an involved role: it observes the event type.
pub open spec fn looping_role_step(t: Seq<char>) -> spec_fn(Subs, Seq<char>) -> Subs {
    |s: Subs, r: Seq<char>| map_add(s, r, only(t))
}

/// Takes in an event type on a loop without an end: unless the roles
/// involved after it share an event type of the loop, each of them
/// observes it.
pub open spec fn looping_step(succ: SuccMap) -> spec_fn(Subs, Seq<char>) -> Subs {
    |s: Subs, t: Seq<char>|
        {
            let involved = involved_roles(t, succ, s);
            if share_one(and_after(succ, t), involved, s) {
                s
            } else {
                fold(sorted::<Role>(involved), s, looping_role_step(t))
            }
        }
}

/// A subscription in which the roles involved in a loop without an end
/// share an event type of the loop.
pub open spec fn with_looping(c: ProtoInfoView, subs: Subs) -> Subs {
    fold(sorted::<EventType>(c.infinitely_looping_events), subs, looping_step(c.succeeding_events))
}

/// Makes the roles involved in each loop without an end share an event
/// type of the loop: see `with_looping`.
pub fn add_looping_event_types(proto_info: &ProtoInfo, subscriptions: &mut Subscriptions)
    requires
        proto_info.wf(),
        old(subscriptions).wf_sets(),
    ensures
        final(subscriptions).wf_sets(),
        final(subscriptions).sets() == with_looping(proto_info@, old(subscriptions).sets()),
{
    let looping = &proto_info.infinitely_looping_events;
    let ghost lstep = looping_step(proto_info@.succeeding_events);
    let ghost start = old(subscriptions).sets();
    proof {
        looping.lemma_wf();
    }
    let mut i: usize = 0;
    while i < looping.len()
        invariant
            i <= looping.keys().len(),
            proto_info.wf(),
            looping == &proto_info.infinitely_looping_events,
            subscriptions.wf_sets(),
            lstep == looping_step(proto_info@.succeeding_events),
            subscriptions.sets() == fold_upto(looping.keys(), start, lstep, i as int),
        decreases looping.keys().len() - i,
    {
        let t = looping.get(i);
        let t_and_after_t = event_and_after(&proto_info.succeeding_events, t);
        let involved = roles_on_path(t.duplicate(), proto_info, subscriptions);
        proof {
            involved.lemma_wf();
        }
        if !all_roles_sub_to_same(t_and_after_t, &involved, subscriptions) {
            let ghost at_t = subscriptions.sets();
            let ghost rstep = looping_role_step(t@);
            let mut r: usize = 0;
            while r < involved.len()
                invariant
                    r <= involved.keys().len(),
                    involved.wf(),
                    subscriptions.wf_sets(),
                    rstep == looping_role_step(t@),
                    subscriptions.sets() == fold_upto(involved.keys(), at_t, rstep, r as int),
                decreases involved.keys().len() - r,
            {
                subscriptions.add_all(involved.get(r), &OrdSet::singleton(t.duplicate()));
                r += 1;
            }
        }
        i += 1;
    }
}

/// A round of the rules over a graph, as a map from the subscription
/// before it to the subscription after it and whether nothing was new.
pub open spec fn exact_round_of(c: ProtoInfoView, nodes: nat, edges: Seq<(usize, usize)>, labels: Seq<LabelKey>, initial: usize) -> spec_fn(Subs) -> SubState {
    |subs: Subs| exact_round(c, nodes, edges, labels, initial, subs)
}

/// The rounds of the rules from a subscription on: until a round brings
/// nothing new, and no more rounds than `fuel`.
pub open spec fn exact_rounds(c: ProtoInfoView, nodes: nat, edges: Seq<(usize, usize)>, labels: Seq<LabelKey>, initial: usize, subs: Subs, fuel: nat) -> Subs {
    until_stable(exact_round_of(c, nodes, edges, labels, initial), subs, fuel)
}

/// The number of rounds after which a subscription has stopped growing at
/// the latest: each round before the last gives a role an entry or a
/// further event type, a role is one of the subscription or of a
/// transition, and an event type is one of a transition.
pub open spec fn sub_fuel(roles: nat, edges: nat) -> nat {
    if roles + edges > u64::MAX {
        u128::MAX as nat
    } else {
        ((roles + edges) * (edges + 1) + 1) as nat
    }
}

/// The number of rounds after which a subscription has stopped growing at
/// the latest.
pub fn rounds_for(roles: usize, edges: usize) -> (fuel: u128)
    ensures
        fuel == sub_fuel(roles as nat, edges as nat),
{
    let r: u128 = roles as u128 + edges as u128;
    let e: u128 = edges as u128 + 1;
    if r > 0xffff_ffff_ffff_ffff {
        u128::MAX
    } else {
        assert(r * e + 1 <= u128::MAX) by (nonlinear_arith)
            requires
                r <= 0xffff_ffff_ffff_ffff,
                e <= 0x1_0000_0000_0000_0000,
        ;
        r * e + 1
    }
}

/// The smallest well-formed subscription above a given one for the
/// protocol at an index of a dossier: the rules are applied round by round
/// until nothing is new, and then the roles involved in loops without an end
/// are made to share an event type. Empty for an index outside the list or
/// a protocol without an initial node.
pub open spec fn exact_sub(c: ProtoInfoView, i: int, subs: Subs) -> Subs {
    if i < 0 || i >= c.protocols.len() || c.protocols[i].initial is None {
        Map::empty()
    } else {
        with_looping(c, exact_settling(c, i, subs))
    }
}

/// The subscription with which the rounds of the rules end for the
/// protocol at an index of a dossier.
pub open spec fn exact_settling(c: ProtoInfoView, i: int, subs: Subs) -> Subs {
    let p = c.protocols[i];
    exact_rounds(c, p.nodes.len(), p.edges, p.labels, p.initial->0, subs, sub_fuel(subs.dom().len(), p.edges.len()))
}

/// Whether a further round of the rules for the protocol at an index of a
/// dossier leaves a subscription as it is.
pub open spec fn exact_settled(c: ProtoInfoView, i: int, subs: Subs) -> bool {
    let p = c.protocols[i];
    settled(exact_round_of(c, p.nodes.len(), p.edges, p.labels, p.initial->0), subs)
}

/// The smallest well-formed subscription above a given one for the
/// protocol at an index of a dossier: see `exact_sub`.
pub fn exact_wf_sub(proto_info: ProtoInfo, proto_pointer: usize, subscriptions: &Subscriptions) -> (r: Subscriptions)
    requires
        proto_info.wf(),
        subscriptions.wf_sets(),
        proto_pointer < proto_info.protocols@.len() ==> labelled(proto_info.protocols@[proto_pointer as int].graph.labels()),
    ensures
        r.wf_sets(),
        r.sets() == exact_sub(proto_info@, proto_pointer as int, subscriptions.sets()),
        proto_pointer < proto_info.protocols@.len() && proto_info.protocols@[proto_pointer as int].initial is Some && subscriptions.sets().dom().len()
            + proto_info.protocols@[proto_pointer as int].graph.edges().len() <= u64::MAX ==> exact_settled(
            proto_info@,
            proto_pointer as int,
            exact_settling(proto_info@, proto_pointer as int, subscriptions.sets()),
        ),
{
    if proto_pointer >= proto_info.protocols.len() {
        let r: Subscriptions = OrdMap::new();
        assert(r.sets() =~= Map::<Seq<char>, Set<Seq<char>>>::empty());
        return r;
    }
    let proto = &proto_info.protocols[proto_pointer];
    proof {
        assert(proto.wf());
        assert(proto_info@.protocols[proto_pointer as int] == proto@);
    }
    let initial = match proto.initial {
        Some(i) => i,
        None => {
            let r: Subscriptions = OrdMap::new();
            assert(r.sets() =~= Map::<Seq<char>, Set<Seq<char>>>::empty());
            return r;
        },
    };
    let graph = &proto.graph;
    let mut subs = subscriptions.duplicate_sets();
    proof {
        subscriptions.lemma_sets_keys();
        subscriptions.lemma_wf();
        crate::ordset::increasing_no_duplicates::<Role>(subscriptions.keys());
        assert(subscriptions.sets().dom() =~= subscriptions.keys().to_set());
    }
    let mut fuel = rounds_for(subscriptions.len(), graph.edge_count());
    let ghost c = proto_info@;
    let ghost total = exact_rounds(c, graph.nodes().len(), graph.edges(), graph.labels(), initial, subscriptions.sets(), fuel as nat);
    proof {
        graph.lemma_wf();
        if subscriptions.sets().dom().len() + graph.edges().len() <= u64::MAX {
            lemma_exact_settles(c, graph.nodes().len(), graph.edges(), graph.labels(), initial, subscriptions.sets());
        }
    }
    let mut stable = false;
    while fuel > 0 && !stable
        invariant
            proto_info.wf(),
            graph.wf(),
            labelled(graph.labels()),
            subs.wf_sets(),
            c == proto_info@,
            stable ==> total == subs.sets(),
            !stable ==> total == exact_rounds(c, graph.nodes().len(), graph.edges(), graph.labels(), initial, subs.sets(), fuel as nat),
        decreases fuel,
    {
        stable = exact_wf_sub_step(&proto_info, graph, initial, &mut subs);
        fuel -= 1;
    }
    add_looping_event_types(&proto_info, &mut subs);
    subs
}

/// The outcome of `exact_well_formed_sub`: the findings on the protocols
/// and their interfaces if there are any, else the smallest well-formed
/// subscription for the composition.
pub open spec fn exact_result(protos: Seq<(Seq<char>, Seq<(LabelKey, Seq<char>, Seq<char>)>)>, subs: Subs) -> Result<Subs, Seq<ReportView>> {
    let c = swarm_info(protos);
    if has_errors(c) {
        Err(report_of(c))
    } else {
        Ok(exact_sub(composed_info(c), 0, subs))
    }
}

/// Whether the rounds of the rules on the composition of some protocols
/// end, from a given subscription on, with a subscription that a further
/// round leaves as it is: asked only where the composition has an initial
/// node and its edges and the roles of the subscription can be counted in 64
/// bits.
pub open spec fn exact_rounds_end(protos: Seq<(Seq<char>, Seq<(LabelKey, Seq<char>, Seq<char>)>)>, subs: Subs) -> bool {
    let c = composed_info(swarm_info(protos));
    c.protocols.len() > 0 && c.protocols[0].initial is Some && subs.dom().len() + c.protocols[0].edges.len() <= u64::MAX ==> exact_settled(c, 0, exact_settling(c, 0, subs))
}

/// Whether the check of the composition of some protocols finds nothing
/// against the smallest subscription above a given one: asked only where
/// the edges of the composition and the roles of the given subscription can
/// be counted in 64 bits.
pub open spec fn exact_passes(protos: Seq<(Seq<char>, Seq<(LabelKey, Seq<char>, Seq<char>)>)>, subs: Subs) -> bool {
    let c = swarm_info(protos);
    subs.dom().len() + composition(c).edges.len() <= u64::MAX ==> report_empty(check_report(protos, exact_sub(composed_info(c), 0, subs)))
}

/// The smallest subscription above a given one for which the composition
/// of the protocols is well-formed, found on the composition itself: see
/// `exact_result`. The rounds of the rules end because a round brings
/// nothing new, and the check of the composition finds nothing against the
/// subscription.
pub fn exact_well_formed_sub(protos: InterfacingProtocols, subs: &Subscriptions) -> (r: Result<Subscriptions, ErrorReport>)
    requires
        subs.wf_sets(),
    ensures
        match r {
            Ok(s) => s.wf_sets() && exact_result(protocols_view(protos.0@), subs.sets()) == Ok::<Subs, Seq<ReportView>>(s.sets()),
            Err(e) => e.wf() && exact_result(protocols_view(protos.0@), subs.sets()) == Err::<Subs, Seq<ReportView>>(e@),
        },
        r is Ok ==> exact_rounds_end(protocols_view(protos.0@), subs.sets()),
        r is Ok ==> exact_passes(protocols_view(protos.0@), subs.sets()),
{
    let ghost views = protocols_view(protos.0@);
    let combined_proto_info = swarms_to_proto_info(protos);
    if !combined_proto_info.no_errors() {
        proof {
            lemma_no_errors(&combined_proto_info);
        }
        return Err(proto_info_to_error_report(combined_proto_info));
    }
    proof {
        lemma_no_errors(&combined_proto_info);
        lemma_swarm_info_ready(views);
        lemma_ready_composable(combined_proto_info@);
    }
    let composition = explicit_composition_proto_info(combined_proto_info);
    proof {
        composition.protocols@[0].graph.lemma_wf();
        assert(composition@.protocols[0] == composition.protocols@[0]@);
        composition.infinitely_looping_events.lemma_wf();
        subs.lemma_sets_keys();
        subs.lemma_wf();
        crate::ordset::increasing_no_duplicates::<Role>(subs.keys());
        assert(subs.sets().dom() =~= subs.keys().to_set());
        if subs.sets().dom().len() + crate::composition::composition_swarm::composition(swarm_info(views)).edges.len() <= u64::MAX {
            crate::composition::sound::lemma_exact_is_well_formed(views, subs.sets());
        }
    }
    let sub = exact_wf_sub(composition, 0, subs);
    Ok(sub)
}

/// The event types of a map of followers as nodes, and an edge from each
/// event type to each that follows it.
pub type FollowGraph = (Seq<Seq<char>>, Seq<(usize, usize)>);

/// Takes in an event type that follows another: it is a node, and an edge
/// leads to it from the other.
pub open spec fn follow_succ_step(e: Seq<char>) -> spec_fn(FollowGraph, Seq<char>) -> FollowGraph {
    |g: FollowGraph, s: Seq<char>|
        {
            let nodes = with_new(g.0, s);
            (nodes, g.1.push((pos_of(nodes, e) as usize, pos_of(nodes, s) as usize)))
        }
}

/// Takes in an event type of the map: it is a node, and so is each event
/// type that follows it.
pub open spec fn follow_event_step(succ: SuccMap) -> spec_fn(FollowGraph, Seq<char>) -> FollowGraph {
    |g: FollowGraph, e: Seq<char>| fold(sorted::<EventType>(succ[e]), (with_new(g.0, e), g.1), follow_succ_step(e))
}

/// The graph of a map of followers: the event types in the order in which
/// the map names them, each before those that follow it.
pub open spec fn follow_graph(succ: SuccMap) -> FollowGraph {
    fold(sorted::<EventType>(succ.dom()), (Seq::<Seq<char>>::empty(), Seq::<(usize, usize)>::empty()), follow_event_step(succ))
}

/// Whether one of the first `upto` entries tells of a path from the node
/// of one event type to that of another.
pub open spec fn path_among(nodes: Seq<Seq<char>>, costs: Seq<(usize, usize, i32)>, upto: int, a: Seq<char>, b: Seq<char>) -> bool {
    exists|q: int| 0 <= q < upto && q < costs.len() && is_path(#[trigger] costs[q]) && nodes[costs[q].0 as int] == a && nodes[costs[q].1 as int] == b
}

/// For each event type with a path to another one those others, going by
/// the first `upto` entries.
pub open spec fn paths_upto(nodes: Seq<Seq<char>>, costs: Seq<(usize, usize, i32)>, upto: int) -> SuccMap {
    Map::new(|a: Seq<char>| exists|b: Seq<char>| path_among(nodes, costs, upto, a, b), |a: Seq<char>| Set::new(|b: Seq<char>| path_among(nodes, costs, upto, a, b)))
}

/// What the table of costs gives for the graph of a map of followers: each
/// event type is followed by what followed it, by every other event type to
/// which the table tells of a path, and by itself if it has a path to
/// another and back. This is the transitive closure of the map: see
/// `closure` and `lemma_closure_by_table`.
pub open spec fn closure_by_table(succ: SuccMap) -> SuccMap {
    let g = follow_graph(succ);
    let p = paths(g.0, unit_costs(g.0.len(), g.1));
    combined(combined(succ, p, Set::empty()), cycles(p), Set::empty())
}

/// The transitive closure of a map of followers: each event type of the
/// map is followed by every event type to which a chain of followers leads
/// from it, itself among them where a chain leads back to it; see
/// `closure`. It is read off the table of the costs of the cheapest paths
/// between the event types, which tells of every path where the event types
/// are no more than the largest `i32`; see `closure_by_table`.
pub fn transitive_closure_succeeding(succ_map: OrdMap<EventType, OrdSet<EventType>>) -> (r: OrdMap<EventType, OrdSet<EventType>>)
    requires
        succ_map.wf_sets(),
    ensures
        r.wf_sets(),
        r.sets() == closure_by_table(succ_map.sets()),
        follow_graph(succ_map.sets()).0.len() <= i32::MAX ==> r.sets() == closure(succ_map.sets()),
{
    let mut graph: Digraph<EventType, usize> = Digraph::new();
    let mut node_map: OrdMap<EventType, usize> = OrdMap::new();
    let ghost succ = succ_map.sets();
    let ghost estep = follow_event_step(succ);
    proof {
        succ_map.lemma_sets_keys();
    }
    let mut i: usize = 0;
    while i < succ_map.len()
        invariant
            i <= succ_map.keys().len(),
            succ_map.wf_sets(),
            succ == succ_map.sets(),
            estep == follow_event_step(succ),
            graph.wf(),
            node_map.wf(),
            graph.nodes().no_duplicates(),
            forall|k: Seq<char>| node_map.has(k) <==> graph.nodes().contains(k),
            forall|q: int| 0 <= q < graph.nodes().len() ==> node_map@[#[trigger] graph.nodes()[q]] == q,
            (graph.nodes(), graph.edges()) == fold_upto(succ_map.keys(), (Seq::<Seq<char>>::empty(), Seq::<(usize, usize)>::empty()), estep, i as int),
            graph_upto(succ, graph.nodes(), graph.edges(), succ_map.keys(), i as int, Seq::empty(), Seq::empty(), 0),
        decreases succ_map.keys().len() - i,
    {
        proof {
            succ_map.lemma_sets_at(i as int);
        }
        let event = succ_map.key_at(i);
        let succeeding = succ_map.val_at(i);
        let ghost nodes_before = graph.nodes();
        let a = node_for(&mut graph, &mut node_map, event);
        proof {
            assert(grown_from(graph.nodes(), graph.edges(), nodes_before, graph.edges()));
            lemma_upto_grows(succ, graph.nodes(), graph.edges(), nodes_before, succ_map.keys(), i as int, Seq::empty(), Seq::empty(), 0);
            succeeding.lemma_wf();
        }
        let ghost at_event = (graph.nodes(), graph.edges());
        let ghost sstep = follow_succ_step(event@);
        let mut j: usize = 0;
        while j < succeeding.len()
            invariant
                j <= succeeding.keys().len(),
                succeeding.wf(),
                sstep == follow_succ_step(event@),
                graph.wf(),
                node_map.wf(),
                graph.nodes().no_duplicates(),
                forall|k: Seq<char>| node_map.has(k) <==> graph.nodes().contains(k),
                forall|q: int| 0 <= q < graph.nodes().len() ==> node_map@[#[trigger] graph.nodes()[q]] == q,
                a < graph.nodes().len(),
                graph.nodes()[a as int] == event@,
                (graph.nodes(), graph.edges()) == fold_upto(succeeding.keys(), at_event, sstep, j as int),
                i < succ_map.keys().len(),
                event@ == succ_map.keys()[i as int],
                succ == succ_map.sets(),
                succ.dom().contains(event@),
                succ[event@] == succeeding@,
                graph_upto(succ, graph.nodes(), graph.edges(), succ_map.keys(), i as int, event@, succeeding.keys(), j as int),
            decreases succeeding.keys().len() - j,
        {
            let ghost before = graph.nodes();
            let b = node_for(&mut graph, &mut node_map, succeeding.get(j));
            proof {
                assert(graph.nodes()[a as int] == before[a as int]);
                let q = pos_of(graph.nodes(), event@);
                assert(0 <= q < graph.nodes().len() && graph.nodes()[q] == event@);
                assert(q == a);
                assert(grown_from(graph.nodes(), graph.edges(), before, graph.edges()));
                lemma_upto_grows(succ, graph.nodes(), graph.edges(), before, succ_map.keys(), i as int, event@, succeeding.keys(), j as int);
                assert(succeeding.keys().to_set().contains(succeeding.keys()[j as int]));
                lemma_upto_edge(succ, graph.nodes(), graph.edges(), succ_map.keys(), i as int, event@, succeeding.keys(), j as int, a, b);
            }
            graph.add_edge(a, b, 0);
            j += 1;
        }
        proof {
            assert forall|q: int, y: Seq<char>| 0 <= q < i + 1 && q < succ_map.keys().len() && #[trigger] set_at(succ, succ_map.keys()[q]).contains(y) implies has_edge(graph.nodes(), graph.edges(), succ_map.keys()[q], y) by {
                if q == i {
                    assert(succeeding.keys().to_set().contains(y));
                    let t = choose|t: int| 0 <= t < succeeding.keys().len() && succeeding.keys()[t] == y;
                    assert(has_edge(graph.nodes(), graph.edges(), event@, succeeding.keys()[t]));
                }
            }
        }
        i += 1;
    }
    proof {
        graph.lemma_wf();
        succ_map.lemma_wf();
        assert forall|x: Seq<char>, y: Seq<char>| #[trigger] set_at(succ, x).contains(y) implies has_edge(graph.nodes(), graph.edges(), x, y) by {
            assert(succ.dom().contains(x));
            assert(succ_map.has(x));
            assert(succ_map.keys().to_set().contains(x));
            let q = choose|q: int| 0 <= q < succ_map.keys().len() && succ_map.keys()[q] == x;
            assert(set_at(succ, succ_map.keys()[q]).contains(y));
        }
        assert(graph_of(succ, graph.nodes(), graph.edges()));
    }
    let costs = graph.unit_costs();
    let ghost nodes = graph.nodes();
    let mut succ_map_new: OrdMap<EventType, OrdSet<EventType>> = OrdMap::new();
    proof {
        assert(succ_map_new.sets() =~~= paths_upto(nodes, costs@, 0));
    }
    let mut k: usize = 0;
    while k < costs.len()
        invariant
            k <= costs.len(),
            graph.wf(),
            nodes == graph.nodes(),
            forall|q: int| 0 <= q < costs@.len() ==> (#[trigger] costs@[q]).0 < nodes.len() && costs@[q].1 < nodes.len(),
            succ_map_new.wf_sets(),
            succ_map_new.sets() == paths_upto(nodes, costs@, k as int),
        decreases costs.len() - k,
    {
        let (i1, i2, v) = costs[k];
        if v != i32::MAX && i1 != i2 {
            let ghost before = succ_map_new.sets();
            proof {
                succ_map_new.lemma_sets_keys();
            }
            succ_map_new.add_all(graph.node(i1), &OrdSet::singleton(graph.node(i2).duplicate()));
            proof {
                let a = nodes[i1 as int];
                let b = nodes[i2 as int];
                let k1 = k as int + 1;
                let want = paths_upto(nodes, costs@, k1);
                assert(path_among(nodes, costs@, k1, a, b)) by {
                    assert(is_path(costs@[k as int]));
                }
                assert forall|x: Seq<char>, y: Seq<char>| path_among(nodes, costs@, k1, x, y) <==> (path_among(nodes, costs@, k as int, x, y) || (x == a && y == b)) by {
                    if path_among(nodes, costs@, k as int, x, y) {
                        let q = choose|q: int| 0 <= q < k && q < costs@.len() && is_path(#[trigger] costs@[q]) && nodes[costs@[q].0 as int] == x && nodes[costs@[q].1 as int] == y;
                        assert(0 <= q < k + 1 && is_path(costs@[q]));
                    }
                    if path_among(nodes, costs@, k1, x, y) {
                        let q = choose|q: int| 0 <= q < k + 1 && q < costs@.len() && is_path(#[trigger] costs@[q]) && nodes[costs@[q].0 as int] == x && nodes[costs@[q].1 as int] == y;
                        if q < k {
                            assert(path_among(nodes, costs@, k as int, x, y));
                        }
                    }
                }
                assert forall|x: Seq<char>| #[trigger] succ_map_new.sets().dom().contains(x) <==> want.dom().contains(x) by {
                    if before.dom().contains(x) {
                        let y = choose|y: Seq<char>| path_among(nodes, costs@, k as int, x, y);
                        assert(path_among(nodes, costs@, k1, x, y));
                    }
                    if want.dom().contains(x) {
                        let y = choose|y: Seq<char>| path_among(nodes, costs@, k1, x, y);
                        if !(x == a && y == b) {
                            assert(path_among(nodes, costs@, k as int, x, y));
                        }
                    }
                }
                assert forall|x: Seq<char>| succ_map_new.sets().dom().contains(x) implies #[trigger] succ_map_new.sets()[x] =~= want[x] by {
                }
                assert(succ_map_new.sets() =~~= want);
            }
        } else {
            proof {
                let k1 = k as int + 1;
                let want = paths_upto(nodes, costs@, k1);
                assert forall|x: Seq<char>, y: Seq<char>| path_among(nodes, costs@, k1, x, y) <==> path_among(nodes, costs@, k as int, x, y) by {
                    if path_among(nodes, costs@, k as int, x, y) {
                        let q = choose|q: int| 0 <= q < k && q < costs@.len() && is_path(#[trigger] costs@[q]) && nodes[costs@[q].0 as int] == x && nodes[costs@[q].1 as int] == y;
                        assert(0 <= q < k + 1 && is_path(costs@[q]));
                    }
                    if path_among(nodes, costs@, k1, x, y) {
                        let q = choose|q: int| 0 <= q < k + 1 && q < costs@.len() && is_path(#[trigger] costs@[q]) && nodes[costs@[q].0 as int] == x && nodes[costs@[q].1 as int] == y;
                        assert(q < k);
                    }
                }
                assert(succ_map_new.sets() =~~= want);
            }
        }
        k += 1;
    }
    proof {
        let set = costs@.to_set();
        assert forall|x: Seq<char>, y: Seq<char>| path_among(nodes, costs@, costs@.len() as int, x, y) <==> path_in(nodes, set, x, y) by {
            if path_among(nodes, costs@, costs@.len() as int, x, y) {
                let q = choose|q: int| 0 <= q < costs@.len() && q < costs@.len() && is_path(#[trigger] costs@[q]) && nodes[costs@[q].0 as int] == x && nodes[costs@[q].1 as int] == y;
                assert(costs@.contains(costs@[q]));
                assert(set.contains(costs@[q]));
            }
            if path_in(nodes, set, x, y) {
                let e = choose|e: (usize, usize, i32)| set.contains(e) && is_path(e) && nodes[e.0 as int] == x && nodes[e.1 as int] == y;
                let q = choose|q: int| 0 <= q < costs@.len() && costs@[q] == e;
                assert(is_path(costs@[q]));
            }
        }
        let n = costs@.len() as int;
        let left = paths_upto(nodes, costs@, n);
        let right = paths(nodes, set);
        assert forall|x: Seq<char>| #[trigger] left.dom().contains(x) <==> right.dom().contains(x) by {
            if left.dom().contains(x) {
                let y = choose|y: Seq<char>| path_among(nodes, costs@, n, x, y);
                assert(path_in(nodes, set, x, y));
            }
            if right.dom().contains(x) {
                let y = choose|y: Seq<char>| path_in(nodes, set, x, y);
                assert(path_among(nodes, costs@, n, x, y));
            }
        }
        assert forall|x: Seq<char>| left.dom().contains(x) implies #[trigger] left[x] =~= right[x] by {
        }
        assert(left =~~= right);
    }
    let ghost found = succ_map_new.sets();
    let mut again: OrdMap<EventType, OrdSet<EventType>> = OrdMap::new();
    proof {
        succ_map_new.lemma_sets_keys();
        assert(again.sets() =~~= cycles_upto(found, succ_map_new.keys(), 0));
    }
    let mut x: usize = 0;
    while x < succ_map_new.len()
        invariant
            x <= succ_map_new.keys().len(),
            succ_map_new.wf_sets(),
            found == succ_map_new.sets(),
            succ_map_new.keys() == sorted::<EventType>(found.dom()),
            again.wf_sets(),
            again.sets() == cycles_upto(found, succ_map_new.keys(), x as int),
        decreases succ_map_new.keys().len() - x,
    {
        proof {
            succ_map_new.lemma_sets_at(x as int);
        }
        let from = succ_map_new.key_at(x);
        let to = succ_map_new.val_at(x);
        let mut back = false;
        let mut y: usize = 0;
        proof {
            to.lemma_wf();
        }
        while y < to.len()
            invariant
                y <= to.keys().len(),
                to.wf(),
                succ_map_new.wf_sets(),
                found == succ_map_new.sets(),
                from.valid(),
                back == exists|t: int| 0 <= t < y && set_at(found, #[trigger] to.keys()[t]).contains(from@),
            decreases to.keys().len() - y,
        {
            proof {
                succ_map_new.lemma_sets_keys();
            }
            if succ_map_new.has_item(to.get(y), from) {
                back = true;
            }
            y += 1;
        }
        let ghost before = again.sets();
        if back {
            again.put_set(from.duplicate(), OrdSet::singleton(from.duplicate()));
        }
        proof {
            let keys = succ_map_new.keys();
            let want = cycles_upto(found, keys, x as int + 1);
            assert(on_cycle(found, from@) == back) by {
                if back {
                    let t = choose|t: int| 0 <= t < to.keys().len() && set_at(found, #[trigger] to.keys()[t]).contains(from@);
                    assert(to.keys().to_set().contains(to.keys()[t]));
                    assert(set_at(found, from@).contains(to.keys()[t]) && set_at(found, to.keys()[t]).contains(from@));
                }
                if on_cycle(found, from@) {
                    let b = choose|b: Seq<char>| #[trigger] set_at(found, from@).contains(b) && set_at(found, b).contains(from@);
                    assert(to.keys().to_set().contains(b));
                    let t = choose|t: int| 0 <= t < to.keys().len() && to.keys()[t] == b;
                    assert(set_at(found, to.keys()[t]).contains(from@));
                }
            }
            assert forall|k: Seq<char>| #[trigger] again.sets().dom().contains(k) <==> want.dom().contains(k) by {
                if before.dom().contains(k) {
                    let q = choose|q: int| 0 <= q < x && keys[q] == k;
                    assert(0 <= q < x + 1 && keys[q] == k);
                }
                if want.dom().contains(k) {
                    let q = choose|q: int| 0 <= q < x + 1 && keys[q] == k;
                    if q < x {
                        assert(before.dom().contains(k));
                    }
                }
                if k == from@ && back {
                    assert(0 <= x < x + 1 && keys[x as int] == k);
                }
            }
            assert forall|k: Seq<char>| again.sets().dom().contains(k) implies #[trigger] again.sets()[k] =~= want[k] by {
            }
            assert(again.sets() =~~= want);
        }
        x += 1;
    }
    proof {
        let keys = succ_map_new.keys();
        succ_map_new.lemma_sets_keys();
        succ_map_new.lemma_wf();
        assert(found.dom() =~= keys.to_set());
        assert(again.sets() =~~= cycles(found)) by {
            assert forall|k: Seq<char>| #[trigger] again.sets().dom().contains(k) <==> cycles(found).dom().contains(k) by {
                if again.sets().dom().contains(k) {
                }
                if on_cycle(found, k) {
                    let b = choose|b: Seq<char>| #[trigger] set_at(found, k).contains(b) && set_at(found, b).contains(k);
                    assert(found.dom().contains(k));
                    assert(keys.to_set().contains(k));
                    let q = choose|q: int| 0 <= q < keys.len() && keys[q] == k;
                    assert(0 <= q < keys.len() && keys[q] == k);
                }
            }
            assert forall|k: Seq<char>| again.sets().dom().contains(k) implies #[trigger] again.sets()[k] =~= cycles(found)[k] by {
            }
        }
        if graph.nodes().len() <= i32::MAX {
            lemma_closure_by_table(succ, graph.nodes(), graph.edges(), costs@.to_set());
        }
    }
    let with_paths = combine_maps(succ_map, succ_map_new, None);
    combine_maps(with_paths, again, None)
}

/// Each of the first keys of a list that has a path to another event type
/// and back, as its own follower.
pub open spec fn cycles_upto(p: SuccMap, keys: Seq<Seq<char>>, upto: int) -> SuccMap {
    Map::new(|a: Seq<char>| (exists|q: int| 0 <= q < upto && q < keys.len() && keys[q] == a) && on_cycle(p, a), |a: Seq<char>| Set::<Seq<char>>::empty().insert(a))
}

/// Takes in an event type: the event types immediately before it join the
/// set.
pub open spec fn pre_step(pre: SuccMap) -> spec_fn(Set<Seq<char>>, Seq<char>) -> Set<Seq<char>> {
    |acc: Set<Seq<char>>, e: Seq<char>| acc.union(set_at(pre, e))
}

/// The event types that causal consistency asks a role with the given
/// labels to observe: its own and those immediately before them.
pub open spec fn causal_events(labels: Set<LabelKey>, pre: SuccMap) -> Set<Seq<char>> {
    events_of(labels).union(fold(sorted::<EventType>(events_of(labels)), Set::<Seq<char>>::empty(), pre_step(pre)))
}

/// Takes in a role: it observes what causal consistency asks of it.
pub open spec fn causal_step(rem: RoleLabels, pre: SuccMap) -> spec_fn(Subs, Seq<char>) -> Subs {
    |s: Subs, r: Seq<char>| map_add(s, r, causal_events(rem[r], pre))
}

/// A subscription in which each role observes its own event types and
/// those immediately before them.
pub open spec fn causal(c: ProtoInfoView, subs: Subs) -> Subs {
    fold(sorted::<Role>(c.role_event_map.dom()), subs, causal_step(c.role_event_map, c.immediately_pre))
}

/// The event types that causal consistency asks a role with the given
/// labels to observe.
pub fn causal_event_types(proto_info: &ProtoInfo, labels: &OrdSet<SwarmLabel>) -> (r: OrdSet<EventType>)
    requires
        proto_info.wf(),
        labels.wf(),
        forall|l: LabelKey| labels@.contains(l) ==> l.1.len() > 0,
    ensures
        r.wf(),
        r@ == causal_events(labels@, proto_info@.immediately_pre),
{
    let event_types = label_events(labels);
    let ghost step = pre_step(proto_info@.immediately_pre);
    let mut preceding: OrdSet<EventType> = OrdSet::new();
    proof {
        event_types.lemma_wf();
    }
    let mut i: usize = 0;
    while i < event_types.len()
        invariant
            i <= event_types.keys().len(),
            event_types.wf(),
            proto_info.wf(),
            step == pre_step(proto_info@.immediately_pre),
            preceding.wf(),
            preceding@ == fold_upto(event_types.keys(), Set::<Seq<char>>::empty(), step, i as int),
        decreases event_types.keys().len() - i,
    {
        let before = set_of_key(&proto_info.immediately_pre, event_types.get(i));
        preceding.extend(&before);
        i += 1;
    }
    let mut r = event_types;
    r.extend(&preceding);
    r
}

/// Makes each role observe its own event types and those immediately
/// before them: see `causal`.
pub fn add_causal(proto_info: &ProtoInfo, subscription: &mut Subscriptions)
    requires
        proto_info.wf(),
        old(subscription).wf_sets(),
    ensures
        final(subscription).wf_sets(),
        final(subscription).sets() == causal(proto_info@, old(subscription).sets()),
{
    let map = &proto_info.role_event_map;
    let ghost step = causal_step(proto_info@.role_event_map, proto_info@.immediately_pre);
    let ghost start = old(subscription).sets();
    proof {
        map.lemma_sets_keys();
    }
    let mut i: usize = 0;
    while i < map.len()
        invariant
            i <= map.keys().len(),
            proto_info.wf(),
            map == &proto_info.role_event_map,
            subscription.wf_sets(),
            step == causal_step(proto_info@.role_event_map, proto_info@.immediately_pre),
            subscription.sets() == fold_upto(map.keys(), start, step, i as int),
        decreases map.keys().len() - i,
    {
        proof {
            map.lemma_sets_at(i as int);
        }
        let labels = map.val_at(i);
        proof {
            assert forall|l: LabelKey| labels@.contains(l) implies l.1.len() > 0 by {
                assert(map.holds(map.keys()[i as int], l));
            }
        }
        let events_to_add = causal_event_types(proto_info, labels);
        subscription.add_all(map.key_at(i), &events_to_add);
        i += 1;
    }
}

/// Takes in a role: it stands for what causal consistency asks of it and
/// for the event types that every role observes.
pub open spec fn coarse_step(rem: RoleLabels, pre: SuccMap, all: Set<Seq<char>>) -> spec_fn(Subs, Seq<char>) -> Subs {
    |m: Subs, r: Seq<char>| m.insert(r, causal_events(rem[r], pre).union(all))
}

/// The coarse subscription: each role of the dossier observes every
/// branching event type, every joining event type with those before it,
/// every interfacing event type, its own event types and those
/// immediately before them; what the given subscription holds is kept.
pub open spec fn coarse(c: ProtoInfoView, subs: Subs) -> Subs {
    let all = union_of(c.branching_events).union(flattened(c.joining_events)).union(c.interfacing_events);
    combined(subs, fold(sorted::<Role>(c.role_event_map.dom()), Map::<Seq<char>, Set<Seq<char>>>::empty(), coarse_step(c.role_event_map, c.immediately_pre, all)), Set::empty())
}

/// The coarse subscription above a given one: see `coarse`.
pub fn coarse_overapprox_wf_sub(proto_info: &ProtoInfo, subscription: &Subscriptions) -> (r: Subscriptions)
    requires
        proto_info.wf(),
        subscription.wf_sets(),
    ensures
        r.wf_sets(),
        r.sets() == coarse(proto_info@, subscription.sets()),
{
    let ghost groups = sets_view(proto_info.branching_events@);
    let mut all: OrdSet<EventType> = OrdSet::new();
    proof {
        assert(all@ =~= union_of(groups.take(0)));
    }
    let mut g: usize = 0;
    while g < proto_info.branching_events.len()
        invariant
            g <= proto_info.branching_events.len(),
            proto_info.wf(),
            groups == sets_view(proto_info.branching_events@),
            all.wf(),
            all@ == union_of(groups.take(g as int)),
        decreases proto_info.branching_events.len() - g,
    {
        proof {
            lemma_union_take(groups, g as int);
        }
        all.extend(&proto_info.branching_events[g]);
        g += 1;
    }
    proof {
        assert(groups.take(g as int) =~= groups);
    }
    all.extend(&flatten_joining_map(&proto_info.joining_events));
    all.extend(&proto_info.interfacing_events);
    let map = &proto_info.role_event_map;
    let ghost step = coarse_step(proto_info@.role_event_map, proto_info@.immediately_pre, all@);
    let mut sub: Subscriptions = OrdMap::new();
    proof {
        map.lemma_sets_keys();
        assert(sub.sets() =~= Map::<Seq<char>, Set<Seq<char>>>::empty());
    }
    let mut i: usize = 0;
    while i < map.len()
        invariant
            i <= map.keys().len(),
            proto_info.wf(),
            map == &proto_info.role_event_map,
            all.wf(),
            sub.wf_sets(),
            step == coarse_step(proto_info@.role_event_map, proto_info@.immediately_pre, all@),
            sub.sets() == fold_upto(map.keys(), Map::<Seq<char>, Set<Seq<char>>>::empty(), step, i as int),
        decreases map.keys().len() - i,
    {
        proof {
            map.lemma_sets_at(i as int);
        }
        let labels = map.val_at(i);
        proof {
            assert forall|l: LabelKey| labels@.contains(l) implies l.1.len() > 0 by {
                assert(map.holds(map.keys()[i as int], l));
            }
        }
        let mut events = causal_event_types(proto_info, labels);
        events.extend(&all);
        sub.put_set(map.key_at(i).duplicate(), events);
        i += 1;
    }
    combine_maps(subscription.duplicate_sets(), sub, None)
}

/// Takes in an event type of a branching group: the roles involved after
/// it join the set.
pub open spec fn interested_step(succ: SuccMap, subs: Subs) -> spec_fn(Set<Seq<char>>, Seq<char>) -> Set<Seq<char>> {
    |acc: Set<Seq<char>>, e: Seq<char>| acc.union(involved_roles(e, succ, subs))
}

/// Takes in a branching group: each role involved after one of its event
/// types observes all of them.
pub open spec fn branch_rule(succ: SuccMap) -> spec_fn(SubState, Set<Seq<char>>) -> SubState {
    |st: SubState, group: Set<Seq<char>>| fold(sorted::<Role>(fold(sorted::<EventType>(group), Set::<Seq<char>>::empty(), interested_step(succ, st.0))), st, exact_role_step(group))
}

/// Takes in a joining event type: each role involved after it observes it
/// and the event types before it.
pub open spec fn join_rule(succ: SuccMap, joining: SuccMap) -> spec_fn(SubState, Seq<char>) -> SubState {
    |st: SubState, j: Seq<char>| fold(sorted::<Role>(involved_roles(j, succ, st.0)), st, exact_role_step(joining[j].insert(j)))
}

/// Takes in an interfacing event type: each role involved after it
/// observes it.
pub open spec fn interfacing_rule(succ: SuccMap) -> spec_fn(SubState, Seq<char>) -> SubState {
    |st: SubState, e: Seq<char>| fold(sorted::<Role>(involved_roles(e, succ, st.0)), st, exact_role_step(only(e)))
}

/// Applies the rule on branches to each branching group of a dossier.
pub fn apply_branch_rule(proto_info: &ProtoInfo, subscription: &mut Subscriptions, is_stable: bool) -> (r: bool)
    requires
        proto_info.wf(),
        old(subscription).wf_sets(),
    ensures
        final(subscription).wf_sets(),
        (final(subscription).sets(), r) == fold(proto_info@.branching_events, (old(subscription).sets(), is_stable), branch_rule(proto_info@.succeeding_events)),
{
    let ghost succ = proto_info@.succeeding_events;
    let ghost groups = sets_view(proto_info.branching_events@);
    let ghost start = (old(subscription).sets(), is_stable);
    let mut is_stable = is_stable;
    let mut g: usize = 0;
    while g < proto_info.branching_events.len()
        invariant
            g <= proto_info.branching_events.len(),
            proto_info.wf(),
            subscription.wf_sets(),
            succ == proto_info@.succeeding_events,
            groups == sets_view(proto_info.branching_events@),
            (subscription.sets(), is_stable) == fold_upto(groups, start, branch_rule(succ), g as int),
        decreases proto_info.branching_events.len() - g,
    {
        let branching_events = &proto_info.branching_events[g];
        proof {
            branching_events.lemma_wf();
            assert(groups[g as int] == branching_events@);
        }
        let ghost istep = interested_step(succ, subscription.sets());
        let mut interested: OrdSet<Role> = OrdSet::new();
        let mut e: usize = 0;
        while e < branching_events.len()
            invariant
                e <= branching_events.keys().len(),
                branching_events.wf(),
                proto_info.wf(),
                subscription.wf_sets(),
                succ == proto_info@.succeeding_events,
                istep == interested_step(succ, subscription.sets()),
                interested.wf(),
                interested@ == fold_upto(branching_events.keys(), Set::<Seq<char>>::empty(), istep, e as int),
            decreases branching_events.keys().len() - e,
        {
            let roles = roles_on_path(branching_events.get(e).duplicate(), proto_info, subscription);
            interested.extend(&roles);
            e += 1;
        }
        proof {
            interested.lemma_wf();
        }
        let ghost at_group = (subscription.sets(), is_stable);
        let ghost rstep = exact_role_step(branching_events@);
        let mut r: usize = 0;
        while r < interested.len()
            invariant
                r <= interested.keys().len(),
                interested.wf(),
                branching_events.wf(),
                subscription.wf_sets(),
                rstep == exact_role_step(branching_events@),
                (subscription.sets(), is_stable) == fold_upto(interested.keys(), at_group, rstep, r as int),
            decreases interested.keys().len() - r,
        {
            let same = add_to_sub(interested.get(r).duplicate(), branching_events.duplicate(), subscription);
            is_stable = same && is_stable;
            r += 1;
        }
        g += 1;
    }
    is_stable
}

/// Applies the rule on joins to each joining event type of a dossier.
pub fn apply_join_rule(proto_info: &ProtoInfo, subscription: &mut Subscriptions, is_stable: bool) -> (r: bool)
    requires
        proto_info.wf(),
        old(subscription).wf_sets(),
    ensures
        final(subscription).wf_sets(),
        (final(subscription).sets(), r) == fold(sorted::<EventType>(proto_info@.joining_events.dom()), (old(subscription).sets(), is_stable), join_rule(proto_info@.succeeding_events, proto_info@.joining_events)),
{
    let joining = &proto_info.joining_events;
    let ghost succ = proto_info@.succeeding_events;
    let ghost jstep = join_rule(succ, proto_info@.joining_events);
    let ghost start = (old(subscription).sets(), is_stable);
    let mut is_stable = is_stable;
    proof {
        joining.lemma_sets_keys();
    }
    let mut j: usize = 0;
    while j < joining.len()
        invariant
            j <= joining.keys().len(),
            proto_info.wf(),
            joining == &proto_info.joining_events,
            subscription.wf_sets(),
            succ == proto_info@.succeeding_events,
            jstep == join_rule(succ, proto_info@.joining_events),
            (subscription.sets(), is_stable) == fold_upto(joining.keys(), start, jstep, j as int),
        decreases joining.keys().len() - j,
    {
        proof {
            joining.lemma_sets_at(j as int);
        }
        let joining_event = joining.key_at(j);
        let interested = roles_on_path(joining_event.duplicate(), proto_info, subscription);
        let mut join_and_prejoin = joining.val_at(j).duplicate();
        proof {
            joining.vals()[j as int].lemma_same_keys(&join_and_prejoin);
            assert(join_and_prejoin@ == joining.vals()[j as int]@);
            interested.lemma_wf();
        }
        join_and_prejoin.insert(joining_event.duplicate());
        let ghost at_join = (subscription.sets(), is_stable);
        let ghost rstep = exact_role_step(join_and_prejoin@);
        let mut r: usize = 0;
        while r < interested.len()
            invariant
                r <= interested.keys().len(),
                interested.wf(),
                join_and_prejoin.wf(),
                subscription.wf_sets(),
                rstep == exact_role_step(join_and_prejoin@),
                (subscription.sets(), is_stable) == fold_upto(interested.keys(), at_join, rstep, r as int),
            decreases interested.keys().len() - r,
        {
            let same = add_to_sub(interested.get(r).duplicate(), join_and_prejoin.duplicate(), subscription);
            is_stable = same && is_stable;
            r += 1;
        }
        j += 1;
    }
    is_stable
}

/// Applies the rule on interfaces to each interfacing event type of a
/// dossier.
pub fn apply_interfacing_rule(proto_info: &ProtoInfo, subscription: &mut Subscriptions, is_stable: bool) -> (r: bool)
    requires
        proto_info.wf(),
        old(subscription).wf_sets(),
    ensures
        final(subscription).wf_sets(),
        (final(subscription).sets(), r) == fold(sorted::<EventType>(proto_info@.interfacing_events), (old(subscription).sets(), is_stable), interfacing_rule(proto_info@.succeeding_events)),
{
    let interfacing = &proto_info.interfacing_events;
    let ghost succ = proto_info@.succeeding_events;
    let ghost istep = interfacing_rule(succ);
    let ghost start = (old(subscription).sets(), is_stable);
    let mut is_stable = is_stable;
    proof {
        interfacing.lemma_wf();
    }
    let mut i: usize = 0;
    while i < interfacing.len()
        invariant
            i <= interfacing.keys().len(),
            proto_info.wf(),
            interfacing == &proto_info.interfacing_events,
            subscription.wf_sets(),
            succ == proto_info@.succeeding_events,
            istep == interfacing_rule(succ),
            (subscription.sets(), is_stable) == fold_upto(interfacing.keys(), start, istep, i as int),
        decreases interfacing.keys().len() - i,
    {
        let interfacing_event = interfacing.get(i);
        let interested = roles_on_path(interfacing_event.duplicate(), proto_info, subscription);
        proof {
            interested.lemma_wf();
        }
        let ghost at_event = (subscription.sets(), is_stable);
        let ghost rstep = exact_role_step(only(interfacing_event@));
        let mut r: usize = 0;
        while r < interested.len()
            invariant
                r <= interested.keys().len(),
                interested.wf(),
                subscription.wf_sets(),
                rstep == exact_role_step(only(interfacing_event@)),
                (subscription.sets(), is_stable) == fold_upto(interested.keys(), at_event, rstep, r as int),
            decreases interested.keys().len() - r,
        {
            let same = add_to_sub(interested.get(r).duplicate(), OrdSet::singleton(interfacing_event.duplicate()), subscription);
            is_stable = same && is_stable;
            r += 1;
        }
        i += 1;
    }
    is_stable
}

/// Takes in a set: its size is added.
pub open spec fn size_step() -> spec_fn(nat, Set<Seq<char>>) -> nat {
    |acc: nat, s: Set<Seq<char>>| acc + s.len()
}

/// Takes in a joining event type: one more than the number of event types
/// before it is added.
pub open spec fn join_size_step(joining: SuccMap) -> spec_fn(nat, Seq<char>) -> nat {
    |acc: nat, j: Seq<char>| acc + 1 + joining[j].len()
}

/// The number of event types that the rules on branches, joins and
/// interfaces can give to a role, each counted where it occurs.
pub open spec fn event_budget(c: ProtoInfoView) -> nat {
    fold(sorted::<EventType>(c.joining_events.dom()), fold(c.branching_events, c.interfacing_events.len(), size_step()), join_size_step(c.joining_events))
}

/// The number of rounds after which the rules on branches, joins and
/// interfaces have stopped adding to a subscription at the latest: each
/// round before the last gives a role a further event type.
pub open spec fn rule_fuel(roles: nat, budget: nat) -> nat {
    if roles > u64::MAX || budget > u64::MAX {
        u128::MAX as nat
    } else {
        (roles * budget + 1) as nat
    }
}

/// A number kept below a cap.
pub open spec fn capped(n: nat) -> nat {
    if n > u64::MAX {
        (u64::MAX + 1) as nat
    } else {
        n
    }
}

/// Adds a length to a capped count.
fn add_capped(count: u128, len: usize, Ghost(true_count): Ghost<nat>) -> (r: u128)
    requires
        count == capped(true_count),
    ensures
        r == capped(true_count + len as nat),
{
    let sum: u128 = count + len as u128;
    if sum > 0xffff_ffff_ffff_ffff {
        0x1_0000_0000_0000_0000
    } else {
        sum
    }
}

/// The number of rounds after which the rules on branches, joins and
/// interfaces have stopped adding to a subscription with so many roles.
pub fn rule_rounds(proto_info: &ProtoInfo, roles: usize) -> (fuel: u128)
    requires
        proto_info.wf(),
    ensures
        fuel == rule_fuel(roles as nat, event_budget(proto_info@)),
{
    let ghost c = proto_info@;
    proof {
        proto_info.interfacing_events.lemma_wf();
    }
    let mut count: u128 = add_capped(0, proto_info.interfacing_events.len(), Ghost(0));
    let ghost start = c.interfacing_events.len();
    let mut g: usize = 0;
    while g < proto_info.branching_events.len()
        invariant
            g <= proto_info.branching_events.len(),
            proto_info.wf(),
            c == proto_info@,
            count == capped(fold_upto(c.branching_events, start, size_step(), g as int)),
        decreases proto_info.branching_events.len() - g,
    {
        proof {
            proto_info.branching_events@[g as int].lemma_wf();
            assert(c.branching_events[g as int] == proto_info.branching_events@[g as int]@);
        }
        count = add_capped(count, proto_info.branching_events[g].len(), Ghost(fold_upto(c.branching_events, start, size_step(), g as int)));
        g += 1;
    }
    let joining = &proto_info.joining_events;
    let ghost mid = fold(c.branching_events, start, size_step());
    let ghost jstep = join_size_step(c.joining_events);
    proof {
        joining.lemma_sets_keys();
    }
    let mut j: usize = 0;
    while j < joining.len()
        invariant
            j <= joining.keys().len(),
            proto_info.wf(),
            joining == &proto_info.joining_events,
            c == proto_info@,
            jstep == join_size_step(c.joining_events),
            count == capped(fold_upto(joining.keys(), mid, jstep, j as int)),
        decreases joining.keys().len() - j,
    {
        proof {
            joining.lemma_sets_at(j as int);
            joining.vals()[j as int].lemma_wf();
        }
        let ghost before = fold_upto(joining.keys(), mid, jstep, j as int);
        count = add_capped(count, 1, Ghost(before));
        count = add_capped(count, joining.val_at(j).len(), Ghost(before + 1));
        j += 1;
    }
    let r: u128 = roles as u128;
    if r > 0xffff_ffff_ffff_ffff || count > 0xffff_ffff_ffff_ffff {
        u128::MAX
    } else {
        assert(r * count + 1 <= u128::MAX) by (nonlinear_arith)
            requires
                r <= 0xffff_ffff_ffff_ffff,
                count <= 0xffff_ffff_ffff_ffff,
        ;
        r * count + 1
    }
}

/// One round of the two-step rules: branches, then joins, then interfaces.
pub open spec fn two_step_round(c: ProtoInfoView) -> spec_fn(Subs) -> SubState {
    |subs: Subs|
        fold(
            sorted::<EventType>(c.interfacing_events),
            fold(sorted::<EventType>(c.joining_events.dom()), fold(c.branching_events, (subs, true), branch_rule(c.succeeding_events)), join_rule(c.succeeding_events, c.joining_events)),
            interfacing_rule(c.succeeding_events),
        )
}

/// The two-step subscription: causal consistency first; then the rules on
/// branches, joins and interfaces, each for the roles involved, round by
/// round until nothing is new; then the rule on loops without an end.
pub open spec fn two_step(c: ProtoInfoView, subs: Subs) -> Subs {
    with_looping(c, two_step_rounds(c, subs))
}

/// The subscription with which the rounds of the two-step rules end, from
/// the causally consistent subscription on.
pub open spec fn two_step_rounds(c: ProtoInfoView, subs: Subs) -> Subs {
    let s1 = causal(c, subs);
    until_stable(two_step_round(with_protocols(c, Seq::empty())), s1, rule_fuel(s1.dom().len(), event_budget(c)))
}

/// The two-step subscription above a given one: see `two_step`. The given
/// subscription is brought up to the result.
pub fn two_step_overapprox_wf_sub(proto_info: &ProtoInfo, subscription: &mut Subscriptions) -> (r: Subscriptions)
    requires
        proto_info.wf(),
        old(subscription).wf_sets(),
    ensures
        final(subscription).wf_sets(),
        r.wf_sets(),
        r.sets() == two_step(proto_info@, old(subscription).sets()),
        final(subscription).sets() == r.sets(),
        event_budget(proto_info@) <= u64::MAX ==> settled(two_step_round(with_protocols(proto_info@, Seq::empty())), two_step_rounds(proto_info@, old(subscription).sets())),
{
    add_causal(proto_info, subscription);
    proof {
        subscription.lemma_sets_keys();
        subscription.lemma_wf();
        crate::ordset::increasing_no_duplicates::<Role>(subscription.keys());
        assert(subscription.sets().dom() =~= subscription.keys().to_set());
    }
    let mut fuel = rule_rounds(proto_info, subscription.len());
    let ghost c = with_protocols(proto_info@, Seq::empty());
    let ghost round = two_step_round(c);
    let ghost total = until_stable(round, subscription.sets(), fuel as nat);
    proof {
        lemma_finite_rules(proto_info);
        if event_budget(proto_info@) <= u64::MAX {
            lemma_two_step_settles(c, subscription.sets());
        }
    }
    let mut is_stable = false;
    while fuel > 0 && !is_stable
        invariant
            proto_info.wf(),
            subscription.wf_sets(),
            c == with_protocols(proto_info@, Seq::empty()),
            round == two_step_round(c),
            is_stable ==> total == subscription.sets(),
            !is_stable ==> total == until_stable(round, subscription.sets(), fuel as nat),
        decreases fuel,
    {
        is_stable = apply_branch_rule(proto_info, subscription, true);
        is_stable = apply_join_rule(proto_info, subscription, is_stable);
        is_stable = apply_interfacing_rule(proto_info, subscription, is_stable);
        fuel -= 1;
    }
    add_looping_event_types(proto_info, subscription);
    subscription.duplicate_sets()
}

/// One round of the finer rules: joins, then branches.
pub open spec fn finer_round(c: ProtoInfoView) -> spec_fn(Subs) -> SubState {
    |subs: Subs| fold(c.branching_events, fold(sorted::<EventType>(c.joining_events.dom()), (subs, true), join_rule(c.succeeding_events, c.joining_events)), branch_rule(c.succeeding_events))
}

/// Applies the rules on joins and branches for the roles involved, round
/// by round until nothing is new.
pub fn finer_approx_add_branches_and_joins(proto_info: &ProtoInfo, subscription: &mut Subscriptions)
    requires
        proto_info.wf(),
        old(subscription).wf_sets(),
    ensures
        final(subscription).wf_sets(),
        final(subscription).sets() == until_stable(finer_round(with_protocols(proto_info@, Seq::empty())), old(subscription).sets(), rule_fuel(old(subscription).sets().dom().len(), event_budget(proto_info@))),
        event_budget(proto_info@) <= u64::MAX ==> settled(finer_round(with_protocols(proto_info@, Seq::empty())), final(subscription).sets()),
{
    proof {
        subscription.lemma_sets_keys();
        subscription.lemma_wf();
        crate::ordset::increasing_no_duplicates::<Role>(subscription.keys());
        assert(subscription.sets().dom() =~= subscription.keys().to_set());
    }
    let mut fuel = rule_rounds(proto_info, subscription.len());
    proof {
        lemma_finite_rules(proto_info);
        if event_budget(proto_info@) <= u64::MAX {
            lemma_finer_settles(with_protocols(proto_info@, Seq::empty()), subscription.sets());
        }
    }
    let ghost c = with_protocols(proto_info@, Seq::empty());
    let ghost round = finer_round(c);
    let ghost total = until_stable(round, subscription.sets(), fuel as nat);
    let mut is_stable = false;
    while fuel > 0 && !is_stable
        invariant
            proto_info.wf(),
            subscription.wf_sets(),
            c == with_protocols(proto_info@, Seq::empty()),
            round == finer_round(c),
            is_stable ==> total == subscription.sets(),
            !is_stable ==> total == until_stable(round, subscription.sets(), fuel as nat),
        decreases fuel,
    {
        is_stable = apply_join_rule(proto_info, subscription, true);
        is_stable = apply_branch_rule(proto_info, subscription, is_stable);
        fuel -= 1;
    }
}

/// A dossier with the transitive closure of its map of followers.
pub open spec fn with_closure(c: ProtoInfoView) -> ProtoInfoView {
    ProtoInfoView {
        protocols: c.protocols,
        role_event_map: c.role_event_map,
        concurrent_events: c.concurrent_events,
        branching_events: c.branching_events,
        joining_events: c.joining_events,
        immediately_pre: c.immediately_pre,
        succeeding_events: closure_by_table(c.succeeding_events),
        interfacing_events: c.interfacing_events,
        infinitely_looping_events: c.infinitely_looping_events,
        interface_errors: c.interface_errors,
    }
}

/// Takes in a role: it observes the given event types.
pub open spec fn widen_step(events: Set<Seq<char>>) -> spec_fn(Subs, Seq<char>) -> Subs {
    |s: Subs, r: Seq<char>| map_add(s, r, events)
}

/// The finer subscription: with the transitive closure of the followers,
/// causal consistency first; then, if asked for, every role observes every
/// interfacing event type; then the rules on joins and branches for the
/// roles involved, until nothing is new; then the rule on loops.
pub open spec fn finer(c: ProtoInfoView, subs: Subs, with_all_interfacing: bool) -> Subs {
    let c2 = with_closure(c);
    let s1 = causal(c2, subs);
    let s2 = if with_all_interfacing {
        fold(sorted::<Role>(s1.dom()), s1, widen_step(c.interfacing_events))
    } else {
        s1
    };
    with_looping(c2, finer_rounds(c, subs, with_all_interfacing))
}

/// The subscription with which the rounds of the finer rules end.
pub open spec fn finer_rounds(c: ProtoInfoView, subs: Subs, with_all_interfacing: bool) -> Subs {
    let c2 = with_closure(c);
    let s1 = causal(c2, subs);
    let s2 = if with_all_interfacing {
        fold(sorted::<Role>(s1.dom()), s1, widen_step(c.interfacing_events))
    } else {
        s1
    };
    until_stable(finer_round(with_protocols(c2, Seq::empty())), s2, rule_fuel(s2.dom().len(), event_budget(c2)))
}

/// Whether the rounds of the rules of a granularity end with a
/// subscription that a further round leaves as it is: asked only where the
/// event types of the rules can be counted in 64 bits.
pub open spec fn overapprox_rounds_end(c: ProtoInfoView, subs: Subs, granularity: Granularity) -> bool {
    event_budget(c) <= u64::MAX ==> match granularity {
        Granularity::Fine => settled(finer_round(with_protocols(with_closure(c), Seq::empty())), finer_rounds(c, subs, false)),
        Granularity::Medium => settled(finer_round(with_protocols(with_closure(c), Seq::empty())), finer_rounds(c, subs, true)),
        Granularity::Coarse => true,
        Granularity::TwoStep => settled(two_step_round(with_protocols(c, Seq::empty())), two_step_rounds(c, subs)),
    }
}

/// The finer subscription above a given one: see `finer`. The map of
/// followers of the dossier is replaced by its transitive closure.
pub fn finer_overapprox_wf_sub(proto_info: &mut ProtoInfo, subscription: &Subscriptions, with_all_interfacing: bool) -> (r: Subscriptions)
    requires
        old(proto_info).wf(),
        subscription.wf_sets(),
    ensures
        final(proto_info).wf(),
        final(proto_info)@ == with_closure(old(proto_info)@),
        r.wf_sets(),
        r.sets() == finer(old(proto_info)@, subscription.sets(), with_all_interfacing),
        event_budget(old(proto_info)@) <= u64::MAX ==> settled(finer_round(with_protocols(with_closure(old(proto_info)@), Seq::empty())), finer_rounds(old(proto_info)@, subscription.sets(), with_all_interfacing)),
{
    let mut subscription = subscription.duplicate_sets();
    let mut taken: OrdMap<EventType, OrdSet<EventType>> = OrdMap::new();
    core::mem::swap(&mut taken, &mut proto_info.succeeding_events);
    proto_info.succeeding_events = transitive_closure_succeeding(taken);
    proof {
        assert(proto_info@.protocols =~= old(proto_info)@.protocols);
    }
    add_causal(proto_info, &mut subscription);
    if with_all_interfacing {
        let ghost at_start = subscription.sets();
        let ghost keys = subscription.keys();
        let ghost wstep = widen_step(proto_info@.interfacing_events);
        proof {
            subscription.lemma_sets_keys();
        }
        let mut i: usize = 0;
        while i < subscription.len()
            invariant
                i <= subscription.keys().len(),
                proto_info.wf(),
                subscription.wf_sets(),
                subscription.keys() == keys,
                wstep == widen_step(proto_info@.interfacing_events),
                subscription.sets() == fold_upto(keys, at_start, wstep, i as int),
            decreases subscription.keys().len() - i,
        {
            let role = subscription.key_at(i).duplicate();
            let ghost before = subscription;
            subscription.add_all(&role, &proto_info.interfacing_events);
            proof {
                before.lemma_wf();
                subscription.lemma_wf();
                assert(before.keys().to_set().contains(role@));
                assert(subscription.keys().to_set() =~= before.keys().to_set());
                crate::ordset::increasing_unique::<Role>(subscription.keys(), before.keys());
            }
            i += 1;
        }
    }
    finer_approx_add_branches_and_joins(proto_info, &mut subscription);
    add_looping_event_types(proto_info, &mut subscription);
    subscription
}

/// The subscription of a granularity above a given one.
pub open spec fn overapprox(c: ProtoInfoView, subs: Subs, granularity: Granularity) -> Subs {
    match granularity {
        Granularity::Fine => finer(c, subs, false),
        Granularity::Medium => finer(c, subs, true),
        Granularity::Coarse => coarse(c, subs),
        Granularity::TwoStep => two_step(c, subs),
    }
}

/// A subscription above a given one for which the composition is
/// well-formed, read off the dossier without building the composition:
/// see `overapprox`.
pub fn overapprox_wf_sub(proto_info: &mut ProtoInfo, subscription: &Subscriptions, granularity: Granularity) -> (r: Subscriptions)
    requires
        old(proto_info).wf(),
        subscription.wf_sets(),
    ensures
        final(proto_info).wf(),
        r.wf_sets(),
        r.sets() == overapprox(old(proto_info)@, subscription.sets(), granularity),
        overapprox_rounds_end(old(proto_info)@, subscription.sets(), granularity),
{
    match granularity {
        Granularity::Fine => finer_overapprox_wf_sub(proto_info, subscription, false),
        Granularity::Medium => finer_overapprox_wf_sub(proto_info, subscription, true),
        Granularity::Coarse => coarse_overapprox_wf_sub(proto_info, subscription),
        Granularity::TwoStep => {
            let mut copy = subscription.duplicate_sets();
            two_step_overapprox_wf_sub(proto_info, &mut copy)
        },
    }
}

/// The outcome of `overapprox_well_formed_sub`: the findings on the
/// protocols and their interfaces if there are any, else the subscription
/// of the granularity.
pub open spec fn overapprox_result(protos: Seq<(Seq<char>, Seq<(LabelKey, Seq<char>, Seq<char>)>)>, subs: Subs, granularity: Granularity) -> Result<Subs, Seq<ReportView>> {
    let c = swarm_info(protos);
    if has_errors(c) {
        Err(report_of(c))
    } else {
        Ok(overapprox(c, subs, granularity))
    }
}

/// A subscription above a given one for which the composition of the
/// protocols is well-formed, found without building the composition: see
/// `overapprox_result`. Where rules are applied round by round, the rounds
/// end because a round brings nothing new.
pub fn overapprox_well_formed_sub(protos: InterfacingProtocols, subs: &Subscriptions, granularity: Granularity) -> (r: Result<Subscriptions, ErrorReport>)
    requires
        subs.wf_sets(),
    ensures
        match r {
            Ok(s) => s.wf_sets() && overapprox_result(protocols_view(protos.0@), subs.sets(), granularity) == Ok::<Subs, Seq<ReportView>>(s.sets()),
            Err(e) => e.wf() && overapprox_result(protocols_view(protos.0@), subs.sets(), granularity) == Err::<Subs, Seq<ReportView>>(e@),
        },
        r is Ok ==> overapprox_rounds_end(swarm_info(protocols_view(protos.0@)), subs.sets(), granularity),
{
    let mut combined_proto_info = swarms_to_proto_info(protos);
    proof {
        lemma_no_errors(&combined_proto_info);
    }
    if !combined_proto_info.no_errors() {
        return Err(proto_info_to_error_report(combined_proto_info));
    }
    let sub = overapprox_wf_sub(&mut combined_proto_info, subs, granularity);
    Ok(sub)
}

/// The outcome of `compose_protocols`: the findings on the protocols and
/// their interfaces if there are any, else their composition.
pub open spec fn compose_result(protos: Seq<(Seq<char>, Seq<(LabelKey, Seq<char>, Seq<char>)>)>) -> Result<SwarmView, Seq<ReportView>> {
    let c = swarm_info(protos);
    if has_errors(c) {
        Err(report_of(c))
    } else {
        Ok(composition(c))
    }
}

/// The composition of the protocols as one graph with its initial node:
/// see `compose_result`.
pub fn compose_protocols(protos: InterfacingProtocols) -> (r: Result<(SwarmGraph, usize), ErrorReport>)
    ensures
        match r {
            Ok(g) => {
                &&& g.0.wf()
                &&& labelled(g.0.labels())
                &&& compose_result(protocols_view(protos.0@)) is Ok
                &&& g.0.nodes() == compose_result(protocols_view(protos.0@))->Ok_0.nodes
                &&& g.0.edges() == compose_result(protocols_view(protos.0@))->Ok_0.edges
                &&& g.0.labels() == compose_result(protocols_view(protos.0@))->Ok_0.labels
                &&& g.1 == compose_result(protocols_view(protos.0@))->Ok_0.initial
                &&& protos.0@.len() > 0 ==> g.1 < g.0.nodes().len()
            },
            Err(e) => e.wf() && compose_result(protocols_view(protos.0@)) == Err::<SwarmView, Seq<ReportView>>(e@),
        },
{
    let ghost views = protocols_view(protos.0@);
    let combined_proto_info = swarms_to_proto_info(protos);
    proof {
        lemma_no_errors(&combined_proto_info);
    }
    if !combined_proto_info.no_errors() {
        return Err(proto_info_to_error_report(combined_proto_info));
    }
    proof {
        lemma_swarm_info_ready(views);
        lemma_ready_composable(combined_proto_info@);
        lemma_protocols_len(views);
    }
    Ok(explicit_composition(&combined_proto_info))
}

/// The transitions of a graph in their order, each between the names of
/// its states.
pub open spec fn graph_transitions<N: StateName, L: Key>(nodes: Seq<N::V>, edges: Seq<(usize, usize)>, labels: Seq<L::V>) -> Seq<(L::V, Seq<char>, Seq<char>)> {
    Seq::new(edges.len(), |e: int| (labels[e], N::name_of(nodes[edges[e].0 as int]), N::name_of(nodes[edges[e].1 as int])))
}

/// A graph as a protocol: its transitions in their order and the name of
/// its initial state.
pub fn to_swarm_json(graph: SwarmGraph, initial: usize) -> (r: SwarmProtocolType)
    requires
        graph.wf(),
        initial < graph.nodes().len(),
    ensures
        r@ == (graph.nodes()[initial as int], graph_transitions::<State, SwarmLabel>(graph.nodes(), graph.edges(), graph.labels())),
{
    let mut transitions: Vec<Transition<SwarmLabel>> = Vec::new();
    proof {
        graph.lemma_wf();
    }
    let count = graph.edge_count();
    let mut e: usize = 0;
    while e < count
        invariant
            e <= count,
            count == graph.edges().len(),
            graph.wf(),
            transitions@.len() == e,
            forall|k: int| 0 <= k < e ==> (#[trigger] transitions@[k])@ == (graph.labels()[k], graph.nodes()[graph.edges()[k].0 as int], graph.nodes()[graph.edges()[k].1 as int]),
        decreases count - e,
    {
        let (a, b) = graph.endpoints(e);
        transitions.push(Transition { label: graph.label(e).duplicate(), source: graph.node(a).duplicate(), target: graph.node(b).duplicate() });
        e += 1;
    }
    let r = ProtocolType { initial: graph.node(initial).duplicate(), transitions };
    proof {
        assert(r@.1 =~= graph_transitions::<State, SwarmLabel>(graph.nodes(), graph.edges(), graph.labels()));
    }
    r
}

/// What is known of a list of protocols holds as many protocols as the
/// list.
pub proof fn lemma_protocols_len(protos: Seq<(Seq<char>, Seq<(LabelKey, Seq<char>, Seq<char>)>)>)
    ensures
        swarm_info(protos).protocols.len() == protos.len(),
{
    let views = prepared_all(protos);
    assert forall|j: int| 0 <= j < views.len() implies (#[trigger] views[j]).protocols.len() == 1 by {
    }
    if views.len() > 0 {
        lemma_combined_len(views, views.len() as int);
    }
}

/// Combining dossiers of one protocol each gives as many protocols as
/// there are dossiers.
pub proof fn lemma_combined_len(views: Seq<ProtoInfoView>, upto: int)
    requires
        1 <= upto <= views.len(),
        forall|j: int| 0 <= j < views.len() ==> (#[trigger] views[j]).protocols.len() == 1,
    ensures
        combine_upto(views, upto).protocols.len() == upto,
    decreases upto,
{
    if upto > 1 {
        lemma_combined_len(views, upto - 1);
    }
}

} // verus!
