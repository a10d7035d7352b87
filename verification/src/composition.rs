//! Composition of swarm protocols: whether a composition is well-formed
//! for a subscription, the subscriptions that make it so, and the machines
//! of the roles. The outcomes are written out for a caller.
use crate::composition::composition_machine::{adapted, as_lists, carries_events, differences, lists_view, paths_of, project_combined, projection, refines_step, shape_of, states_view, view_of, GraphView};
use crate::composition::composition_swarm::{report_empty, exact_passes, exact_rounds_end, overapprox_rounds_end, compose_result, errors_to_strings, exact_result, check_report, has_errors, lemma_no_errors, lemma_ready_composable, lemma_swarm_info_ready, overapprox_result, proto_errors, proto_initial, proto_labels, proto_nodes, proto_edges, protocols_view, report_of, swarm_info, ErrorReport, ReportView, Subs};
use crate::composition::composition_types::{labelled, union_of, EventLabel, Granularity, InterfacingProtocols, MachineType, ProjectionInfo, Subscriptions, SwarmGraph, SwarmProtocolType};
use crate::names::{Role, State};
use crate::ordmap::set_at;
use crate::seqs::{fold, fold_upto};
use crate::text::texts_of;
use crate::types::{CheckResult, DataResult, MachineLabel, MachineLabelView, Named};
use vstd::prelude::*;

pub mod composition_machine;
pub mod composition_swarm;
pub mod composition_types;
pub mod rounds;
pub mod blocks;
pub mod keys;
pub mod quotient;
pub mod alike;
pub mod products;
pub mod sound;
pub mod follows;
pub mod chains;
pub mod subsets;
pub mod search;
pub mod ways;
pub mod confusion;
pub mod distinct;
pub mod composed;
pub mod spare;
pub mod indexing;
pub mod interfaces;

verus! {

/// The texts of the findings of one graph of a report.
pub open spec fn entry_texts(entry: ReportView) -> Seq<Seq<char>> {
    Seq::new(entry.errors.len(), |i: int| crate::composition::composition_swarm::Error::text::<State>(entry.errors[i], entry.nodes, entry.edges, entry.labels))
}

/// Takes in a graph of a report: the texts of its findings follow.
pub open spec fn report_step() -> spec_fn(Seq<Seq<char>>, ReportView) -> Seq<Seq<char>> {
    |acc: Seq<Seq<char>>, entry: ReportView| acc + entry_texts(entry)
}

/// The texts of the findings of a report, graph by graph.
pub open spec fn report_texts(report: Seq<ReportView>) -> Seq<Seq<char>> {
    fold(report, Seq::<Seq<char>>::empty(), report_step())
}

/// Writes the findings of a report for a reader, graph by graph.
pub fn error_report_to_strings(error_report: ErrorReport) -> (r: Vec<String>)
    requires
        error_report.wf(),
    ensures
        texts_of(r@) == report_texts(error_report@),
{
    let ghost report = error_report@;
    let mut out: Vec<String> = Vec::new();
    proof {
        assert(texts_of(out@) =~= Seq::<Seq<char>>::empty());
    }
    let mut i: usize = 0;
    while i < error_report.0.len()
        invariant
            i <= error_report.0.len(),
            error_report.wf(),
            report == error_report@,
            texts_of(out@) == fold_upto(report, Seq::<Seq<char>>::empty(), report_step(), i as int),
        decreases error_report.0.len() - i,
    {
        let entry = &error_report.0[i];
        let mut more = errors_to_strings(&entry.0, &entry.1);
        let ghost a = out@;
        let ghost b = more@;
        out.append(&mut more);
        proof {
            assert(out@ =~= a + b);
            assert(texts_of(out@) =~= texts_of(a) + texts_of(b));
            assert(texts_of(b) =~= entry_texts(report[i as int]));
        }
        i += 1;
    }
    out
}

/// What a check stands for: nothing found, or the texts of the findings.
pub open spec fn check_view(r: CheckResult) -> Option<Seq<Seq<char>>> {
    match r {
        CheckResult::OK => None,
        CheckResult::ERROR { errors } => Some(texts_of(errors@)),
    }
}

/// Checks that the composition of the protocols is well-formed for the
/// subscription: `OK` where the report of the check has no finding, else
/// the findings as texts.
pub fn check_composed_swarm(protos: InterfacingProtocols, subs: &Subscriptions) -> (r: CheckResult)
    requires
        subs.wf_sets(),
    ensures
        check_view(r) == if report_empty(check_report(protocols_view(protos.0@), subs.sets())) {
            None
        } else {
            Some(report_texts(check_report(protocols_view(protos.0@), subs.sets())))
        },
{
    let error_report = crate::composition::composition_swarm::check(protos, subs);
    let empty = error_report.is_empty();
    proof {
        if empty {
            assert forall|i: int| 0 <= i < error_report@.len() implies (#[trigger] error_report@[i]).errors.len() == 0 by {
                assert(error_report.0@[i].1@.len() == 0);
            }
        } else {
            let i = choose|i: int| 0 <= i < error_report.0@.len() && !((#[trigger] error_report.0@[i]).1@.len() == 0);
            assert(error_report@[i].errors.len() > 0);
        }
    }
    if empty {
        CheckResult::OK
    } else {
        CheckResult::ERROR { errors: error_report_to_strings(error_report) }
    }
}

/// The smallest subscription above a given one for which the composition
/// of the protocols is well-formed, or the findings on the protocols as
/// texts. `check_composed_swarm` finds nothing against the subscription.
pub fn exact_well_formed_sub(protos: InterfacingProtocols, subs: &Subscriptions) -> (r: DataResult<Subscriptions>)
    requires
        subs.wf_sets(),
    ensures
        match r {
            DataResult::OK { data } => data.wf_sets() && exact_result(protocols_view(protos.0@), subs.sets()) == Ok::<Subs, Seq<ReportView>>(data.sets()),
            DataResult::ERROR { errors } => exact_result(protocols_view(protos.0@), subs.sets()) is Err && texts_of(errors@) == report_texts(exact_result(protocols_view(protos.0@), subs.sets())->Err_0),
        },
        r is OK ==> exact_rounds_end(protocols_view(protos.0@), subs.sets()),
        r is OK ==> exact_passes(protocols_view(protos.0@), subs.sets()),
{
    match crate::composition::composition_swarm::exact_well_formed_sub(protos, subs) {
        Ok(subscriptions) => DataResult::OK { data: subscriptions },
        Err(error_report) => DataResult::ERROR { errors: error_report_to_strings(error_report) },
    }
}

/// A subscription above a given one for which the composition of the
/// protocols is well-formed, found without building the composition, or
/// the findings on the protocols as texts.
pub fn overapproximated_well_formed_sub(protos: InterfacingProtocols, subs: &Subscriptions, granularity: Granularity) -> (r: DataResult<Subscriptions>)
    requires
        subs.wf_sets(),
    ensures
        match r {
            DataResult::OK { data } => data.wf_sets() && overapprox_result(protocols_view(protos.0@), subs.sets(), granularity) == Ok::<Subs, Seq<ReportView>>(data.sets()),
            DataResult::ERROR { errors } => overapprox_result(protocols_view(protos.0@), subs.sets(), granularity) is Err && texts_of(errors@) == report_texts(overapprox_result(protocols_view(protos.0@), subs.sets(), granularity)->Err_0),
        },
        r is OK ==> overapprox_rounds_end(swarm_info(protocols_view(protos.0@)), subs.sets(), granularity),
{
    match crate::composition::composition_swarm::overapprox_well_formed_sub(protos, subs, granularity) {
        Ok(subscriptions) => DataResult::OK { data: subscriptions },
        Err(error_report) => DataResult::ERROR { errors: error_report_to_strings(error_report) },
    }
}

/// Whether every label of a graph carries an event type.
pub fn all_labelled(graph: &SwarmGraph) -> (r: bool)
    requires
        graph.wf(),
    ensures
        r == labelled(graph.labels()),
{
    proof {
        graph.lemma_wf();
    }
    let count = graph.edge_count();
    let mut e: usize = 0;
    while e < count
        invariant
            e <= count,
            count == graph.labels().len(),
            graph.wf(),
            graph.edges().len() == graph.labels().len(),
            forall|q: int| 0 <= q < e ==> (#[trigger] graph.labels()[q]).1.len() > 0,
        decreases count - e,
    {
        if graph.label(e).log_type.len() == 0 {
            assert(graph.labels()[e as int].1.len() == 0);
            return false;
        }
        e += 1;
    }
    true
}

/// The machine of a role in a single protocol as a list of transitions,
/// or the findings on the shape of the protocol as texts where it has no
/// initial state or a transition without an event type.
pub fn revised_projection(proto: SwarmProtocolType, subs: &Subscriptions, role: Role, minimize: bool) -> (r: DataResult<MachineType>)
    requires
        subs.wf_sets(),
    ensures
        match r {
            DataResult::OK { data } => {
                let m = projection(proto_nodes(proto@), proto_edges(proto@), proto_labels(proto@), proto_initial(proto@)->0, set_at(subs.sets(), role@), role@, minimize);
                &&& proto_initial(proto@) is Some
                &&& labelled(proto_labels(proto@))
                &&& data@ == (m.nodes[m.initial as int], crate::machine::machine_transitions::<State>(m.nodes, m.edges, m.labels))
            },
            DataResult::ERROR { errors } => {
                &&& proto_initial(proto@) is None || !labelled(proto_labels(proto@))
                &&& texts_of(errors@) == Seq::new(proto_errors(proto@).len(), |i: int| crate::composition::composition_swarm::Error::text::<State>(proto_errors(proto@)[i], proto_nodes(proto@), proto_edges(proto@), proto_labels(proto@)))
            },
        },
{
    let ghost view = proto@;
    let (swarm, initial, errors) = crate::composition::composition_swarm::from_json(proto);
    proof {
        crate::composition::composition_swarm::lemma_graph_of(swarm, initial, crate::composition::composition_swarm::shape_errors(swarm, initial, view), view);
        assert(texts_of(errors@) =~= Seq::new(proto_errors(view).len(), |i: int| crate::composition::composition_swarm::Error::text::<State>(proto_errors(view)[i], proto_nodes(view), proto_edges(view), proto_labels(view))));
    }
    let initial = match initial {
        Some(i) => i,
        None => {
            return DataResult::ERROR { errors };
        },
    };
    if !all_labelled(&swarm) {
        return DataResult::ERROR { errors };
    }
    let (proj, initial) = crate::composition::composition_machine::project(&swarm, initial, subs, role, minimize);
    DataResult::OK { data: crate::composition::composition_machine::to_json_machine(proj, initial) }
}

/// The machine of a role in the composition of the protocols as a list of
/// transitions, made of its machines in the single protocols, or the
/// findings on the protocols as texts.
pub fn project_combine(protos: InterfacingProtocols, subs: &Subscriptions, role: Role, minimize: bool) -> (r: DataResult<MachineType>)
    requires
        subs.wf_sets(),
        protos.0@.len() > 0,
    ensures
        match r {
            DataResult::OK { data } => {
                let m = project_combined(swarm_info(protocols_view(protos.0@)), subs.sets(), role@, minimize);
                &&& !has_errors(swarm_info(protocols_view(protos.0@)))
                &&& data@ == (m.nodes[m.initial as int], crate::machine::machine_transitions::<State>(m.nodes, m.edges, m.labels))
            },
            DataResult::ERROR { errors } => has_errors(swarm_info(protocols_view(protos.0@))) && texts_of(errors@) == report_texts(report_of(swarm_info(protocols_view(protos.0@)))),
        },
{
    let ghost views = protocols_view(protos.0@);
    let proto_info = crate::composition::composition_swarm::swarms_to_proto_info(protos);
    proof {
        lemma_no_errors(&proto_info);
        crate::composition::composition_swarm::lemma_protocols_len(views);
    }
    if !proto_info.no_errors() {
        return DataResult::ERROR { errors: error_report_to_strings(crate::composition::composition_swarm::proto_info_to_error_report(proto_info)) };
    }
    proof {
        lemma_swarm_info_ready(views);
        lemma_ready_composable(proto_info@);
    }
    let (proj, proj_initial) = crate::composition::composition_machine::project_combine(&proto_info, subs, role, minimize);
    let ghost m = project_combined(proto_info@, subs.sets(), role@, minimize);
    proof {
        proj.lemma_wf();
    }
    let ghost nodes = proj.nodes();
    let ghost edges = proj.edges();
    let data = crate::composition::composition_machine::from_option_to_machine(proj, proj_initial.unwrap());
    proof {
        assert forall|e: int| 0 <= e < edges.len() implies data@.1[e] == crate::machine::machine_transitions::<State>(m.nodes, m.edges, m.labels)[e] by {
            assert(edges[e].0 < nodes.len());
            assert(nodes[edges[e].0 as int] == Some(m.nodes[edges[e].0 as int]));
            assert(nodes[edges[e].1 as int] == Some(m.nodes[edges[e].1 as int]));
        }
        assert(data@.1 =~= crate::machine::machine_transitions::<State>(m.nodes, m.edges, m.labels));
    }
    DataResult::OK { data }
}

/// The composition of the protocols as a list of transitions, or the
/// findings on the protocols as texts.
pub fn compose_protocols(protos: InterfacingProtocols) -> (r: DataResult<SwarmProtocolType>)
    requires
        protos.0@.len() > 0,
    ensures
        match r {
            DataResult::OK { data } => {
                &&& compose_result(protocols_view(protos.0@)) is Ok
                &&& ({
                    let g = compose_result(protocols_view(protos.0@))->Ok_0;
                    data@ == (g.nodes[g.initial as int], crate::composition::composition_swarm::graph_transitions::<State, crate::types::SwarmLabel>(g.nodes, g.edges, g.labels))
                })
            },
            DataResult::ERROR { errors } => compose_result(protocols_view(protos.0@)) is Err && texts_of(errors@) == report_texts(compose_result(protocols_view(protos.0@))->Err_0),
        },
{
    let ghost views = protocols_view(protos.0@);
    match crate::composition::composition_swarm::compose_protocols(protos) {
        Ok((graph, initial)) => {
            DataResult::OK { data: crate::composition::composition_swarm::to_swarm_json(graph, initial) }
        },
        Err(errors) => DataResult::ERROR { errors: error_report_to_strings(errors) },
    }
}

/// Whether every label of a machine carries an event type.
pub open spec fn machine_ok(machine: (Seq<char>, Seq<(MachineLabelView, Seq<char>, Seq<char>)>)) -> bool {
    forall|i: int| 0 <= i < machine.1.len() ==> MachineLabel::has_event((#[trigger] machine.1[i]).0)
}

/// The graph of a machine given as a list of transitions.
pub open spec fn machine_graph(machine: (Seq<char>, Seq<(MachineLabelView, Seq<char>, Seq<char>)>)) -> GraphView<Option<Seq<char>>, MachineLabelView> {
    let names = crate::machine::machine_nodes(machine.1);
    GraphView {
        nodes: Seq::new(names.len(), |i: int| Some(names[i])),
        edges: Seq::new(machine.1.len(), |i: int| (crate::composition::composition_swarm::pos_of(names, machine.1[i].1) as usize, crate::composition::composition_swarm::pos_of(names, machine.1[i].2) as usize)),
        labels: Seq::new(machine.1.len(), |i: int| machine.1[i].0),
        initial: crate::composition::composition_swarm::pos_of(names, machine.0) as usize,
    }
}

/// Whether a transition of a machine names its initial state.
pub open spec fn has_initial(machine: (Seq<char>, Seq<(MachineLabelView, Seq<char>, Seq<char>)>)) -> bool {
    crate::machine::machine_nodes(machine.1).contains(machine.0)
}

/// What is to be known of the machine of a role in the composition of the
/// protocols, built around the role's own machine, or the reasons why
/// there is none as texts: the findings on the protocols; that no
/// transition of the machine names its initial state; or that there is no
/// protocol at `k`.
pub fn projection_information(role: Role, protos: InterfacingProtocols, k: usize, subs: &Subscriptions, machine: MachineType, minimize: bool) -> (r: DataResult<ProjectionInfo>)
    requires
        subs.wf_sets(),
        machine_ok(machine@),
    ensures
        match r {
            DataResult::OK { data } => {
                let c = swarm_info(protocols_view(protos.0@));
                let a = adapted(c, subs.sets(), role@, machine_graph(machine@), k as int, minimize);
                &&& !has_errors(c)
                &&& has_initial(machine@)
                &&& k < protos.0@.len()
                &&& data.projection@ == (a.nodes[a.initial as int].0, Seq::new(a.edges.len(), |e: int| (a.labels[e], a.nodes[a.edges[e].0 as int].0, a.nodes[a.edges[e].1 as int].0)))
                &&& data.branches.wf()
                &&& lists_view(data.branches) == as_lists(paths_of(a.nodes.len(), a.edges, a.labels, c))
                &&& data.special_event_types.wf()
                &&& data.special_event_types@ == union_of(c.branching_events).union(c.joining_events.dom())
                &&& data.proj_to_machine_states.wf()
                &&& states_view(data.proj_to_machine_states) == fold(a.nodes, Map::<Seq<char>, Seq<Seq<char>>>::empty(), refines_step())
            },
            DataResult::ERROR { errors } => {
                let c = swarm_info(protocols_view(protos.0@));
                texts_of(errors@) == if has_errors(c) {
                    report_texts(report_of(c))
                } else if !has_initial(machine@) {
                    seq!["initial machine state has no transitions"@]
                } else {
                    seq!["invalid index "@ + crate::text::decimal(k as nat)]
                } && (has_errors(c) || !has_initial(machine@) || k >= protos.0@.len())
            },
        },
{
    let ghost views = protocols_view(protos.0@);
    let ghost mview = machine@;
    let proto_info = crate::composition::composition_swarm::swarms_to_proto_info(protos);
    proof {
        lemma_no_errors(&proto_info);
        crate::composition::composition_swarm::lemma_protocols_len(views);
    }
    if !proto_info.no_errors() {
        return DataResult::ERROR { errors: error_report_to_strings(crate::composition::composition_swarm::proto_info_to_error_report(proto_info)) };
    }
    let (machine, initial, m_errors) = crate::machine::from_json(machine);
    let mut errors = m_errors;
    let initial = match initial {
        Some(i) => i,
        None => {
            errors.push(String::from_str("initial machine state has no transitions"));
            proof {
                assert(texts_of(errors@) =~= seq!["initial machine state has no transitions"@]);
            }
            return DataResult::ERROR { errors };
        },
    };
    proof {
        lemma_swarm_info_ready(views);
        lemma_ready_composable(proto_info@);
        assert(view_of(machine, initial) == machine_graph(mview));
        assert(carries_events::<MachineLabel>(machine.labels()));
    }
    match crate::composition::composition_machine::projection_information(&proto_info, subs, role, (machine, initial), k, minimize) {
        Some(projection_info) => DataResult::OK { data: projection_info },
        None => {
            let mut text = String::from_str("invalid index ");
            text.append(crate::text::number_text(k).as_str());
            let errors = vec![text];
            proof {
                assert(texts_of(errors@) =~= seq!["invalid index "@ + crate::text::decimal(k as nat)]);
            }
            DataResult::ERROR { errors }
        },
    }
}

/// The texts of the findings of a comparison of two machines.
pub open spec fn difference_texts(errors: Seq<crate::machine::Error>, left: GraphView<Option<Seq<char>>, MachineLabelView>, right: GraphView<Option<Seq<char>>, MachineLabelView>) -> Seq<Seq<char>> {
    Seq::new(errors.len(), |i: int| errors[i].text(left.nodes, left.edges, left.labels, right.nodes, right.edges, right.labels))
}

/// A machine of named states as a machine whose states may lack a name.
pub open spec fn named_graph(m: GraphView<Seq<char>, MachineLabelView>) -> GraphView<Option<Seq<char>>, MachineLabelView> {
    GraphView { nodes: Seq::new(m.nodes.len(), |x: int| Some(m.nodes[x])), edges: m.edges, labels: m.labels, initial: m.initial }
}

/// A machine with its names left aside.
pub open spec fn shape(m: GraphView<Option<Seq<char>>, MachineLabelView>) -> crate::composition::composition_machine::MachineView {
    crate::composition::composition_machine::MachineView { nodes: Seq::empty(), edges: m.edges, labels: m.labels, initial: m.initial }
}

/// Checks a machine against the machine of a role in the composition of
/// the protocols, which is the reference: `OK` where the two have the same
/// transitions from their initial states on; else the findings as texts,
/// which are those on the protocols, or that no transition of the machine
/// names its initial state, or those of the comparison.
pub fn check_composed_projection(protos: InterfacingProtocols, subs: &Subscriptions, role: Role, machine: MachineType) -> (r: CheckResult)
    requires
        subs.wf_sets(),
        protos.0@.len() > 0,
    ensures
        ({
            let c = swarm_info(protocols_view(protos.0@));
            let reference = named_graph(project_combined(c, subs.sets(), role@, false));
            let given = machine_graph(machine@);
            check_view(r) == if has_errors(c) {
                Some(report_texts(report_of(c)))
            } else if !has_initial(machine@) {
                Some(seq!["initial machine state has no transitions"@])
            } else if differences(shape(reference), shape(given)).len() == 0 {
                None
            } else {
                Some(difference_texts(differences(shape(reference), shape(given)), reference, given))
            }
        }),
{
    let ghost views = protocols_view(protos.0@);
    let ghost mview = machine@;
    let ghost role_key = role@;
    let proto_info = crate::composition::composition_swarm::swarms_to_proto_info(protos);
    proof {
        lemma_no_errors(&proto_info);
        crate::composition::composition_swarm::lemma_protocols_len(views);
    }
    if !proto_info.no_errors() {
        let errors = error_report_to_strings(crate::composition::composition_swarm::proto_info_to_error_report(proto_info));
        return CheckResult::ERROR { errors };
    }
    proof {
        lemma_swarm_info_ready(views);
        lemma_ready_composable(proto_info@);
    }
    let (proj, proj_initial) = crate::composition::composition_machine::project_combine(&proto_info, subs, role, false);
    let (machine, json_initial, m_errors) = crate::machine::from_json(machine);
    let mut errors = m_errors;
    let json_initial = match json_initial {
        Some(i) => i,
        None => {
            errors.push(String::from_str("initial machine state has no transitions"));
            proof {
                assert(texts_of(errors@) =~= seq!["initial machine state has no transitions"@]);
            }
            return CheckResult::ERROR { errors };
        },
    };
    let proj_initial = proj_initial.unwrap();
    let ghost reference = named_graph(project_combined(proto_info@, subs.sets(), role_key, false));
    let ghost given = machine_graph(mview);
    proof {
        assert(view_of(proj, proj_initial) == reference);
        assert(view_of(machine, json_initial) == given);
        assert(shape_of(proj, proj_initial) == shape(reference));
        assert(shape_of(machine, json_initial) == shape(given));
    }
    let found = crate::composition::composition_machine::equivalent(&proj, proj_initial, &machine, json_initial);
    let mut i: usize = 0;
    while i < found.len()
        invariant
            i <= found.len(),
            proj.wf(),
            machine.wf(),
            view_of(proj, proj_initial) == reference,
            view_of(machine, json_initial) == given,
            forall|q: int| 0 <= q < found@.len() ==> (#[trigger] found@[q]).fits(proj.nodes().len(), machine.nodes().len()),
            errors@.len() == i,
            forall|q: int| 0 <= q < i ==> (#[trigger] errors@[q])@ == found@[q].text(reference.nodes, reference.edges, reference.labels, given.nodes, given.edges, given.labels),
        decreases found.len() - i,
    {
        errors.push(crate::machine::Error::convert(&proj, &machine, &found[i]));
        i += 1;
    }
    proof {
        assert(texts_of(errors@) =~= difference_texts(found@, reference, given));
    }
    if errors.len() == 0 {
        CheckResult::OK
    } else {
        CheckResult::ERROR { errors }
    }
}

} // verus!
