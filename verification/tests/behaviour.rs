use machine_check::composition::composition_machine::{compose, equivalent, gen_state_name, minimal_machine, partition_refinement, project};
use machine_check::composition::composition_swarm::{confusion_free, explicit_composition, from_json, swarms_to_proto_info, well_formed, Error};
use machine_check::composition::composition_types::{Granularity, InterfacingProtocols, MachineType, Subscriptions, SwarmInterface, SwarmProtocolType};
use machine_check::composition::{
    check_composed_projection, check_composed_swarm, compose_protocols, exact_well_formed_sub, overapproximated_well_formed_sub, project_combine, projection_information,
    revised_projection,
};
use machine_check::graph::Digraph;
use machine_check::machine::{to_option_machine, MachineGraph};
use machine_check::names::{Command, EventType, Role, State};
use machine_check::ordmap::OrdMap;
use machine_check::ordset::OrdSet;
use machine_check::types::{CheckResult, DataResult, MachineLabel, ProtocolType, SwarmLabel, Transition};
use std::collections::{BTreeMap, BTreeSet};

fn step(source: &str, target: &str, cmd: &str, role: &str, events: &[&str]) -> Transition<SwarmLabel> {
    Transition {
        label: SwarmLabel { cmd: Command::new(cmd), log_type: events.iter().map(|e| EventType::new(e)).collect(), role: Role::new(role) },
        source: State::new(source),
        target: State::new(target),
    }
}

fn execute(source: &str, target: &str, cmd: &str, events: &[&str]) -> Transition<MachineLabel> {
    Transition {
        label: MachineLabel::Execute { cmd: Command::new(cmd), log_type: events.iter().map(|e| EventType::new(e)).collect() },
        source: State::new(source),
        target: State::new(target),
    }
}

fn input(source: &str, target: &str, event: &str) -> Transition<MachineLabel> {
    Transition { label: MachineLabel::Input { event_type: EventType::new(event) }, source: State::new(source), target: State::new(target) }
}

fn protocol<L>(initial: &str, transitions: Vec<Transition<L>>) -> ProtocolType<L> {
    ProtocolType { initial: State::new(initial), transitions }
}

fn subscription(entries: &[(&str, &[&str])]) -> Subscriptions {
    let mut subs: Subscriptions = OrdMap::new();
    for (role, events) in entries {
        let mut set: OrdSet<EventType> = OrdSet::new();
        for e in events.iter() {
            set.insert(EventType::new(e));
        }
        subs.insert(Role::new(role), set);
    }
    subs
}

fn plain(subs: &Subscriptions) -> BTreeMap<String, BTreeSet<String>> {
    (0..subs.len()).map(|i| (subs.key_at(i).to_string(), subs.val_at(i).to_vec().iter().map(|e| e.to_string()).collect())).collect()
}

fn expected(entries: &[(&str, &[&str])]) -> BTreeMap<String, BTreeSet<String>> {
    entries.iter().map(|(role, events)| (role.to_string(), events.iter().map(|e| e.to_string()).collect())).collect()
}

fn rebuilt(subs: &BTreeMap<String, BTreeSet<String>>) -> Subscriptions {
    let mut out: Subscriptions = OrdMap::new();
    for (role, events) in subs {
        let mut set: OrdSet<EventType> = OrdSet::new();
        for e in events {
            set.insert(EventType::new(e));
        }
        out.insert(Role::new(role), set);
    }
    out
}

fn data<T>(r: DataResult<T>) -> T {
    match r {
        DataResult::OK { data } => data,
        DataResult::ERROR { errors } => panic!("findings: {:?}", errors),
    }
}

fn findings(r: CheckResult) -> Vec<String> {
    match r {
        CheckResult::OK => vec![],
        CheckResult::ERROR { errors } => errors,
    }
}

fn warehouse() -> SwarmProtocolType {
    protocol(
        "0",
        vec![
            step("0", "1", "request", "T", &["partID"]),
            step("1", "2", "get", "FL", &["pos"]),
            step("2", "0", "deliver", "T", &["part"]),
            step("0", "3", "close", "D", &["time"]),
        ],
    )
}

fn factory() -> SwarmProtocolType {
    protocol("0", vec![step("0", "1", "request", "T", &["partID"]), step("1", "2", "deliver", "T", &["part"]), step("2", "3", "build", "F", &["car"])])
}

fn quality() -> SwarmProtocolType {
    protocol(
        "0",
        vec![
            step("0", "1", "observe", "TR", &["report1"]),
            step("1", "2", "build", "F", &["car"]),
            step("2", "3", "test", "TR", &["report2"]),
            step("3", "4", "accept", "QCR", &["ok"]),
            step("3", "4", "reject", "QCR", &["notOk"]),
        ],
    )
}

fn cycle() -> SwarmProtocolType {
    protocol("0", vec![step("0", "1", "a", "R1", &["ea"]), step("1", "2", "b", "R2", &["eb"]), step("2", "0", "c", "R1", &["ec"])])
}

fn compositions() -> Vec<Vec<SwarmProtocolType>> {
    vec![vec![warehouse()], vec![warehouse(), factory()], vec![warehouse(), factory(), quality()], vec![cycle()]]
}

fn no_subscription() -> Subscriptions {
    OrdMap::new()
}

fn deterministic(graph: &MachineGraph) -> bool {
    (0..graph.node_count()).all(|n| {
        let out = graph.out_edges(n);
        let labels: BTreeSet<String> = out.iter().map(|e| graph.label(*e).to_string()).collect();
        labels.len() == out.len()
    })
}

#[test]
fn exact_subscription_of_the_warehouse() {
    let subs = data(exact_well_formed_sub(InterfacingProtocols(vec![warehouse()]), &no_subscription()));
    assert_eq!(plain(&subs), expected(&[("T", &["partID", "part", "pos", "time"]), ("FL", &["partID", "pos", "time"]), ("D", &["partID", "part", "time"])]));
}

#[test]
fn exact_subscription_of_warehouse_and_factory() {
    let subs = data(exact_well_formed_sub(InterfacingProtocols(vec![warehouse(), factory()]), &no_subscription()));
    let subs = plain(&subs);
    assert_eq!(subs["F"], ["partID", "part", "car", "time"].iter().map(|e| e.to_string()).collect::<BTreeSet<String>>());
    assert_eq!(subs["FL"], ["partID", "pos", "time"].iter().map(|e| e.to_string()).collect::<BTreeSet<String>>());
    assert_eq!(subs.len(), 4);
}

#[test]
fn roles_at_a_join_observe_what_is_joined() {
    let subs = data(exact_well_formed_sub(InterfacingProtocols(vec![warehouse(), factory(), quality()]), &no_subscription()));
    let subs = plain(&subs);
    for role in ["F", "TR", "QCR"] {
        for event in ["car", "part", "report1"] {
            assert!(subs[role].contains(event), "{} lacks {}", role, event);
        }
    }
}

#[test]
fn exact_subscription_passes_the_check() {
    for protos in compositions() {
        let subs = data(exact_well_formed_sub(InterfacingProtocols(protos.clone()), &no_subscription()));
        assert_eq!(findings(check_composed_swarm(InterfacingProtocols(protos), &subs)), Vec::<String>::new());
    }
}

#[test]
fn overapproximations_pass_the_check_and_hold_the_exact_subscription() {
    for protos in compositions() {
        let exact = plain(&data(exact_well_formed_sub(InterfacingProtocols(protos.clone()), &no_subscription())));
        for granularity in [Granularity::Fine, Granularity::Medium, Granularity::Coarse, Granularity::TwoStep] {
            let wide = data(overapproximated_well_formed_sub(InterfacingProtocols(protos.clone()), &no_subscription(), granularity));
            assert_eq!(findings(check_composed_swarm(InterfacingProtocols(protos.clone()), &wide)), Vec::<String>::new());
            let wide = plain(&wide);
            for (role, events) in &exact {
                assert!(events.is_subset(&wide[role]), "{:?}: {} observes less than it must", granularity, role);
            }
        }
    }
}

#[test]
fn exact_subscription_has_nothing_to_spare() {
    for protos in [vec![warehouse()], vec![warehouse(), factory()]] {
        let exact = plain(&data(exact_well_formed_sub(InterfacingProtocols(protos.clone()), &no_subscription())));
        for (role, events) in &exact {
            for event in events {
                let mut less = exact.clone();
                less.get_mut(role).unwrap().remove(event);
                let errors = findings(check_composed_swarm(InterfacingProtocols(protos.clone()), &rebuilt(&less)));
                assert!(!errors.is_empty(), "{} can do without {}", role, event);
            }
        }
    }
}

#[test]
fn given_subscription_is_kept() {
    let given = subscription(&[("D", &["pos"]), ("X", &["car"])]);
    let subs = plain(&data(exact_well_formed_sub(InterfacingProtocols(vec![warehouse()]), &given)));
    assert_eq!(
        subs,
        expected(&[("T", &["partID", "part", "pos", "time"]), ("FL", &["partID", "pos", "time"]), ("D", &["partID", "part", "pos", "time"]), ("X", &["car"])])
    );
}

#[test]
fn cycle_without_end_is_held_together_by_one_event() {
    let subs = data(exact_well_formed_sub(InterfacingProtocols(vec![cycle()]), &no_subscription()));
    let plain_subs = plain(&subs);
    let shared: BTreeSet<String> = plain_subs["R1"].intersection(&plain_subs["R2"]).cloned().collect();
    assert!(["ea", "eb", "ec"].iter().any(|e| shared.contains(*e)));
    assert_eq!(findings(check_composed_swarm(InterfacingProtocols(vec![cycle()]), &subs)), Vec::<String>::new());
}

#[test]
fn cycle_that_no_event_holds_together_is_reported() {
    let subs = subscription(&[("R1", &["ea", "ec"]), ("R2", &["eb"])]);
    let errors = findings(check_composed_swarm(InterfacingProtocols(vec![cycle()]), &subs));
    assert!(errors.iter().any(|e| e.ends_with("is part of loop that can not reach a terminal state, but no looping event type in the loop is subscribed to by roles R1, R2 involved in the loop")
        || e.ends_with("is part of loop that can not reach a terminal state, but no looping event type in the loop is subscribed to by roles R2 involved in the loop")
        || e.ends_with("is part of loop that can not reach a terminal state, but no looping event type in the loop is subscribed to by roles R1 involved in the loop")),
        "{:?}", errors);
}

#[test]
fn projection_of_the_warehouse_to_the_transporter() {
    let subs = subscription(&[("T", &["partID", "part", "pos", "time"]), ("FL", &["partID", "pos", "time"]), ("D", &["partID", "part", "time"])]);
    let machine = data(revised_projection(warehouse(), &subs, Role::new("T"), false));
    let wanted = protocol(
        "0",
        vec![
            execute("0", "0", "request", &["partID"]),
            input("0", "1", "partID"),
            input("1", "2", "pos"),
            execute("2", "2", "deliver", &["part"]),
            input("2", "0", "part"),
            input("0", "3", "time"),
        ],
    );
    assert_eq!(machine.transitions.len(), 6);
    assert_eq!(machine.initial, State::new("0"));
    let mut got: Vec<String> = machine.transitions.iter().map(|t| format!("{} {} {}", t.source.to_string(), t.label.to_string(), t.target.to_string())).collect();
    let mut want: Vec<String> = wanted.transitions.iter().map(|t| format!("{} {} {}", t.source.to_string(), t.label.to_string(), t.target.to_string())).collect();
    got.sort();
    want.sort();
    assert_eq!(got, want);
    assert_eq!(findings(check_composed_projection(InterfacingProtocols(vec![warehouse()]), &subs, Role::new("T"), wanted)), Vec::<String>::new());
}

#[test]
fn projection_drops_what_a_role_does_not_observe() {
    let subs = subscription(&[("T", &["partID", "part", "pos", "time"]), ("FL", &["partID", "pos", "time"]), ("D", &["partID", "part", "time"])]);
    let machine = data(revised_projection(warehouse(), &subs, Role::new("FL"), true));
    let mut texts: Vec<String> = machine.transitions.iter().map(|t| t.label.to_string()).collect();
    texts.sort();
    assert_eq!(texts, vec!["get/pos", "partID?", "pos?", "time?"]);
}

#[test]
fn machine_without_a_transition_is_reported_once() {
    let full = protocol(
        "0",
        vec![
            execute("0", "0", "request", &["partID"]),
            input("0", "1", "partID"),
            input("1", "2", "pos"),
            execute("2", "2", "deliver", &["part"]),
            input("2", "0", "part"),
            input("0", "3", "time"),
        ],
    );
    let mut short = full.clone();
    short.transitions.pop();
    let (left, li, _) = machine_check::machine::from_json(full);
    let (right, ri, _) = machine_check::machine::from_json(short);
    let errors = equivalent(&left, li.unwrap(), &right, ri.unwrap());
    let texts: Vec<String> = errors.iter().map(|e| machine_check::machine::Error::convert(&left, &right, e)).collect();
    assert_eq!(texts, vec!["missing transition (0)--[time?]-->(3) in state 0"]);
    let errors = equivalent(&right, ri.unwrap(), &left, li.unwrap());
    let texts: Vec<String> = errors.iter().map(|e| machine_check::machine::Error::convert(&right, &left, e)).collect();
    assert_eq!(texts, vec!["extraneous transition (0)--[time?]-->(3) (reference state 0)"]);
}

#[test]
fn machine_with_two_ways_on_one_event_is_reported() {
    let twice = protocol("0", vec![input("0", "1", "partID"), input("0", "2", "partID")]);
    let once = protocol("0", vec![input("0", "1", "partID")]);
    let (left, li, _) = machine_check::machine::from_json(twice);
    let (right, ri, _) = machine_check::machine::from_json(once);
    let errors = equivalent(&left, li.unwrap(), &right, ri.unwrap());
    let texts: Vec<String> = errors.iter().map(|e| machine_check::machine::Error::convert(&left, &right, e)).collect();
    assert!(texts.iter().any(|t| t.starts_with("non-deterministic transition (0)--[partID?]-->(") && t.ends_with(" in the reference")), "{:?}", texts);
    let errors = equivalent(&right, ri.unwrap(), &left, li.unwrap());
    let texts: Vec<String> = errors.iter().map(|e| machine_check::machine::Error::convert(&right, &left, e)).collect();
    assert!(texts.iter().any(|t| t.starts_with("non-deterministic transition (0)--[partID?]-->(") && !t.ends_with(" in the reference")), "{:?}", texts);
}

#[test]
fn machine_is_equivalent_to_itself() {
    for protos in compositions() {
        let subs = data(exact_well_formed_sub(InterfacingProtocols(protos.clone()), &no_subscription()));
        for r in 0..subs.len() {
            let role = subs.key_at(r).clone();
            let machine = data(project_combine(InterfacingProtocols(protos.clone()), &subs, role, true));
            let (graph, initial, _) = machine_check::machine::from_json(machine);
            assert!(equivalent(&graph, initial.unwrap(), &graph, initial.unwrap()).is_empty());
        }
    }
}

#[test]
fn minimized_projection_is_deterministic() {
    for protos in compositions() {
        let subs = data(exact_well_formed_sub(InterfacingProtocols(protos.clone()), &no_subscription()));
        let info = swarms_to_proto_info(InterfacingProtocols(protos));
        let (graph, initial) = explicit_composition(&info);
        for r in 0..subs.len() {
            let (machine, _) = project(&graph, initial, &subs, subs.key_at(r).clone(), true);
            assert!(deterministic(&machine));
        }
    }
}

#[test]
fn composition_in_either_order_is_the_same_machine() {
    let subs = data(exact_well_formed_sub(InterfacingProtocols(vec![warehouse(), factory()]), &no_subscription()));
    let (w, wi, _) = from_json(warehouse());
    let (f, fi, _) = from_json(factory());
    for r in 0..subs.len() {
        let role = subs.key_at(r).clone();
        let (a, ai) = project(&w, wi.unwrap(), &subs, role.clone(), false);
        let (b, bi) = project(&f, fi.unwrap(), &subs, role.clone(), false);
        let mut interface: OrdSet<EventType> = OrdSet::new();
        interface.insert(EventType::new("partID"));
        interface.insert(EventType::new("part"));
        let mut interface_again: OrdSet<EventType> = OrdSet::new();
        interface_again.insert(EventType::new("partID"));
        interface_again.insert(EventType::new("part"));
        let (ab, abi) = compose(a.duplicate(), ai, b.duplicate(), bi, interface, gen_state_name::<State>);
        let (ba, bai) = compose(b, bi, a, ai, interface_again, gen_state_name::<State>);
        let left = to_option_machine(&ab);
        let right = to_option_machine(&ba);
        assert!(equivalent(&left, abi, &right, bai).is_empty());
        assert!(equivalent(&right, bai, &left, abi).is_empty());
    }
}

#[test]
fn projection_of_the_composition_is_the_composition_of_projections() {
    for protos in [vec![warehouse(), factory()], vec![warehouse(), factory(), quality()]] {
        let subs = data(exact_well_formed_sub(InterfacingProtocols(protos.clone()), &no_subscription()));
        let info = swarms_to_proto_info(InterfacingProtocols(protos.clone()));
        let (graph, initial) = explicit_composition(&info);
        for r in 0..subs.len() {
            let role = subs.key_at(r).clone();
            let (whole, wi) = project(&graph, initial, &subs, role.clone(), true);
            let combined = data(project_combine(InterfacingProtocols(protos.clone()), &subs, role, true));
            let (right, ri, _) = machine_check::machine::from_json(combined);
            let left = to_option_machine(&whole);
            assert!(equivalent(&left, wi, &right, ri.unwrap()).is_empty());
        }
    }
}

#[test]
fn minimal_machine_is_not_made_smaller() {
    for protos in compositions() {
        let subs = data(exact_well_formed_sub(InterfacingProtocols(protos.clone()), &no_subscription()));
        let info = swarms_to_proto_info(InterfacingProtocols(protos));
        let (graph, initial) = explicit_composition(&info);
        for r in 0..subs.len() {
            let (once, oi) = project(&graph, initial, &subs, subs.key_at(r).clone(), true);
            assert_eq!(partition_refinement(&once).len(), once.node_count());
            let (twice, ti) = minimal_machine(&once, oi);
            assert_eq!(twice.node_count(), once.node_count());
            assert_eq!(twice.edge_count(), once.edge_count());
            assert!(equivalent(&to_option_machine(&once), oi, &to_option_machine(&twice), ti).is_empty());
        }
    }
}

#[test]
fn composition_keeps_labels_apart() {
    let composed = data(compose_protocols(InterfacingProtocols(vec![warehouse(), factory()])));
    let labels: BTreeSet<String> = composed.transitions.iter().map(|t| t.label.to_string()).collect();
    let commands: BTreeSet<String> = composed.transitions.iter().map(|t| t.label.cmd.to_string()).collect();
    let events: BTreeSet<String> = composed.transitions.iter().map(|t| t.label.log_type[0].to_string()).collect();
    assert_eq!(labels.len(), 5);
    assert_eq!(commands.len(), 5);
    assert_eq!(events.len(), 5);
    assert_eq!(composed.initial, State::new("0 || 0"));
}

#[test]
fn composition_keeps_transitions_of_a_state_apart() {
    for protos in compositions() {
        let composed = data(compose_protocols(InterfacingProtocols(protos)));
        let by_command: BTreeSet<(String, String)> = composed.transitions.iter().map(|t| (t.source.to_string(), t.label.cmd.to_string())).collect();
        let by_event: BTreeSet<(String, String)> = composed.transitions.iter().map(|t| (t.source.to_string(), t.label.log_type[0].to_string())).collect();
        assert_eq!(by_command.len(), composed.transitions.len());
        assert_eq!(by_event.len(), composed.transitions.len());
    }
}

#[test]
fn confusion_is_found_exactly_where_two_transitions_share_a_command_or_an_event_type() {
    let clean = swarms_to_proto_info(InterfacingProtocols(vec![warehouse()]));
    assert_eq!(confusion_free(&clean, 0).len(), 0);
    let same_event = protocol("0", vec![step("0", "1", "c1", "R", &["a"]), step("1", "2", "c2", "R", &["a"])]);
    let info = swarms_to_proto_info(InterfacingProtocols(vec![same_event]));
    assert_eq!(confusion_free(&info, 0).len(), 1);
    let same_command = protocol("0", vec![step("0", "1", "c1", "R", &["a"]), step("1", "2", "c1", "R", &["b"])]);
    let info = swarms_to_proto_info(InterfacingProtocols(vec![same_command]));
    assert_eq!(confusion_free(&info, 0).len(), 1);
}

#[test]
fn composition_of_warehouse_and_factory() {
    let composed = data(compose_protocols(InterfacingProtocols(vec![warehouse(), factory()])));
    let mut got: Vec<String> = composed.transitions.iter().map(|t| format!("({})--[{}]-->({})", t.source.to_string(), t.label.to_string(), t.target.to_string())).collect();
    got.sort();
    let mut want = vec![
        "(0 || 0)--[request@T<partID>]-->(1 || 1)",
        "(0 || 0)--[close@D<time>]-->(3 || 0)",
        "(1 || 1)--[get@FL<pos>]-->(2 || 1)",
        "(2 || 1)--[deliver@T<part>]-->(0 || 2)",
        "(0 || 2)--[build@F<car>]-->(0 || 3)",
        "(0 || 2)--[close@D<time>]-->(3 || 2)",
        "(0 || 3)--[close@D<time>]-->(3 || 3)",
        "(3 || 2)--[build@F<car>]-->(3 || 3)",
    ];
    want.sort();
    assert_eq!(got, want);
}

#[test]
fn shared_role_must_be_the_only_one() {
    let (w, _, _) = from_json(warehouse());
    let (f, _, _) = from_json(factory());
    let texts: Vec<String> = Role::new("F").check_interface(&w, &f).iter().map(|e| e.to_string(&w)).collect();
    assert!(texts.contains(&"role F can not be used as interface".to_string()), "{:?}", texts);
    assert!(Role::new("T").check_interface(&w, &f).is_empty());
}

#[test]
fn interface_event_must_be_on_both_sides() {
    let other = protocol("0", vec![step("0", "1", "request", "T", &["partID"]), step("1", "2", "build", "F", &["car"])]);
    let (w, _, _) = from_json(warehouse());
    let (o, _, _) = from_json(other);
    let texts: Vec<String> = Role::new("T").check_interface(&w, &o).iter().map(|e| e.to_string(&w)).collect();
    assert_eq!(texts, vec!["event type part does not appear in both protocols"]);
}

#[test]
fn event_of_another_role_on_both_sides_is_reported() {
    let other = protocol("0", vec![step("0", "1", "request", "T", &["partID"]), step("1", "2", "deliver", "T", &["part"]), step("2", "3", "shut", "F", &["time"])]);
    let (w, _, _) = from_json(warehouse());
    let (o, _, _) = from_json(other);
    let texts: Vec<String> = Role::new("T").check_interface(&w, &o).iter().map(|e| e.to_string(&w)).collect();
    assert_eq!(
        texts,
        vec![
            "Role D is not used as an interface, but the command close or the event type time appear in both protocols",
            "Role F is not used as an interface, but the command shut or the event type time appear in both protocols",
        ]
    );
}

#[test]
fn command_with_two_meanings_is_reported() {
    let other = protocol("0", vec![step("0", "1", "request", "T", &["partID"]), step("1", "2", "deliver", "T", &["part"]), step("2", "3", "get", "F", &["car"])]);
    let errors = findings(check_composed_swarm(InterfacingProtocols(vec![warehouse(), other]), &no_subscription()));
    assert!(
        errors.contains(&"Command get appears as get@FL<pos> and as get@F<car>".to_string()) || errors.contains(&"Command get appears as get@F<car> and as get@FL<pos>".to_string()),
        "{:?}",
        errors
    );
}

#[test]
fn event_with_two_meanings_is_reported() {
    let other = protocol("0", vec![step("0", "1", "request", "T", &["partID"]), step("1", "2", "deliver", "T", &["part"]), step("2", "3", "build", "F", &["pos"])]);
    let errors = findings(check_composed_swarm(InterfacingProtocols(vec![warehouse(), other]), &no_subscription()));
    assert!(
        errors.contains(&"Event type pos appears as get@FL<pos> and as build@F<pos>".to_string())
            || errors.contains(&"Event type pos appears as build@F<pos> and as get@FL<pos>".to_string()),
        "{:?}",
        errors
    );
}

#[test]
fn index_beyond_the_protocols_is_an_invalid_argument() {
    let info = swarms_to_proto_info(InterfacingProtocols(vec![warehouse()]));
    let (graph, _, _) = from_json(warehouse());
    let texts: Vec<String> = confusion_free(&info, 1).iter().map(|e| e.to_string(&graph)).collect();
    assert_eq!(texts, vec!["invalid argument"]);
    let texts: Vec<String> = well_formed(&info, 7, &no_subscription()).iter().map(|e| e.to_string(&graph)).collect();
    assert_eq!(texts, vec!["invalid argument"]);
}

#[test]
fn structural_findings_name_states_and_edges() {
    let lonely = protocol("9", vec![step("0", "1", "request", "T", &["partID"])]);
    let errors = findings(check_composed_swarm(InterfacingProtocols(vec![lonely]), &no_subscription()));
    assert!(!errors.is_empty());
    assert!(errors.iter().all(|e| e == "initial swarm protocol state has no transitions"), "{:?}", errors);
    let apart = protocol("0", vec![step("0", "1", "request", "T", &["partID"]), step("2", "3", "get", "FL", &["pos"])]);
    let errors = findings(check_composed_swarm(InterfacingProtocols(vec![apart]), &subscription(&[("T", &["partID"]), ("FL", &["pos"])])));
    assert!(errors.contains(&"state 2 is unreachable from initial state".to_string()), "{:?}", errors);
    assert!(errors.contains(&"state 3 is unreachable from initial state".to_string()), "{:?}", errors);
    let silent = protocol("0", vec![step("0", "1", "request", "T", &[])]);
    let errors = findings(check_composed_swarm(InterfacingProtocols(vec![silent]), &no_subscription()));
    assert!(errors.contains(&"log type must not be empty (0)--[request@T<>]-->(1)".to_string()), "{:?}", errors);
    let loud = protocol("0", vec![step("0", "1", "request", "T", &["partID", "again"])]);
    let errors = findings(check_composed_swarm(InterfacingProtocols(vec![loud]), &subscription(&[("T", &["partID"])])));
    assert!(errors.contains(&"transition (0)--[request@T<partID,again>]-->(1) emits more than one event type".to_string()), "{:?}", errors);
}

#[test]
fn confusion_is_reported_with_each_edge() {
    let twice = protocol("0", vec![step("0", "1", "request", "T", &["partID"]), step("1", "2", "request", "T", &["partID"])]);
    let errors = findings(check_composed_swarm(InterfacingProtocols(vec![twice]), &subscription(&[("T", &["partID"])])));
    let events: Vec<&String> = errors.iter().filter(|e| e.starts_with("event type partID emitted in more than one transition: ")).collect();
    let commands: Vec<&String> = errors.iter().filter(|e| e.starts_with("command request enabled in more than one transition: ")).collect();
    assert_eq!(events.len(), 1);
    assert_eq!(commands.len(), 1);
    for text in events.iter().chain(commands.iter()) {
        assert!(text.contains("(0)--[request@T<partID>]-->(1)"));
        assert!(text.contains("(1)--[request@T<partID>]-->(2)"));
        assert!(text.contains(", "));
    }
}

#[test]
fn projection_information_refuses_an_index_beyond_the_protocols() {
    let subs = data(exact_well_formed_sub(InterfacingProtocols(vec![warehouse(), factory()]), &no_subscription()));
    let machine: MachineType = data(revised_projection(factory(), &subs, Role::new("F"), true));
    match projection_information(Role::new("F"), InterfacingProtocols(vec![warehouse(), factory()]), 12, &subs, machine, true) {
        DataResult::ERROR { errors } => assert_eq!(errors, vec!["invalid index 12"]),
        DataResult::OK { .. } => panic!("an index beyond the protocols was taken"),
    }
}

#[test]
fn projection_information_refuses_a_machine_without_its_initial_state() {
    let subs = data(exact_well_formed_sub(InterfacingProtocols(vec![warehouse(), factory()]), &no_subscription()));
    let machine = protocol("9", vec![input("0", "1", "partID")]);
    match projection_information(Role::new("F"), InterfacingProtocols(vec![warehouse(), factory()]), 1, &subs, machine.clone(), true) {
        DataResult::ERROR { errors } => assert_eq!(errors, vec!["initial machine state has no transitions"]),
        DataResult::OK { .. } => panic!("a machine without its initial state was taken"),
    }
    assert_eq!(
        findings(check_composed_projection(InterfacingProtocols(vec![warehouse(), factory()]), &subs, Role::new("F"), machine)),
        vec!["initial machine state has no transitions"]
    );
}

#[test]
fn projection_information_of_the_factory_role() {
    let protos = vec![warehouse(), factory()];
    let subs = data(exact_well_formed_sub(InterfacingProtocols(protos.clone()), &no_subscription()));
    let machine: MachineType = data(revised_projection(factory(), &subs, Role::new("F"), true));
    let info = data(projection_information(Role::new("F"), InterfacingProtocols(protos.clone()), 1, &subs, machine, true));
    let whole = data(project_combine(InterfacingProtocols(protos), &subs, Role::new("F"), true));
    let (left, li, _) = machine_check::machine::from_json(info.projection.clone());
    let (right, ri, _) = machine_check::machine::from_json(whole);
    assert!(equivalent(&left, li.unwrap(), &right, ri.unwrap()).is_empty());
    let special: Vec<String> = info.special_event_types.to_vec().iter().map(|e| e.to_string()).collect();
    assert_eq!(special, vec!["partID", "time"]);
    assert!(info.branches.len() > 0);
}

#[test]
fn graph_keeps_nodes_and_edges_as_they_were_added() {
    let mut g: Digraph<usize, usize> = Digraph::new();
    let a = g.add_node(10);
    let b = g.add_node(20);
    let c = g.add_node(30);
    let d = g.add_node(40);
    assert_eq!((a, b, c, d), (0, 1, 2, 3));
    let ab = g.add_edge(a, b, 1);
    let ac = g.add_edge(a, c, 2);
    let bc = g.add_edge(b, c, 3);
    let ca = g.add_edge(c, a, 4);
    assert_eq!((ab, ac, bc, ca), (0, 1, 2, 3));
    assert_eq!(g.node_count(), 4);
    assert_eq!(g.edge_count(), 4);
    assert_eq!(*g.node(c), 30);
    assert_eq!(*g.label(bc), 3);
    assert_eq!(g.endpoints(bc), (1, 2));
    assert_eq!(g.source(ca), 2);
    assert_eq!(g.target(ca), 0);
    assert_eq!(g.out_edges(a), vec![ac, ab]);
    assert_eq!(g.in_edges(c), vec![bc, ac]);
    assert_eq!(g.out_edges(d), Vec::<usize>::new());
    let copy = g.duplicate();
    assert_eq!(copy.endpoints(ac), (0, 2));
    assert_eq!(copy.out_edges(a), vec![ac, ab]);
}

#[test]
fn graph_walks_reach_what_can_be_reached() {
    let mut g: Digraph<usize, usize> = Digraph::new();
    for n in 0..5 {
        g.add_node(n);
    }
    g.add_edge(0, 1, 0);
    g.add_edge(1, 2, 1);
    g.add_edge(0, 3, 2);
    let mut forward = g.dfs(0);
    assert_eq!(forward[0], 0);
    forward.sort();
    assert_eq!(forward, vec![0, 1, 2, 3]);
    let post = g.dfs_post(0);
    assert_eq!(*post.last().unwrap(), 0);
    let at = |n: usize| post.iter().position(|x| *x == n).unwrap();
    assert!(at(2) < at(1));
    assert_eq!(post.len(), 4);
    let mut back = g.dfs_reversed(2);
    assert_eq!(back[0], 2);
    back.sort();
    assert_eq!(back, vec![0, 1, 2]);
    assert_eq!(g.dfs(4), vec![4]);
    let costs = g.unit_costs();
    let cost = |a: usize, b: usize| costs.iter().find(|c| c.0 == a && c.1 == b).map(|c| c.2);
    assert_eq!(cost(0, 0), Some(0));
    assert_eq!(cost(0, 1), Some(1));
    assert_eq!(cost(0, 2), Some(2));
    assert_eq!(cost(0, 3), Some(1));
    assert!(cost(2, 0).map_or(true, |c| c == i32::MAX));
    assert!(cost(0, 4).map_or(true, |c| c == i32::MAX));
}

#[test]
fn names_are_ordered_as_their_texts() {
    let mut roles: OrdSet<Role> = OrdSet::new();
    for text in ["T", "FL", "D", "F", "TR", "d", ""] {
        roles.insert(Role::new(text));
    }
    let texts: Vec<String> = roles.to_vec().iter().map(|r| r.to_string()).collect();
    assert_eq!(texts, vec!["", "D", "F", "FL", "T", "TR", "d"]);
    let copy = Role::new("FL").clone();
    assert_eq!(copy.as_str(), "FL");
    assert!(roles.contains(&copy));
    assert!(!roles.contains(&Role::new("fl")));
}

#[test]
fn state_names_are_joined_and_numbered() {
    assert_eq!(gen_state_name(&State::new("0"), &State::new("3")), State::new("0 || 3"));
    assert_eq!(gen_state_name(&State::new("0 || 1"), &State::new("")), State::new("0 || 1 || "));
    let subs = subscription(&[("FL", &["pos", "time"])]);
    let machine = data(revised_projection(warehouse(), &subs, Role::new("FL"), true));
    let names: BTreeSet<String> = machine.transitions.iter().flat_map(|t| [t.source.to_string(), t.target.to_string()]).collect();
    assert!(names.iter().all(|n| n.starts_with("{ ") && n.ends_with(" }")), "{:?}", names);
}

#[test]
fn error_value_is_written_against_its_graph() {
    let (graph, _, _) = from_json(warehouse());
    assert_eq!(Error::StateCanNotReachTerminal(2).to_string(&graph), "state 2 can not reach terminal node");
    assert_eq!(
        Error::RoleNotSubscribedToJoin(vec![EventType::new("a"), EventType::new("b")], 3, Role::new("D")).to_string(&graph),
        "role D does not subscribe to event types a, b leading to or in joining event in transition (0)--[close@D<time>]-->(3)"
    );
    assert_eq!(
        Error::RoleNotSubscribedToBranch(vec![EventType::new("time")], 1, 0, Role::new("FL")).to_string(&graph),
        "role FL does not subscribe to event types time in branching transitions at state 0, but is involved after transition (1)--[get@FL<pos>]-->(2)"
    );
    assert_eq!(
        Error::LoopingError(0, vec![Role::new("T"), Role::new("FL")]).to_string(&graph),
        "transition (0)--[request@T<partID>]-->(1) is part of loop that can not reach a terminal state, but no looping event type in the loop is subscribed to by roles T, FL involved in the loop"
    );
    assert_eq!(Error::MoreThanOneEventTypeInCommand(99).to_string(&graph), "transition [invalid EdgeId] emits more than one event type");
    assert_eq!(Error::SwarmErrorString("as it is".to_string()).to_string(&graph), "as it is");
}

#[test]
fn refinement_ends_with_the_sweep_that_keeps_the_number_of_blocks() {
    let p = protocol("0", vec![step("0", "1", "c1", "R", &["a"]), step("1", "2", "c2", "R", &["a"]), step("2", "0", "c3", "R", &["b"])]);
    let (g, i, _) = from_json(p);
    let subs = subscription(&[("Q", &["a", "b"])]);
    let (m, mi) = project(&g, i.unwrap(), &subs, Role::new("Q"), true);
    let mut out = vec![];
    for e in 0..m.edge_count() {
        out.push(format!("({})--[{}]-->({})", m.node(m.source(e)).to_string(), m.label(e).to_string(), m.node(m.target(e)).to_string()));
    }
    assert_eq!(out, vec!["({ { 0 }, { 1 } })--[a?]-->({ { 0 }, { 1 } })", "({ { 0 }, { 1 } })--[a?]-->({ { 2 } })", "({ { 2 } })--[b?]-->({ { 0 }, { 1 } })"]);
    assert_eq!(mi, 0);
}

#[test]
fn closure_of_followers_holds_each_chain() {
    let given = subscription(&[("a", &["b"]), ("b", &["a", "c"]), ("c", &["d"]), ("d", &[]), ("e", &["e"])]);
    let mut map: OrdMap<EventType, OrdSet<EventType>> = OrdMap::new();
    for i in 0..given.len() {
        let mut set: OrdSet<EventType> = OrdSet::new();
        for e in given.val_at(i).to_vec() {
            set.insert(e);
        }
        map.insert(EventType::new(&given.key_at(i).to_string()), set);
    }
    let closed = machine_check::composition::composition_swarm::transitive_closure_succeeding(map);
    let got: BTreeMap<String, BTreeSet<String>> = (0..closed.len()).map(|i| (closed.key_at(i).to_string(), closed.val_at(i).to_vec().iter().map(|e| e.to_string()).collect())).collect();
    assert_eq!(got, expected(&[("a", &["a", "b", "c", "d"]), ("b", &["a", "b", "c", "d"]), ("c", &["d"]), ("d", &[]), ("e", &["e"])]));
    let mut again: OrdMap<EventType, OrdSet<EventType>> = OrdMap::new();
    for i in 0..closed.len() {
        let mut set: OrdSet<EventType> = OrdSet::new();
        for e in closed.val_at(i).to_vec() {
            set.insert(e);
        }
        again.insert(EventType::new(&closed.key_at(i).to_string()), set);
    }
    let twice = machine_check::composition::composition_swarm::transitive_closure_succeeding(again);
    let got_twice: BTreeMap<String, BTreeSet<String>> = (0..twice.len()).map(|i| (twice.key_at(i).to_string(), twice.val_at(i).to_vec().iter().map(|e| e.to_string()).collect())).collect();
    assert_eq!(got_twice, got);
}

#[test]
fn small_protocols_get_a_subscription_that_passes_and_has_nothing_to_spare() {
    let mut seed: u64 = 0x2545F4914F6CDD1D;
    let mut next = move |m: u64| -> u64 {
        seed ^= seed << 13;
        seed ^= seed >> 7;
        seed ^= seed << 17;
        seed % m
    };
    let roles = ["A", "B", "C", "D"];
    let mut tried = 0;
    let mut rounds = 0;
    while tried < 300 && rounds < 20000 {
        rounds += 1;
        let n = 2 + next(4) as usize;
        let m = 1 + next(7) as usize;
        let mut ts = vec![];
        for k in 0..m {
            let a = next(n as u64) as usize;
            let b = next(n as u64) as usize;
            let r = roles[next(4) as usize];
            ts.push(step(&a.to_string(), &b.to_string(), &format!("c{}", k), r, &[&format!("e{}", k)]));
        }
        let proto = protocol("0", ts);
        let ex = match exact_well_formed_sub(InterfacingProtocols(vec![proto.clone()]), &no_subscription()) {
            DataResult::OK { data } => data,
            DataResult::ERROR { .. } => continue,
        };
        tried += 1;
        assert_eq!(findings(check_composed_swarm(InterfacingProtocols(vec![proto.clone()]), &ex)), Vec::<String>::new(), "{:?}", proto);
        let exact = plain(&ex);
        for (role, events) in &exact {
            for event in events {
                let mut less = exact.clone();
                less.get_mut(role).unwrap().remove(event);
                let errors = findings(check_composed_swarm(InterfacingProtocols(vec![proto.clone()]), &rebuilt(&less)));
                assert!(!errors.is_empty(), "{} can do without {} in {:?}", role, event, proto);
            }
        }
    }
    assert_eq!(tried, 300);
}

#[test]
fn refinement_of_a_composition_may_end_before_it_is_steady() {
    let a = protocol("0", vec![step("0", "1", "ci0", "I", &["i0"]), step("0", "1", "ci1", "I", &["i1"]), step("0", "1", "c00", "R0", &["e00"])]);
    let b = protocol("0", vec![step("0", "1", "ci0", "I", &["i0"]), step("1", "1", "ci1", "I", &["i1"]), step("1", "0", "c10", "R1", &["e10"]), step("0", "1", "c11", "R1", &["e11"])]);
    let info = swarms_to_proto_info(InterfacingProtocols(vec![a, b]));
    assert!(info.no_errors());
    let (graph, initial) = explicit_composition(&info);
    let subs = subscription(&[("Z", &["e11", "i1"])]);
    let (m, _) = project(&graph, initial, &subs, Role::new("Z"), true);
    let mut out = vec![];
    for e in 0..m.edge_count() {
        out.push(format!("({})--[{}]-->({})", m.node(m.source(e)).to_string(), m.label(e).to_string(), m.node(m.target(e)).to_string()));
    }
    assert_eq!(
        out,
        vec![
            "({ { 0 || 0 }, { 1 || 1 } })--[e11?]-->({ { 0 || 1, 1 || 1 } })",
            "({ { 0 || 1, 1 || 1 } })--[i1?]-->({ { 0 || 0 }, { 1 || 1 } })",
            "({ { 0 || 1, 1 || 1 } })--[e11?]-->({ { 0 || 1, 1 || 1 } })",
            "({ { 0 || 0 }, { 1 || 1 } })--[e11?]-->({ { 0 || 0 }, { 1 || 1 } })",
        ]
    );
    assert!(!deterministic(&m));
}
