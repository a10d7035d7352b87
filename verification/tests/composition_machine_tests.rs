use machine_check::composition::composition_machine::{equivalent, from_option_to_machine, gen_state_name, to_json_machine};
use machine_check::composition::composition_swarm::{compose_protocols, from_json, swarms_to_proto_info, ErrorReport};
use machine_check::composition::composition_types::{EventLabel, Granularity, InterfacingProtocols, MachineType, ProjectionInfo, ProtoInfo, SwarmGraph, SwarmProtocolType};
use machine_check::graph::Digraph;
use machine_check::machine::{from_option_graph_to_graph, to_option_machine, MachineGraph, OptionGraph};
use machine_check::names::{Command, EventType, Role, State};
use machine_check::order::Key;
use machine_check::ordmap::OrdMap;
use machine_check::ordset::OrdSet;
use machine_check::types::{MachineLabel, ProtocolType, SwarmLabel, Transition};
use std::collections::{BTreeMap, BTreeSet};

type Subscriptions = BTreeMap<Role, BTreeSet<EventType>>;
type NodeId = usize;

fn swarm(json: &str) -> SwarmProtocolType {
    let v: serde_json::Value = serde_json::from_str(json).unwrap();
    let transitions = v["transitions"]
        .as_array()
        .unwrap()
        .iter()
        .map(|t| Transition {
            label: SwarmLabel {
                cmd: Command::new(t["label"]["cmd"].as_str().unwrap()),
                log_type: t["label"]["logType"].as_array().unwrap().iter().map(|e| EventType::new(e.as_str().unwrap())).collect(),
                role: Role::new(t["label"]["role"].as_str().unwrap()),
            },
            source: State::new(t["source"].as_str().unwrap()),
            target: State::new(t["target"].as_str().unwrap()),
        })
        .collect();
    ProtocolType { initial: State::new(v["initial"].as_str().unwrap()), transitions }
}

fn machine(json: &str) -> MachineType {
    let v: serde_json::Value = serde_json::from_str(json).unwrap();
    let transitions = v["transitions"]
        .as_array()
        .unwrap()
        .iter()
        .map(|t| {
            let label = &t["label"];
            let label = if label["tag"].as_str().unwrap() == "Execute" {
                MachineLabel::Execute {
                    cmd: Command::new(label["cmd"].as_str().unwrap()),
                    log_type: label["logType"].as_array().unwrap().iter().map(|e| EventType::new(e.as_str().unwrap())).collect(),
                }
            } else {
                MachineLabel::Input { event_type: EventType::new(label["eventType"].as_str().unwrap()) }
            };
            Transition { label, source: State::new(t["source"].as_str().unwrap()), target: State::new(t["target"].as_str().unwrap()) }
        })
        .collect();
    ProtocolType { initial: State::new(v["initial"].as_str().unwrap()), transitions }
}

fn subscriptions(json: &str) -> Subscriptions {
    let v: serde_json::Value = serde_json::from_str(json).unwrap();
    v.as_object()
        .unwrap()
        .iter()
        .map(|(role, events)| (Role::new(role), events.as_array().unwrap().iter().map(|e| EventType::new(e.as_str().unwrap())).collect()))
        .collect()
}

fn oset<K: Key + Clone>(items: &BTreeSet<K>) -> OrdSet<K> {
    let mut set = OrdSet::new();
    for item in items {
        set.insert(item.clone());
    }
    set
}

fn osubs(subs: &Subscriptions) -> OrdMap<Role, OrdSet<EventType>> {
    let mut map = OrdMap::new();
    for (role, events) in subs {
        map.insert(role.clone(), oset(events));
    }
    map
}

fn pset<K: Key + Ord>(set: &OrdSet<K>) -> BTreeSet<K> {
    set.to_vec().into_iter().collect()
}

fn pmap<K: Key + Ord, V: Key + Ord>(map: &OrdMap<K, OrdSet<V>>) -> BTreeMap<K, BTreeSet<V>> {
    (0..map.len()).map(|i| (map.key_at(i).duplicate(), pset(map.val_at(i)))).collect()
}

fn plists<K: Key + Ord, V: Clone>(map: &OrdMap<K, Vec<V>>) -> BTreeMap<K, Vec<V>> {
    (0..map.len()).map(|i| (map.key_at(i).duplicate(), map.val_at(i).clone())).collect()
}

fn from_option_machine(graph: &OptionGraph) -> MachineGraph {
    from_option_graph_to_graph(graph)
}

fn exact_well_formed_sub(protos: InterfacingProtocols, subs: &Subscriptions) -> Result<Subscriptions, ErrorReport> {
    machine_check::composition::composition_swarm::exact_well_formed_sub(protos, &osubs(subs)).map(|s| pmap(&s))
}

fn overapprox_well_formed_sub(protos: InterfacingProtocols, subs: &Subscriptions, granularity: Granularity) -> Result<Subscriptions, ErrorReport> {
    machine_check::composition::composition_swarm::overapprox_well_formed_sub(protos, &osubs(subs), granularity).map(|s| pmap(&s))
}

fn project(swarm: &SwarmGraph, initial: NodeId, subs: &Subscriptions, role: Role, minimize: bool) -> (MachineGraph, NodeId) {
    machine_check::composition::composition_machine::project(swarm, initial, &osubs(subs), role, minimize)
}

fn project_combine(proto_info: &ProtoInfo, subs: &Subscriptions, role: Role, minimize: bool) -> (OptionGraph, Option<NodeId>) {
    machine_check::composition::composition_machine::project_combine(proto_info, &osubs(subs), role, minimize)
}

fn projection_information(proto_info: &ProtoInfo, subs: &Subscriptions, role: Role, machine: (OptionGraph, NodeId), k: usize, minimize: bool) -> Option<ProjectionInfo> {
    machine_check::composition::composition_machine::projection_information(proto_info, &osubs(subs), role, machine, k, minimize)
}

fn compose<N: Key, E: EventLabel>(m1: Digraph<N, E>, i1: NodeId, m2: Digraph<N, E>, i2: NodeId, interface: BTreeSet<EventType>, gen_node: fn(&N, &N) -> N) -> (Digraph<N, E>, NodeId) {
    machine_check::composition::composition_machine::compose(m1, i1, m2, i2, oset(&interface), gen_node)
}


    
fn get_proto1() -> SwarmProtocolType {
    swarm(
        r#"{
            "initial": "0",
            "transitions": [
                { "source": "0", "target": "1", "label": { "cmd": "request", "logType": ["partID"], "role": "T" } },
                { "source": "1", "target": "2", "label": { "cmd": "get", "logType": ["pos"], "role": "FL" } },
                { "source": "2", "target": "0", "label": { "cmd": "deliver", "logType": ["part"], "role": "T" } },
                { "source": "0", "target": "3", "label": { "cmd": "close", "logType": ["time"], "role": "D" } }
            ]
        }"#,
    )
}
fn get_proto2() -> SwarmProtocolType {
    swarm(
        r#"{
            "initial": "0",
            "transitions": [
                { "source": "0", "target": "1", "label": { "cmd": "request", "logType": ["partID"], "role": "T" } },
                { "source": "1", "target": "2", "label": { "cmd": "deliver", "logType": ["part"], "role": "T" } },
                { "source": "2", "target": "3", "label": { "cmd": "build", "logType": ["car"], "role": "F" } }
            ]
        }"#,
    )
}
fn get_proto3() -> SwarmProtocolType {
    swarm(
        r#"{
            "initial": "0",
            "transitions": [
                { "source": "0", "target": "1", "label": { "cmd": "build", "logType": ["car"], "role": "F" } },
                { "source": "1", "target": "2", "label": { "cmd": "test", "logType": ["report"], "role": "TR" } },
                { "source": "2", "target": "3", "label": { "cmd": "accept", "logType": ["ok"], "role": "QCR" } },
                { "source": "2", "target": "3", "label": { "cmd": "reject", "logType": ["notOk"], "role": "QCR" } }
            ]
        }"#,
    )
}
fn get_proto_4() -> SwarmProtocolType {
    swarm(
        r#"{
            "initial": "0",
            "transitions": [
                { "source": "0", "target": "1", "label": { "cmd": "observe", "logType": ["observing"], "role": "QCR" } },
                { "source": "1", "target": "2", "label": { "cmd": "build", "logType": ["car"], "role": "F" } },
                { "source": "2", "target": "3", "label": { "cmd": "test", "logType": ["report"], "role": "QCR" } }
            ]
        }"#,
    )
}

fn get_interfacing_swarms_1() -> InterfacingProtocols {
    InterfacingProtocols(vec![get_proto1(), get_proto2()])
}

fn get_interfacing_swarms_1_reversed() -> InterfacingProtocols {
    InterfacingProtocols(vec![get_proto2(), get_proto1()])
}

fn get_interfacing_swarms_2() -> InterfacingProtocols {
    InterfacingProtocols(vec![get_proto1(), get_proto2(), get_proto3()])
}

fn get_interfacing_swarms_2_reversed() -> InterfacingProtocols {
    InterfacingProtocols(vec![get_proto3(), get_proto2(), get_proto1()])
}

fn get_interfacing_swarms_3() -> InterfacingProtocols {
    InterfacingProtocols(vec![get_proto1(), get_proto2(), get_proto_4()])
}

fn get_interfacing_swarms_warehouse() -> InterfacingProtocols {
    InterfacingProtocols(vec![get_proto1()])
}

fn get_whf_transport() -> MachineType {
    machine(
        r#"{
            "initial": "0",
            "transitions": [
                {
                "label": {
                    "tag": "Execute",
                    "cmd": "request",
                    "logType": [
                    "partID"
                    ]
                },
                "source": "0",
                "target": "0"
                },
                {
                "label": {
                    "tag": "Input",
                    "eventType": "time"
                },
                "source": "0",
                "target": "5"
                },
                {
                "label": {
                    "tag": "Input",
                    "eventType": "partID"
                },
                "source": "0",
                "target": "1"
                },
                {
                "label": {
                    "tag": "Input",
                    "eventType": "pos"
                },
                "source": "1",
                "target": "2"
                },
                {
                "label": {
                    "tag": "Execute",
                    "cmd": "deliver",
                    "logType": [
                    "part"
                    ]
                },
                "source": "2",
                "target": "2"
                },
                {
                "label": {
                    "tag": "Input",
                    "eventType": "part"
                },
                "source": "2",
                "target": "3"
                },
                {
                "label": {
                    "tag": "Input",
                    "eventType": "time"
                },
                "source": "3",
                "target": "4"
                }
            ]
            }
        "#,
    )
}

fn get_whf_door() -> MachineType {
    machine(
        r#"{
            "initial": "0",
            "transitions": [
                {
                "label": {
                    "tag": "Execute",
                    "cmd": "close",
                    "logType": [
                    "time"
                    ]
                },
                "source": "0",
                "target": "0"
                },
                {
                "label": {
                    "tag": "Input",
                    "eventType": "time"
                },
                "source": "0",
                "target": "4"
                },
                {
                "label": {
                    "tag": "Input",
                    "eventType": "partID"
                },
                "source": "0",
                "target": "1"
                },
                {
                "label": {
                    "tag": "Input",
                    "eventType": "part"
                },
                "source": "1",
                "target": "2"
                },
                {
                "label": {
                    "tag": "Execute",
                    "cmd": "close",
                    "logType": [
                    "time"
                    ]
                },
                "source": "2",
                "target": "2"
                },
                {
                "label": {
                    "tag": "Input",
                    "eventType": "time"
                },
                "source": "2",
                "target": "3"
                }
            ]
            }
        "#,
    )
}

fn get_whf_forklift() -> MachineType {
    machine(
        r#"{
            "initial": "0",
            "transitions": [
                {
                "label": {
                    "tag": "Input",
                    "eventType": "time"
                },
                "source": "0",
                "target": "5"
                },
                {
                "label": {
                    "tag": "Input",
                    "eventType": "partID"
                },
                "source": "0",
                "target": "1"
                },
                {
                "label": {
                    "tag": "Execute",
                    "cmd": "get",
                    "logType": [
                    "pos"
                    ]
                },
                "source": "1",
                "target": "1"
                },
                {
                "label": {
                    "tag": "Input",
                    "eventType": "pos"
                },
                "source": "1",
                "target": "2"
                },
                {
                "label": {
                    "tag": "Input",
                    "eventType": "part"
                },
                "source": "2",
                "target": "3"
                },
                {
                "label": {
                    "tag": "Input",
                    "eventType": "time"
                },
                "source": "3",
                "target": "4"
                }
            ]
            }
        "#,
    )
}

fn get_whf_f() -> MachineType {
    machine(
        r#"{
            "initial": "0",
            "transitions": [
                {
                "label": {
                    "tag": "Input",
                    "eventType": "time"
                },
                "source": "0",
                "target": "6"
                },
                {
                "label": {
                    "tag": "Input",
                    "eventType": "partID"
                },
                "source": "0",
                "target": "1"
                },
                {
                "label": {
                    "tag": "Input",
                    "eventType": "part"
                },
                "source": "1",
                "target": "2"
                },
                {
                "label": {
                    "tag": "Execute",
                    "cmd": "build",
                    "logType": [
                    "car"
                    ]
                },
                "source": "2",
                "target": "2"
                },
                {
                "label": {
                    "tag": "Input",
                    "eventType": "time"
                },
                "source": "2",
                "target": "3"
                },
                {
                "label": {
                    "tag": "Input",
                    "eventType": "car"
                },
                "source": "2",
                "target": "4"
                },
                {
                "label": {
                    "tag": "Execute",
                    "cmd": "build",
                    "logType": [
                    "car"
                    ]
                },
                "source": "3",
                "target": "3"
                },
                {
                "label": {
                    "tag": "Input",
                    "eventType": "time"
                },
                "source": "4",
                "target": "5"
                },
                {
                "label": {
                    "tag": "Input",
                    "eventType": "car"
                },
                "source": "3",
                "target": "5"
                }
            ]
            }
        "#,
    )
}

        #[test]
    fn test_projection_1() {

        // From Combining Swarm Protocols, example 5.
        let proto = swarm(
            r#"{
                "initial": "0",
                "transitions": [
                    { "source": "0", "target": "1", "label": { "cmd": "request", "logType": ["tireID"], "role": "C" } },
                    { "source": "1", "target": "2", "label": { "cmd": "retrieve", "logType": ["position"], "role": "W" } },
                    { "source": "2", "target": "3", "label": { "cmd": "receive", "logType": ["tire"], "role": "C" } },
                    { "source": "3", "target": "4", "label": { "cmd": "build", "logType": ["car"], "role": "F" } }
                ]
            }"#,
        );
        // contains superfluous subscriptions, but to match example in article
        let subs = subscriptions(
            r#"{
            "C":["tireID","position","tire","car"],
            "W":["tireID","position","tire"],
            "F":["tireID","tire","car"]
        }"#,
        );

        let role = Role::new("F");
        let (g, i, _) = from_json(proto);
        let (proj, proj_initial) = project(&g, i.unwrap(), &subs, role, false);
        let expected_m = MachineType {
            initial: State::new("0"),
            transitions: vec![
                Transition {
                    label: MachineLabel::Input {
                        event_type: EventType::new("tireID"),
                    },
                    source: State::new("0"),
                    target: State::new("2"),
                },
                Transition {
                    label: MachineLabel::Input {
                        event_type: EventType::new("tire"),
                    },
                    source: State::new("2"),
                    target: State::new("3"),
                },
                Transition {
                    label: MachineLabel::Execute {
                        cmd: Command::new("build"),
                        log_type: vec![EventType::new("car")],
                    },
                    source: State::new("3"),
                    target: State::new("3"),
                },
                Transition {
                    label: MachineLabel::Input {
                        event_type: EventType::new("car"),
                    },
                    source: State::new("3"),
                    target: State::new("4"),
                },
            ],
        };
        let (expected, expected_initial, errors) = machine_check::machine::from_json(expected_m);
        assert!(errors.is_empty());
        assert!(expected_initial.is_some());
        // from equivalent(): "error messages are designed assuming that `left` is the reference and `right` the tested"
        assert!(equivalent(
            &expected,
            expected_initial.unwrap(),
            &to_option_machine(&proj),
            proj_initial
        )
        .is_empty());
    }

    #[test]
    fn test_projection_2() {

        // warehouse example from coplaws slides
        let proto = get_proto1();
        let result_subs =
            exact_well_formed_sub(InterfacingProtocols(vec![proto.clone()]), &BTreeMap::new());
        assert!(result_subs.is_ok());
        let subs = result_subs.unwrap();
        let role = Role::new("FL");
        let (g, i, _) = from_json(proto);
        let (left, left_initial) = project(&g, i.unwrap(), &subs, role.clone(), false);
        let right_m = MachineType {
            initial: State::new("0"),
            transitions: vec![
                Transition {
                    label: MachineLabel::Input {
                        event_type: EventType::new("partID"),
                    },
                    source: State::new("0"),
                    target: State::new("1"),
                },
                Transition {
                    label: MachineLabel::Execute {
                        cmd: Command::new("get"),
                        log_type: vec![EventType::new("pos")],
                    },
                    source: State::new("1"),
                    target: State::new("1"),
                },
                Transition {
                    label: MachineLabel::Input {
                        event_type: EventType::new("pos"),
                    },
                    source: State::new("1"),
                    target: State::new("2"),
                },
                Transition {
                    label: MachineLabel::Input {
                        event_type: EventType::new("partID"),
                    },
                    source: State::new("2"),
                    target: State::new("1"),
                },
                Transition {
                    label: MachineLabel::Input {
                        event_type: EventType::new("time"),
                    },
                    source: State::new("2"),
                    target: State::new("3"),
                },
                Transition {
                    label: MachineLabel::Input {
                        event_type: EventType::new("time"),
                    },
                    source: State::new("0"),
                    target: State::new("3"),
                },
            ],
        };
        let (right, right_initial, errors) = machine_check::machine::from_json(right_m);
        let right = from_option_machine(&right);
        let right = to_option_machine(&right);

        assert!(errors.is_empty());

        let errors = equivalent(
            &to_option_machine(&left),
            left_initial,
            &right,
            right_initial.unwrap(),
        );
        assert!(errors.is_empty());
    }

    #[test]
    fn test_projection_3() {

        // car factory from coplaws example
        let proto = get_proto2();
        let result_subs =
            exact_well_formed_sub(InterfacingProtocols(vec![proto.clone()]), &BTreeMap::new());
        assert!(result_subs.is_ok());
        let subs = result_subs.unwrap();
        let role = Role::new("F");
        let (g, i, _) = from_json(proto);
        let (proj, proj_initial) = project(&g, i.unwrap(), &subs, role, false);
        let expected_m = MachineType {
            initial: State::new("1"),
            transitions: vec![
                Transition {
                    label: MachineLabel::Input {
                        event_type: EventType::new("part"),
                    },
                    source: State::new("1"),
                    target: State::new("2"),
                },
                Transition {
                    label: MachineLabel::Execute {
                        cmd: Command::new("build"),
                        log_type: vec![EventType::new("car")],
                    },
                    source: State::new("2"),
                    target: State::new("2"),
                },
                Transition {
                    label: MachineLabel::Input {
                        event_type: EventType::new("car"),
                    },
                    source: State::new("2"),
                    target: State::new("3"),
                },
            ],
        };
        let (expected, expected_initial, errors) = machine_check::machine::from_json(expected_m);

        assert!(errors.is_empty());
        assert!(expected_initial.is_some());
        // from equivalent(): "error messages are designed assuming that `left` is the reference and `right` the tested"
        assert!(equivalent(
            &expected,
            expected_initial.unwrap(),
            &to_option_machine(&proj),
            proj_initial
        )
        .is_empty());
    }

    #[test]
    fn test_projection_4() {

        // car factory from coplaws example
        let protos = get_interfacing_swarms_1();
        let result_subs = overapprox_well_formed_sub(
            protos.clone(),
            &BTreeMap::from([(Role::new("T"), BTreeSet::from([EventType::new("car")]))]),
            Granularity::Coarse,
        );
        assert!(result_subs.is_ok());
        let subs = result_subs.unwrap();

        let role = Role::new("T");
        let (g, i) = compose_protocols(protos).unwrap();
        let (proj, proj_initial) = project(&g, i, &subs, role, false);
        let expected_m = MachineType {
            initial: State::new("0"),
            transitions: vec![
                Transition {
                    label: MachineLabel::Execute {
                        cmd: Command::new("request"),
                        log_type: vec![EventType::new("partID")],
                    },
                    source: State::new("0"),
                    target: State::new("0"),
                },
                Transition {
                    label: MachineLabel::Input {
                        event_type: EventType::new("partID"),
                    },
                    source: State::new("0"),
                    target: State::new("1"),
                },
                Transition {
                    label: MachineLabel::Input {
                        event_type: EventType::new("time"),
                    },
                    source: State::new("0"),
                    target: State::new("2"),
                },
                Transition {
                    label: MachineLabel::Input {
                        event_type: EventType::new("pos"),
                    },
                    source: State::new("1"),
                    target: State::new("3"),
                },
                Transition {
                    label: MachineLabel::Execute {
                        cmd: Command::new("deliver"),
                        log_type: vec![EventType::new("part")],
                    },
                    source: State::new("3"),
                    target: State::new("3"),
                },
                Transition {
                    label: MachineLabel::Input {
                        event_type: EventType::new("part"),
                    },
                    source: State::new("3"),
                    target: State::new("4"),
                },
                Transition {
                    label: MachineLabel::Input {
                        event_type: EventType::new("time"),
                    },
                    source: State::new("4"),
                    target: State::new("5"),
                },
                Transition {
                    label: MachineLabel::Input {
                        event_type: EventType::new("car"),
                    },
                    source: State::new("5"),
                    target: State::new("7"),
                },
                Transition {
                    label: MachineLabel::Input {
                        event_type: EventType::new("car"),
                    },
                    source: State::new("4"),
                    target: State::new("6"),
                },
                Transition {
                    label: MachineLabel::Input {
                        event_type: EventType::new("time"),
                    },
                    source: State::new("6"),
                    target: State::new("7"),
                },
            ],
        };
        let (expected, expected_initial, errors) = machine_check::machine::from_json(expected_m);

        assert!(errors.is_empty());
        assert!(expected_initial.is_some());
        // from equivalent(): "error messages are designed assuming that `left` is the reference and `right` the tested"
        assert!(equivalent(
            &expected,
            expected_initial.unwrap(),
            &to_option_machine(&proj),
            proj_initial
        )
        .is_empty());
    }

    #[test]
    fn test_projection_fail_1() {

        // warehouse example from coplaws slides
        let proto = get_proto1();
        let result_subs =
            exact_well_formed_sub(InterfacingProtocols(vec![proto.clone()]), &BTreeMap::new());
        assert!(result_subs.is_ok());
        let subs = result_subs.unwrap();
        let role = Role::new("FL");
        let (g, i, _) = from_json(proto);
        let (left, left_initial) = project(&g, i.unwrap(), &subs, role.clone(), false);
        let right_m = MachineType {
            initial: State::new("0"),
            transitions: vec![
                Transition {
                    label: MachineLabel::Input {
                        event_type: EventType::new("partID"),
                    },
                    source: State::new("0"),
                    target: State::new("1"),
                },
                Transition {
                    label: MachineLabel::Execute {
                        cmd: Command::new("get"),
                        log_type: vec![EventType::new("pos")],
                    },
                    source: State::new("1"),
                    target: State::new("1"),
                },
                Transition {
                    label: MachineLabel::Input {
                        event_type: EventType::new("pos"),
                    },
                    source: State::new("1"),
                    target: State::new("2"),
                },
                Transition {
                    label: MachineLabel::Input {
                        event_type: EventType::new("time"),
                    },
                    source: State::new("1"),
                    target: State::new("3"),
                },
                Transition {
                    label: MachineLabel::Input {
                        event_type: EventType::new("time"),
                    },
                    source: State::new("2"),
                    target: State::new("3"),
                },
                Transition {
                    label: MachineLabel::Input {
                        event_type: EventType::new("time"),
                    },
                    source: State::new("0"),
                    target: State::new("3"),
                },
            ],
        };
        let (right, right_initial, errors) = machine_check::machine::from_json(right_m);
        let right = from_option_machine(&right);
        let right = to_option_machine(&right);

        assert!(errors.is_empty());

        let errors = equivalent(
            &to_option_machine(&left),
            left_initial,
            &right,
            right_initial.unwrap(),
        );
        assert!(!errors.is_empty());
    }
    #[test]
    fn test_projection_fail_2() {

        // warehouse example from coplaws slides
        let proto = get_proto1();
        let result_subs =
            exact_well_formed_sub(InterfacingProtocols(vec![proto.clone()]), &BTreeMap::new());
        assert!(result_subs.is_ok());
        let subs = result_subs.unwrap();
        let role = Role::new("FL");
        let (g, i, _) = from_json(proto);
        let (left, left_initial) = project(&g, i.unwrap(), &subs, role.clone(), false);
        let right_m = MachineType {
            initial: State::new("0"),
            transitions: vec![
                Transition {
                    label: MachineLabel::Input {
                        event_type: EventType::new("partID"),
                    },
                    source: State::new("0"),
                    target: State::new("1"),
                },
                Transition {
                    label: MachineLabel::Execute {
                        cmd: Command::new("get"),
                        log_type: vec![EventType::new("pos")],
                    },
                    source: State::new("1"),
                    target: State::new("1"),
                },
                Transition {
                    label: MachineLabel::Input {
                        event_type: EventType::new("pos"),
                    },
                    source: State::new("1"),
                    target: State::new("2"),
                },
                Transition {
                    label: MachineLabel::Input {
                        event_type: EventType::new("partID"),
                    },
                    source: State::new("2"),
                    target: State::new("2"),
                },
                Transition {
                    label: MachineLabel::Input {
                        event_type: EventType::new("time"),
                    },
                    source: State::new("2"),
                    target: State::new("3"),
                },
                Transition {
                    label: MachineLabel::Input {
                        event_type: EventType::new("time"),
                    },
                    source: State::new("0"),
                    target: State::new("3"),
                },
            ],
        };
        let (right, right_initial, errors) = machine_check::machine::from_json(right_m);
        let right = from_option_machine(&right);
        let right = to_option_machine(&right);

        assert!(errors.is_empty());

        let errors = equivalent(
            &to_option_machine(&left),
            left_initial,
            &right,
            right_initial.unwrap(),
        );
        assert!(!errors.is_empty());
    }
    #[test]
    fn test_projection_fail_3() {

        // warehouse example from coplaws slides
        let proto = get_proto1();
        let result_subs =
            exact_well_formed_sub(InterfacingProtocols(vec![proto.clone()]), &BTreeMap::new());
        assert!(result_subs.is_ok());
        let subs = result_subs.unwrap();
        let role = Role::new("FL");
        let (g, i, _) = from_json(proto);
        let (left, left_initial) = project(&g, i.unwrap(), &subs, role.clone(), false);
        let right_m = MachineType {
            initial: State::new("0"),
            transitions: vec![
                Transition {
                    label: MachineLabel::Input {
                        event_type: EventType::new("partID"),
                    },
                    source: State::new("0"),
                    target: State::new("1"),
                },
                Transition {
                    label: MachineLabel::Execute {
                        cmd: Command::new("get"),
                        log_type: vec![EventType::new("pos")],
                    },
                    source: State::new("1"),
                    target: State::new("1"),
                },
                Transition {
                    label: MachineLabel::Input {
                        event_type: EventType::new("pos"),
                    },
                    source: State::new("1"),
                    target: State::new("2"),
                },
                Transition {
                    label: MachineLabel::Execute {
                        cmd: Command::new("get"),
                        log_type: vec![EventType::new("pos")],
                    },
                    source: State::new("2"),
                    target: State::new("2"),
                },
                Transition {
                    label: MachineLabel::Input {
                        event_type: EventType::new("time"),
                    },
                    source: State::new("2"),
                    target: State::new("3"),
                },
                Transition {
                    label: MachineLabel::Input {
                        event_type: EventType::new("time"),
                    },
                    source: State::new("0"),
                    target: State::new("3"),
                },
            ],
        };
        let (right, right_initial, errors) = machine_check::machine::from_json(right_m);
        let right = from_option_machine(&right);
        let right = to_option_machine(&right);

        assert!(errors.is_empty());

        let errors = equivalent(
            &to_option_machine(&left),
            left_initial,
            &right,
            right_initial.unwrap(),
        );
        assert!(!errors.is_empty());
    }
    #[test]
    fn test_projection_fail_4() {

        // warehouse example from coplaws slides
        let proto = get_proto1();
        let result_subs =
            exact_well_formed_sub(InterfacingProtocols(vec![proto.clone()]), &BTreeMap::new());
        assert!(result_subs.is_ok());
        let subs = result_subs.unwrap();
        let role = Role::new("FL");
        let (g, i, _) = from_json(proto);
        let (left, left_initial) = project(&g, i.unwrap(), &subs, role.clone(), false);
        let right_m = MachineType {
            initial: State::new("0"),
            transitions: vec![
                Transition {
                    label: MachineLabel::Input {
                        event_type: EventType::new("partID"),
                    },
                    source: State::new("0"),
                    target: State::new("1"),
                },
                Transition {
                    label: MachineLabel::Execute {
                        cmd: Command::new("get"),
                        log_type: vec![EventType::new("pos")],
                    },
                    source: State::new("1"),
                    target: State::new("1"),
                },
                Transition {
                    label: MachineLabel::Input {
                        event_type: EventType::new("pos"),
                    },
                    source: State::new("1"),
                    target: State::new("2"),
                },
                Transition {
                    label: MachineLabel::Input {
                        event_type: EventType::new("time"),
                    },
                    source: State::new("2"),
                    target: State::new("3"),
                },
                Transition {
                    label: MachineLabel::Input {
                        event_type: EventType::new("time"),
                    },
                    source: State::new("0"),
                    target: State::new("3"),
                },
            ],
        };
        let (right, right_initial, errors) = machine_check::machine::from_json(right_m);
        let right = from_option_machine(&right);
        let right = to_option_machine(&right);

        assert!(errors.is_empty());

        let errors = equivalent(
            &to_option_machine(&left),
            left_initial,
            &right,
            right_initial.unwrap(),
        );
        assert!(!errors.is_empty());
    }

    #[test]
    fn test_combine_machines_1() {

        // Example from coplaws slides. Use generated WWF subscriptions. Project over T.
        let role = Role::new("T");
        let subs1 = overapprox_well_formed_sub(
            get_interfacing_swarms_1(),
            &BTreeMap::new(),
            Granularity::Coarse,
        );
        assert!(subs1.is_ok());
        let subs1 = subs1.unwrap();
        let proto_info = swarms_to_proto_info(get_interfacing_swarms_1());
        assert!(proto_info.no_errors());

        let (proj_combined1, proj_combined_initial1) =
            project_combine(&proto_info, &subs1, role.clone(), false);

        let subs2 = overapprox_well_formed_sub(
            get_interfacing_swarms_1_reversed(),
            &BTreeMap::new(),
            Granularity::Coarse,
        );
        assert!(subs2.is_ok());
        let subs2 = subs2.unwrap();
        let proto_info = swarms_to_proto_info(get_interfacing_swarms_1_reversed());
        assert!(proto_info.no_errors());

        let (proj_combined2, proj_combined_initial2) =
            project_combine(&proto_info, &subs2, role.clone(), false);

        // compose(a, b) should be equal to compose(b, a)
        assert_eq!(subs1, subs2);
        assert!(equivalent(
            &proj_combined1,
            proj_combined_initial1.unwrap(),
            &proj_combined2,
            proj_combined_initial2.unwrap()
        )
        .is_empty());

        let composition = compose_protocols(get_interfacing_swarms_1());
        assert!(composition.is_ok());
        let (composed_graph, composed_initial) = composition.unwrap();
        let (proj, proj_initial) = project(
            &composed_graph,
            composed_initial,
            &subs1,
            role.clone(),
            true,
        );

        assert!(equivalent(
            &proj_combined2,
            proj_combined_initial2.unwrap(),
            &to_option_machine(&proj),
            proj_initial
        )
        .is_empty());
    }

    #[test]
    fn test_combine_machines_2() {

        // fails when you use the exact subscriptions because that way not all roles subscribe to ALL interfaces? Ordering gets messed up.
        // the projected over the explicit composition may be correct, but the combined projections look weird and out of order.
        let composition = compose_protocols(get_interfacing_swarms_2());
        assert!(composition.is_ok());
        let (composed_graph, composed_initial) = composition.unwrap();
        let subs = overapprox_well_formed_sub(
            get_interfacing_swarms_2(),
            &BTreeMap::new(),
            Granularity::Coarse,
        );
        assert!(subs.is_ok());
        let subs = subs.unwrap();
        let all_roles = vec![
            Role::new("T"),
            Role::new("FL"),
            Role::new("D"),
            Role::new("F"),
            Role::new("TR"),
            Role::new("QCR"),
        ];

        for role in all_roles {
            let subs1 = overapprox_well_formed_sub(
                get_interfacing_swarms_2(),
                &BTreeMap::new(),
                Granularity::Coarse,
            );
            assert!(subs1.is_ok());
            let subs1 = subs1.unwrap();
            let proto_info = swarms_to_proto_info(get_interfacing_swarms_2());
            assert!(proto_info.no_errors());

            let (proj_combined1, proj_combined_initial1) =
                project_combine(&proto_info, &subs1, role.clone(), false);

            let subs2 = overapprox_well_formed_sub(
                get_interfacing_swarms_2_reversed(),
                &BTreeMap::new(),
                Granularity::Coarse,
            );
            assert!(subs2.is_ok());
            let subs2 = subs2.unwrap();
            let proto_info = swarms_to_proto_info(get_interfacing_swarms_2_reversed());
            assert!(proto_info.no_errors());

            let (proj_combined2, proj_combined_initial2) =
                project_combine(&proto_info, &subs2, role.clone(), false);

            // compose(a, b) should be equal to compose(b, a)
            assert_eq!(subs1, subs2);
            assert!(equivalent(
                &proj_combined1,
                proj_combined_initial1.unwrap(),
                &proj_combined2,
                proj_combined_initial2.unwrap()
            )
            .is_empty());
            assert_eq!(subs2, subs);

            let (proj, proj_initial) =
                project(&composed_graph, composed_initial, &subs, role.clone(), true);
            let errors = equivalent(
                &proj_combined2,
                proj_combined_initial2.unwrap(),
                &to_option_machine(&proj),
                proj_initial,
            );

            assert!(errors.is_empty());
        }
    }

    #[test]
    fn test_all_projs_whf() {

        let composition = compose_protocols(get_interfacing_swarms_1());
        assert!(composition.is_ok());
        let (composed_graph, composed_initial) = composition.unwrap();
        let subs = overapprox_well_formed_sub(
            get_interfacing_swarms_1(),
            &BTreeMap::new(),
            Granularity::TwoStep
        );
        assert!(subs.is_ok());
        let subs = subs.unwrap();

        let all_roles = vec![
            Role::new("T"),
            Role::new("FL"),
            Role::new("D"),
            Role::new("F"),
        ];

        let expected_projs = BTreeMap::from([
            (Role::new("T"), get_whf_transport()),
            (Role::new("FL"), get_whf_forklift()),
            (Role::new("D"), get_whf_door()),
            (Role::new("F"), get_whf_f()),
        ]);

        for role in all_roles {
            let (expand_proj, expand_proj_initial) = project(
                &composed_graph,
                composed_initial,
                &subs,
                role.clone(),
                true,
            );
            let (combined_proj, combined_proj_initial) =
                project_combine(&swarms_to_proto_info(get_interfacing_swarms_1()), &subs, role.clone(), true);

            assert!(equivalent(
                &to_option_machine(&expand_proj),
                expand_proj_initial,
                &combined_proj,
                combined_proj_initial.unwrap())
                .is_empty()
            );

            let (expected, expected_initial, _) = machine_check::machine::from_json(expected_projs.get(&role).unwrap().clone());

            assert!(equivalent(
                &expected,
                expected_initial.unwrap(),
                &combined_proj,
                combined_proj_initial.unwrap())
                .is_empty());
        }
    }

    #[test]
    fn test_compose_zero() {
        let left = MachineType {
            initial: State::new("left_0"),
            transitions: vec![
                Transition {
                    label: MachineLabel::Input {
                        event_type: EventType::new("a"),
                    },
                    source: State::new("left_0"),
                    target: State::new("left_1"),
                },
                Transition {
                    label: MachineLabel::Execute {
                        cmd: Command::new("cmd_a"),
                        log_type: vec![EventType::new("a")],
                    },
                    source: State::new("left_0"),
                    target: State::new("left_0"),
                },
                Transition {
                    label: MachineLabel::Input {
                        event_type: EventType::new("b"),
                    },
                    source: State::new("left_1"),
                    target: State::new("left_2"),
                },
                Transition {
                    label: MachineLabel::Execute {
                        cmd: Command::new("cmd_b"),
                        log_type: vec![EventType::new("b")],
                    },
                    source: State::new("left_1"),
                    target: State::new("left_1"),
                },
            ],
        };
        let right = MachineType {
            initial: State::new("right_0"),
            transitions: vec![
                Transition {
                    label: MachineLabel::Input {
                        event_type: EventType::new("b"),
                    },
                    source: State::new("right_0"),
                    target: State::new("right_1"),
                },
                Transition {
                    label: MachineLabel::Execute {
                        cmd: Command::new("cmd_b"),
                        log_type: vec![EventType::new("b")],
                    },
                    source: State::new("right_0"),
                    target: State::new("right_0"),
                },
                Transition {
                    label: MachineLabel::Input {
                        event_type: EventType::new("a"),
                    },
                    source: State::new("right_1"),
                    target: State::new("right_2"),
                },
                Transition {
                    label: MachineLabel::Execute {
                        cmd: Command::new("cmd_a"),
                        log_type: vec![EventType::new("a")],
                    },
                    source: State::new("right_1"),
                    target: State::new("right_1"),
                },
            ],
        };
        let (left, left_initial, _) = machine_check::machine::from_json(left);
        let left = from_option_graph_to_graph(&left);
        let (right, right_initial, _) = machine_check::machine::from_json(right);
        let right = from_option_graph_to_graph(&right);
        let interface = BTreeSet::from([EventType::new("a"), EventType::new("b")]);
        let (combined, combined_initial) = compose(
            right,
            right_initial.unwrap(),
            left,
            left_initial.unwrap(),
            interface,
            gen_state_name,
        );
        let combined = to_json_machine(combined, combined_initial);

        let expected = MachineType {
            initial: State::new("right_0 || left_0"),
            transitions: vec![],
        };

        assert_eq!(combined, expected);
    }


#[test]
fn test_example_from_text_machine() {

    let role = Role::new("F");
    let subs = overapprox_well_formed_sub(
        get_interfacing_swarms_3(),
        &BTreeMap::new(),
        Granularity::Medium,
    );
    assert!(subs.is_ok());
    let subs = subs.unwrap();
    let proto_info = swarms_to_proto_info(get_interfacing_swarms_3());
    assert!(proto_info.no_errors());
    let (proj, proj_initial) = project_combine(&proto_info, &subs, role.clone(), false);
    println!(
        "projection of {}: {}",
        role.to_string(),
        format!("{:?}", from_option_to_machine(proj, proj_initial.unwrap()))
    );
}













#[test]
fn test_projection_information_1() {

    let fl_m = MachineType {
        initial: State::new("0"),
        transitions: vec![
            Transition {
                label: MachineLabel::Input {
                    event_type: EventType::new("partID"),
                },
                source: State::new("0"),
                target: State::new("1"),
            },
            Transition {
                label: MachineLabel::Execute {
                    cmd: Command::new("get"),
                    log_type: vec![EventType::new("pos")],
                },
                source: State::new("1"),
                target: State::new("1"),
            },
            Transition {
                label: MachineLabel::Input {
                    event_type: EventType::new("pos"),
                },
                source: State::new("1"),
                target: State::new("2"),
            },
            Transition {
                label: MachineLabel::Input {
                    event_type: EventType::new("partID"),
                },
                source: State::new("2"),
                target: State::new("1"),
            },
            Transition {
                label: MachineLabel::Input {
                    event_type: EventType::new("time"),
                },
                source: State::new("2"),
                target: State::new("3"),
            },
            Transition {
                label: MachineLabel::Input {
                    event_type: EventType::new("time"),
                },
                source: State::new("0"),
                target: State::new("3"),
            },
        ],
    };

    let expected_proj = MachineType {
        initial: State::new("0 || { { 0 } } || { { 0 } }"),
        transitions: vec![
            Transition {
                label: MachineLabel::Input {
                    event_type: EventType::new("time"),
                },
                source: State::new("0 || { { 0 } } || { { 0 } }"),
                target: State::new("3 || { { 3 } } || { { 0 } }"),
            },
            Transition {
                label: MachineLabel::Input {
                    event_type: EventType::new("partID"),
                },
                source: State::new("0 || { { 0 } } || { { 0 } }"),
                target: State::new("1 || { { 1 } } || { { 1 } }"),
            },
            Transition {
                label: MachineLabel::Input {
                    event_type: EventType::new("pos"),
                },
                source: State::new("1 || { { 1 } } || { { 1 } }"),
                target: State::new("2 || { { 2 } } || { { 1 } }"),
            },
            Transition {
                label: MachineLabel::Execute {
                    cmd: Command::new("get"),
                    log_type: vec![EventType::new("pos")],
                },
                source: State::new("1 || { { 1 } } || { { 1 } }"),
                target: State::new("1 || { { 1 } } || { { 1 } }"),
            },
            Transition {
                label: MachineLabel::Input {
                    event_type: EventType::new("part"),
                },
                source: State::new("2 || { { 2 } } || { { 1 } }"),
                target: State::new("2 || { { 0 } } || { { 2 } }"),
            },
            Transition {
                label: MachineLabel::Input {
                    event_type: EventType::new("time"),
                },
                source: State::new("2 || { { 0 } } || { { 2 } }"),
                target: State::new("3 || { { 3 } } || { { 2 } }"),
            },
        ],
    };

    let (fl_m_graph, fl_m_graph_initial, _) = machine_check::machine::from_json(fl_m);
    let role = Role::new("FL");
    let swarms = get_interfacing_swarms_1();
    let subs1 = overapprox_well_formed_sub(
        swarms.clone(),
        &BTreeMap::new(),
        Granularity::TwoStep,
    );
    assert!(subs1.is_ok());
    let subs1 = subs1.unwrap();
    let proto_info = swarms_to_proto_info(swarms.clone());

    let projection_info = projection_information(
        &proto_info,
        &subs1,
        role,
        (fl_m_graph.duplicate(), fl_m_graph_initial.unwrap()),
        0,
        true,
    );
    let projection_info = match projection_info {
        None => panic!(),
        Some(projection_info) => {
            projection_info
        }
    };
    let (actual_graph, actual_initial, _) = machine_check::machine::from_json(projection_info.projection);
    let (expected_graph, expected_initial, _) = machine_check::machine::from_json(expected_proj);
    let expected_proj_to_machine_states = BTreeMap::from([
        (
            State::new("(0 || { { 0 } }) || { { 0 } }"),
            vec![State::new("0")],
        ),
        (
            State::new("(1 || { { 1 } }) || { { 1 } }"),
            vec![State::new("1")],
        ),
        (
            State::new("(2 || { { 0 } }) || { { 2 } }"),
            vec![State::new("2")],
        ),
        (
            State::new("(2 || { { 2 } }) || { { 1 } }"),
            vec![State::new("2")],
        ),
        (
            State::new("(3 || { { 3 } }) || { { 0 } }"),
            vec![State::new("3")],
        ),
        (
            State::new("(3 || { { 3 } }) || { { 2 } }"),
            vec![State::new("3")],
        ),
    ]);
    let expected_branches = BTreeMap::from([
        (EventType::new("part"), vec![EventType::new("time")]),
        (
            EventType::new("partID"),
            vec![
                EventType::new("part"),
                EventType::new("pos"),
                EventType::new("time"),
            ],
        ),
        (
            EventType::new("pos"),
            vec![EventType::new("part"), EventType::new("time")],
        ),
        (EventType::new("time"), vec![]),
    ]);
    let expected_special_event_types =
        BTreeSet::from([EventType::new("partID"), EventType::new("time")]);
    let errors = equivalent(
        &expected_graph,
        expected_initial.unwrap(),
        &actual_graph,
        actual_initial.unwrap(),
    );
    let is_empty = errors.is_empty();
    assert!(is_empty);
    assert_eq!(
        expected_proj_to_machine_states,
        plists(&projection_info.proj_to_machine_states)
    );
    assert_eq!(expected_branches, plists(&projection_info.branches));
    assert_eq!(
        expected_special_event_types,
        pset(&projection_info.special_event_types)
    );
}
#[test]
fn test_projection_information_2() {

    let fl_m = MachineType {
        initial: State::new("0"),
        transitions: vec![
            Transition {
                label: MachineLabel::Input {
                    event_type: EventType::new("partID"),
                },
                source: State::new("0"),
                target: State::new("1"),
            },
            Transition {
                label: MachineLabel::Execute {
                    cmd: Command::new("get"),
                    log_type: vec![EventType::new("pos")],
                },
                source: State::new("1"),
                target: State::new("1"),
            },
            Transition {
                label: MachineLabel::Input {
                    event_type: EventType::new("pos"),
                },
                source: State::new("1"),
                target: State::new("0"),
            },
            Transition {
                label: MachineLabel::Input {
                    event_type: EventType::new("time"),
                },
                source: State::new("0"),
                target: State::new("3"),
            },
        ],
    };

    let expected_proj = MachineType {
        initial: State::new("0 || { { 0 } }"),
        transitions: vec![
            Transition {
                label: MachineLabel::Input {
                    event_type: EventType::new("time"),
                },
                source: State::new("0 || { { 0 } }"),
                target: State::new("3 || { { 3 } }"),
            },
            Transition {
                label: MachineLabel::Input {
                    event_type: EventType::new("partID"),
                },
                source: State::new("0 || { { 0 } }"),
                target: State::new("1 || { { 1 } }"),
            },
            Transition {
                label: MachineLabel::Input {
                    event_type: EventType::new("pos"),
                },
                source: State::new("1 || { { 1 } }"),
                target: State::new("0 || { { 2 } }"),
            },
            Transition {
                label: MachineLabel::Execute {
                    cmd: Command::new("get"),
                    log_type: vec![EventType::new("pos")],
                },
                source: State::new("1 || { { 1 } }"),
                target: State::new("1 || { { 1 } }"),
            },
            Transition {
                label: MachineLabel::Input {
                    event_type: EventType::new("part"),
                },
                source: State::new("0 || { { 2 } }"),
                target: State::new("0 || { { 0 } }"),
            },
        ],
    };

    let (fl_m_graph, fl_m_graph_initial, _) = machine_check::machine::from_json(fl_m.clone());
    let role = Role::new("FL");
    let swarms: InterfacingProtocols = InterfacingProtocols(vec![get_proto1()]);
    let swarms_for_sub = get_interfacing_swarms_1();
    let larger_than_necessary_sub =
        overapprox_well_formed_sub(
            swarms_for_sub,
            &BTreeMap::new(),
            Granularity::TwoStep,
        );
    assert!(larger_than_necessary_sub.is_ok());
    let subs1 = larger_than_necessary_sub.unwrap();
    let proto_info = swarms_to_proto_info(swarms.clone());

    let projection_info = projection_information(
        &proto_info,
        &subs1,
        role,
        (fl_m_graph.duplicate(), fl_m_graph_initial.unwrap()),
        0,
        true,
    );
    let projection_info = match projection_info {
        None => panic!(),
        Some(projection_info) => {
            /* println!("proj: {}", format!("{:?}", projection_info.projection));
            println!("fl_m: {}", format!("{:?}", fl_m));
            println!("map: {}", format!("{:?}", plists(&projection_info.proj_to_machine_states)));
            println!("branches: {}", format!("{:?}", plists(&projection_info.branches)));
            println!("special event types: {}", format!("{:?}", pset(&projection_info.special_event_types))); */
            projection_info
        }
    };
    let (actual_graph, actual_initial, _) = machine_check::machine::from_json(projection_info.projection);
    let (expected_graph, expected_initial, _) = machine_check::machine::from_json(expected_proj);
    let expected_proj_to_machine_states = BTreeMap::from([
        (State::new("(0 || { { 0 } })"), vec![State::new("0")]),
        (State::new("(0 || { { 2 } })"), vec![State::new("0")]),
        (State::new("(1 || { { 1 } })"), vec![State::new("1")]),
        (State::new("(3 || { { 3 } })"), vec![State::new("3")]),
    ]);
    let expected_branches = BTreeMap::from([
        (
            EventType::new("part"),
            vec![EventType::new("partID"), EventType::new("time")],
        ),
        (
            EventType::new("partID"),
            vec![
                EventType::new("part"),
                EventType::new("partID"),
                EventType::new("pos"),
                EventType::new("time"),
            ],
        ),
        (
            EventType::new("pos"),
            vec![
                EventType::new("part"),
                EventType::new("partID"),
                EventType::new("time"),
            ],
        ),
        (EventType::new("time"), vec![]),
    ]);
    let expected_special_event_types =
        BTreeSet::from([EventType::new("partID"), EventType::new("time")]);
    let errors = equivalent(
        &expected_graph,
        expected_initial.unwrap(),
        &actual_graph,
        actual_initial.unwrap(),
    );
    let is_empty = errors.is_empty();
    assert!(is_empty);
    assert_eq!(
        expected_proj_to_machine_states,
        plists(&projection_info.proj_to_machine_states)
    );
    assert_eq!(expected_branches, plists(&projection_info.branches));
    assert_eq!(
        expected_special_event_types,
        pset(&projection_info.special_event_types)
    );
}

    fn get_steel_press_proto() -> SwarmProtocolType {
        swarm(
            r#"{
                "initial": "0",
                "transitions": [
                    {
                    "source": "0",
                    "target": "1",
                    "label": {
                        "cmd": "pickUpSteelRoll",
                        "role": "SteelTransport",
                        "logType": [
                        "SteelRoll"
                        ]
                    }
                    },
                    {
                    "source": "1",
                    "target": "2",
                    "label": {
                        "cmd": "pressSteel",
                        "role": "Stamp",
                        "logType": [
                        "SteelParts"
                        ]
                    }
                    },
                    {
                    "source": "2",
                    "target": "0",
                    "label": {
                        "cmd": "assembleBody",
                        "role": "BodyAssembler",
                        "logType": [
                        "PartialCarBody"
                        ]
                    }
                    },
                    {
                    "source": "0",
                    "target": "3",
                    "label": {
                        "cmd": "carBodyDone",
                        "role": "CarBodyChecker",
                        "logType": [
                        "CarBody"
                        ]
                    }
                    }
                ]
            }"#,
        )
    }

    fn get_paint_proto() -> SwarmProtocolType {
        swarm(
            r#"{
                "initial": "0",
                "transitions": [
                    {
                    "source": "0",
                    "target": "1",
                    "label": {
                        "cmd": "carBodyDone",
                        "role": "CarBodyChecker",
                        "logType": [
                        "CarBody"
                        ]
                    }
                    },
                    {
                    "source": "1",
                    "target": "2",
                    "label": {
                        "cmd": "applyPaint",
                        "role": "Painter",
                        "logType": [
                        "PaintedCarBody"
                        ]
                    }
                    }
                ]
                }"#,
        )
    }
    fn get_engine_installation_proto() -> SwarmProtocolType {
        swarm(
            r#"{
                "initial": "0",
                "transitions": [
                    {
                    "source": "0",
                    "target": "1",
                    "label": {
                        "cmd": "applyPaint",
                        "role": "Painter",
                        "logType": [
                        "PaintedCarBody"
                        ]
                    }
                    },
                    {
                    "source": "1",
                    "target": "2",
                    "label": {
                        "cmd": "requestEngine",
                        "role": "EngineInstaller",
                        "logType": [
                        "RequestEngine"
                        ]
                    }
                    },
                    {
                    "source": "2",
                    "target": "3",
                    "label": {
                        "cmd": "request",
                        "role": "Warehouse",
                        "logType": [
                        "ItemRequest"
                        ]
                    }
                    },
                    {
                    "source": "3",
                    "target": "4",
                    "label": {
                        "cmd": "deliver",
                        "role": "Warehouse",
                        "logType": [
                        "ItemDeliver"
                        ]
                    }
                    },
                    {
                    "source": "4",
                    "target": "5",
                    "label": {
                        "cmd": "installEngine",
                        "role": "EngineInstaller",
                        "logType": [
                        "EngineInstalled"
                        ]
                    }
                    }
                ]
                }"#,
        )
    }
    fn get_warehouse_proto() -> SwarmProtocolType {
        swarm(
            r#"{
                "initial": "0",
                "transitions": [
                    {
                    "source": "0",
                    "target": "1",
                    "label": {
                        "cmd": "request",
                        "role": "Warehouse",
                        "logType": [
                        "ItemRequest"
                        ]
                    }
                    },
                    {
                    "source": "1",
                    "target": "1",
                    "label": {
                        "cmd": "bid",
                        "role": "Transport",
                        "logType": [
                        "Bid"
                        ]
                    }
                    },
                    {
                    "source": "1",
                    "target": "2",
                    "label": {
                        "cmd": "select",
                        "role": "Transport",
                        "logType": [
                        "Selected"
                        ]
                    }
                    },
                    {
                    "source": "2",
                    "target": "3",
                    "label": {
                        "cmd": "needGuidance",
                        "role": "Transport",
                        "logType": [
                        "ReqGuidance"
                        ]
                    }
                    },
                    {
                    "source": "3",
                    "target": "4",
                    "label": {
                        "cmd": "giveGuidance",
                        "role": "BaseStation",
                        "logType": [
                        "GiveGuidance"
                        ]
                    }
                    },
                    {
                    "source": "4",
                    "target": "5",
                    "label": {
                        "cmd": "basicPickup",
                        "role": "Transport",
                        "logType": [
                        "ItemPickupBasic"
                        ]
                    }
                    },
                    {
                    "source": "2",
                    "target": "5",
                    "label": {
                        "cmd": "smartPickup",
                        "role": "Transport",
                        "logType": [
                        "ItemPickupSmart"
                        ]
                    }
                    },
                    {
                    "source": "5",
                    "target": "6",
                    "label": {
                        "cmd": "handover",
                        "role": "Transport",
                        "logType": [
                        "Handover"
                        ]
                    }
                    },
                    {
                    "source": "6",
                    "target": "0",
                    "label": {
                        "cmd": "deliver",
                        "role": "Warehouse",
                        "logType": [
                        "ItemDeliver"
                        ]
                    }
                    }
                ]
                }"#,
        )
    }
    fn get_wheel_installation_proto() -> SwarmProtocolType {
        swarm(
            r#"{
                "initial": "0",
                "transitions": [
                    {
                    "source": "0",
                    "target": "1",
                    "label": {
                        "cmd": "installEngine",
                        "role": "EngineInstaller",
                        "logType": [
                        "EngineInstalled"
                        ]
                    }
                    },
                    {
                    "source": "1",
                    "target": "2",
                    "label": {
                        "cmd": "pickUpWheel",
                        "role": "WheelInstaller",
                        "logType": [
                        "WheelPickup"
                        ]
                    }
                    },
                    {
                    "source": "2",
                    "target": "1",
                    "label": {
                        "cmd": "installWheel",
                        "role": "WheelInstaller",
                        "logType": [
                        "WheelInstalled"
                        ]
                    }
                    },
                    {
                    "source": "1",
                    "target": "3",
                    "label": {
                        "cmd": "wheelsDone",
                        "role": "WheelInstaller",
                        "logType": [
                        "AllWheelsInstalled"
                        ]
                    }
                    },
                    {
                    "source": "3",
                    "target": "4",
                    "label": {
                        "cmd": "carDone",
                        "role": "QualityTransport",
                        "logType": [
                        "FinishedCar"
                        ]
                    }
                    }
                ]
                } "#,
        )
    }

    fn get_interfacing_protocols_1() -> InterfacingProtocols {
            InterfacingProtocols(vec![
                get_steel_press_proto(), 
                get_paint_proto(), 
                get_engine_installation_proto(), 
                get_warehouse_proto(),
                get_wheel_installation_proto()])
        }

    fn get_wheel_installer() -> MachineType {
        machine(
            r#"{
                "initial": "s0",
                "transitions": [
                    {
                    "source": "s1",
                    "target": "s1",
                    "label": {
                        "tag": "Execute",
                        "cmd": "pickUpWheel",
                        "logType": [
                        "WheelPickup"
                        ]
                    }
                    },
                    {
                    "source": "s1",
                    "target": "s1",
                    "label": {
                        "tag": "Execute",
                        "cmd": "wheelsDone",
                        "logType": [
                        "AllWheelsInstalled"
                        ]
                    }
                    },
                    {
                    "source": "s2",
                    "target": "s2",
                    "label": {
                        "tag": "Execute",
                        "cmd": "installWheel",
                        "logType": [
                        "WheelInstalled"
                        ]
                    }
                    },
                    {
                    "source": "s0",
                    "target": "s1",
                    "label": {
                        "tag": "Input",
                        "eventType": "EngineInstalled"
                    }
                    },
                    {
                    "source": "s1",
                    "target": "s2",
                    "label": {
                        "tag": "Input",
                        "eventType": "WheelPickup"
                    }
                    },
                    {
                    "source": "s1",
                    "target": "s3",
                    "label": {
                        "tag": "Input",
                        "eventType": "AllWheelsInstalled"
                    }
                    },
                    {
                    "source": "s2",
                    "target": "s1",
                    "label": {
                        "tag": "Input",
                        "eventType": "WheelInstalled"
                    }
                    }
                ]
                }"#,
        )
    }
    
