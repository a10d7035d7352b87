use machine_check::composition::composition_swarm::{combine_proto_infos, compose_protocols, confusion_free, explicit_composition_proto_info, nodes_not_reaching_terminal, prepare_proto_info, prepare_proto_infos, proto_info_to_error_report, swarm_to_graph, swarms_to_proto_info, Error, ErrorReport};
use machine_check::composition::composition_types::{Granularity, InterfacingProtocols, ProtoInfo, SwarmGraph, SwarmProtocolType};
use machine_check::composition::error_report_to_strings;
use machine_check::names::{Command, EventType, Role, State};
use machine_check::order::Key;
use machine_check::ordmap::OrdMap;
use machine_check::ordset::OrdSet;
use machine_check::types::{ProtocolType, StateName, SwarmLabel, Transition};
use std::collections::{BTreeMap, BTreeSet};

type Subscriptions = BTreeMap<Role, BTreeSet<EventType>>;

fn swarm(json: &str) -> SwarmProtocolType {
    let v: serde_json::Value = serde_json::from_str(json).unwrap();
    let transitions = v["transitions"]
        .as_array()
        .unwrap()
        .iter()
        .map(|t| Transition {
            label: SwarmLabel {
                cmd: Command::new(t["label"]["cmd"].as_str().unwrap()),
                log_type: t["label"]["logType"].as_array().unwrap().iter().map(|e| EventType::new(e.as_str().unwrap())).collect(),
                role: Role::new(t["label"]["role"].as_str().unwrap()),
            },
            source: State::new(t["source"].as_str().unwrap()),
            target: State::new(t["target"].as_str().unwrap()),
        })
        .collect();
    ProtocolType { initial: State::new(v["initial"].as_str().unwrap()), transitions }
}

fn subscriptions(json: &str) -> Subscriptions {
    let v: serde_json::Value = serde_json::from_str(json).unwrap();
    v.as_object()
        .unwrap()
        .iter()
        .map(|(role, events)| (Role::new(role), events.as_array().unwrap().iter().map(|e| EventType::new(e.as_str().unwrap())).collect()))
        .collect()
}

fn oset<K: Key + Clone>(items: &BTreeSet<K>) -> OrdSet<K> {
    let mut set = OrdSet::new();
    for item in items {
        set.insert(item.clone());
    }
    set
}

fn osubs(subs: &Subscriptions) -> OrdMap<Role, OrdSet<EventType>> {
    let mut map = OrdMap::new();
    for (role, events) in subs {
        map.insert(role.clone(), oset(events));
    }
    map
}

fn pset<K: Key + Ord>(set: &OrdSet<K>) -> BTreeSet<K> {
    set.to_vec().into_iter().collect()
}

fn pmap<K: Key + Ord, V: Key + Ord>(map: &OrdMap<K, OrdSet<V>>) -> BTreeMap<K, BTreeSet<V>> {
    (0..map.len()).map(|i| (map.key_at(i).duplicate(), pset(map.val_at(i)))).collect()
}

fn pvec<K: Key + Ord>(sets: &Vec<OrdSet<K>>) -> Vec<BTreeSet<K>> {
    sets.iter().map(pset).collect()
}

fn ppairs(pairs: &OrdSet<OrdSet<EventType>>) -> BTreeSet<BTreeSet<EventType>> {
    (0..pairs.len()).map(|i| pset(pairs.get(i))).collect()
}

fn opairs(pairs: &BTreeSet<BTreeSet<EventType>>) -> OrdSet<OrdSet<EventType>> {
    let mut set = OrdSet::new();
    for pair in pairs {
        set.insert(oset(pair));
    }
    set
}

fn unord_event_pair(a: EventType, b: EventType) -> BTreeSet<EventType> {
    pset(&machine_check::composition::composition_types::unord_event_pair(a, b))
}

fn check(protos: InterfacingProtocols, subs: &Subscriptions) -> ErrorReport {
    machine_check::composition::composition_swarm::check(protos, &osubs(subs))
}

fn exact_well_formed_sub(protos: InterfacingProtocols, subs: &Subscriptions) -> Result<Subscriptions, ErrorReport> {
    machine_check::composition::composition_swarm::exact_well_formed_sub(protos, &osubs(subs)).map(|s| pmap(&s))
}

fn overapprox_well_formed_sub(protos: InterfacingProtocols, subs: &Subscriptions, granularity: Granularity) -> Result<Subscriptions, ErrorReport> {
    machine_check::composition::composition_swarm::overapprox_well_formed_sub(protos, &osubs(subs), granularity).map(|s| pmap(&s))
}

fn after_not_concurrent(graph: &SwarmGraph, initial: usize, concurrent_events: &BTreeSet<BTreeSet<EventType>>) -> BTreeMap<EventType, BTreeSet<EventType>> {
    pmap(&machine_check::composition::composition_swarm::after_not_concurrent(graph, initial, &opairs(concurrent_events)))
}

fn convert<'a>(graph: &'a SwarmGraph) -> impl Fn(Error) -> String + 'a {
    move |err| Error::convert(graph, &err)
}

trait MapVec<T> {
    fn map<U>(self, f: impl Fn(T) -> U) -> Vec<U>;
}

impl<T> MapVec<T> for Vec<T> {
    fn map<U>(self, f: impl Fn(T) -> U) -> Vec<U> {
        self.into_iter().map(f).collect()
    }
}


// Example from coplaws slides
fn get_proto1() -> SwarmProtocolType {
    swarm(
        r#"{
            "initial": "0",
            "transitions": [
                { "source": "0", "target": "1", "label": { "cmd": "request", "logType": ["partID"], "role": "T" } },
                { "source": "1", "target": "2", "label": { "cmd": "get", "logType": ["pos"], "role": "FL" } },
                { "source": "2", "target": "0", "label": { "cmd": "deliver", "logType": ["part"], "role": "T" } },
                { "source": "0", "target": "3", "label": { "cmd": "close", "logType": ["time"], "role": "D" } }
            ]
        }"#,
    )
}
fn get_subs1() -> Subscriptions {
    subscriptions(
        r#"{
            "T": ["partID", "part", "pos", "time"],
            "FL": ["partID", "pos", "time"],
            "D": ["partID", "part", "time"]
        }"#,
    )
}
fn get_proto2() -> SwarmProtocolType {
    swarm(
        r#"{
            "initial": "0",
            "transitions": [
                { "source": "0", "target": "1", "label": { "cmd": "request", "logType": ["partID"], "role": "T" } },
                { "source": "1", "target": "2", "label": { "cmd": "deliver", "logType": ["part"], "role": "T" } },
                { "source": "2", "target": "3", "label": { "cmd": "build", "logType": ["car"], "role": "F" } }
            ]
        }"#,
    )
}
fn get_subs2() -> Subscriptions {
    subscriptions(
        r#"{
            "T": ["partID", "part"],
            "F": ["part", "car"]
        }"#,
    )
}
fn get_proto3() -> SwarmProtocolType {
    swarm(
        r#"{
            "initial": "0",
            "transitions": [
                { "source": "0", "target": "1", "label": { "cmd": "observe", "logType": ["report1"], "role": "TR" } },
                { "source": "1", "target": "2", "label": { "cmd": "build", "logType": ["car"], "role": "F" } },
                { "source": "2", "target": "3", "label": { "cmd": "test", "logType": ["report2"], "role": "TR" } },
                { "source": "3", "target": "4", "label": { "cmd": "accept", "logType": ["ok"], "role": "QCR" } },
                { "source": "3", "target": "4", "label": { "cmd": "reject", "logType": ["notOk"], "role": "QCR" } }
            ]
        }"#,
    )
}
fn get_subs3() -> Subscriptions {
    subscriptions(
        r#"{
            "F": ["car", "report1"],
            "TR": ["car", "report1", "report2"],
            "QCR": ["report2", "ok", "notOk"]
        }"#,
    )
}
fn get_proto31() -> SwarmProtocolType {
    swarm(
        r#"{
            "initial": "0",
            "transitions": [
                { "source": "0", "target": "1", "label": { "cmd": "observe1", "logType": ["report1"], "role": "QCR" } },
                { "source": "1", "target": "2", "label": { "cmd": "observe2", "logType": ["report2"], "role": "QCR" } },
                { "source": "2", "target": "3", "label": { "cmd": "build", "logType": ["car"], "role": "F" } },
                { "source": "3", "target": "4", "label": { "cmd": "assess", "logType": ["report3"], "role": "QCR" } }
            ]
        }"#,
    )
}
fn get_proto32() -> SwarmProtocolType {
    swarm(
        r#"{
            "initial": "0",
            "transitions": [
                { "source": "0", "target": "1", "label": { "cmd": "observe", "logType": ["observing"], "role": "QCR" } },
                { "source": "1", "target": "2", "label": { "cmd": "build", "logType": ["car"], "role": "F" } },
                { "source": "2", "target": "3", "label": { "cmd": "test", "logType": ["report"], "role": "QCR" } }
            ]
        }"#,
    )
}
fn get_proto_4() -> SwarmProtocolType {
    swarm(
        r#"{
            "initial": "0",
            "transitions": [
                { "source": "0", "target": "1", "label": { "cmd": "c_ir_0", "logType": ["e_ir_0"], "role": "IR" } },
                { "source": "1", "target": "2", "label": { "cmd": "c_ir_1", "logType": ["e_ir_1"], "role": "IR" } },
                { "source": "2", "target": "1", "label": { "cmd": "c_r0_0", "logType": ["e_r0_0"], "role": "R0" } },
                { "source": "1", "target": "3", "label": { "cmd": "c_r0_1", "logType": ["e_r0_1"], "role": "R0" } }
            ]
        }"#,
    )
}
fn get_proto_5() -> SwarmProtocolType {
    swarm(
        r#"{
            "initial": "0",
            "transitions": [
                { "source": "0", "target": "1", "label": { "cmd": "c_ir_0", "logType": ["e_ir_0"], "role": "IR" } },
                { "source": "1", "target": "2", "label": { "cmd": "c_r1_0", "logType": ["e_r1_0"], "role": "R1" } },
                { "source": "2", "target": "3", "label": { "cmd": "c_ir_1", "logType": ["e_ir_1"], "role": "IR" } }
            ]
        }"#,
    )
}
fn get_subs_composition_1() -> Subscriptions {
    subscriptions(
        r#"{
            "T": ["partID", "part", "pos", "time"],
            "FL": ["partID", "pos", "time"],
            "D": ["partID", "part", "time"],
            "F": ["partID", "part", "car", "time"]
        }"#,
    )
}

// two event types in close, request appears multiple times, get emits no events
fn get_malformed_proto1() -> SwarmProtocolType {
    swarm(
        r#"{
            "initial": "0",
            "transitions": [
                { "source": "0", "target": "1", "label": { "cmd": "request", "logType": ["partID"], "role": "T" } },
                { "source": "1", "target": "2", "label": { "cmd": "get", "logType": [], "role": "FL" } },
                { "source": "2", "target": "0", "label": { "cmd": "request", "logType": ["part"], "role": "T" } },
                { "source": "0", "target": "0", "label": { "cmd": "close", "logType": ["time", "time2"], "role": "D" } }
            ]
        }"#,
    )
}

// initial state state unreachable
fn get_malformed_proto2() -> SwarmProtocolType {
    swarm(
        r#"{
            "initial": "0",
            "transitions": [
                { "source": "1", "target": "2", "label": { "cmd": "get", "logType": ["pos"], "role": "FL" } },
                { "source": "2", "target": "3", "label": { "cmd": "deliver", "logType": ["partID"], "role": "T" } }
            ]
        }"#,
    )
}

// all states not reachable
fn get_malformed_proto3() -> SwarmProtocolType {
    swarm(
        r#"{
            "initial": "0",
            "transitions": [
                { "source": "0", "target": "1", "label": { "cmd": "request", "logType": ["partID"], "role": "T" } },
                { "source": "2", "target": "3", "label": { "cmd": "deliver", "logType": ["part"], "role": "T" } },
                { "source": "4", "target": "5", "label": { "cmd": "build", "logType": ["car"], "role": "F" } }
            ]
        }"#,
    )
}

// pos event type associated with multiple commands and nondeterminism at 0.
// No terminal state can be reached from any state -- OK according to confusion freeness
fn get_confusionful_proto1() -> SwarmProtocolType {
    swarm(
        r#"{
            "initial": "0",
            "transitions": [
                { "source": "0", "target": "1", "label": { "cmd": "request", "logType": ["partID"], "role": "T" } },
                { "source": "0", "target": "0", "label": { "cmd": "request", "logType": ["partID"], "role": "T" } },
                { "source": "1", "target": "2", "label": { "cmd": "get", "logType": ["pos"], "role": "FL" } },
                { "source": "2", "target": "0", "label": { "cmd": "request", "logType": ["pos"], "role": "T" } },
                { "source": "0", "target": "0", "label": { "cmd": "close", "logType": ["time"], "role": "D" } }
            ]
        }"#,
    )
}
// No terminal state can be reached from any state -- OK according to confusion freeness
fn get_some_nonterminating_proto() -> SwarmProtocolType {
    swarm(
        r#"{
            "initial": "0",
            "transitions": [
                { "source": "0", "target": "1", "label": { "cmd": "a", "logType": ["a"], "role": "a" } },
                { "source": "0", "target": "2", "label": { "cmd": "c", "logType": ["c"], "role": "c" } },
                { "source": "2", "target": "3", "label": { "cmd": "b", "logType": ["b"], "role": "b" } },
                { "source": "1", "target": "4", "label": { "cmd": "d", "logType": ["d"], "role": "d" } },
                { "source": "4", "target": "5", "label": { "cmd": "e", "logType": ["e"], "role": "e" } },
                { "source": "5", "target": "1", "label": { "cmd": "f", "logType": ["f"], "role": "f" } }
            ]
        }"#,
    )
}
fn get_fail_1_component_1() -> SwarmProtocolType {
    swarm(
        r#"
        {
            "initial": "456",
            "transitions": [
                {
                "label": {
                    "cmd": "R453_cmd_0",
                    "logType": [
                    "R453_e_0"
                    ],
                    "role": "R453"
                },
                "source": "456",
                "target": "457"
                },
                {
                "label": {
                    "cmd": "R454_cmd_0",
                    "logType": [
                    "R454_e_0"
                    ],
                    "role": "R454"
                },
                "source": "457",
                "target": "458"
                }
            ]
            }
        "#,
    )
}

fn get_fail_1_component_2() -> SwarmProtocolType {
    swarm(
        r#"
        {
            "initial": "459",
            "transitions": [
                {
                "label": {
                    "cmd": "R455_cmd_0",
                    "logType": [
                    "R455_e_0"
                    ],
                    "role": "R455"
                },
                "source": "459",
                "target": "460"
                },
                {
                "label": {
                    "cmd": "R455_cmd_1",
                    "logType": [
                    "R455_e_1"
                    ],
                    "role": "R455"
                },
                "source": "460",
                "target": "459"
                },
                {
                "label": {
                    "cmd": "R454_cmd_0",
                    "logType": [
                    "R454_e_0"
                    ],
                    "role": "R454"
                },
                "source": "459",
                "target": "461"
                }
            ]
        }
        "#,
    )
}

fn pattern_4_proto_0() -> SwarmProtocolType {
    swarm(
        r#"{
            "initial": "0",
            "transitions": [
                { "source": "0", "target": "1", "label": { "cmd": "c_r0", "logType": ["e_r0"], "role": "R0" } },
                { "source": "1", "target": "2", "label": { "cmd": "c_ir", "logType": ["e_ir"], "role": "IR" } }
            ]
        }"#,
    )
}
fn pattern_4_proto_1() -> SwarmProtocolType {
    swarm(
        r#"{
            "initial": "0",
            "transitions": [
                { "source": "0", "target": "1", "label": { "cmd": "c_r1", "logType": ["e_r1"], "role": "R1" } },
                { "source": "1", "target": "2", "label": { "cmd": "c_ir", "logType": ["e_ir"], "role": "IR" } }
            ]
        }"#,
    )
}
fn pattern_4_proto_2() -> SwarmProtocolType {
    swarm(
        r#"{
            "initial": "0",
            "transitions": [
                { "source": "0", "target": "1", "label": { "cmd": "c_r2", "logType": ["e_r2"], "role": "R2" } },
                { "source": "1", "target": "2", "label": { "cmd": "c_ir", "logType": ["e_ir"], "role": "IR" } }
            ]
        }"#,
    )
}
fn pattern_4_proto_3() -> SwarmProtocolType {
    swarm(
        r#"{
            "initial": "0",
            "transitions": [
                { "source": "0", "target": "1", "label": { "cmd": "c_r3", "logType": ["e_r3"], "role": "R3" } },
                { "source": "1", "target": "2", "label": { "cmd": "c_ir", "logType": ["e_ir"], "role": "IR" } }
            ]
        }"#,
    )
}
fn pattern_4_proto_4() -> SwarmProtocolType {
    swarm(
        r#"{
            "initial": "0",
            "transitions": [
                { "source": "0", "target": "1", "label": { "cmd": "c_r4", "logType": ["e_r4"], "role": "R4" } },
                { "source": "1", "target": "2", "label": { "cmd": "c_ir", "logType": ["e_ir"], "role": "IR" } }
            ]
        }"#,
    )
}

fn ref_pat_proto_0() -> SwarmProtocolType {
    swarm(
        r#"{
            "initial": "0",
            "transitions": [
                { "source": "0", "target": "1", "label": { "cmd": "c_ir0_0", "logType": ["e_ir0_0"], "role": "IR0" } },
                { "source": "1", "target": "2", "label": { "cmd": "c_ir0_1", "logType": ["e_ir0_1"], "role": "IR0" } }
            ]
        }"#,
    )
}
fn ref_pat_proto_1() -> SwarmProtocolType {
    swarm(
        r#"{
            "initial": "0",
            "transitions": [
                { "source": "0", "target": "1", "label": { "cmd": "c_ir0_0", "logType": ["e_ir0_0"], "role": "IR0" } },
                { "source": "1", "target": "2", "label": { "cmd": "c_ir1_0", "logType": ["e_ir1_0"], "role": "IR1" } },
                { "source": "2", "target": "3", "label": { "cmd": "c_ir1_1", "logType": ["e_ir1_1"], "role": "IR1" } },
                { "source": "3", "target": "4", "label": { "cmd": "c_rb", "logType": ["e_rb"], "role": "RB" } },
                { "source": "4", "target": "5", "label": { "cmd": "c_ir0_1", "logType": ["e_ir0_1"], "role": "IR0" } },
                { "source": "1", "target": "6", "label": { "cmd": "c_ra", "logType": ["e_ra"], "role": "RA" } }
            ]
        }"#,
    )
}
fn ref_pat_proto_2() -> SwarmProtocolType {
    swarm(
        r#"{
            "initial": "0",
            "transitions": [
                { "source": "0", "target": "1", "label": { "cmd": "c_ir1_0", "logType": ["e_ir1_0"], "role": "IR1" } },
                { "source": "1", "target": "2", "label": { "cmd": "c_rc", "logType": ["e_rc"], "role": "RC" } },
                { "source": "2", "target": "3", "label": { "cmd": "c_ir1_1", "logType": ["e_ir1_1"], "role": "IR1" } }
            ]
        }"#,
    )
}

fn get_interfacing_swarms_5() -> InterfacingProtocols {
    InterfacingProtocols(vec![get_proto_4(), get_proto_5()])
}

fn get_ref_pat_protos() -> InterfacingProtocols {
    InterfacingProtocols(vec![
        ref_pat_proto_0(),
        ref_pat_proto_1(),
        ref_pat_proto_2(),
    ])
}

fn get_interfacing_swarms_1() -> InterfacingProtocols {
    InterfacingProtocols(vec![get_proto1(), get_proto2()])
}

fn get_interfacing_swarms_2() -> InterfacingProtocols {
    InterfacingProtocols(vec![get_proto1(), get_proto2(), get_proto3()])
}

fn get_interfacing_swarms_3() -> InterfacingProtocols {
    InterfacingProtocols(vec![get_proto1(), get_proto2(), get_proto31()])
}

fn get_interfacing_swarms_4() -> InterfacingProtocols {
    InterfacingProtocols(vec![get_proto1(), get_proto2(), get_proto32()])
}

fn get_interfacing_swarms_pat_4() -> InterfacingProtocols {
    InterfacingProtocols(vec![
        pattern_4_proto_0(),
        pattern_4_proto_1(),
        pattern_4_proto_2(),
        pattern_4_proto_3(),
        pattern_4_proto_4(),
    ])
}
fn get_fail_1_swarms() -> InterfacingProtocols {
    InterfacingProtocols(vec![get_fail_1_component_1(), get_fail_1_component_2()])
}

// QCR subscribes to car and part because report1 is concurrent with part and they lead to a joining event car/event is joining bc of this.
fn get_subs_composition_2() -> Subscriptions {
    subscriptions(
        r#"{
            "T": ["partID", "part", "pos", "time"],
            "FL": ["partID", "pos", "time"],
            "D": ["partID", "part", "time"],
            "F": ["partID", "part", "car", "time", "report1"],
            "TR": ["partID", "report1", "report2", "car", "time", "part"],
            "QCR": ["partID", "part", "report1", "report2", "car", "time", "ok", "notOk"]
        }"#,
    )
}

// true if subs1 is a subset of subs2
fn is_sub_subscription(subs1: Subscriptions, subs2: Subscriptions) -> bool {
    if !subs1
        .keys()
        .cloned()
        .collect::<BTreeSet<Role>>()
        .is_subset(&subs2.keys().cloned().collect::<BTreeSet<Role>>())
    {
        return false;
    }

    for role in subs1.keys() {
        if !subs1[role].is_subset(&subs2[role]) {
            return false;
        }
    }

    true
}

    // Tests relating to confusion-freeness of protocols.

#[test]
    fn test_prepare_graph_confusionfree() {

        let composition = get_interfacing_swarms_1();
        let proto_info = combine_proto_infos(prepare_proto_infos(composition));
        let proto_info = explicit_composition_proto_info(proto_info);

        assert!(proto_info.get_ith_proto(0).is_some());
        assert!(proto_info.get_ith_proto(0).unwrap().errors.is_empty());
        assert_eq!(
            ppairs(&proto_info.concurrent_events),
            BTreeSet::from([
                unord_event_pair(EventType::new("time"), EventType::new("car")),
                unord_event_pair(EventType::new("pos"), EventType::new("car"))
            ])
        );
        assert_eq!(
            pvec(&proto_info.branching_events),
            vec![BTreeSet::from([
                EventType::new("time"),
                EventType::new("partID")
            ])]
        );
        assert_eq!(pmap(&proto_info.joining_events), BTreeMap::new());
        let expected_role_event_map = BTreeMap::from([
            (
                Role::new("T"),
                BTreeSet::from([
                    SwarmLabel {
                        cmd: Command::new("deliver"),
                        log_type: vec![EventType::new("part")],
                        role: Role::new("T"),
                    },
                    SwarmLabel {
                        cmd: Command::new("request"),
                        log_type: vec![EventType::new("partID")],
                        role: Role::new("T"),
                    },
                ]),
            ),
            (
                Role::new("FL"),
                BTreeSet::from([SwarmLabel {
                    cmd: Command::new("get"),
                    log_type: vec![EventType::new("pos")],
                    role: Role::new("FL"),
                }]),
            ),
            (
                Role::new("D"),
                BTreeSet::from([SwarmLabel {
                    cmd: Command::new("close"),
                    log_type: vec![EventType::new("time")],
                    role: Role::new("D"),
                }]),
            ),
            (
                Role::new("F"),
                BTreeSet::from([SwarmLabel {
                    cmd: Command::new("build"),
                    log_type: vec![EventType::new("car")],
                    role: Role::new("F"),
                }]),
            ),
        ]);
        assert_eq!(pmap(&proto_info.role_event_map), expected_role_event_map);
        let proto_info = prepare_proto_info(get_proto1());
        assert!(proto_info.get_ith_proto(0).is_some());
        assert!(proto_info.get_ith_proto(0).unwrap().errors.is_empty());
        assert_eq!(ppairs(&proto_info.concurrent_events), BTreeSet::new());
        assert_eq!(
            pvec(&proto_info.branching_events),
            vec![BTreeSet::from([
                EventType::new("time"),
                EventType::new("partID")
            ])]
        );
        assert_eq!(pmap(&proto_info.joining_events), BTreeMap::new());

        let proto_info = prepare_proto_info(get_proto2());
        assert!(proto_info.get_ith_proto(0).is_some());
        assert!(proto_info.get_ith_proto(0).unwrap().errors.is_empty());
        assert_eq!(ppairs(&proto_info.concurrent_events), BTreeSet::new());
        assert_eq!(pvec(&proto_info.branching_events), Vec::new());
        assert_eq!(pmap(&proto_info.joining_events), BTreeMap::new());

        let proto_info = prepare_proto_info(get_proto3());
        assert!(proto_info.get_ith_proto(0).is_some());
        assert!(proto_info.get_ith_proto(0).unwrap().errors.is_empty());
        assert_eq!(ppairs(&proto_info.concurrent_events), BTreeSet::new());

        // Should not contain any branching event types since only state with two outgoing is 3
        // and both of these outgoing transitions go to state 4:
        assert_eq!(pvec(&proto_info.branching_events), vec![]);
        assert_eq!(pmap(&proto_info.joining_events), BTreeMap::new());
    }

#[test]
    fn test_prepare_graph_malformed() {

        let proto1 = get_malformed_proto1();
        let proto_info = prepare_proto_info(proto1.clone()); //proto1.clone(), None);
        let mut errors = vec![proto_info.get_ith_proto(0).unwrap().errors]
            .concat()
            .map(convert(&proto_info.get_ith_proto(0).unwrap().graph));

        let mut expected_erros = vec![
            "transition (0)--[close@D<time,time2>]-->(0) emits more than one event type",
            "log type must not be empty (1)--[get@FL<>]-->(2)",
        ];
        errors.sort();
        expected_erros.sort();
        assert_eq!(errors, expected_erros);

        let proto_info = prepare_proto_info(get_malformed_proto2()); //get_malformed_proto2(), None);
        let errors = vec![
            confusion_free(&proto_info, 0),
            proto_info.get_ith_proto(0).unwrap().errors,
        ]
        .concat()
        .map(convert(&proto_info.get_ith_proto(0).unwrap().graph));

        let expected_errors = vec![
            "initial swarm protocol state has no transitions",
            "initial swarm protocol state has no transitions",
        ];
        assert_eq!(errors, expected_errors);

        let proto_info = prepare_proto_info(get_malformed_proto3()); //get_malformed_proto3(), None);
        let errors = proto_info
            .get_ith_proto(0)
            .unwrap()
            .errors
            .map(convert(&proto_info.get_ith_proto(0).unwrap().graph));

        let expected_errors = vec![
            "state 2 is unreachable from initial state",
            "state 3 is unreachable from initial state",
            "state 4 is unreachable from initial state",
            "state 5 is unreachable from initial state",
        ];
        assert_eq!(errors, expected_errors);
    }

    // pos event type associated with multiple commands and nondeterminism at 0
#[test]
    fn test_prepare_graph_confusionful() {

        let proto = get_confusionful_proto1();

        let proto_info = prepare_proto_info(proto); //proto, None);
        let mut errors = vec![
            confusion_free(&proto_info, 0),
            proto_info.get_ith_proto(0).unwrap().errors,
        ]
        .concat()
        .map(convert(&proto_info.get_ith_proto(0).unwrap().graph));

        let mut expected_errors = vec![
            "command request enabled in more than one transition: (0)--[request@T<partID>]-->(1), (0)--[request@T<partID>]-->(0), (2)--[request@T<pos>]-->(0)",
            "event type partID emitted in more than one transition: (0)--[request@T<partID>]-->(1), (0)--[request@T<partID>]-->(0)",
            "event type pos emitted in more than one transition: (1)--[get@FL<pos>]-->(2), (2)--[request@T<pos>]-->(0)",
        ];
        errors.sort();
        expected_errors.sort();
        assert_eq!(errors, expected_errors);

        let proto = get_some_nonterminating_proto();
        let proto_info = prepare_proto_info(proto);
        let mut errors = vec![
            confusion_free(&proto_info, 0),
            proto_info.get_ith_proto(0).unwrap().errors,
        ]
        .concat()
        .map(convert(&proto_info.get_ith_proto(0).unwrap().graph));

        let mut expected_errors: Vec<String> = vec![];
        errors.sort();
        expected_errors.sort();
        assert_eq!(errors, expected_errors);
    }

    // Tests relating to well-formedness checking.

#[test]
    fn test_wf_ok() {

        let proto1: InterfacingProtocols = InterfacingProtocols(vec![get_proto1()]);
        let result1 = exact_well_formed_sub(proto1.clone(), &BTreeMap::new());
        assert!(result1.is_ok());
        let subs1 = result1.unwrap();
        let error_report = check(proto1, &subs1);
        assert!(error_report.is_empty());
        assert_eq!(get_subs1(), subs1);

        let proto2: InterfacingProtocols = InterfacingProtocols(vec![get_proto2()]);
        let result2 = exact_well_formed_sub(proto2.clone(), &BTreeMap::new());
        assert!(result2.is_ok());
        let subs2 = result2.unwrap();
        let error_report = check(proto2, &subs2);
        assert!(error_report.is_empty());
        assert_eq!(get_subs2(), subs2);

        let proto3: InterfacingProtocols = InterfacingProtocols(vec![get_proto3()]);
        let result3 = exact_well_formed_sub(proto3.clone(), &BTreeMap::new());
        assert!(result3.is_ok());
        let subs3 = result3.unwrap();
        let error_report = check(proto3, &subs3);
        assert!(error_report.is_empty());
        assert_eq!(get_subs3(), subs3);

        let composition1: InterfacingProtocols = get_interfacing_swarms_1();
        let result_composition1 =
            exact_well_formed_sub(composition1.clone(), &BTreeMap::new());
        assert!(result_composition1.is_ok());
        let subs_composition = result_composition1.unwrap();
        let error_report = check(composition1, &subs_composition);
        assert!(error_report.is_empty());
        assert_eq!(get_subs_composition_1(), subs_composition);

        let composition2: InterfacingProtocols = get_interfacing_swarms_2();
        let result_composition2 =
            exact_well_formed_sub(composition2.clone(), &BTreeMap::new());
        assert!(result_composition2.is_ok());
        let subs_composition = result_composition2.unwrap();
        let error_report = check(composition2, &subs_composition);
        assert!(error_report.is_empty());
        assert_eq!(get_subs_composition_2(), subs_composition);
    }

#[test]
    fn test_wf_fail() {

        let input: InterfacingProtocols = InterfacingProtocols(vec![get_proto1()]);
        let subs = BTreeMap::from([
            (Role::new("T"), BTreeSet::from([EventType::new("pos")])),
            (Role::new("D"), BTreeSet::from([EventType::new("pos")])),
            (Role::new("FL"), BTreeSet::from([EventType::new("partID")])),
        ]);
        let error_report = check(input, &subs);
        let mut errors = error_report_to_strings(error_report);
        errors.sort();
        let mut expected_errors = vec![
            "active role does not subscribe to any of its emitted event types in transition (0)--[close@D<time>]-->(3)",
            "active role does not subscribe to any of its emitted event types in transition (0)--[request@T<partID>]-->(1)",
            "active role does not subscribe to any of its emitted event types in transition (2)--[deliver@T<part>]-->(0)",
            "active role does not subscribe to any of its emitted event types in transition (1)--[get@FL<pos>]-->(2)",
            "role T does not subscribe to event types partID, time in branching transitions at state 0, but is involved after transition (0)--[request@T<partID>]-->(1)",
            "role D does not subscribe to event types partID, time in branching transitions at state 0, but is involved after transition (0)--[request@T<partID>]-->(1)",
            "role FL does not subscribe to event types time in branching transitions at state 0, but is involved after transition (0)--[request@T<partID>]-->(1)",
            "subsequently active role D does not subscribe to events in transition (2)--[deliver@T<part>]-->(0)",
            "subsequently active role T does not subscribe to events in transition (2)--[deliver@T<part>]-->(0)",
        ];

        expected_errors.sort();
        assert_eq!(errors, expected_errors);

        let input: InterfacingProtocols = InterfacingProtocols(vec![get_proto2()]);
        let error_report = check(input, &get_subs3());
        let mut errors = error_report_to_strings(error_report);
        errors.sort();
        let mut expected_errors = vec![
            "active role does not subscribe to any of its emitted event types in transition (0)--[request@T<partID>]-->(1)",
            "subsequently active role T does not subscribe to events in transition (0)--[request@T<partID>]-->(1)",
            "active role does not subscribe to any of its emitted event types in transition (1)--[deliver@T<part>]-->(2)",
            "subsequently active role F does not subscribe to events in transition (1)--[deliver@T<part>]-->(2)"
        ];

        expected_errors.sort();
        assert_eq!(errors, expected_errors);

        let input: InterfacingProtocols = InterfacingProtocols(vec![get_proto3()]);

        let error_report = check(input, &get_subs1());
        let mut errors = error_report_to_strings(error_report);
        errors.sort();
        let mut expected_errors = vec![
            "active role does not subscribe to any of its emitted event types in transition (0)--[observe@TR<report1>]-->(1)",
            "active role does not subscribe to any of its emitted event types in transition (1)--[build@F<car>]-->(2)",
            "active role does not subscribe to any of its emitted event types in transition (2)--[test@TR<report2>]-->(3)",
            "active role does not subscribe to any of its emitted event types in transition (3)--[accept@QCR<ok>]-->(4)",
            "active role does not subscribe to any of its emitted event types in transition (3)--[reject@QCR<notOk>]-->(4)",
            "subsequently active role F does not subscribe to events in transition (0)--[observe@TR<report1>]-->(1)",
            "subsequently active role QCR does not subscribe to events in transition (2)--[test@TR<report2>]-->(3)",
            "subsequently active role QCR does not subscribe to events in transition (2)--[test@TR<report2>]-->(3)",
            "subsequently active role TR does not subscribe to events in transition (1)--[build@F<car>]-->(2)"
        ];

        expected_errors.sort();
        assert_eq!(errors, expected_errors);
    }

#[test]
    fn test_compose_non_wf_swarms() {

        let input = get_interfacing_swarms_1();
        let subs = BTreeMap::from([
            (Role::new("T"), BTreeSet::from([EventType::new("part")])),
            (Role::new("D"), BTreeSet::from([EventType::new("part")])),
            (Role::new("FL"), BTreeSet::from([EventType::new("part")])),
            (Role::new("F"), BTreeSet::from([EventType::new("part")])),
        ]);
        let error_report = check(input, &subs);
        let mut errors = error_report_to_strings(error_report);
        errors.sort();
        let mut expected_errors = vec![
            "active role does not subscribe to any of its emitted event types in transition (0 || 0)--[request@T<partID>]-->(1 || 1)",
            "active role does not subscribe to any of its emitted event types in transition (0 || 0)--[close@D<time>]-->(3 || 0)",
            "active role does not subscribe to any of its emitted event types in transition (1 || 1)--[get@FL<pos>]-->(2 || 1)",
            "active role does not subscribe to any of its emitted event types in transition (0 || 2)--[build@F<car>]-->(0 || 3)",
            "active role does not subscribe to any of its emitted event types in transition (0 || 3)--[close@D<time>]-->(3 || 3)",
            "active role does not subscribe to any of its emitted event types in transition (0 || 2)--[close@D<time>]-->(3 || 2)",
            "active role does not subscribe to any of its emitted event types in transition (3 || 2)--[build@F<car>]-->(3 || 3)",
            "role D does not subscribe to event types partID, time in branching transitions at state 0 || 0, but is involved after transition (0 || 0)--[request@T<partID>]-->(1 || 1)",
            "role T does not subscribe to event types partID, time in branching transitions at state 0 || 0, but is involved after transition (0 || 0)--[request@T<partID>]-->(1 || 1)",
            "role FL does not subscribe to event types partID, time in branching transitions at state 0 || 0, but is involved after transition (0 || 0)--[request@T<partID>]-->(1 || 1)",
            "role F does not subscribe to event types partID, time in branching transitions at state 0 || 0, but is involved after transition (0 || 0)--[request@T<partID>]-->(1 || 1)",
            "subsequently active role FL does not subscribe to events in transition (0 || 0)--[request@T<partID>]-->(1 || 1)",
            "subsequently active role T does not subscribe to events in transition (1 || 1)--[get@FL<pos>]-->(2 || 1)",
        ];
        expected_errors.sort();
        assert_eq!(errors, expected_errors);
    }

#[test]
    fn test_fail1() {

        let result = exact_well_formed_sub(get_fail_1_swarms(), &BTreeMap::new());
        assert!(result.is_ok());
        let subs1 = result.unwrap();
        let error_report = check(get_fail_1_swarms(), &subs1);
        assert!(error_report.is_empty());

        let error_report = check(get_fail_1_swarms(), &BTreeMap::new());
        let mut errors = error_report_to_strings(error_report);
        errors.sort();
        let mut expected_errors = vec![
            "active role does not subscribe to any of its emitted event types in transition (456 || 459)--[R455_cmd_0@R455<R455_e_0>]-->(456 || 460)",
            "subsequently active role R455 does not subscribe to events in transition (456 || 459)--[R455_cmd_0@R455<R455_e_0>]-->(456 || 460)",
            "active role does not subscribe to any of its emitted event types in transition (456 || 459)--[R453_cmd_0@R453<R453_e_0>]-->(457 || 459)",
            "subsequently active role R454 does not subscribe to events in transition (456 || 459)--[R453_cmd_0@R453<R453_e_0>]-->(457 || 459)",
            "active role does not subscribe to any of its emitted event types in transition (457 || 459)--[R454_cmd_0@R454<R454_e_0>]-->(458 || 461)",
            "active role does not subscribe to any of its emitted event types in transition (457 || 459)--[R455_cmd_0@R455<R455_e_0>]-->(457 || 460)",
            "subsequently active role R455 does not subscribe to events in transition (457 || 459)--[R455_cmd_0@R455<R455_e_0>]-->(457 || 460)",
            "active role does not subscribe to any of its emitted event types in transition (457 || 460)--[R455_cmd_1@R455<R455_e_1>]-->(457 || 459)",
            "subsequently active role R454 does not subscribe to events in transition (457 || 460)--[R455_cmd_1@R455<R455_e_1>]-->(457 || 459)",
            "subsequently active role R455 does not subscribe to events in transition (457 || 460)--[R455_cmd_1@R455<R455_e_1>]-->(457 || 459)",
            "active role does not subscribe to any of its emitted event types in transition (456 || 460)--[R455_cmd_1@R455<R455_e_1>]-->(456 || 459)",
            "subsequently active role R455 does not subscribe to events in transition (456 || 460)--[R455_cmd_1@R455<R455_e_1>]-->(456 || 459)",
            "active role does not subscribe to any of its emitted event types in transition (456 || 460)--[R453_cmd_0@R453<R453_e_0>]-->(457 || 460)"
        ];
        expected_errors.sort();
        assert_eq!(errors, expected_errors);
    }

#[test]
    fn test_join_errors() {

        let composition: InterfacingProtocols = get_interfacing_swarms_2();
        let result_composition = exact_well_formed_sub(composition.clone(), &BTreeMap::new());
        assert!(result_composition.is_ok());
        let mut subs_composition = result_composition.unwrap();
        subs_composition.entry(Role::new("QCR")).and_modify(|s| {
            *s = BTreeSet::from([
                EventType::new("report2"),
                EventType::new("ok"),
                EventType::new("notOk"),
                EventType::new("partID"),
                EventType::new("time"),
            ])
        });
        subs_composition.entry(Role::new("F")).and_modify(|s| {
            s.remove(&EventType::new("report1"));
        });
        let error_report = check(composition.clone(), &subs_composition);
        let mut errors = error_report_to_strings(error_report);
        let mut expected_errors = vec![
            "role F does not subscribe to event types report1 leading to or in joining event in transition (0 || 2 || 1)--[build@F<car>]-->(0 || 3 || 2)",
            "subsequently active role F does not subscribe to events in transition (0 || 2 || 0)--[observe@TR<report1>]-->(0 || 2 || 1)",
            "subsequently active role F does not subscribe to events in transition (3 || 2 || 0)--[observe@TR<report1>]-->(3 || 2 || 1)",
            "role QCR does not subscribe to event types car, part, report1 leading to or in joining event in transition (0 || 2 || 1)--[build@F<car>]-->(0 || 3 || 2)"];
        errors.sort();
        expected_errors.sort();
        assert_eq!(errors, expected_errors);
    }

        #[test]
    fn inference_example_1() {
        fn subs() -> Subscriptions {
            subscriptions(
                r#"{
                "R1": ["a1", "a2", "b1"],
                "R2": ["b1", "b2", "a1"],
                "R3": ["c1", "c2"]
            }"#,
            )
        }
        fn proto1() -> SwarmProtocolType {
            swarm(
            r#"{
                "initial": "0",
                "transitions": [
                    { "source": "0", "target": "1", "label": { "cmd": "cmd_a1", "logType": ["a1"], "role": "R1" } },
                    { "source": "1", "target": "3", "label": { "cmd": "cmd_a2", "logType": ["a2"], "role": "R1" } },
                    { "source": "0", "target": "2", "label": { "cmd": "cmd_b1", "logType": ["b1"], "role": "R2" } },
                    { "source": "2", "target": "4", "label": { "cmd": "cmd_b2", "logType": ["b2"], "role": "R2" } }
                ]
            }"#,
        )
        }
        fn proto2() -> SwarmProtocolType {
            swarm(
                r#"{
                    "initial": "0",
                    "transitions": [
                        { "source": "0", "target": "1", "label": { "cmd": "cmd_c1", "logType": ["c1"], "role": "R3" } },
                        { "source": "1", "target": "2", "label": { "cmd": "cmd_c2", "logType": ["c2"], "role": "R3" } }
                    ]
                }"#,
            )
        }
        fn as_interfacing_protocols() -> InterfacingProtocols {
            InterfacingProtocols(vec![proto1(), proto2()])
        }

        assert!(check(as_interfacing_protocols(), &subs()).is_empty());
        let smalles_sub = exact_well_formed_sub(as_interfacing_protocols(), &BTreeMap::new());
        assert!(smalles_sub.is_ok());
        assert_eq!(smalles_sub.unwrap(), subs());
    }

#[test]
    fn inference_example_2() {
        fn subs() -> Subscriptions {
            subscriptions(
                r#"{
                "R1": ["a1", "a2", "b1"],
                "R2": ["b1", "b2", "a1"],
                "R3": ["c1", "c2"],
                "IR": ["i1", "a1", "a2", "b1", "c2"]
            }"#,
            )
        }
        fn proto1() -> SwarmProtocolType {
            swarm(
            r#"{
                "initial": "0",
                "transitions": [
                    { "source": "0", "target": "1", "label": { "cmd": "cmd_a1", "logType": ["a1"], "role": "R1" } },
                    { "source": "1", "target": "3", "label": { "cmd": "cmd_a2", "logType": ["a2"], "role": "R1" } },
                    { "source": "3", "target": "5", "label": { "cmd": "cmd_i1", "logType": ["i1"], "role": "IR" } },
                    { "source": "0", "target": "2", "label": { "cmd": "cmd_b1", "logType": ["b1"], "role": "R2" } },
                    { "source": "2", "target": "4", "label": { "cmd": "cmd_b2", "logType": ["b2"], "role": "R2" } }
                ]
            }"#,
        )
        }
        fn proto2() -> SwarmProtocolType {
            swarm(
                r#"{
                    "initial": "0",
                    "transitions": [
                        { "source": "0", "target": "1", "label": { "cmd": "cmd_c1", "logType": ["c1"], "role": "R3" } },
                        { "source": "1", "target": "2", "label": { "cmd": "cmd_c2", "logType": ["c2"], "role": "R3" } },
                        { "source": "2", "target": "3", "label": { "cmd": "cmd_i1", "logType": ["i1"], "role": "IR" } }
                    ]
                }"#,
            )
        }
        fn as_interfacing_protocols() -> InterfacingProtocols {
            InterfacingProtocols(vec![proto1(), proto2()])
        }
        assert!(check(as_interfacing_protocols(), &subs()).is_empty());
        let smalles_sub = exact_well_formed_sub(as_interfacing_protocols(), &BTreeMap::new());
        assert!(smalles_sub.is_ok());
        assert_eq!(smalles_sub.unwrap(), subs());
    }

#[test]
    fn inference_example_3() {
        fn subs() -> Subscriptions {
            subscriptions(
                r#"{
                "R1": ["i1", "a1", "a2", "b1"],
                "R2": ["i1", "b1", "b2", "a1"],
                "R3": ["i1", "c1", "c2"],
                "IR": ["i1"]
            }"#,
            )
        }
        fn proto1() -> SwarmProtocolType {
            swarm(
            r#"{
                "initial": "0",
                "transitions": [
                    { "source": "0", "target": "1", "label": { "cmd": "cmd_i1", "logType": ["i1"], "role": "IR" } },
                    { "source": "1", "target": "2", "label": { "cmd": "cmd_a1", "logType": ["a1"], "role": "R1" } },
                    { "source": "2", "target": "4", "label": { "cmd": "cmd_a2", "logType": ["a2"], "role": "R1" } },
                    { "source": "1", "target": "3", "label": { "cmd": "cmd_b1", "logType": ["b1"], "role": "R2" } },
                    { "source": "3", "target": "5", "label": { "cmd": "cmd_b2", "logType": ["b2"], "role": "R2" } }
                ]
            }"#,
        )
        }
        fn proto2() -> SwarmProtocolType {
            swarm(
                r#"{
                    "initial": "0",
                    "transitions": [
                        { "source": "0", "target": "1", "label": { "cmd": "cmd_i1", "logType": ["i1"], "role": "IR" } },
                        { "source": "1", "target": "2", "label": { "cmd": "cmd_c1", "logType": ["c1"], "role": "R3" } },
                        { "source": "2", "target": "3", "label": { "cmd": "cmd_c2", "logType": ["c2"], "role": "R3" } }
                    ]
                }"#,
            )
        }
        fn as_interfacing_protocols() -> InterfacingProtocols {
            InterfacingProtocols(vec![proto1(), proto2()])
        }

        assert!(check(as_interfacing_protocols(), &subs()).is_empty());
        let smalles_sub = exact_well_formed_sub(as_interfacing_protocols(), &BTreeMap::new());
        assert!(smalles_sub.is_ok());
        assert_eq!(smalles_sub.unwrap(), subs());
    }

#[test]
    fn inference_example_4() {
        fn subs() -> Subscriptions {
            subscriptions(
                r#"{
                "R1": ["c1", "a1"],
                "R2": ["a1", "b1"],
                "R3": ["a1", "b1", "c1"]
            }"#,
            )
        }
        fn proto1() -> SwarmProtocolType {
            swarm(
            r#"{
                "initial": "0",
                "transitions": [
                    { "source": "0", "target": "1", "label": { "cmd": "cmd_i1", "logType": ["i1"], "role": "IR" } },
                    { "source": "1", "target": "2", "label": { "cmd": "cmd_i2", "logType": ["i2"], "role": "IR" } },
                    { "source": "0", "target": "3", "label": { "cmd": "cmd_a1", "logType": ["a1"], "role": "R1" } },
                    { "source": "3", "target": "4", "label": { "cmd": "cmd_b1", "logType": ["b1"], "role": "R2" } },
                    { "source": "4", "target": "0", "label": { "cmd": "cmd_c1", "logType": ["c1"], "role": "R3" } }
                ]
            }"#,
        )
        }
        fn proto2() -> SwarmProtocolType {
            swarm(
                r#"{
                    "initial": "0",
                    "transitions": [
                        { "source": "0", "target": "1", "label": { "cmd": "cmd_i2", "logType": ["i2"], "role": "IR" } },
                        { "source": "1", "target": "2", "label": { "cmd": "cmd_i1", "logType": ["i1"], "role": "IR" } }
                    ]
                }"#,
            )
        }
        fn as_interfacing_protocols() -> InterfacingProtocols {
            InterfacingProtocols(vec![proto1(), proto2()])
        }

        assert!(check(as_interfacing_protocols(), &subs()).is_empty());
        let smalles_sub = exact_well_formed_sub(as_interfacing_protocols(), &BTreeMap::new());
        assert!(smalles_sub.is_ok());
        assert_eq!(smalles_sub.unwrap(), subs());
    }

#[test]
    fn inference_example_5() {
        fn subs() -> Subscriptions {
            subscriptions(
                r#"{
                "R1": ["a1", "c1"],
                "R2": ["a1", "b1", "c1"]
            }"#,
            )
        }
        fn proto1() -> SwarmProtocolType {
            swarm(
            r#"{
                "initial": "0",
                "transitions": [
                    { "source": "0", "target": "1", "label": { "cmd": "cmd_a1", "logType": ["a1"], "role": "R1" } },
                    { "source": "1", "target": "2", "label": { "cmd": "cmd_b1", "logType": ["b1"], "role": "R2" } },
                    { "source": "0", "target": "3", "label": { "cmd": "cmd_c1", "logType": ["c1"], "role": "R1" } },
                    { "source": "0", "target": "4", "label": { "cmd": "cmd_i1", "logType": ["i1"], "role": "IR" } },
                    { "source": "4", "target": "5", "label": { "cmd": "cmd_i2", "logType": ["i2"], "role": "IR" } }
                ]
            }"#,
        )
        }
        fn proto2() -> SwarmProtocolType {
            swarm(
                r#"{
                    "initial": "0",
                    "transitions": [
                        { "source": "0", "target": "1", "label": { "cmd": "cmd_i2", "logType": ["i2"], "role": "IR" } },
                        { "source": "1", "target": "2", "label": { "cmd": "cmd_i1", "logType": ["i1"], "role": "IR" } }
                    ]
                }"#,
            )
        }
        fn as_interfacing_protocols() -> InterfacingProtocols {
            InterfacingProtocols(vec![proto1(), proto2()])
        }

        assert!(check(as_interfacing_protocols(), &subs()).is_empty());
        let smalles_sub = exact_well_formed_sub(as_interfacing_protocols(), &BTreeMap::new());
        assert!(smalles_sub.is_ok());
        assert_eq!(smalles_sub.unwrap(), subs());
    }

    // Tests relating to subscription generation.
#[test]
    fn test_well_formed_sub() {

        // Test interfacing_swarms_1
        let result = exact_well_formed_sub(get_interfacing_swarms_1(), &BTreeMap::new());
        assert!(result.is_ok());
        let subs1 = result.unwrap();
        let error_report = check(get_interfacing_swarms_1(), &subs1);
        assert!(error_report.is_empty());

        let result = overapprox_well_formed_sub(
            get_interfacing_swarms_1(),
            &BTreeMap::new(),
            Granularity::Coarse,
        );
        assert!(result.is_ok());
        let subs2 = result.unwrap();
        let error_report = check(get_interfacing_swarms_1(), &subs2);
        assert!(error_report.is_empty());
        assert!(is_sub_subscription(subs1.clone(), subs2));

        let result = overapprox_well_formed_sub(
            get_interfacing_swarms_1(),
            &BTreeMap::new(),
            Granularity::Medium,
        );
        assert!(result.is_ok());
        let subs2 = result.unwrap();
        let error_report = check(get_interfacing_swarms_1(), &subs2);
        assert!(error_report.is_empty());
        assert!(is_sub_subscription(subs1.clone(), subs2));

        let result = overapprox_well_formed_sub(
            get_interfacing_swarms_1(),
            &BTreeMap::new(),
            Granularity::Fine,
        );
        assert!(result.is_ok());
        let subs2 = result.unwrap();
        let error_report = check(get_interfacing_swarms_1(), &subs2);
        assert!(error_report.is_empty());
        assert!(is_sub_subscription(subs1.clone(), subs2));

        let result = overapprox_well_formed_sub(
            get_interfacing_swarms_1(),
            &BTreeMap::new(),
            Granularity::TwoStep,
        );
        assert!(result.is_ok());
        let subs2 = result.unwrap();
        let error_report = check(get_interfacing_swarms_1(), &subs2);
        assert!(error_report.is_empty());
        assert!(is_sub_subscription(subs1.clone(), subs2));

        // Test interfacing_swarms_2
        let result = exact_well_formed_sub(get_interfacing_swarms_2(), &BTreeMap::new());
        assert!(result.is_ok());
        let subs1 = result.unwrap();
        let error_report = check(get_interfacing_swarms_2(), &subs1);
        assert!(error_report.is_empty());

        let result = overapprox_well_formed_sub(
            get_interfacing_swarms_2(),
            &BTreeMap::new(),
            Granularity::Coarse,
        );
        assert!(result.is_ok());
        let subs2 = result.unwrap();
        let error_report = check(get_interfacing_swarms_2(), &subs2);
        assert!(error_report.is_empty());
        assert!(is_sub_subscription(subs1.clone(), subs2));

        let result = overapprox_well_formed_sub(
            get_interfacing_swarms_2(),
            &BTreeMap::new(),
            Granularity::Medium,
        );
        assert!(result.is_ok());
        let subs2 = result.unwrap();
        let error_report = check(get_interfacing_swarms_2(), &subs2);
        assert!(error_report.is_empty());
        assert!(is_sub_subscription(subs1.clone(), subs2));

        let result = overapprox_well_formed_sub(
            get_interfacing_swarms_2(),
            &BTreeMap::new(),
            Granularity::Fine,
        );
        assert!(result.is_ok());
        let subs2 = result.unwrap();
        let error_report = check(get_interfacing_swarms_2(), &subs2);
        assert!(error_report.is_empty());
        assert!(is_sub_subscription(subs1.clone(), subs2));

        let result = overapprox_well_formed_sub(
            get_interfacing_swarms_2(),
            &BTreeMap::new(),
            Granularity::TwoStep,
        );
        assert!(result.is_ok());
        let subs2 = result.unwrap();
        let error_report = check(get_interfacing_swarms_2(), &subs2);
        assert!(error_report.is_empty());
        assert!(is_sub_subscription(subs1.clone(), subs2));

        // Test interfacing_swarms_3
        let result = exact_well_formed_sub(get_interfacing_swarms_3(), &BTreeMap::new());
        assert!(result.is_ok());
        let subs1 = result.unwrap();
        let error_report = check(get_interfacing_swarms_3(), &subs1);
        assert!(error_report.is_empty());

        let result = overapprox_well_formed_sub(
            get_interfacing_swarms_3(),
            &BTreeMap::new(),
            Granularity::Coarse,
        );
        assert!(result.is_ok());
        let subs2 = result.unwrap();
        let error_report = check(get_interfacing_swarms_3(), &subs2);
        assert!(error_report.is_empty());
        assert!(is_sub_subscription(subs1.clone(), subs2));

        let result = overapprox_well_formed_sub(
            get_interfacing_swarms_3(),
            &BTreeMap::new(),
            Granularity::Medium,
        );
        assert!(result.is_ok());
        let subs2 = result.unwrap();
        let error_report = check(get_interfacing_swarms_3(), &subs2);
        assert!(error_report.is_empty());
        assert!(is_sub_subscription(subs1.clone(), subs2));

        let result = overapprox_well_formed_sub(
            get_interfacing_swarms_3(),
            &BTreeMap::new(),
            Granularity::Fine,
        );
        assert!(result.is_ok());
        let subs2 = result.unwrap();
        let error_report = check(get_interfacing_swarms_3(), &subs2);
        assert!(error_report.is_empty());
        assert!(is_sub_subscription(subs1.clone(), subs2));

        let result = overapprox_well_formed_sub(
            get_interfacing_swarms_3(),
            &BTreeMap::new(),
            Granularity::TwoStep,
        );
        assert!(result.is_ok());
        let subs2 = result.unwrap();
        let error_report = check(get_interfacing_swarms_3(), &subs2);
        assert!(error_report.is_empty());
        assert!(is_sub_subscription(subs1.clone(), subs2));
    }

#[test]
    fn test_well_formed_sub_1() {

        let empty = exact_well_formed_sub(InterfacingProtocols(vec![]), &BTreeMap::new());
        assert!(empty.is_ok());
        assert_eq!(empty.unwrap(), BTreeMap::new());
        // Test interfacing_swarms_4
        let result = exact_well_formed_sub(get_interfacing_swarms_4(), &BTreeMap::new());
        assert!(result.is_ok());
        let subs1 = result.unwrap();
        let error_report = check(get_interfacing_swarms_4(), &subs1);
        assert!(error_report.is_empty());
        let result = overapprox_well_formed_sub(
            get_interfacing_swarms_4(),
            &BTreeMap::new(),
            Granularity::Coarse,
        );
        assert!(result.is_ok());
        let subs2 = result.unwrap();
        let error_report = check(get_interfacing_swarms_4(), &subs2);
        assert!(error_report.is_empty());
        assert!(is_sub_subscription(subs1.clone(), subs2));

        let result = overapprox_well_formed_sub(
            get_interfacing_swarms_4(),
            &BTreeMap::new(),
            Granularity::Medium,
        );
        assert!(result.is_ok());
        let subs2 = result.unwrap();
        let error_report = check(get_interfacing_swarms_4(), &subs2);
        assert!(error_report.is_empty());
        assert!(is_sub_subscription(subs1.clone(), subs2));

        let result = overapprox_well_formed_sub(
            get_interfacing_swarms_4(),
            &BTreeMap::new(),
            Granularity::Fine,
        );
        assert!(result.is_ok());
        let subs2 = result.unwrap();
        let error_report = check(get_interfacing_swarms_4(), &subs2);
        assert!(error_report.is_empty());
        assert!(is_sub_subscription(subs1.clone(), subs2));

        let result = overapprox_well_formed_sub(
            get_interfacing_swarms_4(),
            &BTreeMap::new(),
            Granularity::TwoStep,
        );
        assert!(result.is_ok());
        let subs2 = result.unwrap();
        let error_report = check(get_interfacing_swarms_4(), &subs2);
        assert!(error_report.is_empty());
        assert!(is_sub_subscription(subs1.clone(), subs2));

        // Test interfacing_swarms_5
        let result = exact_well_formed_sub(get_interfacing_swarms_5(), &BTreeMap::new());
        assert!(result.is_ok());
        let subs1 = result.unwrap();
        let error_report = check(get_interfacing_swarms_5(), &subs1);
        assert!(error_report.is_empty());
        let result = overapprox_well_formed_sub(
            get_interfacing_swarms_5(),
            &BTreeMap::new(),
            Granularity::Coarse,
        );
        assert!(result.is_ok());
        let subs2 = result.unwrap();
        let error_report = check(get_interfacing_swarms_5(), &subs2);
        assert!(error_report.is_empty());
        assert!(is_sub_subscription(subs1.clone(), subs2));

        let result = overapprox_well_formed_sub(
            get_interfacing_swarms_5(),
            &BTreeMap::new(),
            Granularity::Medium,
        );
        assert!(result.is_ok());
        let subs2 = result.unwrap();
        let error_report = check(get_interfacing_swarms_5(), &subs2);
        assert!(error_report.is_empty());
        assert!(is_sub_subscription(subs1.clone(), subs2));

        let result = overapprox_well_formed_sub(
            get_interfacing_swarms_5(),
            &BTreeMap::new(),
            Granularity::Fine,
        );
        assert!(result.is_ok());
        let subs2 = result.unwrap();
        let error_report = check(get_interfacing_swarms_5(), &subs2);
        assert!(error_report.is_empty());
        assert!(is_sub_subscription(subs1.clone(), subs2));

        let result = overapprox_well_formed_sub(
            get_interfacing_swarms_5(),
            &BTreeMap::new(),
            Granularity::TwoStep,
        );
        assert!(result.is_ok());
        let subs2 = result.unwrap();
        let error_report = check(get_interfacing_swarms_5(), &subs2);
        assert!(error_report.is_empty());
        assert!(is_sub_subscription(subs1.clone(), subs2));
    }

#[test]
    fn test_refinement_pattern() {

        let composition = compose_protocols(get_ref_pat_protos());
        assert!(composition.is_ok());
        let protos = get_ref_pat_protos();
        let result_composition = exact_well_formed_sub(protos.clone(), &BTreeMap::new());
        assert!(result_composition.is_ok());
        let subs_composition = result_composition.unwrap();
        assert!(check(protos.clone(), &subs_composition).is_empty());
        let result_composition =
            overapprox_well_formed_sub(protos.clone(), &BTreeMap::new(), Granularity::Fine);
        assert!(result_composition.is_ok());
        let subs_composition = result_composition.unwrap();
        assert!(check(protos.clone(), &subs_composition).is_empty());
        let result_composition =
            overapprox_well_formed_sub(protos.clone(), &BTreeMap::new(), Granularity::TwoStep);
        assert!(result_composition.is_ok());
        let subs_composition = result_composition.unwrap();
        assert!(check(protos.clone(), &subs_composition).is_empty());
    }

#[test]
    fn test_extend_subs() {

        let sub_to_extend = BTreeMap::from([
            (Role::new("D"), BTreeSet::from([EventType::new("pos")])),
            (Role::new("TR"), BTreeSet::from([EventType::new("ok")])),
        ]);
        let result1 = exact_well_formed_sub(get_interfacing_swarms_2(), &sub_to_extend);
        let result2 = overapprox_well_formed_sub(
            get_interfacing_swarms_2(),
            &sub_to_extend,
            Granularity::Coarse,
        );
        assert!(result1.is_ok());
        assert!(result2.is_ok());
        let subs1 = result1.unwrap();
        let subs2 = result2.unwrap();
        assert!(check(get_interfacing_swarms_2(), &subs1).is_empty());
        assert!(check(get_interfacing_swarms_2(), &subs2).is_empty());
        assert!(subs1[&Role::new("D")].contains(&EventType::new("pos")));
        assert!(subs2[&Role::new("D")].contains(&EventType::new("pos")));
        assert!(subs1[&Role::new("TR")].contains(&EventType::new("ok")));
        assert!(subs2[&Role::new("TR")].contains(&EventType::new("ok")));

        let result2 = overapprox_well_formed_sub(
            get_interfacing_swarms_2(),
            &sub_to_extend,
            Granularity::Medium,
        );
        assert!(result2.is_ok());
        let subs2 = result2.unwrap();
        assert!(check(get_interfacing_swarms_2(), &subs2).is_empty());
        assert!(subs2[&Role::new("D")].contains(&EventType::new("pos")));
        assert!(subs2[&Role::new("TR")].contains(&EventType::new("ok")));

        let result2 = overapprox_well_formed_sub(
            get_interfacing_swarms_2(),
            &sub_to_extend,
            Granularity::Fine,
        );
        assert!(result2.is_ok());
        let subs2 = result2.unwrap();
        assert!(check(get_interfacing_swarms_2(), &subs2).is_empty());
        assert!(subs2[&Role::new("D")].contains(&EventType::new("pos")));
        assert!(subs2[&Role::new("TR")].contains(&EventType::new("ok")));
    }


#[test]
    fn test_after_not_concurrent() {
        let proto1: SwarmProtocolType =
            swarm(
                r#"{
                    "initial": "0",
                    "transitions": [
                        { "source": "0", "target": "1", "label": { "cmd": "i1", "logType": ["i1"], "role": "IR" } },
                        { "source": "1", "target": "2", "label": { "cmd": "a", "logType": ["a"], "role": "R1" } },
                        { "source": "2", "target": "3", "label": { "cmd": "b", "logType": ["b"], "role": "R1" } },
                        { "source": "3", "target": "4", "label": { "cmd": "i2", "logType": ["i2"], "role": "IR" } }
                    ]
                }"#,
            );

        let proto2: SwarmProtocolType =
            swarm(
                r#"{
                    "initial": "0",
                    "transitions": [
                        { "source": "0", "target": "1", "label": { "cmd": "i1", "logType": ["i1"], "role": "IR" } },
                        { "source": "1", "target": "2", "label": { "cmd": "c", "logType": ["c"], "role": "R2" } },
                        { "source": "2", "target": "3", "label": { "cmd": "d", "logType": ["d"], "role": "R2" } },
                        { "source": "3", "target": "4", "label": { "cmd": "i2", "logType": ["i2"], "role": "IR" } }
                    ]
                }"#,
            );

        let interfacing_swarms = InterfacingProtocols(vec![proto1, proto2]);

        let expected_after = BTreeMap::from([
            (
                EventType::new("i1"),
                BTreeSet::from([
                    EventType::new("a"),
                    EventType::new("b"),
                    EventType::new("c"),
                    EventType::new("d"),
                    EventType::new("i2"),
                ]),
            ),
            (
                EventType::new("a"),
                BTreeSet::from([EventType::new("b"), EventType::new("i2")]),
            ),
            (EventType::new("b"), BTreeSet::from([EventType::new("i2")])),
            (
                EventType::new("c"),
                BTreeSet::from([EventType::new("d"), EventType::new("i2")]),
            ),
            (EventType::new("d"), BTreeSet::from([EventType::new("i2")])),
            (EventType::new("i2"), BTreeSet::from([])),
        ]);

        let expected_concurrent = BTreeSet::from([
            unord_event_pair(EventType::new("a"), EventType::new("c")),
            unord_event_pair(EventType::new("a"), EventType::new("d")),
            unord_event_pair(EventType::new("b"), EventType::new("c")),
            unord_event_pair(EventType::new("b"), EventType::new("d")),
        ]);

        let combined_proto_info =
            combine_proto_infos(prepare_proto_infos(interfacing_swarms.clone()));

        assert_eq!(expected_after, pmap(&combined_proto_info.succeeding_events));
        assert_eq!(expected_concurrent, ppairs(&combined_proto_info.concurrent_events));

        let (composition, composition_initial) =
            compose_protocols(interfacing_swarms.clone()).unwrap();

        let after_map = after_not_concurrent(
            &composition,
            composition_initial,
            &ppairs(&combined_proto_info.concurrent_events),
        );
        assert_eq!(expected_after, after_map);
    }

#[test]
    fn test_interface() {
        let proto1: SwarmProtocolType =
            swarm(
                r#"{
                    "initial": "0",
                    "transitions": [
                        { "source": "0", "target": "1", "label": { "cmd": "i1", "logType": ["i1"], "role": "IR1" } },
                        { "source": "1", "target": "2", "label": { "cmd": "a", "logType": ["a"], "role": "R1" } }
                    ]
                }"#,
            );

        let proto2: SwarmProtocolType =
            swarm(
                r#"{
                    "initial": "0",
                    "transitions": [
                        { "source": "0", "target": "1", "label": { "cmd": "i1", "logType": ["i1"], "role": "IR1" } },
                        { "source": "1", "target": "2", "label": { "cmd": "i2", "logType": ["i2"], "role": "IR2" } }
                    ]
                }"#,
            );

        let proto3: SwarmProtocolType =
            swarm(
                r#"{
                    "initial": "0",
                    "transitions": [
                        { "source": "0", "target": "1", "label": { "cmd": "i2", "logType": ["i2"], "role": "IR2" } },
                        { "source": "1", "target": "2", "label": { "cmd": "c", "logType": ["i1"], "role": "R3" } }
                    ]
                }"#,
            );

        let interfacing_swarms = InterfacingProtocols(vec![proto1, proto2, proto3]);

        let combined_proto_info =
            combine_proto_infos(prepare_proto_infos(interfacing_swarms.clone()));

        // The IR1 not used as an interface refers to the composition of (p || proto3) where p = (proto1 || proto2)
        let expected_errors = vec!["Event type i1 appears as i1@IR1<i1> and as c@R3<i1>"];
        let mut errors = error_report_to_strings(proto_info_to_error_report(combined_proto_info));
        errors.sort();
        assert_eq!(expected_errors, errors);

        let proto1: SwarmProtocolType =
            swarm(
                r#"{
                    "initial": "0",
                    "transitions": [
                        { "source": "0", "target": "1", "label": { "cmd": "i1", "logType": ["i1"], "role": "IR1" } },
                        { "source": "1", "target": "2", "label": { "cmd": "a", "logType": ["a"], "role": "R1" } }
                    ]
                }"#,
            );

        let proto2: SwarmProtocolType =
            swarm(
                r#"{
                    "initial": "0",
                    "transitions": [
                        { "source": "0", "target": "1", "label": { "cmd": "i1", "logType": ["i1"], "role": "IR1" } },
                        { "source": "1", "target": "2", "label": { "cmd": "i2", "logType": ["i2"], "role": "IR1" } },
                        { "source": "2", "target": "3", "label": { "cmd": "i3", "logType": ["i3"], "role": "IR2" } },
                        { "source": "3", "target": "4", "label": { "cmd": "i4", "logType": ["i4"], "role": "IR2" } }
                    ]
                }"#,
            );

        let proto3: SwarmProtocolType =
            swarm(
                r#"{
                    "initial": "0",
                    "transitions": [
                        { "source": "0", "target": "1", "label": { "cmd": "i3", "logType": ["i3"], "role": "IR2" } },
                        { "source": "1", "target": "2", "label": { "cmd": "i5", "logType": ["i4"], "role": "IR2" } }
                    ]
                }"#,
            );

        let interfacing_swarms = InterfacingProtocols(vec![proto1, proto2, proto3]);

        let combined_proto_info =
            combine_proto_infos(prepare_proto_infos(interfacing_swarms.clone()));

        // The IR1 not used as an interface refers to the composition of (p || proto3) where p = (proto1 || proto2)
        let expected_errors = vec!["Event type i4 appears as i4@IR2<i4> and as i5@IR2<i4>"];
        let mut errors = error_report_to_strings(proto_info_to_error_report(combined_proto_info));
        errors.sort();
        assert_eq!(expected_errors, errors);
    }

#[test]
    fn test_joining_event_types() {
        // e_r0
        // e_ir
        let preceding_events = |range: std::ops::Range<usize>| -> BTreeSet<EventType> {
            range
                .into_iter()
                .map(|u| EventType::new(&format!("e_r{}", u)))
                .collect()
        };

        for i in 1..6 {
            let index = i as usize;
            let proto_info = swarms_to_proto_info(InterfacingProtocols(
                get_interfacing_swarms_pat_4().0[..index].to_vec(),
            ));
            if i == 1 {
                assert_eq!(pmap(&proto_info.joining_events), BTreeMap::new());
            } else {
                assert_eq!(
                    pmap(&proto_info.joining_events),
                    BTreeMap::from([(EventType::new("e_ir"), preceding_events(0..i))])
                );
            }
        }
    }

#[test]
    fn test_thinggg() {
        let error_report = proto_info_to_error_report(ProtoInfo::new_only_proto(vec![]));
        assert!(error_report.is_empty());
    }


#[test]
    fn looping_1() {

        fn proto1() -> SwarmProtocolType {
            swarm(
                r#"{
                    "initial": "0",
                    "transitions": [
                        { "source": "0", "target": "1", "label": { "cmd": "cmd_a", "logType": ["a"], "role": "R1" } },
                        { "source": "0", "target": "2", "label": { "cmd": "cmd_b", "logType": ["b"], "role": "R2" } },
                        { "source": "2", "target": "3", "label": { "cmd": "cmd_c", "logType": ["c"], "role": "R1" } },
                        { "source": "3", "target": "4", "label": { "cmd": "cmd_d", "logType": ["d"], "role": "R2" } },
                        { "source": "4", "target": "2", "label": { "cmd": "cmd_e", "logType": ["e"], "role": "R1" } }
                    ]
                }"#,
            )
        }

        // Check states that can not reach terminal state an infinitely looping event types
        let (graph, _, _) = swarm_to_graph(&proto1());
        let states_not_reaching_terminal = nodes_not_reaching_terminal(&graph);
        let state_names: Vec<String> = states_not_reaching_terminal
            .into_iter()
            .map(|n| graph.node(n).state_name().to_string())
            .collect::<Vec<_>>();
        assert_eq!(state_names, ["2", "3", "4"]);
        let proto_info = swarms_to_proto_info(InterfacingProtocols(vec![proto1()]));
        assert!(proto_info.no_errors());
        assert_eq!(
            pset(&proto_info.infinitely_looping_events)
                .into_iter()
                .map(|e| e.to_string())
                .collect::<Vec<_>>(),
            vec!["c", "d", "e"]
        );

        // Check exact well-formed subscriptions
        let sub =
            exact_well_formed_sub(InterfacingProtocols(vec![proto1()]), &BTreeMap::new())
                .unwrap();
        assert!(check(InterfacingProtocols(vec![proto1()]), &sub).is_empty());

        // Check overapprox well-formed subscriptions
        let sub =
            overapprox_well_formed_sub(InterfacingProtocols(vec![proto1()]), &BTreeMap::new(), Granularity::TwoStep)
                .unwrap();
        assert!(check(InterfacingProtocols(vec![proto1()]), &sub).is_empty());

        let sub =
            overapprox_well_formed_sub(InterfacingProtocols(vec![proto1()]), &BTreeMap::new(), Granularity::Fine)
                .unwrap();
        assert!(check(InterfacingProtocols(vec![proto1()]), &sub).is_empty());
    }

#[test]
    fn looping_2() {

        fn proto1() -> SwarmProtocolType {
            swarm(
                r#"{
                    "initial": "0",
                    "transitions": [
                        { "source": "0", "target": "1", "label": { "cmd": "cmd_a", "logType": ["a"], "role": "R1" } },
                        { "source": "0", "target": "2", "label": { "cmd": "cmd_b", "logType": ["b"], "role": "R2" } },
                        { "source": "2", "target": "3", "label": { "cmd": "cmd_c", "logType": ["c"], "role": "R3" } },
                        { "source": "3", "target": "4", "label": { "cmd": "cmd_d", "logType": ["d"], "role": "R4" } },
                        { "source": "4", "target": "2", "label": { "cmd": "cmd_e", "logType": ["e"], "role": "R5" } }
                    ]
                }"#,
            )
        }

        // Check states that can not reach terminal state an infinitely looping event types
        let (graph, _, _) = swarm_to_graph(&proto1());
        let states_not_reaching_terminal = nodes_not_reaching_terminal(&graph);
        let state_names: Vec<String> = states_not_reaching_terminal
            .into_iter()
            .map(|n| graph.node(n).state_name().to_string())
            .collect::<Vec<_>>();
        assert_eq!(state_names, ["2", "3", "4"]);
        let proto_info = swarms_to_proto_info(InterfacingProtocols(vec![proto1()]));
        assert!(proto_info.no_errors());
        assert_eq!(
            pset(&proto_info.infinitely_looping_events)
                .into_iter()
                .map(|e| e.to_string())
                .collect::<Vec<_>>(),
            vec!["c", "d", "e"]
        );

        // Check exact well-formed subscriptions
        let sub =
            exact_well_formed_sub(InterfacingProtocols(vec![proto1()]), &BTreeMap::new())
                .unwrap();
        assert!(check(InterfacingProtocols(vec![proto1()]), &sub).is_empty());

        // Check overapprox well-formed subscriptions
        let sub =
            overapprox_well_formed_sub(InterfacingProtocols(vec![proto1()]), &BTreeMap::new(), Granularity::TwoStep)
                .unwrap();
        assert!(check(InterfacingProtocols(vec![proto1()]), &sub).is_empty());

        let sub =
            overapprox_well_formed_sub(InterfacingProtocols(vec![proto1()]), &BTreeMap::new(), Granularity::Fine)
                .unwrap();
        assert!(check(InterfacingProtocols(vec![proto1()]), &sub).is_empty());
    }

#[test]
    fn looping_3() {

        fn proto1() -> SwarmProtocolType {
            swarm(
                r#"{
                    "initial": "0",
                    "transitions": [
                        { "source": "0", "target": "1", "label": { "cmd": "cmd_a", "logType": ["a"], "role": "R1" } },
                        { "source": "0", "target": "2", "label": { "cmd": "cmd_b", "logType": ["b"], "role": "R2" } },
                        { "source": "2", "target": "3", "label": { "cmd": "cmd_c", "logType": ["c"], "role": "R3" } },
                        { "source": "3", "target": "4", "label": { "cmd": "cmd_d", "logType": ["d"], "role": "R4" } },
                        { "source": "4", "target": "2", "label": { "cmd": "cmd_e", "logType": ["e"], "role": "R5" } },
                        { "source": "1", "target": "5", "label": { "cmd": "cmd_f", "logType": ["f"], "role": "R5" } },
                        { "source": "5", "target": "6", "label": { "cmd": "cmd_g", "logType": ["g"], "role": "R6" } },
                        { "source": "6", "target": "7", "label": { "cmd": "cmd_h", "logType": ["h"], "role": "R6" } },
                        { "source": "7", "target": "1", "label": { "cmd": "cmd_i", "logType": ["i"], "role": "R7" } }
                    ]
                }"#,
            )
        }

        // Check states that can not reach terminal state an infinitely looping event types
        let (graph, _, _) = swarm_to_graph(&proto1());
        let states_not_reaching_terminal = nodes_not_reaching_terminal(&graph);
        let state_names: Vec<String> = states_not_reaching_terminal
            .into_iter()
            .map(|n| graph.node(n).state_name().to_string())
            .collect::<Vec<_>>();
        assert_eq!(state_names, ["0", "1", "2", "3", "4", "5", "6", "7"]);
        let proto_info = swarms_to_proto_info(InterfacingProtocols(vec![proto1()]));
        assert!(proto_info.no_errors());
        assert_eq!(
            pset(&proto_info.infinitely_looping_events)
                .into_iter()
                .map(|e| e.to_string())
                .collect::<Vec<_>>(),
            vec!["c", "d", "e", "f", "g", "h", "i"]
        );

        // Check exact well-formed subscriptions
        let sub =
            exact_well_formed_sub(InterfacingProtocols(vec![proto1()]), &BTreeMap::new())
                .unwrap();
        assert!(check(InterfacingProtocols(vec![proto1()]), &sub).is_empty());

        // Check overapprox well-formed subscriptions
        let sub =
            overapprox_well_formed_sub(InterfacingProtocols(vec![proto1()]), &BTreeMap::new(), Granularity::TwoStep)
                .unwrap();
        assert!(check(InterfacingProtocols(vec![proto1()]), &sub).is_empty());

        let sub =
            overapprox_well_formed_sub(InterfacingProtocols(vec![proto1()]), &BTreeMap::new(), Granularity::Fine)
                .unwrap();
        assert!(check(InterfacingProtocols(vec![proto1()]), &sub).is_empty());
    }

#[test]
    fn looping_4() {

        fn proto1() -> SwarmProtocolType {
            swarm(
                r#"{
                    "initial": "0",
                    "transitions": [
                        { "source": "0", "target": "1", "label": { "cmd": "cmd_a", "logType": ["a"], "role": "R1" } },
                        { "source": "1", "target": "2", "label": { "cmd": "cmd_b", "logType": ["b"], "role": "R2" } },
                        { "source": "2", "target": "3", "label": { "cmd": "cmd_c", "logType": ["c"], "role": "R3" } },
                        { "source": "3", "target": "4", "label": { "cmd": "cmd_d", "logType": ["d"], "role": "R4" } },
                        { "source": "4", "target": "5", "label": { "cmd": "cmd_e", "logType": ["e"], "role": "R5" } },
                        { "source": "5", "target": "6", "label": { "cmd": "cmd_f", "logType": ["f"], "role": "R6" } },
                        { "source": "6", "target": "7", "label": { "cmd": "cmd_g", "logType": ["g"], "role": "R7" } },
                        { "source": "7", "target": "2", "label": { "cmd": "cmd_h", "logType": ["h"], "role": "R8" } }
                    ]
                }"#,
            )
        }

        // Check states that can not reach terminal state an infinitely looping event types
        let (graph, _, _) = swarm_to_graph(&proto1());
        let states_not_reaching_terminal = nodes_not_reaching_terminal(&graph);
        let state_names: Vec<String> = states_not_reaching_terminal
            .into_iter()
            .map(|n| graph.node(n).state_name().to_string())
            .collect::<Vec<_>>();
        assert_eq!(state_names, ["0", "1", "2", "3", "4", "5", "6", "7"]);
        let proto_info = swarms_to_proto_info(InterfacingProtocols(vec![proto1()]));
        assert!(proto_info.no_errors());
        assert_eq!(
            pset(&proto_info.infinitely_looping_events)
                .into_iter()
                .map(|e| e.to_string())
                .collect::<Vec<_>>(),
            vec!["c", "d", "e", "f", "g", "h"]
        );

        // Check exact well-formed subscriptions
        let sub =
            exact_well_formed_sub(InterfacingProtocols(vec![proto1()]), &BTreeMap::new())
                .unwrap();
        assert!(check(InterfacingProtocols(vec![proto1()]), &sub).is_empty());

        // Check overapprox well-formed subscriptions
        let sub =
            overapprox_well_formed_sub(InterfacingProtocols(vec![proto1()]), &BTreeMap::new(), Granularity::TwoStep)
                .unwrap();
        assert!(check(InterfacingProtocols(vec![proto1()]), &sub).is_empty());

        let sub =
            overapprox_well_formed_sub(InterfacingProtocols(vec![proto1()]), &BTreeMap::new(), Granularity::Fine)
                .unwrap();
        assert!(check(InterfacingProtocols(vec![proto1()]), &sub).is_empty());
    }

#[test]
    fn looping_5() {

        fn proto1() -> SwarmProtocolType {
            swarm(
                r#"{
                    "initial": "0",
                    "transitions": [
                        { "source": "0", "target": "1", "label": { "cmd": "cmd_a", "logType": ["a"], "role": "R1" } },
                        { "source": "1", "target": "2", "label": { "cmd": "cmd_b", "logType": ["b"], "role": "R2" } },
                        { "source": "2", "target": "3", "label": { "cmd": "cmd_c", "logType": ["c"], "role": "R3" } },
                        { "source": "3", "target": "0", "label": { "cmd": "cmd_d", "logType": ["d"], "role": "R4" } },
                        { "source": "0", "target": "4", "label": { "cmd": "cmd_e", "logType": ["e"], "role": "R5" } },
                        { "source": "4", "target": "5", "label": { "cmd": "cmd_f", "logType": ["f"], "role": "R6" } },
                        { "source": "5", "target": "6", "label": { "cmd": "cmd_g", "logType": ["g"], "role": "R7" } },
                        { "source": "6", "target": "0", "label": { "cmd": "cmd_h", "logType": ["h"], "role": "R8" } }
                    ]
                }"#,
            )
        }

        // Check states that can not reach terminal state an infinitely looping event types
        let (graph, _, _) = swarm_to_graph(&proto1());
        let states_not_reaching_terminal = nodes_not_reaching_terminal(&graph);
        let state_names: Vec<String> = states_not_reaching_terminal
            .into_iter()
            .map(|n| graph.node(n).state_name().to_string())
            .collect::<Vec<_>>();
        assert_eq!(state_names, ["0", "1", "2", "3", "4", "5", "6"]);
        let proto_info = swarms_to_proto_info(InterfacingProtocols(vec![proto1()]));
        assert!(proto_info.no_errors());
        assert_eq!(
            pset(&proto_info.infinitely_looping_events)
                .into_iter()
                .map(|e| e.to_string())
                .collect::<Vec<_>>(),
            vec!["a", "b", "c", "d", "e", "f", "g", "h"]
        );

        // Check exact well-formed subscriptions
        let sub =
            exact_well_formed_sub(InterfacingProtocols(vec![proto1()]), &BTreeMap::new())
                .unwrap();
        assert!(check(InterfacingProtocols(vec![proto1()]), &sub).is_empty());

        // Check overapprox well-formed subscriptions
        let sub =
            overapprox_well_formed_sub(InterfacingProtocols(vec![proto1()]), &BTreeMap::new(), Granularity::TwoStep)
                .unwrap();
        assert!(check(InterfacingProtocols(vec![proto1()]), &sub).is_empty());

        let sub =
            overapprox_well_formed_sub(InterfacingProtocols(vec![proto1()]), &BTreeMap::new(), Granularity::Fine)
                .unwrap();
        assert!(check(InterfacingProtocols(vec![proto1()]), &sub).is_empty());
    }

#[test]
    fn looping_6() {

        fn proto1() -> SwarmProtocolType {
            swarm(
                r#"{
                    "initial": "0",
                    "transitions": [
                        { "source": "0", "target": "1", "label": { "cmd": "cmd_a", "logType": ["a"], "role": "R1" } },
                        { "source": "1", "target": "0", "label": { "cmd": "cmd_b", "logType": ["b"], "role": "R2" } },
                        { "source": "1", "target": "2", "label": { "cmd": "cmd_c", "logType": ["c"], "role": "R3" } },
                        { "source": "2", "target": "3", "label": { "cmd": "cmd_d", "logType": ["d"], "role": "R4" } },
                        { "source": "3", "target": "4", "label": { "cmd": "cmd_e", "logType": ["e"], "role": "R5" } },
                        { "source": "4", "target": "0", "label": { "cmd": "cmd_f", "logType": ["f"], "role": "R6" } }
                    ]
                }"#,
            )
        }

        // Check states that can not reach terminal state an infinitely looping event types
        let (graph, _, _) = swarm_to_graph(&proto1());
        let states_not_reaching_terminal = nodes_not_reaching_terminal(&graph);
        let state_names: Vec<String> = states_not_reaching_terminal
            .into_iter()
            .map(|n| graph.node(n).state_name().to_string())
            .collect::<Vec<_>>();
        assert_eq!(state_names, ["0", "1", "2", "3", "4"]);
        let proto_info = swarms_to_proto_info(InterfacingProtocols(vec![proto1()]));
        assert!(proto_info.no_errors());
        assert_eq!(
            pset(&proto_info.infinitely_looping_events)
                .into_iter()
                .map(|e| e.to_string())
                .collect::<Vec<_>>(),
            vec!["a", "b", "c", "d", "e", "f"]
        );

        // Check exact well-formed subscriptions
        let sub =
            exact_well_formed_sub(InterfacingProtocols(vec![proto1()]), &BTreeMap::new())
                .unwrap();
        assert!(check(InterfacingProtocols(vec![proto1()]), &sub).is_empty());

        // Check overapprox well-formed subscriptions
        let sub =
            overapprox_well_formed_sub(InterfacingProtocols(vec![proto1()]), &BTreeMap::new(), Granularity::TwoStep)
                .unwrap();
        assert!(check(InterfacingProtocols(vec![proto1()]), &sub).is_empty());

        let sub =
            overapprox_well_formed_sub(InterfacingProtocols(vec![proto1()]), &BTreeMap::new(), Granularity::Fine)
                .unwrap();
        assert!(check(InterfacingProtocols(vec![proto1()]), &sub).is_empty());
    }

    fn request_deliver() -> SwarmProtocolType {
        swarm(
                r#"
                {
                    "initial": "0",
                    "transitions": [
                    { "label": { "cmd": "request", "logType": ["itemReq"], "role": "Warehouse" }, "source": "0", "target": "1" },
                    { "label": { "cmd": "bid", "logType": ["bid"], "role": "Transport" }, "source": "1", "target": "1" },
                    { "label": { "cmd": "select", "logType": ["selected"], "role": "Transport" }, "source": "1", "target": "2" },
                    { "label": { "cmd": "needGuidance", "logType": ["guidanceReq"], "role": "Transport" }, "source": "2", "target": "3" },
                    { "label": { "cmd": "giveGuidance", "logType": ["route"], "role": "BaseStation" }, "source": "3", "target": "4" },
                    { "label": { "cmd": "basicPickup", "logType": ["itemPickupB"], "role": "Transport" }, "source": "4", "target": "5" },
                    { "label": { "cmd": "smartPickup", "logType": ["itemPickupS"], "role": "Transport" }, "source": "2", "target": "5" },
                    { "label": { "cmd": "handover", "logType": ["itemHandover"], "role": "Transport" }, "source": "5", "target": "6" },
                    { "label": { "cmd": "deliver", "logType": ["itemDeliver"], "role": "Warehouse" }, "source": "6", "target": "0" }
                    ]
                }
            "#,
        )

    }

    fn press_body() -> SwarmProtocolType {
        swarm(
                r#"
                {
                    "initial": "0",
                    "transitions": [
                    { "source": "0", "target": "1", "label": { "cmd": "pickupSteelRoll", "role": "SteelTransport", "logType": ["steelRoll"] } },
                    { "source": "1", "target": "2", "label": { "cmd": "pressSteel", "role": "Stamp", "logType": ["steelParts"] } },
                    { "source": "2", "target": "0", "label": { "cmd": "assembleBody", "role": "BodyAssembler", "logType": ["partialCarBody"] } },
                    { "source": "0", "target": "3", "label": { "cmd": "carBodyDone", "role": "CarBodyChecker", "logType": ["carBody"] } }
                    ]
                }
            "#,
        )

    }

    fn paint_body() -> SwarmProtocolType {
        swarm(
                r#"
                {
                    "initial": "0",
                    "transitions": [
                    { "source": "0", "target": "1", "label": { "cmd": "carBodyDone", "role": "CarBodyChecker", "logType": ["carBody"] } },
                    { "source": "1", "target": "2", "label": { "cmd": "applyPaint", "role": "Painter", "logType": ["paintedCarBody"] } }
                    ]
            }
            "#,
        )

    }

    fn engine_installation() -> SwarmProtocolType {
        swarm(
                r#"
                {
                    "initial": "0",
                    "transitions": [
                    { "source": "0", "target": "1", "label": { "cmd": "applyPaint", "role": "Painter", "logType": ["paintedCarBody"] } },
                    { "source": "1", "target": "2", "label": { "cmd": "requestEngine", "role": "EngineInstaller", "logType": ["reqEngine"] } },
                    { "source": "2", "target": "3", "label": { "cmd": "request" , "role": "Warehouse", "logType": ["itemReq"] } },
                    { "source": "3", "target": "4", "label": { "cmd": "deliver", "role": "Warehouse", "logType": ["itemDeliver"] } },
                    { "source": "4", "target": "5", "label": { "cmd": "installEngine", "role": "EngineInstaller", "logType": ["engineInstalled"] } }
                    ]
            }
            "#,
        )

    }

    fn window_installation() -> SwarmProtocolType {
        swarm(
                r#"
                {
                    "initial": "0",
                    "transitions": [
                    { "source": "0", "target": "1", "label": { "cmd": "installEngine", "role": "EngineInstaller", "logType": ["engineInstalled"] } },
                    { "source": "1", "target": "2", "label": { "cmd": "pickupWindow", "role": "WindowInstaller", "logType": ["windowPickedUp"] } },
                    { "source": "2", "target": "1", "label": { "cmd": "installWindow", "role": "WindowInstaller", "logType": ["windowInstalled"] } },
                    { "source": "1", "target": "3", "label": { "cmd": "windowsDone", "role": "WindowInstaller", "logType": ["allWindowsInstalled"] } },
                    { "source": "3", "target": "4", "label": { "cmd": "carDone", "role": "QualityTransport", "logType": ["FinishedCar"] } }
                    ]
            }
            "#,
        )

    }

    fn wheel_installation() -> SwarmProtocolType {
        swarm(
                r#"
                {

                    "initial": "0",
                    "transitions": [
                    { "source": "0", "target": "1", "label": { "cmd": "installEngine", "role": "EngineInstaller", "logType": ["engineInstalled"] } },
                    { "source": "1", "target": "2", "label": { "cmd": "pickupWheel", "role": "WheelInstaller", "logType": ["wheelPickedUp"] } },
                    { "source": "2", "target": "1", "label": { "cmd": "installWheel", "role": "WheelInstaller", "logType": ["wheelInstalled"] } },
                    { "source": "1", "target": "3", "label": { "cmd": "wheelsDone", "role": "WheelInstaller", "logType": ["allWheelsInstalled"] } },
                    { "source": "3", "target": "4", "label": { "cmd": "carDone", "role": "QualityTransport", "logType": ["FinishedCar"] } }
                    ]
            }
            "#,
        )

    }

    

    
