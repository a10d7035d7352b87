use machine_check::composition::composition_swarm::{check, Error};
use machine_check::composition::composition_types::{InterfacingProtocols, Subscriptions, SwarmProtocolType};
use machine_check::names::{Command, EventType, Role, State};
use machine_check::ordmap::OrdMap;
use machine_check::ordset::OrdSet;
use machine_check::types::{ProtocolType, SwarmLabel, Transition};

fn swarm(json: &str) -> SwarmProtocolType {
    let v: serde_json::Value = serde_json::from_str(json).unwrap();
    let transitions = v["transitions"]
        .as_array()
        .unwrap()
        .iter()
        .map(|t| Transition {
            label: SwarmLabel {
                cmd: Command::new(t["label"]["cmd"].as_str().unwrap()),
                log_type: t["label"]["logType"].as_array().unwrap().iter().map(|e| EventType::new(e.as_str().unwrap())).collect(),
                role: Role::new(t["label"]["role"].as_str().unwrap()),
            },
            source: State::new(t["source"].as_str().unwrap()),
            target: State::new(t["target"].as_str().unwrap()),
        })
        .collect();
    ProtocolType { initial: State::new(v["initial"].as_str().unwrap()), transitions }
}

fn subscriptions(json: &str) -> Subscriptions {
    let v: serde_json::Value = serde_json::from_str(json).unwrap();
    let mut subs: Subscriptions = OrdMap::new();
    for (role, events) in v.as_object().unwrap() {
        let mut set: OrdSet<EventType> = OrdSet::new();
        for e in events.as_array().unwrap() {
            set.insert(EventType::new(e.as_str().unwrap()));
        }
        subs.insert(Role::new(role), set);
    }
    subs
}

fn get_proto1() -> SwarmProtocolType {
    swarm(
        r#"{
            "initial": "0",
            "transitions": [
                { "source": "0", "target": "1", "label": { "cmd": "request", "logType": ["partID"], "role": "T" } },
                { "source": "1", "target": "2", "label": { "cmd": "get", "logType": ["pos"], "role": "FL" } },
                { "source": "2", "target": "0", "label": { "cmd": "deliver", "logType": ["part"], "role": "T" } },
                { "source": "0", "target": "3", "label": { "cmd": "close", "logType": ["time"], "role": "D" } }
            ]
        }"#,
    )
}

fn report_strings(report: machine_check::composition::composition_swarm::ErrorReport) -> Vec<String> {
    let mut out = vec![];
    for (g, es) in report.errors() {
        for e in es.iter() {
            out.push(Error::convert(&g, e));
        }
    }
    out
}

#[test]
fn warehouse_is_well_formed_for_its_subscription() {
    let subs = subscriptions(
        r#"{
            "T": ["partID", "part", "pos", "time"],
            "FL": ["partID", "pos", "time"],
            "D": ["partID", "part", "time"]
        }"#,
    );
    let report = check(InterfacingProtocols(vec![get_proto1()]), &subs);
    assert_eq!(report_strings(report), Vec::<String>::new());
}

#[test]
fn warehouse_with_empty_subscription_has_findings() {
    let subs = subscriptions(r#"{}"#);
    let report = check(InterfacingProtocols(vec![get_proto1()]), &subs);
    let mut errors = report_strings(report);
    errors.sort();
    let mut expected = vec![
        "active role does not subscribe to any of its emitted event types in transition (0)--[close@D<time>]-->(3)",
        "active role does not subscribe to any of its emitted event types in transition (0)--[request@T<partID>]-->(1)",
        "active role does not subscribe to any of its emitted event types in transition (1)--[get@FL<pos>]-->(2)",
        "active role does not subscribe to any of its emitted event types in transition (2)--[deliver@T<part>]-->(0)",
        "subsequently active role D does not subscribe to events in transition (2)--[deliver@T<part>]-->(0)",
        "subsequently active role FL does not subscribe to events in transition (0)--[request@T<partID>]-->(1)",
        "subsequently active role T does not subscribe to events in transition (1)--[get@FL<pos>]-->(2)",
        "subsequently active role T does not subscribe to events in transition (2)--[deliver@T<part>]-->(0)",
    ];
    expected.sort();
    assert_eq!(errors, expected);
}
