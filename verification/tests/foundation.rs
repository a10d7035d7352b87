use machine_check::names::{EventType, Role};
use machine_check::ordset::OrdSet;
use machine_check::types::{print_log, SwarmLabel};
use machine_check::names::Command;

#[test]
fn names_compare_by_text() {
    assert_eq!(Role::new("T"), Role::new("T"));
    assert_ne!(Role::new("T"), Role::new("FL"));
    assert_eq!(Role::new("T").to_string(), "T");
}

#[test]
fn sets_are_walked_in_order() {
    let mut s: OrdSet<EventType> = OrdSet::new();
    assert!(s.insert(EventType::new("time")));
    assert!(s.insert(EventType::new("part")));
    assert!(s.insert(EventType::new("partID")));
    assert!(!s.insert(EventType::new("part")));
    assert_eq!(s.len(), 3);
    assert_eq!(s.get(0).as_str(), "part");
    assert_eq!(s.get(1).as_str(), "partID");
    assert_eq!(s.get(2).as_str(), "time");
}

#[test]
fn labels_print_as_command_role_log() {
    let l = SwarmLabel { cmd: Command::new("close"), log_type: vec![EventType::new("time"), EventType::new("time2")], role: Role::new("D") };
    assert_eq!(l.to_string(), "close@D<time,time2>");
    assert_eq!(print_log(&vec![]), "");
}
