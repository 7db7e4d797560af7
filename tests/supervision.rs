use ping_monitor::error::{CompositeError, TargetError};
use ping_monitor::registry::{list_holds, Claim, Registry};
use ping_monitor::supervisor::{stop_report, Addr, StartRequest, StopOutcome, Termination};

fn v4(a: u8, b: u8, c: u8, d: u8) -> Addr {
    Addr::V4(u32::from_be_bytes([a, b, c, d]))
}

fn request(target: &str, address: Result<Addr, &str>) -> StartRequest {
    StartRequest { target: target.to_string(), address: address.map_err(|e| e.to_string()) }
}

fn strings(xs: &[&str]) -> Vec<String> {
    xs.iter().map(|x| x.to_string()).collect()
}

fn spawn_id(_k: String, a: Addr) -> u64 {
    match a {
        Addr::V4(x) => x as u64,
        Addr::V6(x) => x as u64,
    }
}

fn running(targets: &[&str]) -> Registry<u64> {
    let mut r: Registry<u64> = Registry::new();
    let qs: Vec<StartRequest> =
        targets.iter().enumerate().map(|(i, t)| request(t, Ok(v4(10, 0, 0, i as u8 + 1)))).collect();
    assert!(r.start(&qs, spawn_id).is_ok());
    r
}

fn messages(e: &CompositeError) -> Vec<String> {
    e.errors.iter().map(|x| x.message()).collect()
}

#[test]
fn start_keeps_partial_success() {
    let mut r: Registry<u64> = Registry::new();
    let qs = vec![
        request("10.0.0.1", Ok(v4(10, 0, 0, 1))),
        request("not-an-ip", Err("invalid IP address syntax")),
        request("10.0.0.1", Ok(v4(10, 0, 0, 1))),
    ];
    let e = r.start(&qs, spawn_id).unwrap_err();
    assert_eq!(
        messages(&e),
        vec![
            "Invalid IP not-an-ip: invalid IP address syntax".to_string(),
            "Task for IP 10.0.0.1 already running".to_string(),
        ]
    );
    assert!(matches!(&e.errors[0], TargetError::InvalidAddress { target, .. } if target == "not-an-ip"));
    assert!(matches!(&e.errors[1], TargetError::AlreadyRunning { target } if target == "10.0.0.1"));
    assert_eq!(r.len(), 1);
    assert!(r.contains_key(&"10.0.0.1".to_string()));
    assert_eq!(
        e.message(),
        "Invalid IP not-an-ip: invalid IP address syntax; Task for IP 10.0.0.1 already running"
    );
}

#[test]
fn start_all_valid_is_ok() {
    let r = running(&["10.0.0.1", "10.0.0.2"]);
    assert_eq!(r.len(), 2);
}

#[test]
fn start_conflicts_with_running_target() {
    let mut r = running(&["10.0.0.1"]);
    let e = r.start(&vec![request("10.0.0.1", Ok(v4(10, 0, 0, 1)))], spawn_id).unwrap_err();
    assert_eq!(messages(&e), vec!["Task for IP 10.0.0.1 already running".to_string()]);
    assert_eq!(r.len(), 1);
}

#[test]
fn start_passes_parsed_address_to_spawn() {
    let mut r: Registry<u64> = Registry::new();
    assert!(r.start(&vec![request("::1", Ok(Addr::V6(1)))], spawn_id).is_ok());
    let taken = r.remove(&"::1".to_string());
    assert_eq!(taken, Some(1));
}

#[test]
fn insert_refuses_duplicate_key() {
    let mut r: Registry<u64> = Registry::new();
    assert!(r.insert("a".to_string(), 1));
    assert!(!r.insert("a".to_string(), 2));
    assert_eq!(r.len(), 1);
    assert_eq!(r.remove(&"a".to_string()), Some(1));
    assert_eq!(r.remove(&"a".to_string()), None);
    assert_eq!(r.len(), 0);
}

#[test]
fn pause_twice_reports_absence() {
    let mut r = running(&["A", "B"]);
    let first = r.claim(&strings(&["A"]));
    assert!(matches!(&first[0], Claim::Found { key, .. } if key == "A"));
    let second = r.claim(&strings(&["A"]));
    assert!(matches!(&second[0], Claim::Missing { key } if key == "A"));
    assert!(r.contains_key(&"B".to_string()));
    assert_eq!(r.len(), 1);
    let report = stop_report(&vec![StopOutcome::Absent { target: "A".to_string() }]).unwrap_err();
    assert_eq!(messages(&report), vec!["No task found for IP A".to_string()]);
}

#[test]
fn claim_names_a_key_once() {
    let mut r = running(&["A"]);
    let c = r.claim(&strings(&["A", "A", "Z"]));
    assert_eq!(c.len(), 3);
    assert!(matches!(&c[0], Claim::Found { .. }));
    assert!(matches!(&c[1], Claim::Missing { .. }));
    assert!(matches!(&c[2], Claim::Missing { key } if key == "Z"));
    assert_eq!(r.len(), 0);
}

#[test]
fn stop_all_except_keeps_only_named() {
    let mut r = running(&["A", "B", "C"]);
    let taken = r.claim_all_except(&strings(&["B"]));
    let mut keys: Vec<String> = taken.iter().map(|s| s.key.clone()).collect();
    keys.sort();
    assert_eq!(keys, strings(&["A", "C"]));
    assert_eq!(r.len(), 1);
    assert!(r.contains_key(&"B".to_string()));
    assert_eq!(r.keys_not_in(&vec![]), strings(&["B"]));
}

#[test]
fn stop_all_except_with_empty_registry() {
    let mut r: Registry<u64> = Registry::new();
    assert!(r.claim_all_except(&strings(&["B"])).is_empty());
    assert_eq!(r.len(), 0);
}

#[test]
fn keys_not_in_skips_allowed() {
    let r = running(&["A", "B", "C"]);
    assert_eq!(r.keys_not_in(&strings(&["A", "C", "X"])), strings(&["B"]));
}

#[test]
fn list_holds_compares_whole_strings() {
    let l = strings(&["10.0.0.1", "10.0.0.2"]);
    assert!(list_holds(&l, &"10.0.0.2".to_string()));
    assert!(!list_holds(&l, &"10.0.0".to_string()));
}

#[test]
fn timeout_reported_alone() {
    let outcomes = vec![
        StopOutcome::Signalled { target: "A".to_string(), send_error: None, termination: Termination::Confirmed },
        StopOutcome::Signalled { target: "B".to_string(), send_error: None, termination: Termination::TimedOut },
        StopOutcome::Signalled { target: "C".to_string(), send_error: None, termination: Termination::Confirmed },
    ];
    let e = stop_report(&outcomes).unwrap_err();
    assert_eq!(messages(&e), vec!["Task for IP B timed out".to_string()]);
}

#[test]
fn clean_stops_report_ok() {
    let outcomes = vec![StopOutcome::Signalled {
        target: "A".to_string(),
        send_error: None,
        termination: Termination::Confirmed,
    }];
    assert!(stop_report(&outcomes).is_ok());
    assert!(stop_report(&vec![]).is_ok());
}

#[test]
fn signal_and_stop_failures_are_joined() {
    let outcomes = vec![
        StopOutcome::Signalled {
            target: "A".to_string(),
            send_error: Some("channel closed".to_string()),
            termination: Termination::Failed { reason: "task panicked".to_string() },
        },
        StopOutcome::Absent { target: "B".to_string() },
    ];
    let e = stop_report(&outcomes).unwrap_err();
    assert_eq!(
        e.message(),
        "Failed to send shutdown signal for IP A: channel closed; Failed to stop task for IP A: task panicked; No task found for IP B"
    );
}

#[test]
fn composite_of_one_has_no_separator() {
    let e = CompositeError { errors: vec![TargetError::TimedOut { target: "x".to_string() }] };
    assert_eq!(e.message(), "Task for IP x timed out");
}
