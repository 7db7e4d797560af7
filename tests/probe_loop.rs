use ping_monitor::probe::{LoopAction, LoopEvent, LoopState, ProbeLoop, ProbeOutcome};

#[test]
fn success_reports_latency() {
    let mut l = ProbeLoop::new("10.0.0.1".to_string(), 7);
    assert_eq!(l.step(LoopEvent::Tick), LoopAction::Probe { identifier: 7, sequence: 0 });
    let r = l.record(ProbeOutcome::Reply { millis: 37 }, 1_700_000_000_000);
    assert_eq!(r.status, "success");
    assert_eq!(r.duration, 37);
    assert_eq!(r.host, "10.0.0.1");
    assert_eq!(r.timestamp, 1_700_000_000_000);
}

#[test]
fn failure_reports_zero_duration() {
    let mut l = ProbeLoop::new("10.0.0.2".to_string(), 1);
    l.step(LoopEvent::Tick);
    let r = l.record(ProbeOutcome::Failure { description: "Request timeout".to_string() }, 5);
    assert_eq!(r.status, "error: Request timeout");
    assert_eq!(r.duration, 0);
    assert_eq!(l.sequence, 1);
    assert_eq!(l.state, LoopState::Running);
}

#[test]
fn no_probe_after_shutdown() {
    let mut l = ProbeLoop::new("h".to_string(), 3);
    assert_eq!(l.step(LoopEvent::Shutdown), LoopAction::Stop);
    assert_eq!(l.state, LoopState::Terminated);
    assert_eq!(l.step(LoopEvent::Tick), LoopAction::Stop);
    assert_eq!(l.step(LoopEvent::Tick), LoopAction::Stop);
    assert_eq!(l.step(LoopEvent::Shutdown), LoopAction::Stop);
}

#[test]
fn sequence_increases_and_wraps() {
    let mut l = ProbeLoop::new("h".to_string(), 9);
    let mut t: u128 = 100;
    let mut last_t: u128 = 0;
    for expect in 0u16..5 {
        assert_eq!(l.step(LoopEvent::Tick), LoopAction::Probe { identifier: 9, sequence: expect });
        let r = l.record(ProbeOutcome::Reply { millis: 1 }, t);
        assert!(r.timestamp >= last_t);
        last_t = r.timestamp;
        t += 2000;
    }
    l.sequence = u16::MAX;
    l.step(LoopEvent::Tick);
    l.record(ProbeOutcome::Reply { millis: 1 }, t);
    assert_eq!(l.sequence, 0);
}

#[test]
fn spawn_starts_running_at_zero() {
    let l = ProbeLoop::spawn("10.0.0.3".to_string());
    assert_eq!(l.target, "10.0.0.3");
    assert_eq!(l.sequence, 0);
    assert_eq!(l.state, LoopState::Running);
}
