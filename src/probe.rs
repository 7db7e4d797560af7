use vstd::prelude::*;
use vstd::string::StringExecFns;

verus! {

/// Relies on rand::random: a value drawn from the thread-local generator.
/// Nothing is known of the value.
pub assume_specification<T>[ rand::random::<T> ]() -> (r: T)
    where
        rand::distributions::Standard: rand::distributions::Distribution<T>,
;

/// Where a probe loop stands in its life.
#[derive(Clone, Copy, PartialEq, Eq, Debug)]
pub enum LoopState {
    Running,
    Terminated,
}

/// What a probe loop observed at the top of an iteration.
#[derive(Clone, Copy, PartialEq, Eq, Debug)]
pub enum LoopEvent {
    /// The interval timer elapsed.
    Tick,
    /// A shutdown signal arrived.
    Shutdown,
}

/// What a probe loop does next.
#[derive(Clone, Copy, PartialEq, Eq, Debug)]
pub enum LoopAction {
    /// Send one probe with this session identifier and sequence number.
    Probe { identifier: u16, sequence: u16 },
    /// Leave the loop; no probe follows.
    Stop,
}

/// What one probe attempt gave.
pub enum ProbeOutcome {
    /// A reply came after this many milliseconds.
    Reply { millis: u128 },
    /// No reply: unreachable, timed out or a transport error.
    Failure { description: String },
}

/// One record for the result sink.
pub struct ProbeResult {
    pub host: String,
    /// Milliseconds since the epoch at which the attempt was observed.
    pub timestamp: u128,
    /// Round trip in milliseconds; 0 when the attempt failed.
    pub duration: u128,
    /// `"success"`, or `"error: "` followed by the failure's description.
    pub status: String,
}

/// The state of the loop that probes one target.
pub struct ProbeLoop {
    pub target: String,
    /// The probe-session identifier, fixed for the loop's life.
    pub identifier: u16,
    /// The sequence number of the next attempt.
    pub sequence: u16,
    pub state: LoopState,
}

/// The sequence number that follows `s`, wrapping at the type's bound.
pub open spec fn next_sequence(s: u16) -> u16 {
    ((s as int + 1) % 0x10000) as u16
}

/// The state and action of `l` after it observed `ev`.
pub open spec fn step_spec(l: ProbeLoop, ev: LoopEvent) -> (ProbeLoop, LoopAction) {
    match l.state {
        LoopState::Terminated => (l, LoopAction::Stop),
        LoopState::Running => match ev {
            LoopEvent::Shutdown => (ProbeLoop { state: LoopState::Terminated, ..l }, LoopAction::Stop),
            LoopEvent::Tick => (l, LoopAction::Probe { identifier: l.identifier, sequence: l.sequence }),
        },
    }
}

/// The actions of `l` over the events `evs`, one for each.
pub open spec fn actions(l: ProbeLoop, evs: Seq<LoopEvent>) -> Seq<LoopAction>
    decreases evs.len(),
{
    if evs.len() == 0 {
        Seq::empty()
    } else {
        let (next, act) = step_spec(l, evs[0]);
        seq![act] + actions(next, evs.subrange(1, evs.len() as int))
    }
}

/// The status text of an attempt's outcome.
pub open spec fn status_text(o: ProbeOutcome) -> Seq<char> {
    match o {
        ProbeOutcome::Reply { .. } => "success"@,
        ProbeOutcome::Failure { description } => "error: "@ + description@,
    }
}

/// The duration that an attempt's outcome reports.
pub open spec fn duration_of(o: ProbeOutcome) -> u128 {
    match o {
        ProbeOutcome::Reply { millis } => millis,
        ProbeOutcome::Failure { .. } => 0,
    }
}

impl ProbeLoop {
    /// A running loop for `target` with the given session identifier.
    pub fn new(target: String, identifier: u16) -> (r: ProbeLoop)
        ensures
            r.target == target,
            r.identifier == identifier,
            r.sequence == 0,
            r.state == LoopState::Running,
    {
        ProbeLoop { target, identifier, sequence: 0, state: LoopState::Running }
    }

    /// A running loop for `target` with a randomly drawn session identifier.
    pub fn spawn(target: String) -> (r: ProbeLoop)
        ensures
            r.target == target,
            r.sequence == 0,
            r.state == LoopState::Running,
    {
        let identifier: u16 = rand::random::<u16>();
        ProbeLoop::new(target, identifier)
    }

    /// Reacts to one event: a shutdown ends the loop, a tick while running
    /// asks for one probe, and an ended loop asks for nothing more.
    pub fn step(&mut self, ev: LoopEvent) -> (r: LoopAction)
        ensures
            (*final(self), r) == step_spec(*old(self), ev),
    {
        match self.state {
            LoopState::Terminated => LoopAction::Stop,
            LoopState::Running => match ev {
                LoopEvent::Shutdown => {
                    self.state = LoopState::Terminated;
                    LoopAction::Stop
                },
                LoopEvent::Tick => LoopAction::Probe { identifier: self.identifier, sequence: self.sequence },
            },
        }
    }

    /// Builds the record of the attempt just made, observed at `timestamp`,
    /// and advances the sequence number.
    pub fn record(&mut self, outcome: ProbeOutcome, timestamp: u128) -> (r: ProbeResult)
        requires
            old(self).state == LoopState::Running,
        ensures
            r.host == old(self).target,
            r.timestamp == timestamp,
            r.duration == duration_of(outcome),
            r.status@ == status_text(outcome),
            *final(self) == after_record(*old(self)),
    {
        let (duration, status) = match outcome {
            ProbeOutcome::Reply { millis } => (millis, String::from_str("success")),
            ProbeOutcome::Failure { description } => {
                let mut s = String::from_str("error: ");
                s.append(description.as_str());
                (0, s)
            },
        };
        self.sequence = self.sequence.wrapping_add(1);
        ProbeResult { host: self.target.clone(), timestamp, duration, status }
    }
}

/// A loop after it recorded one attempt.
pub open spec fn after_record(l: ProbeLoop) -> ProbeLoop {
    ProbeLoop { sequence: next_sequence(l.sequence), ..l }
}

/// A loop after `n` rounds of a tick followed by the record of its attempt.
pub open spec fn after_rounds(l: ProbeLoop, n: nat) -> ProbeLoop
    decreases n,
{
    if n == 0 {
        l
    } else {
        after_record(step_spec(after_rounds(l, (n - 1) as nat), LoopEvent::Tick).0)
    }
}

/// Once a loop has observed a shutdown, no later event makes it probe.
pub proof fn lemma_no_probe_after_shutdown(l: ProbeLoop, evs: Seq<LoopEvent>)
    ensures
        forall|i: int| 0 <= i < evs.len() ==>
            #[trigger] actions(step_spec(l, LoopEvent::Shutdown).0, evs)[i] == LoopAction::Stop,
{
    let t = step_spec(l, LoopEvent::Shutdown).0;
    assert(t.state == LoopState::Terminated);
    lemma_terminated_stays(t, evs);
}

proof fn lemma_terminated_stays(t: ProbeLoop, evs: Seq<LoopEvent>)
    requires
        t.state == LoopState::Terminated,
    ensures
        actions(t, evs).len() == evs.len(),
        forall|i: int| 0 <= i < evs.len() ==> #[trigger] actions(t, evs)[i] == LoopAction::Stop,
    decreases evs.len(),
{
    if evs.len() > 0 {
        let rest = evs.subrange(1, evs.len() as int);
        lemma_terminated_stays(t, rest);
        assert forall|i: int| 0 <= i < evs.len() implies #[trigger] actions(t, evs)[i] == LoopAction::Stop by {
            if i > 0 {
                assert(actions(t, evs)[i] == actions(t, rest)[i - 1]);
            }
        };
    }
}

/// A loop that keeps running probes with its one session identifier, and
/// each round's sequence number is the one before plus one, modulo 2^16.
pub proof fn lemma_sequence_advances(l: ProbeLoop, n: nat)
    requires
        l.state == LoopState::Running,
    ensures
        after_rounds(l, n).state == LoopState::Running,
        after_rounds(l, n).identifier == l.identifier,
        after_rounds(l, n).target == l.target,
        after_rounds(l, n).sequence == (l.sequence as int + n) % 0x10000,
        step_spec(after_rounds(l, n), LoopEvent::Tick).1 == (LoopAction::Probe {
            identifier: l.identifier,
            sequence: after_rounds(l, n).sequence,
        }),
        after_rounds(l, n + 1).sequence == next_sequence(after_rounds(l, n).sequence),
    decreases n,
{
    if n > 0 {
        lemma_sequence_advances(l, (n - 1) as nat);
        let prev = after_rounds(l, (n - 1) as nat);
        assert((((prev.sequence as int + 1) % 0x10000) as u16) as int == (l.sequence as int + n) % 0x10000) by {
            assert(prev.sequence as int == (l.sequence as int + n - 1) % 0x10000);
            vstd::arithmetic::div_mod::lemma_add_mod_noop(l.sequence as int + n - 1, 1, 0x10000);
        };
    }
}

} // verus!
