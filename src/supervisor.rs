use vstd::prelude::*;
use crate::error::{CompositeError, TargetError};
use crate::registry::{named, Registry};

verus! {

/// A network address, as the numbers it is made of.
#[derive(Clone, Copy, PartialEq, Eq, Debug)]
pub enum Addr {
    V4(u32),
    V6(u128),
}

/// One target of a start request, with what parsing its string gave.
pub struct StartRequest {
    pub target: String,
    pub address: Result<Addr, String>,
}

/// What a start request yields for one target, given the keys that are
/// registered when its turn comes.
pub open spec fn start_error(keys: Set<Seq<char>>, q: StartRequest) -> Option<TargetError> {
    match q.address {
        Err(reason) => Some(TargetError::InvalidAddress { target: q.target, reason }),
        Ok(_) => if keys.contains(q.target@) {
            Some(TargetError::AlreadyRunning { target: q.target })
        } else {
            None
        },
    }
}

/// The keys registered after a start of `qs` over the keys `keys`.
pub open spec fn started_keys(keys: Set<Seq<char>>, qs: Seq<StartRequest>) -> Set<Seq<char>>
    decreases qs.len(),
{
    if qs.len() == 0 {
        keys
    } else {
        let prev = started_keys(keys, qs.drop_last());
        if start_error(prev, qs.last()) is None {
            prev.insert(qs.last().target@)
        } else {
            prev
        }
    }
}

/// The errors of a start of `qs` over the keys `keys`, in the order of `qs`.
pub open spec fn start_errors(keys: Set<Seq<char>>, qs: Seq<StartRequest>) -> Seq<TargetError>
    decreases qs.len(),
{
    if qs.len() == 0 {
        Seq::empty()
    } else {
        let prev = start_errors(keys, qs.drop_last());
        match start_error(started_keys(keys, qs.drop_last()), qs.last()) {
            Some(e) => prev.push(e),
            None => prev,
        }
    }
}

/// `e` is what `spawn` gave for one admitted request of `qs` for key `k`.
pub open spec fn spawned_for<E, F: Fn(String, Addr) -> E>(
    spawn: F,
    qs: Seq<StartRequest>,
    k: Seq<char>,
    e: E,
) -> bool {
    exists|i: int|
        0 <= i < qs.len() && (#[trigger] qs[i]).target@ == k && match qs[i].address {
            Ok(a) => call_ensures(spawn, (qs[i].target, a), e),
            Err(_) => false,
        }
}

/// `Ok` when `errors` is empty, otherwise the composite of them all.
pub open spec fn outcome_of(errors: Seq<TargetError>, r: Result<(), CompositeError>) -> bool {
    match r {
        Ok(_) => errors.len() == 0,
        Err(c) => errors.len() > 0 && c.errors@ == errors,
    }
}

fn finish(errors: Vec<TargetError>) -> (r: Result<(), CompositeError>)
    ensures
        outcome_of(errors@, r),
{
    if errors.len() == 0 {
        Ok(())
    } else {
        Err(CompositeError { errors })
    }
}

/// How the wait for a signalled loop's end came out.
pub enum Termination {
    /// The loop reported its end within the bound.
    Confirmed,
    /// The loop ended abnormally.
    Failed { reason: String },
    /// The bound passed before the loop reported its end.
    TimedOut,
}

/// What stopping one target came to.
pub enum StopOutcome {
    /// The target had no running loop.
    Absent { target: String },
    /// The target's entry was taken out and its loop signalled and awaited.
    Signalled { target: String, send_error: Option<String>, termination: Termination },
}

/// The errors that one stop outcome gives, in order: a failed signal first,
/// then what the wait gave.
pub open spec fn stop_errors(o: StopOutcome) -> Seq<TargetError> {
    match o {
        StopOutcome::Absent { target } => seq![TargetError::NotFound { target }],
        StopOutcome::Signalled { target, send_error, termination } => {
            let sent = match send_error {
                Some(reason) => seq![TargetError::SignalFailed { target, reason }],
                None => Seq::empty(),
            };
            let waited = match termination {
                Termination::Confirmed => Seq::empty(),
                Termination::Failed { reason } => seq![TargetError::StopFailed { target, reason }],
                Termination::TimedOut => seq![TargetError::TimedOut { target }],
            };
            sent + waited
        },
    }
}

/// The errors of all of `os`, in their order.
pub open spec fn report_errors(os: Seq<StopOutcome>) -> Seq<TargetError>
    decreases os.len(),
{
    if os.len() == 0 {
        Seq::empty()
    } else {
        report_errors(os.drop_last()) + stop_errors(os.last())
    }
}

fn push_stop_errors(errors: &mut Vec<TargetError>, o: &StopOutcome)
    ensures
        final(errors)@ == old(errors)@ + stop_errors(*o),
{
    match o {
        StopOutcome::Absent { target } => {
            errors.push(TargetError::NotFound { target: target.clone() });
            assert(final(errors)@ =~= old(errors)@ + stop_errors(*o));
        },
        StopOutcome::Signalled { target, send_error, termination } => {
            let ghost mid = errors@;
            match send_error {
                Some(reason) => {
                    errors.push(TargetError::SignalFailed { target: target.clone(), reason: reason.clone() });
                },
                None => {},
            }
            match termination {
                Termination::Confirmed => {},
                Termination::Failed { reason } => {
                    errors.push(TargetError::StopFailed { target: target.clone(), reason: reason.clone() });
                },
                Termination::TimedOut => {
                    errors.push(TargetError::TimedOut { target: target.clone() });
                },
            }
            assert(errors@ =~= old(errors)@ + stop_errors(*o));
        },
    }
}

/// The result of a pause or stop-all-except call, from what stopping each
/// of its targets came to.
pub fn stop_report(outcomes: &Vec<StopOutcome>) -> (r: Result<(), CompositeError>)
    ensures
        outcome_of(report_errors(outcomes@), r),
{
    let mut errors: Vec<TargetError> = Vec::new();
    let mut i: usize = 0;
    while i < outcomes.len()
        invariant
            i <= outcomes@.len(),
            errors@ == report_errors(outcomes@.subrange(0, i as int)),
        decreases outcomes@.len() - i,
    {
        push_stop_errors(&mut errors, &outcomes[i]);
        proof {
            let next = outcomes@.subrange(0, i + 1);
            assert(next.drop_last() =~= outcomes@.subrange(0, i as int));
        }
        i = i + 1;
    }
    proof { assert(outcomes@.subrange(0, outcomes@.len() as int) =~= outcomes@); }
    finish(errors)
}

impl<E> Registry<E> {
    /// Starts a loop, through `spawn`, for each request whose address parsed
    /// and whose target is not running yet, in order. Every other request
    /// gives an error; the targets that were started stay registered.
    pub fn start<F: Fn(String, Addr) -> E>(&mut self, requests: &Vec<StartRequest>, spawn: F) -> (r: Result<(), CompositeError>)
        requires
            old(self).wf(),
            forall|k: String, a: Addr| spawn.requires((k, a)),
        ensures
            final(self).wf(),
            final(self)@.dom() == started_keys(old(self)@.dom(), requests@),
            forall|k: Seq<char>| #[trigger] old(self)@.contains_key(k) ==> final(self)@[k] == old(self)@[k],
            forall|k: Seq<char>| #[trigger] final(self)@.contains_key(k) && !old(self)@.contains_key(k)
                ==> spawned_for(spawn, requests@, k, final(self)@[k]),
            outcome_of(start_errors(old(self)@.dom(), requests@), r),
    {
        let ghost start = self@;
        let mut errors: Vec<TargetError> = Vec::new();
        let mut i: usize = 0;
        while i < requests.len()
            invariant
                self.wf(),
                i <= requests@.len(),
                forall|k: String, a: Addr| spawn.requires((k, a)),
                self@.dom() == started_keys(start.dom(), requests@.subrange(0, i as int)),
                errors@ == start_errors(start.dom(), requests@.subrange(0, i as int)),
                forall|k: Seq<char>| #[trigger] start.contains_key(k) ==> self@.contains_key(k) && self@[k] == start[k],
                forall|k: Seq<char>| #[trigger] self@.contains_key(k) && !start.contains_key(k)
                    ==> spawned_for(spawn, requests@.subrange(0, i as int), k, self@[k]),
            decreases requests@.len() - i,
        {
            let ghost pre = requests@.subrange(0, i as int);
            let ghost next = requests@.subrange(0, i + 1);
            proof {
                assert(next.drop_last() =~= pre);
                assert(next.last() == requests@[i as int]);
            }
            let q = &requests[i];
            match &q.address {
                Err(reason) => {
                    errors.push(TargetError::InvalidAddress { target: q.target.clone(), reason: reason.clone() });
                },
                Ok(a) => {
                    if self.contains_key(&q.target) {
                        errors.push(TargetError::AlreadyRunning { target: q.target.clone() });
                    } else {
                        let addr = *a;
                        let entry = spawn(q.target.clone(), addr);
                        let ghost before = self@;
                        self.insert(q.target.clone(), entry);
                        proof {
                            assert forall|k: Seq<char>| #[trigger] self@.contains_key(k) && !start.contains_key(k)
                                implies spawned_for(spawn, next, k, self@[k]) by {
                                if k == q.target@ {
                                    assert(next[i as int] == *q);
                                } else {
                                    let j = choose|j: int| 0 <= j < pre.len() && (#[trigger] pre[j]).target@ == k
                                        && match pre[j].address {
                                            Ok(a) => call_ensures(spawn, (pre[j].target, a), before[k]),
                                            Err(_) => false,
                                        };
                                    assert(next[j] == pre[j]);
                                }
                            };
                        }
                    }
                },
            }
            i = i + 1;
        }
        proof { assert(requests@.subrange(0, requests@.len() as int) =~= requests@); }
        finish(errors)
    }
}

/// The outcome of stopping a target that was not running.
pub open spec fn absent(k: String) -> StopOutcome {
    StopOutcome::Absent { target: k }
}

/// The error of a stop request for a target that was not running.
pub open spec fn not_found(k: String) -> TargetError {
    TargetError::NotFound { target: k }
}

/// Pausing the same targets twice in a row: the second pause finds none of
/// them, reports one absence error for each, and changes nothing; targets
/// that were not named keep their entries through both.
pub proof fn lemma_pause_twice<E>(m: Map<Seq<char>, E>, keys: Seq<String>)
    ensures
        ({
            let first = m.remove_keys(named(keys));
            &&& forall|i: int| 0 <= i < keys.len() ==> !first.contains_key((#[trigger] keys[i])@)
            &&& first.remove_keys(named(keys)) == first
            &&& report_errors(keys.map_values(|k: String| absent(k)))
                == keys.map_values(|k: String| not_found(k))
            &&& forall|k: Seq<char>| !named(keys).contains(k) ==>
                (#[trigger] first.contains_key(k) <==> m.contains_key(k))
                && (m.contains_key(k) ==> first[k] == m[k])
        }),
{
    let first = m.remove_keys(named(keys));
    assert forall|i: int| 0 <= i < keys.len() implies !first.contains_key((#[trigger] keys[i])@) by {
        assert(named(keys).contains(keys[i]@));
    };
    assert(first.remove_keys(named(keys)) =~= first);
    lemma_absent_report(keys);
}

proof fn lemma_absent_report(keys: Seq<String>)
    ensures
        report_errors(keys.map_values(|k: String| absent(k))) == keys.map_values(|k: String| not_found(k)),
    decreases keys.len(),
{
    let os = keys.map_values(|k: String| absent(k));
    if keys.len() > 0 {
        lemma_absent_report(keys.drop_last());
        assert(os.drop_last() =~= keys.drop_last().map_values(|k: String| absent(k)));
        assert(keys.map_values(|k: String| not_found(k)) =~= keys.drop_last().map_values(|k: String| not_found(k)).push(not_found(keys.last())));
        assert(stop_errors(os.last()) =~= seq![not_found(keys.last())]);
    } else {
        assert(keys.map_values(|k: String| not_found(k)) =~= Seq::<TargetError>::empty());
    }
}

/// Whether `o` is a target that was signalled and confirmed its end.
pub open spec fn stopped_cleanly(o: StopOutcome) -> bool {
    match o {
        StopOutcome::Signalled { send_error: None, termination: Termination::Confirmed, .. } => true,
        _ => false,
    }
}

/// One target whose loop outlived the bounded wait, among others that
/// stopped cleanly: the call reports that target's timeout and nothing else.
pub proof fn lemma_timeout_isolated(os: Seq<StopOutcome>, i: int, target: String)
    requires
        0 <= i < os.len(),
        os[i] == (StopOutcome::Signalled { target, send_error: None, termination: Termination::TimedOut }),
        forall|j: int| 0 <= j < os.len() && j != i ==> stopped_cleanly(#[trigger] os[j]),
    ensures
        report_errors(os) == seq![TargetError::TimedOut { target }],
{
    lemma_clean_prefix(os.subrange(0, i));
    lemma_report_split(os, i);
    lemma_report_split(os.subrange(i, os.len() as int), 1);
    lemma_clean_prefix(os.subrange(i + 1, os.len() as int));
    assert(os.subrange(i, os.len() as int).subrange(1, os.len() - i) =~= os.subrange(i + 1, os.len() as int));
    assert(os.subrange(i, os.len() as int).subrange(0, 1) =~= seq![os[i]]);
    assert(seq![os[i]].drop_last() =~= Seq::<StopOutcome>::empty());
    assert(report_errors(seq![os[i]]) == report_errors(seq![os[i]].drop_last()) + stop_errors(os[i]));
    assert(stop_errors(os[i]) =~= seq![TargetError::TimedOut { target }]);
    assert(report_errors(seq![os[i]]) =~= seq![TargetError::TimedOut { target }]);
    assert(report_errors(os) =~= seq![TargetError::TimedOut { target }]);
}

proof fn lemma_clean_prefix(os: Seq<StopOutcome>)
    requires
        forall|j: int| 0 <= j < os.len() ==> stopped_cleanly(#[trigger] os[j]),
    ensures
        report_errors(os) == Seq::<TargetError>::empty(),
    decreases os.len(),
{
    if os.len() > 0 {
        lemma_clean_prefix(os.drop_last());
        assert(stopped_cleanly(os[os.len() - 1]));
        assert(stop_errors(os.last()) =~= Seq::<TargetError>::empty());
        assert(report_errors(os) =~= Seq::<TargetError>::empty());
    }
}

proof fn lemma_report_split(os: Seq<StopOutcome>, n: int)
    requires
        0 <= n <= os.len(),
    ensures
        report_errors(os) == report_errors(os.subrange(0, n)) + report_errors(os.subrange(n, os.len() as int)),
    decreases os.len() - n,
{
    if n == os.len() {
        assert(os.subrange(0, n) =~= os);
        assert(os.subrange(n, os.len() as int) =~= Seq::<StopOutcome>::empty());
        assert(report_errors(os) + Seq::<TargetError>::empty() =~= report_errors(os));
    } else {
        lemma_report_split(os.drop_last(), n);
        let rest = os.subrange(n, os.len() as int);
        assert(os.drop_last().subrange(0, n) =~= os.subrange(0, n));
        assert(os.drop_last().subrange(n, os.len() - 1) =~= rest.drop_last());
        assert(rest.last() == os.last());
        assert(report_errors(os) =~= report_errors(os.subrange(0, n)) + report_errors(rest));
    }
}

} // verus!
