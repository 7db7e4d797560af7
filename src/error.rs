use vstd::prelude::*;
use vstd::string::StringExecFns;

verus! {

/// A failure that concerns one target of a batch control operation.
pub enum TargetError {
    /// The target string is not a network address.
    InvalidAddress { target: String, reason: String },
    /// A start was asked for a target whose loop is already running.
    AlreadyRunning { target: String },
    /// A stop was asked for a target that has no running loop.
    NotFound { target: String },
    /// The shutdown signal could not be delivered.
    SignalFailed { target: String, reason: String },
    /// The loop ended abnormally while it was awaited.
    StopFailed { target: String, reason: String },
    /// The loop did not confirm its end within the bounded wait.
    TimedOut { target: String },
}

/// The text of one target's error.
pub open spec fn error_text(e: TargetError) -> Seq<char> {
    match e {
        TargetError::InvalidAddress { target, reason } =>
            "Invalid IP "@ + target@ + ": "@ + reason@,
        TargetError::AlreadyRunning { target } =>
            "Task for IP "@ + target@ + " already running"@,
        TargetError::NotFound { target } =>
            "No task found for IP "@ + target@,
        TargetError::SignalFailed { target, reason } =>
            "Failed to send shutdown signal for IP "@ + target@ + ": "@ + reason@,
        TargetError::StopFailed { target, reason } =>
            "Failed to stop task for IP "@ + target@ + ": "@ + reason@,
        TargetError::TimedOut { target } =>
            "Task for IP "@ + target@ + " timed out"@,
    }
}

/// The texts of `errs`, each followed by the separator but the last.
pub open spec fn joined_text(errs: Seq<TargetError>) -> Seq<char>
    decreases errs.len(),
{
    if errs.len() == 0 {
        Seq::empty()
    } else if errs.len() == 1 {
        error_text(errs[0])
    } else {
        joined_text(errs.drop_last()) + "; "@ + error_text(errs.last())
    }
}

impl TargetError {
    /// The target that the error concerns.
    pub open spec fn target_spec(&self) -> String {
        match self {
            TargetError::InvalidAddress { target, .. } => *target,
            TargetError::AlreadyRunning { target } => *target,
            TargetError::NotFound { target } => *target,
            TargetError::SignalFailed { target, .. } => *target,
            TargetError::StopFailed { target, .. } => *target,
            TargetError::TimedOut { target } => *target,
        }
    }

    /// The human-readable description of the error.
    pub fn message(&self) -> (r: String)
        ensures
            r@ == error_text(*self),
    {
        match self {
            TargetError::InvalidAddress { target, reason } => {
                let mut s = String::from_str("Invalid IP ");
                s.append(target.as_str());
                s.append(": ");
                s.append(reason.as_str());
                s
            },
            TargetError::AlreadyRunning { target } => {
                let mut s = String::from_str("Task for IP ");
                s.append(target.as_str());
                s.append(" already running");
                s
            },
            TargetError::NotFound { target } => {
                let mut s = String::from_str("No task found for IP ");
                s.append(target.as_str());
                s
            },
            TargetError::SignalFailed { target, reason } => {
                let mut s = String::from_str("Failed to send shutdown signal for IP ");
                s.append(target.as_str());
                s.append(": ");
                s.append(reason.as_str());
                s
            },
            TargetError::StopFailed { target, reason } => {
                let mut s = String::from_str("Failed to stop task for IP ");
                s.append(target.as_str());
                s.append(": ");
                s.append(reason.as_str());
                s
            },
            TargetError::TimedOut { target } => {
                let mut s = String::from_str("Task for IP ");
                s.append(target.as_str());
                s.append(" timed out");
                s
            },
        }
    }
}

/// Every per-target error of one batch operation, in the order of its input.
pub struct CompositeError {
    pub errors: Vec<TargetError>,
}

impl CompositeError {
    /// All the errors' descriptions joined by `"; "`.
    pub fn message(&self) -> (r: String)
        ensures
            r@ == joined_text(self.errors@),
    {
        let mut s = String::new();
        let mut i: usize = 0;
        while i < self.errors.len()
            invariant
                i <= self.errors@.len(),
                s@ == joined_text(self.errors@.subrange(0, i as int)),
            decreases self.errors@.len() - i,
        {
            let part = self.errors[i].message();
            assert(self.errors@.subrange(0, i + 1).drop_last() =~= self.errors@.subrange(0, i as int));
            if i > 0 {
                s.append("; ");
            }
            s.append(part.as_str());
            i = i + 1;
        }
        assert(self.errors@.subrange(0, self.errors@.len() as int) =~= self.errors@);
        s
    }
}

} // verus!
