//! Supervision of per-target probe loops: a registry of running loops keyed
//! by target, the batch control operations over it, and the state machine
//! that each probe loop follows.

pub mod error;
pub mod probe;
pub mod registry;
pub mod supervisor;
