//! Deterministic-simulation workload and invariant checks for a durable task
//! scheduler, its adapter outbox and its event log.
#![allow(unused_imports)]

pub mod clock;
pub mod eventlog;
pub mod fakes;
pub mod filename;
pub mod findings;
pub mod json;
pub mod litter;
pub mod message;
pub mod outbox;
pub mod outcome;
pub mod prng;
pub mod scenario;
pub mod schedule;
pub mod scheduler;
pub mod script;
pub mod service;
pub mod text;
pub mod workload;
