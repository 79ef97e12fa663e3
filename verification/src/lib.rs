//! A deterministic CPU-scheduling simulation engine.
//!
//! Given a batch of process descriptors (id, burst time, arrival time, and
//! for one mode a priority value), each simulator reproduces the timeline a
//! scheduler would produce under one of four policies — first-come-first-served,
//! shortest-job-first (non-preemptive), round-robin (preemptive with a fixed
//! quantum), and priority (non-preemptive) — and derives per-process
//! completion, waiting, and turnaround times.
//!
//! Every simulator is a pure function of its inputs plus the currently
//! selected algorithm mode; its exact result is pinned down by a
//! specification-level recursion, so re-running a simulator on the same
//! inputs yields the identical timeline and timing table.

pub mod model;
pub mod mode;
pub mod util;
pub mod fcfs;
pub mod ready;
pub mod nonpre;
pub mod rr;
pub mod laws;
