//! A build-style task orchestrator: named tasks with dependencies, input
//! files and an optional output artifact are resolved into a dependency
//! graph, classified as fresh (skippable) or stale, and executed in
//! dependency order under a bounded level of parallelism, with the first
//! action failure surfaced while in-flight work drains.

pub mod cli;
pub mod collections;
pub mod graph;
pub mod sched;
pub mod task;
