//! Logic of a non-blocking dispatch benchmark: strategies submit orders to an
//! orchestrator, the orchestrator dispatches them to gateways, and every order
//! travels back the same way, stamped at each of its eight stations.
//!
//! [`handoff`] has the queues that orders are handed over with, built with one of
//! four non-blocking techniques, and [`line`] has what the contracts say of such a
//! queue; [`strategy`], [`orchestrator`] and [`gateway`] have what the threads
//! decide at each step of their loops; [`measure`], [`report`] and [`tally`] have
//! what is made of the measurements.

pub mod arith;
pub mod clock;
pub mod config;
pub mod flush;
pub mod gateway;
pub mod handoff;
pub mod heap;
pub mod line;
pub mod measure;
pub mod orchestrator;
pub mod order;
pub mod queue;
pub mod report;
pub mod rng;
pub mod schedule;
pub mod sorting;
pub mod strategy;
pub mod tally;
pub mod text;
pub mod work;
