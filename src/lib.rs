//! Decision logic of a parallel black-box parameter search: the shared study
//! state (parameters, recorded trials, best result, shutdown and in-flight
//! bookkeeping) and the integer side of trace scoring.

pub mod grid;
pub mod order;
pub mod streak;
pub mod study;
pub mod trace;
