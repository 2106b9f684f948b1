//! A discrete-time multi-level feedback queue scheduler.
pub mod mlfq;
