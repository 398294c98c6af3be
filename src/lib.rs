//! A barrier-synchronised parallel sort-merge engine, together with a few
//! small helpers for interpreting the results of C library calls.
//!
//! The verified core is the partition planner (`plan`), the per-partition
//! sort (`sort`), the k-way merge (`merge`), the coordinator's run put
//! together from them (`coordinator`) and the state machine of a reusable
//! barrier (`barrier`). Running workers on threads and blocking on a
//! condition variable is left to the caller, who drives the barrier through
//! `barrier::BarrierState`. `sys` holds the C library helpers.
pub mod barrier;
pub mod coordinator;
pub mod error;
pub mod merge;
pub mod plan;
pub mod sort;
pub mod sys;
