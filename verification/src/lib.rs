//! Liveness tracking for a fixed set of candidate ports.
//!
//! A worker owns a table of tracked ports with the time each was last
//! confirmed reachable. On every iteration it re-probes the entries whose age
//! has reached the time-to-live, keeps those that answer, drops those that do
//! not, and hands the owner a fresh snapshot of the live ports whenever the
//! membership changed.

pub mod entry;
pub mod handle;
pub mod laws;
pub mod table;
pub mod worker;
