//! A work-distribution coordinator: a queue of work items handed out to
//! named workers, with per-worker completion histories kept inside a fixed
//! retention window.
//!
//! `item` holds the plain data types, `model` the mathematical model of the
//! coordinator's state and the transition each operation performs,
//! `coordinator` the executable state store proved to follow those
//! transitions, and `laws` the proofs of the ordering, uniqueness, rejection
//! and retention guarantees.

pub mod coordinator;
pub mod item;
pub mod laws;
pub mod model;
