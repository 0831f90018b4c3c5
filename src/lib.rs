//! Execution core of a discrete-event signal simulator: a word arena shared
//! with sandboxed process bodies, double-buffered signal slots with wake-up
//! triggers, and the delta-cycle commit pass that settles pending writes.

pub mod config;
pub mod laws;
pub mod memory;
pub mod simulation;
