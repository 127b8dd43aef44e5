//! Assigns a fixed number of interchangeable beds to guest stays, filling
//! each bed in turn with the chain of stays that hosts the most guests.

pub mod types;
pub mod path;
pub mod graph;
pub mod schedule;
pub mod laws;
