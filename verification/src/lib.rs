//! Heuristic solvers for two bounded assignment problems worked from batch
//! records: choosing a set of catalog items that satisfies as many client
//! preference profiles as possible, and assigning skilled workers to the
//! ordered requirement slots of competing projects.
//!
//! String labels are mapped to dense integer tokens by [`interner::Interner`];
//! all set operations downstream work on tokens. The item-selection side lives
//! in [`prefs`] and [`select`]; the worker-assignment side in [`schedule`];
//! [`output`] renders an assignment into its textual layout.

pub mod interner;
pub mod output;
pub mod prefs;
pub mod schedule;
pub mod select;
pub mod timer;
