//! Finds the nodes of a persisted state-group forest that are no longer
//! reachable from any external reference.
//!
//! The library holds the in-memory graph model: a store of node records
//! accumulated over fetch rounds, the closure step that discovers edge
//! references pointing outside the known id set, the backward propagation
//! of the referenced mark along parent chains, and the final report of
//! unreferenced ids. Fetching rows from the backing database and writing
//! the output are left to the surrounding program.

pub mod store;
pub mod closure;
pub mod propagate;
pub mod report;
