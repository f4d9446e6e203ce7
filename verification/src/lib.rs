//! Routing core for a fleet of inference workers: a counted radix tree over
//! request prefixes, the worker registry, the selection policies and the
//! discovery reconciliation that feeds the registry.

pub mod counter;
pub mod tree;
pub mod tree_laws;
pub mod registry;
pub mod discovery;
pub mod policy;
pub mod probe;
pub mod forward;
pub mod config;
