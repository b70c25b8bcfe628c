//! Typed record storage over an ordered key-value engine, with a registry and
//! a runtime model for stored procedures that call back into the records.
pub mod order;
pub mod engine;
pub mod keyspace;
pub mod store;
pub mod laws;
pub mod wire;
pub mod host;
pub mod registry;
pub mod service;
