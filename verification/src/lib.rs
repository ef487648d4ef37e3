//! A graph database core: a chained record store for variable-length data,
//! an in-memory property graph model, a VF2-style sub-graph matcher and the
//! small pieces of logic that sit around them.

pub mod bson_nesting;
pub mod gremlin;
pub mod matcher;
pub mod model;
pub mod parser;
pub mod repository;
pub mod server;
pub mod store;
