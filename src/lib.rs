//! A schema-driven store of interned values, fact relations and identifier
//! counters, with a merge that unions independently numbered stores.

pub mod cell;
pub mod codec;
pub mod interning;
pub mod laws;
pub mod manager;
pub mod merge;
pub mod relation;
pub mod schema;
pub mod tables;
