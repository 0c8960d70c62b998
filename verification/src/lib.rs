//! Generator of dynamic-tracing scripts from a recorded native build.
//!
//! A build description (objects with their defined symbols, link targets with
//! their declared dependencies) is turned into a name-keyed target index, a
//! path-keyed object index, a transitive dependency closure for a chosen
//! target, the symbols statically linked into each target of that closure,
//! and finally a probe-script document in one of two dialects.

pub mod emit;
pub mod index;
pub mod model;
pub mod query;
pub mod resolve;
pub mod symbols;
pub mod text;
