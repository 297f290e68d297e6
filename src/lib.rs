//! The object graph of a small object-calculus machine: vertices, labeled
//! edges, the binding engine that keeps parent and copy edges in step with
//! attribute edges, the resolver, and the consistency checker.
pub mod model;
pub mod universe;
pub mod laws;
