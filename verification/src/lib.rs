//! Discovers the transitive compilation dependencies of a set of C source
//! entrypoints by statically scanning quoted local file-inclusion directives,
//! and synthesizes build-rule text (compiler invocations, per-executable
//! dependency lists, and clean targets) from the resulting dependency graph.

pub mod strutil;
pub mod maker;
pub mod utilities;
pub mod traversal;
