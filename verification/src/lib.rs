//! Computes a compilation order for a set of hardware-description source
//! files: each file's top-level units (modules, packages, classes) may
//! reference units defined in other files, and a downstream compiler needs
//! every unit declared before it is used. The library extracts per-file
//! define/use facts, resolves them into a file-level dependency graph with a
//! package-over-module priority rule, and emits a dependency-first order.

pub mod extract;
pub mod laws;
pub mod order;
pub mod record;
pub mod resolve;
