//! Audits a multi-package build: which source files a real compilation
//! visits (reconciled from intercepted compiler invocations and the
//! build tool's dependency-listing files), how each file relates to the
//! declared build targets, and where the code opts out of the language's
//! automatic safety guarantees.
//!
//! All file system work, process control and build-tool plumbing live
//! outside this crate; the modules here hold the decisions and the
//! bookkeeping, stated and proved over plain values.

pub mod text;

pub mod dep_info;

pub mod file_set;

pub mod accumulator;

pub mod classify;

pub mod scan;

pub mod args;
