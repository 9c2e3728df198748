//! quick_proj: a verified project scanner.
//!
//! The library locates project directories (version-controlled or
//! build-tooled roots) beneath a set of configured search roots.  The
//! traversal itself is delegated to the `ignore` crate; everything the
//! scanner decides — marker detection, exclusion, nested-project
//! suppression, cross-root deduplication, ordering, and filtering — is
//! verified code with explicit contracts.

pub mod cli;
pub mod config;
pub mod launcher;
pub mod merge;
pub mod project;
pub mod scanner;
pub mod text;
