//! Core of a workspace manager that organizes cloned repositories into a
//! `root/host/owner/name` directory hierarchy derived from their remote URL,
//! and maintains a small persisted index of registered root directories.
//!
//! Filesystem state — which paths exist, what a directory holds, what the
//! configuration file says — is passed in as plain values, so every
//! decision the manager makes is stated and proved; the one outside call
//! kept inside the library resolves a joined path to its absolute form.

pub mod configure;
pub mod errors;
pub mod find_path;
pub mod git;
pub mod json;
pub mod paths;
pub mod walk;
