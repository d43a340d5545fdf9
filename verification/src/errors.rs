//! Error taxonomy of the library.
//!
//! Every failure a library function can report is one of these variants; each
//! function's contract says exactly on which inputs each variant comes.

use vstd::prelude::*;

verus! {

/// A remote URL could not be turned into a repository location.
#[derive(Debug, Clone, Copy, PartialEq, Eq, Structural)]
pub enum ParseError {
    /// The URL text is not a well-formed remote URL.
    Unparsable,
    /// The URL has no host, or an empty one.
    MissingHost,
    /// The URL has no owner segment, or an empty one.
    MissingOwner,
}

/// Mapping a location to a destination path failed.
#[derive(Debug, Clone, Copy, PartialEq, Eq, Structural)]
pub enum ResolveError {
    /// The URL could not be parsed; carries the reason.
    Parse(ParseError),
    /// Absolute-path resolution failed (the working directory was not
    /// available or not representable).
    Io,
}

/// The collision search ran out of attempts.
#[derive(Debug, Clone, Copy, PartialEq, Eq, Structural)]
pub enum FindError {
    /// Every candidate up to the attempt cap was occupied.
    Exhausted,
}

/// Walking a root's three-level hierarchy failed.
#[derive(Debug, Clone, Copy, PartialEq, Eq, Structural)]
pub enum WalkError {
    /// The root, or a directory reached during the walk, cannot be listed.
    Unreadable,
}

/// The configuration text could not be loaded.
#[derive(Debug, Clone, Copy, PartialEq, Eq, Structural)]
pub enum ConfigError {
    /// The configuration file is absent.
    NotFound,
    /// The content is not a valid configuration document.
    Malformed,
}

/// A mutation of the configuration store was refused.
#[derive(Debug, Clone, Copy, PartialEq, Eq, Structural)]
pub enum StoreError {
    /// The named field is not a field of the configuration.
    UnknownField,
    /// The path registered as a root exists but is not a directory.
    NotADirectory,
}

} // verus!
