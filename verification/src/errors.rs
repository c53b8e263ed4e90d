//! Error kinds: fatal registration-time faults and per-request resolution
//! failures.

use vstd::prelude::*;

verus! {

/// A registration-time fault, fatal to startup: the batch is aborted and the
/// router must be rebuilt.
#[derive(Debug, Clone, Copy, PartialEq, Eq, Structural)]
pub enum ConfigError {
    /// Two routes registered at the same path declared different parameter
    /// schemas.
    ConflictingPathParameters,
}

/// A per-request resolution failure, returned to the caller for translation
/// into a protocol-level response.
#[derive(Debug, Clone, Copy, PartialEq, Eq, Structural)]
pub enum ResolveError {
    /// No plain entry, trie path or static-mount fallback matches the path,
    /// or the matched leaf has no handler of the requested protocol kind.
    NotFound,
    /// The path matches but the requested HTTP verb has no handler.
    MethodNotAllowed,
}

} // verus!
