//! A URL route map for a web-serving gateway.
//!
//! The map combines a flat exact-match table for parameter-free paths with a
//! segment trie for parameterized paths and static-file mounts. Registration
//! validates routes and detects conflicting parameter schemas; resolution
//! matches a request path (plus method/protocol metadata) to a handler
//! reference, capturing placeholder values along the way.

pub mod errors;
pub mod handler;
pub mod laws;
pub mod leaf;
pub mod paths;
pub mod route_map;
pub mod trie;
