//! A search-query compiler, column projector and tag-relationship resolver
//! for a tagged-image collection.
//!
//! The compiler turns a boolean filter expression into parameterized query
//! text plus an ordered list of bound values; the projector folds fetched
//! rows into ordered output mappings; the resolver canonicalizes tag aliases
//! and closes tag implications transitively. Around that core stand the
//! audit-log query builder, the binary wire format for search-result
//! streams, and the key, token and image-record types with their hex and
//! digest helpers.

pub mod auth;
pub mod hashing;
pub mod images;
pub mod logs;
pub mod project;
pub mod search;
pub mod tags;
pub mod text;
pub mod wire;
