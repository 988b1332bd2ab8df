//! Usage statistics for a package-index mirror's access logs.
//!
//! The crate parses combined-format access-log lines with a fixed,
//! ordered-alternative grammar, classifies each request as a package
//! download, a per-package directory listing, or a full-index listing,
//! accumulates counts and first-seen transfer sizes, and finally ranks
//! the accumulated entries by descending count with a deterministic
//! tie-break. Reading, decompressing and rendering are left to callers.

pub mod keys;
pub mod order;
pub mod grammar;
pub mod aggregate;
pub mod rank;
