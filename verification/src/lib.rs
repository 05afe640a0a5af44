//! Finds files with identical content and collapses them into a single
//! on-disk allocation by replacing duplicates with hardlinks.
//!
//! The library holds the verified core: the probabilistic content
//! fingerprint and its sampling schedule, the fingerprint cache with its
//! mergeable multimap semantics, the byte-exact equality verifier's
//! decision logic, the link-eligibility policy, the safe-replace planning,
//! and the pair enumeration of the orchestrator. The thin layer that walks
//! directories, reads files and talks to the user lives outside and hands
//! this library plain values.

pub mod cli;
pub mod dupchecks;
pub mod hashcache;
pub mod orchestrator;
pub mod replacer;
pub mod utils;
