//! Canonicalization and content-addressable diff engine for a corpus of
//! course quiz content (courses, questions, answer options, evaluations).
//!
//! The library computes a stable content digest per entity, normalizes a
//! course's nested data into a canonical form (trimmed text, deduplicated
//! and totally ordered children), validates structural invariants, and
//! diffs the canonical local corpus against a remote digest snapshot to
//! produce a sync plan. All file, network and process side effects live
//! outside this crate.

pub mod strings;
pub mod hash;
pub mod ids;
pub mod data;
pub mod canon;
pub mod snapshot;
pub mod diff;
pub mod laws;
