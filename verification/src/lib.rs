//! Assignment and merge engine for a multi-layer, multi-service
//! experimentation platform.
//!
//! Given a request carrying target service names and an evaluation context,
//! the engine deterministically assigns the caller to at most one variant per
//! layer, evaluates optional gating rules, and returns per service a merged
//! parameter object plus the variant ids that contributed.

use vstd::prelude::*;

pub mod applier;
pub mod assoc;
pub mod catalog;
pub mod error;
pub mod hash;
pub mod json;
pub mod layer;
pub mod manager;
pub mod merge;
pub mod rule;
pub mod strings;

verus! {

/// Number of hash buckets; every bucket range is interpreted against this
/// constant and every hashed key lands strictly below it.
pub const BUCKET_SIZE: u32 = 10000;

} // verus!
