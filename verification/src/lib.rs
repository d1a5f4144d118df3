use vstd::prelude::*;

pub mod change;
pub mod dep;
pub mod depends;
pub mod entity;
pub mod errors;
pub mod files;
pub mod filespec;
pub mod hashing;
pub mod ids;
pub mod interval;
pub mod languages;
pub mod resolution;
pub mod span;
pub mod store;
pub mod sparse;
pub mod strutil;
pub mod tagging;

verus! {

/// Width in bytes of every digest in the model.
pub const DIGEST_LEN: usize = 20;

} // verus!
