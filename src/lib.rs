//! Hellman time-memory trade-off tables over a 38-bit integer domain,
//! with SHA-256 as the one-way function.
use vstd::prelude::*;

pub mod chain;
pub mod plan;
pub mod reduction;
pub mod table;
pub mod text;

verus! {

} // verus!
