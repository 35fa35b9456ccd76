//! Permuted multiply-with-carry pseudo-random number generators.
//!
//! The generators keep a small ring of fixed-width lanes plus a carry,
//! advance the state with one widening multiply per step, and derive each
//! output word from an xor/add permutation of the current lanes.  They aim
//! at speed and statistical quality, not at cryptographic security.
//!
//! * `Mwc256XXA64`: lag-3, 64-bit words, 256-bit state.
//! * `Mwc128XXA32`: lag-3, 32-bit words, 128-bit state.
//!
//! The smaller experimental variants (`Gen32`, `Gen16`, `Gen8`, `Lcg`,
//! `Xoshiro`, `PCG`) share the same construction at narrower widths and
//! exist for comparative statistical testing.

use vstd::prelude::*;

pub mod arith;
pub mod gen16;
pub mod gen8;
pub mod gen32;
pub mod mwc32;
pub mod mwc64;
pub mod sideways;

pub use crate::mwc32::Mwc128XXA32;
pub use crate::mwc64::Mwc256XXA64;

verus! {

/// Relies on the type `rand_core::Error` alone, so the fallible entry
/// points can keep the error type of the generic interface they mirror.
/// No generator of this family ever constructs one: every `Result`
/// returned here is `Ok`.
#[verifier::external_type_specification]
#[verifier::external_body]
pub struct ExRandCoreError(rand_core::Error);

} // verus!
