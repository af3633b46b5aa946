//! The random bit source behind the per-row scan direction.  The
//! generator is opaque to verification: nothing is ever assumed about the
//! values it yields, so every contract in this crate holds for every
//! possible outcome.

use vstd::prelude::*;

verus! {

/// fastrand's WyRand generator, declared so that a grid can hold one.
#[verifier::external_type_specification]
#[verifier::external_body]
pub struct ExRng(fastrand::Rng);

/// Relies on fastrand::Rng::new: seeds a fresh generator from the
/// thread-local one, falling back to a fixed seed; it never fails.
#[verifier::external_body]
pub(crate) fn rng_new() -> fastrand::Rng {
    fastrand::Rng::new()
}

/// Relies on fastrand::Rng::bool: yields one random bit.  No contract: a
/// caller may not assume anything about which bit comes back.
#[verifier::external_body]
pub(crate) fn rng_bool(rng: &mut fastrand::Rng) -> bool {
    rng.bool()
}

} // verus!
