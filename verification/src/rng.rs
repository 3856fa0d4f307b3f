use vstd::prelude::*;

verus! {

#[verifier::external_type_specification]
#[verifier::external_body]
pub struct ExThreadRng(rand::rngs::ThreadRng);

/// Relies on `rand::rng`: a handle to the thread-local random generator.
/// Nothing is assumed of the values it will produce.
#[verifier::external_body]
pub(crate) fn fresh_rng() -> rand::rngs::ThreadRng {
    rand::rng()
}

/// Relies on `rand::RngExt::random::<bool>`: one randomly drawn boolean.
/// Nothing is promised of its value; every caller must be correct for
/// either outcome.
#[verifier::external_body]
pub(crate) fn coin(rng: &mut rand::rngs::ThreadRng) -> bool {
    <rand::rngs::ThreadRng as rand::RngExt>::random::<bool>(rng)
}

} // verus!
