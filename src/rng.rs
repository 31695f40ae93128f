use vstd::prelude::*;

verus! {

/// The AI's pseudo-random generator, kept opaque.
#[verifier::external_type_specification]
#[verifier::external_body]
pub struct ExRandGenerator(quad_rand::RandGenerator);

/// Relies on quad_rand's `RandGenerator::new`: a generator in its zero state.
pub assume_specification[ quad_rand::RandGenerator::new ]() -> quad_rand::RandGenerator;

/// Relies on quad_rand's `RandGenerator::srand`: reseeds the generator.
pub assume_specification[ quad_rand::RandGenerator::srand ](rng: &quad_rand::RandGenerator, seed: u64);

/// Relies on quad_rand's `RandGenerator::rand`: any `u32`.
pub assume_specification[ quad_rand::RandGenerator::rand ](rng: &quad_rand::RandGenerator) -> u32;

/// Relies on quad_rand's `gen_range(0, 2)` on `i32`: the draw scales a `u32`
/// into `[0, 1)` before truncating, so the result is 0 or 1.
#[verifier::external_body]
pub(crate) fn coin_flip(rng: &quad_rand::RandGenerator) -> (r: i32)
    ensures
        0 <= r < 2,
{
    rng.gen_range(0i32, 2i32)
}

} // verus!
