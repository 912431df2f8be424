//! The random stream of a trajectory: the ChaCha generator with eight
//! rounds of the `rand_chacha` crate, drawn from through the `rand` crate.
//!
//! Nothing here is proved. Each function below makes one call into those
//! crates, and its contract states what their source shows of the result.
//! The generator itself is opaque: no contract says which value is drawn,
//! only the range it lies in.

use vstd::prelude::*;
use rand::seq::SliceRandom;
use rand::Rng;
use rand::SeedableRng;
use rand_chacha::ChaCha8Rng;

verus! {

/// `rand_chacha::ChaCha8Rng`, carried through verified code as an opaque
/// value.
#[verifier::external_type_specification]
#[verifier::external_body]
pub struct ExChaCha8Rng(ChaCha8Rng);

/// Calls `SeedableRng::seed_from_u64` of `ChaCha8Rng`: a generator whose
/// whole stream is fixed by `seed`. Nothing is claimed of the generator.
#[verifier::external_body]
pub(crate) fn seeded(seed: u64) -> (rng: ChaCha8Rng) {
    ChaCha8Rng::seed_from_u64(seed)
}

/// Calls `Rng::gen_range` on the closed range `low..=high` of `i32`.
/// The range must not be empty, or the call panics; the result lies in it.
#[verifier::external_body]
pub(crate) fn draw_i32(rng: &mut ChaCha8Rng, low: i32, high: i32) -> (r: i32)
    requires
        low <= high,
    ensures
        low <= r <= high,
{
    rng.gen_range(low..=high)
}

/// Calls `Rng::gen_range` on the half-open range `low..high` of `usize`.
/// The range must not be empty, or the call panics; the result lies in it.
#[verifier::external_body]
pub(crate) fn draw_usize(rng: &mut ChaCha8Rng, low: usize, high: usize) -> (r: usize)
    requires
        low < high,
    ensures
        low <= r < high,
{
    rng.gen_range(low..high)
}

/// Calls `SliceRandom::choose` on the slice of `values`: none for an empty
/// slice, else one of its elements, at an index drawn from the generator.
#[verifier::external_body]
pub(crate) fn choose_one(values: &Vec<u32>, rng: &mut ChaCha8Rng) -> (r: Option<u32>)
    ensures
        values@.len() == 0 ==> r is None,
        values@.len() > 0 ==> r is Some && values@.contains(r->0),
{
    values.choose(rng).copied()
}

} // verus!
