//! Where the generator's draws come from.

use vstd::prelude::*;

verus! {

/// A source of draws for the generator.
///
/// Nothing is asked of a draw: the generator brings each one into the range it
/// needs, so a source may be a true generator, a seeded one, or a fixed list.
pub trait RandomSource {
    /// The next draw.
    fn next_u64(&mut self) -> u64;
}

/// The random number generator that each thread has of its own, seeded by the
/// system.
pub struct ThreadRandom;

/// One draw from `rand::random::<u64>()`, which asks the thread's generator for
/// 64 bits. Nothing is claimed of the value.
#[verifier::external_body]
fn thread_draw() -> u64 {
    rand::random::<u64>()
}

impl RandomSource for ThreadRandom {
    fn next_u64(&mut self) -> u64 {
        thread_draw()
    }
}

} // verus!
