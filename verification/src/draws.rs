//! The generator of the Zobrist keys, with the record of every value it
//! has drawn, in order.

use vstd::prelude::*;
use rand::rngs::SmallRng;
use crate::fxhash::{rng_from_seed, rng_next_u64};

verus! {

/// A seeded generator together with the values it has handed out.
pub struct KeyDraws {
    rng: SmallRng,
    drawn: Ghost<Seq<u64>>,
}

impl KeyDraws {
    /// The values drawn so far, in the order they were drawn.
    pub closed spec fn drawn(&self) -> Seq<u64> {
        self.drawn@
    }

    /// A generator seeded with `seed` that has drawn nothing yet.
    pub fn new(seed: u64) -> (g: Self)
        ensures
            g.drawn() == Seq::<u64>::empty(),
    {
        KeyDraws { rng: rng_from_seed(seed), drawn: Ghost(Seq::empty()) }
    }

    /// Draws the next value of the generator.
    pub fn next(&mut self) -> (v: u64)
        ensures
            final(self).drawn() == old(self).drawn().push(v),
    {
        let v = rng_next_u64(&mut self.rng);
        self.drawn = Ghost(self.drawn@.push(v));
        v
    }
}

} // verus!
