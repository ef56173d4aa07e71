//! The frame's substep policy.

use vstd::prelude::*;

verus! {

/// Populations above this size run fewer substeps per frame.
pub const HEAVY_POPULATION: usize = 80000;

/// Substeps per frame for a population of `population` particles: four,
/// lowered to two once the population is heavy, trading accuracy for
/// frame time.
pub fn substep_count(population: usize) -> (r: u32)
    ensures
        r == (if population > HEAVY_POPULATION { 2u32 } else { 4u32 }),
{
    if population > HEAVY_POPULATION {
        2
    } else {
        4
    }
}

} // verus!
