//! Core of a NEAT-style neuroevolution engine: genome graphs mutated under an
//! acyclicity invariant, feed-forward evaluation by topological ordering, and
//! a population layer with innovation bookkeeping, crossover, speciation and
//! offspring allocation.

pub mod activation;
pub mod node;
mod rng;
pub mod pairs;
pub mod genome;
pub mod cycle;
pub mod evaluate;
pub mod flatten;
pub mod rebuild;
pub mod population;

use vstd::prelude::*;

verus! {

} // verus!
