//! A genetic algorithm that orders a palette of colours so that neighbouring
//! colours look alike.
//!
//! A chromosome (`Gene`) is a permutation of the palette's indices together
//! with its own self-adapting operator probabilities (`Probs`). Probabilities
//! are fixed-point numbers in parts of `PROB_SCALE`; fitness values reach the
//! population step as fixed-point scores (see `algorithm`).

pub mod algorithm;
pub mod random;
pub mod probs;
pub mod gene;
pub mod world;
pub mod selection;

pub use algorithm::{GeneticAlgorithm, StepError, FITNESS_SCALE, SELECTION_EPSILON};
pub use gene::Gene;
pub use selection::WeightedChoice;
pub use world::{Color, World};
pub use probs::{
    Bernoulli, InvalidProbabilityError, Probs, INVALID_PROBABILITY_TEXT, MUTATION_STEP, PROB_SCALE,
};
