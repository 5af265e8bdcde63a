//! Evaluation of hands in a six-dice scoring game: scoring, reroll
//! eligibility, hand differences and the odds of rolling what is missing.

pub mod combos;
pub mod dice;
