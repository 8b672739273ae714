//! # normal_form
//!
//! Two-player normal-form (strategic) games given by payoff matrices:
//! dominance between strategies, iterated elimination of strictly dominated
//! strategies, Pareto optimality and pure-strategy Nash equilibria.
//!
//! Payoffs are integers, so every comparison the analyses make is exact.

pub mod game;
pub mod strategy;
pub mod seqs;
pub mod dominance;
pub mod nash;
pub mod pareto;
pub mod text;
