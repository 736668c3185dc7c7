//! A dice-expression language: a stack-based intermediate representation
//! for randomized integer computations (dice rolls with drops, rerolls,
//! clamps, iteration and case selection), together with a static range
//! checker that derives a sound `[min, max]` envelope for a program and a
//! Monte-Carlo interpreter that draws one sample per run.

pub mod checker;
pub mod descriptor;
pub mod estimator;
pub mod interpreter;
pub mod laws;
pub mod parser;
pub mod rng;
