//! Nurikabe puzzle solving: a deductive rule engine and an ant colony
//! optimiser over a shared grid model.

pub mod nurikabe;
pub mod solvers;
