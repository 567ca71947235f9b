//! A first-order character-level Markov model.
//!
//! Training text is ingested pair by pair: for every adjacent ordered pair
//! `(a, b)` the weight of successor `b` under predecessor `a` grows by one.
//! A weighted random draw then emits a successor with probability
//! proportional to its weight.

pub mod error;
pub mod markov_text_generator;
pub mod rng;
pub mod weighted_char;
pub mod weighted_char_set;
