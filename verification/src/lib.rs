//! A flow-sensitive may-points-to analysis for a small pointer language.
//!
//! The pipeline has three verified stages: a lexer that turns source text
//! into tokens, a single-pass CFG builder that turns tokens into a flat,
//! index-addressed instruction array with back-patched branch targets, and
//! a worklist dataflow solver that computes the least fixpoint of a
//! points-to lattice over that array.
#![verifier::loop_isolation(false)]

pub mod env;
pub mod lexer;
pub mod parser;
pub mod solver;
