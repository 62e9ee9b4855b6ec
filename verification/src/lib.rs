//! Rules engine for a superposition variant of tic-tac-toe.
//!
//! A move places a mark into two cells at once ("entangled") until a cycle of
//! entanglements forces marks to collapse into ordinary single-cell marks.
//! The engine tracks the entanglement graph, detects cycles, resolves them
//! with one random decision followed by a deterministic cascade, and scores
//! completed lines under a turn-order tie-break rule.

pub mod board;
pub mod bot;
pub mod game;
