//! A grid snake game, the sensors that an agent reads from it, and the
//! decisions of a mutation-only evolutionary search over agents.

pub mod board;
mod chance;
pub mod game;
pub mod sense;
pub mod evolve;
