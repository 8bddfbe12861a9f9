//! A verified Othello (Reversi) game engine: board representation, legal-move
//! enumeration, move application with capture resolution, turn progression,
//! and the two AI move selectors (uniform-random and greedy one-ply).

pub mod board;
pub mod game;
pub mod rules;
pub mod select;
