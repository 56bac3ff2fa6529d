//! Rules engine for an 8x8 disc-flipping board game: move validation,
//! capture, turn progression and end-of-game detection, with the rules
//! stated as contracts and the code proved against them.

pub mod board;
pub mod rules;
pub mod game;
