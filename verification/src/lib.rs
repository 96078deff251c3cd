//! A 4×4 sliding-tile merge puzzle: the board, the four moves, tile spawning,
//! win and loss detection, and the text of the rendered board.

pub mod board;
pub mod line;
pub mod moves;
pub mod status;
pub mod spawn;
pub mod input;
pub mod play;
pub mod lists;
pub mod render;
