pub mod bingo_grid;
pub mod bingo_painter;
pub mod case;
pub mod dictionary;
pub mod digit_tool;
pub mod letter_texture;
pub mod logic;
pub mod quad_tool;
pub mod random;
pub mod tombola;
pub mod timeout;
pub mod sound_queue;
pub mod timing;
