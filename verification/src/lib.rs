pub mod game;
pub mod logic;
pub mod tile_texture;
pub mod word_list;
