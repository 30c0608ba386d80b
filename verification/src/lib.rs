//! Reading osu! beatmaps (`.osu` files) and the scoring rules of the game.
pub mod text;
pub mod number;
pub mod osutypes;
pub mod parser;
pub mod timing;
pub mod scoring;
pub mod cli;
pub mod sliders;
