//! A dungeon map generator: the world is quartered into equal regions, and
//! one room of random size is placed in each of a random choice of them.
//! The rooms are handed out one at a time as rectangles to paint.
#![allow(non_snake_case)]

pub mod entropy;
pub mod quad;
pub mod room;
pub mod draw;
pub mod generator;

pub use draw::{DrawColor, DrawInstruction};
pub use generator::Generator;
