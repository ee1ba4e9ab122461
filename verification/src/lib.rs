//! A collection of puzzles on text, each solved by verified code. The
//! largest of them measures a loop of pipes on a grid; the others are small
//! and stand alone.

pub mod almanac;
pub mod beams;
pub mod calibration;
pub mod camel;
pub mod cubes;
pub mod engine;
pub mod galaxies;
pub mod history;
pub mod layout;
pub mod lenses;
pub mod network;
pub mod numbers;
pub mod patterns;
pub mod platform;
pub mod pipes;
pub mod races;
pub mod scratchcards;
pub mod springs;
pub mod text;
pub mod words;
