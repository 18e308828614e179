//! Text buffers annotated with ANSI style markers, rendered into strings
//! with embedded terminal escape sequences.
//!
//! A [`ColoredString`] collects text and formatting codes; `colored` turns
//! both into one string that ends with a reset. What that string is, for
//! every buffer, is defined in [`model`] and proved of the code; [`laws`]
//! holds what follows for every rendering.

pub mod color;
pub mod colored_string;
pub mod escape;
pub mod laws;
pub mod model;
pub mod string_specs;
pub mod strip;
pub mod text;

pub use color::Color;
pub use colored_string::ColoredString;
