//! Zonary: a minimalist binary esoteric language.
//!
//! The library turns Zonary source text into instructions and runs them one
//! step at a time; every step reports the side effect that the caller has to
//! perform (printing, reading a line, sleeping).

pub mod text;
pub mod word;
pub mod error;
pub mod preprocessor;
pub mod vm;
pub mod interpreter;
