//! Terminal plotting: charts rendered on a character-cell dot matrix.
//!
//! Callers build a [`Chart`] over a fixed horizontal domain, register one or
//! more [`Shape`]s (sampled series or point lists drawn as scatter points,
//! polylines, steps or bars), and receive the rendered text. Axis values are
//! exact rationals ([`Frac`]); the braille dot-matrix surface comes from the
//! `drawille` crate behind a thin trusted interface.

pub mod canvas;
pub mod chart;
pub mod color;
pub mod frac;
pub mod laws;
pub mod paint;
pub mod scale;
pub mod text;
pub mod utils;

pub use chart::Chart;
pub use chart::Point;
pub use chart::Shape;
pub use color::Color;
pub use frac::Frac;
pub use frac::Rat;
pub use scale::Scale;
