//! A 9x9 number-grid puzzle library.
//!
//! A [`Grid`] holds 81 cells ([`Space`]), each empty or occupied by one of
//! the nine symbols ([`Value`]). The library can parse a grid from text,
//! render it as a bordered layout, validate it, and solve it either by
//! exhaustive backtracking search or by a randomized fill-and-check loop.

pub mod canonical;
pub mod grid;
pub mod random;
pub mod solver;
pub mod space;
pub mod text;
pub mod value;

pub use grid::Grid;
pub use space::Space;
pub use value::Error;
pub use value::Rgb;
pub use value::Value;
