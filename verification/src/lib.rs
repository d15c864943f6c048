//! Pastel: the drawing logic of a small bitmap editor, with its contracts.
//!
//! Colors are 32-bit ARGB words, images are row-major buffers of colors,
//! and the canvas adds an undo stack and a painting mask on top of them.

pub mod color;
pub mod image;
pub mod fill;
pub mod reach;
pub mod lines;
pub mod shapes;
pub mod canvas;
pub mod text;
pub mod palette;
pub mod tools;
pub mod overlay;
pub mod interact;
pub mod transform;
pub mod controls;
