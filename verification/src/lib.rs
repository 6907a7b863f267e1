//! Seeded colour growth on a square canvas.
//!
//! Seeds are sown at random cells with random colours. One pending cell after the other
//! leaves the frontier, takes its colour, and spreads it, slightly changed, to its
//! neighbours, until no cell is pending. Every random choice comes from one seeded
//! generator, so a configuration and a seed determine the image.
//!
//! - [`color`]: colours, blending and shifting;
//! - [`wide`], [`ratio`] and [`decay`]: how far a colour may drift at a distance from its
//!   seed;
//! - [`dice`]: the generator;
//! - [`vec_map`]: the frontier's collection;
//! - [`grid`]: locations, neighbours and the coloured cells;
//! - [`growth`]: the growth itself;
//! - [`canvas`]: the image.

pub mod canvas;
pub mod color;
pub mod decay;
pub mod dice;
pub mod grid;
pub mod growth;
pub mod ratio;
pub mod vec_map;
pub mod wide;
