//! Conway-style cellular automaton on a fixed-size toroidal grid.
//!
//! The core is the [`grid`] module: a dense rectangular grid of two-state
//! cells with coordinate wrapping, neighbour counting, and a generational
//! evolution rule, together with the small text grammars for cells,
//! coordinates, sizes, and whole patterns.

pub mod grid;
