//! A uniform-grid spatial index over a bounded two-dimensional domain.
//!
//! The grid maps movable, axis-aligned boxes to the cells that they reach
//! into, and answers which other boxes are registered near a given one. It
//! is a broad-phase filter: it compares cells, never shapes.
//!
//! Coordinates are fixed-point integers that count units of
//! `1 / vec2::SCALE`. The corners of a box lie on half units, so the grid
//! maps doubled coordinates and every cell index is the exact floor of a
//! quotient of integers.
//!
//! `grid` holds the store and its operations, `cell` the lattice and the
//! mapping from positions to cells, `buckets` the mathematical model of the
//! store that the contracts are written in, and `laws` what follows from
//! them.
pub mod arith;
pub mod buckets;
pub mod cell;
pub mod entity;
pub mod error;
pub mod grid;
pub mod laws;
pub mod vec2;

pub use crate::cell::{Cell, Dimensions, Domain};
pub use crate::entity::Entity;
pub use crate::error::Error;
pub use crate::grid::SpatialHash;
pub use crate::vec2::Vec2;
