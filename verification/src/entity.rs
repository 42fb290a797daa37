//! The record that a caller keeps of an entity placed in the grid.
use vstd::prelude::*;
use crate::cell::Cell;
use crate::vec2::Vec2;

verus! {

/// An axis-aligned box in the grid: its centre and extent, the first and
/// last cell of the span that it was last registered under, and its
/// identifier.
///
/// A caller moves or resizes an entity by assigning `pos` or `size` and
/// handing the record to `SpatialHash::update`, which brings the span up to
/// date. The other fields are the grid's to assign.
#[derive(Debug, Clone, Copy, PartialEq, Eq, Structural)]
pub struct Entity {
    pub pos: Vec2,
    pub start: Cell,
    pub end: Cell,
    pub size: Vec2,
    pub id: u32,
}

impl Entity {
    /// The record with the given fields.
    pub fn new(pos: Vec2, start: Cell, end: Cell, size: Vec2, id: u32) -> (r: Self)
        ensures
            r == (Entity { pos, start, end, size, id }),
    {
        Self { pos, start, end, size, id }
    }
}

} // verus!
