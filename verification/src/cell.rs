//! The cell lattice laid over the domain, and the mapping from positions to cells.
use vstd::prelude::*;
use crate::arith::{ceil_div, lemma_ceil_div};
use crate::error::Error;
use crate::grid::SpatialHash;
use crate::vec2::{Vec2, SCALE};

verus! {

/// The margin, in units, by which each side of a box is pulled in before its
/// corners are mapped to cells, so that a box that ends exactly on a cell
/// boundary does not claim the neighbouring cell.
pub const EPSILON: i32 = 1;

/// The address of one cell of the lattice.
#[derive(Debug, Clone, Copy, PartialEq, Eq, Hash, Structural)]
pub struct Cell {
    pub col: i32,
    pub row: i32,
}

/// The extent of the lattice, in cells.
#[derive(Debug, Clone, Copy, PartialEq, Eq, Structural)]
pub struct Dimensions {
    pub cols: u32,
    pub rows: u32,
}

/// Where the lattice lies: the lower bound of the domain, its upper bound
/// moved up to the next cell boundary, and the number of cells on each axis.
#[derive(Debug, Clone, Copy, PartialEq, Eq, Structural)]
pub struct Domain {
    pub start: Vec2,
    pub end_x: i64,
    pub end_y: i64,
    pub num_cells: Dimensions,
}

/// `n`, or the largest `u32` where `n` is above it.
pub open spec fn clamp_u32(n: int) -> u32
    recommends
        n >= 0,
{
    if n > u32::MAX {
        u32::MAX
    } else {
        n as u32
    }
}

/// The index, along one axis, of the cell that holds a point `offset2` half
/// units above the lower bound: the floor of `(offset2 / 2) / extent * count`,
/// or the largest `i32` where the floor is above it.
pub open spec fn axis_index(offset2: int, extent: int, count: int) -> int
    recommends
        offset2 >= 0,
        extent > 0,
        count >= 0,
{
    let raw = (offset2 * count) / (2 * extent);
    if raw > i32::MAX {
        i32::MAX as int
    } else {
        raw
    }
}

/// Twice the lower side of a box of extent `size` centred on `p`, pulled in
/// by `EPSILON`; the centre itself where the box has no extent.
pub open spec fn lower2(p: int, size: int) -> int {
    if size == 0 {
        2 * p
    } else {
        2 * p - size + 2 * EPSILON
    }
}

/// Twice the upper side of a box of extent `size` centred on `p`, pulled in
/// by `EPSILON`; the centre itself where the box has no extent.
pub open spec fn upper2(p: int, size: int) -> int {
    if size == 0 {
        2 * p
    } else {
        2 * p + size - 2 * EPSILON
    }
}

fn axis_index_of(offset2: u64, extent: u64, count: u32) -> (r: i32)
    requires
        extent > 0,
    ensures
        r == axis_index(offset2 as int, extent as int, count as int),
{
    assert(offset2 * count <= 0xffff_ffff_ffff_ffff * 0xffff_ffff) by (nonlinear_arith)
        requires
            0 <= offset2 <= 0xffff_ffff_ffff_ffff,
            0 <= count <= 0xffff_ffff,
    ;
    let num: u128 = (offset2 as u128) * (count as u128);
    let den: u128 = 2 * (extent as u128);
    let raw: u128 = num / den;
    if raw > i32::MAX as u128 {
        i32::MAX
    } else {
        raw as i32
    }
}

impl Domain {
    /// The lattice has a cell on each axis and the upper bound lies above the
    /// lower one.
    pub open spec fn wf(&self) -> bool {
        &&& self.start.x < self.end_x
        &&& self.start.y < self.end_y
        &&& self.num_cells.cols > 0
        &&& self.num_cells.rows > 0
    }

    /// What `new` returns: the lattice of cells of extent `cell_size` that
    /// covers the domain from `start` up to and including `end`.
    pub open spec fn spec_new(cell_size: Vec2, start: Vec2, end: Vec2) -> Result<Domain, Error> {
        let nx = ceil_div(end.x + SCALE - start.x, cell_size.x as int);
        let ny = ceil_div(end.y + SCALE - start.y, cell_size.y as int);
        if cell_size.x <= 0 || cell_size.y <= 0 {
            Err(Error::InvalidCellSize)
        } else if nx <= 0 || ny <= 0 {
            Err(Error::NumCellsEqualZero)
        } else {
            Ok(
                Domain {
                    start,
                    end_x: (start.x + nx * cell_size.x) as i64,
                    end_y: (start.y + ny * cell_size.y) as i64,
                    num_cells: Dimensions { cols: clamp_u32(nx), rows: clamp_u32(ny) },
                },
            )
        }
    }

    /// The cell that holds the point with the doubled coordinates `x2` and
    /// `y2`, or `OutOfBounds` where the point lies below the lower bound on
    /// either axis. Nothing is refused at the upper bound.
    pub open spec fn locate(&self, x2: int, y2: int) -> Result<Cell, Error> {
        if x2 < 2 * self.start.x || y2 < 2 * self.start.y {
            Err(Error::OutOfBounds)
        } else {
            Ok(
                Cell {
                    col: axis_index(
                        x2 - 2 * self.start.x,
                        self.end_x - self.start.x,
                        self.num_cells.cols as int,
                    ) as i32,
                    row: axis_index(
                        y2 - 2 * self.start.y,
                        self.end_y - self.start.y,
                        self.num_cells.rows as int,
                    ) as i32,
                },
            )
        }
    }

    /// The cell that holds `pos`.
    pub open spec fn cell_of(&self, pos: Vec2) -> Result<Cell, Error> {
        self.locate(2 * pos.x, 2 * pos.y)
    }

    /// The first and the last cell of the span of a box of extent
    /// (`size_x`, `size_y`) centred on `pos`.
    pub open spec fn span_of(&self, pos: Vec2, size_x: int, size_y: int) -> Result<
        (Cell, Cell),
        Error,
    > {
        match self.locate(lower2(pos.x as int, size_x), lower2(pos.y as int, size_y)) {
            Err(e) => Err(e),
            Ok(first) => match self.locate(
                upper2(pos.x as int, size_x),
                upper2(pos.y as int, size_y),
            ) {
                Err(e) => Err(e),
                Ok(last) => Ok((first, last)),
            },
        }
    }

    /// Lays a lattice of cells of extent `cell_size` over the domain from
    /// `start` up to and including `end`.
    pub fn new(cell_size: Vec2, start: Vec2, end: Vec2) -> (r: Result<Domain, Error>)
        ensures
            r == Self::spec_new(cell_size, start, end),
            r matches Ok(d) ==> d.wf(),
    {
        if cell_size.x <= 0 || cell_size.y <= 0 {
            return Err(Error::InvalidCellSize);
        }
        let span_x: i64 = end.x as i64 + SCALE as i64 - start.x as i64;
        let span_y: i64 = end.y as i64 + SCALE as i64 - start.y as i64;
        let cx: i64 = cell_size.x as i64;
        let cy: i64 = cell_size.y as i64;
        proof {
            lemma_ceil_div(span_x as int, cx as int);
            lemma_ceil_div(span_y as int, cy as int);
        }
        if span_x <= 0 || span_y <= 0 {
            return Err(Error::NumCellsEqualZero);
        }
        let nx: i64 = (span_x + cx - 1) / cx;
        let ny: i64 = (span_y + cy - 1) / cy;
        let cols: u32 = if nx > u32::MAX as i64 {
            u32::MAX
        } else {
            nx as u32
        };
        let rows: u32 = if ny > u32::MAX as i64 {
            u32::MAX
        } else {
            ny as u32
        };
        Ok(
            Domain {
                start,
                end_x: start.x as i64 + nx * cx,
                end_y: start.y as i64 + ny * cy,
                num_cells: Dimensions { cols, rows },
            },
        )
    }

    /// Maps the point with the doubled coordinates `x2` and `y2` to its cell.
    pub fn locate_doubled(&self, x2: i64, y2: i64) -> (r: Result<Cell, Error>)
        requires
            self.wf(),
        ensures
            r == self.locate(x2 as int, y2 as int),
    {
        let sx2: i64 = 2 * (self.start.x as i64);
        let sy2: i64 = 2 * (self.start.y as i64);
        if x2 < sx2 || y2 < sy2 {
            return Err(Error::OutOfBounds);
        }
        let off_x: u64 = (x2 as i128 - sx2 as i128) as u64;
        let off_y: u64 = (y2 as i128 - sy2 as i128) as u64;
        let ext_x: u64 = (self.end_x as i128 - self.start.x as i128) as u64;
        let ext_y: u64 = (self.end_y as i128 - self.start.y as i128) as u64;
        let col = axis_index_of(off_x, ext_x, self.num_cells.cols);
        let row = axis_index_of(off_y, ext_y, self.num_cells.rows);
        Ok(Cell { col, row })
    }
}

impl Cell {
    /// The cell of the grid that holds `pos`, or `OutOfBounds` where `pos`
    /// lies below the lower bound of the domain on either axis. A position
    /// at or above the upper bound is not refused: it gets the cell that
    /// the lattice would have there if it went on.
    pub fn new(pos: &Vec2, spatial_hash: &SpatialHash) -> (r: Result<Self, Error>)
        requires
            spatial_hash.wf(),
        ensures
            r == spatial_hash.spec_domain().cell_of(*pos),
    {
        spatial_hash.domain().locate_doubled(2 * (pos.x as i64), 2 * (pos.y as i64))
    }
}

} // verus!
