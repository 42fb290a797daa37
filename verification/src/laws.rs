//! What holds of the grid in general: how inserting, removing, updating and
//! searching relate to each other and to the spans of the entities.
use vstd::prelude::*;
use crate::buckets::{
    bucket_at, ids_in, in_span, inserted, inserted_upto, lemma_total_insert,
    lemma_without_absent, lemma_without_contains, lemma_without_push, no_empty_bucket, passed,
    removed, span_area, total_entries, without,
};
use crate::arith::{ceil_div, lemma_ceil_div};
use crate::cell::{axis_index, lower2, upper2, Cell, Domain, EPSILON};
use crate::vec2::{Vec2, SCALE};

verus! {

/// Taking an identifier out of the span that it was just inserted under
/// gives back the store as it was, and with it the total number of entries,
/// provided that no bucket of the span held the identifier before.
pub proof fn lemma_remove_undoes_insert(m: Map<Cell, Seq<u32>>, first: Cell, last: Cell, id: u32)
    requires
        no_empty_bucket(m),
        forall|c: Cell| in_span(c, first, last) ==> !(#[trigger] bucket_at(m, c)).contains(id),
    ensures
        removed(inserted(m, first, last, id), first, last, id) == m,
        total_entries(removed(inserted(m, first, last, id), first, last, id)) == total_entries(m),
{
    let filled = inserted(m, first, last, id);
    let back = removed(filled, first, last, id);
    assert forall|c: Cell| in_span(c, first, last) implies without(
        #[trigger] bucket_at(m, c).push(id),
        id,
    ) == bucket_at(m, c) by {
        lemma_without_push(bucket_at(m, c), id, id);
        lemma_without_absent(bucket_at(m, c), id);
    }
    assert forall|c: Cell| back.contains_key(c) <==> m.contains_key(c) by {
        if in_span(c, first, last) {
            assert(filled[c] == bucket_at(m, c).push(id));
            if m.contains_key(c) {
                assert(m[c].len() > 0);
            }
        }
    }
    assert forall|c: Cell| back.contains_key(c) implies back[c] == m[c] by {
        if in_span(c, first, last) {
            assert(filled[c] == bucket_at(m, c).push(id));
        }
    }
    assert(back =~= m);
}

/// A walk that has inserted an identifier up to some cell of the span has
/// added one entry for each cell that it passed.
proof fn lemma_total_inserted_upto(
    m: Map<Cell, Seq<u32>>,
    first: Cell,
    last: Cell,
    col: int,
    row: int,
    id: u32,
)
    requires
        m.dom().finite(),
        first.col <= col <= last.col,
        first.row <= row <= last.row + 1,
    ensures
        inserted_upto(m, first, last, col, row, id).dom().finite(),
        total_entries(inserted_upto(m, first, last, col, row, id)) == total_entries(m) + (col
            - first.col) * (last.row - first.row + 1) + (row - first.row),
    decreases col - first.col, row - first.row,
{
    let here = inserted_upto(m, first, last, col, row, id);
    let height = last.row - first.row + 1;
    if row > first.row {
        let cell = Cell { col: col as i32, row: (row - 1) as i32 };
        let prev = inserted_upto(m, first, last, col, row - 1, id);
        lemma_total_inserted_upto(m, first, last, col, row - 1, id);
        assert(!passed(cell, first, last, col, row - 1));
        assert(passed(cell, first, last, col, row));
        assert(bucket_at(prev, cell) == bucket_at(m, cell));
        assert(here =~= prev.insert(cell, bucket_at(m, cell).push(id)));
        lemma_total_insert(prev, cell, bucket_at(m, cell).push(id));
    } else if col > first.col {
        let prev = inserted_upto(m, first, last, col - 1, last.row + 1, id);
        lemma_total_inserted_upto(m, first, last, col - 1, last.row + 1, id);
        assert(here =~= prev);
        assert((col - 1 - first.col) * height + height == (col - first.col) * height)
            by (nonlinear_arith);
    } else {
        assert(here =~= m);
        assert((col - first.col) * height == 0) by (nonlinear_arith)
            requires
                col == first.col,
        ;
    }
}

/// Inserting an identifier under a span adds exactly one entry for each
/// cell of the span, each of them the identifier, at the end of the bucket
/// of that cell, and leaves every other bucket as it was.
pub proof fn lemma_insert_adds_area(m: Map<Cell, Seq<u32>>, first: Cell, last: Cell, id: u32)
    requires
        m.dom().finite(),
    ensures
        inserted(m, first, last, id).dom().finite(),
        total_entries(inserted(m, first, last, id)) == total_entries(m) + span_area(first, last),
        forall|c: Cell|
            in_span(c, first, last) ==> #[trigger] bucket_at(inserted(m, first, last, id), c)
                == bucket_at(m, c).push(id),
        forall|c: Cell|
            !in_span(c, first, last) ==> #[trigger] bucket_at(inserted(m, first, last, id), c)
                == bucket_at(m, c),
{
    let filled = inserted(m, first, last, id);
    if first.col <= last.col && first.row <= last.row {
        lemma_total_inserted_upto(m, first, last, last.col as int, last.row + 1, id);
        assert(filled =~= inserted_upto(m, first, last, last.col as int, last.row + 1, id));
        let width = last.col - first.col + 1;
        let height = last.row - first.row + 1;
        assert((width - 1) * height + height == width * height) by (nonlinear_arith);
        assert(width * height >= 0) by (nonlinear_arith)
            requires
                width > 0,
                height > 0,
        ;
    } else {
        assert(filled =~= m);
    }
}

/// After an identifier that the store did not hold was inserted under a
/// span, the cells whose bucket holds it are exactly the cells of the span.
pub proof fn lemma_insert_registers(m: Map<Cell, Seq<u32>>, first: Cell, last: Cell, id: u32)
    requires
        forall|c: Cell| !(#[trigger] bucket_at(m, c)).contains(id),
    ensures
        forall|c: Cell| (#[trigger] bucket_at(inserted(m, first, last, id), c)).contains(id)
            <==> in_span(c, first, last),
{
    let filled = inserted(m, first, last, id);
    assert forall|c: Cell| (#[trigger] bucket_at(filled, c)).contains(id) <==> in_span(
        c,
        first,
        last,
    ) by {
        if in_span(c, first, last) {
            let b = bucket_at(m, c);
            assert(b.push(id)[b.len() as int] == id);
        } else {
            assert(bucket_at(filled, c) == bucket_at(m, c));
        }
    }
}

/// After an update the identifier ends the bucket of every cell of the new
/// span, no cell of the old span outside the new one holds it any more, and
/// the buckets of the cells of neither span are as they were.
pub proof fn lemma_update_moves(
    m: Map<Cell, Seq<u32>>,
    old_first: Cell,
    old_last: Cell,
    new_first: Cell,
    new_last: Cell,
    id: u32,
)
    ensures
        ({
            let after = inserted(
                removed(m, old_first, old_last, id),
                new_first,
                new_last,
                id,
            );
            &&& forall|c: Cell|
                in_span(c, new_first, new_last) ==> (#[trigger] bucket_at(after, c)).len() > 0
                    && bucket_at(after, c).last() == id
            &&& forall|c: Cell|
                in_span(c, old_first, old_last) && !in_span(c, new_first, new_last) ==> !(
                #[trigger] bucket_at(after, c)).contains(id)
            &&& forall|c: Cell|
                !in_span(c, old_first, old_last) && !in_span(c, new_first, new_last)
                    ==> #[trigger] bucket_at(after, c) == bucket_at(m, c)
        }),
{
    let cleared = removed(m, old_first, old_last, id);
    let after = inserted(cleared, new_first, new_last, id);
    assert forall|c: Cell|
        in_span(c, old_first, old_last) && !in_span(c, new_first, new_last) implies !(
    #[trigger] bucket_at(after, c)).contains(id) by {
        lemma_without_contains(bucket_at(m, c), id, id);
        if m.contains_key(c) {
            if without(m[c], id).len() > 0 {
                assert(bucket_at(after, c) == without(m[c], id));
            } else {
                assert(bucket_at(after, c) == Seq::<u32>::empty());
            }
        }
    }
}

/// A search over a span finds an identifier exactly if the bucket of some
/// cell of the span holds it.
pub proof fn lemma_search_finds(m: Map<Cell, Seq<u32>>, first: Cell, last: Cell, id: u32)
    ensures
        ids_in(m, first, last).contains(id) <==> exists|c: Cell|
            in_span(c, first, last) && (#[trigger] bucket_at(m, c)).contains(id),
{
}

/// Of an entity that occupies exactly the cells from `other_first` to
/// `other_last`: a search over a span finds it if one of its cells lies in
/// the span, and does not find it if none does.
pub proof fn lemma_search_meets_span(
    m: Map<Cell, Seq<u32>>,
    first: Cell,
    last: Cell,
    other_first: Cell,
    other_last: Cell,
    other_id: u32,
)
    requires
        forall|c: Cell| (#[trigger] bucket_at(m, c)).contains(other_id) <==> in_span(
            c,
            other_first,
            other_last,
        ),
    ensures
        ids_in(m, first, last).contains(other_id) <==> exists|c: Cell|
            #[trigger] in_span(c, first, last) && in_span(c, other_first, other_last),
{
    if ids_in(m, first, last).contains(other_id) {
        let c = choose|c: Cell|
            in_span(c, first, last) && (#[trigger] bucket_at(m, c)).contains(other_id);
        assert(in_span(c, first, last) && in_span(c, other_first, other_last));
    }
    if exists|c: Cell| #[trigger] in_span(c, first, last) && in_span(c, other_first, other_last) {
        let c = choose|c: Cell|
            #[trigger] in_span(c, first, last) && in_span(c, other_first, other_last);
        assert(bucket_at(m, c).contains(other_id));
    }
}

/// A lattice that `new` lays out has a cell on each axis, starts where the
/// domain starts, and ends on the first cell boundary above the end of the
/// domain: one whole step above `end`, or less than a cell further. Unless
/// a count of cells is above the largest `u32`, the lattice is as long as
/// its cells together.
pub proof fn lemma_new_pads(cell_size: Vec2, start: Vec2, end: Vec2)
    requires
        Domain::spec_new(cell_size, start, end) is Ok,
    ensures
        ({
            let d = Domain::spec_new(cell_size, start, end).unwrap();
            let nx = ceil_div(end.x + SCALE - start.x, cell_size.x as int);
            let ny = ceil_div(end.y + SCALE - start.y, cell_size.y as int);
            &&& d.wf()
            &&& d.start == start
            &&& d.end_x == start.x + nx * cell_size.x
            &&& d.end_y == start.y + ny * cell_size.y
            &&& end.x + SCALE <= d.end_x < end.x + SCALE + cell_size.x
            &&& end.y + SCALE <= d.end_y < end.y + SCALE + cell_size.y
            &&& nx <= u32::MAX ==> d.num_cells.cols == nx
            &&& ny <= u32::MAX ==> d.num_cells.rows == ny
        }),
{
    lemma_ceil_div(end.x + SCALE - start.x, cell_size.x as int);
    lemma_ceil_div(end.y + SCALE - start.y, cell_size.y as int);
}

/// In a lattice of `count` cells that are `width` units wide each, the
/// index of a point is its offset from the lower bound divided by the width
/// of a cell, rounded down.
pub proof fn lemma_axis_index_by_width(offset2: int, width: int, count: int)
    requires
        offset2 >= 0,
        width > 0,
        count > 0,
    ensures
        axis_index(offset2, count * width, count) == if offset2 / (2 * width) > i32::MAX {
            i32::MAX as int
        } else {
            offset2 / (2 * width)
        },
{
    vstd::arithmetic::div_mod::lemma_div_multiples_vanish_quotient(count, offset2, 2 * width);
    assert(offset2 * count == count * offset2 && 2 * (count * width) == count * (2 * width))
        by (nonlinear_arith);
}

/// The span of a box in the domain is not inverted on an axis on which the
/// box has no extent, or one of at least twice `EPSILON`.
pub proof fn lemma_span_ordered(domain: Domain, pos: Vec2, size: Vec2)
    requires
        domain.wf(),
        domain.span_of(pos, size.x as int, size.y as int) is Ok,
    ensures
        ({
            let (first, last) = domain.span_of(pos, size.x as int, size.y as int).unwrap();
            &&& size.x == 0 || size.x >= 2 * EPSILON ==> first.col <= last.col
            &&& size.y == 0 || size.y >= 2 * EPSILON ==> first.row <= last.row
            &&& size.x == 0 ==> first.col == last.col
            &&& size.y == 0 ==> first.row == last.row
        }),
{
    let sx = 2 * domain.start.x;
    let sy = 2 * domain.start.y;
    let ex = domain.end_x - domain.start.x;
    let ey = domain.end_y - domain.start.y;
    let cols = domain.num_cells.cols as int;
    let rows = domain.num_cells.rows as int;
    let (px, py) = (pos.x as int, pos.y as int);
    let (wx, wy) = (size.x as int, size.y as int);
    if size.x == 0 || size.x >= 2 * EPSILON {
        lemma_axis_index_monotonic(lower2(px, wx) - sx, upper2(px, wx) - sx, ex, cols);
    }
    if size.y == 0 || size.y >= 2 * EPSILON {
        lemma_axis_index_monotonic(lower2(py, wy) - sy, upper2(py, wy) - sy, ey, rows);
    }
}

/// The index of a cell along an axis does not fall when the point moves up.
pub proof fn lemma_axis_index_monotonic(a: int, b: int, extent: int, count: int)
    requires
        0 <= a <= b,
        extent > 0,
        count >= 0,
    ensures
        0 <= axis_index(a, extent, count) <= axis_index(b, extent, count) <= i32::MAX,
{
    assert(0 <= a * count <= b * count) by (nonlinear_arith)
        requires
            0 <= a <= b,
            count >= 0,
    ;
    vstd::arithmetic::div_mod::lemma_div_is_ordered(a * count, b * count, 2 * extent);
    vstd::arithmetic::div_mod::lemma_div_pos_is_pos(a * count, 2 * extent);
}

/// The span of a box with twice the extent covers the span of the box
/// itself, where the extent is not negative and both spans lie in the
/// domain.
pub proof fn lemma_wide_span_covers(domain: Domain, pos: Vec2, size: Vec2, c: Cell)
    requires
        domain.wf(),
        size.x >= 0,
        size.y >= 0,
        domain.span_of(pos, size.x as int, size.y as int) is Ok,
        domain.span_of(pos, 2 * size.x, 2 * size.y) is Ok,
        ({
            let own = domain.span_of(pos, size.x as int, size.y as int).unwrap();
            in_span(c, own.0, own.1)
        }),
    ensures
        ({
            let wide = domain.span_of(pos, 2 * size.x, 2 * size.y).unwrap();
            in_span(c, wide.0, wide.1)
        }),
{
    let sx = 2 * domain.start.x;
    let sy = 2 * domain.start.y;
    let ex = domain.end_x - domain.start.x;
    let ey = domain.end_y - domain.start.y;
    let cols = domain.num_cells.cols as int;
    let rows = domain.num_cells.rows as int;
    let (px, py) = (pos.x as int, pos.y as int);
    let (wx, wy) = (size.x as int, size.y as int);
    lemma_axis_index_monotonic(lower2(px, 2 * wx) - sx, lower2(px, wx) - sx, ex, cols);
    lemma_axis_index_monotonic(lower2(py, 2 * wy) - sy, lower2(py, wy) - sy, ey, rows);
    lemma_axis_index_monotonic(upper2(px, wx) - sx, upper2(px, 2 * wx) - sx, ex, cols);
    lemma_axis_index_monotonic(upper2(py, wy) - sy, upper2(py, 2 * wy) - sy, ey, rows);
}

/// A search around an entity that succeeds finds the entity itself, where
/// the extent of the entity is not negative and the entity is registered in
/// a cell of its own span.
pub proof fn lemma_search_finds_self(
    domain: Domain,
    m: Map<Cell, Seq<u32>>,
    pos: Vec2,
    size: Vec2,
    id: u32,
)
    requires
        domain.wf(),
        size.x >= 0,
        size.y >= 0,
        domain.span_of(pos, size.x as int, size.y as int) is Ok,
        domain.span_of(pos, 2 * size.x, 2 * size.y) is Ok,
        ({
            let own = domain.span_of(pos, size.x as int, size.y as int).unwrap();
            exists|c: Cell| in_span(c, own.0, own.1) && (#[trigger] bucket_at(m, c)).contains(id)
        }),
    ensures
        ({
            let wide = domain.span_of(pos, 2 * size.x, 2 * size.y).unwrap();
            ids_in(m, wide.0, wide.1).contains(id)
        }),
{
    let own = domain.span_of(pos, size.x as int, size.y as int).unwrap();
    let c = choose|c: Cell| in_span(c, own.0, own.1) && (#[trigger] bucket_at(m, c)).contains(id);
    lemma_wide_span_covers(domain, pos, size, c);
}

} // verus!
