use spatial_hash::{Cell, Entity, Error, SpatialHash, Vec2};

fn fx(v: f64) -> i32 {
    (v * 10_000.0).round() as i32
}

fn vec2(x: f64, y: f64) -> Vec2 {
    Vec2::new(fx(x), fx(y))
}

fn create_grid() -> SpatialHash {
    let cell_size = vec2(1.0, 1.0);
    let start = vec2(0.0, 0.0);
    let end = vec2(99.0, 99.0);
    SpatialHash::new(cell_size, start, end).unwrap()
}

fn all_ids(grid: &SpatialHash) -> Vec<u32> {
    let mut ids = Vec::new();
    for col in -1..=100 {
        for row in -1..=100 {
            if let Some(bucket) = grid.bucket(&Cell { col, row }) {
                ids.extend(bucket.iter().cloned());
            }
        }
    }
    ids
}

#[test]
fn new_grid() {
    let cell_size = vec2(10.0, 10.0);
    let start = vec2(0.0, 0.0);
    let end = vec2(99.0, 99.0);
    let res = SpatialHash::new(cell_size, start, end);
    assert!(res.is_ok());
    let grid = res.unwrap();
    assert_eq!(grid.num_cells().cols, 10);
    assert_eq!(grid.num_cells().rows, 10);
}

#[test]
fn grid_where_cell_size_and_bounds_are_not_dividable() {
    let cell_size = vec2(3.0, 3.0);
    let start = vec2(0.0, 0.0);
    let end = vec2(99.0, 99.0);
    let res = SpatialHash::new(cell_size, start, end);
    assert!(res.is_ok());
    let grid = res.unwrap();
    // 100 -> 102 / 3 = 34
    assert_eq!(grid.num_cells().cols, 34);
    assert_eq!(grid.num_cells().rows, 34);
}

#[test]
fn new_grid_where_num_cells_zero() {
    let cell_size = vec2(3.0, 3.0);
    let start = vec2(0.0, 0.0);
    let end = vec2(0.0, -1.0);
    let res = SpatialHash::new(cell_size, start, end);
    assert!(res.is_err());
}

#[test]
fn create_entity() -> Result<(), Error> {
    // Arrange
    let mut grid = create_grid();
    let pos = vec2(42.5, 42.5);
    let expected_cell = Cell::new(&pos, &grid)?;
    let size = vec2(1.0, 1.0);

    // Act
    let res = grid.create(pos, size);

    // Assert
    assert!(res.is_ok());
    let entity = res.unwrap();
    let occupied_cells: usize = grid.occupancy();
    assert_eq!(occupied_cells, 1, "expected 1 cell being occopied");
    let res = grid.bucket(&expected_cell);
    assert!(res.is_some());
    let id = res.unwrap()[0];
    assert_eq!(entity.id, id);
    Ok(())
}

#[test]
fn remove_entity() -> Result<(), Error> {
    // Arrange
    let mut grid = create_grid();
    let pos = vec2(42.5, 42.5);
    let expected_cell = Cell::new(&pos, &grid)?;
    let size = vec2(1.0, 1.0);
    grid.create(pos, size)?;

    // Act
    grid.remove(&expected_cell, &expected_cell, 0)?;

    // Assert
    let occupied_cells: usize = grid.occupancy();
    assert_eq!(occupied_cells, 0, "expected 0 cell being occopied");
    let res = grid.bucket(&expected_cell);
    assert!(res.is_none());
    Ok(())
}

#[test]
fn update_entity() -> Result<(), Error> {
    // Arrange
    let mut grid = create_grid();
    let pos = vec2(42.5, 42.5);
    let expected_none_cell = Cell::new(&pos, &grid)?;
    let size = vec2(1.0, 1.0);
    let mut entity = grid.create(pos, size).unwrap();
    let new_pos = vec2(41.5, 41.5);
    let expected_cell = Cell::new(&new_pos, &grid)?;
    entity.pos = new_pos;

    // Act
    let entity = grid.update(entity)?;

    // Assert
    let occupied_cells: usize = grid.occupancy();
    assert_eq!(occupied_cells, 1, "expected 1 cell being occopied");
    let res = grid.bucket(&expected_none_cell);
    assert!(res.is_none());
    let res = grid.bucket(&expected_cell);
    assert!(res.is_some());
    let id = res.unwrap()[0];
    assert_eq!(entity.id, id);
    Ok(())
}

#[test]
fn find_nearest_single_entity() -> Result<(), Error> {
    // Arrange
    let mut grid = create_grid();
    let pos = vec2(42.5, 42.5);
    let size = vec2(1.0, 1.0);

    // Act
    let entity = grid.create(pos, size)?;
    let found = grid.find_nearest(&entity)?;

    // Assert: should find itself only
    assert_eq!(found.len(), 1);
    assert!(found.contains(&entity.id));
    Ok(())
}

#[test]
fn find_nearest_includes_neighbor_when_large() -> Result<(), Error> {
    // Arrange
    let mut grid = create_grid();
    // create a larger entity that spans multiple cells
    let pos_a = vec2(42.5, 42.5);
    let size_a = vec2(3.0, 3.0); // spans approx cols 41..=43
    let entity_a = grid.create(pos_a, size_a)?;

    // create a nearby entity inside that span
    let pos_b = vec2(43.5, 42.5);
    let size_b = vec2(1.0, 1.0);
    let entity_b = grid.create(pos_b, size_b)?;

    // Act
    let found = grid.find_nearest(&entity_a)?;

    // Assert: should find both ids (self and neighbor)
    assert!(found.contains(&entity_a.id), "should contain self id");
    assert!(found.contains(&entity_b.id), "should contain neighbor id");
    assert_eq!(found.len(), 2);
    Ok(())
}

#[test]
fn find_nearest_does_not_include_far_entities() -> Result<(), Error> {
    // Arrange
    let mut grid = create_grid();
    let pos_a = vec2(42.5, 42.5);
    let size_a = vec2(1.0, 1.0);
    let entity_a = grid.create(pos_a, size_a)?;

    // create a far away entity
    let pos_far = vec2(50.5, 50.5);
    let size_far = vec2(1.0, 1.0);
    let entity_far = grid.create(pos_far, size_far)?;

    // Act
    let found = grid.find_nearest(&entity_a)?;

    // Assert: should only find the near entity (self)
    assert!(found.contains(&entity_a.id));
    assert!(!found.contains(&entity_far.id));
    assert_eq!(found.len(), 1);
    Ok(())
}

#[test]
fn create_entity_no_size() -> Result<(), Error> {
    // Arrange
    let mut grid = create_grid();
    let pos = vec2(42.0, 42.0);
    let expected_cell = Cell::new(&pos, &grid)?;
    let size = vec2(0.0, 0.0);

    // Act
    let res = grid.create(pos, size);

    // Assert
    assert!(res.is_ok());
    let entity = res.unwrap();
    let occupied_cells: usize = grid.occupancy();
    assert_eq!(occupied_cells, 1, "expected 1 cell being occopied");
    let res = grid.bucket(&expected_cell);
    assert!(res.is_some());
    let id = res.unwrap()[0];
    assert_eq!(entity.id, id);
    Ok(())
}

#[test]
fn create_two_entities() -> Result<(), Error> {
    // Arrange
    let mut grid = create_grid();
    let pos = vec2(42.5, 42.5);
    let pos2 = vec2(30.5, 30.5);
    let expected_cell = Cell::new(&pos, &grid)?;
    let expected_cell2 = Cell::new(&pos2, &grid)?;
    let size = vec2(1.0, 1.0);

    // Act
    let res = grid.create(pos, size.clone());
    let res2 = grid.create(pos2, size);

    // Assert
    assert!(res.is_ok());
    assert!(res2.is_ok());
    let entity = res.unwrap();
    let entity2 = res2.unwrap();
    let occupied_cells: usize = grid.occupancy();
    assert_eq!(occupied_cells, 2, "expected 2 cell being occopied");
    let res = grid.bucket(&expected_cell);
    let res2 = grid.bucket(&expected_cell2);
    assert!(res.is_some());
    assert!(res2.is_some());
    let id = res.unwrap()[0];
    let id2 = res2.unwrap()[0];
    assert_eq!(entity.id, id);
    assert_eq!(entity2.id, id2);
    Ok(())
}

#[test]
fn create_two_overlapping_entities() -> Result<(), Error> {
    // Arrange
    let mut grid = create_grid();
    let pos = vec2(42.5, 42.5);
    let pos2 = vec2(42.5, 42.5);
    let expected_cell = Cell::new(&pos, &grid)?;
    let size = vec2(1.0, 1.0);

    // Act
    let res = grid.create(pos, size.clone());
    let res2 = grid.create(pos2, size);

    // Assert
    assert!(res.is_ok());
    assert!(res2.is_ok());
    let entity = res.unwrap();
    let entity2 = res2.unwrap();
    let occupied_cells: usize = grid.occupancy();
    assert_eq!(occupied_cells, 2, "expected 2 cell being occopied");
    let res = grid.bucket(&expected_cell);
    assert!(res.is_some());
    let id = res.unwrap()[0];
    let id2 = res.unwrap()[1];
    assert_eq!(entity.id, id);
    assert_eq!(entity2.id, id2);
    Ok(())
}

#[test]
fn create_bigger_entity() -> Result<(), Error> {
    // Arrange
    let mut grid = create_grid();
    let pos = vec2(42.5, 42.5);
    let expected_cell = Cell::new(&pos, &grid)?;
    let size = vec2(3.0, 3.0);

    // Act
    let res = grid.create(pos, size);

    // Assert
    assert!(res.is_ok());
    let entity = res.unwrap();
    let occupied_cells: usize = grid.occupancy();
    assert!(all_ids(&grid).iter().all(|&id| id == entity.id));
    assert_eq!(all_ids(&grid).len(), 9);
    assert_eq!(occupied_cells, 9, "expected 3x3 cells being occopied");
    let res = grid.bucket(&expected_cell);
    assert!(res.is_some());
    let id = res.unwrap()[0];
    assert_eq!(entity.id, id);
    Ok(())
}

#[test]
fn new_grid_has_cells_on_both_axes() {
    for (cell, end) in [(1.0, 99.0), (3.0, 99.0), (10.0, 99.0), (250.0, 0.0), (0.5, 7.25)] {
        let grid = SpatialHash::new(vec2(cell, cell), vec2(0.0, 0.0), vec2(end, end)).unwrap();
        assert!(grid.num_cells().cols > 0);
        assert!(grid.num_cells().rows > 0);
    }
}

#[test]
fn new_grid_counts_the_end_as_part_of_the_domain() {
    let grid = SpatialHash::new(vec2(1.0, 1.0), vec2(0.0, 0.0), vec2(99.0, 99.0)).unwrap();
    assert_eq!(grid.num_cells().cols, 100);
    assert_eq!(grid.num_cells().rows, 100);
    assert_eq!(grid.domain().start, vec2(0.0, 0.0));
    assert_eq!(grid.domain().end_x, 1_000_000);
    assert_eq!(grid.domain().end_y, 1_000_000);
    assert_eq!(grid.next_id(), 0);
    assert_eq!(grid.occupancy(), 0);
}

#[test]
fn new_grid_pads_the_end_to_a_cell_boundary() {
    let grid = SpatialHash::new(vec2(3.0, 3.0), vec2(0.0, 0.0), vec2(99.0, 99.0)).unwrap();
    assert_eq!(grid.domain().end_x, 1_020_000);
    assert_eq!(grid.domain().end_y, 1_020_000);
    let grid = SpatialHash::new(vec2(3.0, 4.0), vec2(-5.0, 2.0), vec2(4.0, 9.0)).unwrap();
    // x: 10 wide -> 4 cells of 3 -> 12; y: 8 wide -> 2 cells of 4 -> 8
    assert_eq!(grid.num_cells().cols, 4);
    assert_eq!(grid.num_cells().rows, 2);
    assert_eq!(grid.domain().end_x, 70_000);
    assert_eq!(grid.domain().end_y, 100_000);
}

#[test]
fn new_grid_with_inverted_domain_is_num_cells_equal_zero() {
    let res = SpatialHash::new(vec2(3.0, 3.0), vec2(0.0, 0.0), vec2(0.0, -1.0));
    assert_eq!(res.err(), Some(Error::NumCellsEqualZero));
    let res = SpatialHash::new(vec2(3.0, 3.0), vec2(0.0, 0.0), vec2(-1.0, 0.0));
    assert_eq!(res.err(), Some(Error::NumCellsEqualZero));
    let res = SpatialHash::new(vec2(3.0, 3.0), vec2(10.0, 10.0), vec2(2.0, 50.0));
    assert_eq!(res.err(), Some(Error::NumCellsEqualZero));
    // one unit above the inverted domain there is a cell again
    let res = SpatialHash::new(vec2(3.0, 3.0), vec2(0.0, 0.0), Vec2::new(0, -9_999));
    assert!(res.is_ok());
}

#[test]
fn new_grid_refuses_a_cell_size_that_is_not_positive() {
    let res = SpatialHash::new(vec2(0.0, 1.0), vec2(0.0, 0.0), vec2(99.0, 99.0));
    assert_eq!(res.err(), Some(Error::InvalidCellSize));
    let res = SpatialHash::new(vec2(1.0, 0.0), vec2(0.0, 0.0), vec2(99.0, 99.0));
    assert_eq!(res.err(), Some(Error::InvalidCellSize));
    let res = SpatialHash::new(vec2(-1.0, 1.0), vec2(0.0, 0.0), vec2(99.0, 99.0));
    assert_eq!(res.err(), Some(Error::InvalidCellSize));
    let res = SpatialHash::new(vec2(1.0, -2.0), vec2(0.0, 0.0), vec2(-9.0, -9.0));
    assert_eq!(res.err(), Some(Error::InvalidCellSize));
}

#[test]
fn new_grid_clamps_the_cell_counts() {
    let grid = SpatialHash::new(
        Vec2::new(1, 1),
        Vec2::new(i32::MIN, i32::MIN),
        Vec2::new(i32::MAX, i32::MAX),
    )
    .unwrap();
    assert_eq!(grid.num_cells().cols, u32::MAX);
    assert_eq!(grid.num_cells().rows, u32::MAX);
    assert_eq!(grid.domain().end_x, i32::MAX as i64 + 10_000);
    let cell = Cell::new(&Vec2::new(i32::MAX, i32::MIN), &grid).unwrap();
    assert_eq!(cell, Cell { col: i32::MAX, row: 0 });
}

#[test]
fn cell_of_position() {
    let grid = create_grid();
    assert_eq!(Cell::new(&vec2(42.5, 42.5), &grid), Ok(Cell { col: 42, row: 42 }));
    assert_eq!(Cell::new(&vec2(0.0, 0.0), &grid), Ok(Cell { col: 0, row: 0 }));
    assert_eq!(Cell::new(&vec2(0.9999, 1.0), &grid), Ok(Cell { col: 0, row: 1 }));
    assert_eq!(Cell::new(&vec2(99.9999, 7.3), &grid), Ok(Cell { col: 99, row: 7 }));
    let grid = SpatialHash::new(vec2(3.0, 3.0), vec2(0.0, 0.0), vec2(99.0, 99.0)).unwrap();
    assert_eq!(Cell::new(&vec2(42.5, 2.9999), &grid), Ok(Cell { col: 14, row: 0 }));
    assert_eq!(Cell::new(&vec2(101.9999, 3.0), &grid), Ok(Cell { col: 33, row: 1 }));
    let grid = SpatialHash::new(vec2(2.0, 5.0), vec2(-10.0, 20.0), vec2(9.0, 39.0)).unwrap();
    assert_eq!(Cell::new(&vec2(-10.0, 20.0), &grid), Ok(Cell { col: 0, row: 0 }));
    assert_eq!(Cell::new(&vec2(-0.5, 38.0), &grid), Ok(Cell { col: 4, row: 3 }));
}

#[test]
fn cell_below_the_domain_is_out_of_bounds_on_each_axis() {
    let grid = SpatialHash::new(vec2(1.0, 1.0), vec2(10.0, 10.0), vec2(19.0, 19.0)).unwrap();
    assert_eq!(Cell::new(&vec2(9.9999, 15.0), &grid), Err(Error::OutOfBounds));
    assert_eq!(Cell::new(&vec2(15.0, 9.9999), &grid), Err(Error::OutOfBounds));
    assert_eq!(Cell::new(&vec2(9.0, 9.0), &grid), Err(Error::OutOfBounds));
    // above the start on the first axis, below it on the second
    assert_eq!(Cell::new(&vec2(12.0, 3.0), &grid), Err(Error::OutOfBounds));
    // below the start on the first axis, above it on the second
    assert_eq!(Cell::new(&vec2(3.0, 12.0), &grid), Err(Error::OutOfBounds));
    assert_eq!(Cell::new(&vec2(10.0, 10.0), &grid), Ok(Cell { col: 0, row: 0 }));
}

#[test]
fn cell_above_the_domain_is_not_refused() {
    let grid = create_grid();
    assert_eq!(Cell::new(&vec2(100.0, 50.0), &grid), Ok(Cell { col: 100, row: 50 }));
    assert_eq!(Cell::new(&vec2(250.5, 1000.0), &grid), Ok(Cell { col: 250, row: 1000 }));
}

#[test]
fn create_gives_the_span_and_the_next_id() {
    let mut grid = create_grid();
    let a = grid.create(vec2(42.5, 42.5), vec2(1.0, 1.0)).unwrap();
    assert_eq!(
        a,
        Entity {
            pos: vec2(42.5, 42.5),
            start: Cell { col: 42, row: 42 },
            end: Cell { col: 42, row: 42 },
            size: vec2(1.0, 1.0),
            id: 0,
        }
    );
    let b = grid.create(vec2(42.5, 42.5), vec2(3.0, 3.0)).unwrap();
    assert_eq!(b.start, Cell { col: 41, row: 41 });
    assert_eq!(b.end, Cell { col: 43, row: 43 });
    assert_eq!(b.id, 1);
    assert_eq!(grid.next_id(), 2);
}

#[test]
fn create_fills_every_cell_of_the_span_once() {
    let mut grid = create_grid();
    let before = grid.occupancy();
    // 3 columns by 2 rows
    let e = grid.create(vec2(10.5, 20.0), vec2(3.0, 2.0)).unwrap();
    assert_eq!(e.start, Cell { col: 9, row: 19 });
    assert_eq!(e.end, Cell { col: 11, row: 20 });
    assert_eq!(grid.occupancy(), before + 6);
    for col in 9..=11 {
        for row in 19..=20 {
            assert_eq!(grid.bucket(&Cell { col, row }), Some(&vec![e.id]));
        }
    }
    assert_eq!(grid.bucket(&Cell { col: 8, row: 19 }), None);
    assert_eq!(grid.bucket(&Cell { col: 12, row: 20 }), None);
    assert_eq!(grid.bucket(&Cell { col: 9, row: 18 }), None);
    assert_eq!(grid.bucket(&Cell { col: 11, row: 21 }), None);
    assert_eq!(all_ids(&grid), vec![e.id; 6]);
}

#[test]
fn create_does_not_claim_a_cell_that_the_box_only_touches() {
    let mut grid = create_grid();
    // from 41.0 to 43.0: the cells 41 and 42, not 40 and not 43
    let e = grid.create(vec2(42.0, 42.0), vec2(2.0, 2.0)).unwrap();
    assert_eq!(e.start, Cell { col: 41, row: 41 });
    assert_eq!(e.end, Cell { col: 42, row: 42 });
    assert_eq!(grid.occupancy(), 4);
    // a box without extent on one axis has one cell there
    let e = grid.create(vec2(10.0, 10.0), vec2(0.0, 2.0)).unwrap();
    assert_eq!(e.start, Cell { col: 10, row: 9 });
    assert_eq!(e.end, Cell { col: 10, row: 10 });
    assert_eq!(grid.occupancy(), 6);
}

#[test]
fn create_below_the_domain_is_out_of_bounds_and_changes_nothing() {
    let mut grid = create_grid();
    grid.create(vec2(5.5, 5.5), vec2(1.0, 1.0)).unwrap();
    let res = grid.create(vec2(-1.0, 5.0), vec2(1.0, 1.0));
    assert_eq!(res, Err(Error::OutOfBounds));
    let res = grid.create(vec2(5.0, -1.0), vec2(1.0, 1.0));
    assert_eq!(res, Err(Error::OutOfBounds));
    // the centre lies in the domain, the lower corner does not
    let res = grid.create(vec2(0.5, 0.5), vec2(2.0, 2.0));
    assert_eq!(res, Err(Error::OutOfBounds));
    assert_eq!(grid.occupancy(), 1);
    assert_eq!(grid.next_id(), 1);
    assert_eq!(all_ids(&grid), vec![0]);
}

#[test]
fn create_then_remove_restores_the_occupancy() {
    let mut grid = create_grid();
    grid.create(vec2(42.5, 42.5), vec2(3.0, 3.0)).unwrap();
    grid.create(vec2(43.5, 42.5), vec2(1.0, 1.0)).unwrap();
    let before = grid.occupancy();
    let ids_before = all_ids(&grid);
    let e = grid.create(vec2(42.0, 43.0), vec2(4.0, 2.0)).unwrap();
    assert_eq!(grid.occupancy(), before + 8);
    grid.remove(&e.start, &e.end, e.id).unwrap();
    assert_eq!(grid.occupancy(), before);
    assert_eq!(all_ids(&grid), ids_before);
}

#[test]
fn remove_keeps_the_order_of_the_others() {
    let mut grid = create_grid();
    let pos = vec2(7.5, 7.5);
    let size = vec2(1.0, 1.0);
    let a = grid.create(pos, size).unwrap();
    let b = grid.create(pos, size).unwrap();
    let c = grid.create(pos, size).unwrap();
    let cell = Cell { col: 7, row: 7 };
    assert_eq!(grid.bucket(&cell), Some(&vec![a.id, b.id, c.id]));
    grid.remove(&b.start, &b.end, b.id).unwrap();
    assert_eq!(grid.bucket(&cell), Some(&vec![a.id, c.id]));
    grid.remove(&a.start, &a.end, a.id).unwrap();
    assert_eq!(grid.bucket(&cell), Some(&vec![c.id]));
    grid.remove(&c.start, &c.end, c.id).unwrap();
    assert_eq!(grid.bucket(&cell), None);
    assert_eq!(grid.occupancy(), 0);
}

#[test]
fn remove_of_an_absent_id_changes_nothing() {
    let mut grid = create_grid();
    let a = grid.create(vec2(7.5, 7.5), vec2(3.0, 3.0)).unwrap();
    let res = grid.remove(&Cell { col: 0, row: 0 }, &Cell { col: 99, row: 99 }, 77);
    assert_eq!(res, Ok(()));
    assert_eq!(grid.occupancy(), 9);
    // once more for the entity itself, twice
    grid.remove(&a.start, &a.end, a.id).unwrap();
    grid.remove(&a.start, &a.end, a.id).unwrap();
    assert_eq!(grid.occupancy(), 0);
    // an empty span
    let b = grid.create(vec2(7.5, 7.5), vec2(1.0, 1.0)).unwrap();
    grid.remove(&Cell { col: 8, row: 8 }, &Cell { col: 7, row: 7 }, b.id).unwrap();
    assert_eq!(grid.occupancy(), 1);
}

#[test]
fn ids_are_not_used_again() {
    let mut grid = create_grid();
    let a = grid.create(vec2(7.5, 7.5), vec2(1.0, 1.0)).unwrap();
    grid.remove(&a.start, &a.end, a.id).unwrap();
    let b = grid.create(vec2(7.5, 7.5), vec2(1.0, 1.0)).unwrap();
    let c = grid.create(vec2(8.5, 7.5), vec2(1.0, 1.0)).unwrap();
    assert_eq!((a.id, b.id, c.id), (0, 1, 2));
}

#[test]
fn update_leaves_nothing_in_the_old_span() {
    let mut grid = create_grid();
    let other = grid.create(vec2(11.5, 11.5), vec2(1.0, 1.0)).unwrap();
    let mut e = grid.create(vec2(10.5, 10.5), vec2(3.0, 3.0)).unwrap();
    assert_eq!(grid.occupancy(), 10);
    e.pos = vec2(12.5, 10.5);
    let e = grid.update(e).unwrap();
    assert_eq!(e.start, Cell { col: 11, row: 9 });
    assert_eq!(e.end, Cell { col: 13, row: 11 });
    assert_eq!(e.pos, vec2(12.5, 10.5));
    assert_eq!(grid.occupancy(), 10);
    for row in 9..=11 {
        // left behind
        assert_eq!(grid.bucket(&Cell { col: 9, row }), None);
        assert_eq!(grid.bucket(&Cell { col: 10, row }), None);
        // newly claimed
        assert_eq!(grid.bucket(&Cell { col: 13, row }), Some(&vec![e.id]));
    }
    // in both spans: the identifier moved to the end of the bucket
    assert_eq!(grid.bucket(&Cell { col: 11, row: 11 }), Some(&vec![other.id, e.id]));
    assert_eq!(grid.bucket(&Cell { col: 12, row: 10 }), Some(&vec![e.id]));
    // a new extent
    let mut e = e;
    e.size = vec2(1.0, 1.0);
    let e = grid.update(e).unwrap();
    assert_eq!((e.start, e.end), (Cell { col: 12, row: 10 }, Cell { col: 12, row: 10 }));
    assert_eq!(grid.occupancy(), 2);
}

#[test]
fn update_out_of_bounds_leaves_the_entity_out_of_the_grid() {
    let mut grid = create_grid();
    let mut e = grid.create(vec2(10.5, 10.5), vec2(3.0, 3.0)).unwrap();
    let other = grid.create(vec2(10.5, 10.5), vec2(1.0, 1.0)).unwrap();
    e.pos = vec2(-3.0, 10.5);
    assert_eq!(grid.update(e), Err(Error::OutOfBounds));
    assert_eq!(grid.occupancy(), 1);
    assert_eq!(all_ids(&grid), vec![other.id]);
    assert_eq!(grid.next_id(), 2);
}

#[test]
fn find_nearest_searches_twice_the_extent() {
    let mut grid = create_grid();
    let a = grid.create(vec2(42.5, 42.5), vec2(1.0, 1.0)).unwrap();
    // the search box reaches from 41.5 to 43.5: the cells 41 to 43
    let near = grid.create(vec2(43.5, 41.5), vec2(1.0, 1.0)).unwrap();
    let far = grid.create(vec2(44.5, 42.5), vec2(1.0, 1.0)).unwrap();
    let wide = grid.create(vec2(46.0, 42.5), vec2(6.0, 1.0)).unwrap();
    let found = grid.find_nearest(&a).unwrap();
    assert!(found.contains(&a.id));
    assert!(found.contains(&near.id));
    assert!(!found.contains(&far.id));
    assert!(found.contains(&wide.id));
    assert_eq!(found.len(), 3);
    // the search does not change the grid
    assert_eq!(grid.occupancy(), 9);
}

#[test]
fn find_nearest_of_an_entity_that_is_not_registered() {
    let mut grid = create_grid();
    let a = grid.create(vec2(42.5, 42.5), vec2(1.0, 1.0)).unwrap();
    let b = grid.create(vec2(42.5, 43.5), vec2(1.0, 1.0)).unwrap();
    grid.remove(&a.start, &a.end, a.id).unwrap();
    let found = grid.find_nearest(&a).unwrap();
    assert!(!found.contains(&a.id));
    assert!(found.contains(&b.id));
    assert_eq!(found.len(), 1);
}

#[test]
fn find_nearest_below_the_domain_is_out_of_bounds() {
    let mut grid = create_grid();
    // registered, but twice its extent reaches below the domain
    let a = grid.create(vec2(0.5, 0.5), vec2(1.0, 1.0)).unwrap();
    assert_eq!(grid.find_nearest(&a).err(), Some(Error::OutOfBounds));
    let b = grid.create(vec2(0.5, 0.5), vec2(0.0, 0.0)).unwrap();
    let found = grid.find_nearest(&b).unwrap();
    assert!(found.contains(&a.id));
    assert!(found.contains(&b.id));
    assert_eq!(found.len(), 2);
}

#[test]
fn an_id_that_the_grid_already_holds_is_removed_with_the_new_entity() {
    // an entity of another grid brings the identifier that this grid
    // hands out next
    let mut other_grid = create_grid();
    let foreign = other_grid.create(vec2(5.5, 5.5), vec2(1.0, 1.0)).unwrap();
    let mut grid = create_grid();
    grid.update(foreign).unwrap();
    let before = grid.occupancy();
    assert_eq!(before, 1);
    let e = grid.create(vec2(5.5, 5.5), vec2(1.0, 1.0)).unwrap();
    assert_eq!(e.id, foreign.id);
    grid.remove(&e.start, &e.end, e.id).unwrap();
    assert_eq!(grid.occupancy(), 0);
}

#[test]
fn find_nearest_of_a_box_with_negative_extent_may_miss_it() {
    let mut grid =
        SpatialHash::new(vec2(10.0, 10.0), vec2(-100.0, -100.0), vec2(99.0, 99.0)).unwrap();
    // the corners swap sides and fall into one cell
    let e = grid.create(vec2(5.0, 5.0), vec2(-8.0, -8.0)).unwrap();
    assert_eq!((e.start, e.end), (Cell { col: 10, row: 10 }, Cell { col: 10, row: 10 }));
    assert_eq!(grid.bucket(&Cell { col: 10, row: 10 }), Some(&vec![e.id]));
    // with twice the extent they fall into cells in the wrong order
    let found = grid.find_nearest(&e).unwrap();
    assert!(found.is_empty());
}

#[test]
fn span_of_a_thin_box_on_a_boundary_is_inverted() {
    let mut grid = create_grid();
    // one unit wide, centred on the boundary between the cells 41 and 42
    let e = grid.create(vec2(42.0, 42.5), Vec2::new(1, 10_000)).unwrap();
    assert_eq!((e.start.col, e.end.col), (42, 41));
    assert_eq!((e.start.row, e.end.row), (42, 42));
    assert_eq!(grid.occupancy(), 0);
    // two units wide, both sides are pulled in to the centre
    let e = grid.create(vec2(42.0, 42.5), Vec2::new(2, 10_000)).unwrap();
    assert_eq!((e.start.col, e.end.col), (42, 42));
    assert_eq!(grid.occupancy(), 1);
    // three units wide it has both cells
    let e = grid.create(vec2(42.0, 42.5), Vec2::new(3, 10_000)).unwrap();
    assert_eq!((e.start.col, e.end.col), (41, 42));
    assert_eq!(grid.occupancy(), 3);
}
