//! The grid store: buckets of entity identifiers, keyed by cell.
use std::collections::{HashMap, HashSet};
use vstd::prelude::*;
use vstd::std_specs::hash::spec_hash_map_iter;
use vstd::std_specs::iter::IteratorSpec;
use crate::buckets::{
    bucket_at, ids_in, ids_upto, in_span, inserted, inserted_upto, lemma_total_split,
    lemma_without_push, no_empty_bucket, passed, removed, removed_upto, span_area, total_entries,
    without,
};
use crate::cell::{lower2, upper2, Cell, Dimensions, Domain, EPSILON};
use crate::entity::Entity;
use crate::error::Error;
use crate::laws::lemma_insert_adds_area;
use crate::vec2::Vec2;

verus! {

/// The key under which the bucket of a cell is stored: column and row, each
/// moved up by 2^31 so that neither is negative, side by side in one word.
spec fn key_of(c: Cell) -> u64 {
    ((c.col + 0x8000_0000) * 0x1_0000_0000 + (c.row + 0x8000_0000)) as u64
}

/// The cell whose bucket is stored under `k`.
spec fn cell_of_key(k: u64) -> Cell {
    Cell {
        col: (k / 0x1_0000_0000 - 0x8000_0000) as i32,
        row: (k % 0x1_0000_0000 - 0x8000_0000) as i32,
    }
}

/// Keys and cells correspond one to one.
proof fn lemma_key_bijection()
    ensures
        forall|c: Cell| cell_of_key(#[trigger] key_of(c)) == c,
        forall|k: u64| key_of(#[trigger] cell_of_key(k)) == k,
{
}

fn key(col: i32, row: i32) -> (k: u64)
    ensures
        k == key_of(Cell { col, row }),
{
    let c: u64 = (col as i64 + 0x8000_0000) as u64;
    let r: u64 = (row as i64 + 0x8000_0000) as u64;
    c * 0x1_0000_0000 + r
}

/// The lengths of the buckets of a walk through the store, added up.
spec fn sum_lens(walk: Seq<(&u64, &Vec<u32>)>) -> nat
    decreases walk.len(),
{
    if walk.len() == 0 {
        0
    } else {
        sum_lens(walk.drop_last()) + walk.last().1@.len()
    }
}

/// `n`, or the largest `usize` where `n` is above it.
pub open spec fn clamp_usize(n: nat) -> usize {
    if n > usize::MAX {
        usize::MAX
    } else {
        n as usize
    }
}

/// A walk that meets each bucket of the store once adds up the total
/// number of entries.
proof fn lemma_walk_total(walk: Seq<(&u64, &Vec<u32>)>, m: Map<Cell, Seq<u32>>)
    requires
        m.dom().finite(),
        walk.len() == m.dom().len(),
        forall|i: int|
            0 <= i < walk.len() ==> m.contains_key(cell_of_key(*(#[trigger] walk[i]).0))
                && m[cell_of_key(*walk[i].0)] == walk[i].1@,
        forall|i: int, j: int|
            0 <= i < j < walk.len() ==> *(#[trigger] walk[i]).0 != *(#[trigger] walk[j]).0,
    ensures
        sum_lens(walk) == total_entries(m),
    decreases walk.len(),
{
    lemma_key_bijection();
    if walk.len() > 0 {
        let rest = walk.drop_last();
        let c = cell_of_key(*walk.last().0);
        assert(walk[walk.len() - 1] == walk.last());
        assert forall|i: int| 0 <= i < rest.len() implies m.remove(c).contains_key(
            cell_of_key(*(#[trigger] rest[i]).0),
        ) && m.remove(c)[cell_of_key(*rest[i].0)] == rest[i].1@ by {
            assert(rest[i] == walk[i]);
            assert(*walk[i].0 != *walk[walk.len() - 1].0);
            assert(key_of(cell_of_key(*walk[i].0)) == *walk[i].0);
            assert(key_of(c) == *walk.last().0);
        }
        assert forall|i: int, j: int| 0 <= i < j < rest.len() implies *(#[trigger] rest[i]).0
            != *(#[trigger] rest[j]).0 by {
            assert(rest[i] == walk[i] && rest[j] == walk[j]);
        }
        lemma_walk_total(rest, m.remove(c));
        lemma_total_split(m, c);
    }
}

/// A uniform grid over a bounded domain that records, for each cell, the
/// identifiers of the entities whose boxes reach into it.
#[derive(Debug)]
pub struct SpatialHash {
    cells: HashMap<u64, Vec<u32>>,
    domain: Domain,
    id: u32,
}

impl View for SpatialHash {
    type V = Map<Cell, Seq<u32>>;

    /// The buckets: for each occupied cell, the identifiers in it, oldest
    /// first.
    closed spec fn view(&self) -> Map<Cell, Seq<u32>> {
        Map::new(
            |c: Cell| self.cells@.contains_key(key_of(c)),
            |c: Cell| self.cells@[key_of(c)]@,
        )
    }
}

impl SpatialHash {
    /// Where the lattice lies.
    pub closed spec fn spec_domain(&self) -> Domain {
        self.domain
    }

    /// The identifier that the next entity will get.
    pub closed spec fn spec_next_id(&self) -> u32 {
        self.id
    }

    /// The lattice is well formed and no bucket is empty.
    pub open spec fn wf(&self) -> bool {
        &&& self.spec_domain().wf()
        &&& no_empty_bucket(self@)
    }

    /// Only finitely many cells have a bucket.
    pub proof fn lemma_finite(&self)
        ensures
            self@.dom().finite(),
    {
        lemma_key_bijection();
        let keys = self.cells@.dom();
        let cells = keys.map(|k: u64| cell_of_key(k));
        keys.lemma_map_finite(|k: u64| cell_of_key(k));
        assert forall|c: Cell| self@.dom().contains(c) implies cells.contains(c) by {
            assert(keys.contains(key_of(c)));
            assert(cell_of_key(key_of(c)) == c);
        }
        assert(self@.dom().subset_of(cells));
        vstd::set_lib::lemma_set_subset_finite(cells, self@.dom());
    }

    /// An empty grid of cells of extent `cell_size` over the domain from
    /// `start` up to and including `end`.
    pub fn new(cell_size: Vec2, start: Vec2, end: Vec2) -> (r: Result<Self, Error>)
        ensures
            match Domain::spec_new(cell_size, start, end) {
                Err(e) => r matches Err(f) && f == e,
                Ok(d) => r matches Ok(g) && g.spec_domain() == d && g@ == Map::<
                    Cell,
                    Seq<u32>,
                >::empty() && g.spec_next_id() == 0,
            },
            r matches Ok(g) ==> g.wf() && g.spec_domain().num_cells.cols > 0
                && g.spec_domain().num_cells.rows > 0,
    {
        match Domain::new(cell_size, start, end) {
            Err(e) => Err(e),
            Ok(domain) => {
                let g = SpatialHash { cells: HashMap::new(), domain, id: 0 };
                assert(g@ =~= Map::<Cell, Seq<u32>>::empty());
                Ok(g)
            },
        }
    }

    /// Where the lattice lies.
    pub fn domain(&self) -> (r: Domain)
        ensures
            r == self.spec_domain(),
    {
        self.domain
    }

    /// The number of cells on each axis.
    pub fn num_cells(&self) -> (r: Dimensions)
        ensures
            r == self.spec_domain().num_cells,
    {
        self.domain.num_cells
    }

    /// The identifier that the next entity will get.
    pub fn next_id(&self) -> (r: u32)
        ensures
            r == self.spec_next_id(),
    {
        self.id
    }

    /// The bucket of `cell`, if it has one.
    pub fn bucket(&self, cell: &Cell) -> (r: Option<&Vec<u32>>)
        ensures
            match r {
                Some(v) => self@.contains_key(*cell) && v@ == self@[*cell],
                None => !self@.contains_key(*cell),
            },
    {
        self.cells.get(&key(cell.col, cell.row))
    }

    /// The number of entries of all buckets together, or the largest
    /// `usize` where there are more.
    pub fn occupancy(&self) -> (n: usize)
        ensures
            n == clamp_usize(total_entries(self@)),
    {
        let mut n: usize = 0;
        let ghost walk = spec_hash_map_iter(&self.cells).remaining();
        let ghost mut done: int = 0;
        for pair in it: self.cells.iter()
            invariant
                it.seq() == walk,
                walk.no_duplicates(),
                done == it.index(),
                n == clamp_usize(sum_lens(walk.take(done))),
        {
            proof {
                let upto = walk.take(done + 1);
                assert(upto.drop_last() =~= walk.take(done));
                assert(upto.last() == pair);
                done = done + 1;
            }
            n = n.saturating_add(pair.1.len());
        }
        proof {
            assert(walk.take(walk.len() as int) =~= walk);
            self.lemma_finite();
            lemma_key_bijection();
            let m = self@;
            let keys = self.cells@.dom();
            assert(m.dom() =~= keys.map(|k: u64| cell_of_key(k))) by {
                assert forall|c: Cell| m.dom().contains(c) implies keys.map(
                    |k: u64| cell_of_key(k),
                ).contains(c) by {
                    assert(keys.contains(key_of(c)));
                    assert(cell_of_key(key_of(c)) == c);
                }
            }
            vstd::set_lib::lemma_map_size(keys, m.dom(), |k: u64| cell_of_key(k));
            assert forall|i: int, j: int| 0 <= i < j < walk.len() implies *(#[trigger] walk[i]).0
                != *(#[trigger] walk[j]).0 by {
                if *walk[i].0 == *walk[j].0 {
                    assert(self.cells@[*walk[i].0] == *walk[i].1);
                    assert(self.cells@[*walk[j].0] == *walk[j].1);
                    assert(walk[i] == walk[j]);
                }
            }
            lemma_walk_total(walk, m);
        }
        n
    }

    /// Appends `id` to the bucket of the cell, making the bucket if there
    /// is none.
    fn push_id(&mut self, col: i32, row: i32, id: u32)
        ensures
            final(self)@ == old(self)@.insert(
                Cell { col, row },
                bucket_at(old(self)@, Cell { col, row }).push(id),
            ),
            final(self).domain == old(self).domain,
            final(self).id == old(self).id,
    {
        let k = key(col, row);
        let mut bucket: Vec<u32> = match self.cells.remove(&k) {
            Some(b) => b,
            None => Vec::new(),
        };
        bucket.push(id);
        self.cells.insert(k, bucket);
        proof {
            lemma_key_bijection();
            assert(self@ =~= old(self)@.insert(
                Cell { col, row },
                bucket_at(old(self)@, Cell { col, row }).push(id),
            ));
        }
    }

    /// Takes every occurrence of `id` out of the bucket of the cell, and
    /// drops the bucket if that leaves it empty.
    fn strip_id(&mut self, col: i32, row: i32, id: u32)
        ensures
            final(self)@ == ({
                let c = Cell { col, row };
                if old(self)@.contains_key(c) && without(old(self)@[c], id).len() > 0 {
                    old(self)@.insert(c, without(old(self)@[c], id))
                } else {
                    old(self)@.remove(c)
                }
            }),
            final(self).domain == old(self).domain,
            final(self).id == old(self).id,
    {
        let k = key(col, row);
        let ghost c = Cell { col, row };
        proof {
            lemma_key_bijection();
        }
        match self.cells.remove(&k) {
            Some(bucket) => {
                let kept = retain_others(&bucket, id);
                if kept.len() > 0 {
                    self.cells.insert(k, kept);
                    assert(self@ =~= old(self)@.insert(c, without(old(self)@[c], id)));
                } else {
                    assert(self@ =~= old(self)@.remove(c));
                }
            },
            None => {
                assert(self@ =~= old(self)@.remove(c));
            },
        }
    }

    /// Twice the lower and twice the upper corner of the box of extent
    /// (`size_x`, `size_y`) centred on `pos`, each side pulled in by
    /// `EPSILON` unless the box has no extent on that axis.
    fn get_start_and_end(pos: &Vec2, size_x: i64, size_y: i64) -> (r: ((i64, i64), (i64, i64)))
        requires
            -0x1_0000_0000 <= size_x <= 0x1_0000_0000,
            -0x1_0000_0000 <= size_y <= 0x1_0000_0000,
        ensures
            r.0.0 == lower2(pos.x as int, size_x as int),
            r.0.1 == lower2(pos.y as int, size_y as int),
            r.1.0 == upper2(pos.x as int, size_x as int),
            r.1.1 == upper2(pos.y as int, size_y as int),
    {
        let is_zero_x = size_x == 0;
        let is_zero_y = size_y == 0;
        let px2: i64 = 2 * (pos.x as i64);
        let py2: i64 = 2 * (pos.y as i64);
        let margin: i64 = 2 * (EPSILON as i64);
        let start_pos = (
            if is_zero_x {
                px2
            } else {
                px2 - size_x + margin
            },
            if is_zero_y {
                py2
            } else {
                py2 - size_y + margin
            },
        );
        let end_pos = (
            if is_zero_x {
                px2
            } else {
                px2 + size_x - margin
            },
            if is_zero_y {
                py2
            } else {
                py2 + size_y - margin
            },
        );
        (start_pos, end_pos)
    }

    /// The first and the last cell of the span of the box of extent
    /// (`size_x`, `size_y`) centred on `pos`.
    fn span(&self, pos: &Vec2, size_x: i64, size_y: i64) -> (r: Result<(Cell, Cell), Error>)
        requires
            self.wf(),
            -0x1_0000_0000 <= size_x <= 0x1_0000_0000,
            -0x1_0000_0000 <= size_y <= 0x1_0000_0000,
        ensures
            r == self.spec_domain().span_of(*pos, size_x as int, size_y as int),
    {
        let (start_pos, end_pos) = Self::get_start_and_end(pos, size_x, size_y);
        let start_idx = match self.domain.locate_doubled(start_pos.0, start_pos.1) {
            Ok(c) => c,
            Err(e) => {
                return Err(e);
            },
        };
        let end_idx = match self.domain.locate_doubled(end_pos.0, end_pos.1) {
            Ok(c) => c,
            Err(e) => {
                return Err(e);
            },
        };
        Ok((start_idx, end_idx))
    }

    /// Appends the identifier of `entity` to the bucket of every cell of its
    /// span.
    fn insert(&mut self, entity: &Entity)
        requires
            old(self).wf(),
        ensures
            final(self).wf(),
            final(self)@ == inserted(old(self)@, entity.start, entity.end, entity.id),
            final(self).spec_domain() == old(self).spec_domain(),
            final(self).spec_next_id() == old(self).spec_next_id(),
    {
        let first = entity.start;
        let last = entity.end;
        let id = entity.id;
        let ghost before = self@;
        let ghost domain = self.domain;
        let ghost next = self.id;
        assert(self@ =~= inserted_upto(before, first, last, first.col as int, first.row as int, id));
        let mut col: i64 = first.col as i64;
        while col <= last.col as i64
            invariant
                first.col <= col,
                col <= last.col + 1 || col == first.col,
                self@ == inserted_upto(before, first, last, col as int, first.row as int, id),
                self.domain == domain,
                self.id == next,
            decreases last.col + 1 - col,
        {
            let mut row: i64 = first.row as i64;
            while row <= last.row as i64
                invariant
                    first.col <= col <= last.col,
                    first.row <= row,
                    row <= last.row + 1 || row == first.row,
                    self@ == inserted_upto(before, first, last, col as int, row as int, id),
                    self.domain == domain,
                    self.id == next,
                decreases last.row + 1 - row,
            {
                self.push_id(col as i32, row as i32, id);
                assert(self@ =~= inserted_upto(before, first, last, col as int, row + 1, id));
                row += 1;
            }
            assert(self@ =~= inserted_upto(
                before,
                first,
                last,
                col + 1,
                first.row as int,
                id,
            ));
            col += 1;
        }
        assert(self@ =~= inserted(before, first, last, id));
    }

    /// Takes `id` out of the bucket of every cell from `start` to `end`,
    /// both included, keeps the order of what stays in each bucket, and
    /// drops each bucket that this leaves empty. A cell that does not hold
    /// `id` is left as it is. Never fails.
    pub fn remove(&mut self, start: &Cell, end: &Cell, id: u32) -> (r: Result<(), Error>)
        requires
            old(self).wf(),
        ensures
            r is Ok,
            final(self).wf(),
            final(self)@ == removed(old(self)@, *start, *end, id),
            final(self).spec_domain() == old(self).spec_domain(),
            final(self).spec_next_id() == old(self).spec_next_id(),
    {
        let first = *start;
        let last = *end;
        let ghost before = self@;
        let ghost domain = self.domain;
        let ghost next = self.id;
        assert(self@ =~= removed_upto(before, first, last, first.col as int, first.row as int, id));
        let mut col: i64 = first.col as i64;
        while col <= last.col as i64
            invariant
                first.col <= col,
                col <= last.col + 1 || col == first.col,
                self@ == removed_upto(before, first, last, col as int, first.row as int, id),
                self.domain == domain,
                self.id == next,
            decreases last.col + 1 - col,
        {
            let mut row: i64 = first.row as i64;
            while row <= last.row as i64
                invariant
                    first.col <= col <= last.col,
                    first.row <= row,
                    row <= last.row + 1 || row == first.row,
                    self@ == removed_upto(before, first, last, col as int, row as int, id),
                    self.domain == domain,
                    self.id == next,
                decreases last.row + 1 - row,
            {
                self.strip_id(col as i32, row as i32, id);
                assert(self@ =~= removed_upto(before, first, last, col as int, row + 1, id));
                row += 1;
            }
            assert(self@ =~= removed_upto(before, first, last, col + 1, first.row as int, id));
            col += 1;
        }
        assert(self@ =~= removed(before, first, last, id));
        Ok(())
    }

    /// Places a new entity: works out the span of the box of extent `size`
    /// centred on `pos`, gives the entity the next identifier and appends
    /// that identifier to the bucket of every cell of the span.
    ///
    /// Nothing changes where a corner of the box lies below the domain.
    pub fn create(&mut self, pos: Vec2, size: Vec2) -> (r: Result<Entity, Error>)
        requires
            old(self).wf(),
            old(self).spec_next_id() < u32::MAX,
        ensures
            final(self).wf(),
            final(self).spec_domain() == old(self).spec_domain(),
            match old(self).spec_domain().span_of(pos, size.x as int, size.y as int) {
                Err(e) => {
                    &&& r == Err::<Entity, Error>(e)
                    &&& final(self)@ == old(self)@
                    &&& final(self).spec_next_id() == old(self).spec_next_id()
                },
                Ok((first, last)) => {
                    &&& r == Ok::<Entity, Error>(
                        Entity { pos, start: first, end: last, size, id: old(self).spec_next_id() },
                    )
                    &&& final(self)@ == inserted(old(self)@, first, last, old(self).spec_next_id())
                    &&& final(self).spec_next_id() == old(self).spec_next_id() + 1
                    &&& total_entries(final(self)@) == total_entries(old(self)@) + span_area(
                        first,
                        last,
                    )
                },
            },
    {
        proof {
            self.lemma_finite();
        }
        let (start_idx, end_idx) = match self.span(&pos, size.x as i64, size.y as i64) {
            Ok(s) => s,
            Err(e) => {
                return Err(e);
            },
        };
        let entity = Entity::new(pos, start_idx, end_idx, size, self.id);
        proof {
            lemma_insert_adds_area(self@, start_idx, end_idx, self.id);
        }
        self.insert(&entity);
        self.id += 1;
        Ok(entity)
    }

    /// Registers an entity anew after its `pos` or `size` was assigned:
    /// takes its identifier out of the span recorded in it, works out the
    /// span of its box as it is now, and appends the identifier to the
    /// bucket of every cell of that span.
    ///
    /// Where a corner of the box lies below the domain the entity has left
    /// its old span and is put nowhere: it is then absent from the grid.
    pub fn update(&mut self, entity: Entity) -> (r: Result<Entity, Error>)
        requires
            old(self).wf(),
        ensures
            final(self).wf(),
            final(self).spec_domain() == old(self).spec_domain(),
            final(self).spec_next_id() == old(self).spec_next_id(),
            ({
                let cleared = removed(old(self)@, entity.start, entity.end, entity.id);
                match old(self).spec_domain().span_of(
                    entity.pos,
                    entity.size.x as int,
                    entity.size.y as int,
                ) {
                    Err(e) => r == Err::<Entity, Error>(e) && final(self)@ == cleared,
                    Ok((first, last)) => {
                        &&& r == Ok::<Entity, Error>(
                            Entity {
                                pos: entity.pos,
                                start: first,
                                end: last,
                                size: entity.size,
                                id: entity.id,
                            },
                        )
                        &&& final(self)@ == inserted(cleared, first, last, entity.id)
                    },
                }
            }),
    {
        let mut entity = entity;
        let _ = self.remove(&entity.start, &entity.end, entity.id);
        let (start_idx, end_idx) = match self.span(
            &entity.pos,
            entity.size.x as i64,
            entity.size.y as i64,
        ) {
            Ok(s) => s,
            Err(e) => {
                return Err(e);
            },
        };
        entity.start = start_idx;
        entity.end = end_idx;
        self.insert(&entity);
        Ok(entity)
    }

    /// The identifiers found around an entity: those in the bucket of any
    /// cell of the span of a box with the centre of the entity and twice
    /// its extent. Each identifier comes once. The entity's own identifier
    /// is among them if it is registered in one of those cells.
    pub fn find_nearest(&self, entity: &Entity) -> (r: Result<HashSet<u32>, Error>)
        requires
            self.wf(),
        ensures
            match self.spec_domain().span_of(entity.pos, 2 * entity.size.x, 2 * entity.size.y) {
                Err(e) => r matches Err(f) && f == e,
                Ok((first, last)) => r matches Ok(found) && found@ == ids_in(self@, first, last),
            },
    {
        let (first, last) = match self.span(
            &entity.pos,
            2 * (entity.size.x as i64),
            2 * (entity.size.y as i64),
        ) {
            Ok(s) => s,
            Err(e) => {
                return Err(e);
            },
        };
        let mut clients: HashSet<u32> = HashSet::new();
        assert(clients@ =~= ids_upto(self@, first, last, first.col as int, first.row as int));
        let mut col: i64 = first.col as i64;
        while col <= last.col as i64
            invariant
                first.col <= col,
                col <= last.col + 1 || col == first.col,
                clients@ == ids_upto(self@, first, last, col as int, first.row as int),
            decreases last.col + 1 - col,
        {
            let mut row: i64 = first.row as i64;
            while row <= last.row as i64
                invariant
                    first.col <= col <= last.col,
                    first.row <= row,
                    row <= last.row + 1 || row == first.row,
                    clients@ == ids_upto(self@, first, last, col as int, row as int),
                decreases last.row + 1 - row,
            {
                let cell = Cell { col: col as i32, row: row as i32 };
                let ghost seen = clients@;
                match self.bucket(&cell) {
                    Some(bucket) => {
                        let mut i: usize = 0;
                        while i < bucket.len()
                            invariant
                                i <= bucket.len(),
                                clients@ == seen.union(bucket@.take(i as int).to_set()),
                            decreases bucket.len() - i,
                        {
                            clients.insert(bucket[i]);
                            proof {
                                assert(bucket@.take(i + 1) =~= bucket@.take(i as int).push(
                                    bucket@[i as int],
                                ));
                                lemma_to_set_push(bucket@.take(i as int), bucket@[i as int]);
                                assert(clients@ =~= seen.union(bucket@.take(i + 1).to_set()));
                            }
                            i += 1;
                        }
                        assert(bucket@.take(bucket.len() as int) =~= bucket@);
                    },
                    None => {},
                }
                proof {
                    let filled = ids_upto(self@, first, last, col as int, row + 1);
                    assert forall|id: u32| clients@.contains(id) implies filled.contains(id) by {
                        if seen.contains(id) {
                            let c = choose|c: Cell|
                                passed(c, first, last, col as int, row as int) && (
                                #[trigger] bucket_at(self@, c)).contains(id);
                            assert(passed(c, first, last, col as int, row + 1));
                        } else {
                            assert(bucket_at(self@, cell).contains(id));
                            assert(passed(cell, first, last, col as int, row + 1));
                        }
                    }
                    assert forall|id: u32| filled.contains(id) implies clients@.contains(id) by {
                        let c = choose|c: Cell|
                            passed(c, first, last, col as int, row + 1) && (#[trigger] bucket_at(
                                self@,
                                c,
                            )).contains(id);
                        if c == cell {
                        } else {
                            assert(passed(c, first, last, col as int, row as int));
                        }
                    }
                    assert(clients@ =~= filled);
                }
                row += 1;
            }
            proof {
                let here = ids_upto(self@, first, last, col as int, row as int);
                let there = ids_upto(self@, first, last, col + 1, first.row as int);
                assert forall|id: u32| here.contains(id) <==> there.contains(id) by {
                    if here.contains(id) {
                        let c = choose|c: Cell|
                            passed(c, first, last, col as int, row as int) && (#[trigger] bucket_at(
                                self@,
                                c,
                            )).contains(id);
                        assert(passed(c, first, last, col + 1, first.row as int));
                    }
                    if there.contains(id) {
                        let c = choose|c: Cell|
                            passed(c, first, last, col + 1, first.row as int) && (
                            #[trigger] bucket_at(self@, c)).contains(id);
                        assert(passed(c, first, last, col as int, row as int));
                    }
                }
                assert(here =~= there);
            }
            col += 1;
        }
        proof {
            let here = ids_upto(self@, first, last, col as int, first.row as int);
            let all = ids_in(self@, first, last);
            assert forall|id: u32| here.contains(id) <==> all.contains(id) by {
                if here.contains(id) {
                    let c = choose|c: Cell|
                        passed(c, first, last, col as int, first.row as int) && (
                        #[trigger] bucket_at(self@, c)).contains(id);
                    assert(in_span(c, first, last));
                }
                if all.contains(id) {
                    let c = choose|c: Cell|
                        in_span(c, first, last) && (#[trigger] bucket_at(self@, c)).contains(id);
                    assert(passed(c, first, last, col as int, first.row as int));
                }
            }
            assert(here =~= all);
        }
        Ok(clients)
    }
}

/// The entries of `bucket` that differ from `id`, in their order.
fn retain_others(bucket: &Vec<u32>, id: u32) -> (kept: Vec<u32>)
    ensures
        kept@ == without(bucket@, id),
{
    let mut kept: Vec<u32> = Vec::new();
    let mut i: usize = 0;
    assert(bucket@.take(0) =~= Seq::<u32>::empty());
    assert(without(Seq::<u32>::empty(), id) =~= Seq::<u32>::empty()) by {
        reveal(Seq::filter);
    }
    while i < bucket.len()
        invariant
            i <= bucket.len(),
            kept@ == without(bucket@.take(i as int), id),
        decreases bucket.len() - i,
    {
        let other_id = bucket[i];
        proof {
            assert(bucket@.take(i + 1) =~= bucket@.take(i as int).push(other_id));
            lemma_without_push(bucket@.take(i as int), other_id, id);
        }
        if other_id != id {
            kept.push(other_id);
        }
        i += 1;
    }
    assert(bucket@.take(bucket.len() as int) =~= bucket@);
    kept
}

/// The set of the entries of a sequence with one more at its end.
proof fn lemma_to_set_push(s: Seq<u32>, x: u32)
    ensures
        s.push(x).to_set() == s.to_set().insert(x),
{
    assert forall|y: u32| s.push(x).to_set().contains(y) <==> s.to_set().insert(x).contains(
        y,
    ) by {
        if s.push(x).contains(y) {
            let i = choose|i: int| 0 <= i < s.push(x).len() && s.push(x)[i] == y;
            if i < s.len() {
                assert(s[i] == y);
            }
        }
        if s.contains(y) {
            let i = choose|i: int| 0 <= i < s.len() && s[i] == y;
            assert(s.push(x)[i] == y);
        }
        assert(s.push(x)[s.len() as int] == x);
    }
    assert(s.push(x).to_set() =~= s.to_set().insert(x));
}

} // verus!
