//! The bucket store as a mathematical map from cells to ordered lists of
//! entity identifiers, and what inserting into it and removing from it mean.
use vstd::prelude::*;
use crate::cell::Cell;

verus! {

/// The identifiers that occupy cell `c`, oldest first; none where the store
/// has no bucket for `c`.
pub open spec fn bucket_at(m: Map<Cell, Seq<u32>>, c: Cell) -> Seq<u32> {
    if m.contains_key(c) {
        m[c]
    } else {
        Seq::empty()
    }
}

/// No bucket of the store is an empty list.
pub open spec fn no_empty_bucket(m: Map<Cell, Seq<u32>>) -> bool {
    forall|c: Cell| m.contains_key(c) ==> (#[trigger] m[c]).len() > 0
}

/// Cell `c` lies in the rectangle of cells from `first` to `last`, both
/// included.
pub open spec fn in_span(c: Cell, first: Cell, last: Cell) -> bool {
    first.col <= c.col <= last.col && first.row <= c.row <= last.row
}

/// The number of cells from `first` to `last`, both included.
pub open spec fn span_area(first: Cell, last: Cell) -> nat {
    if first.col <= last.col && first.row <= last.row {
        ((last.col - first.col + 1) * (last.row - first.row + 1)) as nat
    } else {
        0
    }
}

/// Cell `c` lies in the span and comes before column `col`, or in column
/// `col` before row `row`: the cells that a walk through the span, column by
/// column, has left behind when it stands at (`col`, `row`).
pub open spec fn passed(c: Cell, first: Cell, last: Cell, col: int, row: int) -> bool {
    in_span(c, first, last) && (c.col < col || (c.col == col && c.row < row))
}

/// The predicate that holds of every identifier but `id`.
pub open spec fn differs_from(id: u32) -> spec_fn(u32) -> bool {
    |other: u32| other != id
}

/// The bucket without any occurrence of `id`, the rest in its order.
pub open spec fn without(bucket: Seq<u32>, id: u32) -> Seq<u32> {
    bucket.filter(differs_from(id))
}

/// The store after `id` was appended to the bucket of each passed cell.
pub open spec fn inserted_upto(
    m: Map<Cell, Seq<u32>>,
    first: Cell,
    last: Cell,
    col: int,
    row: int,
    id: u32,
) -> Map<Cell, Seq<u32>> {
    Map::new(
        |c: Cell| m.contains_key(c) || passed(c, first, last, col, row),
        |c: Cell|
            if passed(c, first, last, col, row) {
                bucket_at(m, c).push(id)
            } else {
                m[c]
            },
    )
}

/// The store after `id` was appended to the bucket of every cell of the
/// span, a bucket being made where there was none.
pub open spec fn inserted(m: Map<Cell, Seq<u32>>, first: Cell, last: Cell, id: u32) -> Map<
    Cell,
    Seq<u32>,
> {
    Map::new(
        |c: Cell| m.contains_key(c) || in_span(c, first, last),
        |c: Cell|
            if in_span(c, first, last) {
                bucket_at(m, c).push(id)
            } else {
                m[c]
            },
    )
}

/// The store after `id` was taken out of the bucket of each passed cell.
pub open spec fn removed_upto(
    m: Map<Cell, Seq<u32>>,
    first: Cell,
    last: Cell,
    col: int,
    row: int,
    id: u32,
) -> Map<Cell, Seq<u32>> {
    Map::new(
        |c: Cell|
            m.contains_key(c) && (passed(c, first, last, col, row) ==> without(m[c], id).len()
                > 0),
        |c: Cell|
            if passed(c, first, last, col, row) {
                without(m[c], id)
            } else {
                m[c]
            },
    )
}

/// The store after every occurrence of `id` was taken out of the bucket of
/// every cell of the span, and each bucket that this left empty was dropped.
pub open spec fn removed(m: Map<Cell, Seq<u32>>, first: Cell, last: Cell, id: u32) -> Map<
    Cell,
    Seq<u32>,
> {
    Map::new(
        |c: Cell| m.contains_key(c) && (in_span(c, first, last) ==> without(m[c], id).len() > 0),
        |c: Cell|
            if in_span(c, first, last) {
                without(m[c], id)
            } else {
                m[c]
            },
    )
}

/// The identifiers found in the bucket of some passed cell.
pub open spec fn ids_upto(m: Map<Cell, Seq<u32>>, first: Cell, last: Cell, col: int, row: int) -> Set<
    u32,
> {
    Set::new(
        |id: u32|
            exists|c: Cell|
                passed(c, first, last, col, row) && (#[trigger] bucket_at(m, c)).contains(id),
    )
}

/// The identifiers found in the bucket of some cell of the span.
pub open spec fn ids_in(m: Map<Cell, Seq<u32>>, first: Cell, last: Cell) -> Set<u32> {
    Set::new(
        |id: u32|
            exists|c: Cell| in_span(c, first, last) && (#[trigger] bucket_at(m, c)).contains(id),
    )
}

/// The number of entries of all buckets together.
pub open spec fn total_entries(m: Map<Cell, Seq<u32>>) -> nat
    decreases m.dom().len(),
    when m.dom().finite()
{
    if m.dom().len() == 0 {
        0
    } else {
        let c = m.dom().choose();
        m[c].len() + total_entries(m.remove(c))
    }
}

/// Filtering a bucket that ends in `x` keeps `x` exactly where it differs
/// from `id`.
pub proof fn lemma_without_push(bucket: Seq<u32>, x: u32, id: u32)
    ensures
        without(bucket.push(x), id) == if x != id {
            without(bucket, id).push(x)
        } else {
            without(bucket, id)
        },
{
    reveal(Seq::filter);
    assert(bucket.push(x).drop_last() =~= bucket);
}

/// Filtering changes nothing in a bucket that does not hold `id`.
pub proof fn lemma_without_absent(bucket: Seq<u32>, id: u32)
    requires
        !bucket.contains(id),
    ensures
        without(bucket, id) == bucket,
    decreases bucket.len(),
{
    reveal(Seq::filter);
    if bucket.len() > 0 {
        let rest = bucket.drop_last();
        assert forall|i: int| 0 <= i < rest.len() implies rest[i] != id by {
            assert(bucket[i] == rest[i]);
        }
        lemma_without_absent(rest, id);
        assert(bucket.last() == bucket[bucket.len() - 1]);
        assert(rest.push(bucket.last()) =~= bucket);
    } else {
        assert(without(bucket, id) =~= bucket);
    }
}

/// The filtered bucket holds exactly the entries of the bucket that differ
/// from `id`.
pub proof fn lemma_without_contains(bucket: Seq<u32>, id: u32, x: u32)
    ensures
        without(bucket, id).contains(x) <==> bucket.contains(x) && x != id,
    decreases bucket.len(),
{
    reveal(Seq::filter);
    if bucket.len() > 0 {
        let rest = bucket.drop_last();
        let last = bucket.last();
        lemma_without_contains(rest, id, x);
        lemma_without_push(rest, last, id);
        assert(rest.push(last) =~= bucket);
        if bucket.contains(x) {
            let i = choose|i: int| 0 <= i < bucket.len() && bucket[i] == x;
            if i < rest.len() {
                assert(rest[i] == x);
            }
        }
        if rest.contains(x) {
            let i = choose|i: int| 0 <= i < rest.len() && rest[i] == x;
            assert(bucket[i] == x);
        }
        let f = without(rest, id);
        if last != id {
            assert(f.push(last)[f.len() as int] == last);
            if f.push(last).contains(x) {
                let i = choose|i: int| 0 <= i < f.push(last).len() && f.push(last)[i] == x;
                if i < f.len() {
                    assert(f[i] == x);
                }
            }
            if f.contains(x) {
                let i = choose|i: int| 0 <= i < f.len() && f[i] == x;
                assert(f.push(last)[i] == x);
            }
        }
    }
}

/// The total is the length of any one bucket plus the total of the others.
pub proof fn lemma_total_split(m: Map<Cell, Seq<u32>>, c: Cell)
    requires
        m.dom().finite(),
        m.contains_key(c),
    ensures
        total_entries(m) == m[c].len() + total_entries(m.remove(c)),
    decreases m.dom().len(),
{
    let c0 = m.dom().choose();
    if c0 != c {
        let rest = m.remove(c0);
        lemma_total_split(rest, c);
        lemma_total_split(m.remove(c), c0);
        assert(rest.remove(c) =~= m.remove(c).remove(c0));
    }
}

/// Putting a bucket at a cell changes the total by the difference between
/// its length and that of the bucket it takes the place of.
pub proof fn lemma_total_insert(m: Map<Cell, Seq<u32>>, c: Cell, bucket: Seq<u32>)
    requires
        m.dom().finite(),
    ensures
        total_entries(m.insert(c, bucket)) == total_entries(m) - bucket_at(m, c).len()
            + bucket.len(),
{
    let after = m.insert(c, bucket);
    lemma_total_split(after, c);
    assert(after.remove(c) =~= m.remove(c));
    if m.contains_key(c) {
        lemma_total_split(m, c);
    } else {
        assert(m.remove(c) =~= m);
    }
}

} // verus!
