//! The forward search for the shortest trace through the edit graph.
//!
//! The edit graph of sequences of lengths `n` and `m` has the points `(x, y)`;
//! a step right removes `left[x]`, a step down inserts `right[y]`, and a
//! diagonal step, where `left[x]` equals `right[y]`, keeps both. Diagonal `k`
//! holds the points with `x - y == k`.
use vstd::prelude::*;
use vstd::std_specs::cmp::PartialEqSpec;
use vstd::laws_eq::obeys_concrete_eq;
use crate::runs::same;
use crate::trace::{
    addressable, at, cell_index, lemma_cell_in_storage, lemma_cells_distinct, lemma_tri_monotone,
    tri, valid_cell, lemma_addressable_below, ShortestTrace, Trace,
};

verus! {

/// The x at which the search enters cell `(d, k)`: from the cell one depth up
/// on the diagonal to the right (an insertion) or, by one step right, from
/// the one on the diagonal to the left (a removal). The outermost diagonals
/// have one neighbour; otherwise the larger x wins and ties go to the removal.
pub open spec fn entry(s: Seq<isize>, d: int, k: int) -> int {
    if d == 0 {
        0
    } else if k == -d {
        at(s, d - 1, k + 1)
    } else if k == d {
        at(s, d - 1, k - 1) + 1
    } else if at(s, d - 1, k - 1) < at(s, d - 1, k + 1) {
        at(s, d - 1, k + 1)
    } else {
        at(s, d - 1, k - 1) + 1
    }
}

/// Cell `(d, k)` holds the end of the longest run of equal pairs along
/// diagonal `k` from its entry point.
pub open spec fn snake_ok<T: PartialEq>(s: Seq<isize>, left: Seq<T>, right: Seq<T>, d: int, k: int) -> bool {
    let e = entry(s, d, k);
    let x = at(s, d, k);
    &&& 0 <= e
    &&& k <= e
    &&& e <= x
    &&& e < x ==> x <= left.len() && x - k <= right.len()
    &&& forall|i: int| e <= i < x ==> same(#[trigger] left[i], right[i - k])
    &&& (0 <= x < left.len() && 0 <= x - k < right.len() && T::obeys_eq_spec()) ==> !left[x].eq_spec(
        &right[x - k],
    )
}

/// The bounds that every recorded x keeps: it lies on a point with `y >= 0`,
/// it is at least `(d + k) / 2`, and it passes `n` by at most `d`.
pub open spec fn bounds_ok(s: Seq<isize>, n: int, d: int, k: int) -> bool {
    let x = at(s, d, k);
    &&& 0 <= x
    &&& k <= x
    &&& d + k <= 2 * x
    &&& x <= n + d
}

/// A cell as the search records it.
pub open spec fn cell_ok<T: PartialEq>(s: Seq<isize>, left: Seq<T>, right: Seq<T>, d: int, k: int) -> bool {
    snake_ok(s, left, right, d, k) && bounds_ok(s, left.len() as int, d, k)
}

/// Cell `(d, k)` reaches the end of both sequences.
pub open spec fn reaches_end(s: Seq<isize>, n: int, m: int, d: int, k: int) -> bool {
    at(s, d, k) >= n && at(s, d, k) - k >= m
}

/// How the cells of one depth stand to the end point `(n, m)`: the outermost
/// diagonals stay inside the graph, and a point past `n` (or past `m`) has a
/// neighbour on its left (a neighbour on its right) that is at most one step
/// behind it.
pub open spec fn shape_ok(s: Seq<isize>, n: int, m: int, d: int, k: int) -> bool {
    &&& k == -d ==> at(s, d, k) <= n
    &&& k == d ==> at(s, d, k) - k <= m
    &&& (k - 2 >= -d && at(s, d, k) > n) ==> at(s, d, k - 2) >= at(s, d, k) - 1
    &&& (k - 2 >= -d && at(s, d, k - 2) - (k - 2) > m) ==> at(s, d, k) - k >= at(s, d, k - 2) - (k
        - 2) - 1
}

/// Cell `(d2, k2)` comes before cell `(d, k)` in the order of the search.
pub open spec fn before(d2: int, k2: int, d: int, k: int) -> bool {
    d2 < d || (d2 == d && k2 < k)
}

/// Every cell before `(d, k)` is recorded, has its shape and does not reach
/// the end.
pub open spec fn searched_until<T: PartialEq>(s: Seq<isize>, left: Seq<T>, right: Seq<T>, d: int, k: int) -> bool {
    forall|d2: int, k2: int|
        valid_cell(d2, k2) && before(d2, k2, d, k) ==> {
            &&& #[trigger] cell_ok(s, left, right, d2, k2)
            &&& shape_ok(s, left.len() as int, right.len() as int, d2, k2)
            &&& !reaches_end(s, left.len() as int, right.len() as int, d2, k2)
        }
}

/// The search, ending at cell `(len, kend)`, wrote cell `(d2, k2)`.
pub open spec fn written(d2: int, k2: int, len: int, kend: int) -> bool {
    d2 < len || (d2 == len && k2 <= kend)
}

/// The cells of depth at most `max_depth` from `(d, k)` on still hold 0.
pub open spec fn zero_from(s: Seq<isize>, d: int, k: int, max_depth: int) -> bool {
    forall|d2: int, k2: int|
        valid_cell(d2, k2) && d2 <= max_depth && !before(d2, k2, d, k) ==> #[trigger] at(s, d2, k2)
            == 0
}

/// A trace whose depth `len` is where the search ended: the depths before it
/// are recorded, and cell `(len, n - m)` is recorded and holds the end point.
pub open spec fn trace_ok<T: PartialEq>(s: Seq<isize>, left: Seq<T>, right: Seq<T>, len: int) -> bool {
    let n = left.len() as int;
    let m = right.len() as int;
    &&& 0 <= len <= n + m
    &&& addressable(n + m)
    &&& s.len() == tri(n + m + 1)
    &&& forall|d2: int, k2: int|
        valid_cell(d2, k2) && written(d2, k2, len, n - m) ==> #[trigger] cell_ok(
            s,
            left,
            right,
            d2,
            k2,
        )
    &&& valid_cell(len, n - m)
    &&& cell_ok(s, left, right, len, n - m)
    &&& at(s, len, n - m) == n
}

/// A new cell, recorded after all cells before it, keeps the bounds and the
/// shape, and reaches the end only on the end point itself.
proof fn lemma_new_cell<T: PartialEq>(s: Seq<isize>, left: Seq<T>, right: Seq<T>, d: int, k: int)
    requires
        valid_cell(d, k),
        searched_until(s, left, right, d, k),
        snake_ok(s, left, right, d, k),
    ensures
        bounds_ok(s, left.len() as int, d, k),
        shape_ok(s, left.len() as int, right.len() as int, d, k),
        reaches_end(s, left.len() as int, right.len() as int, d, k) ==> at(s, d, k)
            == left.len() && at(s, d, k) - k == right.len(),
{
    let n = left.len() as int;
    let m = right.len() as int;
    let x = at(s, d, k);
    let e = entry(s, d, k);
    if d > 0 {
        if k > -d {
            assert(valid_cell(d - 1, k - 1));
            assert(cell_ok(s, left, right, d - 1, k - 1));
        }
        if k < d {
            assert(valid_cell(d - 1, k + 1));
            assert(cell_ok(s, left, right, d - 1, k + 1));
        }
    }
    // The bounds.
    assert(bounds_ok(s, n, d, k));
    // The shape on the left.
    if k - 2 >= -d && x > n {
        assert(valid_cell(d, k - 2));
        assert(cell_ok(s, left, right, d, k - 2));
        if k < d && e == at(s, d - 1, k + 1) {
            assert(valid_cell(d - 1, k - 1));
        }
        assert(at(s, d, k - 2) >= x - 1);
    }
    // The shape on the right.
    if k - 2 >= -d && at(s, d, k - 2) - (k - 2) > m {
        assert(valid_cell(d, k - 2));
        assert(cell_ok(s, left, right, d, k - 2));
        assert(valid_cell(d - 1, k - 1));
        if k - 2 > -d && at(s, d - 1, k - 3) >= at(s, d - 1, k - 1) {
            assert(valid_cell(d - 1, k - 3));
            assert(cell_ok(s, left, right, d - 1, k - 3));
        }
        assert(x - k >= at(s, d, k - 2) - (k - 2) - 1);
    }
    if d > 0 && k == -d {
        assert(shape_ok(s, n, m, d - 1, k + 1));
    }
    if d > 0 && k == d {
        assert(shape_ok(s, n, m, d - 1, k - 1));
    }
    // Reaching the end.
    if reaches_end(s, n, m, d, k) && d > 0 {
        if k > -d {
            assert(!reaches_end(s, n, m, d - 1, k - 1));
            assert(shape_ok(s, n, m, d - 1, k - 1));
        }
        if k < d {
            assert(!reaches_end(s, n, m, d - 1, k + 1));
            assert(shape_ok(s, n, m, d - 1, k + 1));
        }
    }
}

/// The entry point of a cell whose neighbours one depth up are recorded keeps
/// the bounds of a recorded cell.
proof fn lemma_entry_bounds<T: PartialEq>(s: Seq<isize>, left: Seq<T>, right: Seq<T>, d: int, k: int)
    requires
        valid_cell(d, k),
        searched_until(s, left, right, d, k),
    ensures
        0 <= entry(s, d, k),
        k <= entry(s, d, k),
        d + k <= 2 * entry(s, d, k),
        entry(s, d, k) <= left.len() + d,
{
    if d > 0 {
        if k > -d {
            assert(valid_cell(d - 1, k - 1));
            assert(cell_ok(s, left, right, d - 1, k - 1));
        }
        if k < d {
            assert(valid_cell(d - 1, k + 1));
            assert(cell_ok(s, left, right, d - 1, k + 1));
        }
    }
}

/// The end of the run of equal pairs along diagonal `k` from `x` on.
pub open spec fn snake_end<T>(left: Seq<T>, right: Seq<T>, x: int, k: int) -> int
    decreases left.len() - x,
{
    if 0 <= x < left.len() && 0 <= x - k < right.len() && left[x] == right[x - k] {
        snake_end(left, right, x + 1, k)
    } else {
        x
    }
}

/// Myers' furthest x on diagonal `k` with `d` edits: from the entry point
/// that the cells of depth `d - 1` give, by the rule of the search, along
/// the run of equal pairs.
pub open spec fn myers<T>(left: Seq<T>, right: Seq<T>, d: int, k: int) -> int
    decreases d,
{
    if d <= 0 {
        snake_end(left, right, 0, k)
    } else {
        let a = myers(left, right, d - 1, k - 1);
        let b = myers(left, right, d - 1, k + 1);
        let e = if k == -d {
            b
        } else if k == d {
            a + 1
        } else if a < b {
            b
        } else {
            a + 1
        };
        snake_end(left, right, e, k)
    }
}

/// The first depth at or after `d` whose cell on the end diagonal reaches the
/// end point, or `n + m`.
pub open spec fn first_end<T>(left: Seq<T>, right: Seq<T>, d: int) -> int
    decreases left.len() + right.len() - d,
{
    let n = left.len() as int;
    let m = right.len() as int;
    if d >= n + m || (valid_cell(d, n - m) && myers(left, right, d, n - m) >= n) {
        d
    } else {
        first_end(left, right, d + 1)
    }
}

/// A recorded run from an entry point that ends where the elements stop
/// being equal is the whole run of equal pairs.
proof fn lemma_snake_end<T: PartialEq>(left: Seq<T>, right: Seq<T>, e: int, x: int, k: int)
    requires
        obeys_concrete_eq::<T>(),
        0 <= e <= x,
        k <= e,
        e < x ==> x <= left.len() && x - k <= right.len(),
        forall|i: int| e <= i < x ==> same(#[trigger] left[i], right[i - k]),
        (0 <= x < left.len() && 0 <= x - k < right.len() && T::obeys_eq_spec()) ==> !left[x].eq_spec(
            &right[x - k],
        ),
    ensures
        snake_end(left, right, e, k) == x,
    decreases x - e,
{
    reveal(obeys_concrete_eq);
    if e < x {
        assert(same(left[e], right[e - k]));
        lemma_snake_end(left, right, e + 1, x, k);
    }
}

/// Every cell the search wrote, up to depth `d`, holds Myers' value.
proof fn lemma_rows_are_myers<T: PartialEq>(
    s: Seq<isize>,
    left: Seq<T>,
    right: Seq<T>,
    len: int,
    d: int,
)
    requires
        obeys_concrete_eq::<T>(),
        trace_ok(s, left, right, len),
        0 <= d <= len,
    ensures
        forall|d2: int, k2: int|
            valid_cell(d2, k2) && d2 <= d && written(d2, k2, len, left.len() - right.len())
                ==> #[trigger] at(s, d2, k2) == myers(left, right, d2, k2),
    decreases d,
{
    let kend = left.len() - right.len();
    if d > 0 {
        lemma_rows_are_myers(s, left, right, len, d - 1);
    }
    assert forall|d2: int, k2: int|
        valid_cell(d2, k2) && d2 <= d && written(d2, k2, len, kend) implies #[trigger] at(
        s,
        d2,
        k2,
    ) == myers(left, right, d2, k2) by {
        if d2 == d {
            assert(cell_ok(s, left, right, d2, k2));
            if d2 > 0 {
                if k2 > -d2 {
                    assert(valid_cell(d2 - 1, k2 - 1));
                    assert(at(s, d2 - 1, k2 - 1) == myers(left, right, d2 - 1, k2 - 1));
                }
                if k2 < d2 {
                    assert(valid_cell(d2 - 1, k2 + 1));
                    assert(at(s, d2 - 1, k2 + 1) == myers(left, right, d2 - 1, k2 + 1));
                }
            }
            lemma_snake_end(left, right, entry(s, d2, k2), at(s, d2, k2), k2);
        }
    }
}

/// The search ends at the first depth whose end cell reaches the end point.
proof fn lemma_depth_is_first_end<T: PartialEq>(
    s: Seq<isize>,
    left: Seq<T>,
    right: Seq<T>,
    len: int,
    j: int,
)
    requires
        obeys_concrete_eq::<T>(),
        trace_ok(s, left, right, len),
        forall|d2: int, k2: int|
            valid_cell(d2, k2) && d2 < len ==> !reaches_end(
                s,
                left.len() as int,
                right.len() as int,
                d2,
                k2,
            ),
        0 <= j <= len,
    ensures
        first_end(left, right, j) == len,
    decreases len - j,
{
    let n = left.len() as int;
    let m = right.len() as int;
    lemma_rows_are_myers(s, left, right, len, len);
    if j < len {
        lemma_depth_is_first_end(s, left, right, len, j + 1);
        if valid_cell(j, n - m) {
            assert(at(s, j, n - m) == myers(left, right, j, n - m));
            assert(!reaches_end(s, n, m, j, n - m));
        }
    } else {
        assert(at(s, len, n - m) == myers(left, right, len, n - m));
    }
}

/// A recorded cell whose own slot, the slots of its neighbours one depth up
/// and the slot two diagonals to its left are unchanged stays recorded.
proof fn lemma_cell_frame<T: PartialEq>(
    s0: Seq<isize>,
    s1: Seq<isize>,
    left: Seq<T>,
    right: Seq<T>,
    d: int,
    k: int,
)
    requires
        valid_cell(d, k),
        at(s1, d, k) == at(s0, d, k),
        d > 0 && k > -d ==> at(s1, d - 1, k - 1) == at(s0, d - 1, k - 1),
        d > 0 && k < d ==> at(s1, d - 1, k + 1) == at(s0, d - 1, k + 1),
        k - 2 >= -d ==> at(s1, d, k - 2) == at(s0, d, k - 2),
        cell_ok(s0, left, right, d, k),
        shape_ok(s0, left.len() as int, right.len() as int, d, k),
        !reaches_end(s0, left.len() as int, right.len() as int, d, k),
    ensures
        cell_ok(s1, left, right, d, k),
        shape_ok(s1, left.len() as int, right.len() as int, d, k),
        !reaches_end(s1, left.len() as int, right.len() as int, d, k),
{
    assert(entry(s1, d, k) == entry(s0, d, k));
    assert(snake_ok(s0, left, right, d, k));
    assert(snake_ok(s1, left, right, d, k));
    assert(bounds_ok(s1, left.len() as int, d, k));
}

/// Writing cell `(d, k)` leaves every other cell of the storage as it was.
proof fn lemma_write_frame(s: Seq<isize>, d: int, k: int, v: isize, max_depth: int)
    requires
        valid_cell(d, k),
        d <= max_depth,
        s.len() == tri(max_depth + 1),
    ensures
        at(s.update(cell_index(d, k), v), d, k) == v,
        forall|d2: int, k2: int|
            valid_cell(d2, k2) && d2 <= max_depth && (d2 != d || k2 != k) ==> #[trigger] at(
                s.update(cell_index(d, k), v),
                d2,
                k2,
            ) == at(s, d2, k2),
{
    lemma_cell_in_storage(d, k, max_depth);
    assert forall|d2: int, k2: int|
        valid_cell(d2, k2) && d2 <= max_depth && (d2 != d || k2 != k) implies #[trigger] at(
            s.update(cell_index(d, k), v),
            d2,
            k2,
        ) == at(s, d2, k2) by {
        lemma_cell_in_storage(d2, k2, max_depth);
        lemma_cells_distinct(d, k, d2, k2);
    }
}

/// After the search records cell `(d, k)`, the cells before it are as they
/// were, and the new cell is recorded, has its shape, and reaches the end only
/// on the end point.
proof fn lemma_after_write<T: PartialEq>(
    s0: Seq<isize>,
    left: Seq<T>,
    right: Seq<T>,
    d: int,
    k: int,
    x: isize,
    max_depth: int,
)
    requires
        valid_cell(d, k),
        d <= max_depth,
        s0.len() == tri(max_depth + 1),
        searched_until(s0, left, right, d, k),
        0 <= entry(s0, d, k),
        k <= entry(s0, d, k),
        entry(s0, d, k) <= x,
        entry(s0, d, k) < x ==> x <= left.len() && x - k <= right.len(),
        forall|i: int| entry(s0, d, k) <= i < x ==> same(#[trigger] left[i], right[i - k]),
        (0 <= x < left.len() && 0 <= x - k < right.len() && T::obeys_eq_spec()) ==> !left[x as int].eq_spec(
            &right[x - k],
        ),
    ensures
        ({
            let s1 = s0.update(cell_index(d, k), x);
            &&& searched_until(s1, left, right, d, k)
            &&& at(s1, d, k) == x
            &&& cell_ok(s1, left, right, d, k)
            &&& shape_ok(s1, left.len() as int, right.len() as int, d, k)
            &&& reaches_end(s1, left.len() as int, right.len() as int, d, k) ==> x == left.len() && x
                - k == right.len()
            &&& !reaches_end(s1, left.len() as int, right.len() as int, d, k) ==> searched_until(
                s1,
                left,
                right,
                d,
                k + 2,
            )
            &&& forall|d2: int, k2: int|
                valid_cell(d2, k2) && d2 < d ==> !reaches_end(
                    s1,
                    left.len() as int,
                    right.len() as int,
                    d2,
                    k2,
                )
        }),
{
    let n = left.len() as int;
    let m = right.len() as int;
    let s1 = s0.update(cell_index(d, k), x);
    lemma_write_frame(s0, d, k, x, max_depth);
    assert forall|d2: int, k2: int| valid_cell(d2, k2) && before(d2, k2, d, k) implies {
        &&& #[trigger] cell_ok(s1, left, right, d2, k2)
        &&& shape_ok(s1, n, m, d2, k2)
        &&& !reaches_end(s1, n, m, d2, k2)
    } by {
        assert(cell_ok(s0, left, right, d2, k2));
        assert(at(s1, d2, k2) == at(s0, d2, k2));
        if d2 > 0 {
            if k2 > -d2 {
                assert(valid_cell(d2 - 1, k2 - 1));
                assert(at(s1, d2 - 1, k2 - 1) == at(s0, d2 - 1, k2 - 1));
            }
            if k2 < d2 {
                assert(valid_cell(d2 - 1, k2 + 1));
                assert(at(s1, d2 - 1, k2 + 1) == at(s0, d2 - 1, k2 + 1));
            }
        }
        if k2 - 2 >= -d2 {
            assert(valid_cell(d2, k2 - 2));
            assert(at(s1, d2, k2 - 2) == at(s0, d2, k2 - 2));
        }
        lemma_cell_frame(s0, s1, left, right, d2, k2);
    }
    if d > 0 {
        if k > -d {
            assert(valid_cell(d - 1, k - 1));
            assert(at(s1, d - 1, k - 1) == at(s0, d - 1, k - 1));
        }
        if k < d {
            assert(valid_cell(d - 1, k + 1));
            assert(at(s1, d - 1, k + 1) == at(s0, d - 1, k + 1));
        }
    }
    if k - 2 >= -d {
        assert(valid_cell(d, k - 2));
        assert(at(s1, d, k - 2) == at(s0, d, k - 2));
    }
    assert(entry(s1, d, k) == entry(s0, d, k));
    assert(snake_ok(s1, left, right, d, k));
    lemma_new_cell(s1, left, right, d, k);
    assert forall|d2: int, k2: int| valid_cell(d2, k2) && d2 < d implies !reaches_end(
        s1,
        n,
        m,
        d2,
        k2,
    ) by {
        assert(before(d2, k2, d, k));
        assert(cell_ok(s1, left, right, d2, k2));
    }
    if !reaches_end(s1, n, m, d, k) {
        assert forall|d2: int, k2: int| valid_cell(d2, k2) && before(d2, k2, d, k + 2) implies {
            &&& #[trigger] cell_ok(s1, left, right, d2, k2)
            &&& shape_ok(s1, n, m, d2, k2)
            &&& !reaches_end(s1, n, m, d2, k2)
        } by {
            if before(d2, k2, d, k) {
                assert(cell_ok(s1, left, right, d2, k2));
            } else {
                assert(d2 == d);
                assert(k <= k2 < k + 2);
                assert((k2 + d) % 2 == 0 && (k + d) % 2 == 0);
                assert(k2 == k);
            }
        }
    }
}

/// The x at which the search enters cell `(d, k)`.
fn entry_x<T: PartialEq>(trace: &Trace, d: isize, k: isize, Ghost(left): Ghost<Seq<T>>, Ghost(right): Ghost<Seq<T>>, Ghost(max_depth): Ghost<int>) -> (e: isize)
    requires
        valid_cell(d as int, k as int),
        d <= max_depth,
        addressable(max_depth),
        max_depth == left.len() + right.len(),
        trace@.len() == tri(max_depth + 1),
        searched_until(trace@, left, right, d as int, k as int),
    ensures
        e == entry(trace@, d as int, k as int),
        0 <= e <= left.len() + d,
        k <= e,
{
    proof {
        lemma_entry_bounds(trace@, left, right, d as int, k as int);
        lemma_tri_monotone(0, max_depth + 1);
        if d > 0 {
            lemma_addressable_below(d - 1, max_depth);
            if k > -d {
                lemma_cell_in_storage(d - 1, k - 1, max_depth);
            }
            if k < d {
                lemma_cell_in_storage(d - 1, k + 1, max_depth);
            }
        }
    }
    if d == 0 {
        0
    } else if k == -d {
        *trace.get(d - 1, k + 1)
    } else if k == d {
        *trace.get(d - 1, k - 1) + 1
    } else {
        let left_x = *trace.get(d - 1, k - 1);
        let right_x = *trace.get(d - 1, k + 1);
        if left_x < right_x {
            right_x
        } else {
            left_x + 1
        }
    }
}

/// Follows diagonal `k` from `x` while the pairs are equal.
fn follow_snake<T: PartialEq>(left: &[T], right: &[T], x: isize, k: isize) -> (r: isize)
    requires
        0 <= x,
        k <= x,
        x - k <= isize::MAX,
        left@.len() <= isize::MAX,
        right@.len() <= isize::MAX,
    ensures
        x <= r,
        r > x ==> r <= left@.len() && r - k <= right@.len(),
        forall|i: int| x <= i < r ==> same(#[trigger] left@[i], right@[i - k]),
        (0 <= r < left@.len() && 0 <= r - k < right@.len() && T::obeys_eq_spec()) ==> !left@[r as int].eq_spec(
            &right@[r - k],
        ),
{
    let ghost x0 = x;
    let left_len = left.len() as isize;
    let right_len = right.len() as isize;
    let mut x = x;
    let mut y = x - k;
    while x < left_len && y < right_len && left[x as usize].eq(&right[y as usize])
        invariant
            0 <= x0 <= x,
            y == x - k,
            0 <= y,
            x > x0 ==> x <= left_len && y <= right_len,
            left_len == left@.len(),
            right_len == right@.len(),
            forall|i: int| x0 <= i < x ==> same(#[trigger] left@[i], right@[i - k]),
        decreases left_len - x,
    {
        assert(same(left@[x as int], right@[y as int]));
        x = x + 1;
        y = y + 1;
    }
    x
}

/// Find the shortest path from `(0, 0)` to `(n, m)` in the edit graph.
///
/// The search goes through the depths in order, and at each depth through the
/// diagonals from left to right, and stops at the first cell that reaches the
/// end. That depth, the length of the shortest edit script found, is at most
/// `n + m`.
pub fn find_shortest_trace<T: PartialEq>(left: &[T], right: &[T]) -> (r: ShortestTrace)
    requires
        addressable(left@.len() + right@.len() as int),
    ensures
        trace_ok(r@, left@, right@, r.len_spec()),
        r.len_spec() <= left@.len() + right@.len(),
        obeys_concrete_eq::<T>() ==> r.len_spec() == first_end(left@, right@, 0),
        obeys_concrete_eq::<T>() ==> forall|d2: int, k2: int|
            valid_cell(d2, k2) && written(d2, k2, r.len_spec(), left@.len() - right@.len())
                ==> #[trigger] at(r@, d2, k2) == myers(left@, right@, d2, k2),
        forall|d2: int, k2: int|
            valid_cell(d2, k2) && d2 <= left@.len() + right@.len() && !written(
                d2,
                k2,
                r.len_spec(),
                left@.len() - right@.len(),
            ) ==> #[trigger] at(r@, d2, k2) == 0,
        forall|d2: int, k2: int|
            valid_cell(d2, k2) && d2 < r.len_spec() ==> !reaches_end(
                r@,
                left@.len() as int,
                right@.len() as int,
                d2,
                k2,
            ),
{
    let ghost n = left@.len() as int;
    let ghost m = right@.len() as int;
    let mut trace = Trace::new(left.len(), right.len());
    proof {
        lemma_tri_monotone(0, n + m + 1);
    }
    proof {
        assert forall|d2: int, k2: int|
            valid_cell(d2, k2) && d2 <= n + m && !before(d2, k2, 0, 0) implies #[trigger] at(
            trace@,
            d2,
            k2,
        ) == 0 by {
            lemma_cell_in_storage(d2, k2, n + m);
        }
    }
    let max_depth = (left.len() + right.len()) as isize;
    let left_len = left.len() as isize;
    let right_len = right.len() as isize;

    let mut d: isize = 0;
    while d <= max_depth
        invariant
            0 <= d <= max_depth + 1,
            max_depth == n + m,
            left_len == n,
            right_len == m,
            left@.len() == n,
            right@.len() == m,
            addressable(n + m),
            n + m + 1 <= tri(n + m + 1),
            trace@.len() == tri(n + m + 1),
            searched_until(trace@, left@, right@, d as int, -(d as int)),
            zero_from(trace@, d as int, -(d as int), n + m),
        decreases max_depth + 1 - d,
    {
        let mut k: isize = -d;
        while k <= d
            invariant
                0 <= d <= max_depth,
                -d <= k <= d + 2,
                (k + d) % 2 == 0,
                max_depth == n + m,
                left_len == n,
                right_len == m,
                left@.len() == n,
                right@.len() == m,
                addressable(n + m),
                n + m + 1 <= tri(n + m + 1),
                trace@.len() == tri(n + m + 1),
                searched_until(trace@, left@, right@, d as int, k as int),
                zero_from(trace@, d as int, k as int, n + m),
            decreases d + 2 - k,
        {
            let ghost s0 = trace@;
            let x = entry_x::<T>(&trace, d, k, Ghost(left@), Ghost(right@), Ghost(n + m));
            let x = follow_snake(left, right, x, k);
            proof {
                lemma_addressable_below(d as int, n + m);
                lemma_cell_in_storage(d as int, k as int, n + m);
            }
            *trace.get_mut(d, k) = x;
            proof {
                lemma_after_write(s0, left@, right@, d as int, k as int, x, n + m);
                assert(trace@ == s0.update(cell_index(d as int, k as int), x));
                lemma_write_frame(s0, d as int, k as int, x, n + m);
                assert forall|d2: int, k2: int|
                    valid_cell(d2, k2) && d2 <= n + m && !before(d2, k2, d as int, k as int) && (d2
                        != d || k2 != k) implies #[trigger] at(trace@, d2, k2) == 0 by {
                    assert(at(trace@, d2, k2) == at(s0, d2, k2));
                }
            }
            if x >= left_len && x - k >= right_len {
                proof {
                    assert(k == n - m);
                    assert forall|d2: int, k2: int|
                        valid_cell(d2, k2) && written(d2, k2, d as int, n - m) implies #[trigger] cell_ok(
                        trace@,
                        left@,
                        right@,
                        d2,
                        k2,
                    ) by {
                        if d2 != d || k2 != k {
                            assert(before(d2, k2, d as int, k as int));
                        }
                    }
                    if obeys_concrete_eq::<T>() {
                        lemma_rows_are_myers(trace@, left@, right@, d as int, d as int);
                        lemma_depth_is_first_end(trace@, left@, right@, d as int, 0);
                    }
                }
                return trace.into_shortest(d);
            }
            proof {
                assert forall|d2: int, k2: int|
                    valid_cell(d2, k2) && d2 <= n + m && !before(d2, k2, d as int, k + 2) implies #[trigger] at(
                    trace@,
                    d2,
                    k2,
                ) == 0 by {
                    if d2 == d {
                        assert((k2 + d) % 2 == 0 && (k + d) % 2 == 0);
                        assert(k2 != k);
                    }
                }
            }
            k = k + 2;
        }
        proof {
            assert(k == d + 2);
            assert forall|d2: int, k2: int|
                valid_cell(d2, k2) && d2 <= n + m && !before(d2, k2, d + 1, -(d + 1)) implies #[trigger] at(
                trace@,
                d2,
                k2,
            ) == 0 by {
                assert(!before(d2, k2, d as int, k as int));
            }
            assert forall|d2: int, k2: int|
                valid_cell(d2, k2) && before(d2, k2, d + 1, -(d + 1)) implies {
                &&& #[trigger] cell_ok(trace@, left@, right@, d2, k2)
                &&& shape_ok(trace@, n, m, d2, k2)
                &&& !reaches_end(trace@, n, m, d2, k2)
            } by {
                assert(before(d2, k2, d as int, k as int));
            }
        }
        d = d + 1;
    }
    proof {
        assert(valid_cell(n + m, n - m));
        assert(cell_ok(trace@, left@, right@, n + m, n - m));
    }
    trace.into_shortest(max_depth)
}

} // verus!
