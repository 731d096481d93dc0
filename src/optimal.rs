//! The search finds a shortest edit script: no partition of the two
//! sequences into matching runs needs fewer removals and insertions.
use vstd::prelude::*;
use vstd::laws_eq::obeys_concrete_eq;
use vstd::std_specs::cmp::PartialEqSpec;
use crate::runs::{edit_count, run_matches, same, tiles, Diff};
use crate::search::{cell_ok, entry, reaches_end, trace_ok};
use crate::trace::{at, valid_cell};

verus! {

/// The search ended at depth `len` and no cell of a smaller depth reached the
/// end point.
pub open spec fn ended_first<T: PartialEq>(s: Seq<isize>, left: Seq<T>, right: Seq<T>, len: int) -> bool {
    &&& trace_ok(s, left, right, len)
    &&& forall|d2: int, k2: int|
        valid_cell(d2, k2) && d2 < len ==> !reaches_end(
            s,
            left.len() as int,
            right.len() as int,
            d2,
            k2,
        )
}

/// From a point `(x, y)` that `e` edits reach, `j` removals reach
/// `(x + j, y)`, and the search gets at least as far on that diagonal.
proof fn lemma_removals<T: PartialEq>(
    s: Seq<isize>,
    left: Seq<T>,
    right: Seq<T>,
    len: int,
    x: int,
    y: int,
    e: int,
    j: int,
)
    requires
        trace_ok(s, left, right, len),
        0 <= e,
        0 <= j,
        -e <= x - y <= e,
        (x - y + e) % 2 == 0,
        e < len ==> at(s, e, x - y) >= x,
    ensures
        e + j < len ==> at(s, e + j, x + j - y) >= x + j,
    decreases j,
{
    if j > 0 {
        lemma_removals(s, left, right, len, x, y, e, j - 1);
        let d = e + j;
        let k = x + j - y;
        if d < len {
            assert(valid_cell(d, k));
            assert(cell_ok(s, left, right, d, k));
            assert(entry(s, d, k) >= at(s, d - 1, k - 1) + 1);
        }
    }
}

/// From a point `(x, y)` that `e` edits reach, `j` insertions reach
/// `(x, y + j)`, and the search gets at least as far on that diagonal.
proof fn lemma_insertions<T: PartialEq>(
    s: Seq<isize>,
    left: Seq<T>,
    right: Seq<T>,
    len: int,
    x: int,
    y: int,
    e: int,
    j: int,
)
    requires
        trace_ok(s, left, right, len),
        0 <= e,
        0 <= j,
        -e <= x - y <= e,
        (x - y + e) % 2 == 0,
        e < len ==> at(s, e, x - y) >= x,
    ensures
        e + j < len ==> at(s, e + j, x - y - j) >= x,
    decreases j,
{
    if j > 0 {
        lemma_insertions(s, left, right, len, x, y, e, j - 1);
        let d = e + j;
        let k = x - y - j;
        if d < len {
            assert(valid_cell(d, k));
            assert(cell_ok(s, left, right, d, k));
            assert(entry(s, d, k) >= at(s, d - 1, k + 1));
        }
    }
}

/// Runs that partition the rest of both sequences from a point `(x, y)` that
/// `e` edits reach, with the search at least as far on that diagonal, take
/// the edits up to the depth where the search ended.
proof fn lemma_no_shorter_from<T: PartialEq>(
    s: Seq<isize>,
    left: Seq<T>,
    right: Seq<T>,
    len: int,
    runs: Seq<Diff>,
    x: int,
    y: int,
    e: int,
)
    requires
        obeys_concrete_eq::<T>(),
        ended_first(s, left, right, len),
        0 <= x,
        0 <= y,
        0 <= e,
        -e <= x - y <= e,
        (x - y + e) % 2 == 0,
        e < len ==> at(s, e, x - y) >= x,
        tiles(runs, x, y, left.len() as int, right.len() as int),
        forall|i: int| 0 <= i < runs.len() ==> run_matches(#[trigger] runs[i], left, right),
    ensures
        e + edit_count(runs) >= len,
    decreases runs.len(),
{
    let n = left.len() as int;
    let m = right.len() as int;
    let k = x - y;
    if runs.len() == 0 {
        if e < len {
            assert(valid_cell(e, n - m));
            assert(reaches_end(s, n, m, e, n - m));
        }
    } else {
        let r = runs[0];
        let rest = runs.drop_first();
        crate::runs::lemma_tiles_bounded(runs, x, y, n, m);
        assert forall|i: int| 0 <= i < rest.len() implies run_matches(
            #[trigger] rest[i],
            left,
            right,
        ) by {
            assert(rest[i] == runs[i + 1]);
        }
        match r {
            Diff::Both { left_index, right_index, length } => {
                let l = length as int;
                if e < len {
                    let v = at(s, e, k);
                    assert(valid_cell(e, k));
                    assert(cell_ok(s, left, right, e, k));
                    if v < x + l {
                        let j = v - x;
                        assert(run_matches(runs[0], left, right));
                        assert(same(left[left_index + j], right[right_index + j]));
                        reveal(obeys_concrete_eq);
                        assert(left[v].eq_spec(&right[v - k]));
                    }
                }
                lemma_no_shorter_from(s, left, right, len, rest, x + l, y + l, e);
            },
            Diff::Left { index, length } => {
                let l = length as int;
                lemma_removals(s, left, right, len, x, y, e, l);
                lemma_no_shorter_from(s, left, right, len, rest, x + l, y, e + l);
            },
            Diff::Right { index, length } => {
                let l = length as int;
                lemma_insertions(s, left, right, len, x, y, e, l);
                lemma_no_shorter_from(s, left, right, len, rest, x, y + l, e + l);
            },
        }
    }
}

/// Every partition of both sequences into runs whose common runs pair equal
/// elements takes at least as many edits as the depth where the search
/// ended.
pub proof fn lemma_no_shorter<T: PartialEq>(
    s: Seq<isize>,
    left: Seq<T>,
    right: Seq<T>,
    len: int,
    runs: Seq<Diff>,
)
    requires
        obeys_concrete_eq::<T>(),
        ended_first(s, left, right, len),
        tiles(runs, 0, 0, left.len() as int, right.len() as int),
        forall|i: int| 0 <= i < runs.len() ==> run_matches(#[trigger] runs[i], left, right),
    ensures
        edit_count(runs) >= len,
{
    if 0 < len {
        assert(valid_cell(0, 0));
        assert(cell_ok(s, left, right, 0, 0));
    }
    lemma_no_shorter_from(s, left, right, len, runs, 0, 0, 0);
}

} // verus!
