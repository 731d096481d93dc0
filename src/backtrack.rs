//! Walking the shortest trace back from the end point to list the runs.
use vstd::prelude::*;
use crate::search::{cell_ok, entry, trace_ok};
use crate::trace::{
    at, lemma_addressable_below, lemma_cell_in_storage, lemma_tri_monotone, tri, valid_cell,
    ShortestTrace,
};
use crate::runs::{
    edit_count, left_span, lemma_tiles_bounded, right_span, run_edits, run_length, run_matches,
    same, same_kind, starts_at, tiles, well_shaped, is_diff_of, prepend_run, joined, Diff,
};

verus! {

/// The value of cell `(d, k)` in the cell values `v`; 0 off the triangle.
pub open spec fn cell_value(v: spec_fn(int, int) -> int, d: int, k: int) -> int {
    if valid_cell(d, k) {
        v(d, k)
    } else {
        0
    }
}

/// The cell values held in the storage `s`.
pub open spec fn cells(s: Seq<isize>) -> spec_fn(int, int) -> int {
    |d: int, k: int| at(s, d, k)
}

/// The diagonal, one depth up, from which the search entered cell `(d, k)`,
/// by the rule of the search: the outermost diagonals have one neighbour;
/// otherwise the neighbour with the larger x, and the removal on a tie.
pub open spec fn back_diagonal(v: spec_fn(int, int) -> int, d: int, k: int) -> int {
    if d <= 0 {
        0
    } else if k == -d {
        k + 1
    } else if k == d {
        k - 1
    } else if cell_value(v, d - 1, k - 1) < cell_value(v, d - 1, k + 1) {
        k + 1
    } else {
        k - 1
    }
}

/// `count` common pairs put in front of `acc`, walking back diagonally from
/// `(x, y)`.
pub open spec fn steps_back(acc: Seq<Diff>, x: int, y: int, count: nat) -> Seq<Diff>
    decreases count,
{
    if count == 0 {
        acc
    } else {
        steps_back(
            prepend_run(
                acc,
                Diff::Both { left_index: (x - 1) as usize, right_index: (y - 1) as usize, length: 1 },
            ),
            x - 1,
            y - 1,
            (count - 1) as nat,
        )
    }
}

/// The runs in front of `acc` that the backward walk lists from point
/// `(x, y)` at depth `d` on: back along the common run of the diagonal to
/// where the search entered it, then the removal or insertion that led there,
/// and on one depth up.
pub open spec fn walk_from(
    v: spec_fn(int, int) -> int,
    x: int,
    y: int,
    d: int,
    acc: Seq<Diff>,
) -> Seq<Diff>
    decreases d,
{
    let k = x - y;
    let pk = back_diagonal(v, d, k);
    let px = if d <= 0 {
        0
    } else {
        cell_value(v, d - 1, pk)
    };
    let py = px - pk;
    let sx = if d <= 0 {
        0
    } else if pk == k - 1 {
        px + 1
    } else {
        px
    };
    let acc1 = steps_back(acc, x, y, (x - sx) as nat);
    if d <= 0 {
        acc1
    } else {
        let acc2 = if pk == k - 1 {
            prepend_run(acc1, Diff::Left { index: px as usize, length: 1 })
        } else {
            prepend_run(acc1, Diff::Right { index: py as usize, length: 1 })
        };
        walk_from(v, px, py, d - 1, acc2)
    }
}

/// The runs that the backward walk lists through the cell values `v` of a
/// search of sequences of lengths `n` and `m` that ended at depth `len`.
pub open spec fn walk(v: spec_fn(int, int) -> int, n: int, m: int, len: int) -> Seq<Diff> {
    if n + m == 0 {
        seq![Diff::Both { left_index: 0, right_index: 0, length: 0 }]
    } else {
        walk_from(v, n, m, len, seq![])
    }
}

/// Two sets of cell values that agree above depth `d` give the same walk
/// from depth `d`.
pub proof fn lemma_walk_agrees(
    v1: spec_fn(int, int) -> int,
    v2: spec_fn(int, int) -> int,
    x: int,
    y: int,
    d: int,
    acc: Seq<Diff>,
)
    requires
        forall|d2: int, k2: int| valid_cell(d2, k2) && d2 < d ==> #[trigger] v1(d2, k2) == v2(d2, k2),
    ensures
        walk_from(v1, x, y, d, acc) == walk_from(v2, x, y, d, acc),
    decreases d,
{
    let k = x - y;
    if d > 0 {
        assert(cell_value(v1, d - 1, k - 1) == cell_value(v2, d - 1, k - 1));
        assert(cell_value(v1, d - 1, k + 1) == cell_value(v2, d - 1, k + 1));
        let pk = back_diagonal(v1, d, k);
        assert(pk == back_diagonal(v2, d, k));
        assert(cell_value(v1, d - 1, pk) == cell_value(v2, d - 1, pk));
        let px = cell_value(v1, d - 1, pk);
        let sx = if pk == k - 1 {
            px + 1
        } else {
            px
        };
        let acc1 = steps_back(acc, x, y, (x - sx) as nat);
        let acc2 = if pk == k - 1 {
            prepend_run(acc1, Diff::Left { index: px as usize, length: 1 })
        } else {
            prepend_run(acc1, Diff::Right { index: (px - pk) as usize, length: 1 })
        };
        lemma_walk_agrees(v1, v2, px, px - pk, d - 1, acc2);
    }
}

/// The runs listed so far, kept back to front: the run at the end of the
/// vector comes first.
pub open spec fn listed(diffs: Seq<Diff>) -> Seq<Diff> {
    diffs.reverse()
}

/// The runs from `(x, y)` on are listed: they tile up to `(n, m)`, are well
/// shaped and pair equal elements.
pub open spec fn listed_from<T: PartialEq>(
    runs: Seq<Diff>,
    left: Seq<T>,
    right: Seq<T>,
    x: int,
    y: int,
) -> bool {
    &&& tiles(runs, x, y, left.len() as int, right.len() as int)
    &&& well_shaped(runs)
    &&& forall|i: int| 0 <= i < runs.len() ==> run_matches(#[trigger] runs[i], left, right)
}

proof fn lemma_push_reverse(diffs: Seq<Diff>, h: Diff)
    ensures
        listed(diffs.push(h)) == seq![h] + listed(diffs),
        (seq![h] + listed(diffs)).drop_first() == listed(diffs),
{
    assert(listed(diffs.push(h)) =~= seq![h] + listed(diffs));
    assert((seq![h] + listed(diffs)).drop_first() =~= listed(diffs));
}

proof fn lemma_set_last_reverse(diffs: Seq<Diff>, h: Diff)
    requires
        diffs.len() > 0,
    ensures
        listed(diffs.update(diffs.len() - 1, h)) == listed(diffs).update(0, h),
        listed(diffs)[0] == diffs[diffs.len() - 1],
        listed(diffs).update(0, h).drop_first() == listed(diffs).drop_first(),
{
    assert(listed(diffs.update(diffs.len() - 1, h)) =~= listed(diffs).update(0, h));
    assert(listed(diffs).update(0, h).drop_first() =~= listed(diffs).drop_first());
}

/// A run that starts at `(x, y)`, is not empty, pairs equal elements and
/// differs in kind from the first listed run can go in front of them.
proof fn lemma_prepend<T: PartialEq>(
    runs: Seq<Diff>,
    h: Diff,
    left: Seq<T>,
    right: Seq<T>,
    x: int,
    y: int,
)
    requires
        listed_from(runs, left, right, x + left_span(h), y + right_span(h)),
        starts_at(h, x, y),
        run_length(h) > 0,
        run_matches(h, left, right),
        runs.len() > 0 ==> !same_kind(h, runs[0]),
    ensures
        listed_from(seq![h] + runs, left, right, x, y),
        edit_count(seq![h] + runs) == run_edits(h) + edit_count(runs),
{
    let r2 = seq![h] + runs;
    assert(r2.drop_first() =~= runs);
    assert forall|i: int| 0 <= i < r2.len() implies run_matches(#[trigger] r2[i], left, right) by {
        if i > 0 {
            assert(r2[i] == runs[i - 1]);
        }
    }
    assert forall|i: int| 0 <= i < r2.len() implies run_length(#[trigger] r2[i]) > 0 by {
        if i > 0 {
            assert(r2[i] == runs[i - 1]);
        }
    }
    assert forall|i: int| 0 <= i < r2.len() - 1 implies !same_kind(#[trigger] r2[i], r2[i + 1]) by {
        assert(r2[i + 1] == runs[i]);
        if i > 0 {
            assert(r2[i] == runs[i - 1]);
        }
    }
}

/// The first listed run can be replaced by a run of its kind that starts at
/// `(x, y)` and reaches where it reached.
proof fn lemma_replace_first<T: PartialEq>(
    runs: Seq<Diff>,
    h: Diff,
    left: Seq<T>,
    right: Seq<T>,
    x: int,
    y: int,
)
    requires
        runs.len() > 0,
        well_shaped(runs),
        forall|i: int| 0 <= i < runs.len() ==> run_matches(#[trigger] runs[i], left, right),
        tiles(runs.drop_first(), x + left_span(h), y + right_span(h), left.len() as int, right.len() as int),
        starts_at(h, x, y),
        run_length(h) > 0,
        run_matches(h, left, right),
        same_kind(h, runs[0]),
    ensures
        listed_from(runs.update(0, h), left, right, x, y),
        edit_count(runs.update(0, h)) == run_edits(h) + edit_count(runs.drop_first()),
{
    let r2 = runs.update(0, h);
    assert(r2.drop_first() =~= runs.drop_first());
    assert forall|i: int| 0 <= i < r2.len() implies run_matches(#[trigger] r2[i], left, right) by {
        if i > 0 {
            assert(r2[i] == runs[i]);
        }
    }
    assert forall|i: int| 0 <= i < r2.len() implies run_length(#[trigger] r2[i]) > 0 by {
        if i > 0 {
            assert(r2[i] == runs[i]);
        }
    }
    assert forall|i: int| 0 <= i < r2.len() - 1 implies !same_kind(#[trigger] r2[i], r2[i + 1]) by {
        assert(r2[i + 1] == runs[i + 1]);
        if i > 0 {
            assert(r2[i] == runs[i]);
        } else {
            assert(!same_kind(runs[0], runs[1]));
        }
    }
}

/// A common run that pairs equal elements, grown by one equal pair in front,
/// still pairs equal elements.
proof fn lemma_extend_common<T: PartialEq>(
    left_index: usize,
    right_index: usize,
    length: usize,
    left: Seq<T>,
    right: Seq<T>,
)
    requires
        1 <= left_index,
        1 <= right_index,
        length < usize::MAX,
        forall|j: int|
            0 <= j < length ==> same(#[trigger] left[left_index + j], right[right_index + j]),
        same(left[left_index - 1], right[right_index - 1]),
    ensures
        run_matches(
            Diff::Both {
                left_index: (left_index - 1) as usize,
                right_index: (right_index - 1) as usize,
                length: (length + 1) as usize,
            },
            left,
            right,
        ),
{
    assert forall|j: int| 0 <= j < length + 1 implies same(
        #[trigger] left[left_index - 1 + j],
        right[right_index - 1 + j],
    ) by {
        if j > 0 {
            let i = j - 1;
            assert(left_index - 1 + j == left_index + i);
            assert(right_index - 1 + j == right_index + i);
            assert(same(left[left_index + i], right[right_index + i]));
        }
    }
}

/// Puts the pair `(x, y)` in front of the listed runs, as a common run.
#[verifier::rlimit(60)]
fn prepend_both<T: PartialEq>(
    diffs: &mut Vec<Diff>,
    x: isize,
    y: isize,
    Ghost(left): Ghost<Seq<T>>,
    Ghost(right): Ghost<Seq<T>>,
)
    requires
        0 <= x,
        0 <= y,
        listed_from(listed(old(diffs)@), left, right, x + 1, y + 1),
        same(left[x as int], right[y as int]),
        left.len() <= usize::MAX,
    ensures
        listed_from(listed(final(diffs)@), left, right, x as int, y as int),
        edit_count(listed(final(diffs)@)) == edit_count(listed(old(diffs)@)),
        listed(final(diffs)@) == prepend_run(
            listed(old(diffs)@),
            Diff::Both { left_index: x as usize, right_index: y as usize, length: 1 },
        ),
{
    let ghost old_runs = listed(diffs@);
    proof {
        lemma_tiles_bounded(old_runs, x + 1, y + 1, left.len() as int, right.len() as int);
    }
    let count = diffs.len();
    if count > 0 {
        let last = diffs[count - 1];
        proof {
            lemma_set_last_reverse(diffs@, last);
        }
        if let Diff::Both { left_index, right_index, length } = last {
            let h = Diff::Both {
                left_index: left_index - 1,
                right_index: right_index - 1,
                length: length + 1,
            };
            diffs.set(count - 1, h);
            proof {
                lemma_set_last_reverse(old(diffs)@, h);
                assert(run_matches(old_runs[0], left, right));
                lemma_extend_common(left_index, right_index, length, left, right);
                lemma_replace_first(old_runs, h, left, right, x as int, y as int);
                let hb = Diff::Both { left_index: x as usize, right_index: y as usize, length: 1 };
                assert(joined(hb, old_runs[0]) == h);
            }
            return;
        }
    }
    let h = Diff::Both { left_index: x as usize, right_index: y as usize, length: 1 };
    diffs.push(h);
    proof {
        lemma_push_reverse(old(diffs)@, h);
        lemma_prepend(old_runs, h, left, right, x as int, y as int);
    }
}

/// Puts `left[x]` in front of the listed runs, as a removal.

fn prepend_left<T: PartialEq>(
    diffs: &mut Vec<Diff>,
    x: isize,
    y: isize,
    Ghost(left): Ghost<Seq<T>>,
    Ghost(right): Ghost<Seq<T>>,
)
    requires
        0 <= x,
        0 <= y,
        listed_from(listed(old(diffs)@), left, right, x + 1, y as int),
        left.len() <= usize::MAX,
    ensures
        listed_from(listed(final(diffs)@), left, right, x as int, y as int),
        edit_count(listed(final(diffs)@)) == edit_count(listed(old(diffs)@)) + 1,
        listed(final(diffs)@) == prepend_run(
            listed(old(diffs)@),
            Diff::Left { index: x as usize, length: 1 },
        ),
{
    let ghost old_runs = listed(diffs@);
    proof {
        lemma_tiles_bounded(old_runs, x + 1, y as int, left.len() as int, right.len() as int);
    }
    let count = diffs.len();
    if count > 0 {
        let last = diffs[count - 1];
        proof {
            lemma_set_last_reverse(diffs@, last);
        }
        if let Diff::Left { index, length } = last {
            let h = Diff::Left { index: index - 1, length: length + 1 };
            diffs.set(count - 1, h);
            proof {
                lemma_set_last_reverse(old(diffs)@, h);
                lemma_replace_first(old_runs, h, left, right, x as int, y as int);
            }
            return;
        }
    }
    let h = Diff::Left { index: x as usize, length: 1 };
    diffs.push(h);
    proof {
        lemma_push_reverse(old(diffs)@, h);
        lemma_prepend(old_runs, h, left, right, x as int, y as int);
    }
}

/// Puts `right[y]` in front of the listed runs, as an insertion.
#[verifier::rlimit(30)]
fn prepend_right<T: PartialEq>(
    diffs: &mut Vec<Diff>,
    x: isize,
    y: isize,
    Ghost(left): Ghost<Seq<T>>,
    Ghost(right): Ghost<Seq<T>>,
)
    requires
        0 <= x,
        0 <= y,
        listed_from(listed(old(diffs)@), left, right, x as int, y + 1),
        right.len() <= usize::MAX,
    ensures
        listed_from(listed(final(diffs)@), left, right, x as int, y as int),
        edit_count(listed(final(diffs)@)) == edit_count(listed(old(diffs)@)) + 1,
        listed(final(diffs)@) == prepend_run(
            listed(old(diffs)@),
            Diff::Right { index: y as usize, length: 1 },
        ),
{
    let ghost old_runs = listed(diffs@);
    proof {
        lemma_tiles_bounded(old_runs, x as int, y + 1, left.len() as int, right.len() as int);
    }
    let count = diffs.len();
    if count > 0 {
        let last = diffs[count - 1];
        proof {
            lemma_set_last_reverse(diffs@, last);
        }
        if let Diff::Right { index, length } = last {
            let h = Diff::Right { index: index - 1, length: length + 1 };
            diffs.set(count - 1, h);
            proof {
                lemma_set_last_reverse(old(diffs)@, h);
                lemma_replace_first(old_runs, h, left, right, x as int, y as int);
            }
            return;
        }
    }
    let h = Diff::Right { index: y as usize, length: 1 };
    diffs.push(h);
    proof {
        lemma_push_reverse(old(diffs)@, h);
        lemma_prepend(old_runs, h, left, right, x as int, y as int);
    }
}

/// The cell one depth up from which the search entered cell `(d, k)`: its
/// diagonal and its x (the origin at depth 0).
fn predecessor<T: PartialEq>(
    trace: &ShortestTrace,
    d: isize,
    k: isize,
    Ghost(left): Ghost<Seq<T>>,
    Ghost(right): Ghost<Seq<T>>,
) -> (r: (isize, isize))
    requires
        trace_ok(trace@, left, right, trace.len_spec()),
        0 <= d <= trace.len_spec(),
        valid_cell(d as int, k as int),
    ensures
        r.0 == back_diagonal(cells(trace@), d as int, k as int),
        d > 0 ==> r.1 == cell_value(cells(trace@), d - 1, r.0 as int),
        d > 0 ==> r.1 == at(trace@, d - 1, r.0 as int),
        d > 0 ==> cell_ok(trace@, left, right, d - 1, r.0 as int),
        d > 0 ==> valid_cell(d - 1, r.0 as int),
        d > 0 && r.0 == k - 1 ==> entry(trace@, d as int, k as int) == r.1 + 1,
        d > 0 && r.0 == k + 1 ==> entry(trace@, d as int, k as int) == r.1,
        d > 0 ==> r.0 == k - 1 || r.0 == k + 1,
        d == 0 ==> r.0 == 0 && r.1 == 0 && k == 0 && entry(trace@, d as int, k as int) == 0,
{
    let ghost n = left.len() as int;
    let ghost m = right.len() as int;
    let ghost s = trace@;
    if d == 0 {
        return (0, 0);
    }
    proof {
        lemma_addressable_below(d - 1, n + m);
        if k > -d {
            lemma_cell_in_storage(d - 1, k - 1, n + m);
            assert(valid_cell(d - 1, k - 1));
        }
        if k < d {
            lemma_cell_in_storage(d - 1, k + 1, n + m);
            assert(valid_cell(d - 1, k + 1));
        }
    }
    let prev_k = if k == -d {
        k + 1
    } else if k == d {
        k - 1
    } else {
        let left_x = *trace.get(d - 1, k - 1);
        let right_x = *trace.get(d - 1, k + 1);
        if left_x < right_x {
            k + 1
        } else {
            k - 1
        }
    };
    let prev_x = *trace.get(d - 1, prev_k);
    proof {
        assert(cell_ok(s, left, right, d - 1, prev_k as int));
    }
    (prev_k, prev_x)
}

/// The runs in the order in which they were listed: front to back.
fn in_order(diffs: &Vec<Diff>) -> (r: Vec<Diff>)
    ensures
        r@ == listed(diffs@),
{
    let mut r: Vec<Diff> = Vec::new();
    let mut i: usize = diffs.len();
    while i > 0
        invariant
            i <= diffs@.len(),
            r@ == listed(diffs@).subrange(0, diffs@.len() - i),
        decreases i,
    {
        i = i - 1;
        r.push(diffs[i]);
        assert(r@ =~= listed(diffs@).subrange(0, diffs@.len() - i));
    }
    assert(r@ =~= listed(diffs@));
    r
}

/// List common subsequences and differences between two sequences by
/// backtracking the given trace.
///
/// The walk starts at the end point `(n, m)` on the depth where the search
/// ended and goes one depth up at each step: it follows the common run that
/// the search followed on that depth, back to where the search entered the
/// diagonal, and then the removal or insertion that led there.
pub fn list_diffs<T: PartialEq>(left: &[T], right: &[T], trace: &ShortestTrace) -> (r: Vec<Diff>)
    requires
        trace_ok(trace@, left@, right@, trace.len_spec()),
    ensures
        is_diff_of(r@, left@, right@),
        left@.len() + right@.len() > 0 ==> edit_count(r@) == trace.len_spec(),
        r@ == walk(cells(trace@), left@.len() as int, right@.len() as int, trace.len_spec()),
{
    let ghost n = left@.len() as int;
    let ghost m = right@.len() as int;
    let ghost s = trace@;
    let ghost len = trace.len_spec();
    proof {
        lemma_tri_monotone(0, n + m + 1);
    }
    assert(n == left.len() && m == right.len());
    if left.len() + right.len() == 0 {
        let mut only: Vec<Diff> = Vec::new();
        only.push(Diff::Both { left_index: 0, right_index: 0, length: 0 });
        assert(only@ =~= seq![Diff::Both { left_index: 0, right_index: 0, length: 0 }]);
        return only;
    }
    let mut x: isize = left.len() as isize;
    let mut y: isize = right.len() as isize;
    let mut diffs: Vec<Diff> = Vec::new();
    let mut d: isize = trace.depth();
    assert(listed(diffs@) =~= Seq::<Diff>::empty());
    assert(walk(cells(s), n, m, len) == walk_from(cells(s), n, m, len, listed(diffs@)));

    while d >= 0
        invariant
            -1 <= d <= len,
            trace@ == s,
            len == trace.len_spec(),
            trace_ok(s, left@, right@, len),
            n == left@.len(),
            m == right@.len(),
            n + m + 1 <= tri(n + m + 1),
            n <= usize::MAX,
            m <= usize::MAX,
            0 <= x <= n,
            0 <= y <= m,
            d >= 0 ==> valid_cell(d as int, x - y),
            d >= 0 ==> at(s, d as int, x - y) == x,
            d >= 0 ==> cell_ok(s, left@, right@, d as int, x - y),
            d < 0 ==> x == 0 && y == 0,
            listed_from(listed(diffs@), left@, right@, x as int, y as int),
            d >= 0 ==> edit_count(listed(diffs@)) == len - d,
            d < 0 ==> edit_count(listed(diffs@)) == len,
            d >= 0 ==> walk_from(cells(s), x as int, y as int, d as int, listed(diffs@)) == walk(
                cells(s),
                n,
                m,
                len,
            ),
            d < 0 ==> listed(diffs@) == walk(cells(s), n, m, len),
        decreases d + 1,
    {
        let k = x - y;
        let ghost e = entry(s, d as int, k as int);
        let ghost x0 = x as int;
        let ghost y0 = y as int;
        let ghost acc0 = listed(diffs@);
        let (prev_k, prev_x) = predecessor::<T>(trace, d, k, Ghost(left@), Ghost(right@));
        let prev_y = prev_x - prev_k;

        while x > prev_x && y > prev_y
            invariant
                0 <= d <= len,
                e == entry(s, d as int, k as int),
                0 <= e,
                k <= e,
                e <= x <= at(s, d as int, k as int),
                y == x - k,
                n <= usize::MAX,
                m <= usize::MAX,
                0 <= x <= n,
                0 <= y <= m,
                d == 0 ==> prev_x == 0 && prev_y == 0 && e == 0,
                d > 0 && prev_k == k - 1 ==> e == prev_x + 1 && e - k == prev_y,
                d > 0 && prev_k == k + 1 ==> e == prev_x && e - k == prev_y + 1,
                d > 0 ==> prev_k == k - 1 || prev_k == k + 1,
                cell_ok(s, left@, right@, d as int, k as int),
                n == left@.len(),
                m == right@.len(),
                listed_from(listed(diffs@), left@, right@, x as int, y as int),
                edit_count(listed(diffs@)) == len - d,
                steps_back(listed(diffs@), x as int, y as int, (x - e) as nat) == steps_back(
                    acc0,
                    x0,
                    y0,
                    (x0 - e) as nat,
                ),
            decreases x,
        {
            let ghost acc = listed(diffs@);
            x = x - 1;
            y = y - 1;
            assert(same(left@[x as int], right@[x - k]));
            prepend_both::<T>(&mut diffs, x, y, Ghost(left@), Ghost(right@));
            assert(steps_back(acc, x + 1, y + 1, (x + 1 - e) as nat) == steps_back(
                listed(diffs@),
                x as int,
                y as int,
                (x - e) as nat,
            ));
        }
        assert(x == e);
        let ghost acc1 = listed(diffs@);
        assert(acc1 == steps_back(acc0, x0, y0, (x0 - e) as nat));

        if d > 0 {
            if prev_y == y {
                prepend_left::<T>(&mut diffs, prev_x, prev_y, Ghost(left@), Ghost(right@));
            } else {
                assert(prev_x == x);
                prepend_right::<T>(&mut diffs, prev_x, prev_y, Ghost(left@), Ghost(right@));
            }
        }
        proof {
            if d > 0 {
                assert(walk_from(cells(s), x0, y0, d as int, acc0) == walk_from(
                    cells(s),
                    prev_x as int,
                    prev_y as int,
                    d - 1,
                    listed(diffs@),
                ));
            } else {
                assert(walk_from(cells(s), x0, y0, d as int, acc0) == listed(diffs@));
            }
        }
        x = prev_x;
        y = prev_y;
        d = d - 1;
    }
    in_order(&diffs)
}

} // verus!
