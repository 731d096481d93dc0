//! Laws of the runs that describe two sequences.
use vstd::prelude::*;
use crate::search::{first_end, myers, snake_end};
use crate::{diff_of, myers_cells};
use crate::runs::{
    covers, edit_count, left_span, replay_left, replay_right, right_span, run_edits, run_length,
    same_kind, scalar_values, tiles, well_shaped, Diff,
};

verus! {

proof fn lemma_replay_from<T>(runs: Seq<Diff>, left: Seq<T>, right: Seq<T>, x: int, y: int)
    requires
        0 <= x,
        0 <= y,
        tiles(runs, x, y, left.len() as int, right.len() as int),
    ensures
        replay_left(runs, left, x) == left.subrange(x, left.len() as int),
        replay_right(runs, right, y) == right.subrange(y, right.len() as int),
    decreases runs.len(),
{
    if runs.len() == 0 {
        assert(left.subrange(x, left.len() as int) =~= Seq::<T>::empty());
        assert(right.subrange(y, right.len() as int) =~= Seq::<T>::empty());
    } else {
        let x2 = x + left_span(runs[0]);
        let y2 = y + right_span(runs[0]);
        crate::runs::lemma_tiles_bounded(runs, x, y, left.len() as int, right.len() as int);
        lemma_replay_from(runs.drop_first(), left, right, x2, y2);
        assert(left.subrange(x, x2) + left.subrange(x2, left.len() as int) =~= left.subrange(
            x,
            left.len() as int,
        ));
        assert(right.subrange(y, y2) + right.subrange(y2, right.len() as int) =~= right.subrange(
            y,
            right.len() as int,
        ));
    }
}

/// Replaying runs that partition both sequences, copying the common and the
/// left-only spans from `left` and the common and the right-only spans from
/// `right`, gives back `left` and `right`.
pub proof fn lemma_replay_reconstructs<T>(runs: Seq<Diff>, left: Seq<T>, right: Seq<T>)
    requires
        covers(runs, left.len() as int, right.len() as int),
    ensures
        replay_left(runs, left, 0) == left,
        replay_right(runs, right, 0) == right,
{
    lemma_replay_from(runs, left, right, 0, 0);
    assert(left.subrange(0, left.len() as int) =~= left);
    assert(right.subrange(0, right.len() as int) =~= right);
}

pub proof fn lemma_edit_count_nonneg(runs: Seq<Diff>)
    ensures
        edit_count(runs) >= 0,
        runs.len() > 0 ==> edit_count(runs) >= run_edits(runs[0]),
    decreases runs.len(),
{
    if runs.len() > 0 {
        lemma_edit_count_nonneg(runs.drop_first());
    }
}

/// Well shaped runs without a removal or an insertion that partition two
/// sequences of `n` elements are one common run over all of both.
pub proof fn lemma_no_edits_one_run(runs: Seq<Diff>, n: int)
    requires
        n > 0,
        covers(runs, n, n),
        well_shaped(runs),
        edit_count(runs) == 0,
    ensures
        runs =~= seq![Diff::Both { left_index: 0, right_index: 0, length: n as usize }],
{
    lemma_edit_count_nonneg(runs);
    assert(runs.len() > 0);
    assert(run_length(runs[0]) > 0);
    lemma_edit_count_nonneg(runs.drop_first());
    assert(run_edits(runs[0]) == 0);
    if runs.len() > 1 {
        assert(run_length(runs[1]) > 0);
        assert(runs.drop_first()[0] == runs[1]);
        assert(run_edits(runs[1]) == 0);
        assert(!same_kind(runs[0], runs[1]));
    }
    assert(runs.drop_first().len() == 0);
    assert(runs.len() == 1);
    match runs[0] {
        Diff::Both { left_index, right_index, length } => {
            assert(tiles(runs.drop_first(), length as int, length as int, n, n));
            assert(length == n);
        },
        _ => {
            assert(false);
        },
    }
}

proof fn lemma_snake_end_of_values(l: Seq<char>, r: Seq<char>, x: int, k: int)
    ensures
        snake_end(scalar_values(l), scalar_values(r), x, k) == snake_end(l, r, x, k),
    decreases l.len() - x,
{
    if 0 <= x < l.len() && 0 <= x - k < r.len() {
        assert(scalar_values(l)[x] == l[x] as u32);
        assert(scalar_values(r)[x - k] == r[x - k] as u32);
        vstd::utf8::char_u32_cast(l[x], l[x] as u32);
        vstd::utf8::char_u32_cast(r[x - k], r[x - k] as u32);
        assert((l[x] as u32 == r[x - k] as u32) <==> (l[x] == r[x - k]));
        lemma_snake_end_of_values(l, r, x + 1, k);
    }
}

proof fn lemma_myers_of_values(l: Seq<char>, r: Seq<char>, d: int, k: int)
    ensures
        myers(scalar_values(l), scalar_values(r), d, k) == myers(l, r, d, k),
    decreases d,
{
    if d > 0 {
        lemma_myers_of_values(l, r, d - 1, k - 1);
        lemma_myers_of_values(l, r, d - 1, k + 1);
    }
    let a = myers(l, r, d - 1, k - 1);
    let b = myers(l, r, d - 1, k + 1);
    let e = if d <= 0 {
        0
    } else if k == -d {
        b
    } else if k == d {
        a + 1
    } else if a < b {
        b
    } else {
        a + 1
    };
    lemma_snake_end_of_values(l, r, e, k);
}

proof fn lemma_first_end_of_values(l: Seq<char>, r: Seq<char>, d: int)
    ensures
        first_end(scalar_values(l), scalar_values(r), d) == first_end(l, r, d),
    decreases l.len() + r.len() - d,
{
    lemma_myers_of_values(l, r, d, l.len() - r.len());
    if d < l.len() + r.len() {
        lemma_first_end_of_values(l, r, d + 1);
    }
}

/// Two strings have the same diff as the sequences of their Unicode scalar
/// values: comparing characters is comparing their scalar values.
pub proof fn lemma_diff_of_scalar_values(l: Seq<char>, r: Seq<char>)
    ensures
        diff_of(scalar_values(l), scalar_values(r)) == diff_of(l, r),
{
    assert forall|d: int, k: int|
        #[trigger] myers_cells(scalar_values(l), scalar_values(r))(d, k) == myers_cells(l, r)(
            d,
            k,
        ) by {
        lemma_myers_of_values(l, r, d, k);
    }
    assert(myers_cells(scalar_values(l), scalar_values(r)) =~= myers_cells(l, r));
    lemma_first_end_of_values(l, r, 0);
}

} // verus!
