//! The runs that a diff is made of, and what it means for a list of runs to
//! describe two sequences.
use vstd::prelude::*;
use vstd::std_specs::cmp::PartialEqSpec;

verus! {

/// A subsequence that is present in either of two sequences or in both.
#[derive(Debug, Clone, Copy, PartialEq, Eq, Structural)]
pub enum Diff {
    /// A subsequence that is only present in the left sequence, starting at
    /// `index` in the left sequence. This is a 'remove' in an edit script.
    Left { index: usize, length: usize },
    /// A subsequence present in both sequences, starting at `left_index` in
    /// the left one and at `right_index` in the right one.
    Both { left_index: usize, right_index: usize, length: usize },
    /// A subsequence that is only present in the right sequence, starting at
    /// `index` in the right sequence. This is an 'insert' in an edit script.
    Right { index: usize, length: usize },
}

/// Number of elements of the left sequence that a run spans.
pub open spec fn left_span(r: Diff) -> int {
    match r {
        Diff::Left { length, .. } => length as int,
        Diff::Both { length, .. } => length as int,
        Diff::Right { .. } => 0,
    }
}

/// Number of elements of the right sequence that a run spans.
pub open spec fn right_span(r: Diff) -> int {
    match r {
        Diff::Left { .. } => 0,
        Diff::Both { length, .. } => length as int,
        Diff::Right { length, .. } => length as int,
    }
}

/// The length of a run.
pub open spec fn run_length(r: Diff) -> int {
    match r {
        Diff::Left { length, .. } => length as int,
        Diff::Both { length, .. } => length as int,
        Diff::Right { length, .. } => length as int,
    }
}

/// A run starts at left position `x` and right position `y` (a run that
/// spans only one side says nothing of the other).
pub open spec fn starts_at(r: Diff, x: int, y: int) -> bool {
    match r {
        Diff::Left { index, .. } => index == x,
        Diff::Both { left_index, right_index, .. } => left_index == x && right_index == y,
        Diff::Right { index, .. } => index == y,
    }
}

/// Two runs of the same variant.
pub open spec fn same_kind(a: Diff, b: Diff) -> bool {
    match (a, b) {
        (Diff::Left { .. }, Diff::Left { .. }) => true,
        (Diff::Both { .. }, Diff::Both { .. }) => true,
        (Diff::Right { .. }, Diff::Right { .. }) => true,
        _ => false,
    }
}

/// Read in order from left position `x` and right position `y`, the runs
/// cover `[x, n)` of the left sequence and `[y, m)` of the right sequence,
/// each run starting where the ones before it end.
pub open spec fn tiles(runs: Seq<Diff>, x: int, y: int, n: int, m: int) -> bool
    decreases runs.len(),
{
    if runs.len() == 0 {
        x == n && y == m
    } else {
        &&& starts_at(runs[0], x, y)
        &&& tiles(runs.drop_first(), x + left_span(runs[0]), y + right_span(runs[0]), n, m)
    }
}

/// The runs partition `[0, n)` of the left and `[0, m)` of the right sequence.
pub open spec fn covers(runs: Seq<Diff>, n: int, m: int) -> bool {
    tiles(runs, 0, 0, n, m)
}

/// Two elements that the element type's `==` calls equal.
pub open spec fn same<T: PartialEq>(a: T, b: T) -> bool {
    T::obeys_eq_spec() ==> a.eq_spec(&b)
}

/// A common run pairs up elements that are equal.
pub open spec fn run_matches<T: PartialEq>(r: Diff, left: Seq<T>, right: Seq<T>) -> bool {
    match r {
        Diff::Both { left_index, right_index, length } => forall|j: int|
            0 <= j < length ==> same(
                #[trigger] left[left_index + j],
                right[right_index + j],
            ),
        _ => true,
    }
}

/// Runs in the shape that a diff of two sequences that are not both empty
/// has: no empty run, and no two neighbours of the same variant.
pub open spec fn well_shaped(runs: Seq<Diff>) -> bool {
    &&& forall|i: int| 0 <= i < runs.len() ==> run_length(#[trigger] runs[i]) > 0
    &&& forall|i: int| 0 <= i < runs.len() - 1 ==> !same_kind(#[trigger] runs[i], runs[i + 1])
}

/// What `diff` returns for `left` and `right`: the single empty common run
/// when both are empty, else well shaped runs that partition both sequences
/// and whose common runs pair equal elements.
pub open spec fn is_diff_of<T: PartialEq>(runs: Seq<Diff>, left: Seq<T>, right: Seq<T>) -> bool {
    if left.len() + right.len() == 0 {
        runs == seq![Diff::Both { left_index: 0, right_index: 0, length: 0 }]
    } else {
        &&& covers(runs, left.len() as int, right.len() as int)
        &&& well_shaped(runs)
        &&& forall|i: int| 0 <= i < runs.len() ==> run_matches(#[trigger] runs[i], left, right)
    }
}

/// The runs partition both sequences and their common runs pair equal
/// elements: they describe one way to edit `left` into `right`.
pub open spec fn is_alignment<T: PartialEq>(runs: Seq<Diff>, left: Seq<T>, right: Seq<T>) -> bool {
    &&& covers(runs, left.len() as int, right.len() as int)
    &&& forall|i: int| 0 <= i < runs.len() ==> run_matches(#[trigger] runs[i], left, right)
}

/// No way to edit `left` into `right` takes fewer removals and insertions
/// than `runs` take.
pub open spec fn is_shortest<T: PartialEq>(runs: Seq<Diff>, left: Seq<T>, right: Seq<T>) -> bool {
    forall|other: Seq<Diff>| #[trigger]
        is_alignment(other, left, right) ==> edit_count(runs) <= edit_count(other)
}

/// The Unicode scalar values of a sequence of characters.
pub open spec fn scalar_values(s: Seq<char>) -> Seq<u32> {
    s.map_values(|c: char| c as u32)
}

/// The elements of `s` that the runs from position `x` on take from the left
/// sequence, in order.
pub open spec fn replay_left<T>(runs: Seq<Diff>, s: Seq<T>, x: int) -> Seq<T>
    decreases runs.len(),
{
    if runs.len() == 0 {
        seq![]
    } else {
        s.subrange(x, x + left_span(runs[0])) + replay_left(
            runs.drop_first(),
            s,
            x + left_span(runs[0]),
        )
    }
}

/// The elements of `s` that the runs from position `y` on take from the right
/// sequence, in order.
pub open spec fn replay_right<T>(runs: Seq<Diff>, s: Seq<T>, y: int) -> Seq<T>
    decreases runs.len(),
{
    if runs.len() == 0 {
        seq![]
    } else {
        s.subrange(y, y + right_span(runs[0])) + replay_right(
            runs.drop_first(),
            s,
            y + right_span(runs[0]),
        )
    }
}

/// Run `h` followed by run `r` of the same kind, as one run.
pub open spec fn joined(h: Diff, r: Diff) -> Diff {
    match (h, r) {
        (Diff::Left { index, length }, Diff::Left { length: more, .. }) => Diff::Left {
            index,
            length: (length + more) as usize,
        },
        (
            Diff::Both { left_index, right_index, length },
            Diff::Both { length: more, .. },
        ) => Diff::Both { left_index, right_index, length: (length + more) as usize },
        (Diff::Right { index, length }, Diff::Right { length: more, .. }) => Diff::Right {
            index,
            length: (length + more) as usize,
        },
        _ => h,
    }
}

/// Puts run `h` in front of `runs`, joining it with the first run when that
/// is of the same kind.
pub open spec fn prepend_run(runs: Seq<Diff>, h: Diff) -> Seq<Diff> {
    if runs.len() > 0 && same_kind(h, runs[0]) {
        runs.update(0, joined(h, runs[0]))
    } else {
        seq![h] + runs
    }
}

/// Number of removed or inserted elements in a run.
pub open spec fn run_edits(r: Diff) -> int {
    match r {
        Diff::Left { length, .. } => length as int,
        Diff::Both { .. } => 0,
        Diff::Right { length, .. } => length as int,
    }
}

/// Number of removed and inserted elements in all runs: the length of the
/// edit script that the runs describe.
pub open spec fn edit_count(runs: Seq<Diff>) -> int
    decreases runs.len(),
{
    if runs.len() == 0 {
        0
    } else {
        run_edits(runs[0]) + edit_count(runs.drop_first())
    }
}

/// Runs that tile from `(x, y)` to `(n, m)` stay inside those bounds.
pub proof fn lemma_tiles_bounded(runs: Seq<Diff>, x: int, y: int, n: int, m: int)
    requires
        tiles(runs, x, y, n, m),
    ensures
        x <= n,
        y <= m,
        runs.len() > 0 ==> x + left_span(runs[0]) <= n && y + right_span(runs[0]) <= m,
    decreases runs.len(),
{
    if runs.len() > 0 {
        lemma_tiles_bounded(
            runs.drop_first(),
            x + left_span(runs[0]),
            y + right_span(runs[0]),
            n,
            m,
        );
    }
}

} // verus!
