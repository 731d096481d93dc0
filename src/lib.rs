//! Find the differences of two sequences.
//!
//! The common subsequences and the differences of two sequences are found with
//! Myers' greedy search of the edit graph, and listed as runs that are only in
//! the left sequence, only in the right one, or in both.
use vstd::prelude::*;
use vstd::laws_eq::obeys_concrete_eq;
use vstd::std_specs::cmp::PartialEqSpec;
use vstd::std_specs::iter::IteratorSpec;
use crate::laws::{lemma_diff_of_scalar_values, lemma_edit_count_nonneg, lemma_no_edits_one_run, lemma_replay_reconstructs};
use crate::optimal::lemma_no_shorter;
use crate::runs::{
    edit_count, is_alignment, is_diff_of, is_shortest, replay_left, replay_right, scalar_values,
    tiles,
};
use crate::search::{cell_ok, first_end, myers, reaches_end, written};
use crate::backtrack::{cells, lemma_walk_agrees, walk};
use crate::trace::{addressable, at, fits_in_storage, is_floor_sqrt, valid_cell};

pub mod runs;
pub mod trace;
pub mod search;
pub mod backtrack;
pub mod laws;
pub mod optimal;

pub use runs::Diff;
pub use trace::{ShortestTrace, Trace};
pub use search::find_shortest_trace;
pub use backtrack::list_diffs;

verus! {

/// Myers' cell values for `left` and `right`.
pub open spec fn myers_cells<T>(left: Seq<T>, right: Seq<T>) -> spec_fn(int, int) -> int {
    |d: int, k: int| myers(left, right, d, k)
}

/// The diff of `left` and `right`: the runs that the backward walk lists
/// through Myers' cell values, from the end point at the first depth that
/// reaches it.
pub open spec fn diff_of<T>(left: Seq<T>, right: Seq<T>) -> Seq<Diff> {
    walk(
        myers_cells(left, right),
        left.len() as int,
        right.len() as int,
        first_end(left, right, 0),
    )
}

/// Why a diff was not computed.
#[derive(Debug, Clone, Copy, PartialEq, Eq, Structural)]
pub enum DiffError {
    /// The sequences are too long: the storage for the search would not fit
    /// in one allocation.
    InputTooLong,
}

/// Find the common subsequences and differences between two slices, or
/// report that they are too long for the search.
pub fn try_diff<T: PartialEq>(left: &[T], right: &[T]) -> (r: Result<Vec<Diff>, DiffError>)
    ensures
        r is Err <==> !addressable(left@.len() + right@.len() as int),
        r matches Err(e) ==> e == DiffError::InputTooLong,
        r matches Ok(v) ==> is_diff_of(v@, left@, right@),
        r matches Ok(v) ==> obeys_concrete_eq::<T>() ==> is_shortest(v@, left@, right@),
        r matches Ok(v) ==> obeys_concrete_eq::<T>() ==> v@ == diff_of(left@, right@),
{
    if !fits_in_storage(left.len(), right.len()) {
        return Err(DiffError::InputTooLong);
    }
    Ok(diff(left, right))
}

/// Find the common subsequences and differences between two strings, or
/// report that they are too long for the search.
pub fn try_diff_str(left: &str, right: &str) -> (r: Result<Vec<Diff>, DiffError>)
    ensures
        r is Err <==> !addressable(left@.len() + right@.len() as int),
        r matches Err(e) ==> e == DiffError::InputTooLong,
        r matches Ok(v) ==> is_diff_of(v@, scalar_values(left@), scalar_values(right@)),
        r matches Ok(v) ==> is_shortest(v@, scalar_values(left@), scalar_values(right@)),
        r matches Ok(v) ==> v@ == diff_of(scalar_values(left@), scalar_values(right@)),
{
    let left_values = to_scalar_values(&chars_of(left));
    let right_values = to_scalar_values(&chars_of(right));
    if !fits_in_storage(left_values.len(), right_values.len()) {
        return Err(DiffError::InputTooLong);
    }
    proof {
        broadcast use vstd::laws_eq::group_laws_eq;
        assert(obeys_concrete_eq::<u32>());
    }
    Ok(diff(left_values.as_slice(), right_values.as_slice()))
}

/// Max length of the sequences that is supported.
pub fn max_sequence_length() -> (r: usize)
    ensures
        is_floor_sqrt(r / 2 + 2, isize::MAX as int),
        r % 2 == 0,
{
    Trace::max_sequence_length()
}

/// The characters of a string, in order.
fn chars_of(s: &str) -> (r: Vec<char>)
    ensures
        r@ == s@,
{
    let mut it = s.chars();
    proof {
        broadcast use vstd::string::axiom_spec_iter;
    }
    let mut r: Vec<char> = Vec::new();
    loop
        invariant
            it.obeys_prophetic_iter_laws(),
            it.decrease() is Some,
            r@ + it.remaining() == s@,
        ensures
            r@ == s@,
        decreases it.decrease()->0,
    {
        let ghost before = it;
        match it.next() {
            Some(c) => {
                proof {
                    vstd::string::next_postcondition(&before, &it, Some(c));
                    assert(r@.push(c) + it.remaining() =~= r@ + before.remaining());
                }
                r.push(c);
            },
            None => {
                proof {
                    vstd::string::next_postcondition(&before, &it, None);
                    assert(r@ + it.remaining() =~= r@);
                }
                break;
            },
        }
    }
    r
}

/// The Unicode scalar value of each character, as an integer.
fn to_scalar_values(chars: &Vec<char>) -> (r: Vec<u32>)
    ensures
        r@ == scalar_values(chars@),
{
    let mut r: Vec<u32> = Vec::new();
    let mut i: usize = 0;
    while i < chars.len()
        invariant
            i <= chars@.len(),
            r@ == scalar_values(chars@.subrange(0, i as int)),
        decreases chars@.len() - i,
    {
        r.push(chars[i] as u32);
        i = i + 1;
        assert(r@ =~= scalar_values(chars@.subrange(0, i as int)));
    }
    assert(chars@.subrange(0, chars@.len() as int) =~= chars@);
    r
}

/// Find the common subsequences and differences between two strings.
///
/// The strings are compared as sequences of Unicode scalar values, and the
/// indices in the runs count scalar values, not bytes. What [`diff`] promises
/// of two slices holds of the two sequences of scalar values.
pub fn diff_str(left: &str, right: &str) -> (r: Vec<Diff>)
    requires
        addressable(left@.len() + right@.len() as int),
    ensures
        is_diff_of(r@, scalar_values(left@), scalar_values(right@)),
        is_shortest(r@, scalar_values(left@), scalar_values(right@)),
        r@ == diff_of(scalar_values(left@), scalar_values(right@)),
        r@ == diff_of(left@, right@),
        replay_left(r@, scalar_values(left@), 0) == scalar_values(left@),
        replay_right(r@, scalar_values(right@), 0) == scalar_values(right@),
        left@ == right@ ==> r@ == seq![
            Diff::Both { left_index: 0, right_index: 0, length: left@.len() as usize },
        ],
{
    let left_values = to_scalar_values(&chars_of(left));
    let right_values = to_scalar_values(&chars_of(right));
    proof {
        broadcast use vstd::laws_eq::group_laws_eq;
        assert(obeys_concrete_eq::<u32>());
        lemma_diff_of_scalar_values(left@, right@);
    }
    diff(left_values.as_slice(), right_values.as_slice())
}

/// Find the common subsequences and differences between two slices.
///
/// The runs partition both slices, the common runs pair equal elements, and
/// no run is empty and no two neighbours are of the same kind; two empty
/// slices give the one empty common run. A slice compared with itself gives
/// one common run over all of it. Where `==` is plain equality the result is
/// exactly the runs that Myers' search and the backward walk give, with ties
/// going to the removal. The storage for the search, one `isize` for each of
/// `(D + 1) * (D + 2) / 2` cells with `D` the sum of the two lengths, must fit
/// in one allocation: check with [`trace::fits_in_storage`], or call
/// [`try_diff`], which reports sequences that are too long. Staying under
/// [`max_sequence_length()`] is not enough for that.
pub fn diff<T: PartialEq>(left: &[T], right: &[T]) -> (r: Vec<Diff>)
    requires
        addressable(left@.len() + right@.len() as int),
    ensures
        is_diff_of(r@, left@, right@),
        edit_count(r@) <= left@.len() + right@.len(),
        replay_left(r@, left@, 0) == left@,
        replay_right(r@, right@, 0) == right@,
        obeys_concrete_eq::<T>() ==> is_shortest(r@, left@, right@),
        obeys_concrete_eq::<T>() ==> r@ == diff_of(left@, right@),
        (obeys_concrete_eq::<T>() && left@ == right@) ==> r@ == seq![
            Diff::Both { left_index: 0, right_index: 0, length: left@.len() as usize },
        ],
{
    let trace = find_shortest_trace(left, right);
    let r = list_diffs(left, right, &trace);
    proof {
        let n = left@.len() as int;
        let m = right@.len() as int;
        if n + m == 0 {
            assert(edit_count(r@) == 0 + edit_count(r@.drop_first()));
            assert(r@.drop_first().len() == 0);
            assert(tiles(r@.drop_first(), 0, 0, 0, 0));
        }
        lemma_replay_reconstructs(r@, left@, right@);
        if obeys_concrete_eq::<T>() {
            assert forall|other: Seq<Diff>| #[trigger]
                is_alignment(other, left@, right@) implies edit_count(r@) <= edit_count(other) by {
                lemma_edit_count_nonneg(other);
                if n + m > 0 {
                    lemma_no_shorter(trace@, left@, right@, trace.len_spec(), other);
                }
            }
        }
        if obeys_concrete_eq::<T>() && n + m > 0 {
            let len = trace.len_spec();
            assert forall|d2: int, k2: int| valid_cell(d2, k2) && d2 < len implies #[trigger] cells(
                trace@,
            )(d2, k2) == myers_cells(left@, right@)(d2, k2) by {
                assert(written(d2, k2, len, n - m));
                assert(at(trace@, d2, k2) == myers(left@, right@, d2, k2));
            }
            lemma_walk_agrees(cells(trace@), myers_cells(left@, right@), n, m, len, seq![]);
        }
        if obeys_concrete_eq::<T>() && left@ == right@ && n > 0 {
            reveal(obeys_concrete_eq);
            let s = trace@;
            assert(valid_cell(0, 0));
            assert(cell_ok(s, left@, right@, 0, 0));
            if at(s, 0, 0) < n {
                assert(left@[at(s, 0, 0)].eq_spec(&right@[at(s, 0, 0) - 0]));
            }
            assert(reaches_end(s, n, m, 0, 0));
            assert(trace.len_spec() == 0);
            lemma_no_edits_one_run(r@, n);
        }
    }
    r
}

} // verus!
