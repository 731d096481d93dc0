use lcs_diff::trace::fits_in_storage;
use lcs_diff::{
    diff, diff_str, find_shortest_trace, list_diffs, max_sequence_length, try_diff, try_diff_str,
    Diff, DiffError, Trace,
};

fn replay<T: Clone>(diffs: &[Diff], left: &[T], right: &[T]) -> (Vec<T>, Vec<T>) {
    let mut l = Vec::new();
    let mut r = Vec::new();
    for d in diffs {
        match *d {
            Diff::Left { index, length } => l.extend_from_slice(&left[index..index + length]),
            Diff::Right { index, length } => r.extend_from_slice(&right[index..index + length]),
            Diff::Both {
                left_index,
                right_index,
                length,
            } => {
                l.extend_from_slice(&left[left_index..left_index + length]);
                r.extend_from_slice(&right[right_index..right_index + length]);
            }
        }
    }
    (l, r)
}

#[test]
fn runs_partition_both_sequences() {
    let left: Vec<char> = "abcabba".chars().collect();
    let right: Vec<char> = "cbabac".chars().collect();
    let diffs = diff(&left, &right);
    let mut x = 0;
    let mut y = 0;
    for d in &diffs {
        match *d {
            Diff::Left { index, length } => {
                assert_eq!(index, x);
                x += length;
            }
            Diff::Right { index, length } => {
                assert_eq!(index, y);
                y += length;
            }
            Diff::Both {
                left_index,
                right_index,
                length,
            } => {
                assert_eq!((left_index, right_index), (x, y));
                assert_eq!(
                    left[left_index..left_index + length],
                    right[right_index..right_index + length]
                );
                x += length;
                y += length;
            }
        }
    }
    assert_eq!((x, y), (left.len(), right.len()));
}

#[test]
fn replaying_runs_gives_back_both_sequences() {
    let left = vec![3, 1, 4, 1, 5, 9, 2, 6];
    let right = vec![2, 7, 1, 8, 2, 8, 1, 8, 2, 8];
    let diffs = diff(&left, &right);
    let (l, r) = replay(&diffs, &left, &right);
    assert_eq!(l, left);
    assert_eq!(r, right);
}

#[test]
fn trace_length_is_at_most_the_sum_of_the_lengths() {
    let trace = find_shortest_trace(&[1, 2, 3], &[4, 5]);
    assert_eq!(trace.len(), 5);
    let trace = find_shortest_trace(&[1, 2, 3, 4], &[1, 3, 4, 5]);
    assert_eq!(trace.len(), 2);
    assert!(trace.len() <= 8);
}

#[test]
fn a_sequence_against_itself_is_one_common_run() {
    let x = vec![1, 2, 3, 2, 1];
    assert_eq!(
        diff(&x, &x),
        vec![Diff::Both {
            left_index: 0,
            right_index: 0,
            length: 5,
        }]
    );
    let trace = find_shortest_trace(&x, &x);
    assert_eq!(trace.len(), 0);
    assert_eq!(*trace.get(0, 0), 5);
}

#[test]
fn empty_slices_give_one_empty_common_run() {
    let empty: [u8; 0] = [];
    assert_eq!(
        diff(&empty, &empty),
        vec![Diff::Both {
            left_index: 0,
            right_index: 0,
            length: 0,
        }]
    );
}

#[test]
fn one_side_empty() {
    let empty: [i32; 0] = [];
    assert_eq!(diff(&empty, &[7]), vec![Diff::Right { index: 0, length: 1 }]);
    assert_eq!(diff(&[7, 8], &empty), vec![Diff::Left { index: 0, length: 2 }]);
}

#[test]
fn indices_count_scalar_values_not_bytes() {
    assert_eq!(
        diff_str("äbc", "bc"),
        vec![
            Diff::Left { index: 0, length: 1 },
            Diff::Both {
                left_index: 1,
                right_index: 0,
                length: 2,
            },
        ]
    );
    assert_eq!(
        diff_str("x€y", "x€zy"),
        vec![
            Diff::Both {
                left_index: 0,
                right_index: 0,
                length: 2,
            },
            Diff::Right { index: 2, length: 1 },
            Diff::Both {
                left_index: 2,
                right_index: 3,
                length: 1,
            },
        ]
    );
}

#[test]
fn cells_are_laid_out_by_depth_then_diagonal() {
    assert_eq!(Trace::calculate_index(0, 0), 0);
    assert_eq!(Trace::calculate_index(1, -1), 1);
    assert_eq!(Trace::calculate_index(1, 1), 2);
    assert_eq!(Trace::calculate_index(2, -2), 3);
    assert_eq!(Trace::calculate_index(2, 0), 4);
    assert_eq!(Trace::calculate_index(2, 2), 5);
    assert_eq!(Trace::calculate_index(3, -3), 6);
    assert_eq!(Trace::calculate_index(4, 4), 14);
}

#[test]
fn new_trace_is_zeroed_and_cells_can_be_written() {
    let mut trace = Trace::new(2, 3);
    assert_eq!(*trace.get(5, 5), 0);
    *trace.get_mut(2, 0) = 4;
    assert_eq!(*trace.get(2, 0), 4);
    assert_eq!(*trace.get(2, -2), 0);
    assert_eq!(*trace.get(2, 2), 0);
}

#[test]
fn shortest_trace_records_the_search() {
    let trace = find_shortest_trace(&['a', 'b'], &['b']);
    assert_eq!(trace.len(), 1);
    assert_eq!(trace.data().len(), 10);
    assert_eq!(trace.data()[0], 0);
    assert_eq!(*trace.get(1, -1), 0);
    assert_eq!(*trace.get(1, 1), 2);
    let mut copy = trace.clone();
    *copy.get_mut(0, 0) = 9;
    assert_eq!(*copy.get(0, 0), 9);
    assert_eq!(*trace.get(0, 0), 0);
}

#[test]
fn listing_the_trace_gives_the_diff() {
    let left = [1, 2, 3, 4, 5];
    let right = [2, 3, 9, 5];
    let trace = find_shortest_trace(&left, &right);
    assert_eq!(trace.len(), 3);
    assert_eq!(
        list_diffs(&left, &right, &trace),
        vec![
            Diff::Left { index: 0, length: 1 },
            Diff::Both {
                left_index: 1,
                right_index: 0,
                length: 2,
            },
            Diff::Left { index: 3, length: 1 },
            Diff::Right { index: 2, length: 1 },
            Diff::Both {
                left_index: 4,
                right_index: 3,
                length: 1,
            },
        ]
    );
}

#[test]
fn checked_diff_matches_diff() {
    let left = [1, 2, 3];
    let right = [1, 3];
    assert_eq!(try_diff(&left, &right), Ok(diff(&left, &right)));
    assert_eq!(
        try_diff_str("ABCD", "ABDC"),
        Ok(diff_str("ABCD", "ABDC"))
    );
}

#[test]
fn checked_diff_rejects_sequences_too_long_for_the_storage() {
    let long = vec![(); 2_000_000_000];
    assert_eq!(try_diff(&long, &[]), Err(DiffError::InputTooLong));
    assert!(!fits_in_storage(2_000_000_000, 0));
    assert!(fits_in_storage(1000, 1000));
}

#[test]
fn storage_bound_sits_below_the_length_bound() {
    let max = max_sequence_length();
    assert_eq!(max, 6_074_000_994);
    assert!(!fits_in_storage(max, 0));
}
