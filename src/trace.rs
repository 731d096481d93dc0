//! Triangular storage of the furthest x reached on each diagonal *k* at each
//! depth *d* of the edit graph.
//!
//! Depth *d* holds the diagonals `-d, -d + 2, ..., d`, so it needs `d + 1`
//! slots, and the depths `0..=D` together need `(D + 1) * (D + 2) / 2`.
use vstd::prelude::*;

verus! {

/// `0 + 1 + ... + d`: the number of slots used by the depths before `d`.
pub open spec fn tri(d: int) -> int
    decreases d,
{
    if d <= 0 {
        0
    } else {
        tri(d - 1) + d
    }
}

/// `(d, k)` names a cell: `-d <= k <= d` and `k` has the parity of `d`.
pub open spec fn valid_cell(d: int, k: int) -> bool {
    &&& 0 <= d
    &&& -d <= k <= d
    &&& (k + d) % 2 == 0
}

/// Position of cell `(d, k)` in the flat storage.
pub open spec fn cell_index(d: int, k: int) -> int {
    tri(d) + (k + d) / 2
}

/// The storage for the depths `0..=d`, 8 bytes a slot, fits in one
/// allocation, which holds at most `isize::MAX` bytes.
pub open spec fn addressable(d: int) -> bool {
    0 <= d && 8 * tri(d + 1) <= isize::MAX
}

/// The value of cell `(d, k)` in the storage `s`.
pub open spec fn at(s: Seq<isize>, d: int, k: int) -> int {
    s[cell_index(d, k)] as int
}

pub proof fn lemma_tri_closed(d: int)
    requires
        0 <= d,
    ensures
        2 * tri(d) == d * (d + 1),
    decreases d,
{
    if d > 0 {
        lemma_tri_closed(d - 1);
        assert(tri(d) == tri(d - 1) + d);
        assert(d * (d + 1) == (d - 1) * d + 2 * d) by (nonlinear_arith);
        assert(2 * tri(d) == d * (d + 1));
    } else {
        assert(tri(0) == 0);
    }
}

pub proof fn lemma_tri_monotone(a: int, b: int)
    requires
        0 <= a <= b,
    ensures
        tri(a) + (b - a) <= tri(b),
        tri(a) <= tri(b),
    decreases b - a,
{
    if a < b {
        lemma_tri_monotone(a, b - 1);
    }
}

/// A cell of depth `d` lies in the slots `tri(d) ..= tri(d) + d`, before the
/// slots of depth `d + 1`.
pub proof fn lemma_cell_in_row(d: int, k: int)
    requires
        valid_cell(d, k),
    ensures
        tri(d) <= cell_index(d, k) <= tri(d) + d,
        cell_index(d, k) < tri(d + 1),
{
}

/// Distinct cells have distinct positions.
pub proof fn lemma_cells_distinct(d1: int, k1: int, d2: int, k2: int)
    requires
        valid_cell(d1, k1),
        valid_cell(d2, k2),
        d1 != d2 || k1 != k2,
    ensures
        cell_index(d1, k1) != cell_index(d2, k2),
{
    lemma_cell_in_row(d1, k1);
    lemma_cell_in_row(d2, k2);
    if d1 < d2 {
        lemma_tri_monotone(d1 + 1, d2);
    } else if d2 < d1 {
        lemma_tri_monotone(d2 + 1, d1);
    }
}

/// A cell of depth at most `D` lies inside the storage for depths `0..=D`.
pub proof fn lemma_cell_in_storage(d: int, k: int, max_depth: int)
    requires
        valid_cell(d, k),
        d <= max_depth,
    ensures
        0 <= cell_index(d, k) < tri(max_depth + 1),
{
    lemma_cell_in_row(d, k);
    lemma_tri_monotone(0, d);
    lemma_tri_monotone(d + 1, max_depth + 1);
}

/// The storage for depths `0..=b` holds that for depths `0..=a`.
pub proof fn lemma_addressable_below(a: int, b: int)
    requires
        0 <= a <= b,
        addressable(b),
    ensures
        addressable(a),
{
    lemma_tri_monotone(a + 1, b + 1);
}

/// `s` is the integer square root of `v`, rounded down.
pub open spec fn is_floor_sqrt(s: int, v: int) -> bool {
    0 <= s && s * s <= v < (s + 1) * (s + 1)
}

/// The integer square root of `v`, rounded down, found by bisection.
fn floor_sqrt(v: u64) -> (r: u64)
    ensures
        is_floor_sqrt(r as int, v as int),
{
    let mut lo: u64 = 0;
    let mut hi: u64 = 0x1_0000_0000;
    assert(0x1_0000_0000u64 * 0x1_0000_0000u64 > u64::MAX) by (nonlinear_arith);
    while hi - lo > 1
        invariant
            lo < hi <= 0x1_0000_0000,
            lo * lo <= v,
            v < hi * hi,
        decreases hi - lo,
    {
        let mid = lo + (hi - lo) / 2;
        assert(mid * mid <= 0xffff_ffff * 0xffff_ffff) by (nonlinear_arith)
            requires
                mid <= 0xffff_ffff,
        ;
        if mid * mid <= v {
            lo = mid;
        } else {
            hi = mid;
        }
    }
    lo
}

/// Whether the storage for the search of sequences of these lengths fits in
/// one allocation.
pub fn fits_in_storage(left_len: usize, right_len: usize) -> (r: bool)
    ensures
        r == addressable(left_len + right_len),
{
    let max_depth: u128 = left_len as u128 + right_len as u128;
    proof {
        lemma_tri_closed(max_depth + 1);
    }
    if max_depth >= 0x1_0000_0000 {
        assert(8 * tri(max_depth + 1) > isize::MAX) by (nonlinear_arith)
            requires
                max_depth >= 0x1_0000_0000,
                2 * tri(max_depth + 1) == (max_depth + 1) * (max_depth + 2),
                isize::MAX <= 0x7fff_ffff_ffff_ffff,
        ;
        return false;
    }
    assert((max_depth + 1) * (max_depth + 2) <= 0x1_0000_0001 * 0x1_0000_0002) by (nonlinear_arith)
        requires
            max_depth < 0x1_0000_0000,
    ;
    let slots_twice: u128 = (max_depth + 1) * (max_depth + 2);
    4 * slots_twice <= isize::MAX as u128
}

/// Recorded path through the edit space while the search goes on.
pub struct Trace {
    data: Vec<isize>,
}

impl Trace {
    /// Max length of the sequences that is supported: twice the integer square
    /// root of `isize::MAX`, less two.
    pub fn max_sequence_length() -> (r: usize)
        ensures
            is_floor_sqrt(r / 2 + 2, isize::MAX as int),
            r % 2 == 0,
    {
        let s = floor_sqrt(isize::MAX as u64);
        assert(s >= 2 && 2 * s <= usize::MAX) by (nonlinear_arith)
            requires
                is_floor_sqrt(s as int, isize::MAX as int),
                isize::MAX >= 0x7fff_ffff,
                usize::MAX == 2 * isize::MAX + 1,
        ;
        2 * (s as usize - 2)
    }

    /// Calculates the index into the storage for `(d, k)`.
    pub fn calculate_index(d: isize, k: isize) -> (r: usize)
        requires
            valid_cell(d as int, k as int),
            addressable(d as int),
        ensures
            r as int == cell_index(d as int, k as int),
            (r as int) < tri(d + 1),
    {
        proof {
            lemma_tri_closed(d as int);
            lemma_cell_in_row(d as int, k as int);
            assert(d * (d + 1) <= (d + 1) * (d + 2)) by (nonlinear_arith)
                requires
                    0 <= d,
            ;
            lemma_tri_closed(d + 1);
        }
        let k_offset = d * (d + 1) / 2;
        let unsigned_k = k + d;
        (unsigned_k / 2 + k_offset) as usize
    }

    /// The slots of the storage, in order.
    pub closed spec fn view(&self) -> Seq<isize> {
        self.data@
    }

    /// Constructs a `Trace` with a zeroed slot for every cell of the depths
    /// `0..=left_len + right_len`.
    pub fn new(left_len: usize, right_len: usize) -> (r: Trace)
        requires
            addressable(left_len + right_len),
        ensures
            r@.len() == tri(left_len + right_len + 1),
            forall|i: int| 0 <= i < r@.len() ==> #[trigger] r@[i] == 0,
    {
        proof {
            lemma_tri_monotone(0, left_len + right_len + 1);
            lemma_tri_closed(left_len + right_len + 1);
        }
        let max_depth = left_len + right_len;
        let num_slots = (max_depth + 1) * (max_depth + 2) / 2;
        Trace { data: vec![0; num_slots] }
    }

    /// The value of cell `(d, k)`.
    pub fn get(&self, d: isize, k: isize) -> (r: &isize)
        requires
            valid_cell(d as int, k as int),
            addressable(d as int),
            cell_index(d as int, k as int) < self@.len(),
        ensures
            *r as int == at(self@, d as int, k as int),
    {
        let idx = Trace::calculate_index(d, k);
        &self.data[idx]
    }

    /// A mutable reference to cell `(d, k)`.
    pub fn get_mut(&mut self, d: isize, k: isize) -> (r: &mut isize)
        requires
            valid_cell(d as int, k as int),
            addressable(d as int),
            cell_index(d as int, k as int) < old(self)@.len(),
        ensures
            *r as int == at(old(self)@, d as int, k as int),
            final(self)@ == old(self)@.update(cell_index(d as int, k as int), *final(r)),
    {
        let idx = Trace::calculate_index(d, k);
        &mut self.data[idx]
    }

    /// Freezes the storage, with `len` the depth at which the search ended.
    pub fn into_shortest(self, len: isize) -> (r: ShortestTrace)
        requires
            0 <= len,
        ensures
            r@ == self@,
            r.len_spec() == len,
    {
        ShortestTrace { data: self.data, len: len as usize }
    }
}

/// The trace found by the search, with the depth at which it ended: the
/// length of the shortest edit script.
#[derive(Debug, Clone, PartialEq, Eq)]
pub struct ShortestTrace {
    data: Vec<isize>,
    len: usize,
}

impl ShortestTrace {
    /// The slots of the storage, in order.
    pub closed spec fn view(&self) -> Seq<isize> {
        self.data@
    }

    /// The depth at which the search ended.
    pub closed spec fn len_spec(&self) -> int {
        self.len as int
    }

    /// The length of the found shortest trace.
    pub fn len(&self) -> (r: usize)
        requires
            0 <= self.len_spec(),
        ensures
            r == self.len_spec(),
    {
        self.len as usize
    }

    /// The depth at which the search ended, as the signed type of the depths.
    pub(crate) fn depth(&self) -> (r: isize)
        requires
            self.len_spec() <= isize::MAX,
        ensures
            r == self.len_spec(),
    {
        self.len as isize
    }

    /// The slots of the recorded trace.
    pub fn data(&self) -> (r: &[isize])
        ensures
            r@ == self@,
    {
        self.data.as_slice()
    }

    /// The value of cell `(d, k)`.
    pub fn get(&self, d: isize, k: isize) -> (r: &isize)
        requires
            valid_cell(d as int, k as int),
            addressable(d as int),
            cell_index(d as int, k as int) < self@.len(),
        ensures
            *r as int == at(self@, d as int, k as int),
    {
        let idx = Trace::calculate_index(d, k);
        &self.data[idx]
    }

    /// A mutable reference to cell `(d, k)`.
    pub fn get_mut(&mut self, d: isize, k: isize) -> (r: &mut isize)
        requires
            valid_cell(d as int, k as int),
            addressable(d as int),
            cell_index(d as int, k as int) < old(self)@.len(),
        ensures
            *r as int == at(old(self)@, d as int, k as int),
            final(self)@ == old(self)@.update(cell_index(d as int, k as int), *final(r)),
            final(self).len_spec() == old(self).len_spec(),
    {
        let idx = Trace::calculate_index(d, k);
        &mut self.data[idx]
    }
}

} // verus!
