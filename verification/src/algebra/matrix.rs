//! The compressed-sparse-column matrix: its format, the predicates that
//! state it, and the operations that depend on nothing else.

use vstd::prelude::*;

verus! {

/// Placement of a block: as stored, or transposed.
#[derive(Clone, Copy, Debug, PartialEq, Eq, Structural)]
pub enum MatrixShape {
    /// The block is placed as stored.
    N,
    /// The block is placed transposed.
    T,
}

/// The triangle of a symmetric block that is stored.
#[derive(Clone, Copy, Debug, PartialEq, Eq, Structural)]
pub enum MatrixTriangle {
    /// Upper triangle, diagonal included.
    Triu,
    /// Lower triangle, diagonal included.
    Tril,
}

/// A value that the scalar type hands out as its default. Structural zeros
/// are written with it; for the primitive numeric types it is zero.
pub open spec fn structural_zero<T: Default>(x: T) -> bool {
    call_ensures(T::default, (), x)
}

/// Sparse matrix in compressed-sparse-column form.
///
/// Column `c` owns the entries `colptr[c] .. colptr[c + 1]` of `rowval` and
/// `nzval`. While a matrix is being assembled `colptr` is used first as a
/// table of per-column counts and then as a table of write cursors, so the
/// fields are public and the format is stated by [`CscMatrix::well_formed`]
/// and [`CscMatrix::is_canonical`] rather than enforced by the type.
#[derive(Debug, Clone, PartialEq)]
pub struct CscMatrix<T> {
    /// Number of rows.
    pub m: usize,
    /// Number of columns.
    pub n: usize,
    /// Offsets of the columns, one more than there are columns.
    pub colptr: Vec<usize>,
    /// Row index of each stored entry.
    pub rowval: Vec<usize>,
    /// Value of each stored entry.
    pub nzval: Vec<T>,
}

impl<T> CscMatrix<T> {
    /// Number of stored entries.
    pub open spec fn nnz(&self) -> nat {
        self.rowval@.len()
    }

    /// Entry `k` is stored in column `c`.
    pub open spec fn holds(&self, c: int, k: int) -> bool {
        0 <= c < self.n && self.colptr@[c] <= k < self.colptr@[c + 1]
    }

    /// The column offsets describe the value arrays: they start at zero,
    /// never decrease, and end at the number of stored entries.
    pub open spec fn well_formed(&self) -> bool {
        &&& self.colptr@.len() == self.n + 1
        &&& self.rowval@.len() == self.nzval@.len()
        &&& self.colptr@[0] == 0
        &&& self.colptr@[self.n as int] == self.rowval@.len()
        &&& forall|i: int, j: int|
            0 <= i <= j <= self.n ==> self.colptr@[i] <= self.colptr@[j]
    }

    /// Within every column the row indices are strictly increasing.
    pub open spec fn rows_increasing(&self) -> bool {
        forall|c: int, k1: int, k2: int|
            #[trigger] self.holds(c, k1) && #[trigger] self.holds(c, k2) && k1 < k2
                ==> self.rowval@[k1] < self.rowval@[k2]
    }

    /// Every row index lies inside the matrix.
    pub open spec fn rows_in_range(&self) -> bool {
        forall|k: int| 0 <= k < self.rowval@.len() ==> #[trigger] self.rowval@[k] < self.m
    }

    /// Canonical compressed-sparse-column form.
    pub open spec fn is_canonical(&self) -> bool {
        &&& self.well_formed()
        &&& self.rows_increasing()
        &&& self.rows_in_range()
    }

    /// No stored entry lies below the diagonal.
    pub open spec fn is_upper_triangular(&self) -> bool {
        forall|c: int, k: int| #[trigger] self.holds(c, k) ==> self.rowval@[k] <= c
    }

    /// `self` and `other` have the same shape and store entries at the same
    /// places.
    pub open spec fn same_pattern(&self, other: Self) -> bool {
        &&& self.m == other.m
        &&& self.n == other.n
        &&& self.colptr@ == other.colptr@
        &&& self.rowval@ == other.rowval@
        &&& self.nzval@.len() == other.nzval@.len()
    }

    /// `self` is `before` with the values `values[p]` at the positions
    /// `index[p]`, and nothing else changed.
    pub open spec fn values_updated(&self, before: Self, index: Seq<usize>, values: Seq<T>) -> bool {
        &&& self.same_pattern(before)
        &&& forall|p: int| 0 <= p < index.len() ==> self.nzval@[#[trigger] index[p] as int] == values[p]
        &&& forall|d: int|
            0 <= d < self.nzval@.len() && (forall|p: int| 0 <= p < index.len() ==> index[p] != d)
                ==> #[trigger] self.nzval@[d] == before.nzval@[d]
    }

    /// Column `i` is empty, or its last stored entry is not on the diagonal.
    pub open spec fn lacks_diagonal(&self, i: int) -> bool {
        self.colptr@[i] == self.colptr@[i + 1] || self.rowval@[self.colptr@[i + 1] - 1] != i
    }

    /// Number of columns among the first `upto` whose last stored entry is on
    /// the diagonal.
    pub open spec fn diagonal_entries(&self, upto: int) -> int
        decreases upto,
    {
        if upto <= 0 {
            0
        } else {
            self.diagonal_entries(upto - 1) + if self.lacks_diagonal(upto - 1) {
                0int
            } else {
                1int
            }
        }
    }

    /// Column offsets that never decrease from one column to the next never
    /// decrease at all.
    pub proof fn lemma_offsets_monotone(colptr: Seq<usize>, i: int, j: int)
        requires
            0 <= i <= j < colptr.len(),
            forall|c: int| 0 <= c < j ==> #[trigger] colptr[c] <= colptr[c + 1],
        ensures
            colptr[i] <= colptr[j],
        decreases j - i,
    {
        if i < j {
            Self::lemma_offsets_monotone(colptr, i + 1, j);
            assert(colptr[i] <= colptr[i + 1]);
        }
    }
}

/// Whether two index vectors hold the same indices.
pub fn same_indices(a: &Vec<usize>, b: &Vec<usize>) -> (same: bool)
    ensures
        same == (a@ == b@),
{
    if a.len() != b.len() {
        return false;
    }
    let mut k: usize = 0;
    while k < a.len()
        invariant
            k <= a@.len(),
            a@.len() == b@.len(),
            forall|j: int| 0 <= j < k ==> a@[j] == b@[j],
        decreases a@.len() - k,
    {
        if a[k] != b[k] {
            return false;
        }
        k += 1;
    }
    assert(a@ =~= b@);
    true
}

impl<T: Copy + Default> CscMatrix<T> {
    /// Allocates an `m` by `n` matrix with room for `nnz` entries: all row
    /// indices are zero, all values are structural zeros, and every column
    /// offset is zero but the last, which is `nnz`.
    pub fn spalloc(m: usize, n: usize, nnz: usize) -> (r: Self)
        requires
            n < usize::MAX,
        ensures
            r.m == m,
            r.n == n,
            r.colptr@.len() == n + 1,
            forall|i: int| 0 <= i < n ==> r.colptr@[i] == 0,
            r.colptr@[n as int] == nnz,
            r.rowval@.len() == nnz,
            forall|k: int| 0 <= k < nnz ==> r.rowval@[k] == 0,
            r.nzval@.len() == nnz,
            forall|k: int| 0 <= k < nnz ==> structural_zero(#[trigger] r.nzval@[k]),
    {
        let mut colptr: Vec<usize> = Vec::new();
        let mut i: usize = 0;
        while i < n
            invariant
                i <= n,
                colptr@.len() == i,
                forall|k: int| 0 <= k < i ==> colptr@[k] == 0,
            decreases n - i,
        {
            colptr.push(0);
            i += 1;
        }
        colptr.push(nnz);
        let mut rowval: Vec<usize> = Vec::new();
        let mut nzval: Vec<T> = Vec::new();
        let mut k: usize = 0;
        while k < nnz
            invariant
                k <= nnz,
                rowval@.len() == k,
                nzval@.len() == k,
                forall|j: int| 0 <= j < k ==> rowval@[j] == 0,
                forall|j: int| 0 <= j < k ==> structural_zero(#[trigger] nzval@[j]),
            decreases nnz - k,
        {
            rowval.push(0);
            nzval.push(T::default());
            k += 1;
        }
        CscMatrix { m, n, colptr, rowval, nzval }
    }

    /// Whether `self` and `other` have the same shape and store entries at
    /// the same places.
    pub fn is_equal_sparsity(&self, other: &Self) -> (b: bool)
        ensures
            b == self.same_pattern(*other),
    {
        self.m == other.m && self.n == other.n && self.nzval.len() == other.nzval.len() && same_indices(
            &self.colptr,
            &other.colptr,
        ) && same_indices(&self.rowval, &other.rowval)
    }

    /// Writes `values[p]` at position `index[p]` of the value array, for
    /// every `p`, and leaves the structure alone.
    pub fn update_values(&mut self, index: &[usize], values: &[T])
        requires
            index@.len() == values@.len(),
            forall|p: int| 0 <= p < index@.len() ==> #[trigger] index@[p] < old(self).nzval@.len(),
            forall|p1: int, p2: int| 0 <= p1 < p2 < index@.len() ==> index@[p1] != index@[p2],
        ensures
            final(self).values_updated(*old(self), index@, values@),
    {
        let mut p: usize = 0;
        while p < index.len()
            invariant
                p <= index@.len(),
                index@.len() == values@.len(),
                forall|q: int| 0 <= q < index@.len() ==> #[trigger] index@[q] < self.nzval@.len(),
                forall|q1: int, q2: int| 0 <= q1 < q2 < index@.len() ==> index@[q1] != index@[q2],
                self.same_pattern(*old(self)),
                forall|q: int| 0 <= q < p ==> self.nzval@[#[trigger] index@[q] as int] == values@[q],
                forall|d: int|
                    0 <= d < self.nzval@.len() && (forall|q: int| 0 <= q < p ==> index@[q] != d)
                        ==> #[trigger] self.nzval@[d] == old(self).nzval@[d],
            decreases index@.len() - p,
        {
            let ghost prev = self.nzval@;
            let dest: usize = index[p];
            self.nzval[dest] = values[p];
            proof {
                assert forall|q: int| 0 <= q < p + 1 implies self.nzval@[#[trigger] index@[q] as int]
                    == values@[q] by {
                    if q < p {
                        assert(index@[q] != index@[p as int]);
                        assert(prev[index@[q] as int] == values@[q]);
                    }
                }
                assert forall|d: int|
                    0 <= d < self.nzval@.len() && (forall|q: int| 0 <= q < p + 1 ==> index@[q] != d)
                        implies #[trigger] self.nzval@[d] == old(self).nzval@[d] by {
                    assert(index@[p as int] != d);
                    assert forall|q: int| 0 <= q < p implies index@[q] != d by {
                        assert(0 <= q < p + 1);
                    }
                    assert(prev[d] == old(self).nzval@[d]);
                }
            }
            p += 1;
        }
    }

    /// Whether the matrix is in canonical form.
    pub fn check_format(&self) -> (ok: bool)
        ensures
            ok == self.is_canonical(),
    {
        if self.colptr.len() == 0 || self.colptr.len() - 1 != self.n {
            return false;
        }
        if self.rowval.len() != self.nzval.len() || self.colptr[0] != 0 || self.colptr[self.n]
            != self.rowval.len() {
            return false;
        }
        let mut c: usize = 0;
        while c < self.n
            invariant
                c <= self.n,
                self.colptr@.len() == self.n + 1,
                self.colptr@[self.n as int] == self.rowval@.len(),
                forall|j: int| 0 <= j < c ==> #[trigger] self.colptr@[j] <= self.colptr@[j + 1],
            decreases self.n - c,
        {
            if self.colptr[c] > self.colptr[c + 1] {
                assert(!self.well_formed());
                return false;
            }
            c += 1;
        }
        proof {
            assert forall|i: int, j: int| 0 <= i <= j <= self.n implies self.colptr@[i]
                <= self.colptr@[j] by {
                Self::lemma_offsets_monotone(self.colptr@, i, j);
            }
        }
        let mut c: usize = 0;
        while c < self.n
            invariant
                c <= self.n,
                self.well_formed(),
                forall|j: int, k1: int, k2: int|
                    #[trigger] self.holds(j, k1) && #[trigger] self.holds(j, k2) && j < c && k1 < k2
                        ==> self.rowval@[k1] < self.rowval@[k2],
                forall|k: int| 0 <= k < self.colptr@[c as int] ==> #[trigger] self.rowval@[k] < self.m,
            decreases self.n - c,
        {
            let first: usize = self.colptr[c];
            let stop: usize = self.colptr[c + 1];
            assert(stop <= self.colptr@[self.n as int]);
            let mut k: usize = first;
            while k < stop
                invariant
                    c < self.n,
                    first == self.colptr@[c as int],
                    stop == self.colptr@[c + 1],
                    first <= k <= stop,
                    stop <= self.rowval@.len(),
                    self.well_formed(),
                    forall|k1: int, k2: int|
                        first <= k1 < k2 < k ==> self.rowval@[k1] < self.rowval@[k2],
                    forall|j: int| 0 <= j < k ==> #[trigger] self.rowval@[j] < self.m,
                decreases stop - k,
            {
                if self.rowval[k] >= self.m {
                    assert(!self.rows_in_range());
                    return false;
                }
                if k > first && self.rowval[k - 1] >= self.rowval[k] {
                    assert(self.holds(c as int, k - 1) && self.holds(c as int, k as int));
                    assert(!self.rows_increasing());
                    return false;
                }
                proof {
                    assert forall|k1: int, k2: int| first <= k1 < k2 < k + 1 implies self.rowval@[k1]
                        < self.rowval@[k2] by {
                        if k2 == k && k1 < k - 1 {
                            assert(self.rowval@[k1] < self.rowval@[k - 1]);
                        }
                    }
                }
                k += 1;
            }
            c += 1;
        }
        true
    }

    /// Whether no stored entry lies below the diagonal.
    pub fn is_triu(&self) -> (ok: bool)
        requires
            self.well_formed(),
        ensures
            ok == self.is_upper_triangular(),
    {
        let mut c: usize = 0;
        while c < self.n
            invariant
                c <= self.n,
                self.well_formed(),
                forall|j: int, k: int| #[trigger] self.holds(j, k) && j < c ==> self.rowval@[k] <= j,
            decreases self.n - c,
        {
            let first: usize = self.colptr[c];
            let stop: usize = self.colptr[c + 1];
            assert(stop <= self.colptr@[self.n as int]);
            let mut k: usize = first;
            while k < stop
                invariant
                    c < self.n,
                    first == self.colptr@[c as int],
                    stop == self.colptr@[c + 1],
                    first <= k <= stop,
                    stop <= self.rowval@.len(),
                    self.well_formed(),
                    forall|j: int| first <= j < k ==> #[trigger] self.rowval@[j] <= c,
                decreases stop - k,
            {
                if self.rowval[k] > c {
                    assert(self.holds(c as int, k as int));
                    return false;
                }
                k += 1;
            }
            c += 1;
        }
        true
    }

    /// Counts the columns whose last stored entry lies on the diagonal.
    pub fn count_diagonal_entries(&self) -> (count: usize)
        requires
            self.well_formed(),
        ensures
            count == self.diagonal_entries(self.n as int),
    {
        let mut count: usize = 0;
        let mut i: usize = 0;
        while i < self.n
            invariant
                i <= self.n,
                self.well_formed(),
                count == self.diagonal_entries(i as int),
                count <= i,
            decreases self.n - i,
        {
            if self.colptr[i + 1] != self.colptr[i] && self.rowval[self.colptr[i + 1] - 1] == i {
                count += 1;
            }
            i += 1;
        }
        count
    }
}

} // verus!
