//! The count phase of an assembly: how many entries each kind of block
//! puts into each column, the operations that add these counts to the
//! column table, and the scan that turns counts into offsets.

use vstd::prelude::*;
use crate::algebra::matrix::{CscMatrix, MatrixShape, MatrixTriangle};

verus! {

/// Entries that a diagonal block of `blockcols` columns, placed from column
/// `initcol` on, puts into column `c`.
pub open spec fn diag_count(initcol: int, blockcols: int, c: int) -> int {
    if initcol <= c < initcol + blockcols {
        1
    } else {
        0
    }
}

/// Entries that a dense triangle of `blockcols` columns, diagonal included
/// and placed on the diagonal from column `initcol` on, puts into column `c`.
pub open spec fn triangle_count(initcol: int, blockcols: int, shape: MatrixTriangle, c: int) -> int {
    if initcol <= c < initcol + blockcols {
        match shape {
            MatrixTriangle::Triu => c - initcol + 1,
            MatrixTriangle::Tril => initcol + blockcols - c,
        }
    } else {
        0
    }
}

/// Entries that a column vector of length `n` in column `col` puts into
/// column `c`.
pub open spec fn colvec_count(n: int, col: int, c: int) -> int {
    if c == col {
        n
    } else {
        0
    }
}

/// Number of positions below `upto` at which `s` holds the value `v`.
pub open spec fn occurrences(s: Seq<usize>, v: int, upto: int) -> int
    decreases upto,
{
    if upto <= 0 {
        0
    } else {
        occurrences(s, v, upto - 1) + if s[upto - 1] == v {
            1int
        } else {
            0int
        }
    }
}

/// The number of occurrences is non-negative and grows with the range.
pub proof fn lemma_occurrences_monotone(s: Seq<usize>, v: int, a: int, b: int)
    requires
        a <= b,
    ensures
        0 <= occurrences(s, v, a) <= occurrences(s, v, b),
        occurrences(s, v, b) <= if b < 0 { 0 } else { b },
    decreases b,
{
    if b > 0 {
        if a < b {
            lemma_occurrences_monotone(s, v, a, b - 1);
        } else {
            lemma_occurrences_monotone(s, v, a - 1, b - 1);
        }
    }
}

/// Sum of the entries of `s` below position `upto`.
pub open spec fn prefix_sum(s: Seq<usize>, upto: int) -> int
    decreases upto,
{
    if upto <= 0 {
        0
    } else {
        prefix_sum(s, upto - 1) + s[upto - 1]
    }
}

/// Prefix sums are non-negative and grow with the range.
pub proof fn lemma_prefix_sum_monotone(s: Seq<usize>, a: int, b: int)
    requires
        a <= b,
    ensures
        0 <= prefix_sum(s, a) <= prefix_sum(s, b),
    decreases b,
{
    if b > 0 {
        if a < b {
            lemma_prefix_sum_monotone(s, a, b - 1);
        } else {
            lemma_prefix_sum_monotone(s, a - 1, b - 1);
        }
    }
}

impl<T> CscMatrix<T> {
    /// Entries that the columns of `self`, placed from column `initcol` on,
    /// put into column `c`: all of its own column in shape `N`, and in shape
    /// `T` one for each stored entry in row `c - initcol`.
    pub open spec fn block_count(&self, initcol: int, shape: MatrixShape, c: int) -> int {
        match shape {
            MatrixShape::N => if initcol <= c < initcol + self.n {
                self.colptr@[c - initcol + 1] - self.colptr@[c - initcol]
            } else {
                0
            },
            MatrixShape::T => occurrences(self.rowval@, c - initcol, self.rowval@.len() as int),
        }
    }

    /// Entries that the diagonal terms which `self` lacks, placed from column
    /// `initcol` on, put into column `c`.
    pub open spec fn missing_diag_count(&self, initcol: int, c: int) -> int {
        if initcol <= c < initcol + self.n && self.lacks_diagonal(c - initcol) {
            1
        } else {
            0
        }
    }

    /// Adding `count(c)` to slot `c` of the column table overflows nowhere.
    pub open spec fn can_count(&self, count: spec_fn(int) -> int) -> bool {
        forall|c: int|
            0 <= c < self.colptr@.len() ==> #[trigger] self.colptr@[c] + count(c) <= usize::MAX
    }

    /// `self` is `before` with `count(c)` added to slot `c` of the column
    /// table, and nothing else changed.
    pub open spec fn counted(&self, before: Self, count: spec_fn(int) -> int) -> bool {
        &&& self.m == before.m
        &&& self.n == before.n
        &&& self.rowval@ == before.rowval@
        &&& self.nzval@ == before.nzval@
        &&& self.colptr@.len() == before.colptr@.len()
        &&& forall|c: int|
            0 <= c < self.colptr@.len() ==> #[trigger] self.colptr@[c] == before.colptr@[c] + count(c)
    }
}

impl<T: Copy + Default> CscMatrix<T> {
    /// Counts a dense triangle on the diagonal: the columns from `initcol`
    /// on receive 1, 2, ..., `blockcols` entries for an upper triangle and
    /// `blockcols`, ..., 2, 1 for a lower one.
    pub fn colcount_dense_triangle(&mut self, initcol: usize, blockcols: usize, shape: MatrixTriangle)
        requires
            initcol + blockcols <= old(self).colptr@.len(),
            old(self).can_count(|c: int| triangle_count(initcol as int, blockcols as int, shape, c)),
        ensures
            final(self).counted(
                *old(self),
                |c: int| triangle_count(initcol as int, blockcols as int, shape, c),
            ),
    {
        let mut i: usize = 0;
        while i < blockcols
            invariant
                i <= blockcols,
                initcol + blockcols <= self.colptr.len(),
                old(self).can_count(|c: int| triangle_count(initcol as int, blockcols as int, shape, c)),
                self.m == old(self).m,
                self.n == old(self).n,
                self.rowval@ == old(self).rowval@,
                self.nzval@ == old(self).nzval@,
                self.colptr@.len() == old(self).colptr@.len(),
                forall|c: int|
                    0 <= c < self.colptr@.len() ==> #[trigger] self.colptr@[c] == old(self).colptr@[c]
                        + if c < initcol + i {
                        triangle_count(initcol as int, blockcols as int, shape, c)
                    } else {
                        0int
                    },
            decreases blockcols - i,
        {
            let ghost c0 = (initcol + i) as int;
            assert(self.colptr@[c0] == old(self).colptr@[c0]);
            assert(old(self).colptr@[c0] + triangle_count(initcol as int, blockcols as int, shape, c0)
                <= usize::MAX);
            let add: usize = match shape {
                MatrixTriangle::Triu => i + 1,
                MatrixTriangle::Tril => blockcols - i,
            };
            self.colptr[initcol + i] += add;
            i += 1;
        }
    }

    /// Counts a diagonal block: each of `blockcols` columns from `initcol`
    /// on receives one entry.
    pub fn colcount_diag(&mut self, initcol: usize, blockcols: usize)
        requires
            initcol + blockcols <= old(self).colptr@.len(),
            old(self).can_count(|c: int| diag_count(initcol as int, blockcols as int, c)),
        ensures
            final(self).counted(*old(self), |c: int| diag_count(initcol as int, blockcols as int, c)),
    {
        let mut i: usize = 0;
        while i < blockcols
            invariant
                i <= blockcols,
                initcol + blockcols <= self.colptr.len(),
                old(self).can_count(|c: int| diag_count(initcol as int, blockcols as int, c)),
                self.counted(*old(self), |c: int| diag_count(initcol as int, i as int, c)),
            decreases blockcols - i,
        {
            let ghost c0 = (initcol + i) as int;
            assert(self.colptr@[c0] == old(self).colptr@[c0]);
            assert(old(self).colptr@[c0] + diag_count(initcol as int, blockcols as int, c0) <= usize::MAX);
            self.colptr[initcol + i] += 1;
            i += 1;
        }
    }

    /// Counts the diagonal entries that `M` lacks: the column `initcol + i`
    /// receives one entry for each column `i` of `M` that is empty or whose
    /// last stored entry is not on the diagonal.
    pub fn colcount_missing_diag(&mut self, M: &CscMatrix<T>, initcol: usize)
        requires
            M.well_formed(),
            M.n + initcol <= old(self).colptr@.len(),
            old(self).can_count(|c: int| M.missing_diag_count(initcol as int, c)),
        ensures
            final(self).counted(*old(self), |c: int| M.missing_diag_count(initcol as int, c)),
    {
        let mut i: usize = 0;
        while i < M.n
            invariant
                i <= M.n,
                M.well_formed(),
                M.n + initcol <= self.colptr.len(),
                old(self).can_count(|c: int| M.missing_diag_count(initcol as int, c)),
                self.counted(
                    *old(self),
                    |c: int|
                        if c < initcol + i {
                            M.missing_diag_count(initcol as int, c)
                        } else {
                            0int
                        },
                ),
            decreases M.n - i,
        {
            if M.colptr[i] == M.colptr[i + 1] || M.rowval[M.colptr[i + 1] - 1] != i {
                let ghost c0 = (initcol + i) as int;
                assert(self.colptr@[c0] == old(self).colptr@[c0]);
                assert(old(self).colptr@[c0] + M.missing_diag_count(initcol as int, c0) <= usize::MAX);
                self.colptr[i + initcol] += 1;
            }
            i += 1;
        }
    }

    /// Counts a column vector of `n` entries in column `firstcol`.
    pub fn colcount_colvec(&mut self, n: usize, _firstrow: usize, firstcol: usize)
        requires
            firstcol < old(self).colptr@.len(),
            old(self).can_count(|c: int| colvec_count(n as int, firstcol as int, c)),
        ensures
            final(self).counted(*old(self), |c: int| colvec_count(n as int, firstcol as int, c)),
    {
        assert(self.colptr@[firstcol as int] + colvec_count(n as int, firstcol as int, firstcol as int)
            <= usize::MAX);
        self.colptr[firstcol] += n;
    }

    /// Counts a row vector of `n` entries: each of `n` columns from
    /// `firstcol` on receives one entry.
    pub fn colcount_rowvec(&mut self, n: usize, _firstrow: usize, firstcol: usize)
        requires
            firstcol + n <= old(self).colptr@.len(),
            old(self).can_count(|c: int| diag_count(firstcol as int, n as int, c)),
        ensures
            final(self).counted(*old(self), |c: int| diag_count(firstcol as int, n as int, c)),
    {
        self.colcount_diag(firstcol, n);
    }

    /// Counts the entries of `M`, placed from column `initcol` on: as stored
    /// in shape `N`, where column `initcol + i` receives the entries of
    /// column `i` of `M`, and transposed in shape `T`, where column
    /// `initcol + r` receives one entry for each stored entry of `M` in row
    /// `r`.
    pub fn colcount_block(&mut self, M: &CscMatrix<T>, initcol: usize, shape: MatrixShape)
        requires
            shape == MatrixShape::N ==> M.well_formed(),
            shape == MatrixShape::N ==> initcol + M.n <= old(self).colptr@.len(),
            shape == MatrixShape::T ==> forall|k: int|
                0 <= k < M.rowval@.len() ==> #[trigger] M.rowval@[k] + initcol < old(self).colptr@.len(),
            old(self).can_count(|c: int| M.block_count(initcol as int, shape, c)),
        ensures
            final(self).counted(*old(self), |c: int| M.block_count(initcol as int, shape, c)),
    {
        match shape {
            MatrixShape::T => {
                let mut k: usize = 0;
                while k < M.rowval.len()
                    invariant
                        k <= M.rowval.len(),
                        shape == MatrixShape::T,
                        forall|j: int|
                            0 <= j < M.rowval@.len() ==> #[trigger] M.rowval@[j] + initcol
                                < self.colptr.len(),
                        old(self).can_count(|c: int| M.block_count(initcol as int, shape, c)),
                        self.counted(
                            *old(self),
                            |c: int| occurrences(M.rowval@, c - initcol, k as int),
                        ),
                    decreases M.rowval.len() - k,
                {
                    let row: usize = M.rowval[k];
                    let ghost c0 = (row + initcol) as int;
                    proof {
                        lemma_occurrences_monotone(
                            M.rowval@,
                            row as int,
                            k as int + 1,
                            M.rowval@.len() as int,
                        );
                        assert(self.colptr@[c0] == old(self).colptr@[c0] + occurrences(
                            M.rowval@,
                            c0 - initcol,
                            k as int,
                        ));
                        assert(old(self).colptr@[c0] + M.block_count(initcol as int, shape, c0)
                            <= usize::MAX);
                    }
                    self.colptr[row + initcol] += 1;
                    k += 1;
                }
            },
            MatrixShape::N => {
                let mut i: usize = 0;
                while i < M.n
                    invariant
                        i <= M.n,
                        shape == MatrixShape::N,
                        M.well_formed(),
                        initcol + M.n <= self.colptr.len(),
                        old(self).can_count(|c: int| M.block_count(initcol as int, shape, c)),
                        self.counted(
                            *old(self),
                            |c: int|
                                if c < initcol + i {
                                    M.block_count(initcol as int, shape, c)
                                } else {
                                    0int
                                },
                        ),
                    decreases M.n - i,
                {
                    let ghost c0 = (initcol + i) as int;
                    assert(self.colptr@[c0] == old(self).colptr@[c0]);
                    assert(old(self).colptr@[c0] + M.block_count(initcol as int, shape, c0)
                        <= usize::MAX);
                    self.colptr[initcol + i] += M.colptr[i + 1] - M.colptr[i];
                    i += 1;
                }
            },
        }
    }

    /// The number of entries counted for the columns, where it fits a
    /// machine word: the sum of all slots of the column table but the last.
    /// `colcount_to_colptr` can run where there is such a number.
    pub fn count_total(&self) -> (r: Option<usize>)
        requires
            self.colptr@.len() > 0,
        ensures
            r == if prefix_sum(self.colptr@, self.colptr@.len() - 1) <= usize::MAX {
                Some(prefix_sum(self.colptr@, self.colptr@.len() - 1) as usize)
            } else {
                None::<usize>
            },
    {
        let last: usize = self.colptr.len() - 1;
        let mut total: usize = 0;
        let mut i: usize = 0;
        while i < last
            invariant
                i <= last,
                last == self.colptr@.len() - 1,
                total == prefix_sum(self.colptr@, i as int),
            decreases last - i,
        {
            proof {
                lemma_prefix_sum_monotone(self.colptr@, i as int + 1, last as int);
            }
            match total.checked_add(self.colptr[i]) {
                Some(s) => {
                    total = s;
                },
                None => {
                    return None;
                },
            }
            i += 1;
        }
        Some(total)
    }

    /// Turns per-column counts into column offsets, in place: each slot
    /// receives the sum of the counts before it, so the last slot of a table
    /// of `n + 1` slots receives the total of the first `n`. Each offset is
    /// then also the write cursor of its column.
    pub fn colcount_to_colptr(&mut self)
        requires
            prefix_sum(old(self).colptr@, old(self).colptr@.len() - 1) <= usize::MAX,
        ensures
            final(self).m == old(self).m,
            final(self).n == old(self).n,
            final(self).rowval@ == old(self).rowval@,
            final(self).nzval@ == old(self).nzval@,
            final(self).colptr@.len() == old(self).colptr@.len(),
            forall|c: int|
                0 <= c < final(self).colptr@.len() ==> #[trigger] final(self).colptr@[c] == prefix_sum(
                    old(self).colptr@,
                    c,
                ),
    {
        let len: usize = self.colptr.len();
        let mut currentptr: usize = 0;
        let mut i: usize = 0;
        while i < len
            invariant
                i <= len,
                len == self.colptr.len(),
                prefix_sum(old(self).colptr@, len - 1) <= usize::MAX,
                self.m == old(self).m,
                self.n == old(self).n,
                self.rowval@ == old(self).rowval@,
                self.nzval@ == old(self).nzval@,
                self.colptr@.len() == old(self).colptr@.len(),
                i < len ==> currentptr == prefix_sum(old(self).colptr@, i as int),
                forall|c: int| 0 <= c < i ==> #[trigger] self.colptr@[c] == prefix_sum(old(self).colptr@, c),
                forall|c: int| i <= c < len ==> #[trigger] self.colptr@[c] == old(self).colptr@[c],
            decreases len - i,
        {
            let count: usize = self.colptr[i];
            self.colptr[i] = currentptr;
            if i + 1 < len {
                proof {
                    lemma_prefix_sum_monotone(old(self).colptr@, i as int + 1, len - 1);
                }
                currentptr += count;
            }
            i += 1;
        }
    }

    /// Moves every column offset one slot up and puts zero into the first
    /// slot. After a fill in which every cursor has reached the start of the
    /// next column, this restores the column offsets.
    pub fn backshift_colptrs(&mut self)
        requires
            old(self).colptr@.len() > 0,
        ensures
            final(self).m == old(self).m,
            final(self).n == old(self).n,
            final(self).rowval@ == old(self).rowval@,
            final(self).nzval@ == old(self).nzval@,
            final(self).colptr@.len() == old(self).colptr@.len(),
            final(self).colptr@[0] == 0,
            forall|c: int|
                1 <= c < final(self).colptr@.len() ==> #[trigger] final(self).colptr@[c]
                    == old(self).colptr@[c - 1],
    {
        let len: usize = self.colptr.len();
        let mut i: usize = len - 1;
        while i > 0
            invariant
                i < len,
                len == self.colptr.len(),
                self.m == old(self).m,
                self.n == old(self).n,
                self.rowval@ == old(self).rowval@,
                self.nzval@ == old(self).nzval@,
                self.colptr@.len() == old(self).colptr@.len(),
                forall|c: int| 0 <= c <= i ==> #[trigger] self.colptr@[c] == old(self).colptr@[c],
                forall|c: int| i < c < len ==> #[trigger] self.colptr@[c] == old(self).colptr@[c - 1],
            decreases i,
        {
            let prev: usize = self.colptr[i - 1];
            self.colptr[i] = prev;
            i -= 1;
        }
        self.colptr[0] = 0;
    }
}

} // verus!
