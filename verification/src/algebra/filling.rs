//! The fill phase of an assembly: the operations that write the entries of
//! a block at the cursors of their columns and report where each entry went.

use vstd::prelude::*;
use crate::algebra::counting::{
    colvec_count, diag_count, lemma_occurrences_monotone, occurrences, triangle_count,
};
use crate::algebra::matrix::{structural_zero, CscMatrix, MatrixShape, MatrixTriangle};

verus! {

/// Number of entries in a dense triangle of `k` columns, diagonal included.
pub open spec fn triangular(k: int) -> int
    decreases k,
{
    if k <= 0 {
        0
    } else {
        triangular(k - 1) + k
    }
}

/// Position of the entry in row `row` and column `col`, with `row <= col`,
/// among the entries of an upper triangle listed column by column.
pub open spec fn packed_index(col: int, row: int) -> int {
    triangular(col) + row
}

/// Triangular numbers are non-negative and grow with their argument.
pub proof fn lemma_triangular_monotone(a: int, b: int)
    requires
        a <= b,
    ensures
        0 <= triangular(a) <= triangular(b),
    decreases b,
{
    if b > 0 {
        if a < b {
            lemma_triangular_monotone(a, b - 1);
        } else {
            lemma_triangular_monotone(a - 1, b - 1);
        }
    }
}

/// Two entries of an upper triangle have the same packed position only if
/// they are the same entry.
pub proof fn lemma_packed_index_injective(c1: int, r1: int, c2: int, r2: int)
    requires
        0 <= r1 <= c1,
        0 <= r2 <= c2,
        packed_index(c1, r1) == packed_index(c2, r2),
    ensures
        c1 == c2 && r1 == r2,
{
    if c1 < c2 {
        lemma_triangular_monotone(c1 + 1, c2);
    } else if c2 < c1 {
        lemma_triangular_monotone(c2 + 1, c1);
    }
}

/// The column of the entry at position `q` of an upper triangle listed
/// column by column.
pub open spec fn triangle_col(q: int) -> int
    decreases q,
{
    if q <= 0 {
        0
    } else {
        let j = triangle_col(q - 1);
        if triangular(j + 1) <= q {
            j + 1
        } else {
            j
        }
    }
}

/// Every position of an upper triangle of `k` columns is the packed
/// position of one entry: the one in column `triangle_col(q)`.
pub proof fn lemma_packed_index_onto(q: int, k: int)
    requires
        0 <= q < triangular(k),
    ensures
        0 <= q - triangular(triangle_col(q)) <= triangle_col(q) < k,
        packed_index(triangle_col(q), q - triangular(triangle_col(q))) == q,
    decreases q,
{
    let j = triangle_col(q);
    if q > 0 {
        lemma_triangular_monotone(0, k);
        lemma_packed_index_onto(q - 1, k);
        let jp = triangle_col(q - 1);
        assert(triangular(jp + 1) == triangular(jp) + jp + 1);
        assert(triangular(jp + 2) == triangular(jp + 1) + jp + 2);
    } else {
        assert(triangular(1) == triangular(0) + 1);
    }
    if j >= k {
        lemma_triangular_monotone(k, j);
    }
}

impl<T> CscMatrix<T> {
    /// The column table holds write cursors, and writing `count(c)` entries
    /// at the cursor of each column `c` keeps every column below the cursor
    /// of the columns after it and inside the value arrays.
    pub open spec fn has_room(&self, count: spec_fn(int) -> int) -> bool {
        &&& self.colptr@.len() == self.n + 1
        &&& self.rowval@.len() == self.nzval@.len()
        &&& self.colptr@[self.n as int] <= self.rowval@.len()
        &&& forall|c1: int, c2: int|
            0 <= c1 < c2 <= self.n ==> self.colptr@[c1] + count(c1) <= self.colptr@[c2]
    }

    /// Position `d` of the value arrays is none of the `count(c)` positions
    /// that follow the cursor of some column `c`.
    pub open spec fn outside_writes(&self, count: spec_fn(int) -> int, d: int) -> bool {
        forall|c: int|
            0 <= c < self.n ==> !(#[trigger] self.colptr@[c] <= d < self.colptr@[c] + count(c))
    }

    /// `self` is `before` after `count(c)` entries were written at the cursor
    /// of each column `c`: every cursor has advanced by that much, and the
    /// value arrays differ from those of `before` at the written positions
    /// only.
    pub open spec fn filled(&self, before: Self, count: spec_fn(int) -> int) -> bool {
        &&& self.m == before.m
        &&& self.n == before.n
        &&& self.colptr@.len() == before.colptr@.len()
        &&& self.rowval@.len() == before.rowval@.len()
        &&& self.nzval@.len() == before.nzval@.len()
        &&& self.colptr@[self.n as int] == before.colptr@[self.n as int]
        &&& forall|c: int|
            0 <= c < self.n ==> #[trigger] self.colptr@[c] == before.colptr@[c] + count(c)
        &&& forall|d: int|
            0 <= d < self.rowval@.len() && before.outside_writes(count, d) ==> #[trigger] self.rowval@[d]
                == before.rowval@[d]
        &&& forall|d: int|
            0 <= d < self.nzval@.len() && before.outside_writes(count, d) ==> #[trigger] self.nzval@[d]
                == before.nzval@[d]
    }

    /// The positions that `has_room` sets aside are inside the value arrays,
    /// and no two of them coincide.
    pub proof fn lemma_cells_distinct(
        &self,
        count: spec_fn(int) -> int,
        c1: int,
        t1: int,
        c2: int,
        t2: int,
    )
        requires
            self.has_room(count),
            0 <= c1 < self.n,
            0 <= c2 < self.n,
            0 <= t1 < count(c1),
            0 <= t2 < count(c2),
        ensures
            0 <= self.colptr@[c1] + t1 < self.rowval@.len(),
            self.colptr@[c1] + t1 == self.colptr@[c2] + t2 ==> c1 == c2 && t1 == t2,
    {
        assert(self.colptr@[c1] + count(c1) <= self.colptr@[self.n as int]);
        if c1 < c2 {
            assert(self.colptr@[c1] + count(c1) <= self.colptr@[c2]);
        } else if c2 < c1 {
            assert(self.colptr@[c2] + count(c2) <= self.colptr@[c1]);
        }
    }

    /// Two counts that agree on every column describe the same fill.
    pub proof fn lemma_filled_same(
        before: Self,
        now: Self,
        count: spec_fn(int) -> int,
        other: spec_fn(int) -> int,
    )
        requires
            now.filled(before, count),
            forall|c: int| 0 <= c < now.n ==> #[trigger] count(c) == other(c),
        ensures
            now.filled(before, other),
    {
        assert forall|d: int| before.outside_writes(other, d) implies before.outside_writes(count, d) by {
            assert forall|c: int| 0 <= c < before.n implies !(#[trigger] before.colptr@[c] <= d
                < before.colptr@[c] + count(c)) by {
                assert(count(c) == other(c));
            }
        }
        assert forall|c: int| 0 <= c < now.n implies #[trigger] now.colptr@[c] == before.colptr@[c] + other(
            c,
        ) by {
            assert(count(c) == other(c));
        }
    }

    /// An entry at a lower position lies in the same column or in an earlier
    /// one.
    pub proof fn lemma_holds_ordered(&self, c1: int, k1: int, c2: int, k2: int)
        requires
            self.well_formed(),
            self.holds(c1, k1),
            self.holds(c2, k2),
            k1 <= k2,
        ensures
            c1 <= c2,
            k1 == k2 ==> c1 == c2,
            0 <= k1 < self.rowval@.len(),
    {
        assert(self.colptr@[c1 + 1] <= self.colptr@[self.n as int]);
        if c1 > c2 {
            assert(self.colptr@[c2 + 1] <= self.colptr@[c1]);
        }
        if k1 == k2 && c1 < c2 {
            assert(self.colptr@[c1 + 1] <= self.colptr@[c2]);
        }
    }

    /// `has_room`, kept folded while a fill is in progress.
    #[verifier::opaque]
    spec fn room(&self, count: spec_fn(int) -> int) -> bool {
        self.has_room(count)
    }

    /// `filled`, kept folded while a fill is in progress.
    #[verifier::opaque]
    spec fn progress(&self, before: Self, count: spec_fn(int) -> int) -> bool {
        self.filled(before, count)
    }

    /// A matrix with room is one that makes no progress yet.
    proof fn lemma_progress_begin(&self, full: spec_fn(int) -> int, none: spec_fn(int) -> int)
        requires
            self.has_room(full),
            forall|c: int| 0 <= c < self.n ==> #[trigger] none(c) == 0,
        ensures
            self.room(full),
            self.progress(*self, none),
    {
        reveal(CscMatrix::room);
        reveal(CscMatrix::progress);
    }

    /// The cursor of a column that is not full yet stands inside the value
    /// arrays.
    proof fn lemma_next_cell(
        before: Self,
        now: Self,
        full: spec_fn(int) -> int,
        done: spec_fn(int) -> int,
        col: int,
    )
        requires
            before.room(full),
            now.progress(before, done),
            0 <= col < before.n,
            0 <= done(col) < full(col),
        ensures
            now.m == before.m,
            now.n == before.n,
            now.colptr@.len() == now.n + 1,
            now.rowval@.len() == before.rowval@.len(),
            now.nzval@.len() == before.rowval@.len(),
            now.colptr@[col] == before.colptr@[col] + done(col),
            now.colptr@[col] < now.rowval@.len(),
    {
        reveal(CscMatrix::room);
        reveal(CscMatrix::progress);
        before.lemma_cells_distinct(full, col, done(col), col, done(col));
    }

    /// The positions set aside are inside the value arrays, and no two of
    /// them coincide.
    proof fn lemma_room_cells(&self, count: spec_fn(int) -> int, c1: int, t1: int, c2: int, t2: int)
        requires
            self.room(count),
            0 <= c1 < self.n,
            0 <= c2 < self.n,
            0 <= t1 < count(c1),
            0 <= t2 < count(c2),
        ensures
            self.colptr@.len() == self.n + 1,
            self.rowval@.len() == self.nzval@.len(),
            0 <= self.colptr@[c1] + t1 < self.rowval@.len(),
            self.colptr@[c1] + t1 == self.colptr@[c2] + t2 ==> c1 == c2 && t1 == t2,
    {
        reveal(CscMatrix::room);
        self.lemma_cells_distinct(count, c1, t1, c2, t2);
    }

    /// Two counts that agree on every column describe the same progress.
    proof fn lemma_progress_same(
        before: Self,
        now: Self,
        count: spec_fn(int) -> int,
        other: spec_fn(int) -> int,
    )
        requires
            now.progress(before, count),
            forall|c: int| 0 <= c < now.n ==> #[trigger] count(c) == other(c),
        ensures
            now.progress(before, other),
    {
        reveal(CscMatrix::progress);
        Self::lemma_filled_same(before, now, count, other);
    }

    /// Progress, unfolded.
    proof fn lemma_progress_end(before: Self, now: Self, count: spec_fn(int) -> int)
        requires
            now.progress(before, count),
        ensures
            now.filled(before, count),
    {
        reveal(CscMatrix::progress);
    }

    /// One more entry written at the cursor of column `col` is progress by
    /// one entry in that column.
    proof fn lemma_progress_step(
        before: Self,
        prev: Self,
        next: Self,
        done: spec_fn(int) -> int,
        done_next: spec_fn(int) -> int,
        col: int,
        row: usize,
        value: T,
    )
        requires
            prev.progress(before, done),
            prev.colptr@.len() == prev.n + 1,
            0 <= col < prev.n,
            0 <= prev.colptr@[col] < prev.rowval@.len() == prev.nzval@.len(),
            forall|c: int| 0 <= c < prev.n ==> 0 <= #[trigger] done(c),
            forall|c: int| #[trigger]
                done_next(c) == if c == col {
                    done(c) + 1
                } else {
                    done(c)
                },
            next.m == prev.m,
            next.n == prev.n,
            next.colptr@ == prev.colptr@.update(col, next.colptr@[col]),
            next.colptr@[col] == prev.colptr@[col] + 1,
            next.rowval@ == prev.rowval@.update(prev.colptr@[col] as int, row),
            next.nzval@ == prev.nzval@.update(prev.colptr@[col] as int, value),
        ensures
            next.progress(before, done_next),
    {
        reveal(CscMatrix::progress);
        Self::lemma_write_advances(before, prev, next, done, done_next, col, row, value);
    }

    /// One more entry written at the cursor of column `col` turns a matrix
    /// filled by `done` into one filled by `done_next`, which counts one more
    /// entry in that column.
    proof fn lemma_write_advances(
        before: Self,
        prev: Self,
        next: Self,
        done: spec_fn(int) -> int,
        done_next: spec_fn(int) -> int,
        col: int,
        row: usize,
        value: T,
    )
        requires
            prev.filled(before, done),
            prev.colptr@.len() == prev.n + 1,
            0 <= col < prev.n,
            0 <= prev.colptr@[col] < prev.rowval@.len() == prev.nzval@.len(),
            forall|c: int| 0 <= c < prev.n ==> 0 <= #[trigger] done(c),
            forall|c: int| #[trigger]
                done_next(c) == if c == col {
                    done(c) + 1
                } else {
                    done(c)
                },
            next.m == prev.m,
            next.n == prev.n,
            next.colptr@ == prev.colptr@.update(col, next.colptr@[col]),
            next.colptr@[col] == prev.colptr@[col] + 1,
            next.rowval@ == prev.rowval@.update(prev.colptr@[col] as int, row),
            next.nzval@ == prev.nzval@.update(prev.colptr@[col] as int, value),
        ensures
            next.filled(before, done_next),
    {
        let dest = prev.colptr@[col] as int;
        assert forall|c: int| 0 <= c < next.n implies #[trigger] next.colptr@[c] == before.colptr@[c]
            + done_next(c) by {
            assert(prev.colptr@[c] == before.colptr@[c] + done(c));
        }
        assert forall|d: int|
            0 <= d < next.rowval@.len()
                && before.outside_writes(done_next, d) implies #[trigger] next.rowval@[d]
            == before.rowval@[d] by {
            assert(prev.colptr@[col] == before.colptr@[col] + done(col));
            assert(d != dest);
            assert forall|c: int| 0 <= c < before.n implies !(#[trigger] before.colptr@[c] <= d
                < before.colptr@[c] + done(c)) by {
                assert(done(c) <= done_next(c));
            }
            assert(before.outside_writes(done, d));
        }
        assert forall|d: int|
            0 <= d < next.nzval@.len()
                && before.outside_writes(done_next, d) implies #[trigger] next.nzval@[d]
            == before.nzval@[d] by {
            assert(prev.colptr@[col] == before.colptr@[col] + done(col));
            assert(d != dest);
            assert forall|c: int| 0 <= c < before.n implies !(#[trigger] before.colptr@[c] <= d
                < before.colptr@[c] + done(c)) by {
                assert(done(c) <= done_next(c));
            }
            assert(before.outside_writes(done, d));
        }
    }
}

impl<T: Copy + Default> CscMatrix<T> {
    /// Writes one entry at the cursor of column `col` and advances the
    /// cursor. Returns the position written.
    fn put(&mut self, col: usize, row: usize, value: T) -> (dest: usize)
        requires
            col < old(self).colptr@.len(),
            old(self).colptr@[col as int] < old(self).rowval@.len(),
            old(self).colptr@[col as int] < old(self).nzval@.len(),
        ensures
            dest == old(self).colptr@[col as int],
            final(self).m == old(self).m,
            final(self).n == old(self).n,
            final(self).colptr@ == old(self).colptr@.update(col as int, (dest + 1) as usize),
            final(self).colptr@[col as int] == dest + 1,
            final(self).rowval@ == old(self).rowval@.update(dest as int, row),
            final(self).nzval@ == old(self).nzval@.update(dest as int, value),
    {
        let dest: usize = self.colptr[col];
        assert(dest < self.rowval.len());
        self.rowval[dest] = row;
        self.nzval[dest] = value;
        self.colptr[col] += 1;
        dest
    }

    /// Fills a diagonal block with structural zeros: for each `i` below
    /// `blockdim` one entry in row and column `offset + i`, at the cursor of
    /// that column. `diagtoKKT[i]` receives the position of that entry.
    pub fn fill_diag(&mut self, diagtoKKT: &mut [usize], offset: usize, blockdim: usize)
        requires
            offset + blockdim <= old(self).n,
            blockdim <= old(diagtoKKT)@.len(),
            old(self).has_room(|c: int| diag_count(offset as int, blockdim as int, c)),
        ensures
            final(self).filled(*old(self), |c: int| diag_count(offset as int, blockdim as int, c)),
            final(diagtoKKT)@.len() == old(diagtoKKT)@.len(),
            forall|i: int|
                0 <= i < blockdim ==> {
                    &&& #[trigger] final(diagtoKKT)@[i] == old(self).colptr@[offset + i]
                    &&& final(self).rowval@[final(diagtoKKT)@[i] as int] == offset + i
                    &&& structural_zero(final(self).nzval@[final(diagtoKKT)@[i] as int])
                },
            forall|i: int|
                blockdim <= i < final(diagtoKKT)@.len() ==> #[trigger] final(diagtoKKT)@[i]
                    == old(diagtoKKT)@[i],
    {
        let ghost full = |c: int| diag_count(offset as int, blockdim as int, c);
        let mut i: usize = 0;
        proof {
            self.lemma_progress_begin(full, |c: int| diag_count(offset as int, i as int, c));
        }
        while i < blockdim
            invariant
                i <= blockdim,
                offset + blockdim <= old(self).n,
                blockdim <= diagtoKKT@.len(),
                diagtoKKT@.len() == old(diagtoKKT)@.len(),
                full == |c: int| diag_count(offset as int, blockdim as int, c),
                old(self).room(full),
                self.progress(*old(self), |c: int| diag_count(offset as int, i as int, c)),
                forall|k: int|
                    0 <= k < i ==> {
                        &&& #[trigger] diagtoKKT@[k] == old(self).colptr@[offset + k]
                        &&& self.rowval@[diagtoKKT@[k] as int] == offset + k
                        &&& structural_zero(self.nzval@[diagtoKKT@[k] as int])
                    },
                forall|k: int| i <= k < diagtoKKT@.len() ==> #[trigger] diagtoKKT@[k] == old(diagtoKKT)@[k],
            decreases blockdim - i,
        {
            let col: usize = i + offset;
            let ghost prev = *self;
            let ghost pmap = diagtoKKT@;
            proof {
                Self::lemma_next_cell(
                    *old(self),
                    *self,
                    full,
                    |c: int| diag_count(offset as int, i as int, c),
                    col as int,
                );
            }
            let dest: usize = self.put(col, col, T::default());
            diagtoKKT[i] = dest;
            proof {
                Self::lemma_progress_step(
                    *old(self),
                    prev,
                    *self,
                    |c: int| diag_count(offset as int, i as int, c),
                    |c: int| diag_count(offset as int, i as int + 1, c),
                    col as int,
                    col,
                    self.nzval@[dest as int],
                );
                assert forall|k: int| 0 <= k < i + 1 implies {
                    &&& #[trigger] diagtoKKT@[k] == old(self).colptr@[offset + k]
                    &&& self.rowval@[diagtoKKT@[k] as int] == offset + k
                    &&& structural_zero(self.nzval@[diagtoKKT@[k] as int])
                } by {
                    if k < i {
                        assert(pmap[k] == old(self).colptr@[offset + k]);
                        old(self).lemma_room_cells(full, offset + k, 0, col as int, 0);
                    }
                }
            }
            i += 1;
        }
        proof {
            Self::lemma_progress_end(*old(self), *self, full);
        }
    }

    /// Fills part of a column with structural zeros: `vlength` entries in
    /// column `initcol`, in the rows from `initrow` on. `vtoKKT[i]` receives
    /// the position of the entry in row `initrow + i`.
    pub fn fill_colvec(&mut self, vtoKKT: &mut [usize], initrow: usize, initcol: usize, vlength: usize)
        requires
            initcol < old(self).n,
            vlength <= old(vtoKKT)@.len(),
            initrow + vlength <= usize::MAX + 1,
            old(self).has_room(|c: int| colvec_count(vlength as int, initcol as int, c)),
        ensures
            final(self).filled(*old(self), |c: int| colvec_count(vlength as int, initcol as int, c)),
            final(vtoKKT)@.len() == old(vtoKKT)@.len(),
            forall|i: int|
                0 <= i < vlength ==> {
                    &&& #[trigger] final(vtoKKT)@[i] == old(self).colptr@[initcol as int] + i
                    &&& final(self).rowval@[final(vtoKKT)@[i] as int] == initrow + i
                    &&& structural_zero(final(self).nzval@[final(vtoKKT)@[i] as int])
                },
            forall|i: int|
                vlength <= i < final(vtoKKT)@.len() ==> #[trigger] final(vtoKKT)@[i] == old(vtoKKT)@[i],
    {
        let ghost full = |c: int| colvec_count(vlength as int, initcol as int, c);
        let mut i: usize = 0;
        proof {
            self.lemma_progress_begin(full, |c: int| colvec_count(i as int, initcol as int, c));
        }
        while i < vlength
            invariant
                i <= vlength,
                initcol < old(self).n,
                vlength <= vtoKKT@.len(),
                initrow + vlength <= usize::MAX + 1,
                vtoKKT@.len() == old(vtoKKT)@.len(),
                full == |c: int| colvec_count(vlength as int, initcol as int, c),
                old(self).room(full),
                self.progress(*old(self), |c: int| colvec_count(i as int, initcol as int, c)),
                forall|k: int|
                    0 <= k < i ==> {
                        &&& #[trigger] vtoKKT@[k] == old(self).colptr@[initcol as int] + k
                        &&& self.rowval@[vtoKKT@[k] as int] == initrow + k
                        &&& structural_zero(self.nzval@[vtoKKT@[k] as int])
                    },
                forall|k: int| i <= k < vtoKKT@.len() ==> #[trigger] vtoKKT@[k] == old(vtoKKT)@[k],
            decreases vlength - i,
        {
            let ghost prev = *self;
            let ghost pmap = vtoKKT@;
            proof {
                Self::lemma_next_cell(
                    *old(self),
                    *self,
                    full,
                    |c: int| colvec_count(i as int, initcol as int, c),
                    initcol as int,
                );
            }
            let dest: usize = self.put(initcol, initrow + i, T::default());
            vtoKKT[i] = dest;
            proof {
                Self::lemma_progress_step(
                    *old(self),
                    prev,
                    *self,
                    |c: int| colvec_count(i as int, initcol as int, c),
                    |c: int| colvec_count(i as int + 1, initcol as int, c),
                    initcol as int,
                    (initrow + i) as usize,
                    self.nzval@[dest as int],
                );
                assert forall|k: int| 0 <= k < i + 1 implies {
                    &&& #[trigger] vtoKKT@[k] == old(self).colptr@[initcol as int] + k
                    &&& self.rowval@[vtoKKT@[k] as int] == initrow + k
                    &&& structural_zero(self.nzval@[vtoKKT@[k] as int])
                } by {
                    if k < i {
                        assert(pmap[k] == old(self).colptr@[initcol as int] + k);
                        old(self).lemma_room_cells(full, initcol as int, k, initcol as int, i as int);
                    }
                }
            }
            i += 1;
        }
        proof {
            Self::lemma_progress_end(*old(self), *self, full);
        }
    }

    /// Fills part of a row with structural zeros: `vlength` entries in row
    /// `initrow`, one in each column from `initcol` on. `vtoKKT[i]` receives
    /// the position of the entry in column `initcol + i`.
    pub fn fill_rowvec(&mut self, vtoKKT: &mut [usize], initrow: usize, initcol: usize, vlength: usize)
        requires
            initcol + vlength <= old(self).n,
            vlength <= old(vtoKKT)@.len(),
            old(self).has_room(|c: int| diag_count(initcol as int, vlength as int, c)),
        ensures
            final(self).filled(*old(self), |c: int| diag_count(initcol as int, vlength as int, c)),
            final(vtoKKT)@.len() == old(vtoKKT)@.len(),
            forall|i: int|
                0 <= i < vlength ==> {
                    &&& #[trigger] final(vtoKKT)@[i] == old(self).colptr@[initcol + i]
                    &&& final(self).rowval@[final(vtoKKT)@[i] as int] == initrow
                    &&& structural_zero(final(self).nzval@[final(vtoKKT)@[i] as int])
                },
            forall|i: int|
                vlength <= i < final(vtoKKT)@.len() ==> #[trigger] final(vtoKKT)@[i] == old(vtoKKT)@[i],
    {
        let ghost full = |c: int| diag_count(initcol as int, vlength as int, c);
        let mut i: usize = 0;
        proof {
            self.lemma_progress_begin(full, |c: int| diag_count(initcol as int, i as int, c));
        }
        while i < vlength
            invariant
                i <= vlength,
                initcol + vlength <= old(self).n,
                vlength <= vtoKKT@.len(),
                vtoKKT@.len() == old(vtoKKT)@.len(),
                full == |c: int| diag_count(initcol as int, vlength as int, c),
                old(self).room(full),
                self.progress(*old(self), |c: int| diag_count(initcol as int, i as int, c)),
                forall|k: int|
                    0 <= k < i ==> {
                        &&& #[trigger] vtoKKT@[k] == old(self).colptr@[initcol + k]
                        &&& self.rowval@[vtoKKT@[k] as int] == initrow
                        &&& structural_zero(self.nzval@[vtoKKT@[k] as int])
                    },
                forall|k: int| i <= k < vtoKKT@.len() ==> #[trigger] vtoKKT@[k] == old(vtoKKT)@[k],
            decreases vlength - i,
        {
            let col: usize = initcol + i;
            let ghost prev = *self;
            let ghost pmap = vtoKKT@;
            proof {
                Self::lemma_next_cell(
                    *old(self),
                    *self,
                    full,
                    |c: int| diag_count(initcol as int, i as int, c),
                    col as int,
                );
            }
            let dest: usize = self.put(col, initrow, T::default());
            vtoKKT[i] = dest;
            proof {
                Self::lemma_progress_step(
                    *old(self),
                    prev,
                    *self,
                    |c: int| diag_count(initcol as int, i as int, c),
                    |c: int| diag_count(initcol as int, i as int + 1, c),
                    col as int,
                    initrow,
                    self.nzval@[dest as int],
                );
                assert forall|k: int| 0 <= k < i + 1 implies {
                    &&& #[trigger] vtoKKT@[k] == old(self).colptr@[initcol + k]
                    &&& self.rowval@[vtoKKT@[k] as int] == initrow
                    &&& structural_zero(self.nzval@[vtoKKT@[k] as int])
                } by {
                    if k < i {
                        assert(pmap[k] == old(self).colptr@[initcol + k]);
                        old(self).lemma_room_cells(full, initcol + k, 0, col as int, 0);
                    }
                }
            }
            i += 1;
        }
        proof {
            Self::lemma_progress_end(*old(self), *self, full);
        }
    }

    /// Fills in the diagonal entries that `M` lacks, as structural zeros: for
    /// each column `i` of `M` that is empty or whose last stored entry is not
    /// on the diagonal, one entry in row and column `initcol + i`, at the
    /// cursor of that column.
    pub fn fill_missing_diag(&mut self, M: &CscMatrix<T>, initcol: usize)
        requires
            M.well_formed(),
            M.n + initcol <= old(self).n,
            old(self).has_room(|c: int| M.missing_diag_count(initcol as int, c)),
        ensures
            final(self).filled(*old(self), |c: int| M.missing_diag_count(initcol as int, c)),
            forall|i: int|
                0 <= i < M.n && M.lacks_diagonal(i) ==> {
                    let dest = #[trigger] old(self).colptr@[initcol + i];
                    &&& final(self).rowval@[dest as int] == initcol + i
                    &&& structural_zero(final(self).nzval@[dest as int])
                },
    {
        let ghost full = |c: int| M.missing_diag_count(initcol as int, c);
        let mut i: usize = 0;
        proof {
            self.lemma_progress_begin(
                full,
                |c: int|
                    if c < initcol + i {
                        M.missing_diag_count(initcol as int, c)
                    } else {
                        0int
                    },
            );
        }
        while i < M.n
            invariant
                i <= M.n,
                M.well_formed(),
                M.n + initcol <= old(self).n,
                full == |c: int| M.missing_diag_count(initcol as int, c),
                old(self).room(full),
                self.progress(
                    *old(self),
                    |c: int|
                        if c < initcol + i {
                            M.missing_diag_count(initcol as int, c)
                        } else {
                            0int
                        },
                ),
                forall|k: int|
                    0 <= k < i && M.lacks_diagonal(k) ==> {
                        let dest = #[trigger] old(self).colptr@[initcol + k];
                        &&& self.rowval@[dest as int] == initcol + k
                        &&& structural_zero(self.nzval@[dest as int])
                    },
            decreases M.n - i,
        {
            let ghost prev = *self;
            let ghost done = |c: int|
                if c < initcol + i {
                    M.missing_diag_count(initcol as int, c)
                } else {
                    0int
                };
            let ghost done_next = |c: int|
                if c < initcol + (i + 1) {
                    M.missing_diag_count(initcol as int, c)
                } else {
                    0int
                };
            if M.colptr[i] == M.colptr[i + 1] || M.rowval[M.colptr[i + 1] - 1] != i {
                let col: usize = i + initcol;
                proof {
                    Self::lemma_next_cell(*old(self), *self, full, done, col as int);
                }
                let dest: usize = self.put(col, col, T::default());
                proof {
                    Self::lemma_progress_step(
                        *old(self),
                        prev,
                        *self,
                        done,
                        done_next,
                        col as int,
                        col,
                        self.nzval@[dest as int],
                    );
                    assert forall|k: int| 0 <= k < i + 1 && M.lacks_diagonal(k) implies {
                        let d = #[trigger] old(self).colptr@[initcol + k];
                        &&& self.rowval@[d as int] == initcol + k
                        &&& structural_zero(self.nzval@[d as int])
                    } by {
                        if k < i {
                            old(self).lemma_room_cells(full, initcol + k, 0, col as int, 0);
                        }
                    }
                }
            } else {
                proof {
                    Self::lemma_progress_same(*old(self), *self, done, done_next);
                }
            }
            i += 1;
        }
        proof {
            Self::lemma_progress_same(
                *old(self),
                *self,
                |c: int|
                    if c < initcol + i {
                        M.missing_diag_count(initcol as int, c)
                    } else {
                        0int
                    },
                full,
            );
            Self::lemma_progress_end(*old(self), *self, full);
        }
    }

    /// Fills a dense triangle on the diagonal with structural zeros, at the
    /// cursors of the columns from `offset` on. `blocktoKKT` receives the
    /// positions of the entries, indexed as the entries of an upper triangle
    /// listed column by column: for `Triu` the entry in row `offset + t` and
    /// column `offset + j`, with `t <= j`, is entry `packed_index(j, t)`; for
    /// `Tril` the triangle is laid out transposed, so that entry
    /// `packed_index(i, j)` is the one in row `offset + i` and column
    /// `offset + j`, with `j <= i`.
    pub fn fill_dense_triangle(
        &mut self,
        blocktoKKT: &mut [usize],
        offset: usize,
        blockdim: usize,
        shape: MatrixTriangle,
    )
        requires
            offset + blockdim <= old(self).n,
            triangular(blockdim as int) <= old(blocktoKKT)@.len(),
            old(self).has_room(|c: int| triangle_count(offset as int, blockdim as int, shape, c)),
        ensures
            final(self).filled(
                *old(self),
                |c: int| triangle_count(offset as int, blockdim as int, shape, c),
            ),
            final(blocktoKKT)@.len() == old(blocktoKKT)@.len(),
            shape == MatrixTriangle::Triu ==> forall|j: int, t: int|
                0 <= t <= j < blockdim ==> {
                    &&& final(blocktoKKT)@[#[trigger] packed_index(j, t)] == old(self).colptr@[offset + j] + t
                    &&& final(self).rowval@[final(blocktoKKT)@[packed_index(j, t)] as int] == offset + t
                    &&& structural_zero(final(self).nzval@[final(blocktoKKT)@[packed_index(j, t)] as int])
                },
            shape == MatrixTriangle::Tril ==> forall|i: int, j: int|
                0 <= j <= i < blockdim ==> {
                    &&& final(blocktoKKT)@[#[trigger] packed_index(i, j)]
                        == old(self).colptr@[offset + j] + (i - j)
                    &&& final(self).rowval@[final(blocktoKKT)@[packed_index(i, j)] as int] == offset + i
                    &&& structural_zero(final(self).nzval@[final(blocktoKKT)@[packed_index(i, j)] as int])
                },
            forall|k: int|
                triangular(blockdim as int) <= k < final(blocktoKKT)@.len() ==> #[trigger] final(blocktoKKT)@[k]
                    == old(blocktoKKT)@[k],
    {
        match shape {
            MatrixTriangle::Triu => {
                self._fill_dense_triangle_triu(blocktoKKT, offset, blockdim);
            },
            MatrixTriangle::Tril => {
                self._fill_dense_triangle_tril(blocktoKKT, offset, blockdim);
            },
        }
    }

    /// Fills a dense upper triangle, column by column.
    #[verifier::rlimit(40)]
    pub fn _fill_dense_triangle_triu(&mut self, blocktoKKT: &mut [usize], offset: usize, blockdim: usize)
        requires
            offset + blockdim <= old(self).n,
            triangular(blockdim as int) <= old(blocktoKKT)@.len(),
            old(self).has_room(
                |c: int| triangle_count(offset as int, blockdim as int, MatrixTriangle::Triu, c),
            ),
        ensures
            final(self).filled(
                *old(self),
                |c: int| triangle_count(offset as int, blockdim as int, MatrixTriangle::Triu, c),
            ),
            final(blocktoKKT)@.len() == old(blocktoKKT)@.len(),
            forall|j: int, t: int|
                0 <= t <= j < blockdim ==> {
                    &&& final(blocktoKKT)@[#[trigger] packed_index(j, t)] == old(self).colptr@[offset + j] + t
                    &&& final(self).rowval@[final(blocktoKKT)@[packed_index(j, t)] as int] == offset + t
                    &&& structural_zero(final(self).nzval@[final(blocktoKKT)@[packed_index(j, t)] as int])
                },
            forall|k: int|
                triangular(blockdim as int) <= k < final(blocktoKKT)@.len() ==> #[trigger] final(blocktoKKT)@[k]
                    == old(blocktoKKT)@[k],
    {
        let ghost full = |c: int| triangle_count(offset as int, blockdim as int, MatrixTriangle::Triu, c);
        let mut kidx: usize = 0;
        let mut j: usize = 0;
        proof {
            self.lemma_progress_begin(
                full,
                |c: int| triangle_count(offset as int, j as int, MatrixTriangle::Triu, c),
            );
        }
        while j < blockdim
            invariant
                j <= blockdim,
                offset + blockdim <= old(self).n,
                triangular(blockdim as int) <= blocktoKKT@.len(),
                blocktoKKT@.len() == old(blocktoKKT)@.len(),
                kidx == triangular(j as int),
                full == |c: int| triangle_count(offset as int, blockdim as int, MatrixTriangle::Triu, c),
                old(self).room(full),
                self.progress(
                    *old(self),
                    |c: int| triangle_count(offset as int, j as int, MatrixTriangle::Triu, c),
                ),
                forall|jj: int, tt: int|
                    0 <= tt <= jj < j ==> {
                        &&& blocktoKKT@[#[trigger] packed_index(jj, tt)]
                            == old(self).colptr@[offset + jj] + tt
                        &&& self.rowval@[blocktoKKT@[packed_index(jj, tt)] as int] == offset + tt
                        &&& structural_zero(self.nzval@[blocktoKKT@[packed_index(jj, tt)] as int])
                    },
                forall|k: int|
                    kidx <= k < blocktoKKT@.len() ==> #[trigger] blocktoKKT@[k] == old(blocktoKKT)@[k],
            decreases blockdim - j,
        {
            let col: usize = offset + j;
            let mut t: usize = 0;
            proof {
                lemma_triangular_monotone(j as int + 1, blockdim as int);
                lemma_triangular_monotone(0, j as int);
                Self::lemma_progress_same(
                    *old(self),
                    *self,
                    |c: int| triangle_count(offset as int, j as int, MatrixTriangle::Triu, c),
                    |c: int|
                        if c == offset + j {
                            t as int
                        } else {
                            triangle_count(offset as int, j as int, MatrixTriangle::Triu, c)
                        },
                );
            }
            while t <= j
                invariant
                    t <= j + 1,
                    j < blockdim,
                    col == offset + j,
                    offset + blockdim <= old(self).n,
                    0 <= triangular(j as int),
                    triangular(j as int + 1) <= triangular(blockdim as int) <= blocktoKKT@.len(),
                    blocktoKKT@.len() == old(blocktoKKT)@.len(),
                    kidx == triangular(j as int) + t,
                    full == |c: int|
                        triangle_count(offset as int, blockdim as int, MatrixTriangle::Triu, c),
                    old(self).room(full),
                    self.progress(
                        *old(self),
                        |c: int|
                            if c == offset + j {
                                t as int
                            } else {
                                triangle_count(offset as int, j as int, MatrixTriangle::Triu, c)
                            },
                    ),
                    forall|jj: int, tt: int|
                        (0 <= tt <= jj < j) || (jj == j && 0 <= tt < t) ==> {
                            &&& blocktoKKT@[#[trigger] packed_index(jj, tt)]
                                == old(self).colptr@[offset + jj] + tt
                            &&& self.rowval@[blocktoKKT@[packed_index(jj, tt)] as int] == offset + tt
                            &&& structural_zero(self.nzval@[blocktoKKT@[packed_index(jj, tt)] as int])
                        },
                    forall|k: int|
                        kidx <= k < blocktoKKT@.len() ==> #[trigger] blocktoKKT@[k] == old(blocktoKKT)@[k],
                decreases j + 1 - t,
            {
                let ghost prev = *self;
                let ghost pmap = blocktoKKT@;
                proof {
                    Self::lemma_next_cell(
                        *old(self),
                        *self,
                        full,
                        |c: int|
                            if c == offset + j {
                                t as int
                            } else {
                                triangle_count(offset as int, j as int, MatrixTriangle::Triu, c)
                            },
                        col as int,
                    );
                }
                let dest: usize = self.put(col, offset + t, T::default());
                blocktoKKT[kidx] = dest;
                proof {
                    Self::lemma_progress_step(
                        *old(self),
                        prev,
                        *self,
                        |c: int|
                            if c == offset + j {
                                t as int
                            } else {
                                triangle_count(offset as int, j as int, MatrixTriangle::Triu, c)
                            },
                        |c: int|
                            if c == offset + j {
                                t as int + 1
                            } else {
                                triangle_count(offset as int, j as int, MatrixTriangle::Triu, c)
                            },
                        col as int,
                        (offset + t) as usize,
                        self.nzval@[dest as int],
                    );
                    assert forall|jj: int, tt: int|
                        (0 <= tt <= jj < j) || (jj == j && 0 <= tt < t + 1) implies {
                            &&& blocktoKKT@[#[trigger] packed_index(jj, tt)]
                                == old(self).colptr@[offset + jj] + tt
                            &&& self.rowval@[blocktoKKT@[packed_index(jj, tt)] as int] == offset + tt
                            &&& structural_zero(self.nzval@[blocktoKKT@[packed_index(jj, tt)] as int])
                        } by {
                        if !(jj == j && tt == t) {
                            if jj < j {
                                lemma_triangular_monotone(jj + 1, j as int);
                            }
                            lemma_triangular_monotone(0, jj);
                            assert(0 <= packed_index(jj, tt) < kidx);
                            assert(pmap[packed_index(jj, tt)] == old(self).colptr@[offset + jj] + tt);
                            old(self).lemma_room_cells(full, offset + jj, tt, col as int, t as int);
                        }
                    }
                }
                kidx += 1;
                t += 1;
            }
            proof {
                Self::lemma_progress_same(
                    *old(self),
                    *self,
                    |c: int|
                        if c == offset + j {
                            t as int
                        } else {
                            triangle_count(offset as int, j as int, MatrixTriangle::Triu, c)
                        },
                    |c: int| triangle_count(offset as int, j as int + 1, MatrixTriangle::Triu, c),
                );
            }
            j += 1;
        }
        proof {
            Self::lemma_progress_end(*old(self), *self, full);
        }
    }

    /// Fills a dense lower triangle, row by row, so that the entries come in
    /// the order of the transposed upper triangle.
    #[verifier::rlimit(40)]
    pub fn _fill_dense_triangle_tril(&mut self, blocktoKKT: &mut [usize], offset: usize, blockdim: usize)
        requires
            offset + blockdim <= old(self).n,
            triangular(blockdim as int) <= old(blocktoKKT)@.len(),
            old(self).has_room(
                |c: int| triangle_count(offset as int, blockdim as int, MatrixTriangle::Tril, c),
            ),
        ensures
            final(self).filled(
                *old(self),
                |c: int| triangle_count(offset as int, blockdim as int, MatrixTriangle::Tril, c),
            ),
            final(blocktoKKT)@.len() == old(blocktoKKT)@.len(),
            forall|i: int, j: int|
                0 <= j <= i < blockdim ==> {
                    &&& final(blocktoKKT)@[#[trigger] packed_index(i, j)]
                        == old(self).colptr@[offset + j] + (i - j)
                    &&& final(self).rowval@[final(blocktoKKT)@[packed_index(i, j)] as int] == offset + i
                    &&& structural_zero(final(self).nzval@[final(blocktoKKT)@[packed_index(i, j)] as int])
                },
            forall|k: int|
                triangular(blockdim as int) <= k < final(blocktoKKT)@.len() ==> #[trigger] final(blocktoKKT)@[k]
                    == old(blocktoKKT)@[k],
    {
        let ghost full = |c: int| triangle_count(offset as int, blockdim as int, MatrixTriangle::Tril, c);
        let mut kidx: usize = 0;
        let mut i: usize = 0;
        proof {
            self.lemma_progress_begin(
                full,
                |c: int| triangle_count(offset as int, i as int, MatrixTriangle::Tril, c),
            );
        }
        while i < blockdim
            invariant
                i <= blockdim,
                offset + blockdim <= old(self).n,
                triangular(blockdim as int) <= blocktoKKT@.len(),
                blocktoKKT@.len() == old(blocktoKKT)@.len(),
                kidx == triangular(i as int),
                full == |c: int| triangle_count(offset as int, blockdim as int, MatrixTriangle::Tril, c),
                old(self).room(full),
                self.progress(
                    *old(self),
                    |c: int| triangle_count(offset as int, i as int, MatrixTriangle::Tril, c),
                ),
                forall|ii: int, jj: int|
                    0 <= jj <= ii < i ==> {
                        &&& blocktoKKT@[#[trigger] packed_index(ii, jj)]
                            == old(self).colptr@[offset + jj] + (ii - jj)
                        &&& self.rowval@[blocktoKKT@[packed_index(ii, jj)] as int] == offset + ii
                        &&& structural_zero(self.nzval@[blocktoKKT@[packed_index(ii, jj)] as int])
                    },
                forall|k: int|
                    kidx <= k < blocktoKKT@.len() ==> #[trigger] blocktoKKT@[k] == old(blocktoKKT)@[k],
            decreases blockdim - i,
        {
            let row: usize = offset + i;
            let mut j: usize = 0;
            proof {
                lemma_triangular_monotone(i as int + 1, blockdim as int);
                lemma_triangular_monotone(0, i as int);
                Self::lemma_progress_same(
                    *old(self),
                    *self,
                    |c: int| triangle_count(offset as int, i as int, MatrixTriangle::Tril, c),
                    |c: int|
                        if offset <= c < offset + j {
                            triangle_count(offset as int, i as int + 1, MatrixTriangle::Tril, c)
                        } else {
                            triangle_count(offset as int, i as int, MatrixTriangle::Tril, c)
                        },
                );
            }
            while j <= i
                invariant
                    j <= i + 1,
                    i < blockdim,
                    row == offset + i,
                    offset + blockdim <= old(self).n,
                    0 <= triangular(i as int),
                    triangular(i as int + 1) <= triangular(blockdim as int) <= blocktoKKT@.len(),
                    blocktoKKT@.len() == old(blocktoKKT)@.len(),
                    kidx == triangular(i as int) + j,
                    full == |c: int|
                        triangle_count(offset as int, blockdim as int, MatrixTriangle::Tril, c),
                    old(self).room(full),
                    self.progress(
                        *old(self),
                        |c: int|
                            if offset <= c < offset + j {
                                triangle_count(offset as int, i as int + 1, MatrixTriangle::Tril, c)
                            } else {
                                triangle_count(offset as int, i as int, MatrixTriangle::Tril, c)
                            },
                    ),
                    forall|ii: int, jj: int|
                        (0 <= jj <= ii < i) || (ii == i && 0 <= jj < j) ==> {
                            &&& blocktoKKT@[#[trigger] packed_index(ii, jj)]
                                == old(self).colptr@[offset + jj] + (ii - jj)
                            &&& self.rowval@[blocktoKKT@[packed_index(ii, jj)] as int] == offset + ii
                            &&& structural_zero(self.nzval@[blocktoKKT@[packed_index(ii, jj)] as int])
                        },
                    forall|k: int|
                        kidx <= k < blocktoKKT@.len() ==> #[trigger] blocktoKKT@[k] == old(blocktoKKT)@[k],
                decreases i + 1 - j,
            {
                let ghost prev = *self;
                let ghost pmap = blocktoKKT@;
                let col: usize = offset + j;
                proof {
                    Self::lemma_next_cell(
                        *old(self),
                        *self,
                        full,
                        |c: int|
                            if offset <= c < offset + j {
                                triangle_count(offset as int, i as int + 1, MatrixTriangle::Tril, c)
                            } else {
                                triangle_count(offset as int, i as int, MatrixTriangle::Tril, c)
                            },
                        col as int,
                    );
                }
                let dest: usize = self.put(col, row, T::default());
                blocktoKKT[kidx] = dest;
                proof {
                    Self::lemma_progress_step(
                        *old(self),
                        prev,
                        *self,
                        |c: int|
                            if offset <= c < offset + j {
                                triangle_count(offset as int, i as int + 1, MatrixTriangle::Tril, c)
                            } else {
                                triangle_count(offset as int, i as int, MatrixTriangle::Tril, c)
                            },
                        |c: int|
                            if offset <= c < offset + (j + 1) {
                                triangle_count(offset as int, i as int + 1, MatrixTriangle::Tril, c)
                            } else {
                                triangle_count(offset as int, i as int, MatrixTriangle::Tril, c)
                            },
                        col as int,
                        row,
                        self.nzval@[dest as int],
                    );
                    assert forall|ii: int, jj: int|
                        (0 <= jj <= ii < i) || (ii == i && 0 <= jj < j + 1) implies {
                            &&& blocktoKKT@[#[trigger] packed_index(ii, jj)]
                                == old(self).colptr@[offset + jj] + (ii - jj)
                            &&& self.rowval@[blocktoKKT@[packed_index(ii, jj)] as int] == offset + ii
                            &&& structural_zero(self.nzval@[blocktoKKT@[packed_index(ii, jj)] as int])
                        } by {
                        if !(ii == i && jj == j) {
                            if ii < i {
                                lemma_triangular_monotone(ii + 1, i as int);
                            }
                            lemma_triangular_monotone(0, ii);
                            assert(0 <= packed_index(ii, jj) < kidx);
                            assert(pmap[packed_index(ii, jj)] == old(self).colptr@[offset + jj] + (ii - jj));
                            old(self).lemma_room_cells(full, offset + jj, ii - jj, col as int, i - j);
                        }
                    }
                }
                kidx += 1;
                j += 1;
            }
            proof {
                Self::lemma_progress_same(
                    *old(self),
                    *self,
                    |c: int|
                        if offset <= c < offset + j {
                            triangle_count(offset as int, i as int + 1, MatrixTriangle::Tril, c)
                        } else {
                            triangle_count(offset as int, i as int, MatrixTriangle::Tril, c)
                        },
                    |c: int| triangle_count(offset as int, i as int + 1, MatrixTriangle::Tril, c),
                );
            }
            i += 1;
        }
        proof {
            Self::lemma_progress_end(*old(self), *self, full);
        }
    }

    /// Fills in the entries of `M`, each at the cursor of its column, in the
    /// order in which `M` stores them. In shape `N` the entry of `M` in row
    /// `r` and column `i` goes to row `initrow + r` and column `initcol + i`;
    /// in shape `T` it goes, transposed, to row `initrow + i` and column
    /// `initcol + r`. `MtoKKT[k]` receives the position of entry `k` of `M`.
    pub fn fill_block(
        &mut self,
        M: &CscMatrix<T>,
        MtoKKT: &mut [usize],
        initrow: usize,
        initcol: usize,
        shape: MatrixShape,
    )
        requires
            M.well_formed(),
            M.rowval@.len() <= old(MtoKKT)@.len(),
            shape == MatrixShape::N ==> initcol + M.n <= old(self).n,
            shape == MatrixShape::N ==> forall|k: int|
                0 <= k < M.rowval@.len() ==> #[trigger] M.rowval@[k] + initrow <= usize::MAX,
            shape == MatrixShape::T ==> forall|k: int|
                0 <= k < M.rowval@.len() ==> #[trigger] M.rowval@[k] + initcol < old(self).n,
            shape == MatrixShape::T ==> forall|i: int, k: int|
                #[trigger] M.holds(i, k) ==> i + initrow <= usize::MAX,
            old(self).has_room(|c: int| M.block_count(initcol as int, shape, c)),
        ensures
            final(self).filled(*old(self), |c: int| M.block_count(initcol as int, shape, c)),
            final(MtoKKT)@.len() == old(MtoKKT)@.len(),
            forall|i: int, k: int| #[trigger]
                M.holds(i, k) ==> {
                    let dest = final(MtoKKT)@[k] as int;
                    &&& dest == match shape {
                        MatrixShape::N => old(self).colptr@[initcol + i] + (k - M.colptr@[i]),
                        MatrixShape::T => old(self).colptr@[M.rowval@[k] + initcol] + occurrences(
                            M.rowval@,
                            M.rowval@[k] as int,
                            k,
                        ),
                    }
                    &&& final(self).rowval@[dest] == match shape {
                        MatrixShape::N => M.rowval@[k] + initrow,
                        MatrixShape::T => i + initrow,
                    }
                    &&& final(self).nzval@[dest] == M.nzval@[k]
                },
            forall|k: int|
                M.rowval@.len() <= k < final(MtoKKT)@.len() ==> #[trigger] final(MtoKKT)@[k]
                    == old(MtoKKT)@[k],
    {
        match shape {
            MatrixShape::N => {
                self.fill_block_as_stored(M, MtoKKT, initrow, initcol);
            },
            MatrixShape::T => {
                self.fill_block_transposed(M, MtoKKT, initrow, initcol);
            },
        }
    }

    /// Fills in the entries of `M` as stored: column `i` of `M` goes to
    /// column `initcol + i`.
    #[verifier::rlimit(40)]
    fn fill_block_as_stored(
        &mut self,
        M: &CscMatrix<T>,
        MtoKKT: &mut [usize],
        initrow: usize,
        initcol: usize,
    )
        requires
            M.well_formed(),
            M.rowval@.len() <= old(MtoKKT)@.len(),
            initcol + M.n <= old(self).n,
            forall|k: int| 0 <= k < M.rowval@.len() ==> #[trigger] M.rowval@[k] + initrow <= usize::MAX,
            old(self).has_room(|c: int| M.block_count(initcol as int, MatrixShape::N, c)),
        ensures
            final(self).filled(*old(self), |c: int| M.block_count(initcol as int, MatrixShape::N, c)),
            final(MtoKKT)@.len() == old(MtoKKT)@.len(),
            forall|i: int, k: int| #[trigger]
                M.holds(i, k) ==> {
                    let dest = final(MtoKKT)@[k] as int;
                    &&& dest == old(self).colptr@[initcol + i] + (k - M.colptr@[i])
                    &&& final(self).rowval@[dest] == M.rowval@[k] + initrow
                    &&& final(self).nzval@[dest] == M.nzval@[k]
                },
            forall|k: int|
                M.rowval@.len() <= k < final(MtoKKT)@.len() ==> #[trigger] final(MtoKKT)@[k]
                    == old(MtoKKT)@[k],
    {
        let ghost full = |c: int| M.block_count(initcol as int, MatrixShape::N, c);
        let mut i: usize = 0;
        proof {
            self.lemma_progress_begin(
                full,
                |c: int|
                    if c < initcol + i {
                        M.block_count(initcol as int, MatrixShape::N, c)
                    } else {
                        0int
                    },
            );
        }
        while i < M.n
            invariant
                i <= M.n,
                M.well_formed(),
                M.rowval@.len() <= MtoKKT@.len(),
                MtoKKT@.len() == old(MtoKKT)@.len(),
                initcol + M.n <= old(self).n,
                forall|k: int|
                    0 <= k < M.rowval@.len() ==> #[trigger] M.rowval@[k] + initrow <= usize::MAX,
                full == |c: int| M.block_count(initcol as int, MatrixShape::N, c),
                old(self).room(full),
                self.progress(
                    *old(self),
                    |c: int|
                        if c < initcol + i {
                            M.block_count(initcol as int, MatrixShape::N, c)
                        } else {
                            0int
                        },
                ),
                forall|ii: int, kk: int| #[trigger]
                    M.holds(ii, kk) && kk < M.colptr@[i as int] ==> {
                        let dest = MtoKKT@[kk] as int;
                        &&& dest == old(self).colptr@[initcol + ii] + (kk - M.colptr@[ii])
                        &&& self.rowval@[dest] == M.rowval@[kk] + initrow
                        &&& self.nzval@[dest] == M.nzval@[kk]
                    },
                forall|kk: int|
                    M.colptr@[i as int] <= kk < MtoKKT@.len() ==> #[trigger] MtoKKT@[kk] == old(MtoKKT)@[kk],
            decreases M.n - i,
        {
            let col: usize = i + initcol;
            let mut k: usize = M.colptr[i];
            let stop: usize = M.colptr[i + 1];
            proof {
                Self::lemma_progress_same(
                    *old(self),
                    *self,
                    |c: int|
                        if c < initcol + i {
                            M.block_count(initcol as int, MatrixShape::N, c)
                        } else {
                            0int
                        },
                    |c: int|
                        if c < initcol + i {
                            M.block_count(initcol as int, MatrixShape::N, c)
                        } else if c == initcol + i {
                            k - M.colptr@[i as int]
                        } else {
                            0int
                        },
                );
            }
            while k < stop
                invariant
                    i < M.n,
                    col == i + initcol,
                    stop == M.colptr@[i + 1],
                    M.colptr@[i as int] <= k <= stop,
                    M.well_formed(),
                    M.rowval@.len() <= MtoKKT@.len(),
                    MtoKKT@.len() == old(MtoKKT)@.len(),
                    initcol + M.n <= old(self).n,
                    forall|kk: int|
                        0 <= kk < M.rowval@.len() ==> #[trigger] M.rowval@[kk] + initrow <= usize::MAX,
                    full == |c: int| M.block_count(initcol as int, MatrixShape::N, c),
                    old(self).room(full),
                    self.progress(
                        *old(self),
                        |c: int|
                            if c < initcol + i {
                                M.block_count(initcol as int, MatrixShape::N, c)
                            } else if c == initcol + i {
                                k - M.colptr@[i as int]
                            } else {
                                0int
                            },
                    ),
                    forall|ii: int, kk: int| #[trigger]
                        M.holds(ii, kk) && kk < k ==> {
                            let dest = MtoKKT@[kk] as int;
                            &&& dest == old(self).colptr@[initcol + ii] + (kk - M.colptr@[ii])
                            &&& self.rowval@[dest] == M.rowval@[kk] + initrow
                            &&& self.nzval@[dest] == M.nzval@[kk]
                        },
                    forall|kk: int| k <= kk < MtoKKT@.len() ==> #[trigger] MtoKKT@[kk] == old(MtoKKT)@[kk],
                decreases stop - k,
            {
                let ghost prev = *self;
                let ghost pmap = MtoKKT@;
                let ghost t = k - M.colptr@[i as int];
                proof {
                    assert(stop <= M.colptr@[M.n as int]);
                    Self::lemma_next_cell(
                        *old(self),
                        *self,
                        full,
                        |c: int|
                            if c < initcol + i {
                                M.block_count(initcol as int, MatrixShape::N, c)
                            } else if c == initcol + i {
                                k - M.colptr@[i as int]
                            } else {
                                0int
                            },
                        col as int,
                    );
                }
                let dest: usize = self.put(col, M.rowval[k] + initrow, M.nzval[k]);
                MtoKKT[k] = dest;
                proof {
                    assert forall|c: int| 0 <= c < prev.n implies 0 <= M.block_count(
                        initcol as int,
                        MatrixShape::N,
                        c,
                    ) by {
                        if initcol <= c < initcol + M.n {
                            assert(M.colptr@[c - initcol] <= M.colptr@[c - initcol + 1]);
                        }
                    }
                    Self::lemma_progress_step(
                        *old(self),
                        prev,
                        *self,
                        |c: int|
                            if c < initcol + i {
                                M.block_count(initcol as int, MatrixShape::N, c)
                            } else if c == initcol + i {
                                k - M.colptr@[i as int]
                            } else {
                                0int
                            },
                        |c: int|
                            if c < initcol + i {
                                M.block_count(initcol as int, MatrixShape::N, c)
                            } else if c == initcol + i {
                                (k + 1) - M.colptr@[i as int]
                            } else {
                                0int
                            },
                        col as int,
                        (M.rowval@[k as int] + initrow) as usize,
                        M.nzval@[k as int],
                    );
                    assert forall|ii: int, kk: int| #[trigger] M.holds(ii, kk) && kk < k + 1 implies {
                        let d = MtoKKT@[kk] as int;
                        &&& d == old(self).colptr@[initcol + ii] + (kk - M.colptr@[ii])
                        &&& self.rowval@[d] == M.rowval@[kk] + initrow
                        &&& self.nzval@[d] == M.nzval@[kk]
                    } by {
                        M.lemma_holds_ordered(ii, kk, i as int, k as int);
                        if kk < k {
                            assert(pmap[kk] == old(self).colptr@[initcol + ii] + (kk - M.colptr@[ii]));
                            old(self).lemma_room_cells(
                                full,
                                initcol + ii,
                                kk - M.colptr@[ii],
                                col as int,
                                t,
                            );
                        }
                    }
                }
                k += 1;
            }
            proof {
                Self::lemma_progress_same(
                    *old(self),
                    *self,
                    |c: int|
                        if c < initcol + i {
                            M.block_count(initcol as int, MatrixShape::N, c)
                        } else if c == initcol + i {
                            k - M.colptr@[i as int]
                        } else {
                            0int
                        },
                    |c: int|
                        if c < initcol + (i + 1) {
                            M.block_count(initcol as int, MatrixShape::N, c)
                        } else {
                            0int
                        },
                );
            }
            i += 1;
        }
        proof {
            Self::lemma_progress_same(
                *old(self),
                *self,
                |c: int|
                    if c < initcol + i {
                        M.block_count(initcol as int, MatrixShape::N, c)
                    } else {
                        0int
                    },
                full,
            );
            Self::lemma_progress_end(*old(self), *self, full);
        }
    }

    /// Fills in the entries of `M` transposed: an entry in row `r` of `M`
    /// goes to column `initcol + r`.
    #[verifier::rlimit(40)]
    fn fill_block_transposed(
        &mut self,
        M: &CscMatrix<T>,
        MtoKKT: &mut [usize],
        initrow: usize,
        initcol: usize,
    )
        requires
            M.well_formed(),
            M.rowval@.len() <= old(MtoKKT)@.len(),
            forall|k: int| 0 <= k < M.rowval@.len() ==> #[trigger] M.rowval@[k] + initcol < old(self).n,
            forall|i: int, k: int| #[trigger] M.holds(i, k) ==> i + initrow <= usize::MAX,
            old(self).has_room(|c: int| M.block_count(initcol as int, MatrixShape::T, c)),
        ensures
            final(self).filled(*old(self), |c: int| M.block_count(initcol as int, MatrixShape::T, c)),
            final(MtoKKT)@.len() == old(MtoKKT)@.len(),
            forall|i: int, k: int| #[trigger]
                M.holds(i, k) ==> {
                    let dest = final(MtoKKT)@[k] as int;
                    &&& dest == old(self).colptr@[M.rowval@[k] + initcol] + occurrences(
                        M.rowval@,
                        M.rowval@[k] as int,
                        k,
                    )
                    &&& final(self).rowval@[dest] == i + initrow
                    &&& final(self).nzval@[dest] == M.nzval@[k]
                },
            forall|k: int|
                M.rowval@.len() <= k < final(MtoKKT)@.len() ==> #[trigger] final(MtoKKT)@[k]
                    == old(MtoKKT)@[k],
    {
        let ghost full = |c: int| M.block_count(initcol as int, MatrixShape::T, c);
        let ghost len = M.rowval@.len() as int;
        let mut i: usize = 0;
        proof {
            assert forall|c: int| #[trigger]
                occurrences(M.rowval@, c - initcol, M.colptr@[i as int] as int) == 0 by {}
            self.lemma_progress_begin(
                full,
                |c: int| occurrences(M.rowval@, c - initcol, M.colptr@[i as int] as int),
            );
        }
        while i < M.n
            invariant
                i <= M.n,
                len == M.rowval@.len(),
                M.well_formed(),
                M.rowval@.len() <= MtoKKT@.len(),
                MtoKKT@.len() == old(MtoKKT)@.len(),
                forall|k: int|
                    0 <= k < M.rowval@.len() ==> #[trigger] M.rowval@[k] + initcol < old(self).n,
                forall|ii: int, kk: int| #[trigger] M.holds(ii, kk) ==> ii + initrow <= usize::MAX,
                full == |c: int| M.block_count(initcol as int, MatrixShape::T, c),
                old(self).room(full),
                self.progress(
                    *old(self),
                    |c: int| occurrences(M.rowval@, c - initcol, M.colptr@[i as int] as int),
                ),
                forall|ii: int, kk: int| #[trigger]
                    M.holds(ii, kk) && kk < M.colptr@[i as int] ==> {
                        let dest = MtoKKT@[kk] as int;
                        &&& dest == old(self).colptr@[M.rowval@[kk] + initcol] + occurrences(
                            M.rowval@,
                            M.rowval@[kk] as int,
                            kk,
                        )
                        &&& self.rowval@[dest] == ii + initrow
                        &&& self.nzval@[dest] == M.nzval@[kk]
                    },
                forall|kk: int|
                    M.colptr@[i as int] <= kk < MtoKKT@.len() ==> #[trigger] MtoKKT@[kk] == old(MtoKKT)@[kk],
            decreases M.n - i,
        {
            let mut k: usize = M.colptr[i];
            let stop: usize = M.colptr[i + 1];
            while k < stop
                invariant
                    i < M.n,
                    len == M.rowval@.len(),
                    stop == M.colptr@[i + 1],
                    M.colptr@[i as int] <= k <= stop,
                    M.well_formed(),
                    M.rowval@.len() <= MtoKKT@.len(),
                    MtoKKT@.len() == old(MtoKKT)@.len(),
                    forall|kk: int|
                        0 <= kk < M.rowval@.len() ==> #[trigger] M.rowval@[kk] + initcol < old(self).n,
                    forall|ii: int, kk: int| #[trigger] M.holds(ii, kk) ==> ii + initrow <= usize::MAX,
                    full == |c: int| M.block_count(initcol as int, MatrixShape::T, c),
                    old(self).room(full),
                    self.progress(*old(self), |c: int| occurrences(M.rowval@, c - initcol, k as int)),
                    forall|ii: int, kk: int| #[trigger]
                        M.holds(ii, kk) && kk < k ==> {
                            let dest = MtoKKT@[kk] as int;
                            &&& dest == old(self).colptr@[M.rowval@[kk] + initcol] + occurrences(
                                M.rowval@,
                                M.rowval@[kk] as int,
                                kk,
                            )
                            &&& self.rowval@[dest] == ii + initrow
                            &&& self.nzval@[dest] == M.nzval@[kk]
                        },
                    forall|kk: int| k <= kk < MtoKKT@.len() ==> #[trigger] MtoKKT@[kk] == old(MtoKKT)@[kk],
                decreases stop - k,
            {
                let ghost prev = *self;
                let ghost pmap = MtoKKT@;
                assert(stop <= M.colptr@[M.n as int]);
                assert(M.holds(i as int, k as int));
                let row: usize = M.rowval[k];
                let col: usize = row + initcol;
                let ghost t = occurrences(M.rowval@, row as int, k as int);
                proof {
                    lemma_occurrences_monotone(M.rowval@, row as int, 0, k as int);
                    lemma_occurrences_monotone(M.rowval@, row as int, k as int + 1, len);
                    assert(occurrences(M.rowval@, col - initcol, k as int) == t);
                    Self::lemma_next_cell(
                        *old(self),
                        *self,
                        full,
                        |c: int| occurrences(M.rowval@, c - initcol, k as int),
                        col as int,
                    );
                }
                let dest: usize = self.put(col, i + initrow, M.nzval[k]);
                MtoKKT[k] = dest;
                proof {
                    assert forall|c: int| 0 <= c < prev.n implies 0 <= #[trigger] occurrences(
                        M.rowval@,
                        c - initcol,
                        k as int,
                    ) by {
                        lemma_occurrences_monotone(M.rowval@, c - initcol, 0, k as int);
                    }
                    Self::lemma_progress_step(
                        *old(self),
                        prev,
                        *self,
                        |c: int| occurrences(M.rowval@, c - initcol, k as int),
                        |c: int| occurrences(M.rowval@, c - initcol, (k + 1) as int),
                        col as int,
                        (i + initrow) as usize,
                        M.nzval@[k as int],
                    );
                    assert forall|ii: int, kk: int| #[trigger] M.holds(ii, kk) && kk < k + 1 implies {
                        let d = MtoKKT@[kk] as int;
                        &&& d == old(self).colptr@[M.rowval@[kk] + initcol] + occurrences(
                            M.rowval@,
                            M.rowval@[kk] as int,
                            kk,
                        )
                        &&& self.rowval@[d] == ii + initrow
                        &&& self.nzval@[d] == M.nzval@[kk]
                    } by {
                        M.lemma_holds_ordered(ii, kk, i as int, k as int);
                        if kk < k {
                            let r = M.rowval@[kk] as int;
                            let tk = occurrences(M.rowval@, r, kk);
                            assert(pmap[kk] == old(self).colptr@[r + initcol] + tk);
                            lemma_occurrences_monotone(M.rowval@, r, 0, kk);
                            lemma_occurrences_monotone(M.rowval@, r, kk + 1, k as int);
                            lemma_occurrences_monotone(M.rowval@, r, k as int, len);
                            old(self).lemma_room_cells(full, r + initcol, tk, col as int, t);
                        }
                    }
                }
                k += 1;
            }
            i += 1;
        }
        proof {
            assert(M.colptr@[M.n as int] == M.rowval@.len());
            Self::lemma_progress_same(
                *old(self),
                *self,
                |c: int| occurrences(M.rowval@, c - initcol, M.colptr@[i as int] as int),
                full,
            );
            Self::lemma_progress_end(*old(self), *self, full);
        }
    }
}

} // verus!
