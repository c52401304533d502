//! The laws of the count-and-fill discipline: what the phases of an
//! assembly guarantee when they are run in order.

use vstd::prelude::*;
use crate::algebra::counting::{lemma_prefix_sum_monotone, prefix_sum};
use crate::algebra::matrix::CscMatrix;

verus! {

impl<T> CscMatrix<T> {
    /// Count, scan, fill, backshift: the four steps give the column offsets
    /// of the entries written.
    ///
    /// Let `counted` hold per-column counts, `scanned` be what
    /// `colcount_to_colptr` makes of it, `full` be `scanned` after fills that
    /// wrote `writes(c)` entries into each column `c`, as many as were
    /// counted, and `shifted` be what `backshift_colptrs` makes of `full`.
    /// Then the column table of `shifted` starts at zero, never decreases,
    /// gives every column exactly the entries written into it, ends at their
    /// total, and is the table that the scan had produced.
    pub proof fn lemma_backshift_restores_offsets(
        counted: Self,
        scanned: Self,
        full: Self,
        shifted: Self,
        writes: spec_fn(int) -> int,
    )
        requires
            counted.colptr@.len() == counted.n + 1,
            scanned.n == counted.n,
            scanned.colptr@.len() == counted.colptr@.len(),
            forall|c: int|
                0 <= c < scanned.colptr@.len() ==> #[trigger] scanned.colptr@[c] == prefix_sum(
                    counted.colptr@,
                    c,
                ),
            forall|c: int| 0 <= c < counted.n ==> #[trigger] writes(c) == counted.colptr@[c],
            full.filled(scanned, writes),
            shifted.n == full.n,
            shifted.colptr@.len() == full.colptr@.len(),
            shifted.colptr@[0] == 0,
            forall|c: int|
                1 <= c < shifted.colptr@.len() ==> #[trigger] shifted.colptr@[c] == full.colptr@[c - 1],
        ensures
            shifted.colptr@ =~= scanned.colptr@,
            shifted.colptr@[0] == 0,
            forall|c: int|
                0 <= c < shifted.n ==> shifted.colptr@[c + 1] - #[trigger] shifted.colptr@[c] == writes(c),
            forall|i: int, j: int|
                0 <= i <= j <= shifted.n ==> shifted.colptr@[i] <= shifted.colptr@[j],
            shifted.colptr@[shifted.n as int] == prefix_sum(counted.colptr@, counted.n as int),
    {
        let n = counted.n as int;
        assert forall|c: int| 0 <= c <= n implies shifted.colptr@[c] == #[trigger] scanned.colptr@[c] by {
            if c > 0 {
                assert(shifted.colptr@[c] == full.colptr@[c - 1]);
                assert(full.colptr@[c - 1] == scanned.colptr@[c - 1] + writes(c - 1));
                assert(scanned.colptr@[c - 1] == prefix_sum(counted.colptr@, c - 1));
            }
        }
        assert forall|c: int| 0 <= c < n implies shifted.colptr@[c + 1] - #[trigger] shifted.colptr@[c]
            == writes(c) by {
            assert(scanned.colptr@[c + 1] == prefix_sum(counted.colptr@, c + 1));
            assert(scanned.colptr@[c] == prefix_sum(counted.colptr@, c));
        }
        assert forall|i: int, j: int| 0 <= i <= j <= n implies shifted.colptr@[i] <= shifted.colptr@[j] by {
            lemma_prefix_sum_monotone(counted.colptr@, i, j);
            assert(scanned.colptr@[i] == prefix_sum(counted.colptr@, i));
            assert(scanned.colptr@[j] == prefix_sum(counted.colptr@, j));
        }
    }
    /// In a fill that began with the column offsets `starts`, position `d`
    /// belongs to column `c` and has been written.
    pub open spec fn done_cell(&self, starts: Seq<usize>, c: int, d: int) -> bool {
        0 <= c < self.n && starts[c] <= d < self.colptr@[c]
    }

    /// The position that the write after the next `t` writes to column `c`
    /// will go to.
    pub open spec fn cursor_cell(&self, c: int, t: int) -> int {
        self.colptr@[c] + t
    }

    /// The matrix is in the fill phase of an assembly: `starts` are the
    /// column offsets that the scan produced from the counts `total`, the
    /// value arrays have room for all entries counted, and the cursor of
    /// each column `c` stands `done(c)` entries after the start of the
    /// column.
    pub open spec fn fill_state(
        &self,
        starts: Seq<usize>,
        total: spec_fn(int) -> int,
        done: spec_fn(int) -> int,
    ) -> bool {
        &&& self.colptr@.len() == self.n + 1
        &&& starts.len() == self.n + 1
        &&& self.rowval@.len() == self.nzval@.len()
        &&& self.rowval@.len() == starts[self.n as int]
        &&& self.colptr@[self.n as int] == starts[self.n as int]
        &&& starts[0] == 0
        &&& forall|i: int, j: int| 0 <= i <= j <= self.n ==> starts[i] <= starts[j]
        &&& forall|c: int| 0 <= c < self.n ==> starts[c + 1] == starts[c] + #[trigger] total(c)
        &&& forall|c: int|
            0 <= c < self.n ==> #[trigger] self.colptr@[c] == starts[c] + done(c) && 0 <= done(c)
                <= total(c)
    }

    /// Among the entries written so far, the row indices of each column are
    /// strictly increasing.
    pub open spec fn done_sorted(&self, starts: Seq<usize>) -> bool {
        forall|c: int, d1: int, d2: int|
            #[trigger] self.done_cell(starts, c, d1) && #[trigger] self.done_cell(starts, c, d2) && d1
                < d2 ==> self.rowval@[d1] < self.rowval@[d2]
    }

    /// Every entry written so far to a column `c` has a row index below
    /// `bound(c)`.
    pub open spec fn done_rows_below(&self, starts: Seq<usize>, bound: spec_fn(int) -> int) -> bool {
        forall|c: int, d: int| #[trigger] self.done_cell(starts, c, d) ==> self.rowval@[d] < bound(c)
    }

    /// While no column is asked to take more entries than were counted for
    /// it, there is room for the next fill.
    pub proof fn lemma_fill_state_has_room(
        &self,
        starts: Seq<usize>,
        total: spec_fn(int) -> int,
        done: spec_fn(int) -> int,
        count: spec_fn(int) -> int,
    )
        requires
            self.fill_state(starts, total, done),
            forall|c: int| 0 <= c < self.n ==> 0 <= #[trigger] count(c) && done(c) + count(c) <= total(c),
        ensures
            self.has_room(count),
    {
        assert forall|c1: int, c2: int| 0 <= c1 < c2 <= self.n implies self.colptr@[c1] + count(c1)
            <= self.colptr@[c2] by {
            assert(0 <= count(c1) && done(c1) + count(c1) <= total(c1));
            assert(self.colptr@[c1] == starts[c1] + done(c1));
            assert(starts[c1 + 1] == starts[c1] + total(c1));
            assert(starts[c1 + 1] <= starts[c2]);
            if c2 < self.n {
                assert(self.colptr@[c2] == starts[c2] + done(c2));
            }
        }
    }

    /// A fill moves the cursors on and leaves alone what was written before
    /// it.
    pub proof fn lemma_fill_state_step(
        before: Self,
        after: Self,
        starts: Seq<usize>,
        total: spec_fn(int) -> int,
        done: spec_fn(int) -> int,
        count: spec_fn(int) -> int,
        done_after: spec_fn(int) -> int,
    )
        requires
            before.fill_state(starts, total, done),
            forall|c: int|
                0 <= c < before.n ==> 0 <= #[trigger] count(c) && done(c) + count(c) <= total(c),
            forall|c: int| 0 <= c < before.n ==> #[trigger] done_after(c) == done(c) + count(c),
            after.filled(before, count),
        ensures
            after.fill_state(starts, total, done_after),
            forall|c: int, d: int| #[trigger]
                before.done_cell(starts, c, d) ==> after.done_cell(starts, c, d) && after.rowval@[d]
                    == before.rowval@[d] && after.nzval@[d] == before.nzval@[d],
    {
        assert forall|c: int| 0 <= c < after.n implies #[trigger] after.colptr@[c] == starts[c]
            + done_after(c) && 0 <= done_after(c) <= total(c) by {
            assert(before.colptr@[c] == starts[c] + done(c));
            assert(0 <= count(c) && done(c) + count(c) <= total(c));
            assert(done_after(c) == done(c) + count(c));
        }
        assert forall|c: int, d: int| #[trigger] before.done_cell(starts, c, d) implies after.done_cell(
            starts,
            c,
            d,
        ) && after.rowval@[d] == before.rowval@[d] && after.nzval@[d] == before.nzval@[d] by {
            assert(before.colptr@[c] == starts[c] + done(c));
            assert(0 <= count(c));
            assert(starts[c + 1] == starts[c] + total(c));
            assert(starts[c + 1] <= starts[before.n as int]);
            assert forall|c2: int| 0 <= c2 < before.n implies !(#[trigger] before.colptr@[c2] <= d
                < before.colptr@[c2] + count(c2)) by {
                assert(before.colptr@[c2] == starts[c2] + done(c2));
                assert(0 <= count(c2) && done(c2) + count(c2) <= total(c2));
                assert(starts[c2 + 1] == starts[c2] + total(c2));
                if c2 < c {
                    assert(starts[c2 + 1] <= starts[c]);
                } else if c < c2 {
                    assert(starts[c + 1] <= starts[c2]);
                }
            }
            assert(before.outside_writes(count, d));
        }
    }

    /// What was written before a fill is none of the positions that the fill
    /// writes to.
    pub proof fn lemma_done_cell_not_written(
        &self,
        starts: Seq<usize>,
        total: spec_fn(int) -> int,
        done: spec_fn(int) -> int,
        count: spec_fn(int) -> int,
        c1: int,
        d: int,
        c2: int,
        t: int,
    )
        requires
            self.fill_state(starts, total, done),
            forall|c: int| 0 <= c < self.n ==> 0 <= #[trigger] count(c) && done(c) + count(c) <= total(c),
            self.done_cell(starts, c1, d),
            0 <= c2 < self.n,
            0 <= t < count(c2),
        ensures
            d != self.cursor_cell(c2, t),
            0 <= self.cursor_cell(c2, t) < self.rowval@.len(),
    {
        assert(self.colptr@[c1] == starts[c1] + done(c1));
        assert(self.colptr@[c2] == starts[c2] + done(c2));
        assert(0 <= count(c1) && done(c1) + count(c1) <= total(c1));
        assert(0 <= count(c2) && done(c2) + count(c2) <= total(c2));
        assert(starts[c1 + 1] == starts[c1] + total(c1));
        assert(starts[c2 + 1] == starts[c2] + total(c2));
        assert(starts[c2 + 1] <= starts[self.n as int]);
        if c1 < c2 {
            assert(starts[c1 + 1] <= starts[c2]);
        } else if c2 < c1 {
            assert(starts[c2 + 1] <= starts[c1]);
        }
    }

    /// A fill that appends to each column rows in increasing order, all of
    /// them above the rows that the column holds, keeps the columns sorted.
    pub proof fn lemma_fill_state_sorted(
        before: Self,
        after: Self,
        starts: Seq<usize>,
        total: spec_fn(int) -> int,
        done: spec_fn(int) -> int,
        count: spec_fn(int) -> int,
        lo: spec_fn(int) -> int,
        hi: spec_fn(int) -> int,
    )
        requires
            before.fill_state(starts, total, done),
            forall|c: int|
                0 <= c < before.n ==> 0 <= #[trigger] count(c) && done(c) + count(c) <= total(c),
            after.filled(before, count),
            before.done_sorted(starts),
            before.done_rows_below(starts, hi),
            forall|c: int, d: int| #[trigger]
                before.done_cell(starts, c, d) && count(c) > 0 ==> before.rowval@[d] < lo(c),
            forall|c: int, t: int|
                0 <= c < before.n && 0 <= t < count(c) ==> lo(c)
                    <= after.rowval@[#[trigger] before.cursor_cell(
                    c,
                    t,
                )] < hi(c),
            forall|c: int, t1: int, t2: int|
                0 <= c < before.n && 0 <= t1 < t2 < count(c) ==> after.rowval@[#[trigger] before.cursor_cell(
                    c,
                    t1,
                )] < after.rowval@[#[trigger] before.cursor_cell(c, t2)],
        ensures
            after.done_sorted(starts),
            after.done_rows_below(starts, hi),
    {
        Self::lemma_fill_state_step(
            before,
            after,
            starts,
            total,
            done,
            count,
            |c: int| done(c) + count(c),
        );
        assert forall|c: int, d: int| #[trigger] after.done_cell(starts, c, d) implies after.rowval@[d]
            < hi(c) by {
            assert(after.colptr@[c] == before.colptr@[c] + count(c));
            if d < before.colptr@[c] {
                assert(before.done_cell(starts, c, d));
            } else {
                assert(d == before.cursor_cell(c, d - before.colptr@[c]));
            }
        }
        assert forall|c: int, d1: int, d2: int|
            #[trigger] after.done_cell(starts, c, d1) && #[trigger] after.done_cell(starts, c, d2) && d1
                < d2 implies after.rowval@[d1] < after.rowval@[d2] by {
            assert(after.colptr@[c] == before.colptr@[c] + count(c));
            let cur = before.colptr@[c] as int;
            if d2 < cur {
                assert(before.done_cell(starts, c, d1));
                assert(before.done_cell(starts, c, d2));
            } else if d1 < cur {
                assert(before.done_cell(starts, c, d1));
                assert(d2 == before.cursor_cell(c, d2 - cur));
            } else {
                assert(d1 == before.cursor_cell(c, d1 - cur));
                assert(d2 == before.cursor_cell(c, d2 - cur));
            }
        }
    }

    /// A matrix filled in full, in which every column holds increasing row
    /// indices inside the matrix, is in canonical form once
    /// `backshift_colptrs` has restored its column offsets.
    pub proof fn lemma_full_fill_is_canonical(
        full: Self,
        shifted: Self,
        starts: Seq<usize>,
        total: spec_fn(int) -> int,
    )
        requires
            full.fill_state(starts, total, total),
            full.done_sorted(starts),
            full.done_rows_below(starts, |c: int| full.m as int),
            shifted.m == full.m,
            shifted.n == full.n,
            shifted.rowval@ == full.rowval@,
            shifted.nzval@ == full.nzval@,
            shifted.colptr@.len() == full.colptr@.len(),
            shifted.colptr@[0] == 0,
            forall|c: int|
                1 <= c < shifted.colptr@.len() ==> #[trigger] shifted.colptr@[c] == full.colptr@[c - 1],
        ensures
            shifted.colptr@ =~= starts,
            shifted.is_canonical(),
            forall|c: int, d: int| shifted.holds(c, d) <==> full.done_cell(starts, c, d),
    {
        let n = full.n as int;
        assert forall|c: int| 0 <= c <= n implies #[trigger] shifted.colptr@[c] == starts[c] by {
            if c > 0 {
                assert(shifted.colptr@[c] == full.colptr@[c - 1]);
                assert(full.colptr@[c - 1] == starts[c - 1] + total(c - 1));
                assert(starts[c - 1 + 1] == starts[c - 1] + total(c - 1));
            }
        }
        assert forall|c: int, d: int| shifted.holds(c, d) <==> full.done_cell(starts, c, d) by {
            if 0 <= c < n {
                assert(full.colptr@[c] == starts[c] + total(c));
                assert(starts[c + 1] == starts[c] + total(c));
                assert(shifted.colptr@[c] == starts[c]);
                assert(shifted.colptr@[c + 1] == starts[c + 1]);
            }
        }
        assert forall|k: int| 0 <= k < shifted.rowval@.len() implies #[trigger] shifted.rowval@[k]
            < shifted.m by {
            let c = Self::column_of(starts, n, k);
            assert(starts[c + 1] == starts[c] + total(c));
            assert(full.colptr@[c] == starts[c] + total(c));
            assert(full.done_cell(starts, c, k));
        }
        assert forall|c: int, k1: int, k2: int|
            #[trigger] shifted.holds(c, k1) && #[trigger] shifted.holds(c, k2) && k1
                < k2 implies shifted.rowval@[k1] < shifted.rowval@[k2] by {
            assert(full.done_cell(starts, c, k1));
            assert(full.done_cell(starts, c, k2));
        }
    }

    /// Finds the column that holds position `k` among the first `n` columns
    /// with offsets `starts`.
    pub proof fn column_of(starts: Seq<usize>, n: int, k: int) -> (c: int)
        requires
            0 <= n < starts.len(),
            starts[0] == 0,
            0 <= k < starts[n],
        ensures
            0 <= c < n,
            starts[c] <= k < starts[c + 1],
        decreases n,
    {
        if starts[n - 1] <= k {
            n - 1
        } else {
            Self::column_of(starts, n - 1, k)
        }
    }
}

} // verus!
