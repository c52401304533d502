//! The fill phase of the assembly of a KKT matrix, block by block, and
//! what every block leaves behind.

#![allow(non_snake_case)]
use vstd::prelude::*;
use crate::algebra::counting::{
    diag_count, lemma_occurrences_monotone, lemma_prefix_sum_monotone, occurrences, prefix_sum,
    triangle_count,
};
use crate::algebra::filling::{
    lemma_packed_index_injective, lemma_packed_index_onto, lemma_triangular_monotone, packed_index,
    triangle_col, triangular,
};
use crate::algebra::matrix::{structural_zero, CscMatrix, MatrixShape, MatrixTriangle};
use crate::cones::{
    lemma_totals_monotone, total_dim, total_scaling_entries, triangular_number, SupportedCone,
};
use crate::kktsolvers::assembly::{
    cone_count, constraints_mapped, cost_mapped, in_scaling_rows, kkt_column_count,
    lemma_occurrences_absent, lemma_scaling_count_bounds, lemma_scaling_count_monotone,
    scaling_count, scaling_mapped, scaling_slot,
};

verus! {

/// Finds the entry of `s` that is occurrence `t` of the value `v`.
pub proof fn lemma_occurrence_position(s: Seq<usize>, v: int, t: int, upto: int) -> (k: int)
    requires
        upto <= s.len(),
        0 <= t < occurrences(s, v, upto),
    ensures
        0 <= k < upto,
        s[k] == v,
        occurrences(s, v, k) == t,
    decreases upto,
{
    if upto <= 0 {
        0
    } else if s[upto - 1] == v && occurrences(s, v, upto - 1) == t {
        upto - 1
    } else {
        lemma_occurrences_monotone(s, v, 0, upto - 1);
        lemma_occurrence_position(s, v, t, upto - 1)
    }
}

/// Every entry of `P` stands in the KKT matrix in its own row and column,
/// at the position that `map` gives.
spec fn p_placed<T>(K: CscMatrix<T>, starts: Seq<usize>, P: CscMatrix<T>, map: Seq<usize>) -> bool {
    &&& map.len() == P.rowval@.len()
    &&& forall|i: int, k: int| #[trigger]
        P.holds(i, k) ==> {
            &&& K.done_cell(starts, i, map[k] as int)
            &&& K.rowval@[map[k] as int] == P.rowval@[k]
            &&& K.nzval@[map[k] as int] == P.nzval@[k]
        }
}

/// Every entry of `A` stands in the KKT matrix transposed, `n` columns to
/// the right, at the position that `map` gives.
spec fn a_placed<T>(K: CscMatrix<T>, starts: Seq<usize>, A: CscMatrix<T>, n: int, map: Seq<usize>) -> bool {
    &&& map.len() == A.rowval@.len()
    &&& forall|i: int, k: int| #[trigger]
        A.holds(i, k) ==> {
            &&& K.done_cell(starts, n + A.rowval@[k], map[k] as int)
            &&& K.rowval@[map[k] as int] == i
            &&& K.nzval@[map[k] as int] == A.nzval@[k]
        }
}

/// In each of the first `upto` columns the entry written last is the one on
/// the diagonal.
spec fn diag_last<T>(K: CscMatrix<T>, starts: Seq<usize>, upto: int) -> bool {
    forall|c: int|
        0 <= c < upto ==> starts[c] < #[trigger] K.colptr@[c] && K.rowval@[K.colptr@[c] - 1] == c
}

/// In every column in which `P` lacks the diagonal entry, the entry written
/// last is a structural zero.
spec fn lacking_zeroed<T: Default>(K: CscMatrix<T>, starts: Seq<usize>, P: CscMatrix<T>) -> bool {
    forall|c: int|
        0 <= c < P.n && P.lacks_diagonal(c) ==> starts[c] < #[trigger] K.colptr@[c] && structural_zero(
            K.nzval@[K.colptr@[c] - 1],
        )
}

/// A vector of `len` zeros, to receive positions.
pub(crate) fn zero_indices(len: usize) -> (v: Vec<usize>)
    ensures
        v@.len() == len,
        forall|k: int| 0 <= k < len ==> v@[k] == 0,
{
    let mut v: Vec<usize> = Vec::new();
    let mut k: usize = 0;
    while k < len
        invariant
            k <= len,
            v@.len() == k,
            forall|j: int| 0 <= j < k ==> v@[j] == 0,
        decreases len - k,
    {
        v.push(0);
        k += 1;
    }
    v
}

/// The count of every column of the KKT matrix, as a function of the column.
pub(crate) closed spec fn total_of<T>(P: CscMatrix<T>, A: CscMatrix<T>, cones: Seq<SupportedCone>) -> spec_fn(int) -> int {
    |c: int| kkt_column_count(P, A, cones, c)
}

/// The entries of every column that are in place after `stage` of the
/// blocks of the problem data: the block of `P`, the diagonal entries that
/// `P` lacks, and the block of `A`.
pub(crate) closed spec fn placed_of<T>(P: CscMatrix<T>, A: CscMatrix<T>, stage: int) -> spec_fn(int) -> int {
    |c: int|
        (if stage >= 1 {
            P.block_count(0, MatrixShape::N, c)
        } else {
            0
        }) + (if stage >= 2 {
            P.missing_diag_count(0, c)
        } else {
            0
        }) + (if stage >= 3 {
            A.block_count(P.n as int, MatrixShape::T, c)
        } else {
            0
        })
}

/// The bound under which the rows of every column stay after `stage` of the
/// blocks of the problem data.
spec fn rows_of<T>(P: CscMatrix<T>, stage: int) -> spec_fn(int) -> int {
    |c: int|
        if c < P.n {
            if stage == 1 && P.lacks_diagonal(c) {
                c
            } else {
                c + 1
            }
        } else if stage >= 3 {
            P.n as int
        } else {
            0
        }
}

/// The parts of a column count are not negative, and the blocks of the
/// problem data keep to their columns.
proof fn lemma_column_counts<T>(P: CscMatrix<T>, A: CscMatrix<T>, cones: Seq<SupportedCone>, c: int)
    requires
        P.well_formed(),
        A.well_formed(),
        A.rows_in_range(),
        0 <= c,
    ensures
        0 <= P.block_count(0, MatrixShape::N, c),
        0 <= P.missing_diag_count(0, c) <= 1,
        0 <= A.block_count(P.n as int, MatrixShape::T, c),
        0 <= scaling_count(cones, cones.len() as int, P.n as int, c),
        c < P.n ==> A.block_count(P.n as int, MatrixShape::T, c) == 0,
        c >= P.n ==> P.block_count(0, MatrixShape::N, c) == 0 && P.missing_diag_count(0, c) == 0,
        c >= P.n + A.m ==> A.block_count(P.n as int, MatrixShape::T, c) == 0,
{
    lemma_scaling_count_bounds(cones, cones.len() as int, P.n as int, c);
    lemma_occurrences_monotone(A.rowval@, c - P.n, 0, A.rowval@.len() as int);
    if c < P.n {
        assert(P.colptr@[c] <= P.colptr@[c + 1]);
        lemma_occurrences_absent(A.rowval@, c - P.n, A.rowval@.len() as int);
    }
    if c >= P.n + A.m {
        assert forall|k: int| 0 <= k < A.rowval@.len() implies A.rowval@[k] != c - P.n by {
            assert(A.rowval@[k] < A.m);
        }
        lemma_occurrences_absent(A.rowval@, c - P.n, A.rowval@.len() as int);
    }
}

/// Everything that the assembly keeps track of while the blocks of the
/// problem data are written, once `stage` of them are in place.
#[verifier::opaque]
pub(crate) closed spec fn after_stage<T: Default>(
    K: CscMatrix<T>,
    starts: Seq<usize>,
    P: CscMatrix<T>,
    A: CscMatrix<T>,
    cones: Seq<SupportedCone>,
    stage: int,
    map_p: Seq<usize>,
    map_a: Seq<usize>,
) -> bool {
    &&& K.n == P.n + A.m
    &&& K.fill_state(starts, total_of(P, A, cones), placed_of(P, A, stage))
    &&& stage >= 1 ==> K.done_sorted(starts) && K.done_rows_below(starts, rows_of(P, stage)) && p_placed(
        K,
        starts,
        P,
        map_p,
    )
    &&& stage >= 2 ==> diag_last(K, starts, P.n as int) && lacking_zeroed(K, starts, P)
    &&& stage >= 3 ==> a_placed(K, starts, A, P.n as int, map_a)
}

/// Fills in the block of `P`, in the upper left. Returns the positions of
/// its entries.
pub(crate) fn place_cost_block<T: Copy + Default>(
    K: &mut CscMatrix<T>,
    P: &CscMatrix<T>,
    A: &CscMatrix<T>,
    Ghost(cones): Ghost<Seq<SupportedCone>>,
    Ghost(starts): Ghost<Seq<usize>>,
) -> (map_p: Vec<usize>)
    requires
        P.is_canonical(),
        P.is_upper_triangular(),
        A.is_canonical(),
        P.m == P.n,
        A.n == P.n,
        after_stage(*old(K), starts, *P, *A, cones, 0, Seq::<usize>::empty(), Seq::<usize>::empty()),
    ensures
        final(K).m == old(K).m,
        after_stage(*final(K), starts, *P, *A, cones, 1, map_p@, Seq::<usize>::empty()),
{
    let ghost count = |c: int| P.block_count(0, MatrixShape::N, c);
    let ghost K0 = *K;
    let mut map_p: Vec<usize> = zero_indices(P.rowval.len());
    proof {
        reveal(after_stage);
        assert forall|c: int| 0 <= c < K0.n implies 0 <= #[trigger] count(c) && placed_of(*P, *A, 0)(c)
            + count(c) <= total_of(*P, *A, cones)(c) by {
            lemma_column_counts(*P, *A, cones, c);
        }
        K0.lemma_fill_state_has_room(starts, total_of(*P, *A, cones), placed_of(*P, *A, 0), count);
    }
    K.fill_block(P, map_p.as_mut_slice(), 0, 0, MatrixShape::N);
    proof {
        reveal(after_stage);
        lemma_cost_block_placed(K0, *K, *P, *A, cones, starts, map_p@);
    }
    map_p
}

/// What `place_cost_block` leaves behind.
#[verifier::rlimit(40)]
proof fn lemma_cost_block_placed<T>(
    K0: CscMatrix<T>,
    K1: CscMatrix<T>,
    P: CscMatrix<T>,
    A: CscMatrix<T>,
    cones: Seq<SupportedCone>,
    starts: Seq<usize>,
    map_p: Seq<usize>,
)
    requires
        P.is_canonical(),
        P.is_upper_triangular(),
        A.is_canonical(),
        P.m == P.n,
        A.n == P.n,
        K0.n == P.n + A.m,
        K0.fill_state(starts, total_of(P, A, cones), placed_of(P, A, 0)),
        K1.filled(K0, |c: int| P.block_count(0, MatrixShape::N, c)),
        map_p.len() == P.rowval@.len(),
        forall|i: int, k: int| #[trigger]
            P.holds(i, k) ==> {
                let dest = map_p[k] as int;
                &&& dest == K0.colptr@[0 + i] + (k - P.colptr@[i])
                &&& K1.rowval@[dest] == P.rowval@[k] + 0
                &&& K1.nzval@[dest] == P.nzval@[k]
            },
    ensures
        K1.fill_state(starts, total_of(P, A, cones), placed_of(P, A, 1)),
        K1.done_sorted(starts),
        K1.done_rows_below(starts, rows_of(P, 1)),
        p_placed(K1, starts, P, map_p),
{
    let dim = K0.n as int;
    let total = total_of(P, A, cones);
    let count = |c: int| P.block_count(0, MatrixShape::N, c);
    let done0 = placed_of(P, A, 0);
    let done1 = placed_of(P, A, 1);
    let hi = rows_of(P, 1);
    let zero = |c: int| 0int;
    assert forall|c: int| 0 <= c < dim implies 0 <= #[trigger] count(c) && done0(c) + count(c) <= total(
        c,
    ) by {
        lemma_column_counts(P, A, cones, c);
    }
    CscMatrix::lemma_fill_state_step(K0, K1, starts, total, done0, count, done1);
    assert forall|c: int, t: int| 0 <= c < dim && 0 <= t < count(c) implies K1.rowval@[
        #[trigger] K0.cursor_cell(c, t)] == P.rowval@[P.colptr@[c] + t] && P.rowval@[P.colptr@[c] + t]
        < hi(c) by {
        let k = P.colptr@[c] + t;
        assert(P.holds(c, k));
        if P.lacks_diagonal(c) {
            let last = P.colptr@[c + 1] - 1;
            assert(P.holds(c, last));
        }
    }
    assert forall|c: int, t: int| 0 <= c < dim && 0 <= t < count(c) implies zero(c)
        <= K1.rowval@[#[trigger] K0.cursor_cell(c, t)] < hi(c) by {
        assert(K1.rowval@[K0.cursor_cell(c, t)] == P.rowval@[P.colptr@[c] + t]);
    }
    assert forall|c: int, t1: int, t2: int| 0 <= c < dim && 0 <= t1 < t2 < count(c) implies K1.rowval@[
        #[trigger] K0.cursor_cell(c, t1)] < K1.rowval@[#[trigger] K0.cursor_cell(c, t2)] by {
        assert(K1.rowval@[K0.cursor_cell(c, t1)] == P.rowval@[P.colptr@[c] + t1]);
        assert(K1.rowval@[K0.cursor_cell(c, t2)] == P.rowval@[P.colptr@[c] + t2]);
        assert(P.holds(c, P.colptr@[c] + t1));
        assert(P.holds(c, P.colptr@[c] + t2));
    }
    assert forall|c: int, d: int| #[trigger] K0.done_cell(starts, c, d) implies false by {
        assert(K0.colptr@[c] == starts[c] + done0(c));
    }
    CscMatrix::lemma_fill_state_sorted(K0, K1, starts, total, done0, count, zero, hi);
    assert forall|i: int, k: int| #[trigger] P.holds(i, k) implies K1.done_cell(
        starts,
        i,
        map_p[k] as int,
    ) && K1.rowval@[map_p[k] as int] == P.rowval@[k] && K1.nzval@[map_p[k] as int] == P.nzval@[k] by {
        assert(K0.colptr@[i] == starts[i] + done0(i));
        assert(K1.colptr@[i] == starts[i] + done1(i));
    }
}

/// Fills in the diagonal entries that `P` lacks.
pub(crate) fn place_cost_diagonal<T: Copy + Default>(
    K: &mut CscMatrix<T>,
    P: &CscMatrix<T>,
    A: &CscMatrix<T>,
    Ghost(cones): Ghost<Seq<SupportedCone>>,
    Ghost(starts): Ghost<Seq<usize>>,
    Ghost(map_p): Ghost<Seq<usize>>,
)
    requires
        P.is_canonical(),
        P.is_upper_triangular(),
        A.is_canonical(),
        P.m == P.n,
        A.n == P.n,
        after_stage(*old(K), starts, *P, *A, cones, 1, map_p, Seq::<usize>::empty()),
    ensures
        final(K).m == old(K).m,
        after_stage(*final(K), starts, *P, *A, cones, 2, map_p, Seq::<usize>::empty()),
{
    let ghost count = |c: int| P.missing_diag_count(0, c);
    let ghost K1 = *K;
    proof {
        reveal(after_stage);
        assert forall|c: int| 0 <= c < K1.n implies 0 <= #[trigger] count(c) && placed_of(*P, *A, 1)(c)
            + count(c) <= total_of(*P, *A, cones)(c) by {
            lemma_column_counts(*P, *A, cones, c);
        }
        K1.lemma_fill_state_has_room(starts, total_of(*P, *A, cones), placed_of(*P, *A, 1), count);
    }
    K.fill_missing_diag(P, 0);
    proof {
        reveal(after_stage);
        lemma_cost_diagonal_placed(K1, *K, *P, *A, cones, starts, map_p);
    }
}

/// What `place_cost_diagonal` leaves behind.
#[verifier::rlimit(40)]
proof fn lemma_cost_diagonal_placed<T: Default>(
    K1: CscMatrix<T>,
    K2: CscMatrix<T>,
    P: CscMatrix<T>,
    A: CscMatrix<T>,
    cones: Seq<SupportedCone>,
    starts: Seq<usize>,
    map_p: Seq<usize>,
)
    requires
        P.is_canonical(),
        P.is_upper_triangular(),
        A.is_canonical(),
        P.m == P.n,
        A.n == P.n,
        K1.n == P.n + A.m,
        K1.fill_state(starts, total_of(P, A, cones), placed_of(P, A, 1)),
        K1.done_sorted(starts),
        K1.done_rows_below(starts, rows_of(P, 1)),
        p_placed(K1, starts, P, map_p),
        K2.filled(K1, |c: int| P.missing_diag_count(0, c)),
        forall|i: int|
            0 <= i < P.n && P.lacks_diagonal(i) ==> {
                let dest = #[trigger] K1.colptr@[0 + i];
                &&& K2.rowval@[dest as int] == 0 + i
                &&& structural_zero(K2.nzval@[dest as int])
            },
    ensures
        K2.fill_state(starts, total_of(P, A, cones), placed_of(P, A, 2)),
        K2.done_sorted(starts),
        K2.done_rows_below(starts, rows_of(P, 2)),
        p_placed(K2, starts, P, map_p),
        diag_last(K2, starts, P.n as int),
        lacking_zeroed(K2, starts, P),
{
    let dim = K1.n as int;
    let n = P.n as int;
    let total = total_of(P, A, cones);
    let count = |c: int| P.missing_diag_count(0, c);
    let done1 = placed_of(P, A, 1);
    let done2 = placed_of(P, A, 2);
    let hi = rows_of(P, 2);
    assert forall|c: int| 0 <= c < dim implies 0 <= #[trigger] count(c) && done1(c) + count(c) <= total(
        c,
    ) by {
        lemma_column_counts(P, A, cones, c);
    }
    CscMatrix::lemma_fill_state_step(K1, K2, starts, total, done1, count, done2);
    assert forall|c: int, d: int| #[trigger] K1.done_cell(starts, c, d) implies K1.rowval@[d] < hi(c) && (
    count(c) > 0 ==> K1.rowval@[d] < c) by {
        assert(K1.rowval@[d] < rows_of(P, 1)(c));
    }
    assert forall|c: int, t: int| 0 <= c < dim && 0 <= t < count(c) implies c
        <= K2.rowval@[#[trigger] K1.cursor_cell(c, t)] < hi(c) by {
        assert(K2.rowval@[K1.colptr@[0 + c] as int] == 0 + c);
    }
    CscMatrix::lemma_fill_state_sorted(K1, K2, starts, total, done1, count, |c: int| c, hi);
    assert forall|c: int| 0 <= c < n implies starts[c] < #[trigger] K2.colptr@[c] && K2.rowval@[K2.colptr@[c]
        - 1] == c by {
        lemma_column_counts(P, A, cones, c);
        assert(K1.colptr@[c] == starts[c] + done1(c));
        assert(K2.colptr@[c] == starts[c] + done2(c));
        if P.lacks_diagonal(c) {
            assert(K2.rowval@[K1.colptr@[0 + c] as int] == 0 + c);
        } else {
            let last = P.colptr@[c + 1] - 1;
            assert(P.colptr@[c] <= P.colptr@[c + 1]);
            assert(P.holds(c, last));
            let dm = map_p[last] as int;
            let dl = K1.colptr@[c] - 1;
            assert(K1.done_cell(starts, c, dm));
            assert(K1.done_cell(starts, c, dl));
            assert(K1.rowval@[dl] < rows_of(P, 1)(c));
            if dm < dl {
                assert(K1.rowval@[dm] < K1.rowval@[dl]);
            }
        }
    }
    assert forall|c: int| 0 <= c < P.n && P.lacks_diagonal(c) implies starts[c] < #[trigger] K2.colptr@[c]
        && structural_zero(K2.nzval@[K2.colptr@[c] - 1]) by {
        lemma_column_counts(P, A, cones, c);
        assert(K1.colptr@[c] == starts[c] + done1(c));
        assert(K2.colptr@[c] == starts[c] + done2(c));
        assert(structural_zero(K2.nzval@[K1.colptr@[0 + c] as int]));
    }
    assert forall|i: int, k: int| #[trigger] P.holds(i, k) implies K2.done_cell(
        starts,
        i,
        map_p[k] as int,
    ) && K2.rowval@[map_p[k] as int] == P.rowval@[k] && K2.nzval@[map_p[k] as int] == P.nzval@[k] by {
        assert(K1.done_cell(starts, i, map_p[k] as int));
    }
}

/// Fills in the block of `A`, transposed, in the upper right. Returns the
/// positions of its entries.
pub(crate) fn place_constraint_block<T: Copy + Default>(
    K: &mut CscMatrix<T>,
    P: &CscMatrix<T>,
    A: &CscMatrix<T>,
    Ghost(cones): Ghost<Seq<SupportedCone>>,
    Ghost(starts): Ghost<Seq<usize>>,
    Ghost(map_p): Ghost<Seq<usize>>,
) -> (map_a: Vec<usize>)
    requires
        P.is_canonical(),
        P.is_upper_triangular(),
        A.is_canonical(),
        P.m == P.n,
        A.n == P.n,
        after_stage(*old(K), starts, *P, *A, cones, 2, map_p, Seq::<usize>::empty()),
    ensures
        final(K).m == old(K).m,
        after_stage(*final(K), starts, *P, *A, cones, 3, map_p, map_a@),
{
    let n: usize = P.n;
    let ghost count = |c: int| A.block_count(n as int, MatrixShape::T, c);
    let ghost K2 = *K;
    let mut map_a: Vec<usize> = zero_indices(A.rowval.len());
    proof {
        reveal(after_stage);
        assert forall|c: int| 0 <= c < K2.n implies 0 <= #[trigger] count(c) && placed_of(*P, *A, 2)(c)
            + count(c) <= total_of(*P, *A, cones)(c) by {
            lemma_column_counts(*P, *A, cones, c);
        }
        K2.lemma_fill_state_has_room(starts, total_of(*P, *A, cones), placed_of(*P, *A, 2), count);
        assert forall|k: int| 0 <= k < A.rowval@.len() implies #[trigger] A.rowval@[k] + n < K2.n by {
            assert(A.rowval@[k] < A.m);
        }
    }
    K.fill_block(A, map_a.as_mut_slice(), 0, n, MatrixShape::T);
    proof {
        reveal(after_stage);
        lemma_constraint_block_placed(K2, *K, *P, *A, cones, starts, map_p, map_a@);
    }
    map_a
}

/// What `place_constraint_block` leaves behind.
#[verifier::rlimit(40)]
proof fn lemma_constraint_block_placed<T: Default>(
    K2: CscMatrix<T>,
    K3: CscMatrix<T>,
    P: CscMatrix<T>,
    A: CscMatrix<T>,
    cones: Seq<SupportedCone>,
    starts: Seq<usize>,
    map_p: Seq<usize>,
    map_a: Seq<usize>,
)
    requires
        P.is_canonical(),
        P.is_upper_triangular(),
        A.is_canonical(),
        P.m == P.n,
        A.n == P.n,
        K2.n == P.n + A.m,
        K2.fill_state(starts, total_of(P, A, cones), placed_of(P, A, 2)),
        K2.done_sorted(starts),
        K2.done_rows_below(starts, rows_of(P, 2)),
        p_placed(K2, starts, P, map_p),
        diag_last(K2, starts, P.n as int),
        lacking_zeroed(K2, starts, P),
        K3.filled(K2, |c: int| A.block_count(P.n as int, MatrixShape::T, c)),
        map_a.len() == A.rowval@.len(),
        forall|i: int, k: int| #[trigger]
            A.holds(i, k) ==> {
                let dest = map_a[k] as int;
                &&& dest == K2.colptr@[A.rowval@[k] + P.n] + occurrences(
                    A.rowval@,
                    A.rowval@[k] as int,
                    k,
                )
                &&& K3.rowval@[dest] == i + 0
                &&& K3.nzval@[dest] == A.nzval@[k]
            },
    ensures
        K3.fill_state(starts, total_of(P, A, cones), placed_of(P, A, 3)),
        K3.done_sorted(starts),
        K3.done_rows_below(starts, rows_of(P, 3)),
        p_placed(K3, starts, P, map_p),
        a_placed(K3, starts, A, P.n as int, map_a),
        diag_last(K3, starts, P.n as int),
        lacking_zeroed(K3, starts, P),
{
    let dim = K2.n as int;
    let n = P.n as int;
    let len = A.rowval@.len() as int;
    let total = total_of(P, A, cones);
    let count = |c: int| A.block_count(P.n as int, MatrixShape::T, c);
    let done2 = placed_of(P, A, 2);
    let done3 = placed_of(P, A, 3);
    let hi = rows_of(P, 3);
    let zero = |c: int| 0int;
    assert forall|c: int| 0 <= c < dim implies 0 <= #[trigger] count(c) && done2(c) + count(c) <= total(
        c,
    ) by {
        lemma_column_counts(P, A, cones, c);
    }
    CscMatrix::lemma_fill_state_step(K2, K3, starts, total, done2, count, done3);
    assert forall|c: int, d: int| #[trigger] K2.done_cell(starts, c, d) implies K2.rowval@[d] < hi(c) && (
    count(c) > 0 ==> K2.rowval@[d] < 0) by {
        lemma_column_counts(P, A, cones, c);
        assert(K2.colptr@[c] == starts[c] + done2(c));
        assert(K2.rowval@[d] < rows_of(P, 2)(c));
    }
    assert forall|c: int, t: int| 0 <= c < dim && 0 <= t < count(c) implies 0
        <= K3.rowval@[#[trigger] K2.cursor_cell(c, t)] < hi(c) by {
        lemma_column_counts(P, A, cones, c);
        let r = c - n;
        let k = lemma_occurrence_position(A.rowval@, r, t, len);
        let i = CscMatrix::<T>::column_of(A.colptr@, A.n as int, k);
        assert(A.holds(i, k));
    }
    assert forall|c: int, t1: int, t2: int| 0 <= c < dim && 0 <= t1 < t2 < count(c) implies K3.rowval@[
        #[trigger] K2.cursor_cell(c, t1)] < K3.rowval@[#[trigger] K2.cursor_cell(c, t2)] by {
        lemma_column_counts(P, A, cones, c);
        let r = c - n;
        let k1 = lemma_occurrence_position(A.rowval@, r, t1, len);
        let i1 = CscMatrix::<T>::column_of(A.colptr@, A.n as int, k1);
        let k2 = lemma_occurrence_position(A.rowval@, r, t2, len);
        let i2 = CscMatrix::<T>::column_of(A.colptr@, A.n as int, k2);
        assert(A.holds(i1, k1));
        assert(A.holds(i2, k2));
        if k2 <= k1 {
            lemma_occurrences_monotone(A.rowval@, r, k2, k1);
        }
        A.lemma_holds_ordered(i1, k1, i2, k2);
    }
    CscMatrix::lemma_fill_state_sorted(K2, K3, starts, total, done2, count, zero, hi);
    assert forall|i: int, k: int| #[trigger] A.holds(i, k) implies K3.done_cell(
        starts,
        n + A.rowval@[k],
        map_a[k] as int,
    ) && K3.rowval@[map_a[k] as int] == i && K3.nzval@[map_a[k] as int] == A.nzval@[k] by {
        let r = A.rowval@[k] as int;
        let c = n + r;
        A.lemma_holds_ordered(i, k, i, k);
        assert(A.rowval@[k] < A.m);
        lemma_column_counts(P, A, cones, c);
        assert(K2.colptr@[c] == starts[c] + done2(c));
        assert(K3.colptr@[c] == starts[c] + done3(c));
        lemma_occurrences_monotone(A.rowval@, r, 0, k);
        lemma_occurrences_monotone(A.rowval@, r, k + 1, len);
    }
    assert forall|i: int, k: int| #[trigger] P.holds(i, k) implies K3.done_cell(
        starts,
        i,
        map_p[k] as int,
    ) && K3.rowval@[map_p[k] as int] == P.rowval@[k] && K3.nzval@[map_p[k] as int] == P.nzval@[k] by {
        assert(K2.done_cell(starts, i, map_p[k] as int));
    }
    assert forall|c: int| 0 <= c < n implies starts[c] < #[trigger] K3.colptr@[c] && K3.rowval@[K3.colptr@[c]
        - 1] == c by {
        lemma_column_counts(P, A, cones, c);
        assert(K2.colptr@[c] == starts[c] + done2(c));
        assert(K3.colptr@[c] == starts[c] + done3(c));
        assert(K2.done_cell(starts, c, K2.colptr@[c] - 1));
    }
    assert forall|c: int| 0 <= c < P.n && P.lacks_diagonal(c) implies starts[c] < #[trigger] K3.colptr@[c]
        && structural_zero(K3.nzval@[K3.colptr@[c] - 1]) by {
        lemma_column_counts(P, A, cones, c);
        assert(K2.colptr@[c] == starts[c] + done2(c));
        assert(K3.colptr@[c] == starts[c] + done3(c));
        assert(K2.done_cell(starts, c, K2.colptr@[c] - 1));
    }
}

/// The entries of every column that are in place once the blocks of the
/// problem data and the scaling blocks of the first `upto` cones are.
spec fn placed_with<T>(
    P: CscMatrix<T>,
    A: CscMatrix<T>,
    cones: Seq<SupportedCone>,
    upto: int,
) -> spec_fn(int) -> int {
    |c: int| placed_of(P, A, 3)(c) + scaling_count(cones, upto, P.n as int, c)
}

/// The bound under which the rows of every column stay once the scaling
/// blocks of the first `upto` cones are in place.
spec fn rows_with<T>(P: CscMatrix<T>, cones: Seq<SupportedCone>, upto: int) -> spec_fn(int) -> int {
    |c: int|
        if c < P.n + total_dim(cones, upto) {
            c + 1
        } else {
            P.n as int
        }
}

/// The state of the fill once the scaling blocks of the first `upto` cones
/// are in place.
spec fn scaling_state<T>(
    K: CscMatrix<T>,
    starts: Seq<usize>,
    P: CscMatrix<T>,
    A: CscMatrix<T>,
    cones: Seq<SupportedCone>,
    upto: int,
) -> bool {
    &&& K.fill_state(starts, total_of(P, A, cones), placed_with(P, A, cones, upto))
    &&& K.done_sorted(starts)
    &&& K.done_rows_below(starts, rows_with(P, cones, upto))
    &&& diag_last(K, starts, P.n + total_dim(cones, upto))
}

/// Position `pos` holds a structural zero in a row and a column of the
/// scaling block.
spec fn scaling_cell<T: Default>(K: CscMatrix<T>, starts: Seq<usize>, n: int, pos: int) -> bool {
    &&& exists|c: int| n <= c && #[trigger] K.done_cell(starts, c, pos)
    &&& n <= K.rowval@[pos]
    &&& structural_zero(K.nzval@[pos])
}

/// Every scaling entry stands in the KKT matrix as a structural zero, in a
/// row and a column of the scaling block, and no two stand at one position.
spec fn scaling_entries_placed<T: Default>(
    K: CscMatrix<T>,
    starts: Seq<usize>,
    n: int,
    hs: Seq<usize>,
) -> bool {
    &&& forall|p: int| 0 <= p < hs.len() ==> scaling_cell(K, starts, n, #[trigger] hs[p] as int)
    &&& forall|p1: int, p2: int| 0 <= p1 < p2 < hs.len() ==> hs[p1] != hs[p2]
}

/// The scaling entries of the first `upto` cones stand where the layout
/// puts them: those of a diagonal block on the diagonal, those of a dense
/// block in its upper triangle, column by column.
spec fn scaling_blocks_placed<T>(
    K: CscMatrix<T>,
    starts: Seq<usize>,
    cones: Seq<SupportedCone>,
    upto: int,
    n: int,
    hs: Seq<usize>,
) -> bool {
    &&& hs.len() == total_scaling_entries(cones, upto)
    &&& forall|i: int, t: int|
        0 <= i < upto && cones[i].has_diagonal_scaling() && 0 <= t < cones[i].dim() ==> {
            let p = #[trigger] scaling_slot(cones, i, t);
            let c = n + total_dim(cones, i) + t;
            &&& 0 <= p < hs.len()
            &&& K.done_cell(starts, c, hs[p] as int)
            &&& K.rowval@[hs[p] as int] == c
        }
    &&& forall|i: int, j: int, t: int|
        0 <= i < upto && !cones[i].has_diagonal_scaling() && 0 <= t <= j < cones[i].dim() ==> {
            let p = #[trigger] scaling_slot(cones, i, packed_index(j, t));
            let first = n + total_dim(cones, i);
            &&& 0 <= p < hs.len()
            &&& K.done_cell(starts, first + j, hs[p] as int)
            &&& K.rowval@[hs[p] as int] == first + t
        }
}

/// What a fill hands back to the assembly for the scaling block of `cone`,
/// placed from column `first` on: the positions in `block`, and the rows
/// written there.
spec fn block_written<T: Default>(
    Kp: CscMatrix<T>,
    K: CscMatrix<T>,
    cone: SupportedCone,
    first: int,
    block: Seq<usize>,
) -> bool {
    &&& block.len() == cone.scaling_entries()
    &&& K.filled(Kp, |c: int| cone_count(cone, first, c))
    &&& cone.has_diagonal_scaling() ==> forall|t: int|
        0 <= t < cone.dim() ==> {
            &&& #[trigger] block[t] == Kp.colptr@[first + t]
            &&& K.rowval@[block[t] as int] == first + t
            &&& structural_zero(K.nzval@[block[t] as int])
        }
    &&& !cone.has_diagonal_scaling() ==> forall|j: int, t: int|
        0 <= t <= j < cone.dim() ==> {
            &&& block[#[trigger] packed_index(j, t)] == Kp.colptr@[first + j] + t
            &&& K.rowval@[block[packed_index(j, t)] as int] == first + t
            &&& structural_zero(K.nzval@[block[packed_index(j, t)] as int])
        }
}

/// The counts of the scaling block of cone `i` fit what is left of the
/// columns.
proof fn lemma_cone_count_fits<T>(
    P: CscMatrix<T>,
    A: CscMatrix<T>,
    cones: Seq<SupportedCone>,
    i: int,
    c: int,
)
    requires
        P.well_formed(),
        A.well_formed(),
        A.rows_in_range(),
        0 <= i < cones.len(),
        0 <= c,
    ensures
        0 <= cone_count(cones[i], P.n + total_dim(cones, i), c),
        placed_with(P, A, cones, i)(c) + cone_count(cones[i], P.n + total_dim(cones, i), c)
            == placed_with(P, A, cones, i + 1)(c),
        placed_with(P, A, cones, i + 1)(c) <= total_of(P, A, cones)(c),
        0 <= placed_with(P, A, cones, i)(c),
        cone_count(cones[i], P.n + total_dim(cones, i), c) > 0 ==> P.n + total_dim(cones, i) <= c < P.n
            + total_dim(cones, i + 1),
{
    lemma_column_counts(P, A, cones, c);
    lemma_scaling_count_bounds(cones, i, P.n as int, c);
    lemma_scaling_count_monotone(cones, i + 1, cones.len() as int, P.n as int, c);
    lemma_totals_monotone(cones, 0, i);
}

/// The state of the fill after the scaling block of cone `i` was written.
#[verifier::rlimit(40)]
proof fn lemma_scaling_block_state<T: Default>(
    Kp: CscMatrix<T>,
    K: CscMatrix<T>,
    P: CscMatrix<T>,
    A: CscMatrix<T>,
    cones: Seq<SupportedCone>,
    starts: Seq<usize>,
    i: int,
    block: Seq<usize>,
)
    requires
        P.well_formed(),
        A.well_formed(),
        A.rows_in_range(),
        Kp.n == P.n + A.m,
        total_dim(cones, cones.len() as int) == A.m,
        0 <= i < cones.len(),
        scaling_state(Kp, starts, P, A, cones, i),
        block_written(Kp, K, cones[i], P.n + total_dim(cones, i), block),
    ensures
        scaling_state(K, starts, P, A, cones, i + 1),
        forall|c: int, d: int| #[trigger]
            Kp.done_cell(starts, c, d) ==> K.done_cell(starts, c, d) && K.rowval@[d] == Kp.rowval@[d]
                && K.nzval@[d] == Kp.nzval@[d],
{
    let n = P.n as int;
    let dim = Kp.n as int;
    let cone = cones[i];
    let first = n + total_dim(cones, i);
    let total = total_of(P, A, cones);
    let done = placed_with(P, A, cones, i);
    let done_next = placed_with(P, A, cones, i + 1);
    let count = |c: int| cone_count(cone, first, c);
    let lo = |c: int| n;
    let hi = rows_with(P, cones, i + 1);
    lemma_totals_monotone(cones, 0, i);
    lemma_totals_monotone(cones, i + 1, cones.len() as int);
    assert forall|c: int| 0 <= c < dim implies 0 <= #[trigger] count(c) && done(c) + count(c) <= total(c)
        && done_next(c) == done(c) + count(c) by {
        lemma_cone_count_fits(P, A, cones, i, c);
    }
    assert forall|c: int| 0 <= c < dim implies #[trigger] done_next(c) == done(c) + count(c) by {
        lemma_cone_count_fits(P, A, cones, i, c);
    }
    CscMatrix::lemma_fill_state_step(Kp, K, starts, total, done, count, done_next);
    assert forall|c: int, d: int| #[trigger] Kp.done_cell(starts, c, d) implies Kp.rowval@[d] < hi(c) && (
    count(c) > 0 ==> Kp.rowval@[d] < lo(c)) by {
        assert(Kp.rowval@[d] < rows_with(P, cones, i)(c));
        lemma_cone_count_fits(P, A, cones, i, c);
    }
    // the rows written, by column and place in the column
    assert forall|c: int, t: int| 0 <= c < dim && 0 <= t < count(c) implies K.rowval@[
        #[trigger] Kp.cursor_cell(c, t)] == (if cone.has_diagonal_scaling() {
        c
    } else {
        first + t
    }) && first <= c < first + cone.dim() by {
        let j = c - first;
        if cone.has_diagonal_scaling() {
            assert(block[j] == Kp.colptr@[first + j]);
        } else {
            assert(block[packed_index(j, t)] == Kp.colptr@[first + j] + t);
        }
    }
    assert forall|c: int, t: int| 0 <= c < dim && 0 <= t < count(c) implies lo(c)
        <= K.rowval@[#[trigger] Kp.cursor_cell(c, t)] < hi(c) by {
        assert(first <= c < first + cone.dim());
    }
    assert forall|c: int, t1: int, t2: int| 0 <= c < dim && 0 <= t1 < t2 < count(c) implies K.rowval@[
        #[trigger] Kp.cursor_cell(c, t1)] < K.rowval@[#[trigger] Kp.cursor_cell(c, t2)] by {
        assert(first <= c < first + cone.dim());
    }
    CscMatrix::lemma_fill_state_sorted(Kp, K, starts, total, done, count, lo, hi);
    assert forall|c: int| 0 <= c < first + cone.dim() implies starts[c] < #[trigger] K.colptr@[c]
        && K.rowval@[K.colptr@[c] - 1] == c by {
        lemma_cone_count_fits(P, A, cones, i, c);
        assert(Kp.colptr@[c] == starts[c] + done(c));
        assert(K.colptr@[c] == starts[c] + done_next(c));
        if c < first {
            assert(Kp.done_cell(starts, c, Kp.colptr@[c] - 1));
        } else {
            assert(K.colptr@[c] - 1 == Kp.cursor_cell(c, count(c) - 1));
        }
    }
}

/// The column of entry `q` of the scaling block of `cone`, placed from
/// column `first` on.
spec fn block_col(cone: SupportedCone, first: int, q: int) -> int {
    if cone.has_diagonal_scaling() {
        first + q
    } else {
        first + triangle_col(q)
    }
}

/// The place of entry `q` of the scaling block of `cone` among the entries
/// of the block in its column.
spec fn block_place(cone: SupportedCone, q: int) -> int {
    if cone.has_diagonal_scaling() {
        0
    } else {
        q - triangular(triangle_col(q))
    }
}

/// Entry `q` of a scaling block went to its column, as a structural zero in
/// a row of the scaling block.
spec fn block_cell<T: Default>(
    Kp: CscMatrix<T>,
    K: CscMatrix<T>,
    starts: Seq<usize>,
    cone: SupportedCone,
    first: int,
    block: Seq<usize>,
    q: int,
) -> bool {
    let c = block_col(cone, first, q);
    let t = block_place(cone, q);
    &&& first <= c < first + cone.dim()
    &&& c < Kp.n
    &&& 0 <= t < cone_count(cone, first, c)
    &&& block[q] == Kp.cursor_cell(c, t)
    &&& K.done_cell(starts, c, block[q] as int)
    &&& first <= K.rowval@[block[q] as int]
    &&& structural_zero(K.nzval@[block[q] as int])
}

/// Every entry of a scaling block went to its column.
spec fn block_cells<T: Default>(
    Kp: CscMatrix<T>,
    K: CscMatrix<T>,
    starts: Seq<usize>,
    cone: SupportedCone,
    first: int,
    block: Seq<usize>,
) -> bool {
    forall|q: int| 0 <= q < block.len() ==> #[trigger] block_cell(Kp, K, starts, cone, first, block, q)
}

/// Where the entries of the scaling block of cone `i` went.
proof fn lemma_block_cells<T: Default>(
    Kp: CscMatrix<T>,
    K: CscMatrix<T>,
    P: CscMatrix<T>,
    A: CscMatrix<T>,
    cones: Seq<SupportedCone>,
    starts: Seq<usize>,
    i: int,
    block: Seq<usize>,
)
    requires
        P.well_formed(),
        A.well_formed(),
        A.rows_in_range(),
        Kp.n == P.n + A.m,
        total_dim(cones, cones.len() as int) == A.m,
        0 <= i < cones.len(),
        Kp.fill_state(starts, total_of(P, A, cones), placed_with(P, A, cones, i)),
        K.fill_state(starts, total_of(P, A, cones), placed_with(P, A, cones, i + 1)),
        block_written(Kp, K, cones[i], P.n + total_dim(cones, i), block),
    ensures
        block_cells(Kp, K, starts, cones[i], P.n + total_dim(cones, i), block),
{
    let n = P.n as int;
    let cone = cones[i];
    let d = cone.dim();
    let first = n + total_dim(cones, i);
    let done = placed_with(P, A, cones, i);
    let done_next = placed_with(P, A, cones, i + 1);
    lemma_totals_monotone(cones, 0, i);
    lemma_totals_monotone(cones, i + 1, cones.len() as int);
    assert forall|q: int| 0 <= q < block.len() implies #[trigger] block_cell(
        Kp,
        K,
        starts,
        cone,
        first,
        block,
        q,
    ) by {
        let c = block_col(cone, first, q);
        let t = block_place(cone, q);
        if !cone.has_diagonal_scaling() {
            lemma_packed_index_onto(q, d);
            let j = triangle_col(q);
            assert(block[packed_index(j, t)] == Kp.colptr@[first + j] + t);
        } else {
            assert(block[q] == Kp.colptr@[first + q]);
        }
        lemma_cone_count_fits(P, A, cones, i, c);
        assert(Kp.colptr@[c] == starts[c] + done(c));
        assert(K.colptr@[c] == starts[c] + done_next(c));
    }
}

/// The scaling entries after the scaling block of cone `i` was written:
/// each in its place, no two in one.
#[verifier::rlimit(40)]
proof fn lemma_scaling_entries_kept<T: Default>(
    Kp: CscMatrix<T>,
    K: CscMatrix<T>,
    P: CscMatrix<T>,
    A: CscMatrix<T>,
    cones: Seq<SupportedCone>,
    starts: Seq<usize>,
    i: int,
    hs: Seq<usize>,
    block: Seq<usize>,
)
    requires
        P.well_formed(),
        A.well_formed(),
        A.rows_in_range(),
        Kp.n == P.n + A.m,
        total_dim(cones, cones.len() as int) == A.m,
        0 <= i < cones.len(),
        Kp.fill_state(starts, total_of(P, A, cones), placed_with(P, A, cones, i)),
        scaling_entries_placed(Kp, starts, P.n as int, hs),
        block_cells(Kp, K, starts, cones[i], P.n + total_dim(cones, i), block),
        block.len() == cones[i].scaling_entries(),
        forall|c: int, d: int| #[trigger]
            Kp.done_cell(starts, c, d) ==> K.done_cell(starts, c, d) && K.rowval@[d] == Kp.rowval@[d]
                && K.nzval@[d] == Kp.nzval@[d],
    ensures
        scaling_entries_placed(K, starts, P.n as int, hs + block),
{
    let n = P.n as int;
    let dim = Kp.n as int;
    let cone = cones[i];
    let d = cone.dim();
    let first = n + total_dim(cones, i);
    let total = total_of(P, A, cones);
    let done = placed_with(P, A, cones, i);
    let count = |c: int| cone_count(cone, first, c);
    let all = hs + block;
    let base = hs.len() as int;
    lemma_totals_monotone(cones, 0, i);
    assert forall|c: int| 0 <= c < dim implies 0 <= #[trigger] count(c) && done(c) + count(c) <= total(
        c,
    ) by {
        lemma_cone_count_fits(P, A, cones, i, c);
    }
    Kp.lemma_fill_state_has_room(starts, total, done, count);
    assert forall|p: int| 0 <= p < all.len() implies scaling_cell(K, starts, n, #[trigger] all[p] as int) by {
        if p < base {
            assert(all[p] == hs[p]);
            assert(scaling_cell(Kp, starts, n, hs[p] as int));
            let c = choose|c: int| n <= c && #[trigger] Kp.done_cell(starts, c, hs[p] as int);
            assert(K.done_cell(starts, c, all[p] as int));
        } else {
            let q = p - base;
            assert(all[p] == block[q]);
            assert(block_cell(Kp, K, starts, cone, first, block, q));
            assert(K.done_cell(starts, block_col(cone, first, q), all[p] as int));
        }
    }
    assert forall|p1: int, p2: int| 0 <= p1 < p2 < all.len() implies all[p1] != all[p2] by {
        if p2 < base {
            assert(all[p1] == hs[p1] && all[p2] == hs[p2]);
        } else {
            let q2 = p2 - base;
            assert(all[p2] == block[q2]);
            assert(block_cell(Kp, K, starts, cone, first, block, q2));
            let c2 = block_col(cone, first, q2);
            let t2 = block_place(cone, q2);
            if p1 < base {
                assert(all[p1] == hs[p1]);
                assert(scaling_cell(Kp, starts, n, hs[p1] as int));
                let c = choose|c: int| n <= c && #[trigger] Kp.done_cell(starts, c, hs[p1] as int);
                Kp.lemma_done_cell_not_written(starts, total, done, count, c, hs[p1] as int, c2, t2);
            } else {
                let q1 = p1 - base;
                assert(all[p1] == block[q1]);
                assert(block_cell(Kp, K, starts, cone, first, block, q1));
                let c1 = block_col(cone, first, q1);
                let t1 = block_place(cone, q1);
                Kp.lemma_cells_distinct(count, c1, t1, c2, t2);
                if !cone.has_diagonal_scaling() {
                    lemma_packed_index_onto(q1, d);
                    lemma_packed_index_onto(q2, d);
                }
            }
        }
    }
}

/// The positions of the scaling entries, block by block, after the scaling
/// block of cone `i` was written.
#[verifier::rlimit(40)]
proof fn lemma_scaling_blocks_kept<T: Default>(
    Kp: CscMatrix<T>,
    K: CscMatrix<T>,
    cones: Seq<SupportedCone>,
    starts: Seq<usize>,
    i: int,
    n: int,
    hs: Seq<usize>,
    block: Seq<usize>,
)
    requires
        0 <= i < cones.len(),
        scaling_blocks_placed(Kp, starts, cones, i, n, hs),
        block_cells(Kp, K, starts, cones[i], n + total_dim(cones, i), block),
        block.len() == cones[i].scaling_entries(),
        cones[i].has_diagonal_scaling() ==> forall|t: int|
            0 <= t < cones[i].dim() ==> K.rowval@[#[trigger] block[t] as int] == n + total_dim(cones, i) + t,
        !cones[i].has_diagonal_scaling() ==> forall|j: int, t: int|
            0 <= t <= j < cones[i].dim() ==> {
                &&& block[#[trigger] packed_index(j, t)] == Kp.colptr@[n + total_dim(cones, i) + j] + t
                &&& K.rowval@[block[packed_index(j, t)] as int] == n + total_dim(cones, i) + t
            },
        forall|c: int, d: int| #[trigger]
            Kp.done_cell(starts, c, d) ==> K.done_cell(starts, c, d) && K.rowval@[d] == Kp.rowval@[d]
                && K.nzval@[d] == Kp.nzval@[d],
    ensures
        scaling_blocks_placed(K, starts, cones, i + 1, n, hs + block),
{
    let cone = cones[i];
    let d = cone.dim();
    let first = n + total_dim(cones, i);
    let all = hs + block;
    lemma_totals_monotone(cones, 0, i);
    assert forall|i2: int, t: int|
        0 <= i2 < i + 1 && cones[i2].has_diagonal_scaling() && 0 <= t < cones[i2].dim() implies {
            let p = #[trigger] scaling_slot(cones, i2, t);
            let c = n + total_dim(cones, i2) + t;
            &&& 0 <= p < all.len()
            &&& K.done_cell(starts, c, all[p] as int)
            &&& K.rowval@[all[p] as int] == c
        } by {
        let p = scaling_slot(cones, i2, t);
        if i2 < i {
            assert(all[p] == hs[p]);
            assert(Kp.done_cell(starts, n + total_dim(cones, i2) + t, hs[p] as int));
        } else {
            assert(all[p] == block[t]);
            assert(block_cell(Kp, K, starts, cone, first, block, t));
        }
    }
    assert forall|i2: int, j: int, t: int|
        0 <= i2 < i + 1 && !cones[i2].has_diagonal_scaling() && 0 <= t <= j < cones[i2].dim() implies {
            let p = #[trigger] scaling_slot(cones, i2, packed_index(j, t));
            let f = n + total_dim(cones, i2);
            &&& 0 <= p < all.len()
            &&& K.done_cell(starts, f + j, all[p] as int)
            &&& K.rowval@[all[p] as int] == f + t
        } by {
        let p = scaling_slot(cones, i2, packed_index(j, t));
        if i2 < i {
            assert(all[p] == hs[p]);
            assert(Kp.done_cell(starts, n + total_dim(cones, i2) + j, hs[p] as int));
        } else {
            let q = packed_index(j, t);
            lemma_triangular_monotone(0, j);
            lemma_triangular_monotone(j + 1, d);
            assert(0 <= q < block.len());
            assert(all[p] == block[q]);
            assert(block_cell(Kp, K, starts, cone, first, block, q));
            assert(block[q] == Kp.colptr@[first + j] + t);
            lemma_packed_index_injective(
                j,
                t,
                triangle_col(q),
                q - triangular(triangle_col(q)),
            );
            lemma_packed_index_onto(q, d);
        }
    }
}

/// Everything that the assembly keeps track of while the scaling blocks are
/// written, once those of the first `upto` cones are in place.
#[verifier::opaque]
pub(crate) closed spec fn scaling_progress<T: Default>(
    K: CscMatrix<T>,
    starts: Seq<usize>,
    P: CscMatrix<T>,
    A: CscMatrix<T>,
    cones: Seq<SupportedCone>,
    upto: int,
    hs: Seq<usize>,
    map_p: Seq<usize>,
    map_a: Seq<usize>,
) -> bool {
    &&& K.n == P.n + A.m
    &&& scaling_state(K, starts, P, A, cones, upto)
    &&& scaling_entries_placed(K, starts, P.n as int, hs)
    &&& scaling_blocks_placed(K, starts, cones, upto, P.n as int, hs)
    &&& p_placed(K, starts, P, map_p)
    &&& a_placed(K, starts, A, P.n as int, map_a)
    &&& lacking_zeroed(K, starts, P)
}

/// Before the first scaling block is written.
pub(crate) proof fn lemma_scaling_begin<T: Default>(
    K: CscMatrix<T>,
    starts: Seq<usize>,
    P: CscMatrix<T>,
    A: CscMatrix<T>,
    cones: Seq<SupportedCone>,
    map_p: Seq<usize>,
    map_a: Seq<usize>,
)
    requires
        after_stage(K, starts, P, A, cones, 3, map_p, map_a),
    ensures
        scaling_progress(K, starts, P, A, cones, 0, Seq::<usize>::empty(), map_p, map_a),
{
    reveal(after_stage);
    reveal(scaling_progress);
    let done = placed_of(P, A, 3);
    let done0 = placed_with(P, A, cones, 0);
    assert forall|c: int| 0 <= c < K.n implies #[trigger] K.colptr@[c] == starts[c] + done0(c) && 0
        <= done0(c) <= total_of(P, A, cones)(c) by {
        assert(K.colptr@[c] == starts[c] + done(c));
    }
    assert forall|c: int, d: int| #[trigger] K.done_cell(starts, c, d) implies K.rowval@[d] < rows_with(
        P,
        cones,
        0,
    )(c) by {
        assert(K.rowval@[d] < rows_of(P, 3)(c));
    }
}

/// There is room for the scaling block of cone `i`.
proof fn lemma_scaling_block_room<T: Default>(
    K: CscMatrix<T>,
    starts: Seq<usize>,
    P: CscMatrix<T>,
    A: CscMatrix<T>,
    cones: Seq<SupportedCone>,
    i: int,
    hs: Seq<usize>,
    map_p: Seq<usize>,
    map_a: Seq<usize>,
)
    requires
        P.well_formed(),
        A.well_formed(),
        A.rows_in_range(),
        total_dim(cones, cones.len() as int) == A.m,
        total_scaling_entries(cones, cones.len() as int) <= usize::MAX,
        0 <= i < cones.len(),
        scaling_progress(K, starts, P, A, cones, i, hs, map_p, map_a),
    ensures
        P.n + total_dim(cones, i) + cones[i].dim() <= K.n,
        0 <= total_dim(cones, i),
        0 <= cones[i].scaling_entries() <= usize::MAX,
        cones[i].has_diagonal_scaling() ==> K.has_room(
            |c: int| diag_count(P.n + total_dim(cones, i), cones[i].dim(), c),
        ),
        !cones[i].has_diagonal_scaling() ==> K.has_room(
            |c: int| triangle_count(P.n + total_dim(cones, i), cones[i].dim(), MatrixTriangle::Triu, c),
        ),
{
    reveal(scaling_progress);
    let cone = cones[i];
    let first = P.n + total_dim(cones, i);
    let count = |c: int| cone_count(cone, first, c);
    lemma_totals_monotone(cones, 0, i);
    lemma_totals_monotone(cones, i + 1, cones.len() as int);
    lemma_triangular_monotone(0, cone.dim());
    assert forall|c: int| 0 <= c < K.n implies 0 <= #[trigger] count(c) && placed_with(P, A, cones, i)(c)
        + count(c) <= total_of(P, A, cones)(c) by {
        lemma_cone_count_fits(P, A, cones, i, c);
    }
    K.lemma_fill_state_has_room(starts, total_of(P, A, cones), placed_with(P, A, cones, i), count);
    if cone.has_diagonal_scaling() {
        let other = |c: int| diag_count(first, cone.dim(), c);
        assert forall|c1: int, c2: int| 0 <= c1 < c2 <= K.n implies K.colptr@[c1] + other(c1)
            <= K.colptr@[c2] by {
            assert(K.colptr@[c1] + count(c1) <= K.colptr@[c2]);
        }
    } else {
        let other = |c: int| triangle_count(first, cone.dim(), MatrixTriangle::Triu, c);
        assert forall|c1: int, c2: int| 0 <= c1 < c2 <= K.n implies K.colptr@[c1] + other(c1)
            <= K.colptr@[c2] by {
            assert(K.colptr@[c1] + count(c1) <= K.colptr@[c2]);
        }
    }
}

/// After the scaling block of cone `i` was written.
proof fn lemma_scaling_block_done<T: Default>(
    Kp: CscMatrix<T>,
    K: CscMatrix<T>,
    starts: Seq<usize>,
    P: CscMatrix<T>,
    A: CscMatrix<T>,
    cones: Seq<SupportedCone>,
    i: int,
    hs: Seq<usize>,
    block: Seq<usize>,
    map_p: Seq<usize>,
    map_a: Seq<usize>,
)
    requires
        P.well_formed(),
        A.well_formed(),
        A.rows_in_range(),
        total_dim(cones, cones.len() as int) == A.m,
        0 <= i < cones.len(),
        scaling_progress(Kp, starts, P, A, cones, i, hs, map_p, map_a),
        block.len() == cones[i].scaling_entries(),
        cones[i].has_diagonal_scaling() ==> K.filled(
            Kp,
            |c: int| diag_count(P.n + total_dim(cones, i), cones[i].dim(), c),
        ),
        !cones[i].has_diagonal_scaling() ==> K.filled(
            Kp,
            |c: int| triangle_count(P.n + total_dim(cones, i), cones[i].dim(), MatrixTriangle::Triu, c),
        ),
        cones[i].has_diagonal_scaling() ==> forall|t: int|
            0 <= t < cones[i].dim() ==> {
                &&& #[trigger] block[t] == Kp.colptr@[P.n + total_dim(cones, i) + t]
                &&& K.rowval@[block[t] as int] == P.n + total_dim(cones, i) + t
                &&& structural_zero(K.nzval@[block[t] as int])
            },
        !cones[i].has_diagonal_scaling() ==> forall|j: int, t: int|
            0 <= t <= j < cones[i].dim() ==> {
                &&& block[#[trigger] packed_index(j, t)] == Kp.colptr@[P.n + total_dim(cones, i) + j] + t
                &&& K.rowval@[block[packed_index(j, t)] as int] == P.n + total_dim(cones, i) + t
                &&& structural_zero(K.nzval@[block[packed_index(j, t)] as int])
            },
    ensures
        scaling_progress(K, starts, P, A, cones, i + 1, hs + block, map_p, map_a),
{
    reveal(scaling_progress);
    let cone = cones[i];
    let first = P.n + total_dim(cones, i);
    if cone.has_diagonal_scaling() {
        CscMatrix::lemma_filled_same(
            Kp,
            K,
            |c: int| diag_count(first, cone.dim(), c),
            |c: int| cone_count(cone, first, c),
        );
    } else {
        CscMatrix::lemma_filled_same(
            Kp,
            K,
            |c: int| triangle_count(first, cone.dim(), MatrixTriangle::Triu, c),
            |c: int| cone_count(cone, first, c),
        );
    }
    assert(block_written(Kp, K, cone, first, block));
    lemma_scaling_block_state(Kp, K, P, A, cones, starts, i, block);
    lemma_block_cells(Kp, K, P, A, cones, starts, i, block);
    lemma_scaling_entries_kept(Kp, K, P, A, cones, starts, i, hs, block);
    lemma_scaling_blocks_kept(Kp, K, cones, starts, i, P.n as int, hs, block);
    assert forall|i2: int, k: int| #[trigger] P.holds(i2, k) implies K.done_cell(
        starts,
        i2,
        map_p[k] as int,
    ) && K.rowval@[map_p[k] as int] == P.rowval@[k] && K.nzval@[map_p[k] as int] == P.nzval@[k] by {
        assert(Kp.done_cell(starts, i2, map_p[k] as int));
    }
    assert forall|i2: int, k: int| #[trigger] A.holds(i2, k) implies K.done_cell(
        starts,
        P.n + A.rowval@[k],
        map_a[k] as int,
    ) && K.rowval@[map_a[k] as int] == i2 && K.nzval@[map_a[k] as int] == A.nzval@[k] by {
        assert(Kp.done_cell(starts, P.n + A.rowval@[k], map_a[k] as int));
    }
    assert forall|c: int| 0 <= c < P.n && P.lacks_diagonal(c) implies starts[c] < #[trigger] K.colptr@[c]
        && structural_zero(K.nzval@[K.colptr@[c] - 1]) by {
        lemma_cone_count_fits(P, A, cones, i, c);
        lemma_totals_monotone(cones, 0, i);
        assert(Kp.colptr@[c] == starts[c] + placed_with(P, A, cones, i)(c));
        assert(K.colptr@[c] == starts[c] + placed_with(P, A, cones, i + 1)(c));
        assert(Kp.done_cell(starts, c, Kp.colptr@[c] - 1));
    }
}

/// Fills in the scaling blocks, on the diagonal in the lower right, as
/// structural zeros. Returns the positions of the scaling entries.
pub(crate) fn place_scaling_blocks<T: Copy + Default>(
    K: &mut CscMatrix<T>,
    P: &CscMatrix<T>,
    A: &CscMatrix<T>,
    cones: &Vec<SupportedCone>,
    Ghost(starts): Ghost<Seq<usize>>,
    Ghost(map_p): Ghost<Seq<usize>>,
    Ghost(map_a): Ghost<Seq<usize>>,
) -> (hs: Vec<usize>)
    requires
        P.well_formed(),
        A.well_formed(),
        A.rows_in_range(),
        total_dim(cones@, cones@.len() as int) == A.m,
        total_scaling_entries(cones@, cones@.len() as int) <= usize::MAX,
        scaling_progress(*old(K), starts, *P, *A, cones@, 0, Seq::<usize>::empty(), map_p, map_a),
    ensures
        final(K).m == old(K).m,
        final(K).colptr@.len() == final(K).n + 1,
        scaling_progress(*final(K), starts, *P, *A, cones@, cones@.len() as int, hs@, map_p, map_a),
{
    let n: usize = P.n;
    let mut hs: Vec<usize> = Vec::new();
    let mut firstcol: usize = n;
    let mut i: usize = 0;
    while i < cones.len()
        invariant
            i <= cones.len(),
            n == P.n,
            P.well_formed(),
            A.well_formed(),
            A.rows_in_range(),
            total_dim(cones@, cones@.len() as int) == A.m,
            total_scaling_entries(cones@, cones@.len() as int) <= usize::MAX,
            firstcol == n + total_dim(cones@, i as int),
            K.m == old(K).m,
            scaling_progress(*K, starts, *P, *A, cones@, i as int, hs@, map_p, map_a),
        decreases cones.len() - i,
    {
        let cone: SupportedCone = cones[i];
        let d: usize = cone.nvars();
        let ghost Kp = *K;
        let ghost hp = hs@;
        proof {
            lemma_scaling_block_room(Kp, starts, *P, *A, cones@, i as int, hp, map_p, map_a);
        }
        let mut block: Vec<usize>;
        if cone.hs_is_diagonal() {
            block = zero_indices(d);
            K.fill_diag(block.as_mut_slice(), firstcol, d);
        } else {
            block = zero_indices(triangular_number(d).unwrap());
            K.fill_dense_triangle(block.as_mut_slice(), firstcol, d, MatrixTriangle::Triu);
        }
        proof {
            lemma_scaling_block_done(Kp, *K, starts, *P, *A, cones@, i as int, hp, block@, map_p, map_a);
        }
        hs.append(&mut block);
        firstcol += d;
        i += 1;
    }
    assert(K.colptr@.len() == K.n + 1) by {
        reveal(scaling_progress);
    }
    hs
}

/// What the fill leaves behind, read off the matrix with its column offsets
/// restored.
#[verifier::rlimit(40)]
pub(crate) proof fn lemma_assembled<T: Default>(
    full: CscMatrix<T>,
    K: CscMatrix<T>,
    starts: Seq<usize>,
    P: CscMatrix<T>,
    A: CscMatrix<T>,
    cones: Seq<SupportedCone>,
    hs: Seq<usize>,
    map_p: Seq<usize>,
    map_a: Seq<usize>,
)
    requires
        P.well_formed(),
        A.well_formed(),
        A.rows_in_range(),
        total_dim(cones, cones.len() as int) == A.m,
        full.m == P.n + A.m,
        scaling_progress(full, starts, P, A, cones, cones.len() as int, hs, map_p, map_a),
        K.m == full.m,
        K.n == full.n,
        K.rowval@ == full.rowval@,
        K.nzval@ == full.nzval@,
        K.colptr@.len() == full.colptr@.len(),
        K.colptr@[0] == 0,
        forall|c: int| 1 <= c < K.colptr@.len() ==> #[trigger] K.colptr@[c] == full.colptr@[c - 1],
    ensures
        K.is_canonical(),
        K.is_upper_triangular(),
        K.colptr@ =~= starts,
        cost_mapped(K, P, map_p),
        constraints_mapped(K, A, P.n as int, map_a),
        scaling_mapped(K, cones, P.n as int, hs),
        forall|p: int| 0 <= p < hs.len() ==> structural_zero(K.nzval@[#[trigger] hs[p] as int]),
        forall|c: int|
            0 <= c < K.n ==> #[trigger] K.colptr@[c] < K.colptr@[c + 1] && K.rowval@[K.colptr@[c + 1] - 1]
                == c,
        forall|c: int|
            0 <= c < P.n && P.lacks_diagonal(c) ==> structural_zero(
                K.nzval@[#[trigger] K.colptr@[c + 1] - 1],
            ),
{
    reveal(scaling_progress);
    let n = P.n as int;
    let dim = full.n as int;
    let len = cones.len() as int;
    let total = total_of(P, A, cones);
    let done = placed_with(P, A, cones, len);
    assert forall|c: int| 0 <= c < dim implies #[trigger] full.colptr@[c] == starts[c] + total(c) && 0
        <= total(c) <= total(c) by {
        assert(full.colptr@[c] == starts[c] + done(c));
        lemma_column_counts(P, A, cones, c);
    }
    assert(full.fill_state(starts, total, total));
    assert forall|c: int, d: int| #[trigger] full.done_cell(starts, c, d) implies full.rowval@[d] < (|
        c: int,
    | full.m as int)(c) by {
        assert(full.rowval@[d] < rows_with(P, cones, len)(c));
    }
    CscMatrix::lemma_full_fill_is_canonical(full, K, starts, total);
    assert forall|c: int, k: int| #[trigger] K.holds(c, k) implies K.rowval@[k] <= c by {
        assert(full.done_cell(starts, c, k));
        assert(full.rowval@[k] < rows_with(P, cones, len)(c));
    }
    assert forall|i: int, k: int| #[trigger] P.holds(i, k) implies K.holds(i, map_p[k] as int) by {
        assert(full.done_cell(starts, i, map_p[k] as int));
    }
    assert forall|i: int, k: int| #[trigger] A.holds(i, k) implies K.holds(
        n + A.rowval@[k],
        map_a[k] as int,
    ) by {
        assert(full.done_cell(starts, n + A.rowval@[k], map_a[k] as int));
    }
    assert forall|p: int| 0 <= p < hs.len() implies in_scaling_rows(K, n, #[trigger] hs[p] as int)
        && structural_zero(K.nzval@[hs[p] as int]) by {
        assert(scaling_cell(full, starts, n, hs[p] as int));
        let c = choose|c: int| n <= c && #[trigger] full.done_cell(starts, c, hs[p] as int);
        assert(K.holds(c, hs[p] as int));
        assert(K.colptr@[c + 1] <= K.colptr@[K.n as int]);
    }
    assert forall|i: int, t: int|
        0 <= i < cones.len() && cones[i].has_diagonal_scaling() && 0 <= t < cones[i].dim() implies {
            let p = #[trigger] scaling_slot(cones, i, t);
            let c = n + total_dim(cones, i) + t;
            &&& 0 <= p < hs.len()
            &&& K.holds(c, hs[p] as int)
            &&& K.rowval@[hs[p] as int] == c
        } by {
        let p = scaling_slot(cones, i, t);
        assert(full.done_cell(starts, n + total_dim(cones, i) + t, hs[p] as int));
    }
    assert forall|i: int, j: int, t: int|
        0 <= i < cones.len() && !cones[i].has_diagonal_scaling() && 0 <= t <= j < cones[i].dim() implies {
            let p = #[trigger] scaling_slot(cones, i, packed_index(j, t));
            let first = n + total_dim(cones, i);
            &&& 0 <= p < hs.len()
            &&& K.holds(first + j, hs[p] as int)
            &&& K.rowval@[hs[p] as int] == first + t
        } by {
        let p = scaling_slot(cones, i, packed_index(j, t));
        assert(full.done_cell(starts, n + total_dim(cones, i) + j, hs[p] as int));
    }
    assert forall|c: int| 0
        <= c < K.n implies #[trigger] K.colptr@[c] < K.colptr@[c + 1] && K.rowval@[K.colptr@[c
        + 1] - 1] == c by {
        assert(starts[c] < full.colptr@[c] && full.rowval@[full.colptr@[c] - 1] == c);
        assert(K.colptr@[c + 1] == full.colptr@[c + 1 - 1]);
    }
    assert forall|c: int| 0 <= c < P.n && P.lacks_diagonal(c) implies structural_zero(
        K.nzval@[#[trigger] K.colptr@[c + 1] - 1],
    ) by {
        assert(starts[c] < full.colptr@[c]);
        assert(K.colptr@[c + 1] == full.colptr@[c + 1 - 1]);
    }
}

/// A vector of `len` structural zeros.
pub(crate) fn structural_zeros<T: Copy + Default>(len: usize) -> (v: Vec<T>)
    ensures
        v@.len() == len,
        forall|k: int| 0 <= k < len ==> structural_zero(#[trigger] v@[k]),
{
    let mut v: Vec<T> = Vec::new();
    let mut k: usize = 0;
    while k < len
        invariant
            k <= len,
            v@.len() == k,
            forall|j: int| 0 <= j < k ==> structural_zero(#[trigger] v@[j]),
        decreases len - k,
    {
        v.push(T::default());
        k += 1;
    }
    v
}

/// After the scan of the counted columns, and with value arrays of the size
/// that the scan found, the fill can begin.
pub(crate) proof fn lemma_scan_begins_fill<T: Default>(
    counted: CscMatrix<T>,
    K: CscMatrix<T>,
    P: CscMatrix<T>,
    A: CscMatrix<T>,
    cones: Seq<SupportedCone>,
)
    requires
        P.well_formed(),
        A.well_formed(),
        A.rows_in_range(),
        counted.n == P.n + A.m,
        counted.colptr@.len() == counted.n + 1,
        forall|c: int|
            0 <= c < counted.n ==> #[trigger] counted.colptr@[c] == kkt_column_count(P, A, cones, c),
        K.n == counted.n,
        K.colptr@.len() == counted.colptr@.len(),
        forall|c: int|
            0 <= c < K.colptr@.len() ==> #[trigger] K.colptr@[c] == prefix_sum(counted.colptr@, c),
        K.rowval@.len() == prefix_sum(counted.colptr@, counted.n as int),
        K.nzval@.len() == K.rowval@.len(),
    ensures
        after_stage(K, K.colptr@, P, A, cones, 0, Seq::<usize>::empty(), Seq::<usize>::empty()),
        forall|c: int|
            0 <= c < K.n ==> K.colptr@[c + 1] - #[trigger] K.colptr@[c] == kkt_column_count(P, A, cones, c),
{
    reveal(after_stage);
    let starts = K.colptr@;
    let total = total_of(P, A, cones);
    let dim = K.n as int;
    assert forall|i: int, j: int| 0 <= i <= j <= dim implies starts[i] <= starts[j] by {
        lemma_prefix_sum_monotone(counted.colptr@, i, j);
        assert(K.colptr@[i] == prefix_sum(counted.colptr@, i));
        assert(K.colptr@[j] == prefix_sum(counted.colptr@, j));
    }
    assert forall|c: int| 0 <= c < dim implies starts[c + 1] == starts[c] + #[trigger] total(c) by {
        assert(K.colptr@[c] == prefix_sum(counted.colptr@, c));
        assert(K.colptr@[c + 1] == prefix_sum(counted.colptr@, c + 1));
        assert(counted.colptr@[c] == kkt_column_count(P, A, cones, c));
    }
    assert forall|c: int| 0 <= c < dim implies #[trigger] K.colptr@[c] == starts[c] + placed_of(P, A, 0)(
        c,
    ) && 0 <= placed_of(P, A, 0)(c) <= total(c) by {
        lemma_column_counts(P, A, cones, c);
    }
    assert(K.colptr@[0] == prefix_sum(counted.colptr@, 0));
    assert(K.colptr@[dim] == prefix_sum(counted.colptr@, dim));
    assert forall|c: int| 0 <= c < K.n implies K.colptr@[c + 1] - #[trigger] K.colptr@[c]
        == kkt_column_count(P, A, cones, c) by {
        assert(starts[c + 1] == starts[c] + total(c));
    }
}

} // verus!
