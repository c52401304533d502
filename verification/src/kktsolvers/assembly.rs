//! The KKT matrix of a problem: its layout, its assembly, and the maps from
//! the problem data into it.

#![allow(non_snake_case)]
use vstd::prelude::*;
use crate::algebra::counting::{
    diag_count, lemma_occurrences_monotone, lemma_prefix_sum_monotone, occurrences, prefix_sum,
    triangle_count,
};
use crate::algebra::filling::packed_index;
use crate::algebra::matrix::{structural_zero, CscMatrix, MatrixShape, MatrixTriangle};
use crate::cones::{
    dimension, lemma_totals_monotone, scaling_len, total_dim, total_scaling_entries, SupportedCone,
};
use crate::kktsolvers::placement::{
    lemma_assembled, lemma_scaling_begin, lemma_scan_begins_fill, place_constraint_block,
    place_cost_block, place_cost_diagonal, place_scaling_blocks, structural_zeros, zero_indices,
};

verus! {

/// Entries that the scaling block of `cone`, placed on the diagonal from
/// column `firstcol` on, puts into column `c`: one for a diagonal block, and
/// for a dense block the part of the column in the upper triangle.
pub open spec fn cone_count(cone: SupportedCone, firstcol: int, c: int) -> int {
    if cone.has_diagonal_scaling() {
        diag_count(firstcol, cone.dim(), c)
    } else {
        triangle_count(firstcol, cone.dim(), MatrixTriangle::Triu, c)
    }
}

/// Entries that the scaling blocks of the first `upto` cones put into column
/// `c`, where the block of the first cone starts at column `n`.
pub open spec fn scaling_count(cones: Seq<SupportedCone>, upto: int, n: int, c: int) -> int
    decreases upto,
{
    if upto <= 0 {
        0
    } else {
        scaling_count(cones, upto - 1, n, c) + cone_count(
            cones[upto - 1],
            n + total_dim(cones, upto - 1),
            c,
        )
    }
}

/// Entries of column `c` of the KKT matrix of `P`, `A` and `cones`: the
/// column of `P`, its diagonal entry where `P` lacks it, the row of `A`, and
/// the column of the scaling block.
pub open spec fn kkt_column_count<T>(
    P: CscMatrix<T>,
    A: CscMatrix<T>,
    cones: Seq<SupportedCone>,
    c: int,
) -> int {
    P.block_count(0, MatrixShape::N, c) + P.missing_diag_count(0, c) + A.block_count(
        P.n as int,
        MatrixShape::T,
        c,
    ) + scaling_count(cones, cones.len() as int, P.n as int, c)
}

/// Entries of the first `upto` columns of the KKT matrix.
pub open spec fn kkt_nnz<T>(P: CscMatrix<T>, A: CscMatrix<T>, cones: Seq<SupportedCone>, upto: int) -> int
    decreases upto,
{
    if upto <= 0 {
        0
    } else {
        kkt_nnz(P, A, cones, upto - 1) + kkt_column_count(P, A, cones, upto - 1)
    }
}

/// Position of scaling entry `q` of cone `i` among all scaling entries.
pub open spec fn scaling_slot(cones: Seq<SupportedCone>, i: int, q: int) -> int {
    total_scaling_entries(cones, i) + q
}

/// Why a KKT matrix could not be assembled.
#[derive(Clone, Copy, Debug, PartialEq, Eq, Structural)]
pub enum AssemblyError {
    /// The cost matrix is not square, the constraint matrix has another
    /// number of columns, or the cones do not add up to its number of rows.
    DimensionMismatch,
    /// The sizes of the problem or of its KKT matrix exceed a machine word.
    TooLarge,
}

/// The sizes agree: `P` is square, `A` has as many columns, and the
/// dimensions of the cones add up to the number of rows of `A`.
pub open spec fn dimensions_agree<T>(P: CscMatrix<T>, A: CscMatrix<T>, cones: Seq<SupportedCone>) -> bool {
    &&& P.m == P.n
    &&& A.n == P.n
    &&& total_dim(cones, cones.len() as int) == A.m
}

/// The sizes fit a machine word: the dimension and the stored entries of the
/// problem, the scaling entries, and the entries of the KKT matrix.
pub open spec fn sizes_fit<T>(P: CscMatrix<T>, A: CscMatrix<T>, cones: Seq<SupportedCone>) -> bool {
    &&& P.n + A.m + P.rowval@.len() + A.rowval@.len() < usize::MAX
    &&& total_scaling_entries(cones, cones.len() as int) <= usize::MAX
    &&& kkt_nnz(P, A, cones, P.n + A.m) <= usize::MAX
}

/// Every entry of `P` stands in `K` in its own row and column, with its
/// value, at the position that `map` gives.
pub open spec fn cost_mapped<T>(K: CscMatrix<T>, P: CscMatrix<T>, map: Seq<usize>) -> bool {
    &&& map.len() == P.rowval@.len()
    &&& forall|i: int, k: int| #[trigger]
        P.holds(i, k) ==> {
            &&& K.holds(i, map[k] as int)
            &&& K.rowval@[map[k] as int] == P.rowval@[k]
            &&& K.nzval@[map[k] as int] == P.nzval@[k]
        }
}

/// Every entry of `A` stands in `K` transposed, `n` columns to the right,
/// with its value, at the position that `map` gives.
pub open spec fn constraints_mapped<T>(K: CscMatrix<T>, A: CscMatrix<T>, n: int, map: Seq<usize>) -> bool {
    &&& map.len() == A.rowval@.len()
    &&& forall|i: int, k: int| #[trigger]
        A.holds(i, k) ==> {
            &&& K.holds(n + A.rowval@[k], map[k] as int)
            &&& K.rowval@[map[k] as int] == i
            &&& K.nzval@[map[k] as int] == A.nzval@[k]
        }
}

/// Position `pos` of the value arrays of `K` lies in a row of the scaling
/// block, which begins at row `n`.
pub open spec fn in_scaling_rows<T>(K: CscMatrix<T>, n: int, pos: int) -> bool {
    0 <= pos < K.rowval@.len() && n <= K.rowval@[pos]
}

/// Every scaling entry stands in `K` where the layout puts it, `n` rows
/// down and `n` columns to the right, at the position that `map` gives: the
/// entries of a diagonal block on the diagonal, those of a dense block in
/// its upper triangle, column by column. No two entries share a position.
pub open spec fn scaling_mapped<T>(
    K: CscMatrix<T>,
    cones: Seq<SupportedCone>,
    n: int,
    map: Seq<usize>,
) -> bool {
    &&& map.len() == total_scaling_entries(cones, cones.len() as int)
    &&& forall|i: int, t: int|
        0 <= i < cones.len() && cones[i].has_diagonal_scaling() && 0 <= t < cones[i].dim() ==> {
            let p = #[trigger] scaling_slot(cones, i, t);
            let c = n + total_dim(cones, i) + t;
            &&& 0 <= p < map.len()
            &&& K.holds(c, map[p] as int)
            &&& K.rowval@[map[p] as int] == c
        }
    &&& forall|i: int, j: int, t: int|
        0 <= i < cones.len() && !cones[i].has_diagonal_scaling() && 0 <= t <= j < cones[i].dim() ==> {
            let p = #[trigger] scaling_slot(cones, i, packed_index(j, t));
            let first = n + total_dim(cones, i);
            &&& 0 <= p < map.len()
            &&& K.holds(first + j, map[p] as int)
            &&& K.rowval@[map[p] as int] == first + t
        }
    &&& forall|p: int| 0 <= p < map.len() ==> in_scaling_rows(K, n, #[trigger] map[p] as int)
    &&& forall|p1: int, p2: int| 0 <= p1 < p2 < map.len() ==> map[p1] != map[p2]
}

/// The last entry of every column of `K` is the one on the diagonal, at the
/// position that `map` gives.
pub open spec fn diagonal_mapped<T>(K: CscMatrix<T>, map: Seq<usize>) -> bool {
    &&& map.len() == K.n
    &&& forall|c: int|
        0 <= c < K.n ==> {
            &&& K.holds(c, #[trigger] map[c] as int)
            &&& map[c] == K.colptr@[c + 1] - 1
            &&& K.rowval@[map[c] as int] == c
        }
}

/// The KKT matrix of a problem, stored as its upper triangle, together with
/// the problem data that it was assembled from and the maps from the
/// entries of the data to their positions in the matrix.
///
/// With `n` columns in `P` and `m` rows in `A` the matrix has `n + m` rows
/// and columns: `P` in the upper left, `A` transposed in the upper right,
/// the scaling blocks of the cones on the diagonal in the lower right, and
/// an entry on every diagonal place.
#[derive(Debug)]
pub struct KKTAssembler<T> {
    /// The upper triangle of the cost matrix.
    pub P: CscMatrix<T>,
    /// The constraint matrix.
    pub A: CscMatrix<T>,
    /// The cones, in the order of their blocks.
    pub cones: Vec<SupportedCone>,
    /// The assembled matrix.
    pub KKT: CscMatrix<T>,
    /// Position in `KKT` of every stored entry of `P`.
    pub PtoKKT: Vec<usize>,
    /// Position in `KKT` of every stored entry of `A`.
    pub AtoKKT: Vec<usize>,
    /// Position in `KKT` of every stored scaling entry.
    pub HtoKKT: Vec<usize>,
    /// Position in `KKT` of every diagonal entry.
    pub diagtoKKT: Vec<usize>,
}

impl<T> KKTAssembler<T> {
    /// The matrix is in canonical form and upper triangular, the problem
    /// data are, the sizes agree, and every map leads to the entries that it
    /// is a map of.
    pub open spec fn well_formed(&self) -> bool {
        &&& self.P.is_canonical()
        &&& self.P.is_upper_triangular()
        &&& self.A.is_canonical()
        &&& dimensions_agree(self.P, self.A, self.cones@)
        &&& self.KKT.is_canonical()
        &&& self.KKT.is_upper_triangular()
        &&& self.KKT.m == self.P.n + self.A.m
        &&& self.KKT.n == self.P.n + self.A.m
        &&& cost_mapped(self.KKT, self.P, self.PtoKKT@)
        &&& constraints_mapped(self.KKT, self.A, self.P.n as int, self.AtoKKT@)
        &&& scaling_mapped(self.KKT, self.cones@, self.P.n as int, self.HtoKKT@)
        &&& diagonal_mapped(self.KKT, self.diagtoKKT@)
    }

    /// `self` and `before` have the same structure: the same pattern of the
    /// matrix and of the problem data, the same cones and the same maps.
    /// Only values may differ.
    pub open spec fn same_structure(&self, before: Self) -> bool {
        &&& self.KKT.m == before.KKT.m
        &&& self.KKT.n == before.KKT.n
        &&& self.KKT.colptr@ == before.KKT.colptr@
        &&& self.KKT.rowval@ == before.KKT.rowval@
        &&& self.KKT.nzval@.len() == before.KKT.nzval@.len()
        &&& self.P.m == before.P.m
        &&& self.P.n == before.P.n
        &&& self.P.colptr@ == before.P.colptr@
        &&& self.P.rowval@ == before.P.rowval@
        &&& self.P.nzval@.len() == before.P.nzval@.len()
        &&& self.A.m == before.A.m
        &&& self.A.n == before.A.n
        &&& self.A.colptr@ == before.A.colptr@
        &&& self.A.rowval@ == before.A.rowval@
        &&& self.A.nzval@.len() == before.A.nzval@.len()
        &&& self.cones@ == before.cones@
        &&& self.PtoKKT@ == before.PtoKKT@
        &&& self.AtoKKT@ == before.AtoKKT@
        &&& self.HtoKKT@ == before.HtoKKT@
        &&& self.diagtoKKT@ == before.diagtoKKT@
    }
}

impl<T: Copy + Default> KKTAssembler<T> {
    /// Assembles the KKT matrix of `P`, `A` and `cones`, every scaling entry
    /// and every diagonal entry that `P` lacks a structural zero.
    ///
    /// Fails with `DimensionMismatch` where the sizes do not agree, and with
    /// `TooLarge` where they agree and do not fit a machine word.
    #[verifier::rlimit(40)]
    pub fn new(P: CscMatrix<T>, A: CscMatrix<T>, cones: Vec<SupportedCone>) -> (r: Result<
        Self,
        AssemblyError,
    >)
        requires
            P.is_canonical(),
            P.is_upper_triangular(),
            A.is_canonical(),
        ensures
            r.is_ok() <==> dimensions_agree(P, A, cones@) && sizes_fit(P, A, cones@),
            r == Err::<Self, AssemblyError>(AssemblyError::DimensionMismatch) <==> !dimensions_agree(
                P,
                A,
                cones@,
            ),
            r matches Ok(kkt) ==> {
                &&& kkt.well_formed()
                &&& kkt.P == P
                &&& kkt.A == A
                &&& kkt.cones == cones
                &&& kkt.KKT.rowval@.len() == kkt_nnz(P, A, cones@, P.n + A.m)
                &&& forall|c: int|
                    0 <= c < P.n + A.m ==> kkt.KKT.colptr@[c + 1] - #[trigger] kkt.KKT.colptr@[c]
                        == kkt_column_count(P, A, cones@, c)
                &&& forall|p: int|
                    0 <= p < kkt.HtoKKT@.len() ==> structural_zero(
                        kkt.KKT.nzval@[#[trigger] kkt.HtoKKT@[p] as int],
                    )
                &&& forall|c: int|
                    0 <= c < P.n && P.lacks_diagonal(c) ==> structural_zero(
                        kkt.KKT.nzval@[#[trigger] kkt.diagtoKKT@[c] as int],
                    )
            },
    {
        let n: usize = P.n;
        let m: usize = A.m;
        proof {
            lemma_totals_monotone(cones@, 0, cones@.len() as int);
        }
        if P.m != n || A.n != n {
            return Err(AssemblyError::DimensionMismatch);
        }
        match dimension(&cones) {
            Some(dims) => {
                if dims != m {
                    return Err(AssemblyError::DimensionMismatch);
                }
            },
            None => {
                return Err(AssemblyError::DimensionMismatch);
            },
        }
        let fits: Option<usize> = match n.checked_add(m) {
            Some(s1) => match s1.checked_add(P.rowval.len()) {
                Some(s2) => s2.checked_add(A.rowval.len()),
                None => None,
            },
            None => None,
        };
        match fits {
            Some(s) => {
                if s == usize::MAX {
                    return Err(AssemblyError::TooLarge);
                }
            },
            None => {
                return Err(AssemblyError::TooLarge);
            },
        }
        if scaling_len(&cones).is_none() {
            return Err(AssemblyError::TooLarge);
        }
        let dim: usize = n + m;
        let mut K: CscMatrix<T> = count_columns(&P, &A, &cones, dim);
        let ghost counted = K;
        proof {
            lemma_kkt_nnz_is_prefix_sum(P, A, cones@, counted.colptr@, dim as int);
            lemma_prefix_sum_monotone(counted.colptr@, 0, dim as int);
        }
        let total: usize = match K.count_total() {
            Some(t) => t,
            None => {
                return Err(AssemblyError::TooLarge);
            },
        };
        K.colcount_to_colptr();
        K.rowval = zero_indices(total);
        K.nzval = structural_zeros(total);
        let ghost starts = K.colptr@;
        proof {
            lemma_scan_begins_fill(counted, K, P, A, cones@);
        }
        let map_p: Vec<usize> = place_cost_block(&mut K, &P, &A, Ghost(cones@), Ghost(starts));
        place_cost_diagonal(&mut K, &P, &A, Ghost(cones@), Ghost(starts), Ghost(map_p@));
        let map_a: Vec<usize> = place_constraint_block(
            &mut K,
            &P,
            &A,
            Ghost(cones@),
            Ghost(starts),
            Ghost(map_p@),
        );
        proof {
            lemma_scaling_begin(K, starts, P, A, cones@, map_p@, map_a@);
        }
        let map_h: Vec<usize> = place_scaling_blocks(
            &mut K,
            &P,
            &A,
            &cones,
            Ghost(starts),
            Ghost(map_p@),
            Ghost(map_a@),
        );
        let ghost full = K;
        K.backshift_colptrs();
        proof {
            lemma_assembled(full, K, starts, P, A, cones@, map_h@, map_p@, map_a@);
        }
        let map_d: Vec<usize> = last_entries(&K);
        Ok(
            KKTAssembler {
                P,
                A,
                cones,
                KKT: K,
                PtoKKT: map_p,
                AtoKKT: map_a,
                HtoKKT: map_h,
                diagtoKKT: map_d,
            },
        )
    }
}

/// Counts the entries of every column of the KKT matrix into the column
/// table of an empty matrix.
#[verifier::rlimit(40)]
fn count_columns<T: Copy + Default>(
    P: &CscMatrix<T>,
    A: &CscMatrix<T>,
    cones: &Vec<SupportedCone>,
    dim: usize,
) -> (K: CscMatrix<T>)
    requires
        P.is_canonical(),
        A.is_canonical(),
        dimensions_agree(*P, *A, cones@),
        dim == P.n + A.m,
        P.n + A.m + P.rowval@.len() + A.rowval@.len() < usize::MAX,
    ensures
        K.m == dim,
        K.n == dim,
        K.colptr@.len() == dim + 1,
        K.rowval@.len() == 0,
        K.nzval@.len() == 0,
        K.colptr@[dim as int] == 0,
        forall|c: int| 0 <= c < dim ==> #[trigger] K.colptr@[c] == kkt_column_count(*P, *A, cones@, c),
{
    let n: usize = P.n;
    let mut K: CscMatrix<T> = CscMatrix::spalloc(dim, dim, 0);
    let ghost K0 = K;
    K.colcount_block(P, 0, MatrixShape::N);
    let ghost K1 = K;
    proof {
        assert forall|c: int| 0 <= c < K1.colptr@.len() implies #[trigger] K1.colptr@[c]
            + P.missing_diag_count(0, c) <= usize::MAX by {
            assert(K1.colptr@[c] == K0.colptr@[c] + P.block_count(0, MatrixShape::N, c));
            if 0 <= c < P.n {
                assert(P.colptr@[c + 1] <= P.colptr@[P.n as int]);
            }
        }
    }
    K.colcount_missing_diag(P, 0);
    let ghost K2 = K;
    proof {
        assert forall|c: int| 0 <= c < K2.colptr@.len() implies #[trigger] K2.colptr@[c] + A.block_count(
            n as int,
            MatrixShape::T,
            c,
        ) <= usize::MAX by {
            assert(K2.colptr@[c] == K1.colptr@[c] + P.missing_diag_count(0, c));
            assert(K1.colptr@[c] == K0.colptr@[c] + P.block_count(0, MatrixShape::N, c));
            if 0 <= c < P.n {
                assert(P.colptr@[c + 1] <= P.colptr@[P.n as int]);
            }
            lemma_occurrences_monotone(A.rowval@, c - n, 0, A.rowval@.len() as int);
        }
    }
    K.colcount_block(A, n, MatrixShape::T);
    let ghost K3 = K;
    let ghost base = |c: int|
        P.block_count(0, MatrixShape::N, c) + P.missing_diag_count(0, c) + A.block_count(
            n as int,
            MatrixShape::T,
            c,
        );
    proof {
        assert forall|c: int| 0 <= c < K3.colptr@.len() implies #[trigger] K3.colptr@[c] == base(c)
            && base(c) <= P.rowval@.len() + 1 + A.rowval@.len() by {
            assert(K3.colptr@[c] == K2.colptr@[c] + A.block_count(n as int, MatrixShape::T, c));
            assert(K2.colptr@[c] == K1.colptr@[c] + P.missing_diag_count(0, c));
            assert(K1.colptr@[c] == K0.colptr@[c] + P.block_count(0, MatrixShape::N, c));
            if 0 <= c < P.n {
                assert(P.colptr@[c + 1] <= P.colptr@[P.n as int]);
            }
            lemma_occurrences_monotone(A.rowval@, c - n, 0, A.rowval@.len() as int);
        }
    }
    let mut firstcol: usize = n;
    let mut i: usize = 0;
    while i < cones.len()
        invariant
            i <= cones.len(),
            n == P.n,
            dim == P.n + A.m,
            dimensions_agree(*P, *A, cones@),
            P.n + A.m + P.rowval@.len() + A.rowval@.len() < usize::MAX,
            firstcol == n + total_dim(cones@, i as int),
            K.m == dim,
            K.n == dim,
            K.colptr@.len() == dim + 1,
            K.rowval@.len() == 0,
            K.nzval@.len() == 0,
            forall|c: int|
                0 <= c < dim + 1 ==> base(c) == #[trigger] K3.colptr@[c] && base(c) <= P.rowval@.len() + 1
                    + A.rowval@.len(),
            forall|c: int|
                0 <= c < dim + 1 ==> #[trigger] K.colptr@[c] == K3.colptr@[c] + scaling_count(
                    cones@,
                    i as int,
                    n as int,
                    c,
                ),
        decreases cones.len() - i,
    {
        let cone: SupportedCone = cones[i];
        let d: usize = cone.nvars();
        let ghost Kp = K;
        proof {
            lemma_totals_monotone(cones@, i as int + 1, cones@.len() as int);
            lemma_totals_monotone(cones@, 0, i as int);
            assert forall|c: int| 0 <= c < Kp.colptr@.len() implies #[trigger] Kp.colptr@[c] + cone_count(
                cone,
                firstcol as int,
                c,
            ) <= usize::MAX by {
                lemma_scaling_count_bounds(cones@, i as int, n as int, c);
                assert(Kp.colptr@[c] == K3.colptr@[c] + scaling_count(cones@, i as int, n as int, c));
                assert(base(c) == K3.colptr@[c]);
            }
        }
        if cone.hs_is_diagonal() {
            K.colcount_diag(firstcol, d);
        } else {
            K.colcount_dense_triangle(firstcol, d, MatrixTriangle::Triu);
        }
        proof {
            assert forall|c: int| 0 <= c < dim + 1 implies #[trigger] K.colptr@[c] == K3.colptr@[c]
                + scaling_count(cones@, i as int + 1, n as int, c) by {
                assert(K.colptr@[c] == Kp.colptr@[c] + cone_count(cone, firstcol as int, c));
                assert(Kp.colptr@[c] == K3.colptr@[c] + scaling_count(cones@, i as int, n as int, c));
            }
        }
        firstcol += d;
        i += 1;
    }
    proof {
        lemma_scaling_count_bounds(cones@, cones@.len() as int, n as int, dim as int);
        assert(K.colptr@[dim as int] == K3.colptr@[dim as int] + scaling_count(
            cones@,
            cones@.len() as int,
            n as int,
            dim as int,
        ));
        assert(base(dim as int) == K3.colptr@[dim as int]);
        assert(K3.colptr@[dim as int] == K2.colptr@[dim as int] + A.block_count(
            n as int,
            MatrixShape::T,
            dim as int,
        ));
        assert(K2.colptr@[dim as int] == K1.colptr@[dim as int] + P.missing_diag_count(0, dim as int));
        assert(K1.colptr@[dim as int] == K0.colptr@[dim as int] + P.block_count(
            0,
            MatrixShape::N,
            dim as int,
        ));
        assert forall|k: int| 0 <= k < A.rowval@.len() implies A.rowval@[k] != dim - n by {
            assert(A.rowval@[k] < A.m);
        }
        lemma_occurrences_absent(A.rowval@, dim - n, A.rowval@.len() as int);
        assert forall|c: int| 0 <= c < dim implies #[trigger] K.colptr@[c] == kkt_column_count(
            *P,
            *A,
            cones@,
            c,
        ) by {
            assert(K.colptr@[c] == K3.colptr@[c] + scaling_count(
                cones@,
                cones@.len() as int,
                n as int,
                c,
            ));
            assert(base(c) == K3.colptr@[c]);
        }
    }
    K
}

/// The position of the last entry of every column, in a matrix of which
/// each column ends with its diagonal entry.
fn last_entries<T>(K: &CscMatrix<T>) -> (map: Vec<usize>)
    requires
        K.well_formed(),
        forall|c: int|
            0 <= c < K.n ==> #[trigger] K.colptr@[c] < K.colptr@[c + 1] && K.rowval@[K.colptr@[c + 1] - 1]
                == c,
    ensures
        diagonal_mapped(*K, map@),
{
    let mut map: Vec<usize> = Vec::new();
    let mut c: usize = 0;
    while c < K.n
        invariant
            c <= K.n,
            K.well_formed(),
            forall|j: int|
                0 <= j < K.n ==> #[trigger] K.colptr@[j] < K.colptr@[j + 1] && K.rowval@[K.colptr@[j + 1]
                    - 1] == j,
            map@.len() == c,
            forall|j: int|
                0 <= j < c ==> {
                    &&& K.holds(j, #[trigger] map@[j] as int)
                    &&& map@[j] == K.colptr@[j + 1] - 1
                    &&& K.rowval@[map@[j] as int] == j
                },
        decreases K.n - c,
    {
        assert(K.colptr@[c as int] < K.colptr@[c + 1]);
        map.push(K.colptr[c + 1] - 1);
        c += 1;
    }
    map
}

/// A value that does not occur in a sequence has no occurrences.
pub proof fn lemma_occurrences_absent(s: Seq<usize>, v: int, upto: int)
    requires
        upto <= s.len(),
        forall|k: int| 0 <= k < upto ==> s[k] != v,
    ensures
        occurrences(s, v, upto) == 0,
    decreases upto,
{
    if upto > 0 {
        lemma_occurrences_absent(s, v, upto - 1);
    }
}

/// The scaling blocks put nothing into the columns before the first block
/// and after the last, and at most `c - n + 1` entries into column `c`.
pub proof fn lemma_scaling_count_bounds(cones: Seq<SupportedCone>, upto: int, n: int, c: int)
    requires
        0 <= upto <= cones.len(),
    ensures
        0 <= scaling_count(cones, upto, n, c),
        c < n || c >= n + total_dim(cones, upto) ==> scaling_count(cones, upto, n, c) == 0,
        n <= c ==> scaling_count(cones, upto, n, c) <= c - n + 1,
    decreases upto,
{
    if upto > 0 {
        lemma_scaling_count_bounds(cones, upto - 1, n, c);
        lemma_totals_monotone(cones, 0, upto - 1);
        lemma_totals_monotone(cones, upto - 1, upto);
    }
}

/// The scaling blocks of more cones put no fewer entries into a column.
pub proof fn lemma_scaling_count_monotone(cones: Seq<SupportedCone>, a: int, b: int, n: int, c: int)
    requires
        0 <= a <= b <= cones.len(),
    ensures
        scaling_count(cones, a, n, c) <= scaling_count(cones, b, n, c),
    decreases b,
{
    if a < b {
        lemma_scaling_count_monotone(cones, a, b - 1, n, c);
        lemma_totals_monotone(cones, 0, b - 1);
    }
}

/// Sums of equal counts are equal.
pub proof fn lemma_kkt_nnz_is_prefix_sum<T>(
    P: CscMatrix<T>,
    A: CscMatrix<T>,
    cones: Seq<SupportedCone>,
    counts: Seq<usize>,
    upto: int,
)
    requires
        0 <= upto <= counts.len(),
        forall|c: int| 0 <= c < upto ==> #[trigger] counts[c] == kkt_column_count(P, A, cones, c),
    ensures
        prefix_sum(counts, upto) == kkt_nnz(P, A, cones, upto),
    decreases upto,
{
    if upto > 0 {
        lemma_kkt_nnz_is_prefix_sum(P, A, cones, counts, upto - 1);
    }
}

} // verus!
