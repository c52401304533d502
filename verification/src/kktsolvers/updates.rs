//! In-place updates of an assembled KKT matrix: new scaling blocks and new
//! problem data, written through the maps, with the structure left alone.

#![allow(non_snake_case)]
use vstd::prelude::*;
use crate::algebra::matrix::CscMatrix;
use crate::cones::{ConeSet, SupportedCone};
use crate::kktsolvers::assembly::{
    constraints_mapped, cost_mapped, in_scaling_rows, KKTAssembler,
};

verus! {

/// Why the values of an assembled problem were not replaced.
#[derive(Clone, Copy, Debug, PartialEq, Eq, Structural)]
pub enum DataUpdateError {
    /// The new matrix has another number of rows or columns.
    IncompatibleDimension,
    /// The new matrix stores entries at other places.
    SparsityPattern,
    /// The cones are not those that the matrix was assembled for.
    ConeMismatch,
}

/// Whether two sequences of cones hold the same cones.
pub fn same_cones(a: &Vec<SupportedCone>, b: &Vec<SupportedCone>) -> (same: bool)
    ensures
        same == (a@ == b@),
{
    if a.len() != b.len() {
        return false;
    }
    let mut k: usize = 0;
    while k < a.len()
        invariant
            k <= a@.len(),
            a@.len() == b@.len(),
            forall|j: int| 0 <= j < k ==> a@[j] == b@[j],
        decreases a@.len() - k,
    {
        if a[k] != b[k] {
            return false;
        }
        k += 1;
    }
    assert(a@ =~= b@);
    true
}

/// Copies the values of `src` over those of `dst`.
fn copy_values<T: Copy>(dst: &mut Vec<T>, src: &Vec<T>)
    requires
        old(dst)@.len() == src@.len(),
    ensures
        final(dst)@ == src@,
{
    let mut k: usize = 0;
    while k < src.len()
        invariant
            k <= src@.len(),
            dst@.len() == src@.len(),
            forall|j: int| 0 <= j < k ==> dst@[j] == src@[j],
        decreases src@.len() - k,
    {
        dst[k] = src[k];
        k += 1;
    }
    assert(dst@ =~= src@);
}

impl<T> KKTAssembler<T> {
    /// The entries of `P` stand at positions of their own: no two at one,
    /// and none where an entry of `A` or a scaling entry stands.
    pub proof fn lemma_cost_positions(&self, k1: int, k2: int)
        requires
            self.well_formed(),
            0 <= k1 < self.PtoKKT@.len(),
        ensures
            self.PtoKKT@[k1] < self.KKT.nzval@.len(),
            self.KKT.rowval@[self.PtoKKT@[k1] as int] < self.P.n,
            !in_scaling_rows(self.KKT, self.P.n as int, self.PtoKKT@[k1] as int),
            0 <= k2 < self.PtoKKT@.len() && k1 != k2 ==> self.PtoKKT@[k1] != self.PtoKKT@[k2],
            0 <= k2 < self.AtoKKT@.len() ==> self.PtoKKT@[k1] != self.AtoKKT@[k2],
    {
        let P = self.P;
        let K = self.KKT;
        let i1 = CscMatrix::<T>::column_of(P.colptr@, P.n as int, k1);
        assert(P.holds(i1, k1));
        let d1 = self.PtoKKT@[k1] as int;
        assert(K.holds(i1, d1));
        assert(K.colptr@[i1 + 1] <= K.colptr@[K.n as int]);
        assert(P.rowval@[k1] < P.m);
        if 0 <= k2 < self.PtoKKT@.len() && k1 != k2 {
            let i2 = CscMatrix::<T>::column_of(P.colptr@, P.n as int, k2);
            assert(P.holds(i2, k2));
            let d2 = self.PtoKKT@[k2] as int;
            assert(K.holds(i2, d2));
            if d1 == d2 {
                K.lemma_holds_ordered(i1, d1, i2, d2);
            }
        }
        if 0 <= k2 < self.AtoKKT@.len() {
            let A = self.A;
            let i2 = CscMatrix::<T>::column_of(A.colptr@, A.n as int, k2);
            assert(A.holds(i2, k2));
            let d2 = self.AtoKKT@[k2] as int;
            assert(K.holds(P.n + A.rowval@[k2], d2));
            if d1 == d2 {
                K.lemma_holds_ordered(i1, d1, P.n + A.rowval@[k2], d2);
            }
        }
    }

    /// The entries of `A` stand at positions of their own: no two at one,
    /// and none where a scaling entry stands.
    pub proof fn lemma_constraint_positions(&self, k1: int, k2: int)
        requires
            self.well_formed(),
            0 <= k1 < self.AtoKKT@.len(),
        ensures
            self.AtoKKT@[k1] < self.KKT.nzval@.len(),
            self.KKT.rowval@[self.AtoKKT@[k1] as int] < self.P.n,
            !in_scaling_rows(self.KKT, self.P.n as int, self.AtoKKT@[k1] as int),
            0 <= k2 < self.AtoKKT@.len() && k1 != k2 ==> self.AtoKKT@[k1] != self.AtoKKT@[k2],
    {
        let A = self.A;
        let K = self.KKT;
        let n = self.P.n as int;
        let i1 = CscMatrix::<T>::column_of(A.colptr@, A.n as int, k1);
        assert(A.holds(i1, k1));
        let d1 = self.AtoKKT@[k1] as int;
        assert(K.holds(n + A.rowval@[k1], d1));
        assert(A.rowval@[k1] < A.m);
        assert(K.colptr@[n + A.rowval@[k1] + 1] <= K.colptr@[K.n as int]);
        if 0 <= k2 < self.AtoKKT@.len() && k1 != k2 {
            let i2 = CscMatrix::<T>::column_of(A.colptr@, A.n as int, k2);
            assert(A.holds(i2, k2));
            let d2 = self.AtoKKT@[k2] as int;
            assert(K.holds(n + A.rowval@[k2], d2));
            if d1 == d2 {
                K.lemma_holds_ordered(n + A.rowval@[k1], d1, n + A.rowval@[k2], d2);
                if k1 < k2 {
                    A.lemma_holds_ordered(i1, k1, i2, k2);
                } else {
                    A.lemma_holds_ordered(i2, k2, i1, k1);
                }
            }
        }
    }

    /// Read through its map, the matrix gives every stored value of `P`, and
    /// likewise every stored value of `A`.
    pub proof fn lemma_maps_lead_to_values(&self)
        requires
            self.well_formed(),
        ensures
            forall|j: int|
                0 <= j < self.P.nzval@.len() ==> self.KKT.nzval@[#[trigger] self.PtoKKT@[j] as int]
                    == self.P.nzval@[j],
            forall|j: int|
                0 <= j < self.A.nzval@.len() ==> self.KKT.nzval@[#[trigger] self.AtoKKT@[j] as int]
                    == self.A.nzval@[j],
    {
        assert forall|j: int| 0 <= j < self.P.nzval@.len() implies self.KKT.nzval@[
            #[trigger] self.PtoKKT@[j] as int] == self.P.nzval@[j] by {
            let i = CscMatrix::<T>::column_of(self.P.colptr@, self.P.n as int, j);
            assert(self.P.holds(i, j));
        }
        assert forall|j: int| 0 <= j < self.A.nzval@.len() implies self.KKT.nzval@[
            #[trigger] self.AtoKKT@[j] as int] == self.A.nzval@[j] by {
            let i = CscMatrix::<T>::column_of(self.A.colptr@, self.A.n as int, j);
            assert(self.A.holds(i, j));
        }
    }

    /// `self` is `before` after a refresh of the scaling blocks with the
    /// values `hs`: the structure and the problem data are the same, every
    /// scaling entry holds its new value, and no other value of the matrix
    /// has changed.
    pub open spec fn refreshed(&self, before: Self, hs: Seq<T>) -> bool {
        &&& self.same_structure(before)
        &&& self.P.nzval@ == before.P.nzval@
        &&& self.A.nzval@ == before.A.nzval@
        &&& self.KKT.values_updated(before.KKT, before.HtoKKT@, hs)
    }

    /// `self` is `before` with the values of `P` replaced by `values`, in
    /// the problem data and in the matrix.
    pub open spec fn cost_updated(&self, before: Self, values: Seq<T>) -> bool {
        &&& self.same_structure(before)
        &&& self.P.nzval@ == values
        &&& self.A.nzval@ == before.A.nzval@
        &&& self.KKT.values_updated(before.KKT, before.PtoKKT@, values)
    }

    /// `self` is `before` with the values of `A` replaced by `values`, in
    /// the problem data and in the matrix.
    pub open spec fn constraints_updated(&self, before: Self, values: Seq<T>) -> bool {
        &&& self.same_structure(before)
        &&& self.P.nzval@ == before.P.nzval@
        &&& self.A.nzval@ == values
        &&& self.KKT.values_updated(before.KKT, before.AtoKKT@, values)
    }

    /// A refresh of the scaling blocks keeps the assembly well formed and
    /// leaves the blocks of `P` and `A` as they were: read through their
    /// maps, the matrix still gives the values of `P` and of `A`.
    pub proof fn lemma_refresh_keeps_data(before: Self, after: Self, hs: Seq<T>)
        requires
            before.well_formed(),
            after.refreshed(before, hs),
        ensures
            after.well_formed(),
            forall|k: int|
                0 <= k < after.PtoKKT@.len() ==> after.KKT.nzval@[#[trigger] after.PtoKKT@[k] as int]
                    == before.P.nzval@[k],
            forall|k: int|
                0 <= k < after.AtoKKT@.len() ==> after.KKT.nzval@[#[trigger] after.AtoKKT@[k] as int]
                    == before.A.nzval@[k],
    {
        let n = before.P.n as int;
        assert forall|k: int| 0 <= k < after.PtoKKT@.len() implies after.KKT.nzval@[
            #[trigger] after.PtoKKT@[k] as int] == before.P.nzval@[k] by {
            before.lemma_cost_positions(k, 0);
            let d = before.PtoKKT@[k] as int;
            assert forall|p: int| 0 <= p < before.HtoKKT@.len() implies before.HtoKKT@[p] != d by {
                assert(in_scaling_rows(before.KKT, n, before.HtoKKT@[p] as int));
            }
            let i = CscMatrix::<T>::column_of(before.P.colptr@, n, k);
            assert(before.P.holds(i, k));
        }
        assert forall|k: int| 0 <= k < after.AtoKKT@.len() implies after.KKT.nzval@[
            #[trigger] after.AtoKKT@[k] as int] == before.A.nzval@[k] by {
            before.lemma_constraint_positions(k, 0);
            let d = before.AtoKKT@[k] as int;
            assert forall|p: int| 0 <= p < before.HtoKKT@.len() implies before.HtoKKT@[p] != d by {
                assert(in_scaling_rows(before.KKT, n, before.HtoKKT@[p] as int));
            }
            let i = CscMatrix::<T>::column_of(before.A.colptr@, before.A.n as int, k);
            assert(before.A.holds(i, k));
        }
        Self::lemma_same_structure_well_formed(before, after);
    }

    /// An assembly with the structure of a well-formed one, in which the
    /// matrix gives the values of `P` and of `A` through their maps, is well
    /// formed.
    proof fn lemma_same_structure_well_formed(before: Self, after: Self)
        requires
            before.well_formed(),
            after.same_structure(before),
            forall|k: int|
                0 <= k < after.PtoKKT@.len() ==> after.KKT.nzval@[#[trigger] after.PtoKKT@[k] as int]
                    == after.P.nzval@[k],
            forall|k: int|
                0 <= k < after.AtoKKT@.len() ==> after.KKT.nzval@[#[trigger] after.AtoKKT@[k] as int]
                    == after.A.nzval@[k],
        ensures
            after.well_formed(),
    {
        let n = before.P.n as int;
        assert forall|c: int, k: int| after.P.holds(c, k) == before.P.holds(c, k) by {}
        assert forall|c: int, k: int| after.A.holds(c, k) == before.A.holds(c, k) by {}
        assert forall|c: int, k: int| after.KKT.holds(c, k) == before.KKT.holds(c, k) by {}
        assert(after.P.is_canonical()) by {
            assert forall|c: int, k1: int, k2: int|
                #[trigger] after.P.holds(c, k1) && #[trigger] after.P.holds(c, k2) && k1
                    < k2 implies after.P.rowval@[k1] < after.P.rowval@[k2] by {
                assert(before.P.holds(c, k1) && before.P.holds(c, k2));
            }
        }
        assert(after.P.is_upper_triangular()) by {
            assert forall|c: int, k: int| #[trigger] after.P.holds(c, k) implies after.P.rowval@[k]
                <= c by {
                assert(before.P.holds(c, k));
            }
        }
        assert(after.A.is_canonical()) by {
            assert forall|c: int, k1: int, k2: int|
                #[trigger] after.A.holds(c, k1) && #[trigger] after.A.holds(c, k2) && k1
                    < k2 implies after.A.rowval@[k1] < after.A.rowval@[k2] by {
                assert(before.A.holds(c, k1) && before.A.holds(c, k2));
            }
        }
        assert(after.KKT.is_canonical()) by {
            assert forall|c: int, k1: int, k2: int|
                #[trigger] after.KKT.holds(c, k1) && #[trigger] after.KKT.holds(c, k2) && k1
                    < k2 implies after.KKT.rowval@[k1] < after.KKT.rowval@[k2] by {
                assert(before.KKT.holds(c, k1) && before.KKT.holds(c, k2));
            }
        }
        assert(after.KKT.is_upper_triangular()) by {
            assert forall|c: int, k: int| #[trigger] after.KKT.holds(c, k) implies after.KKT.rowval@[k]
                <= c by {
                assert(before.KKT.holds(c, k));
            }
        }
        assert(cost_mapped(after.KKT, after.P, after.PtoKKT@)) by {
            assert forall|i: int, k: int| #[trigger] after.P.holds(i, k) implies {
                &&& after.KKT.holds(i, after.PtoKKT@[k] as int)
                &&& after.KKT.rowval@[after.PtoKKT@[k] as int] == after.P.rowval@[k]
                &&& after.KKT.nzval@[after.PtoKKT@[k] as int] == after.P.nzval@[k]
            } by {
                assert(before.P.holds(i, k));
                before.P.lemma_holds_ordered(i, k, i, k);
            }
        }
        assert(constraints_mapped(after.KKT, after.A, n, after.AtoKKT@)) by {
            assert forall|i: int, k: int| #[trigger] after.A.holds(i, k) implies {
                &&& after.KKT.holds(n + after.A.rowval@[k], after.AtoKKT@[k] as int)
                &&& after.KKT.rowval@[after.AtoKKT@[k] as int] == i
                &&& after.KKT.nzval@[after.AtoKKT@[k] as int] == after.A.nzval@[k]
            } by {
                assert(before.A.holds(i, k));
                before.A.lemma_holds_ordered(i, k, i, k);
            }
        }
        assert forall|p: int| 0 <= p < after.HtoKKT@.len() implies in_scaling_rows(
            after.KKT,
            n,
            #[trigger] after.HtoKKT@[p] as int,
        ) by {
            assert(in_scaling_rows(before.KKT, n, before.HtoKKT@[p] as int));
        }
        assert forall|c: int| 0 <= c < after.KKT.n implies {
            &&& after.KKT.holds(c, #[trigger] after.diagtoKKT@[c] as int)
            &&& after.diagtoKKT@[c] == after.KKT.colptr@[c + 1] - 1
            &&& after.KKT.rowval@[after.diagtoKKT@[c] as int] == c
        } by {
            assert(before.KKT.holds(c, before.diagtoKKT@[c] as int));
        }
    }
}

impl<T: Copy + Default> KKTAssembler<T> {
    /// Writes the current scaling blocks of `cones` into the matrix, through
    /// the map of the scaling entries. The structure stays as it is.
    ///
    /// Fails, and changes nothing, where `cones` are not the cones that the
    /// matrix was assembled for.
    pub fn refresh(&mut self, cones: &ConeSet<T>) -> (r: Result<(), DataUpdateError>)
        requires
            old(self).well_formed(),
        ensures
            r.is_ok() <==> cones.cones@ == old(self).cones@ && cones.hs@.len() == old(self).HtoKKT@.len(),
            r.is_err() ==> r == Err::<(), DataUpdateError>(DataUpdateError::ConeMismatch) && *final(self)
                == *old(self),
            r.is_ok() ==> final(self).well_formed() && final(self).refreshed(*old(self), cones.hs@),
    {
        if cones.hs.len() != self.HtoKKT.len() || !same_cones(&cones.cones, &self.cones) {
            return Err(DataUpdateError::ConeMismatch);
        }
        proof {
            assert forall|p: int| 0 <= p < self.HtoKKT@.len() implies #[trigger] self.HtoKKT@[p]
                < self.KKT.nzval@.len() by {
                assert(in_scaling_rows(self.KKT, self.P.n as int, self.HtoKKT@[p] as int));
            }
        }
        self.KKT.update_values(self.HtoKKT.as_slice(), cones.hs.as_slice());
        proof {
            Self::lemma_refresh_keeps_data(*old(self), *self, cones.hs@);
        }
        Ok(())
    }

    /// Replaces the values of `P` by those of `P_new`, in the problem data
    /// and, through the map of `P`, in the matrix.
    ///
    /// Fails, and changes nothing, where `P_new` has another shape or stores
    /// entries at other places than `P`.
    pub fn update_P(&mut self, P_new: &CscMatrix<T>) -> (r: Result<(), DataUpdateError>)
        requires
            old(self).well_formed(),
        ensures
            r.is_ok() <==> P_new.same_pattern(old(self).P),
            r == Err::<(), DataUpdateError>(DataUpdateError::IncompatibleDimension)
                <==> !(P_new.m == old(self).P.m && P_new.n == old(self).P.n),
            r.is_err() ==> *final(self) == *old(self),
            r.is_ok() ==> final(self).well_formed() && final(self).cost_updated(*old(self), P_new.nzval@),
    {
        if P_new.m != self.P.m || P_new.n != self.P.n {
            return Err(DataUpdateError::IncompatibleDimension);
        }
        if !P_new.is_equal_sparsity(&self.P) {
            return Err(DataUpdateError::SparsityPattern);
        }
        proof {
            assert forall|p: int| 0 <= p < self.PtoKKT@.len() implies #[trigger] self.PtoKKT@[p]
                < self.KKT.nzval@.len() by {
                self.lemma_cost_positions(p, 0);
            }
            assert forall|p1: int, p2: int| 0 <= p1 < p2 < self.PtoKKT@.len() implies self.PtoKKT@[p1]
                != self.PtoKKT@[p2] by {
                self.lemma_cost_positions(p1, p2);
            }
        }
        self.KKT.update_values(self.PtoKKT.as_slice(), P_new.nzval.as_slice());
        copy_values(&mut self.P.nzval, &P_new.nzval);
        proof {
            let before = *old(self);
            assert forall|k: int| 0 <= k < self.AtoKKT@.len() implies self.KKT.nzval@[
                #[trigger] self.AtoKKT@[k] as int] == self.A.nzval@[k] by {
                before.lemma_constraint_positions(k, 0);
                let d = before.AtoKKT@[k] as int;
                assert forall|p: int| 0 <= p < before.PtoKKT@.len() implies before.PtoKKT@[p] != d by {
                    before.lemma_cost_positions(p, k);
                }
                let i = CscMatrix::<T>::column_of(before.A.colptr@, before.A.n as int, k);
                assert(before.A.holds(i, k));
            }
            Self::lemma_same_structure_well_formed(before, *self);
        }
        Ok(())
    }

    /// Replaces the values of `A` by those of `A_new`, in the problem data
    /// and, through the map of `A`, in the matrix.
    ///
    /// Fails, and changes nothing, where `A_new` has another shape or stores
    /// entries at other places than `A`.
    pub fn update_A(&mut self, A_new: &CscMatrix<T>) -> (r: Result<(), DataUpdateError>)
        requires
            old(self).well_formed(),
        ensures
            r.is_ok() <==> A_new.same_pattern(old(self).A),
            r == Err::<(), DataUpdateError>(DataUpdateError::IncompatibleDimension)
                <==> !(A_new.m == old(self).A.m && A_new.n == old(self).A.n),
            r.is_err() ==> *final(self) == *old(self),
            r.is_ok() ==> final(self).well_formed() && final(self).constraints_updated(
                *old(self),
                A_new.nzval@,
            ),
    {
        if A_new.m != self.A.m || A_new.n != self.A.n {
            return Err(DataUpdateError::IncompatibleDimension);
        }
        if !A_new.is_equal_sparsity(&self.A) {
            return Err(DataUpdateError::SparsityPattern);
        }
        proof {
            assert forall|p: int| 0 <= p < self.AtoKKT@.len() implies #[trigger] self.AtoKKT@[p]
                < self.KKT.nzval@.len() by {
                self.lemma_constraint_positions(p, 0);
            }
            assert forall|p1: int, p2: int| 0 <= p1 < p2 < self.AtoKKT@.len() implies self.AtoKKT@[p1]
                != self.AtoKKT@[p2] by {
                self.lemma_constraint_positions(p1, p2);
            }
        }
        self.KKT.update_values(self.AtoKKT.as_slice(), A_new.nzval.as_slice());
        copy_values(&mut self.A.nzval, &A_new.nzval);
        proof {
            let before = *old(self);
            assert forall|k: int| 0 <= k < self.PtoKKT@.len() implies self.KKT.nzval@[
                #[trigger] self.PtoKKT@[k] as int] == self.P.nzval@[k] by {
                before.lemma_cost_positions(k, 0);
                let d = before.PtoKKT@[k] as int;
                assert forall|p: int| 0 <= p < before.AtoKKT@.len() implies before.AtoKKT@[p] != d by {
                    before.lemma_cost_positions(k, p);
                }
                let i = CscMatrix::<T>::column_of(before.P.colptr@, before.P.n as int, k);
                assert(before.P.holds(i, k));
            }
            Self::lemma_same_structure_well_formed(before, *self);
        }
        Ok(())
    }

    /// Reads the block of `P` back out of the matrix: the value at the
    /// position of every stored entry of `P`.
    pub fn cost_values(&self) -> (values: Vec<T>)
        requires
            self.well_formed(),
        ensures
            values@ == self.P.nzval@,
    {
        let mut values: Vec<T> = Vec::new();
        let mut k: usize = 0;
        while k < self.PtoKKT.len()
            invariant
                k <= self.PtoKKT@.len(),
                self.well_formed(),
                values@.len() == k,
                forall|j: int| 0 <= j < k ==> values@[j] == self.P.nzval@[j],
            decreases self.PtoKKT@.len() - k,
        {
            proof {
                self.lemma_cost_positions(k as int, 0);
                let i = CscMatrix::<T>::column_of(self.P.colptr@, self.P.n as int, k as int);
                assert(self.P.holds(i, k as int));
            }
            values.push(self.KKT.nzval[self.PtoKKT[k]]);
            k += 1;
        }
        assert(values@ =~= self.P.nzval@);
        values
    }
}

} // verus!
