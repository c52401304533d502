//! The cones of the product cone: their kinds, their dimensions, and the
//! layout of their scaling blocks.

use vstd::prelude::*;
use crate::algebra::filling::{lemma_triangular_monotone, triangular};

verus! {

/// A convex cone of the product cone, by kind and dimension.
#[derive(Clone, Copy, Debug, PartialEq, Eq, Structural)]
pub enum SupportedCone {
    /// The zero cone of the given dimension.
    ZeroConeT(usize),
    /// The nonnegative orthant of the given dimension.
    NonnegativeConeT(usize),
    /// The second-order cone of the given dimension.
    SecondOrderConeT(usize),
    /// The cone of positive semidefinite matrices, stored as a triangle with
    /// the given number of entries.
    PSDTriangleConeT(usize),
}

impl SupportedCone {
    /// Number of entries of the slack and dual vectors that belong to the
    /// cone.
    pub open spec fn dim(self) -> int {
        match self {
            SupportedCone::ZeroConeT(k) => k as int,
            SupportedCone::NonnegativeConeT(k) => k as int,
            SupportedCone::SecondOrderConeT(k) => k as int,
            SupportedCone::PSDTriangleConeT(k) => k as int,
        }
    }

    /// The scaling block of the cone is diagonal; otherwise it is a dense
    /// symmetric block, of which the upper triangle is stored.
    pub open spec fn has_diagonal_scaling(self) -> bool {
        match self {
            SupportedCone::ZeroConeT(_) => true,
            SupportedCone::NonnegativeConeT(_) => true,
            SupportedCone::SecondOrderConeT(_) => false,
            SupportedCone::PSDTriangleConeT(_) => false,
        }
    }

    /// Number of stored entries of the scaling block.
    pub open spec fn scaling_entries(self) -> int {
        if self.has_diagonal_scaling() {
            self.dim()
        } else {
            triangular(self.dim())
        }
    }

    /// The dimension of the cone.
    pub fn nvars(&self) -> (k: usize)
        ensures
            k == self.dim(),
    {
        match self {
            SupportedCone::ZeroConeT(k) => *k,
            SupportedCone::NonnegativeConeT(k) => *k,
            SupportedCone::SecondOrderConeT(k) => *k,
            SupportedCone::PSDTriangleConeT(k) => *k,
        }
    }

    /// Whether the scaling block of the cone is diagonal.
    pub fn hs_is_diagonal(&self) -> (b: bool)
        ensures
            b == self.has_diagonal_scaling(),
    {
        match self {
            SupportedCone::ZeroConeT(_) => true,
            SupportedCone::NonnegativeConeT(_) => true,
            SupportedCone::SecondOrderConeT(_) => false,
            SupportedCone::PSDTriangleConeT(_) => false,
        }
    }
}

/// Sum of the dimensions of the first `upto` cones: the index at which the
/// block of cone `upto` starts in the slack and dual vectors.
pub open spec fn total_dim(cones: Seq<SupportedCone>, upto: int) -> int
    decreases upto,
{
    if upto <= 0 {
        0
    } else {
        total_dim(cones, upto - 1) + cones[upto - 1].dim()
    }
}

/// Number of stored scaling entries of the first `upto` cones: the index at
/// which the scaling block of cone `upto` starts among all scaling entries.
pub open spec fn total_scaling_entries(cones: Seq<SupportedCone>, upto: int) -> int
    decreases upto,
{
    if upto <= 0 {
        0
    } else {
        total_scaling_entries(cones, upto - 1) + cones[upto - 1].scaling_entries()
    }
}

/// The block starts grow with the number of cones.
pub proof fn lemma_totals_monotone(cones: Seq<SupportedCone>, a: int, b: int)
    requires
        a <= b,
    ensures
        0 <= total_dim(cones, a) <= total_dim(cones, b),
        0 <= total_scaling_entries(cones, a) <= total_scaling_entries(cones, b),
    decreases b,
{
    if b > 0 {
        lemma_triangular_monotone(0, cones[b - 1].dim());
        if a < b {
            lemma_totals_monotone(cones, a, b - 1);
        } else {
            lemma_totals_monotone(cones, a - 1, b - 1);
        }
    }
}

/// Twice a triangular number is the product of two neighbours.
pub proof fn lemma_triangular_closed_form(k: int)
    requires
        0 <= k,
    ensures
        2 * triangular(k) == k * (k + 1),
    decreases k,
{
    if k > 0 {
        lemma_triangular_closed_form(k - 1);
        assert((k - 1) * k + 2 * k == k * (k + 1)) by (nonlinear_arith);
    } else {
        assert(k * (k + 1) == 0) by (nonlinear_arith)
            requires
                k == 0,
        ;
    }
}

/// The number of entries in a dense triangle of `k` columns, diagonal
/// included, where it fits the machine word.
pub fn triangular_number(k: usize) -> (r: Option<usize>)
    ensures
        r == if triangular(k as int) <= usize::MAX {
            Some(triangular(k as int) as usize)
        } else {
            None::<usize>
        },
{
    proof {
        lemma_triangular_closed_form(k as int);
        assert(k * (k + 1) <= 0xffff_ffff_ffff_ffff * 0x1_0000_0000_0000_0000) by (nonlinear_arith)
            requires
                0 <= k <= 0xffff_ffff_ffff_ffff,
        ;
    }
    let wide: u128 = (k as u128) * (k as u128 + 1) / 2;
    if wide <= usize::MAX as u128 {
        Some(wide as usize)
    } else {
        None
    }
}

/// The dimension of the product of `cones`, where it fits a machine word.
pub fn dimension(cones: &Vec<SupportedCone>) -> (r: Option<usize>)
    ensures
        r == if total_dim(cones@, cones@.len() as int) <= usize::MAX {
            Some(total_dim(cones@, cones@.len() as int) as usize)
        } else {
            None::<usize>
        },
{
    let mut dims: usize = 0;
    let mut i: usize = 0;
    while i < cones.len()
        invariant
            i <= cones.len(),
            dims == total_dim(cones@, i as int),
        decreases cones.len() - i,
    {
        proof {
            lemma_totals_monotone(cones@, i as int + 1, cones@.len() as int);
        }
        match dims.checked_add(cones[i].nvars()) {
            Some(s) => {
                dims = s;
            },
            None => {
                return None;
            },
        }
        i += 1;
    }
    Some(dims)
}

/// The number of stored scaling entries of `cones`, where it fits a machine
/// word.
pub fn scaling_len(cones: &Vec<SupportedCone>) -> (r: Option<usize>)
    ensures
        r == if total_scaling_entries(cones@, cones@.len() as int) <= usize::MAX {
            Some(total_scaling_entries(cones@, cones@.len() as int) as usize)
        } else {
            None::<usize>
        },
{
    let mut entries: usize = 0;
    let mut i: usize = 0;
    while i < cones.len()
        invariant
            i <= cones.len(),
            entries == total_scaling_entries(cones@, i as int),
        decreases cones.len() - i,
    {
        let cone: SupportedCone = cones[i];
        let d: usize = cone.nvars();
        proof {
            lemma_totals_monotone(cones@, i as int + 1, cones@.len() as int);
            lemma_triangular_monotone(0, d as int);
        }
        let block: Option<usize> = if cone.hs_is_diagonal() {
            Some(d)
        } else {
            triangular_number(d)
        };
        let next: Option<usize> = match block {
            Some(b) => entries.checked_add(b),
            None => None,
        };
        match next {
            Some(e) => {
                entries = e;
            },
            None => {
                return None;
            },
        }
        i += 1;
    }
    Some(entries)
}

/// The product cone: the cones in order, and the stored entries of their
/// current scaling blocks, one block after the other. A diagonal block is
/// stored as its diagonal, a dense block as its upper triangle, column by
/// column.
#[derive(Debug)]
pub struct ConeSet<T> {
    /// The cones, in the order of their blocks.
    pub cones: Vec<SupportedCone>,
    /// The stored entries of the scaling blocks.
    pub hs: Vec<T>,
}

impl<T> ConeSet<T> {
    /// The scaling values are as many as the cones have scaling entries, and
    /// the dimensions add up to a machine word.
    pub open spec fn well_formed(&self) -> bool {
        &&& self.hs@.len() == total_scaling_entries(self.cones@, self.cones@.len() as int)
        &&& total_dim(self.cones@, self.cones@.len() as int) <= usize::MAX
    }
}

impl<T: Copy + Default> ConeSet<T> {
    /// Builds the product of `cones`, every scaling entry a structural zero.
    /// There is none where the dimensions or the scaling entries do not add
    /// up to a machine word.
    pub fn new(cones: Vec<SupportedCone>) -> (r: Option<Self>)
        ensures
            r.is_some() <==> total_dim(cones@, cones@.len() as int) <= usize::MAX
                && total_scaling_entries(cones@, cones@.len() as int) <= usize::MAX,
            r matches Some(set) ==> set.well_formed() && set.cones@ == cones@ && forall|p: int|
                0 <= p < set.hs@.len() ==> call_ensures(T::default, (), #[trigger] set.hs@[p]),
    {
        let dims: Option<usize> = dimension(&cones);
        let entries: Option<usize> = scaling_len(&cones);
        match (dims, entries) {
            (Some(_), Some(len)) => {
                proof {
                    lemma_totals_monotone(cones@, 0, cones@.len() as int);
                }
                let mut hs: Vec<T> = Vec::new();
                let mut p: usize = 0;
                while p < len
                    invariant
                        p <= len,
                        hs@.len() == p,
                        len == total_scaling_entries(cones@, cones@.len() as int),
                        total_dim(cones@, cones@.len() as int) <= usize::MAX,
                        forall|q: int| 0 <= q < p ==> call_ensures(T::default, (), #[trigger] hs@[q]),
                    decreases len - p,
                {
                    hs.push(T::default());
                    p += 1;
                }
                Some(ConeSet { cones, hs })
            },
            _ => None,
        }
    }

    /// The dimension of the product cone: the sum of the dimensions of its
    /// cones.
    pub fn numel(&self) -> (m: usize)
        requires
            self.well_formed(),
        ensures
            m == total_dim(self.cones@, self.cones@.len() as int),
    {
        let mut dims: usize = 0;
        let mut i: usize = 0;
        while i < self.cones.len()
            invariant
                i <= self.cones.len(),
                self.well_formed(),
                dims == total_dim(self.cones@, i as int),
            decreases self.cones.len() - i,
        {
            proof {
                lemma_totals_monotone(self.cones@, i as int + 1, self.cones@.len() as int);
            }
            dims += self.cones[i].nvars();
            i += 1;
        }
        dims
    }
    /// Where the block of each cone lies in the slack and dual vectors: the
    /// index of its first entry, and the index after its last. The blocks
    /// follow one another without gaps, from zero to the dimension of the
    /// product cone.
    pub fn rng_cones(&self) -> (ranges: Vec<(usize, usize)>)
        requires
            self.well_formed(),
        ensures
            ranges@.len() == self.cones@.len(),
            forall|i: int|
                0 <= i < ranges@.len() ==> (#[trigger] ranges@[i]).0 == total_dim(self.cones@, i)
                    && ranges@[i].1 == total_dim(self.cones@, i + 1),
    {
        let mut ranges: Vec<(usize, usize)> = Vec::new();
        let mut start: usize = 0;
        let mut i: usize = 0;
        while i < self.cones.len()
            invariant
                i <= self.cones.len(),
                self.well_formed(),
                start == total_dim(self.cones@, i as int),
                ranges@.len() == i,
                forall|j: int|
                    0 <= j < i ==> (#[trigger] ranges@[j]).0 == total_dim(self.cones@, j) && ranges@[j].1
                        == total_dim(self.cones@, j + 1),
            decreases self.cones.len() - i,
        {
            proof {
                lemma_totals_monotone(self.cones@, i as int + 1, self.cones@.len() as int);
            }
            let stop: usize = start + self.cones[i].nvars();
            ranges.push((start, stop));
            start = stop;
            i += 1;
        }
        ranges
    }

    /// Where the scaling block of each cone lies among the stored scaling
    /// entries: the index of its first entry, and the index after its last.
    pub fn rng_blocks(&self) -> (ranges: Vec<(usize, usize)>)
        requires
            self.well_formed(),
        ensures
            ranges@.len() == self.cones@.len(),
            forall|i: int|
                0 <= i < ranges@.len() ==> (#[trigger] ranges@[i]).0 == total_scaling_entries(
                    self.cones@,
                    i,
                ) && ranges@[i].1 == total_scaling_entries(self.cones@, i + 1),
    {
        let mut ranges: Vec<(usize, usize)> = Vec::new();
        let mut start: usize = 0;
        let mut i: usize = 0;
        while i < self.cones.len()
            invariant
                i <= self.cones.len(),
                self.well_formed(),
                start == total_scaling_entries(self.cones@, i as int),
                ranges@.len() == i,
                forall|j: int|
                    0 <= j < i ==> (#[trigger] ranges@[j]).0 == total_scaling_entries(self.cones@, j)
                        && ranges@[j].1 == total_scaling_entries(self.cones@, j + 1),
            decreases self.cones.len() - i,
        {
            let cone: SupportedCone = self.cones[i];
            let d: usize = cone.nvars();
            proof {
                lemma_totals_monotone(self.cones@, i as int + 1, self.cones@.len() as int);
                lemma_totals_monotone(self.cones@, 0, i as int);
                lemma_triangular_monotone(0, d as int);
                assert(self.hs@.len() <= usize::MAX) by {
                    assert(self.hs@.len() == self.hs.len());
                }
            }
            let entries: usize = if cone.hs_is_diagonal() {
                d
            } else {
                triangular_number(d).unwrap()
            };
            let stop: usize = start + entries;
            ranges.push((start, stop));
            start = stop;
            i += 1;
        }
        ranges
    }
}

} // verus!
