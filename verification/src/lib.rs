//! Sparse assembly core of a primal-dual interior-point solver for convex
//! conic programs: compressed-sparse-column matrices, the two-phase
//! count-and-fill discipline used to build them block by block, and the
//! index maps that let numeric values be refreshed in place.

pub mod algebra;
pub mod cones;
pub mod kktsolvers;
pub mod solver;
