//! Transversality: the dimension count of a transverse intersection.
use vstd::prelude::*;

verus! {

/// dim(N₁ ∩ N₂) = dim N₁ + dim N₂ - dim M for transverse submanifolds of M,
/// each dimension read as an `i32`.
pub fn transverse_intersection_dimension(dim_n1: usize, dim_n2: usize, dim_m: usize) -> (dim: i32)
    requires
        i32::MIN <= (dim_n1 as i32) + (dim_n2 as i32) <= i32::MAX,
        i32::MIN <= (dim_n1 as i32) + (dim_n2 as i32) - (dim_m as i32) <= i32::MAX,
    ensures
        dim == (dim_n1 as i32) + (dim_n2 as i32) - (dim_m as i32),
        dim_n1 <= i32::MAX && dim_n2 <= i32::MAX && dim_m <= i32::MAX ==> dim == dim_n1 + dim_n2
            - dim_m,
{
    (dim_n1 as i32 + dim_n2 as i32) - dim_m as i32
}

} // verus!
