//! Degrees of maps between spheres: named maps and homotopy invariance.
use vstd::prelude::*;
use vstd::arithmetic::power::pow;

verus! {

/// The degree of the antipodal map x ↦ -x on Sⁿ: (-1)^(n+1).
pub fn antipodal_degree(n: usize) -> (deg: i32)
    requires
        n < usize::MAX,
    ensures
        deg == (if (n + 1) % 2 == 0 { 1int } else { -1int }),
        deg == pow(-1, (n + 1) as nat),
{
    proof {
        lemma_pow_minus_one((n + 1) as nat);
    }
    if (n + 1) % 2 == 0 {
        1
    } else {
        -1
    }
}

/// (-1)^m is 1 for even m and -1 for odd m.
pub proof fn lemma_pow_minus_one(m: nat)
    ensures
        pow(-1, m) == (if m % 2 == 0 { 1int } else { -1int }),
    decreases m,
{
    if m == 0 {
        vstd::arithmetic::power::lemma_pow0(-1);
    } else {
        lemma_pow_minus_one((m - 1) as nat);
        vstd::arithmetic::power::lemma_pow_adds(-1, (m - 1) as nat, 1);
        vstd::arithmetic::power::lemma_pow1(-1);
    }
}

/// The degree of the identity map: 1.
pub fn identity_degree() -> (deg: i32)
    ensures
        deg == 1,
{
    1
}

/// The degree of a reflection (one coordinate flipped): -1.
pub fn reflection_degree() -> (deg: i32)
    ensures
        deg == -1,
{
    -1
}

/// Homotopic maps have equal degree: the check passes exactly when the two degrees agree.
pub fn verify_homotopy_invariance(degree_t0: i32, degree_t1: i32) -> (same: bool)
    ensures
        same == (degree_t0 == degree_t1),
{
    degree_t0 == degree_t1
}

} // verus!
