//! Vector fields: classifying an equilibrium from the signs of the
//! eigenvalues of its linearization.
use vstd::prelude::*;

verus! {

/// Classification of equilibrium points.
#[derive(Debug, Clone, Copy, PartialEq, Eq, Structural)]
pub enum EquilibriumType {
    /// Stable node/spiral.
    Stable,
    /// Unstable node/spiral.
    Unstable,
    /// Saddle point.
    Saddle,
    /// Center (neutrally stable).
    Center,
    /// Degenerate (need higher-order analysis).
    Degenerate,
}

/// Where an eigenvalue λ lies relative to the tolerance ε used for the
/// classification.
#[derive(Debug, Clone, Copy, PartialEq, Eq, Structural)]
pub enum EigenvalueSign {
    /// λ < -ε.
    Negative,
    /// λ > ε.
    Positive,
    /// |λ| < ε.
    NearZero,
    /// None of the above: |λ| = ε exactly, or λ is not a number.
    Boundary,
}

/// The classification of an equilibrium whose linearization has eigenvalues
/// with the given signs: stable when every eigenvalue is negative, unstable
/// when every one is positive, a saddle when there are eigenvalues of both
/// signs, a center when every one is near zero, and degenerate otherwise.
pub open spec fn classification(signs: Seq<EigenvalueSign>) -> EquilibriumType {
    if forall|i: int| 0 <= i < signs.len() ==> signs[i] == EigenvalueSign::Negative {
        EquilibriumType::Stable
    } else if forall|i: int| 0 <= i < signs.len() ==> signs[i] == EigenvalueSign::Positive {
        EquilibriumType::Unstable
    } else if (exists|i: int| 0 <= i < signs.len() && signs[i] == EigenvalueSign::Negative) && (
    exists|i: int| 0 <= i < signs.len() && signs[i] == EigenvalueSign::Positive) {
        EquilibriumType::Saddle
    } else if forall|i: int| 0 <= i < signs.len() ==> signs[i] == EigenvalueSign::NearZero {
        EquilibriumType::Center
    } else {
        EquilibriumType::Degenerate
    }
}

/// Whether every sign in the slice equals `s`.
fn all_are(signs: &[EigenvalueSign], s: EigenvalueSign) -> (all: bool)
    ensures
        all == forall|i: int| 0 <= i < signs.len() ==> signs[i] == s,
{
    let mut k: usize = 0;
    while k < signs.len()
        invariant
            k <= signs.len(),
            forall|i: int| 0 <= i < k ==> signs[i] == s,
        decreases signs.len() - k,
    {
        if signs[k] != s {
            return false;
        }
        k = k + 1;
    }
    true
}

/// Whether some sign in the slice equals `s`.
fn any_is(signs: &[EigenvalueSign], s: EigenvalueSign) -> (any: bool)
    ensures
        any == exists|i: int| 0 <= i < signs.len() && signs[i] == s,
{
    let mut k: usize = 0;
    while k < signs.len()
        invariant
            k <= signs.len(),
            forall|i: int| 0 <= i < k ==> signs[i] != s,
        decreases signs.len() - k,
    {
        if signs[k] == s {
            return true;
        }
        k = k + 1;
    }
    false
}

/// Classify an equilibrium from the signs of the eigenvalues of its linearization.
pub fn classify_eigenvalue_signs(signs: &[EigenvalueSign]) -> (t: EquilibriumType)
    ensures
        t == classification(signs@),
{
    let all_negative = all_are(signs, EigenvalueSign::Negative);
    let all_positive = all_are(signs, EigenvalueSign::Positive);
    let has_negative = any_is(signs, EigenvalueSign::Negative);
    let has_positive = any_is(signs, EigenvalueSign::Positive);
    if all_negative {
        EquilibriumType::Stable
    } else if all_positive {
        EquilibriumType::Unstable
    } else if has_negative && has_positive {
        EquilibriumType::Saddle
    } else {
        let all_near_zero = all_are(signs, EigenvalueSign::NearZero);
        if all_near_zero {
            EquilibriumType::Center
        } else {
            EquilibriumType::Degenerate
        }
    }
}

/// An equilibrium with a negative and a positive eigenvalue, wherever they
/// stand among the others, is a saddle.
pub proof fn lemma_opposite_signs_give_saddle(signs: Seq<EigenvalueSign>, i: int, j: int)
    requires
        0 <= i < signs.len(),
        0 <= j < signs.len(),
        signs[i] == EigenvalueSign::Negative,
        signs[j] == EigenvalueSign::Positive,
    ensures
        classification(signs) == EquilibriumType::Saddle,
{
}

proof fn lemma_swap_keeps_kinds(signs: Seq<EigenvalueSign>, i: int, j: int, s: EigenvalueSign)
    requires
        0 <= i < signs.len(),
        0 <= j < signs.len(),
    ensures
        (exists|k: int| 0 <= k < signs.len() && signs[k] == s) <==> (exists|k: int|
            0 <= k < signs.len() && signs.update(i, signs[j]).update(j, signs[i])[k] == s),
        (forall|k: int| 0 <= k < signs.len() ==> signs[k] == s) <==> (forall|k: int|
            0 <= k < signs.len() ==> signs.update(i, signs[j]).update(j, signs[i])[k] == s),
{
    let t = signs.update(i, signs[j]).update(j, signs[i]);
    if exists|k: int| 0 <= k < signs.len() && signs[k] == s {
        let k = choose|k: int| 0 <= k < signs.len() && signs[k] == s;
        let m = if k == i { j } else if k == j { i } else { k };
        assert(t[m] == s);
    }
    if exists|k: int| 0 <= k < t.len() && t[k] == s {
        let k = choose|k: int| 0 <= k < t.len() && t[k] == s;
        let m = if k == j { i } else if k == i { j } else { k };
        assert(signs[m] == s);
    }
    if forall|k: int| 0 <= k < signs.len() ==> signs[k] == s {
        assert forall|k: int| 0 <= k < signs.len() implies t[k] == s by {
            let m = if k == j { i } else if k == i { j } else { k };
            assert(signs[m] == s);
        }
    }
    if forall|k: int| 0 <= k < signs.len() ==> t[k] == s {
        assert forall|k: int| 0 <= k < signs.len() implies signs[k] == s by {
            let m = if k == i { j } else if k == j { i } else { k };
            assert(t[m] == s);
        }
    }
}

/// The classification depends only on which signs occur, not on the order of
/// the eigenvalues: exchanging two of them changes nothing.
pub proof fn lemma_classification_ignores_order(signs: Seq<EigenvalueSign>, i: int, j: int)
    requires
        0 <= i < signs.len(),
        0 <= j < signs.len(),
    ensures
        classification(signs.update(i, signs[j]).update(j, signs[i])) == classification(signs),
{
    lemma_swap_keeps_kinds(signs, i, j, EigenvalueSign::Negative);
    lemma_swap_keeps_kinds(signs, i, j, EigenvalueSign::Positive);
    lemma_swap_keeps_kinds(signs, i, j, EigenvalueSign::NearZero);
}

/// What each answer means: stable exactly when every eigenvalue is negative
/// (as with none); unstable exactly when there is one and every one is
/// positive; a saddle exactly when there are a negative and a positive one; a
/// center exactly when there is one and every one is near zero; degenerate in
/// every other case.
pub proof fn lemma_classification_meaning(signs: Seq<EigenvalueSign>)
    ensures
        classification(signs) == EquilibriumType::Stable <==> forall|k: int|
            0 <= k < signs.len() ==> signs[k] == EigenvalueSign::Negative,
        classification(signs) == EquilibriumType::Unstable <==> signs.len() > 0 && forall|k: int|
            0 <= k < signs.len() ==> signs[k] == EigenvalueSign::Positive,
        classification(signs) == EquilibriumType::Saddle <==> (exists|k: int|
            0 <= k < signs.len() && signs[k] == EigenvalueSign::Negative) && (exists|k: int|
            0 <= k < signs.len() && signs[k] == EigenvalueSign::Positive),
        classification(signs) == EquilibriumType::Center <==> signs.len() > 0 && forall|k: int|
            0 <= k < signs.len() ==> signs[k] == EigenvalueSign::NearZero,
{
    if signs.len() == 0 {
        assert(classification(signs) == EquilibriumType::Stable);
    } else {
        if forall|k: int| 0 <= k < signs.len() ==> signs[k] == EigenvalueSign::Negative {
            assert(signs[0] != EigenvalueSign::Positive);
            assert(signs[0] != EigenvalueSign::NearZero);
        }
        if forall|k: int| 0 <= k < signs.len() ==> signs[k] == EigenvalueSign::Positive {
            assert(signs[0] != EigenvalueSign::Negative);
            assert(signs[0] != EigenvalueSign::NearZero);
        }
        if forall|k: int| 0 <= k < signs.len() ==> signs[k] == EigenvalueSign::NearZero {
            assert(signs[0] != EigenvalueSign::Negative);
            assert(signs[0] != EigenvalueSign::Positive);
        }
        if (exists|k: int| 0 <= k < signs.len() && signs[k] == EigenvalueSign::Negative) && (exists|k: int|
            0 <= k < signs.len() && signs[k] == EigenvalueSign::Positive) {
            let a = choose|k: int| 0 <= k < signs.len() && signs[k] == EigenvalueSign::Negative;
            let b = choose|k: int| 0 <= k < signs.len() && signs[k] == EigenvalueSign::Positive;
            assert(signs[a] != EigenvalueSign::Positive);
            assert(signs[b] != EigenvalueSign::Negative);
            assert(signs[a] != EigenvalueSign::NearZero);
        }
    }
}

} // verus!
