//! Binomial coefficients: Pascal's rule, the factorial formula, and the
//! multiplicative algorithm, with its overflow bound.
use vstd::prelude::*;

verus! {

// ---------------------------------------------------------------------------
// Binomial coefficients
// ---------------------------------------------------------------------------

/// C(n, k) by Pascal's rule.
pub open spec fn binom(n: nat, k: nat) -> nat
    decreases n,
{
    if k == 0 {
        1
    } else if n == 0 {
        0
    } else {
        binom((n - 1) as nat, (k - 1) as nat) + binom((n - 1) as nat, k)
    }
}

/// n!
pub open spec fn factorial(n: nat) -> nat
    decreases n,
{
    if n == 0 {
        1
    } else {
        n * factorial((n - 1) as nat)
    }
}

/// The smaller of k and n - k, over which the multiplicative formula runs.
pub open spec fn binomial_steps(n: nat, k: nat) -> nat {
    if k <= n - k {
        k
    } else {
        (n - k) as nat
    }
}

/// Every intermediate product (i + 1) * C(n, i + 1) of the multiplicative
/// formula fits in a `usize`.
pub open spec fn binomial_fits(n: nat, k: nat) -> bool {
    k <= n ==> forall|i: nat|
        i < binomial_steps(n, k) ==> #[trigger] ((i + 1) * binom(n, i + 1)) <= usize::MAX
}

pub proof fn lemma_factorial_positive(n: nat)
    ensures
        factorial(n) >= 1,
    decreases n,
{
    if n > 0 {
        lemma_factorial_positive((n - 1) as nat);
        assert(n * factorial((n - 1) as nat) >= 1) by (nonlinear_arith)
            requires
                n >= 1,
                factorial((n - 1) as nat) >= 1,
        ;
    }
}

/// C(n, k) = 0 when k > n.
pub proof fn lemma_binom_above(n: nat, k: nat)
    requires
        k > n,
    ensures
        binom(n, k) == 0,
    decreases n,
{
    if n > 0 {
        lemma_binom_above((n - 1) as nat, (k - 1) as nat);
        lemma_binom_above((n - 1) as nat, k);
    }
}

/// C(n, n) = 1.
pub proof fn lemma_binom_diagonal(n: nat)
    ensures
        binom(n, n) == 1,
    decreases n,
{
    if n > 0 {
        lemma_binom_diagonal((n - 1) as nat);
        lemma_binom_above((n - 1) as nat, n);
    }
}

/// C(n, k) · k! · (n - k)! = n!
pub proof fn lemma_binom_factorial(n: nat, k: nat)
    requires
        k <= n,
    ensures
        binom(n, k) * factorial(k) * factorial((n - k) as nat) == factorial(n),
    decreases n,
{
    if k == 0 {
        assert(binom(n, 0) == 1);
        assert(factorial(0) == 1);
        assert((n - k) as nat == n);
        assert(1 * 1 * factorial(n) == factorial(n));
    } else if k == n {
        lemma_binom_diagonal(n);
        assert(factorial(0) == 1);
        assert((n - k) as nat == 0);
        assert(1 * factorial(n) * 1 == factorial(n));
    } else {
        let m = (n - 1) as nat;
        let a = binom(m, (k - 1) as nat);
        let b = binom(m, k);
        lemma_binom_factorial(m, (k - 1) as nat);
        lemma_binom_factorial(m, k);
        let fk1 = factorial((k - 1) as nat);
        let fk = factorial(k);
        let fnk = factorial((n - k) as nat);
        let fnk1 = factorial((m - k) as nat);
        assert(fk == k * fk1);
        assert(fnk == (n - k) * fnk1);
        assert((m - (k - 1)) as nat == (n - k) as nat);
        assert(a * fk1 * fnk == factorial(m));
        assert(b * fk * fnk1 == factorial(m));
        assert(factorial(n) == n * factorial(m));
        assert(binom(n, k) == a + b);
        assert((a + b) * fk * fnk == n * factorial(m)) by (nonlinear_arith)
            requires
                fk == k * fk1,
                fnk == (n - k) * fnk1,
                a * fk1 * fnk == factorial(m),
                b * fk * fnk1 == factorial(m),
                k < n,
        ;
    }
}

/// (i + 1) · C(n, i + 1) = (n - i) · C(n, i) for i < n.
pub proof fn lemma_binom_step(n: nat, i: nat)
    requires
        i < n,
    ensures
        (i + 1) * binom(n, i + 1) == (n - i) * binom(n, i),
{
    lemma_binom_factorial(n, i + 1);
    lemma_binom_factorial(n, i);
    lemma_factorial_positive(i);
    lemma_factorial_positive((n - i - 1) as nat);
    let a = binom(n, i + 1);
    let b = binom(n, i);
    let fi = factorial(i);
    let fr = factorial((n - i - 1) as nat);
    assert(factorial(i + 1) == (i + 1) * fi);
    assert(factorial((n - i) as nat) == (n - i) * fr);
    let f1 = factorial(i + 1);
    let fni = factorial((n - i) as nat);
    let fn_ = factorial(n);
    assert((n - (i + 1)) as nat == (n - i - 1) as nat);
    assert(a * f1 * fr == fn_);
    assert(b * fi * fni == fn_);
    let x = (i + 1) * a;
    let y = (n - i) * b;
    assert((fi * fr) * x == (fi * fr) * y) by (nonlinear_arith)
        requires
            a * f1 * fr == fn_,
            b * fi * fni == fn_,
            f1 == (i + 1) * fi,
            fni == (n - i) * fr,
            x == (i + 1) * a,
            y == (n - i) * b,
    ;
    assert(fi * fr >= 1) by (nonlinear_arith)
        requires
            fi * fr == fi * fr,
            fi >= 1,
            fr >= 1,
    ;
    vstd::arithmetic::mul::lemma_mul_equality_converse((fi * fr) as int, x as int, y as int);
}

/// C(n, k) = C(n, n - k).
pub proof fn lemma_binom_symmetric(n: nat, k: nat)
    requires
        k <= n,
    ensures
        binom(n, k) == binom(n, (n - k) as nat),
{
    let j = (n - k) as nat;
    lemma_binom_factorial(n, k);
    lemma_binom_factorial(n, j);
    lemma_factorial_positive(k);
    lemma_factorial_positive(j);
    assert((n - j) as nat == k);
    let p = factorial(k) * factorial(j);
    assert(p >= 1) by (nonlinear_arith)
        requires
            p == factorial(k) * factorial(j),
            factorial(k) >= 1,
            factorial(j) >= 1,
    ;
    assert(p * binom(n, k) == p * binom(n, j)) by (nonlinear_arith)
        requires
            binom(n, k) * factorial(k) * factorial(j) == factorial(n),
            binom(n, j) * factorial(j) * factorial(k) == factorial(n),
            p == factorial(k) * factorial(j),
    ;
    vstd::arithmetic::mul::lemma_mul_equality_converse(p as int, binom(n, k) as int, binom(n, j) as int);
}

/// The binomial coefficient C(n, k): the number of components of a k-form on Rⁿ.
pub fn binomial(n: usize, k: usize) -> (c: usize)
    requires
        binomial_fits(n as nat, k as nat),
    ensures
        c == binom(n as nat, k as nat),
{
    if k > n {
        proof {
            lemma_binom_above(n as nat, k as nat);
        }
        return 0;
    }
    if k == 0 || k == n {
        proof {
            lemma_binom_diagonal(n as nat);
        }
        return 1;
    }
    let m: usize = if k <= n - k { k } else { n - k };
    proof {
        lemma_binom_symmetric(n as nat, k as nat);
        assert(binom(n as nat, k as nat) == binom(n as nat, m as nat));
    }
    let mut result: usize = 1;
    let mut i: usize = 0;
    while i < m
        invariant
            0 < k < n,
            m == binomial_steps(n as nat, k as nat),
            m <= n,
            i <= m,
            binomial_fits(n as nat, k as nat),
            result == binom(n as nat, i as nat),
        decreases m - i,
    {
        proof {
            lemma_binom_step(n as nat, i as nat);
            assert(((i + 1) as nat) * binom(n as nat, (i + 1) as nat) <= usize::MAX);
            assert(result * (n - i) == (n - i) * result) by (nonlinear_arith);
        }
        let num = result * (n - i);
        proof {
            let d = (i + 1) as int;
            let b = binom(n as nat, (i + 1) as nat) as int;
            assert(num as int == d * b);
            vstd::arithmetic::div_mod::lemma_div_multiples_vanish(b, d);
        }
        result = num / (i + 1);
        i = i + 1;
    }
    result
}

/// C(n, k) when every intermediate product of the multiplicative formula fits
/// in a `usize`, and `None` otherwise.
pub fn checked_binomial(n: usize, k: usize) -> (c: Option<usize>)
    ensures
        c == (if binomial_fits(n as nat, k as nat) {
            Some(binom(n as nat, k as nat) as usize)
        } else {
            None::<usize>
        }),
{
    if k > n || k == 0 || k == n {
        return Some(binomial(n, k));
    }
    let m: usize = if k <= n - k { k } else { n - k };
    proof {
        lemma_binom_symmetric(n as nat, k as nat);
    }
    let mut result: usize = 1;
    let mut i: usize = 0;
    while i < m
        invariant
            0 < k < n,
            m == binomial_steps(n as nat, k as nat),
            m <= n,
            i <= m,
            binom(n as nat, k as nat) == binom(n as nat, m as nat),
            result == binom(n as nat, i as nat),
            forall|j: nat| j < i ==> #[trigger] ((j + 1) * binom(n as nat, j + 1)) <= usize::MAX,
        decreases m - i,
    {
        proof {
            lemma_binom_step(n as nat, i as nat);
            assert(result * (n - i) == (n - i) * result) by (nonlinear_arith);
        }
        match result.checked_mul(n - i) {
            Some(num) => {
                proof {
                    let d = (i + 1) as int;
                    let b = binom(n as nat, (i + 1) as nat) as int;
                    assert(num as int == d * b);
                    vstd::arithmetic::div_mod::lemma_div_multiples_vanish(b, d);
                    assert forall|j: nat| j < i + 1 implies #[trigger] ((j + 1) * binom(
                        n as nat,
                        j + 1,
                    )) <= usize::MAX by {
                        if j == i {
                            assert((j + 1) * binom(n as nat, j + 1) == num);
                        }
                    }
                }
                result = num / (i + 1);
            },
            None => {
                proof {
                    assert(!(((i as nat) + 1) * binom(n as nat, (i as nat) + 1) <= usize::MAX));
                }
                return None;
            },
        }
        i = i + 1;
    }
    Some(result)
}

} // verus!
