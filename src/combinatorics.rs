use vstd::prelude::*;

verus! {

/// `n!`
pub open spec fn factorial(n: nat) -> nat
    decreases n,
{
    if n == 0 {
        1
    } else {
        n * factorial((n - 1) as nat)
    }
}

/// The binomial coefficient `n` over `k`, by Pascal's rule.
pub open spec fn binomial(n: nat, k: nat) -> nat
    decreases n,
{
    if k == 0 {
        1
    } else if n == 0 {
        0
    } else {
        binomial((n - 1) as nat, (k - 1) as nat) + binomial((n - 1) as nat, k)
    }
}

pub proof fn lemma_factorial_positive(n: nat)
    ensures
        factorial(n) >= 1,
    decreases n,
{
    if n > 0 {
        lemma_factorial_positive((n - 1) as nat);
        assert(n * factorial((n - 1) as nat) >= 1) by (nonlinear_arith)
            requires
                n >= 1,
                factorial((n - 1) as nat) >= 1,
        ;
    }
}

pub proof fn lemma_factorial_monotonic(m: nat, n: nat)
    requires
        m <= n,
    ensures
        factorial(m) <= factorial(n),
    decreases n,
{
    if m < n {
        lemma_factorial_monotonic(m, (n - 1) as nat);
        lemma_factorial_positive((n - 1) as nat);
        assert(factorial((n - 1) as nat) <= n * factorial((n - 1) as nat)) by (nonlinear_arith)
            requires
                n >= 1,
        ;
    }
}

/// `20!` is the largest factorial that fits in a `u64`.
pub proof fn lemma_factorial_20_fits()
    ensures
        factorial(20) == 2432902008176640000,
        factorial(20) <= u64::MAX,
{
    reveal_with_fuel(factorial, 21);
}

pub proof fn lemma_binomial_above(n: nat, k: nat)
    requires
        k > n,
    ensures
        binomial(n, k) == 0,
    decreases n,
{
    if n > 0 {
        lemma_binomial_above((n - 1) as nat, (k - 1) as nat);
        lemma_binomial_above((n - 1) as nat, k);
    }
}

/// `C(n, i + 1) * (i + 1) == C(n, i) * (n - i)`: the step of the running product.
pub proof fn lemma_binomial_step(n: nat, i: nat)
    requires
        i < n,
    ensures
        binomial(n, i + 1) * (i + 1) == binomial(n, i) * (n - i),
    decreases n,
{
    let m = (n - 1) as nat;
    // both sides equal n * C(n - 1, i)
    if i < m {
        lemma_binomial_step(m, i);
    } else {
        lemma_binomial_above(m, i + 1);
        assert(binomial(m, i) == 1) by {
            lemma_binomial_diagonal(m);
        }
    }
    assert(binomial(n, i + 1) * (i + 1) == binomial(m, i) * n) by (nonlinear_arith)
        requires
            binomial(n, i + 1) == binomial(m, i) + binomial(m, i + 1),
            binomial(m, i + 1) * (i + 1) == binomial(m, i) * (m - i),
            n == m + 1,
    ;
    if i == 0 {
        assert(binomial(m, 0) == 1);
    } else {
        let j = (i - 1) as nat;
        lemma_binomial_step(m, j);
        assert(binomial(n, i) * (n - i) == binomial(m, i) * n) by (nonlinear_arith)
            requires
                binomial(n, i) == binomial(m, j) + binomial(m, i),
                binomial(m, i) * i == binomial(m, j) * (m - j),
                n == m + 1,
                i == j + 1,
        ;
    }
}

pub proof fn lemma_binomial_diagonal(n: nat)
    ensures
        binomial(n, n) == 1,
    decreases n,
{
    if n > 0 {
        lemma_binomial_diagonal((n - 1) as nat);
        lemma_binomial_above((n - 1) as nat, n);
    }
}

/// `C(n, k) * k! * (n - k)! == n!`
pub proof fn lemma_binomial_factorial(n: nat, k: nat)
    requires
        k <= n,
    ensures
        binomial(n, k) * factorial(k) * factorial((n - k) as nat) == factorial(n),
    decreases k,
{
    if k > 0 {
        let j = (k - 1) as nat;
        lemma_binomial_factorial(n, j);
        lemma_binomial_step(n, j);
        let r = (n - k) as nat;
        assert(factorial((n - j) as nat) == (n - j) * factorial(r));
        assert(factorial(k) == k * factorial(j));
        let a = binomial(n, j);
        let b = binomial(n, k);
        let fj = factorial(j);
        let fr = factorial(r);
        assert(b * factorial(k) * fr == (b * k) * (fj * fr)) by (nonlinear_arith)
            requires
                factorial(k) == k * fj,
        ;
        assert(b * k == a * (n - j));
        assert((a * (n - j)) * (fj * fr) == a * fj * ((n - j) * fr)) by (nonlinear_arith);
        assert(a * fj * factorial((n - j) as nat) == factorial(n));
        assert(b * factorial(k) * fr == factorial(n));
        assert(binomial(n, k) * factorial(k) * factorial((n - k) as nat) == factorial(n));
    } else {
        assert(binomial(n, 0) == 1 && factorial(0) == 1);
        assert((n - k) as nat == n);
        let f = factorial(n);
        assert(binomial(n, 0) * factorial(0) * f == f) by (nonlinear_arith)
            requires
                binomial(n, 0) == 1,
                factorial(0) == 1,
        ;
    }
}

pub proof fn lemma_binomial_symmetric(n: nat, k: nat)
    requires
        k <= n,
    ensures
        binomial(n, k) == binomial(n, (n - k) as nat),
{
    let r = (n - k) as nat;
    lemma_binomial_factorial(n, k);
    lemma_binomial_factorial(n, r);
    assert((n - r) as nat == k);
    lemma_factorial_positive(k);
    lemma_factorial_positive(r);
    let x = factorial(k) * factorial(r);
    assert(x > 0) by (nonlinear_arith)
        requires
            x == factorial(k) * factorial(r),
            factorial(k) >= 1,
            factorial(r) >= 1,
    ;
    assert(x * binomial(n, k) == x * binomial(n, r)) by (nonlinear_arith)
        requires
            binomial(n, k) * factorial(k) * factorial(r) == factorial(n),
            binomial(n, r) * factorial(r) * factorial(k) == factorial(n),
            x == factorial(k) * factorial(r),
    ;
    vstd::arithmetic::mul::lemma_mul_equality_converse(x as int, binomial(n, k) as int, binomial(n, r) as int);
}

/// A binomial coefficient with `k >= 1` is at most `n! / k`, so `C(n, k) * k <= n!`.
pub proof fn lemma_binomial_times_k_bounded(n: nat, k: nat)
    requires
        1 <= k <= n,
    ensures
        binomial(n, k) * k <= factorial(n),
{
    let r = (n - k) as nat;
    lemma_binomial_factorial(n, k);
    lemma_factorial_positive(r);
    lemma_factorial_positive((k - 1) as nat);
    assert(factorial(k) == k * factorial((k - 1) as nat));
    assert(binomial(n, k) * k <= factorial(n)) by (nonlinear_arith)
        requires
            binomial(n, k) * factorial(k) * factorial(r) == factorial(n),
            factorial(k) == k * factorial((k - 1) as nat),
            factorial((k - 1) as nat) >= 1,
            factorial(r) >= 1,
            k >= 1,
    ;
}

/// The binomial coefficient `n` over `k`, as a running product of exact divisions.
pub fn binomial_coefficient(n: u64, k: u64) -> (c: u64)
    requires
        n <= 20,
    ensures
        c == binomial(n as nat, k as nat),
{
    if k > n {
        proof {
            lemma_binomial_above(n as nat, k as nat);
        }
        return 0;
    }
    if k == 0 || k == n {
        proof {
            lemma_binomial_diagonal(n as nat);
        }
        return 1;
    }
    proof {
        lemma_binomial_symmetric(n as nat, k as nat);
    }
    let k = if k < n - k {
        k
    } else {
        n - k
    };
    let mut c: u64 = 1;
    let mut i: u64 = 0;
    while i < k
        invariant
            n <= 20,
            i <= k <= n,
            c == binomial(n as nat, i as nat),
        decreases k - i,
    {
        proof {
            lemma_binomial_step(n as nat, i as nat);
            lemma_binomial_times_k_bounded(n as nat, (i + 1) as nat);
            lemma_factorial_monotonic(n as nat, 20);
            lemma_factorial_20_fits();
        }
        let p = c * (n - i);
        proof {
            vstd::arithmetic::div_mod::lemma_div_by_multiple(
                binomial(n as nat, (i + 1) as nat) as int,
                (i + 1) as int,
            );
        }
        c = p / (i + 1);
        i = i + 1;
    }
    c
}

} // verus!
