//! Fermat's little theorem, by way of the binomial theorem: for a prime `p`,
//! `(x + 1)^p = x^p + 1` modulo `p`, so `a^p = a` by induction on `a`.
use vstd::arithmetic::div_mod::*;
use vstd::arithmetic::mul::lemma_mul_is_commutative;
use vstd::arithmetic::power::*;
use vstd::prelude::*;

verus! {

/// `p` is prime: at least 2, and no integer strictly between 1 and `p`
/// divides it.
pub open spec fn is_prime(p: nat) -> bool {
    p >= 2 && forall|d: nat| 1 < d < p ==> #[trigger] (p % d) != 0
}

/// Euclid's lemma: a prime that divides `a * b`, with `a` in `(0, p)`,
/// divides `b`.
pub proof fn lemma_euclid(p: nat, a: nat, b: int)
    requires
        is_prime(p),
        0 < a < p,
        (a * b) % (p as int) == 0,
    ensures
        b % (p as int) == 0,
    decreases a,
{
    if a > 1 {
        let pi = p as int;
        let ai = a as int;
        assert(p % a != 0);
        let r = p % a;
        let q = p / a;
        lemma_fundamental_div_mod(pi, ai);
        lemma_fundamental_div_mod(ai * b, pi);
        let t = (ai * b) / pi;
        assert(ai * b == pi * t);
        assert(r * b == pi * (b - q * t)) by (nonlinear_arith)
            requires
                pi == ai * q + r,
                ai * b == pi * t,
        ;
        lemma_mod_multiples_basic(b - q * t, pi);
        assert((pi * (b - q * t)) % pi == 0) by {
            lemma_mul_is_commutative(pi, b - q * t);
        }
        lemma_mod_pos_bound(pi, ai);
        lemma_euclid(p, r, b);
    } else {
        assert(a * b == b) by (nonlinear_arith)
            requires
                a == 1,
        ;
    }
}

/// The binomial coefficient `n choose k`, by Pascal's rule.
pub open spec fn binom(n: nat, k: nat) -> nat
    decreases n,
{
    if k == 0 {
        1
    } else if n == 0 {
        0
    } else {
        binom((n - 1) as nat, (k - 1) as nat) + binom((n - 1) as nat, k)
    }
}

/// `sum_{j <= k} binom(n, j) * x^j`.
pub open spec fn binom_sum(x: int, n: nat, k: nat) -> int
    decreases k,
{
    if k == 0 {
        1
    } else {
        binom_sum(x, n, (k - 1) as nat) + binom(n, k) * pow(x, k)
    }
}

proof fn lemma_binom_above(n: nat, k: nat)
    requires
        k > n,
    ensures
        binom(n, k) == 0,
    decreases n,
{
    if n > 0 {
        lemma_binom_above((n - 1) as nat, (k - 1) as nat);
        lemma_binom_above((n - 1) as nat, k);
    }
}

proof fn lemma_binom_diag(n: nat)
    ensures
        binom(n, n) == 1,
    decreases n,
{
    if n > 0 {
        lemma_binom_diag((n - 1) as nat);
        lemma_binom_above((n - 1) as nat, n);
    }
}

/// `k * binom(n, k) == n * binom(n - 1, k - 1)`.
proof fn lemma_binom_absorb(n: nat, k: nat)
    requires
        n >= 1,
        k >= 1,
    ensures
        k * binom(n, k) == n * binom((n - 1) as nat, (k - 1) as nat),
    decreases n,
{
    if n == 1 {
        if k > 1 {
            lemma_binom_above(0, (k - 1) as nat);
            lemma_binom_above(0, k);
        } else {
            assert(binom(0, 1) == 0);
            assert(binom(1, 1) == binom(0, 0) + binom(0, 1));
        }
    } else {
        let n1 = (n - 1) as nat;
        let n2 = (n - 2) as nat;
        let k1 = (k - 1) as nat;
        lemma_binom_absorb(n1, k);
        if k == 1 {
            assert(binom(n2, 0) == 1);
            assert(binom(n1, 0) == 1);
            assert(binom(n1, 1) == n1) by (nonlinear_arith)
                requires
                    k * binom(n1, k) == n1 * binom(n2, k1),
                    k == 1,
                    k1 == 0,
                    binom(n2, 0) == 1,
            ;
            assert(binom(n, 1) == binom(n1, 0) + binom(n1, 1));
            assert(binom(n, 1) == n);
        } else {
            let k2 = (k - 2) as nat;
            lemma_binom_absorb(n1, k1);
            let c = binom(n1, k1);
            assert(k1 * c == n1 * binom(n2, k2));
            assert(k * binom(n1, k) == n1 * binom(n2, k1));
            assert(c == binom(n2, k2) + binom(n2, k1));
            assert(k * binom(n, k) == k * c + k * binom(n1, k)) by (nonlinear_arith)
                requires
                    binom(n, k) == c + binom(n1, k),
            ;
            assert(k * c + k * binom(n1, k) == n * c) by (nonlinear_arith)
                requires
                    k1 * c == n1 * binom(n2, k2),
                    k * binom(n1, k) == n1 * binom(n2, k1),
                    c == binom(n2, k2) + binom(n2, k1),
                    k1 == k - 1,
                    n1 == n - 1,
            ;
        }
    }
}

/// A prime divides every binomial coefficient of its row but the two ends.
proof fn lemma_prime_divides_binom(p: nat, k: nat)
    requires
        is_prime(p),
        0 < k < p,
    ensures
        (binom(p, k) as int) % (p as int) == 0,
{
    lemma_binom_absorb(p, k);
    let c = binom((p - 1) as nat, (k - 1) as nat) as int;
    lemma_mod_multiples_basic(c, p as int);
    assert((p * c) % (p as int) == 0) by {
        lemma_mul_is_commutative(p as int, c);
    }
    lemma_euclid(p, k, binom(p, k) as int);
}

/// Pascal's rule lifted to the partial sums.
proof fn lemma_binom_sum_step(x: int, n: nat, k: nat)
    requires
        k >= 1,
    ensures
        binom_sum(x, n + 1, k) == binom_sum(x, n, k) + x * binom_sum(x, n, (k - 1) as nat),
    decreases k,
{
    let k1 = (k - 1) as nat;
    assert(binom(n + 1, k) == binom(n, k1) + binom(n, k));
    assert(pow(x, k) == x * pow(x, k1)) by {
        reveal(pow);
    }
    if k == 1 {
        assert(pow(x, 0) == 1) by {
            reveal(pow);
        }
        assert(binom(n, 0) == 1);
        assert(pow(x, 1) == x) by {
            reveal(pow);
        }
        assert(binom_sum(x, n + 1, 0) == 1);
        assert(binom_sum(x, n, 0) == 1);
        assert(binom(n + 1, 1) == 1 + binom(n, 1));
        assert(binom_sum(x, n + 1, 1) == 1 + binom(n + 1, 1) * pow(x, 1));
        assert(binom_sum(x, n + 1, 1) == 1 + (1 + binom(n, 1)) * x);
        assert(binom_sum(x, n, 1) == 1 + binom(n, 1) * pow(x, 1));
        assert(1 + (1 + binom(n, 1)) * x == 1 + binom(n, 1) * x + x * 1) by (nonlinear_arith);
    } else {
        let k2 = (k - 2) as nat;
        lemma_binom_sum_step(x, n, k1);
        let a = binom_sum(x, n, k1);
        let b = binom_sum(x, n, k2);
        let c1 = binom(n, k1) as int;
        let c = binom(n, k) as int;
        let w = pow(x, k1);
        assert(binom_sum(x, n + 1, k) == (a + x * b) + (c1 + c) * (x * w));
        assert(binom_sum(x, n, k) == a + c * (x * w));
        assert(binom_sum(x, n, k1) == b + c1 * w);
        assert((a + x * b) + (c1 + c) * (x * w) == (a + c * (x * w)) + x * (b + c1 * w))
            by (nonlinear_arith);
    }
}

/// The binomial theorem at `y = 1`: `(x + 1)^n = sum_k binom(n, k) x^k`.
proof fn lemma_binomial(x: int, n: nat)
    ensures
        pow(x + 1, n) == binom_sum(x, n, n),
    decreases n,
{
    reveal(pow);
    if n > 0 {
        let n1 = (n - 1) as nat;
        lemma_binomial(x, n1);
        lemma_binom_sum_step(x, n1, n);
        lemma_binom_above(n1, n);
        assert(binom_sum(x, n1, n) == binom_sum(x, n1, n1));
        let s = binom_sum(x, n1, n1);
        assert(s + x * s == (x + 1) * s) by (nonlinear_arith);
    }
}

/// Below the last term, the binomial sum of a prime row is 1 modulo `p`.
proof fn lemma_binom_sum_prime_row(x: int, p: nat, k: nat)
    requires
        is_prime(p),
        k < p,
    ensures
        binom_sum(x, p, k) % (p as int) == 1,
    decreases k,
{
    let pi = p as int;
    if k == 0 {
        lemma_small_mod(1, p);
    } else {
        let k1 = (k - 1) as nat;
        lemma_binom_sum_prime_row(x, p, k1);
        lemma_prime_divides_binom(p, k);
        lemma_fundamental_div_mod(binom(p, k) as int, pi);
        let t = binom(p, k) as int / pi;
        assert(binom(p, k) * pow(x, k) == pi * (t * pow(x, k))) by (nonlinear_arith)
            requires
                binom(p, k) == pi * t,
        ;
        lemma_mod_multiples_vanish(t * pow(x, k), binom_sum(x, p, k1), pi);
    }
}

/// `(x + 1)^p = x^p + 1` modulo a prime `p`.
proof fn lemma_freshman(x: int, p: nat)
    requires
        is_prime(p),
    ensures
        pow(x + 1, p) % (p as int) == (pow(x, p) + 1) % (p as int),
{
    let pi = p as int;
    lemma_binomial(x, p);
    lemma_binom_diag(p);
    let s = binom_sum(x, p, (p - 1) as nat);
    assert(pow(x + 1, p) == s + pow(x, p));
    lemma_binom_sum_prime_row(x, p, (p - 1) as nat);
    lemma_add_mod_noop(s, pow(x, p), pi);
    lemma_add_mod_noop(1, pow(x, p), pi);
    lemma_small_mod(1, p);
}

/// `a^p = a` modulo a prime `p`.
pub proof fn lemma_pow_prime_fixes(a: nat, p: nat)
    requires
        is_prime(p),
    ensures
        pow(a as int, p) % (p as int) == (a as int) % (p as int),
    decreases a,
{
    let pi = p as int;
    if a == 0 {
        lemma0_pow(p);
    } else {
        let a1 = (a - 1) as nat;
        lemma_pow_prime_fixes(a1, p);
        lemma_freshman(a1 as int, p);
        lemma_add_mod_noop(pow(a1 as int, p), 1, pi);
        lemma_add_mod_noop(a1 as int, 1, pi);
    }
}

/// Fermat's little theorem: `a^(p-1) = 1` modulo a prime `p`, for `a` in
/// `(0, p)`.
pub proof fn lemma_fermat(a: nat, p: nat)
    requires
        is_prime(p),
        0 < a < p,
    ensures
        pow(a as int, (p - 1) as nat) % (p as int) == 1,
{
    let pi = p as int;
    let w = pow(a as int, (p - 1) as nat);
    lemma_pow_prime_fixes(a, p);
    assert(pow(a as int, p) == a * w) by {
        reveal(pow);
    }
    lemma_small_mod(a, p);
    assert((a * w) % pi == (a as int) % pi);
    lemma_mod_equivalence(a * w, a as int, pi);
    assert(a * w - a == a * (w - 1)) by (nonlinear_arith);
    lemma_euclid(p, a, w - 1);
    lemma_mod_equivalence(w, 1, pi);
    lemma_small_mod(1, p);
}

} // verus!
