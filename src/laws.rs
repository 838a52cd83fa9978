//! Algebraic laws of the field operations, stated over the same spec
//! functions that the operations' contracts use.
use crate::fermat::{is_prime, lemma_euclid, lemma_fermat};
use crate::field::{add_mod, div_mod, field_pow, mul_mod, pow_mod, sub_mod, FieldElement};
use vstd::arithmetic::div_mod::*;
use vstd::arithmetic::power::*;
use vstd::prelude::*;

verus! {

/// An element minus itself is zero.
pub proof fn lemma_sub_self(a: FieldElement)
    requires
        a.wf(),
    ensures
        sub_mod(a.val(), a.val(), a.modulus()) == 0,
{
    lemma_small_mod(0, a.modulus());
}

/// Addition commutes.
pub proof fn lemma_add_commutes(a: FieldElement, b: FieldElement)
    requires
        a.wf(),
        b.wf(),
        a.modulus() == b.modulus(),
    ensures
        add_mod(a.val(), b.val(), a.modulus()) == add_mod(b.val(), a.val(), a.modulus()),
{
}

/// Multiplication commutes.
pub proof fn lemma_mul_commutes(a: FieldElement, b: FieldElement)
    requires
        a.wf(),
        b.wf(),
        a.modulus() == b.modulus(),
    ensures
        mul_mod(a.val(), b.val(), a.modulus()) == mul_mod(b.val(), a.val(), a.modulus()),
{
    assert(a.val() * b.val() == b.val() * a.val()) by (nonlinear_arith);
}

/// A nonzero element raised to `p - 1` is one.
pub proof fn lemma_pow_order_is_one(a: FieldElement)
    requires
        a.wf(),
        a.val() != 0,
    ensures
        field_pow(a.val(), a.modulus() - 1, a.modulus()) == 1,
{
    let m = a.modulus() - 1;
    lemma_mod_self_0(m);
    lemma_pow0(a.val() as int);
    lemma_small_mod(1, a.modulus());
}

/// Powers of a nonzero element of a prime field are nonzero.
proof fn lemma_pow_nonzero(a: nat, p: nat, e: nat)
    requires
        is_prime(p),
        0 < a < p,
    ensures
        pow(a as int, e) % (p as int) != 0,
    decreases e,
{
    if e == 0 {
        lemma_pow0(a as int);
        lemma_small_mod(1, p);
    } else {
        let w = pow(a as int, (e - 1) as nat);
        lemma_pow_nonzero(a, p, (e - 1) as nat);
        assert(pow(a as int, e) == a * w) by {
            reveal(pow);
        }
        if (a * w) % (p as int) == 0 {
            lemma_euclid(p, a, w);
        }
    }
}

/// Exponents that agree modulo `p - 1` give the same power of a nonzero
/// element of a prime field.
proof fn lemma_pow_congruent_exponents(a: nat, p: nat, u: nat, v: nat)
    requires
        is_prime(p),
        0 < a < p,
        u >= v,
        (u - v) % ((p - 1) as int) == 0,
    ensures
        pow(a as int, u) % (p as int) == pow(a as int, v) % (p as int),
{
    let pi = p as int;
    let m = (p - 1) as nat;
    let t = ((u - v) / (m as int)) as nat;
    lemma_fundamental_div_mod(u - v, m as int);
    assert(u == v + m * t);
    lemma_pow_adds(a as int, v, m * t);
    lemma_pow_multiplies(a as int, m, t);
    let f = pow(a as int, m);
    lemma_pow_mod_noop(f, t, pi);
    lemma_fermat(a, p);
    lemma1_pow(t);
    lemma_small_mod(1, p);
    assert(pow(f, t) % pi == 1);
    lemma_mul_mod_noop_right(pow(a as int, v), pow(f, t), pi);
}

/// Dividing by a nonzero `b` and then multiplying by `b` gives back the
/// dividend, in a prime field.
pub proof fn lemma_div_mul_cancel(a: FieldElement, b: FieldElement)
    requires
        a.wf(),
        b.wf(),
        a.modulus() == b.modulus(),
        is_prime(a.modulus()),
        b.val() != 0,
    ensures
        mul_mod(div_mod(a.val(), b.val(), a.modulus()), b.val(), a.modulus()) == a.val(),
{
    let p = a.modulus();
    let pi = p as int;
    let x = a.val() as int;
    let y = b.val() as int;
    let w = pow(y, (p - 2) as nat);
    let f = pow(y, (p - 1) as nat);
    assert(f == y * w) by {
        reveal(pow);
    }
    lemma_mul_mod_noop_left(x * w, y, pi);
    assert((x * w) * y == x * f) by (nonlinear_arith)
        requires
            f == y * w,
    ;
    lemma_fermat(b.val(), p);
    lemma_mul_mod_noop_right(x, f, pi);
    lemma_small_mod(a.val(), p);
}

/// A negative exponent gives the inverse of the matching positive power:
/// `a^(-n) = 1 / a^n` for nonzero `a` in a prime field, where `a^n` is
/// nonzero.
pub proof fn lemma_negative_exponent(a: FieldElement, n: nat)
    requires
        a.wf(),
        a.val() != 0,
        is_prime(a.modulus()),
    ensures
        field_pow(a.val(), n as int, a.modulus()) != 0,
        field_pow(a.val(), -n, a.modulus()) == div_mod(
            1,
            field_pow(a.val(), n as int, a.modulus()),
            a.modulus(),
        ),
{
    let p = a.modulus();
    let pi = p as int;
    let av = a.val();
    let m = p - 1;
    let x = (n as int % m) as nat;
    let y = ((-n) % m) as nat;
    lemma_pow_nonzero(av, p, x);
    let c = pow(av as int, x) % pi;
    lemma_pow_mod_noop(pow(av as int, x), (p - 2) as nat, pi);
    lemma_pow_multiplies(av as int, x, (p - 2) as nat);
    let u = x * (p - 2) as nat;
    lemma_fundamental_div_mod(n as int, m);
    let q = n as int / m;
    lemma_mod_multiples_vanish(-q, -(x as int), m);
    assert(-n == m * (-q) + -(x as int)) by (nonlinear_arith)
        requires
            n == m * q + x,
    ;
    assert(y == (-(x as int)) % m);
    if x == 0 {
        lemma_mod_self_0(m);
        lemma_small_mod(0, m as nat);
        assert(u == 0) by (nonlinear_arith)
            requires
                u == x * (p - 2),
                x == 0,
        ;
    } else {
        lemma_mod_multiples_vanish(-1, m - x, m);
        lemma_small_mod((m - x) as nat, m as nat);
        assert(y == m - x);
        assert(u - y == m * (x - 1)) by (nonlinear_arith)
            requires
                u == x * (m - 1),
                y == m - x,
        ;
        lemma_mod_multiples_basic(x - 1, m);
        assert((m * (x - 1)) % m == 0) by {
            vstd::arithmetic::mul::lemma_mul_is_commutative(m, x - 1);
        }
    }
    lemma_pow_congruent_exponents(av, p, u, y);
    assert(1 * pow(c, (p - 2) as nat) == pow(c, (p - 2) as nat));
}

} // verus!
