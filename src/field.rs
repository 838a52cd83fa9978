//! Elements of the field of integers modulo a prime `p`.
use crate::uint256::{uint_bound, Uint256};
use vstd::arithmetic::div_mod::*;
use vstd::arithmetic::power::*;
use vstd::arithmetic::power2::*;
use vstd::prelude::*;

verus! {

/// Why a field operation has no result.
#[derive(Clone, Copy, Debug, PartialEq, Eq, Structural)]
pub enum FieldError {
    /// A residue that is not below its modulus.
    RangeViolation,
    /// Two operands of different fields.
    FieldMismatch,
    /// The inverse of zero was needed: division by zero, or zero raised to
    /// an exponent that is not positive.
    UndefinedInverse,
}

/// `(a + b) mod p`.
pub open spec fn add_mod(a: nat, b: nat, p: nat) -> nat {
    (a + b) % p
}

/// `(a - b) mod p`, always in `[0, p)`.
pub open spec fn sub_mod(a: nat, b: nat, p: nat) -> nat {
    ((a - b) % (p as int)) as nat
}

/// `(a * b) mod p`.
pub open spec fn mul_mod(a: nat, b: nat, p: nat) -> nat {
    (a * b) % p
}

/// `a^e mod p` for a natural exponent.
pub open spec fn pow_mod(a: nat, e: nat, p: nat) -> nat {
    (pow(a as int, e) % (p as int)) as nat
}

/// `a^e` in the field of `p`, for any integer exponent: the exponent is
/// taken modulo `p - 1`, and a zero base gives zero.
pub open spec fn field_pow(a: nat, e: int, p: nat) -> nat {
    if a == 0 {
        0
    } else {
        pow_mod(a, (e % ((p - 1) as int)) as nat, p)
    }
}

/// Whether `field_pow(a, e, p)` has no value: zero to a power that is not
/// positive.
pub open spec fn pow_undefined(a: nat, e: int) -> bool {
    a == 0 && e <= 0
}

/// `a / b` in the field of `p`: `a * b^(p-2) mod p`.
pub open spec fn div_mod(a: nat, b: nat, p: nat) -> nat {
    (a * pow(b as int, (p - 2) as nat) % (p as int)) as nat
}

#[derive(Clone, Copy, Debug)]
pub struct FieldElement {
    pub num: Uint256,
    pub prime: Uint256,
}

impl PartialEq for FieldElement {
    fn eq(&self, other: &FieldElement) -> (r: bool) {
        self.prime.equals(&other.prime) && self.num.equals(&other.num)
    }
}

impl vstd::std_specs::cmp::PartialEqSpecImpl for FieldElement {
    open spec fn obeys_eq_spec() -> bool {
        true
    }

    open spec fn eq_spec(&self, other: &FieldElement) -> bool {
        self.val() == other.val() && self.modulus() == other.modulus()
    }
}

impl Eq for FieldElement {

}

impl FieldElement {
    /// The residue.
    pub open spec fn val(&self) -> nat {
        self.num.value()
    }

    /// The modulus of the field.
    pub open spec fn modulus(&self) -> nat {
        self.prime.value()
    }

    /// The residue lies in `[0, modulus)`.
    pub open spec fn wf(&self) -> bool {
        self.val() < self.modulus()
    }

    /// The element `num` of the field of `prime`; fails when `num` is not
    /// below `prime`.
    pub fn new(num: Uint256, prime: Uint256) -> (r: Result<FieldElement, FieldError>)
        ensures
            num.value() < prime.value() <==> r is Ok,
            r is Err ==> r == Err::<FieldElement, FieldError>(FieldError::RangeViolation),
            r matches Ok(e) ==> e.wf() && e.val() == num.value() && e.modulus() == prime.value(),
    {
        if num.lt(&prime) {
            Ok(FieldElement { num, prime })
        } else {
            Err(FieldError::RangeViolation)
        }
    }

    /// The sum of two elements of one field.
    pub fn add(&self, other: &FieldElement) -> (r: Result<FieldElement, FieldError>)
        requires
            self.wf(),
            other.wf(),
        ensures
            self.modulus() == other.modulus() <==> r is Ok,
            r is Err ==> r == Err::<FieldElement, FieldError>(FieldError::FieldMismatch),
            r matches Ok(e) ==> e.wf() && e.modulus() == self.modulus() && e.val() == add_mod(
                self.val(),
                other.val(),
                self.modulus(),
            ),
    {
        if !self.prime.equals(&other.prime) {
            return Err(FieldError::FieldMismatch);
        }
        let p = self.prime;
        let (s, wrapped) = self.num.overflowing_add(&other.num);
        proof {
            p.lemma_value_bound();
        }
        let num = if wrapped || !s.lt(&p) {
            let (d, _) = s.overflowing_sub(&p);
            proof {
                let sum = self.val() + other.val();
                let b = uint_bound() as int;
                assert(0 <= sum - p.value() < uint_bound());
                lemma_small_mod((sum - p.value()) as nat, uint_bound());
                if wrapped {
                    assert(s.value() - p.value() == b * (-1) + (sum - p.value()));
                    lemma_mod_multiples_vanish(-1, sum - p.value(), b);
                }
                assert(d.value() == sum - p.value());
                lemma_small_mod((sum - p.value()) as nat, p.value());
                lemma_mod_multiples_vanish(1, sum - p.value(), p.value() as int);
            }
            d
        } else {
            proof {
                lemma_small_mod(s.value(), p.value());
            }
            s
        };
        Ok(FieldElement { num, prime: p })
    }
    /// The difference of two elements of one field.
    pub fn sub(&self, other: &FieldElement) -> (r: Result<FieldElement, FieldError>)
        requires
            self.wf(),
            other.wf(),
        ensures
            self.modulus() == other.modulus() <==> r is Ok,
            r is Err ==> r == Err::<FieldElement, FieldError>(FieldError::FieldMismatch),
            r matches Ok(e) ==> e.wf() && e.modulus() == self.modulus() && e.val() == sub_mod(
                self.val(),
                other.val(),
                self.modulus(),
            ),
    {
        if !self.prime.equals(&other.prime) {
            return Err(FieldError::FieldMismatch);
        }
        let p = self.prime;
        let ghost a = self.val();
        let ghost b = other.val();
        proof {
            p.lemma_value_bound();
        }
        let num = if self.num.lt(&other.num) {
            let (gap, _) = p.overflowing_sub(&other.num);
            proof {
                lemma_small_mod((p.value() - b) as nat, uint_bound());
            }
            let (d, _) = gap.overflowing_add(&self.num);
            proof {
                assert(d.value() == p.value() - b + a);
                lemma_mod_multiples_vanish(1, a - b, p.value() as int);
                lemma_small_mod((p.value() - b + a) as nat, p.value());
            }
            d
        } else {
            let (d, _) = self.num.overflowing_sub(&other.num);
            proof {
                lemma_small_mod((a - b) as nat, uint_bound());
                lemma_small_mod((a - b) as nat, p.value());
            }
            d
        };
        Ok(FieldElement { num, prime: p })
    }

    /// The product of two elements of one field.
    pub fn mul(&self, other: &FieldElement) -> (r: Result<FieldElement, FieldError>)
        requires
            self.wf(),
            other.wf(),
        ensures
            self.modulus() == other.modulus() <==> r is Ok,
            r is Err ==> r == Err::<FieldElement, FieldError>(FieldError::FieldMismatch),
            r matches Ok(e) ==> e.wf() && e.modulus() == self.modulus() && e.val() == mul_mod(
                self.val(),
                other.val(),
                self.modulus(),
            ),
    {
        if !self.prime.equals(&other.prime) {
            return Err(FieldError::FieldMismatch);
        }
        let num = self.num.mul_mod(&other.num, &self.prime);
        Ok(FieldElement { num, prime: self.prime })
    }
}

/// Splitting off bit `i`: `e mod 2^(i+1)` is `e mod 2^i` plus that bit's
/// weight when it is set.
proof fn lemma_mod_pow2_step(e: nat, i: nat)
    ensures
        e % pow2(i + 1) == e % pow2(i) + (if (e / pow2(i)) % 2 == 1 {
            pow2(i)
        } else {
            0
        }),
{
    let w = pow2(i) as int;
    lemma_pow2_pos(i);
    lemma_pow2_unfold(i + 1);
    assert(pow2(i + 1) as int == w * 2);
    lemma_mod_breakdown(e as int, w, 2);
    let bit = (e as int / w) % 2;
    assert(bit == 0 || bit == 1);
    if bit == 1 {
        assert(w * bit == w);
    } else {
        assert(w * bit == 0);
    }
}

/// `base^exponent mod m` by square-and-multiply over the bits of `exponent`.
fn pow_mod_exec(base: &Uint256, exponent: &Uint256, m: &Uint256) -> (r: Uint256)
    requires
        m.value() > 0,
    ensures
        r.value() == pow_mod(base.value(), exponent.value(), m.value()),
        r.value() < m.value(),
{
    let ghost b = base.value() as int;
    let ghost e = exponent.value() as int;
    let ghost mm = m.value() as int;
    let n = exponent.bits();
    let mut result = Uint256::from_u64(1).rem(m);
    let mut square = base.rem(m);
    let mut i: usize = 0;
    proof {
        lemma_pow0(b);
        reveal(pow);
    }
    while i < n
        invariant
            0 <= i <= n <= 256,
            mm == m.value(),
            mm > 0,
            e == exponent.value(),
            b == base.value(),
            e < pow2(n as nat),
            result.value() == pow(b, (e % pow2(i as nat) as int) as nat) % mm,
            square.value() == pow(b, pow2(i as nat)) % mm,
        decreases n - i,
    {
        let ghost low = e % pow2(i as nat) as int;
        let ghost sq = pow(b, pow2(i as nat));
        proof {
            lemma_mod_pow2_step(e as nat, i as nat);
            lemma_pow2_unfold((i + 1) as nat);
            assert((i + 1) as nat == i as nat + 1);
            assert(exponent.value() / pow2(i as nat) == (e as nat) / pow2(i as nat));
        }
        if exponent.bit(i) {
            proof {
                assert(e % pow2((i + 1) as nat) as int == pow2(i as nat) + low);
                lemma_pow_adds(b, low as nat, pow2(i as nat));
                lemma_mul_mod_noop(pow(b, low as nat), sq, mm);
            }
            result = result.mul_mod(&square, m);
        } else {
            proof {
                assert(e % pow2((i + 1) as nat) as int == low);
            }
        }
        proof {
            lemma_pow_adds(b, pow2(i as nat), pow2(i as nat));
            lemma_mul_mod_noop(sq, sq, mm);
        }
        square = square.mul_mod(&square, m);
        i = i + 1;
    }
    proof {
        lemma_small_mod(e as nat, pow2(n as nat));
    }
    result
}

impl FieldElement {
    /// `self^exponent`, the exponent taken modulo `p - 1`; fails for zero
    /// raised to the exponent zero.
    pub fn pow(&self, exponent: &Uint256) -> (r: Result<FieldElement, FieldError>)
        requires
            self.wf(),
        ensures
            !pow_undefined(self.val(), exponent.value() as int) <==> r is Ok,
            r is Err ==> r == Err::<FieldElement, FieldError>(FieldError::UndefinedInverse),
            r matches Ok(e) ==> e.wf() && e.modulus() == self.modulus() && e.val() == field_pow(
                self.val(),
                exponent.value() as int,
                self.modulus(),
            ),
    {
        let zero = Uint256::from_u64(0);
        if self.num.equals(&zero) {
            if exponent.equals(&zero) {
                return Err(FieldError::UndefinedInverse);
            }
            return Ok(FieldElement { num: zero, prime: self.prime });
        }
        let order = self.group_order();
        let e = exponent.rem(&order);
        Ok(FieldElement { num: pow_mod_exec(&self.num, &e, &self.prime), prime: self.prime })
    }

    /// `self^exponent` for a signed exponent: a negative one gives the
    /// inverse of the matching positive power. Fails for zero raised to an
    /// exponent that is not positive.
    pub fn pow_i32(&self, exponent: i32) -> (r: Result<FieldElement, FieldError>)
        requires
            self.wf(),
        ensures
            !pow_undefined(self.val(), exponent as int) <==> r is Ok,
            r is Err ==> r == Err::<FieldElement, FieldError>(FieldError::UndefinedInverse),
            r matches Ok(e) ==> e.wf() && e.modulus() == self.modulus() && e.val() == field_pow(
                self.val(),
                exponent as int,
                self.modulus(),
            ),
    {
        if exponent >= 0 {
            return self.pow(&Uint256::from_u64(exponent as u64));
        }
        let zero = Uint256::from_u64(0);
        if self.num.equals(&zero) {
            return Err(FieldError::UndefinedInverse);
        }
        let order = self.group_order();
        let n = Uint256::from_u64((0 - (exponent as i64)) as u64);
        let k = n.rem(&order);
        let e = if k.equals(&zero) {
            k
        } else {
            order.overflowing_sub(&k).0
        };
        proof {
            let m = order.value() as int;
            let nn = n.value() as int;
            lemma_small_mod((m - k.value()) as nat, uint_bound());
            lemma_fundamental_div_mod(nn, m);
            let q = nn / m;
            let kv = k.value() as int;
            assert(-nn == m * (-q - 1) + (m - kv)) by (nonlinear_arith)
                requires
                    nn == m * q + kv,
            ;
            lemma_mod_multiples_vanish(-(nn / m) - 1, m - k.value(), m);
            if k.value() == 0 {
                lemma_small_mod(0, m as nat);
                lemma_mod_self_0(m);
            } else {
                lemma_small_mod((m - k.value()) as nat, m as nat);
            }
            assert(e.value() == (exponent as int) % m);
        }
        Ok(FieldElement { num: pow_mod_exec(&self.num, &e, &self.prime), prime: self.prime })
    }

    /// `p - 1` for an element that is not zero, so that `p >= 2`.
    fn group_order(&self) -> (r: Uint256)
        requires
            self.wf(),
            self.val() != 0,
        ensures
            r.value() == self.modulus() - 1,
            r.value() > 0,
    {
        proof {
            self.prime.lemma_value_bound();
            lemma_small_mod((self.modulus() - 1) as nat, uint_bound());
        }
        self.prime.overflowing_sub(&Uint256::from_u64(1)).0
    }

    /// The quotient of two elements of one field: `self * other^(p-2)`.
    /// Fails for a divisor of another field, then for a zero divisor.
    pub fn div(&self, other: &FieldElement) -> (r: Result<FieldElement, FieldError>)
        requires
            self.wf(),
            other.wf(),
        ensures
            (self.modulus() == other.modulus() && other.val() != 0) <==> r is Ok,
            self.modulus() != other.modulus() ==> r == Err::<FieldElement, FieldError>(
                FieldError::FieldMismatch,
            ),
            self.modulus() == other.modulus() && other.val() == 0 ==> r == Err::<
                FieldElement,
                FieldError,
            >(FieldError::UndefinedInverse),
            r matches Ok(e) ==> e.wf() && e.modulus() == self.modulus() && e.val() == div_mod(
                self.val(),
                other.val(),
                self.modulus(),
            ),
    {
        if !self.prime.equals(&other.prime) {
            return Err(FieldError::FieldMismatch);
        }
        if other.num.equals(&Uint256::from_u64(0)) {
            return Err(FieldError::UndefinedInverse);
        }
        let p = self.prime;
        proof {
            p.lemma_value_bound();
            lemma_small_mod((p.value() - 2) as nat, uint_bound());
        }
        let (exp, _) = p.overflowing_sub(&Uint256::from_u64(2));
        let inverse = pow_mod_exec(&other.num, &exp, &p);
        proof {
            lemma_mul_mod_noop_right(
                self.val() as int,
                pow(other.val() as int, exp.value()),
                p.value() as int,
            );
        }
        Ok(FieldElement { num: self.num.mul_mod(&inverse, &p), prime: p })
    }
}

} // verus!
