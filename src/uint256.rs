//! A 256-bit unsigned integer held as four little-endian 64-bit limbs.
//!
//! The arithmetic itself is done by `primitive_types::U256`; each call goes
//! through one small wrapper below whose contract states the result over
//! [`Uint256::value`].
use vstd::arithmetic::power2::pow2;
use vstd::prelude::*;

verus! {

/// The radix of one limb, 2^64.
pub open spec fn limb_base() -> nat {
    0x1_0000_0000_0000_0000
}

/// 2^256, one past the largest value a [`Uint256`] holds.
pub open spec fn uint_bound() -> nat {
    limb_base() * limb_base() * limb_base() * limb_base()
}

/// The integer denoted by four little-endian limbs.
pub open spec fn limbs_value(l: [u64; 4]) -> nat {
    l[0] as nat + limb_base() * (l[1] as nat + limb_base() * (l[2] as nat + limb_base()
        * (l[3] as nat)))
}

#[derive(Clone, Copy, Debug)]
pub struct Uint256 {
    /// Least significant limb first.
    pub limbs: [u64; 4],
}

impl Uint256 {
    pub open spec fn value(&self) -> nat {
        limbs_value(self.limbs)
    }

    pub proof fn lemma_value_bound(&self)
        ensures
            self.value() < uint_bound(),
    {
        let b = limb_base() as int;
        let l0 = self.limbs[0] as int;
        let l1 = self.limbs[1] as int;
        let l2 = self.limbs[2] as int;
        let l3 = self.limbs[3] as int;
        assert(l2 + b * l3 < b * b) by (nonlinear_arith)
            requires
                0 <= l2 < b,
                0 <= l3 < b,
        ;
        assert(l1 + b * (l2 + b * l3) < b * b * b) by (nonlinear_arith)
            requires
                0 <= l1 < b,
                0 <= l2 + b * l3 < b * b,
                b > 0,
        ;
        assert(l0 + b * (l1 + b * (l2 + b * l3)) < b * b * b * b) by (nonlinear_arith)
            requires
                0 <= l0 < b,
                0 <= l1 + b * (l2 + b * l3) < b * b * b,
                b > 0,
        ;
    }

    pub fn from_u64(v: u64) -> (r: Uint256)
        ensures
            r.value() == v,
    {
        Uint256 { limbs: [v, 0, 0, 0] }
    }

    pub fn from_limbs(limbs: [u64; 4]) -> (r: Uint256)
        ensures
            r.value() == limbs_value(limbs),
    {
        Uint256 { limbs }
    }

    /// Relies on `U256::overflowing_add`: the sum modulo 2^256, and whether
    /// it wrapped.
    #[verifier::external_body]
    pub(crate) fn overflowing_add(&self, other: &Uint256) -> (r: (Uint256, bool))
        ensures
            r.0.value() + (if r.1 {
                uint_bound()
            } else {
                0
            }) == self.value() + other.value(),
    {
        let (s, o) = primitive_types::U256(self.limbs).overflowing_add(
            primitive_types::U256(other.limbs),
        );
        (Uint256 { limbs: s.0 }, o)
    }

    /// Relies on `U256::overflowing_sub`: the difference modulo 2^256, and
    /// whether it wrapped.
    #[verifier::external_body]
    pub(crate) fn overflowing_sub(&self, other: &Uint256) -> (r: (Uint256, bool))
        ensures
            r.0.value() == (self.value() - other.value()) % (uint_bound() as int),
            r.1 == (self.value() < other.value()),
    {
        let (d, o) = primitive_types::U256(self.limbs).overflowing_sub(
            primitive_types::U256(other.limbs),
        );
        (Uint256 { limbs: d.0 }, o)
    }

    /// Relies on `Ord for U256`: numeric comparison.
    #[verifier::external_body]
    pub(crate) fn lt(&self, other: &Uint256) -> (r: bool)
        ensures
            r == (self.value() < other.value()),
    {
        primitive_types::U256(self.limbs) < primitive_types::U256(other.limbs)
    }

    /// Relies on `PartialEq for U256`: numeric equality.
    #[verifier::external_body]
    pub(crate) fn equals(&self, other: &Uint256) -> (r: bool)
        ensures
            r == (self.value() == other.value()),
    {
        primitive_types::U256(self.limbs) == primitive_types::U256(other.limbs)
    }

    /// Relies on `Rem for U256`: the remainder of division; it panics on a
    /// zero divisor.
    #[verifier::external_body]
    pub(crate) fn rem(&self, m: &Uint256) -> (r: Uint256)
        requires
            m.value() > 0,
        ensures
            r.value() == self.value() % m.value(),
    {
        Uint256 { limbs: (primitive_types::U256(self.limbs) % primitive_types::U256(m.limbs)).0 }
    }

    /// Relies on `U256::full_mul` (the exact 512-bit product) and `Rem for
    /// U512`. The remainder is below `m`, so its high limbs are zero and the
    /// low four hold it.
    #[verifier::external_body]
    pub(crate) fn mul_mod(&self, other: &Uint256, m: &Uint256) -> (r: Uint256)
        requires
            m.value() > 0,
        ensures
            r.value() == (self.value() * other.value()) % m.value(),
    {
        let prod = primitive_types::U256(self.limbs).full_mul(primitive_types::U256(other.limbs));
        let w = (prod % primitive_types::U512::from(primitive_types::U256(m.limbs))).0;
        Uint256 { limbs: [w[0], w[1], w[2], w[3]] }
    }

    /// Relies on `U256::bit`: whether bit `index` is set; it panics past the
    /// 256th bit.
    #[verifier::external_body]
    pub(crate) fn bit(&self, index: usize) -> (r: bool)
        requires
            index < 256,
        ensures
            r == ((self.value() / pow2(index as nat)) % 2 == 1),
    {
        primitive_types::U256(self.limbs).bit(index)
    }

    /// Relies on `U256::bits`: the position just past the highest set bit.
    #[verifier::external_body]
    pub(crate) fn bits(&self) -> (r: usize)
        ensures
            r <= 256,
            self.value() < pow2(r as nat),
            r > 0 ==> pow2((r - 1) as nat) <= self.value(),
    {
        primitive_types::U256(self.limbs).bits()
    }
}

} // verus!
