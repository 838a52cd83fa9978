use finite_field::{FieldElement, FieldError, Uint256};

/// The secp256k1 field prime, least significant limb first.
const SECP256K1_P: [u64; 4] = [
    0xFFFF_FFFE_FFFF_FC2F,
    0xFFFF_FFFF_FFFF_FFFF,
    0xFFFF_FFFF_FFFF_FFFF,
    0xFFFF_FFFF_FFFF_FFFF,
];

fn fe(num: u64, prime: u64) -> FieldElement {
    FieldElement::new(Uint256::from_u64(num), Uint256::from_u64(prime)).unwrap()
}

fn big(num: [u64; 4]) -> FieldElement {
    FieldElement::new(Uint256::from_limbs(num), Uint256::from_limbs(SECP256K1_P)).unwrap()
}

fn limbs(e: &FieldElement) -> [u64; 4] {
    e.num.limbs
}

#[test]
fn new_rejects_residue_at_or_above_modulus() {
    let r = FieldElement::new(Uint256::from_u64(5), Uint256::from_u64(3));
    assert_eq!(r.unwrap_err(), FieldError::RangeViolation);
    let r = FieldElement::new(Uint256::from_u64(3), Uint256::from_u64(3));
    assert_eq!(r.unwrap_err(), FieldError::RangeViolation);
    let r = FieldElement::new(Uint256::from_u64(0), Uint256::from_u64(0));
    assert_eq!(r.unwrap_err(), FieldError::RangeViolation);
}

#[test]
fn elements_of_different_fields_differ() {
    assert_ne!(fe(2, 7), fe(2, 11));
}

#[test]
fn mismatched_fields_are_refused() {
    let a = fe(2, 7);
    let b = fe(2, 11);
    assert_eq!(a.add(&b).unwrap_err(), FieldError::FieldMismatch);
    assert_eq!(a.sub(&b).unwrap_err(), FieldError::FieldMismatch);
    assert_eq!(a.mul(&b).unwrap_err(), FieldError::FieldMismatch);
    assert_eq!(a.div(&b).unwrap_err(), FieldError::FieldMismatch);
    assert_eq!(a.div(&fe(0, 11)).unwrap_err(), FieldError::FieldMismatch);
}

#[test]
fn add_wraps_around() {
    assert_eq!(fe(5, 7).add(&fe(4, 7)).unwrap(), fe(2, 7));
    assert_eq!(fe(6, 7).add(&fe(1, 7)).unwrap(), fe(0, 7));
}

#[test]
fn sub_wraps_around() {
    assert_eq!(fe(2, 7).sub(&fe(5, 7)).unwrap(), fe(4, 7));
}

#[test]
fn sub_of_self_is_zero() {
    for v in 0..13 {
        assert_eq!(fe(v, 13).sub(&fe(v, 13)).unwrap(), fe(0, 13));
    }
}

#[test]
fn add_and_mul_commute() {
    for x in 0..11 {
        for y in 0..11 {
            let (a, b) = (fe(x, 11), fe(y, 11));
            assert_eq!(a.add(&b).unwrap(), b.add(&a).unwrap());
            assert_eq!(a.mul(&b).unwrap(), b.mul(&a).unwrap());
        }
    }
}

#[test]
fn results_stay_in_range() {
    for x in 0..7 {
        for y in 0..7 {
            let (a, b) = (fe(x, 7), fe(y, 7));
            assert!(a.add(&b).unwrap().num.limbs[0] < 7);
            assert!(a.sub(&b).unwrap().num.limbs[0] < 7);
            assert!(a.mul(&b).unwrap().num.limbs[0] < 7);
        }
    }
}

#[test]
fn fermat_identity() {
    for x in 1..13 {
        assert_eq!(fe(x, 13).pow(&Uint256::from_u64(12)).unwrap(), fe(1, 13));
    }
    let a = big([12345, 678, 9, 1]);
    let mut order = SECP256K1_P;
    order[0] -= 1;
    assert_eq!(a.pow(&Uint256::from_limbs(order)).unwrap(), big([1, 0, 0, 0]));
}

#[test]
fn div_then_mul_gives_back_dividend() {
    for x in 0..19 {
        for y in 1..19 {
            let (a, b) = (fe(x, 19), fe(y, 19));
            assert_eq!(a.div(&b).unwrap().mul(&b).unwrap(), a);
        }
    }
}

#[test]
fn negative_exponent_is_inverse_power() {
    let one = fe(1, 13);
    for x in 1..13 {
        let a = fe(x, 13);
        for n in 0..30 {
            let lhs = a.pow_i32(-n).unwrap();
            let rhs = one.div(&a.pow_i32(n).unwrap()).unwrap();
            assert_eq!(lhs, rhs);
        }
    }
}

#[test]
fn zero_powers() {
    let z = fe(0, 13);
    assert_eq!(z.pow(&Uint256::from_u64(5)).unwrap(), z);
    assert_eq!(z.pow(&Uint256::from_u64(12)).unwrap(), z);
    assert_eq!(z.pow(&Uint256::from_u64(0)).unwrap_err(), FieldError::UndefinedInverse);
    assert_eq!(z.pow_i32(0).unwrap_err(), FieldError::UndefinedInverse);
    assert_eq!(z.pow_i32(-2).unwrap_err(), FieldError::UndefinedInverse);
    assert_eq!(z.pow_i32(3).unwrap(), z);
}

#[test]
fn zero_exponent_gives_one() {
    assert_eq!(fe(5, 13).pow(&Uint256::from_u64(0)).unwrap(), fe(1, 13));
    assert_eq!(fe(5, 13).pow_i32(0).unwrap(), fe(1, 13));
}

#[test]
fn exponent_reduced_modulo_order() {
    assert_eq!(fe(3, 13).pow(&Uint256::from_u64(15)).unwrap(), fe(1, 13));
    // 2^31 is 8 modulo 12, so 2^(-2^31) is 2^4 = 3 modulo 13.
    assert_eq!(fe(2, 13).pow_i32(i32::MIN).unwrap(), fe(3, 13));
    assert_eq!(fe(2, 13).pow_i32(-1).unwrap(), fe(7, 13));
}

#[test]
fn divide_by_zero_is_refused() {
    assert_eq!(fe(3, 7).div(&fe(0, 7)).unwrap_err(), FieldError::UndefinedInverse);
}

#[test]
fn modulus_two() {
    assert_eq!(fe(1, 2).div(&fe(1, 2)).unwrap(), fe(1, 2));
    assert_eq!(fe(1, 2).pow_i32(-5).unwrap(), fe(1, 2));
    assert_eq!(fe(1, 2).add(&fe(1, 2)).unwrap(), fe(0, 2));
}

#[test]
fn large_field_arithmetic() {
    // p - 1 is -1; (-1) + (-1) = -2, (-1) * (-1) = 1, 0 - 1 = -1.
    let mut minus_one = SECP256K1_P;
    minus_one[0] -= 1;
    let mut minus_two = SECP256K1_P;
    minus_two[0] -= 2;
    let m1 = big(minus_one);
    assert_eq!(limbs(&m1.add(&m1).unwrap()), minus_two);
    assert_eq!(limbs(&m1.mul(&m1).unwrap()), [1, 0, 0, 0]);
    assert_eq!(limbs(&big([0, 0, 0, 0]).sub(&big([1, 0, 0, 0])).unwrap()), minus_one);
    // (-1) / (-1) = 1, and 2 * 2^-1 = 1.
    assert_eq!(limbs(&m1.div(&m1).unwrap()), [1, 0, 0, 0]);
    let two = big([2, 0, 0, 0]);
    let half = big([1, 0, 0, 0]).div(&two).unwrap();
    assert_eq!(limbs(&half.mul(&two).unwrap()), [1, 0, 0, 0]);
    assert_eq!(half, two.pow_i32(-1).unwrap());
}

#[test]
fn large_limbs_in_small_words() {
    let a = Uint256::from_limbs([7, 0, 0, 0]);
    assert_eq!(FieldElement::new(a, Uint256::from_u64(13)).unwrap(), fe(7, 13));
}
