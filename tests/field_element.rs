use finite_field::{FieldElement, FieldError, Uint256};

fn fe(num: u64, prime: u64) -> FieldElement {
    FieldElement::new(Uint256::from_u64(num), Uint256::from_u64(prime)).unwrap()
}

fn u(v: u64) -> Uint256 {
    Uint256::from_u64(v)
}

#[test]
fn new() {
    FieldElement::new(u(2), u(3)).unwrap();
}

#[test]
fn eq() {
    let a = fe(2, 3);
    let b = fe(2, 3);
    let c = fe(1, 3);

    assert_eq!(a, b);
    assert_ne!(a, c);
}

#[test]
fn add() {
    let a = fe(2, 7);
    let b = fe(1, 7);
    let c = fe(3, 7);

    assert_eq!(a.add(&b).unwrap(), c);
}

#[test]
fn sub() {
    let a = fe(6, 7);
    let b = fe(4, 7);
    let c = fe(2, 7);

    assert_eq!(a.sub(&b).unwrap(), c);
}

#[test]
fn mul() {
    let a = fe(3, 13);
    let b = fe(12, 13);
    let c = fe(10, 13);

    assert_eq!(a.mul(&b).unwrap(), c);
}

#[test]
fn pow() {
    let a = fe(3, 13);
    let b = fe(1, 13);

    assert_eq!(a.pow(&u(3)).unwrap(), b);

    let c = fe(7, 13);
    let d = fe(8, 13);

    assert_eq!(c.pow_i32(-3).unwrap(), d);
}

#[test]
fn div() {
    let a = fe(7, 19);
    let b = fe(5, 19);
    let c = fe(9, 19);

    assert_eq!(a.div(&b).unwrap(), c);
}
