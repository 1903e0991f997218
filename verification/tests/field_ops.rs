use prime_field::FieldElement;
use prime_field::FieldError;

#[test]
fn test_ne() {
    let a = FieldElement::new(2, 31).unwrap();
    let b = FieldElement::new(2, 31).unwrap();
    let c = FieldElement::new(15, 31).unwrap();
    assert_eq!(a, b);
    assert_ne!(a, c);
    assert!(a == b);
}

#[test]
fn test_add() {
    let a = FieldElement::new(2, 31).unwrap();
    let b = FieldElement::new(15, 31).unwrap();
    assert_eq!(a.add(&b).unwrap(), FieldElement::new(17, 31).unwrap());
    let a = FieldElement::new(17, 31).unwrap();
    let b = FieldElement::new(21, 31).unwrap();
    assert_eq!(a.add(&b).unwrap(), FieldElement::new(7, 31).unwrap());
}

#[test]
fn test_sub() {
    let a = FieldElement::new(29, 31).unwrap();
    let b = FieldElement::new(4, 31).unwrap();
    assert_eq!(a.sub(&b).unwrap(), FieldElement::new(25, 31).unwrap());
    let a = FieldElement::new(5, 31).unwrap();
    let b = FieldElement::new(30, 31).unwrap();
    // 5 - 30 is -25, and the Euclidean reduction modulo 31 gives 6.
    assert_eq!(a.sub(&b).unwrap(), FieldElement::new(6, 31).unwrap());
}

#[test]
fn test_mul() {
    let a = FieldElement::new(24, 31).unwrap();
    let b = FieldElement::new(19, 31).unwrap();
    assert_eq!(a.mul(&b).unwrap(), FieldElement::new(22, 31).unwrap());
}

#[test]
fn test_pow() {
    let a = FieldElement::new(17, 31).unwrap();
    assert_eq!(a.pow(3), FieldElement::new(15, 31).unwrap());
    let a = FieldElement::new(5, 31).unwrap();
    let b = FieldElement::new(18, 31).unwrap();
    assert_eq!(a.pow(5).mul(&b), FieldElement::new(16, 31));
}

#[test]
fn tets_div() {
    let a = FieldElement::new(3, 31).unwrap();
    let b = FieldElement::new(24, 31).unwrap();
    assert_eq!(a.true_div(&b).unwrap(), FieldElement::new(4, 31).unwrap());
    let a = FieldElement::new(17, 31).unwrap();
    assert_eq!(a.pow(-3), FieldElement::new(29, 31).unwrap());
    let a = FieldElement::new(4, 31).unwrap();
    let b = FieldElement::new(11, 31).unwrap();
    assert_eq!(a.pow(-4).mul(&b), FieldElement::new(13, 31));
}

#[test]
fn test_construction_boundary() {
    assert_eq!(
        FieldElement::new(31, 31),
        Err(FieldError::OutOfRange { num: 31, prime: 31 })
    );
    assert_eq!(
        FieldElement::new(-1, 31),
        Err(FieldError::OutOfRange { num: -1, prime: 31 })
    );
    assert!(FieldElement::new(0, 31).is_ok());
    assert!(FieldElement::new(30, 31).is_ok());
}

#[test]
fn test_field_mismatch() {
    let a = FieldElement::new(2, 31).unwrap();
    let b = FieldElement::new(2, 37).unwrap();
    assert_eq!(a.add(&b), Err(FieldError::FieldMismatch));
    assert_eq!(a.sub(&b), Err(FieldError::FieldMismatch));
    assert_eq!(a.mul(&b), Err(FieldError::FieldMismatch));
    assert_eq!(a.true_div(&b), Err(FieldError::FieldMismatch));
}

#[test]
fn test_division_by_zero() {
    let a = FieldElement::new(2, 31).unwrap();
    let zero = FieldElement::new(0, 31).unwrap();
    assert_eq!(a.true_div(&zero), Err(FieldError::DivisionByZero));
}

#[test]
fn test_sub_self_and_add_zero() {
    let zero = FieldElement::new(0, 31).unwrap();
    for n in 0i32..31 {
        let a = FieldElement::new(n, 31).unwrap();
        assert_eq!(a.sub(&a).unwrap(), zero);
        assert_eq!(a.add(&zero).unwrap(), a);
    }
}

#[test]
fn test_true_div_self_is_one() {
    let one = FieldElement::new(1, 31).unwrap();
    for n in 1i32..31 {
        let a = FieldElement::new(n, 31).unwrap();
        assert_eq!(a.true_div(&a).unwrap(), one);
    }
}

#[test]
fn test_fermat_consistency() {
    let one = FieldElement::new(1, 31).unwrap();
    for n in 1i32..31 {
        let a = FieldElement::new(n, 31).unwrap();
        assert_eq!(a.pow(30), one);
    }
}

#[test]
fn test_negative_exponent_equivalence() {
    let a = FieldElement::new(17, 31).unwrap();
    assert_eq!(a.pow(-3), a.pow(30 - 3));
    let b = FieldElement::new(4, 31).unwrap();
    assert_eq!(b.pow(-4), b.pow(30 - 4));
}

#[test]
fn test_pow_edge_exponents() {
    let a = FieldElement::new(17, 31).unwrap();
    assert_eq!(a.pow(0), FieldElement::new(1, 31).unwrap());
    assert_eq!(a.pow(30), FieldElement::new(1, 31).unwrap());
    assert_eq!(a.pow(33), a.pow(3));
    let zero = FieldElement::new(0, 31).unwrap();
    assert_eq!(zero.pow(2), zero);
}

#[test]
fn test_closure_in_range() {
    let a = FieldElement::new(29, 31).unwrap();
    let b = FieldElement::new(30, 31).unwrap();
    assert_eq!(a.add(&b).unwrap(), FieldElement::new(28, 31).unwrap());
    assert_eq!(a.sub(&b).unwrap(), FieldElement::new(30, 31).unwrap());
    assert_eq!(a.mul(&b).unwrap(), FieldElement::new(2, 31).unwrap());
}

#[test]
fn test_large_prime() {
    // 2147483647 == 2^31 - 1, the largest prime an i32 can hold.
    let p: i32 = 2147483647;
    let a = FieldElement::new(p - 1, p).unwrap();
    let one = FieldElement::new(1, p).unwrap();
    assert_eq!(a.mul(&a).unwrap(), one);
    assert_eq!(a.add(&a).unwrap(), FieldElement::new(p - 2, p).unwrap());
    assert_eq!(a.pow(2), one);
    assert_eq!(a.true_div(&a).unwrap(), one);
}

#[test]
fn test_representation() {
    let a = FieldElement::new(2, 31).unwrap();
    assert_eq!(a.representation(), "2,31");
    let b = FieldElement::new(0, 31).unwrap();
    assert_eq!(b.representation(), "0,31");
    let c = FieldElement::new(123, 1009).unwrap();
    assert_eq!(c.representation(), "123,1009");
    let d = FieldElement::new(2147483646, 2147483647).unwrap();
    assert_eq!(d.representation(), "2147483646,2147483647");
}

#[test]
fn test_eq_ne_against_absent() {
    let a = FieldElement::new(2, 31).unwrap();
    let b = FieldElement::new(2, 31).unwrap();
    let c = FieldElement::new(15, 31).unwrap();
    let d = FieldElement::new(2, 37).unwrap();
    assert!(!a.eq(&None));
    assert!(a.ne(&None));
    assert!(a.eq(&Some(b)));
    assert!(!a.ne(&Some(b)));
    assert!(!a.eq(&Some(c)));
    assert!(a.ne(&Some(c)));
    assert!(!a.eq(&Some(d)));
    assert!(a.ne(&Some(d)));
}
