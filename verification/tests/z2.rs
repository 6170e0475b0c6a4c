use lattice_toolkit::z2::Z2;

#[test]
fn z2_addition_is_xor() {
    assert_eq!(Z2::zero().add(Z2::zero()), Z2::zero());
    assert_eq!(Z2::zero().add(Z2::one()), Z2::one());
    assert_eq!(Z2::one().add(Z2::zero()), Z2::one());
    assert_eq!(Z2::one().add(Z2::one()), Z2::zero());
}

#[test]
fn z2_multiplication_is_and() {
    assert_eq!(Z2::zero().mul(Z2::zero()), Z2::zero());
    assert_eq!(Z2::zero().mul(Z2::one()), Z2::zero());
    assert_eq!(Z2::one().mul(Z2::zero()), Z2::zero());
    assert_eq!(Z2::one().mul(Z2::one()), Z2::one());
}

#[test]
fn z2_division_by_one() {
    assert_eq!(Z2::zero().div(Z2::one()), Z2::zero());
    assert_eq!(Z2::one().div(Z2::one()), Z2::one());
}

#[test]
fn z2_assigning_operations() {
    let mut a = Z2::one();
    a.add_assign(Z2::one());
    assert!(a.is_zero());
    a.sub_assign(Z2::one());
    assert_eq!(a, Z2::one());
    a.mul_assign(Z2::zero());
    assert!(a.is_zero());
}

#[test]
fn z2_not_flips() {
    assert_eq!(Z2::zero().not(), Z2::one());
    assert_eq!(Z2::one().not(), Z2::zero());
}

#[test]
fn z2_identities() {
    assert!(Z2::zero().is_zero());
    assert!(!Z2::one().is_zero());
    assert_eq!(Z2(false), Z2::zero());
    assert_eq!(Z2(true), Z2::one());
}
