use snarkvm_core::field::{Fp, MULTIPLICATIVE_GENERATOR, P, TWO_ADICITY};
use snarkvm_core::group::GroupElement;

#[test]
fn test_field_arithmetic() {
    let a = Fp::from_u64(123456789);
    let b = Fp::from_u64(987654321);
    // exact small products
    assert_eq!(Fp::from_u64(6).mul(Fp::from_u64(7)), Fp::from_u64(42));
    // reduction at the modulus
    assert_eq!(Fp::from_u64(P), Fp::zero());
    assert_eq!(Fp::from_u64(P + 1), Fp::one());
    // subtraction wraps
    assert_eq!(Fp::zero().sub(Fp::one()), Fp::from_u64(P - 1));
    // a - b + b == a
    assert_eq!(a.sub(b).add(b), a);
    // negation
    assert_eq!(a.add(a.neg()), Fp::zero());
}

#[test]
fn test_inverse() {
    for v in 1u64..50 {
        let a = Fp::from_u64(v);
        let inv = a.inverse().unwrap();
        assert_eq!(a.mul(inv), Fp::one());
    }
    assert!(Fp::zero().inverse().is_none());
}

#[test]
fn test_pow() {
    let a = Fp::from_u64(3);
    assert_eq!(a.pow(0), Fp::one());
    assert_eq!(a.pow(1), a);
    assert_eq!(a.pow(5), Fp::from_u64(243));
    // Fermat: a^(P-1) == 1 for nonzero a
    assert_eq!(a.pow(P - 1), Fp::one());
}

#[test]
fn test_two_adic_root_of_unity() {
    // the generator raised to (P-1)/2^k has exact order 2^k
    let g = Fp::from_u64(MULTIPLICATIVE_GENERATOR);
    let root = g.pow((P - 1) / (1 << TWO_ADICITY));
    let half: u64 = 1 << (TWO_ADICITY - 1);
    assert_eq!(root.pow(half), Fp::from_u64(P - 1));
    assert_eq!(root.pow(2 * half), Fp::one());
}

#[test]
fn test_group_operations() {
    let base = GroupElement::base_point();
    let zero = GroupElement::zero();
    // the base point is on the curve, and stays there under the ops
    assert!(base.on_curve_check());
    assert!(base.add(base).on_curve_check());
    assert!(base.double().on_curve_check());
    assert!(base.neg().on_curve_check());
    // the identity is neutral
    assert_eq!(zero.add(base), base);
    assert_eq!(base.add(zero), base);
    // doubling agrees with self-addition
    assert_eq!(base.double(), base.add(base));
    // adding the negation returns to the identity
    assert!(base.add(base.neg()).is_zero());
    // scalar multiples chain
    assert_eq!(base.scalar_mul(5), base.double().double().add(base));
}
