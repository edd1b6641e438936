use bf_prover::field::Fe;
use bf_prover::P;

#[test]
fn test_add_wraps_at_modulus() {
    let a = Fe::new(P - 1);
    let b = Fe::new(2);
    assert_eq!(a.add(b).v, 1);
}

#[test]
fn test_sub_borrows_from_modulus() {
    let a = Fe::new(1);
    let b = Fe::new(3);
    assert_eq!(a.sub(b).v, P - 2);
}

#[test]
fn test_mul_reduces() {
    let a = Fe::new(300);
    let b = Fe::new(400);
    assert_eq!(a.mul(b).v, 120000 % P);
}

#[test]
fn test_neg_is_additive_inverse() {
    let a = Fe::new(12345);
    assert_eq!(a.add(a.neg()).v, 0);
}

#[test]
fn test_inv_is_multiplicative_inverse() {
    for x in [1u64, 2, 3, 255, 256, 65520] {
        let a = Fe::new(x);
        assert_eq!(a.mul(a.inv()).v, 1);
    }
}

#[test]
fn test_inv_of_two() {
    // 2 * 32761 == 65522 == P + 1
    assert_eq!(Fe::new(2).inv().v, 32761);
}

#[test]
fn test_zero_and_one() {
    assert_eq!(Fe::zero().v, 0);
    assert_eq!(Fe::one().v, 1);
    assert!(Fe::zero().is_zero());
    assert!(!Fe::one().is_zero());
}
