use advz::field::{polynomial_eval, Scalar};

fn small(n: u64) -> Scalar {
    Scalar::from_le_bytes_mod_order(&n.to_le_bytes())
}

#[test]
fn field_arithmetic_on_small_numbers() {
    assert_eq!(small(3).add(&small(4)), small(7));
    assert_eq!(small(3).mul(&small(4)), small(12));
    assert_eq!(small(9).sub(&small(4)), small(5));
    assert_eq!(Scalar::zero(), small(0));
    assert_eq!(small(1).bytes[0], 1);
}

#[test]
fn subtraction_wraps_around_the_order() {
    // the order minus one, little end first
    let minus_one = small(0).sub(&small(1));
    assert_eq!(minus_one.bytes[0], 0x00);
    assert_eq!(minus_one.bytes[31], 0x73);
    assert_eq!(minus_one.add(&small(1)), small(0));
}

#[test]
fn inverse_of_zero_is_nothing() {
    assert_eq!(small(0).inverse(), None);
    let inv = small(5).inverse().unwrap();
    assert_eq!(inv.mul(&small(5)), small(1));
}

#[test]
fn horner_takes_the_lowest_coefficient_first() {
    // 1 + 2x + 3x^2 at x = 10
    let coeffs = vec![small(1), small(2), small(3)];
    assert_eq!(polynomial_eval(&coeffs, &small(10)), small(321));
    assert_eq!(polynomial_eval(&[], &small(10)), small(0));
}

#[test]
fn bytes_above_the_order_are_reduced() {
    // 2^256 - 1 is above the order; what comes back is below it
    let reduced = Scalar::from_le_bytes_mod_order(&[0xff; 32]);
    assert_ne!(reduced.bytes, [0xff; 32]);
    assert!(reduced.bytes[31] <= 0x73);
    // more than 32 bytes are read too: 2^256 is one more
    let mut longer = [0u8; 33];
    longer[32] = 1;
    assert_eq!(Scalar::from_le_bytes_mod_order(&longer), reduced.add(&small(1)));
    assert!(reduced.same(&reduced));
    assert!(!reduced.same(&small(1)));
    assert_eq!(Scalar::one(), small(1));
}
