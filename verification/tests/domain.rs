use advz::domain::Radix2Domain;
use advz::field::{polynomial_eval, Scalar};

fn small(n: u64) -> Scalar {
    Scalar::from_le_bytes_mod_order(&n.to_le_bytes())
}

#[test]
fn domain_is_the_smallest_power_of_two_that_is_large_enough() {
    for (num_coeffs, size) in [(0usize, 1usize), (1, 1), (2, 2), (3, 4), (4, 4), (5, 8), (1000, 1024)] {
        assert_eq!(Radix2Domain::new(num_coeffs).unwrap().size(), size);
    }
    assert!(Radix2Domain::new((1 << 32) + 1).is_none());
}

#[test]
fn elements_are_the_powers_of_the_generator() {
    let domain = Radix2Domain::new(8).unwrap();
    let g = domain.group_gen();
    let mut power = Scalar::one();
    for i in 0..8 {
        assert_eq!(domain.element(i), power);
        for j in 0..i {
            assert_ne!(domain.element(i), domain.element(j));
        }
        power = power.mul(&g);
    }
    // the generator has the order 8
    assert_eq!(power, Scalar::one());
    assert_eq!(domain.element(4), Scalar::zero().sub(&Scalar::one()));
    assert_eq!(domain.element(8), Scalar::one());
    // the domain with one element has the generator one
    assert_eq!(Radix2Domain::new(1).unwrap().group_gen(), Scalar::one());
}

#[test]
fn transform_gives_the_values_at_the_elements() {
    let domain = Radix2Domain::new(8).unwrap();
    for coeffs in [
        vec![],
        vec![small(5)],
        vec![small(1), small(2)],
        vec![small(1), small(2), small(3), small(4), small(5)],
        (1..=8).map(small).collect::<Vec<_>>(),
    ] {
        let values = domain.fft(&coeffs);
        assert_eq!(values.len(), 8);
        for i in 0..8 {
            assert_eq!(values[i], polynomial_eval(&coeffs, &domain.element(i)));
        }
    }
}

#[test]
fn inverse_transform_gives_a_polynomial_with_the_values() {
    let domain = Radix2Domain::new(4).unwrap();
    // values that are not below the field order count as what they are
    // congruent to
    let big = Scalar { bytes: [0xff; 32] };
    let reduced = Scalar::from_le_bytes_mod_order(&[0xff; 32]);
    let coeffs = domain.ifft(&vec![small(7), big, small(9)]);
    assert_eq!(coeffs.len(), 4);
    assert_eq!(domain.fft(&coeffs), vec![small(7), reduced, small(9), small(0)]);
}

#[test]
fn generator_of_half_the_size_is_the_square() {
    for size in [2usize, 4, 8, 1024] {
        let domain = Radix2Domain::new(size).unwrap();
        let half = domain.half();
        assert_eq!(half.size(), size / 2);
        assert_eq!(half, Radix2Domain::new(size / 2).unwrap());
        let g = domain.group_gen();
        assert_eq!(half.group_gen(), g.mul(&g));
    }
}

#[test]
fn small_domain_lies_in_the_large_one() {
    let small = Radix2Domain::new(4).unwrap();
    let big = Radix2Domain::new(16).unwrap();
    for i in 0..4 {
        assert_eq!(small.element(i), big.element(4 * i));
    }
    assert_ne!(small.element(1), big.element(1));
}
