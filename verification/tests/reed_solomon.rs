use advz::advz::AdvzInternal;
use advz::domain::Radix2Domain;
use advz::field::Scalar;
use advz::pcs::multi_open_rou_evals;
use advz::reed_solomon::{reed_solomon_erasure_decode_rou, Point};

fn small(n: u64) -> Scalar {
    Scalar::from_le_bytes_mod_order(&n.to_le_bytes())
}

fn code_word(poly: &Vec<Scalar>) -> Vec<Point> {
    multi_open_rou_evals(poly, 8, &Radix2Domain::new(8).unwrap())
        .iter()
        .enumerate()
        .map(|(i, e)| Point { index: i as u64, eval: *e })
        .collect()
}

#[test]
fn any_four_values_give_the_four_coefficients() {
    let poly = vec![small(11), small(22), small(33), small(44)];
    let word = code_word(&poly);
    assert_eq!(reed_solomon_erasure_decode_rou(&word, 4, &Radix2Domain::new(8).unwrap()), Some(poly.clone()));
    let picked = vec![word[7], word[2], word[5], word[0]];
    assert_eq!(reed_solomon_erasure_decode_rou(&picked, 4, &Radix2Domain::new(8).unwrap()), Some(poly.clone()));
    // points beyond the first four are not read
    let mut longer = picked.clone();
    longer.push(Point { index: 100, eval: small(1) });
    assert_eq!(reed_solomon_erasure_decode_rou(&longer, 4, &Radix2Domain::new(8).unwrap()), Some(poly));
}

#[test]
fn a_polynomial_of_lower_degree_comes_back_with_zeros() {
    let poly = vec![small(5), small(6)];
    let word = code_word(&poly);
    assert_eq!(
        reed_solomon_erasure_decode_rou(&word[3..], 4, &Radix2Domain::new(8).unwrap()),
        Some(vec![small(5), small(6), small(0), small(0)])
    );
    assert_eq!(reed_solomon_erasure_decode_rou(&word, 0, &Radix2Domain::new(8).unwrap()), Some(vec![]));
}

#[test]
fn decoder_fails_on_too_few_repeated_or_outlying_points() {
    let poly = vec![small(11), small(22), small(33), small(44)];
    let word = code_word(&poly);
    assert_eq!(reed_solomon_erasure_decode_rou(&word[..3], 4, &Radix2Domain::new(8).unwrap()), None);
    let repeated = vec![word[0], word[1], word[0], word[2]];
    assert_eq!(reed_solomon_erasure_decode_rou(&repeated, 4, &Radix2Domain::new(8).unwrap()), None);
    let mut outlying = word[..4].to_vec();
    outlying[3].index = 8;
    assert_eq!(reed_solomon_erasure_decode_rou(&outlying, 4, &Radix2Domain::new(8).unwrap()), None);
}

#[test]
fn coefficients_of_values_on_the_small_domain() {
    // the values 1, 2, 3, 4 on the domain of size 4 belong to a polynomial
    // that takes them again when it is evaluated there
    let values = vec![small(1), small(2), small(3), small(4)];
    let domain = Radix2Domain::new(4).unwrap();
    let poly = AdvzInternal::polynomial_internal(&domain, 4, &values);
    assert_eq!(poly.len(), 4);
    assert_ne!(poly, values);
    assert_eq!(multi_open_rou_evals(&poly, 4, &domain), values);
    // fewer values are filled up with zeros
    let poly = AdvzInternal::polynomial_internal(&domain, 4, &vec![small(1), small(2)]);
    assert_eq!(
        multi_open_rou_evals(&poly, 4, &domain),
        vec![small(1), small(2), small(0), small(0)]
    );
}
