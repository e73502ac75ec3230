//! Why the decoder finds a polynomial through points of a code word.
//!
//! The elements of an evaluation domain are the powers of a root of unity
//! whose order is the size of the domain, a power of two. The difference of
//! two of them at different places has an inverse, and so has every product
//! of such differences: Newton's interpolation never has to divide by zero.

use crate::domain::{
    is_primitive_root, is_subdomain, spec_domain_element, spec_group_gen, squares_to_half,
};
use crate::field::{
    horner, is_inverse, modulus, power, scalar_of_nat, spec_fr_inverse, Scalar,
};
use crate::polynomial::{eval_int, lemma_horner_value, lemma_modulus_range, lemma_value_of_nat};
use crate::domain::is_domain_size;
use crate::polynomial::lemma_vanishing_vanishes;
use crate::reed_solomon::{
    index_out_of_domain, interpolant, lemma_interpolant_fails_on, point_xs, point_ys,
    repeated_index, spec_decode, vanishing, Point,
};
use crate::uniqueness::{
    cong, lemma_cong_mul, lemma_cong_plus, lemma_cong_sub, lemma_cong_times, lemma_equal_by_cong,
    lemma_lin_value,
    lemma_vanishing_is_lin, lemma_zero_one, product_of_differences, unit,
};
use vstd::arithmetic::power::{lemma_pow1, lemma_pow_adds, lemma_pow_multiplies, pow};
use vstd::arithmetic::power2::is_pow2;
use vstd::prelude::*;

verus! {

/// Congruent numbers have congruent powers.
pub proof fn lemma_pow_cong(a: int, b: int, e: nat)
    requires
        cong(a, b),
    ensures
        cong(pow(a, e), pow(b, e)),
    decreases e,
{
    reveal(pow);
    if e > 0 {
        lemma_pow_cong(a, b, (e - 1) as nat);
        let (x, y) = (pow(a, (e - 1) as nat), pow(b, (e - 1) as nat));
        lemma_cong_times(x, y, a);
        lemma_cong_times(a, b, y);
    }
}

/// The powers of minus one are one and minus one in turn.
pub proof fn lemma_pow_of_minus_one(e: nat)
    ensures
        pow(-1, e) == if e % 2 == 0 {
            1int
        } else {
            -1int
        },
    decreases e,
{
    reveal(pow);
    if e > 0 {
        lemma_pow_of_minus_one((e - 1) as nat);
    }
}

/// A number raised to a power of two, less one, is a multiple of the number
/// less one; the proof gives the other factor.
pub proof fn lemma_factor(y: int, h: nat) -> (f: int)
    requires
        is_pow2(h as int),
    ensures
        pow(y, h) - 1 == (y - 1) * f,
    decreases h,
{
    reveal(is_pow2);
    if h == 1 {
        lemma_pow1(y);
        assert((y - 1) * 1 == y - 1) by (nonlinear_arith);
        1
    } else {
        let half = (h / 2) as nat;
        let g = lemma_factor(y, half);
        lemma_pow_adds(y, half, half);
        let t = pow(y, half);
        assert(t * t - 1 == (y - 1) * (g * (t + 1))) by (nonlinear_arith)
            requires
                t - 1 == (y - 1) * g,
        ;
        g * (t + 1)
    }
}

/// Half of the field order, rounded down, is the inverse of minus two.
pub proof fn lemma_half()
    ensures
        cong(-2 * ((modulus() - 1) / 2), 1),
{
    reveal(modulus);
    let r = modulus() as int;
    let h = (r - 1) / 2;
    assert(-2 * h == 1 - r);
    assert((1 - r) % r == 1int % r) by {
        vstd::arithmetic::div_mod::lemma_mod_sub_multiples_vanish(1, r);
    }
}

/// A root of unity of the order `d`, a power of two, raised to a power that
/// is no multiple of `d`, is not one, and more: less one, it has an inverse,
/// which the proof gives.
pub proof fn lemma_root_less_one(w: int, d: nat, e: nat) -> (u: int)
    requires
        is_pow2(d as int),
        d >= 2,
        cong(pow(w, d / 2), -1),
        0 < e < d,
    ensures
        cong((pow(w, e) - 1) * u, 1),
    decreases d,
{
    lemma_modulus_range();
    let half = d / 2;
    assert(is_pow2(half as int) && d == 2 * half) by {
        reveal(is_pow2);
    }
    if e % 2 == 1 {
        let y = pow(w, e);
        // y raised to half the order is minus one
        lemma_pow_multiplies(w, e, half);
        lemma_pow_multiplies(w, half, e);
        assert(e * half == half * e) by (nonlinear_arith);
        lemma_pow_cong(pow(w, half), -1, e);
        lemma_pow_of_minus_one(e);
        assert(cong(pow(y, half), -1));
        let f = lemma_factor(y, half);
        lemma_cong_plus(pow(y, half), -1, 1, 1);
        assert(cong((y - 1) * f, -2));
        let h = (modulus() - 1) / 2;
        lemma_cong_times((y - 1) * f, -2, h);
        lemma_half();
        assert(((y - 1) * f) * h == (y - 1) * (f * h)) by (nonlinear_arith);
        f * h
    } else {
        // an even power is a power of the square, whose order is half
        assert(half >= 2 && half % 2 == 0) by {
            reveal(is_pow2);
        }
        let quarter = half / 2;
        let w2 = w * w;
        assert(w2 == pow(w, 2)) by {
            reveal(pow);
            lemma_pow1(w);
            assert(pow(w, 2) == w * pow(w, 1));
        }
        lemma_pow_multiplies(w, 2, quarter);
        assert(2 * quarter == half);
        let u = lemma_root_less_one(w2, half, e / 2);
        lemma_pow_multiplies(w, 2, e / 2);
        assert(2 * (e / 2) == e);
        u
    }
}

/// Two powers of a root of unity of the order `d` with different exponents
/// below `d` are different, and more: their difference has an inverse, which
/// the proof gives.
pub proof fn lemma_powers_differ(w: int, d: nat, p: nat, q: nat) -> (u: int)
    requires
        is_pow2(d as int),
        d >= 2,
        cong(pow(w, d / 2), -1),
        p < d,
        q < d,
        p != q,
    ensures
        cong((pow(w, q) - pow(w, p)) * u, 1),
    decreases
            (if p < q {
                0int
            } else {
                1int
            }),
{
    lemma_modulus_range();
    let half = d / 2;
    assert(d == 2 * half) by {
        reveal(is_pow2);
    }
    // the whole order gives one
    lemma_pow_adds(w, half, half);
    lemma_cong_times(pow(w, half), -1, pow(w, half));
    lemma_cong_times(pow(w, half), -1, -1);
    assert(cong(pow(w, d), 1));
    if p < q {
        // w^q - w^p = w^p * (w^(q - p) - 1), and w^p * w^(d - p) = 1
        let e = (q - p) as nat;
        let u1 = pow(w, (d - p) as nat);
        let u2 = lemma_root_less_one(w, d, e);
        lemma_pow_adds(w, p, (d - p) as nat);
        lemma_pow_adds(w, p, e);
        let a = pow(w, p);
        let b = pow(w, e) - 1;
        assert(cong(a * u1, 1));
        assert(cong(b * u2, 1));
        lemma_cong_times(a * u1, 1, b * u2);
        assert((a * u1) * (b * u2) == (pow(w, q) - a) * (u1 * u2)) by (nonlinear_arith)
            requires
                pow(w, q) == a * pow(w, e),
                b == pow(w, e) - 1,
        ;
        assert(1 * (b * u2) == b * u2) by (nonlinear_arith);
        u1 * u2
    } else {
        let v = lemma_powers_differ(w, d, q, p);
        assert((pow(w, q) - pow(w, p)) * (-v) == (pow(w, p) - pow(w, q)) * v) by (nonlinear_arith);
        -v
    }
}

/// The number of a power of an element is the power of its number, up to
/// reduction, and the power is below the field order.
pub proof fn lemma_power_value(a: Scalar, e: nat)
    ensures
        power(a, e).canonical(),
        cong(power(a, e).value() as int, pow(a.value() as int, e)),
    decreases e,
{
    reveal(pow);
    lemma_zero_one();
    if e > 0 {
        lemma_power_value(a, (e - 1) as nat);
        let below = power(a, (e - 1) as nat);
        lemma_cong_mul(below, a, pow(a.value() as int, (e - 1) as nat), a.value() as int);
        assert(pow(a.value() as int, (e - 1) as nat) * a.value() == a.value() * pow(
            a.value() as int,
            (e - 1) as nat,
        )) by (nonlinear_arith);
    }
}

/// The elements of a domain at two different places differ, and more: the
/// difference of their numbers has an inverse, which the proof gives.
pub proof fn lemma_elements_differ(size: nat, p: nat, q: nat) -> (u: int)
    requires
        is_pow2(size as int),
        is_primitive_root(spec_group_gen(size), size),
        p < size,
        q < size,
        p != q,
    ensures
        cong(
            (spec_domain_element(size, q).value() - spec_domain_element(size, p).value()) * u,
            1,
        ),
{
    lemma_modulus_range();
    lemma_zero_one();
    let g = spec_group_gen(size);
    let w = g.value() as int;
    lemma_power_value(g, size / 2);
    lemma_cong_sub(scalar_of_nat(0), scalar_of_nat(1), 0, 1);
    assert(cong(pow(w, size / 2), -1));
    let u = lemma_powers_differ(w, size, p, q);
    lemma_power_value(g, p);
    lemma_power_value(g, q);
    let (xq, xp) = (
        spec_domain_element(size, q).value() as int,
        spec_domain_element(size, p).value() as int,
    );
    lemma_cong_plus(xq, pow(w, q), xp, pow(w, p));
    lemma_cong_times(xq - xp, pow(w, q) - pow(w, p), u);
    u
}

/// The `xs` are the elements of the domain of size `size` at the places
/// `places`, all of them different.
pub open spec fn distinct_elements(xs: Seq<Scalar>, places: Seq<nat>, size: nat) -> bool {
    &&& xs.len() == places.len()
    &&& forall|i: int|
        0 <= i < xs.len() ==> places[i] < size && #[trigger] xs[i] == spec_domain_element(
            size,
            places[i],
        )
    &&& forall|i: int, j: int|
        0 <= i < j < places.len() ==> #[trigger] places[i] != #[trigger] places[j]
}

/// The product of the differences between one element of a domain and `t`
/// others has an inverse, which the proof gives.
pub proof fn lemma_product_has_inverse(
    xs: Seq<Scalar>,
    places: Seq<nat>,
    size: nat,
    t: nat,
    j: int,
) -> (u: int)
    requires
        is_pow2(size as int),
        is_primitive_root(spec_group_gen(size), size),
        distinct_elements(xs, places, size),
        t <= j < xs.len(),
    ensures
        cong(product_of_differences(xs, t, xs[j].value() as int) * u, 1),
    decreases t,
{
    lemma_modulus_range();
    let x = xs[j].value() as int;
    if t == 0 {
        assert(1int * 1 == 1);
        1
    } else {
        let before = lemma_product_has_inverse(xs, places, size, (t - 1) as nat, j);
        let i = t - 1;
        assert(xs[i] == spec_domain_element(size, places[i]));
        assert(xs[j] == spec_domain_element(size, places[j]));
        assert(places[i] != places[j]);
        let last = lemma_elements_differ(size, places[i], places[j]);
        let a = product_of_differences(xs, (t - 1) as nat, x);
        let b = x - xs[i].value();
        lemma_cong_times(a * before, 1, b * last);
        assert((a * before) * (b * last) == (a * b) * (before * last)) by (nonlinear_arith);
        assert(1 * (b * last) == b * last) by (nonlinear_arith);
        before * last
    }
}

/// An element whose number has an inverse has an inverse in the field.
pub proof fn lemma_inverse_exists(d: Scalar, n: int, u: int)
    requires
        cong(d.value() as int, n),
        cong(n * u, 1),
    ensures
        spec_fr_inverse(d) is Some,
{
    lemma_modulus_range();
    let r = modulus() as int;
    let reduced = (u % r) as nat;
    let inv = scalar_of_nat(reduced);
    lemma_value_of_nat(reduced);
    vstd::arithmetic::div_mod::lemma_mod_twice(u, r);
    assert(cong(inv.value() as int, u));
    lemma_cong_times(d.value() as int, n, inv.value() as int);
    lemma_cong_times(inv.value() as int, u, n);
    vstd::arithmetic::div_mod::lemma_small_mod(1, modulus());
    assert(is_inverse(d, inv));
}

/// Newton's interpolation finds a polynomial through points at different
/// elements of a domain.
pub proof fn lemma_interpolant_exists(
    xs: Seq<Scalar>,
    ys: Seq<Scalar>,
    places: Seq<nat>,
    domain_size: nat,
    size: nat,
    t: nat,
)
    requires
        is_pow2(domain_size as int),
        is_primitive_root(spec_group_gen(domain_size), domain_size),
        distinct_elements(xs, places, domain_size),
        t <= xs.len(),
    ensures
        interpolant(xs, ys, size, t) is Some,
    decreases t,
{
    lemma_modulus_range();
    if t > 0 {
        let s = (t - 1) as nat;
        lemma_interpolant_exists(xs, ys, places, domain_size, size, s);
        let x = xs[s as int];
        let m = vanishing(xs, s);
        let d = horner(m, x);
        let at = x.value() as int;
        let u = lemma_product_has_inverse(xs, places, domain_size, s, s as int);
        lemma_vanishing_is_lin(xs, s);
        lemma_lin_value(unit(), xs, s, at);
        lemma_zero_one();
        assert(eval_int(unit(), at) == 1) by {
            assert(unit().drop_first() =~= Seq::<Scalar>::empty());
            assert(eval_int(unit().drop_first(), at) == 0);
            assert(at * 0 == 0) by (nonlinear_arith);
        }
        let prod = product_of_differences(xs, s, at);
        assert(1 * prod == prod) by (nonlinear_arith);
        lemma_horner_value(m, x);
        vstd::arithmetic::div_mod::lemma_mod_twice(eval_int(m, at), modulus() as int);
        lemma_inverse_exists(d, prod, u);
    }
}

/// Newton's interpolation finds no polynomial through points of which two
/// lie at the same element.
pub proof fn lemma_interpolant_fails_on_repeat(
    xs: Seq<Scalar>,
    ys: Seq<Scalar>,
    size: nat,
    i: int,
    j: int,
)
    requires
        0 <= i < j < xs.len(),
        xs[i] == xs[j],
    ensures
        interpolant(xs, ys, size, (j + 1) as nat) is None,
{
    lemma_modulus_range();
    let t = j as nat;
    if interpolant(xs, ys, size, t) is Some {
        let x = xs[j];
        let m = vanishing(xs, t);
        let d = horner(m, x);
        lemma_vanishing_vanishes(xs, t, i);
        lemma_horner_value(m, x);
        assert(d.value() == 0);
        if spec_fr_inverse(d) is Some {
            let inv = spec_fr_inverse(d)->Some_0;
            assert(is_inverse(d, inv));
            assert(d.value() * inv.value() == 0) by (nonlinear_arith)
                requires
                    d.value() == 0,
            ;
            vstd::arithmetic::div_mod::lemma_small_mod(0, modulus());
        }
    }
}

/// When the decoder finds no polynomial: where there are too few points,
/// where one of the first `data_size` names an index outside the domain, and
/// where two of them name the same index; and then only.
pub proof fn lemma_decode_fails_iff(points: Seq<Point>, data_size: nat, domain_size: nat)
    requires
        is_domain_size(domain_size),
        is_primitive_root(spec_group_gen(domain_size), domain_size),
    ensures
        spec_decode(points, data_size, domain_size) is None <==> points.len() < data_size
            || index_out_of_domain(points, data_size, domain_size) || repeated_index(
            points,
            data_size,
        ),
{
    let xs = point_xs(points, data_size, domain_size);
    let ys = point_ys(points, data_size);
    if points.len() >= data_size && !index_out_of_domain(points, data_size, domain_size) {
        if repeated_index(points, data_size) {
            let (i, j) = choose|i: int, j: int|
                0 <= i < j < data_size && j < points.len() && (#[trigger] points[i]).index == (
                #[trigger] points[j]).index;
            lemma_interpolant_fails_on_repeat(xs, ys, data_size, i, j);
            lemma_interpolant_fails_on(xs, ys, data_size, (j + 1) as nat, data_size);
        } else {
            let places = Seq::new(data_size, |t: int| points[t].index as nat);
            assert forall|t: int| 0 <= t < data_size implies places[t] < domain_size
                && #[trigger] xs[t] == spec_domain_element(domain_size, places[t]) by {
                assert(!(points[t].index >= domain_size));
            }
            assert forall|t: int, v: int| 0 <= t < v < data_size implies #[trigger] places[t]
                != #[trigger] places[v] by {
                assert(!(points[t].index == points[v].index));
            }
            lemma_interpolant_exists(xs, ys, places, domain_size, data_size, data_size);
        }
    }
}

/// Where the generator of the domain of size `size` is the `q`-th power of
/// the generator of the domain of size `big`, the generator of the domain of
/// half the size is its `2 * q`-th power.
pub proof fn lemma_generator_of_half(size: nat, big: nat, q: nat)
    requires
        size >= 2,
        squares_to_half(spec_group_gen(size), size),
        cong(spec_group_gen(size).value() as int, pow(spec_group_gen(big).value() as int, q)),
    ensures
        cong(
            spec_group_gen(size / 2).value() as int,
            pow(spec_group_gen(big).value() as int, 2 * q),
        ),
{
    let g = spec_group_gen(size);
    let w = spec_group_gen(big).value() as int;
    lemma_cong_mul(g, g, pow(w, q), pow(w, q));
    lemma_pow_adds(w, q, q);
}

/// Where the generator of the domain of size `small` is the `q`-th power of
/// the generator of the domain of `q` times the size, the small domain lies
/// in the big one.
pub proof fn lemma_subdomain(small: nat, big: nat, q: nat)
    requires
        small >= 1,
        q >= 1,
        big == small * q,
        cong(spec_group_gen(small).value() as int, pow(spec_group_gen(big).value() as int, q)),
    ensures
        is_subdomain(small, big),
{
    vstd::arithmetic::div_mod::lemma_div_multiples_vanish(q as int, small as int);
    vstd::arithmetic::div_mod::lemma_mod_multiples_basic(q as int, small as int);
    assert(small * q == q * small) by (nonlinear_arith);
    assert(big / small == q);
    let gs = spec_group_gen(small);
    let gb = spec_group_gen(big);
    let w = gb.value() as int;
    assert forall|i: nat| #[trigger]
        spec_domain_element(small, i) == spec_domain_element(big, i * (big / small)) by {
        lemma_power_value(gs, i);
        lemma_power_value(gb, i * q);
        lemma_pow_cong(gs.value() as int, pow(w, q), i);
        lemma_pow_multiplies(w, q, i);
        assert(q * i == i * q) by (nonlinear_arith);
        lemma_equal_by_cong(power(gs, i), power(gb, i * q), pow(w, q * i));
    }
}

} // verus!
