//! Polynomials over the field, read as polynomials over the numbers.
//!
//! The field's operations are operations on numbers modulo the field order,
//! and the value of a polynomial at a point is a number too. Read so, the
//! decoder's polynomial takes the values it was given, the quotient by
//! `X - z` divides, and the aggregate of polynomials aggregates their values.

use crate::bytes_to_field::{lemma_pow256_31, pow256};
use crate::field::{
    fadd, fmul, fsub, horner, is_inverse, le_nat, modulus, nat_byte, scalar_of_nat,
    spec_fr_inverse, Scalar,
};
use crate::domain::spec_domain_element;
use crate::reed_solomon::{
    add_scaled, coeff, interpolant, lemma_interpolant_len, lemma_vanishing_len, mul_linear,
    point_xs, point_ys, spec_decode, vanishing, Point,
};
use vstd::arithmetic::div_mod::{
    lemma_add_mod_noop, lemma_breakdown, lemma_mul_mod_noop_general, lemma_small_mod,
    lemma_sub_mod_noop,
};
use vstd::prelude::*;

verus! {

/// The field order is above one and below `256^32`.
pub proof fn lemma_modulus_range()
    ensures
        1 < modulus() < pow256(32),
{
    reveal(modulus);
    lemma_pow256_31();
    assert(pow256(32) == 256 * pow256(31));
}

/// The `len` low bytes of `n` stand for `n` modulo `256^len`.
pub proof fn lemma_le_nat_of_bytes(n: nat, len: nat)
    ensures
        le_nat(Seq::new(len, |i: int| nat_byte(n, i as nat))) == n % pow256(len),
        pow256(len) > 0,
    decreases len,
{
    let s = Seq::new(len, |i: int| nat_byte(n, i as nat));
    if len == 0 {
        assert(pow256(0) == 1);
    } else {
        let rest = Seq::new((len - 1) as nat, |i: int| nat_byte(n / 256, i as nat));
        assert(s.drop_first() =~= rest) by {
            assert forall|i: int| 0 <= i < len - 1 implies s.drop_first()[i] == rest[i] by {
                assert(nat_byte(n, (i + 1) as nat) == nat_byte(n / 256, i as nat));
            }
        }
        lemma_le_nat_of_bytes(n / 256, (len - 1) as nat);
        let q = pow256((len - 1) as nat);
        lemma_breakdown(n as int, 256, q as int);
        assert(pow256(len) == 256 * q);
        assert(s[0] == (n % 256) as u8);
        assert(le_nat(s) == s[0] as nat + 256 * le_nat(s.drop_first()));
    }
}

/// The element made of a number below the field order stands for that
/// number.
pub proof fn lemma_value_of_nat(n: nat)
    requires
        n < modulus(),
    ensures
        scalar_of_nat(n).value() == n,
{
    lemma_modulus_range();
    lemma_le_nat_of_bytes(n, 32);
    assert(scalar_of_nat(n).bytes@ =~= Seq::new(32, |i: int| nat_byte(n, i as nat))) by {
        reveal(scalar_of_nat);
    }
    lemma_small_mod(n, pow256(32));
}

/// The sum of two elements stands for the sum of their numbers, reduced.
pub proof fn lemma_fadd_value(a: Scalar, b: Scalar)
    ensures
        fadd(a, b).value() == (a.value() + b.value()) % modulus(),
{
    reveal(fadd);
    lemma_modulus_range();
    lemma_value_of_nat((a.value() + b.value()) % modulus());
}

/// The product of two elements stands for the product of their numbers,
/// reduced.
pub proof fn lemma_fmul_value(a: Scalar, b: Scalar)
    ensures
        fmul(a, b).value() == (a.value() * b.value()) % modulus(),
{
    reveal(fmul);
    lemma_modulus_range();
    lemma_value_of_nat((a.value() * b.value()) % modulus());
}

/// The difference of two elements stands for the difference of their
/// numbers, reduced.
pub proof fn lemma_fsub_value(a: Scalar, b: Scalar)
    ensures
        fsub(a, b).value() == (a.value() - b.value()) % (modulus() as int),
{
    reveal(fsub);
    lemma_modulus_range();
    let r = modulus() as int;
    let n = ((a.value() % modulus()) + modulus() - (b.value() % modulus())) as nat % modulus();
    lemma_value_of_nat(n);
    lemma_sub_mod_noop(a.value() as int, b.value() as int, r);
    let d = (a.value() % modulus()) as int - (b.value() % modulus()) as int;
    assert((d + r) % r == d % r) by {
        vstd::arithmetic::div_mod::lemma_mod_add_multiples_vanish(d, r);
    }
}

/// The number that the polynomial with the coefficients `c` takes at the
/// number `x`, with nothing reduced.
pub open spec fn eval_int(c: Seq<Scalar>, x: int) -> int
    decreases c.len(),
{
    if c.len() == 0 {
        0
    } else {
        c[0].value() + x * eval_int(c.drop_first(), x)
    }
}

/// Where `a` and `a2` leave the same remainder, and `b` and `b2` do, so do
/// `a + x * b` and `a2 + x * b2`.
pub proof fn lemma_congruent_steps(a: int, a2: int, b: int, b2: int, x: int, r: int)
    requires
        r > 0,
        a % r == a2 % r,
        b % r == b2 % r,
    ensures
        (a + x * b) % r == (a2 + x * b2) % r,
{
    lemma_mul_mod_noop_general(x, b, r);
    lemma_mul_mod_noop_general(x, b2, r);
    lemma_add_mod_noop(a, x * b, r);
    lemma_add_mod_noop(a2, x * b2, r);
}

/// Horner's rule in the field gives the polynomial's number, reduced.
pub proof fn lemma_horner_value(c: Seq<Scalar>, x: Scalar)
    ensures
        horner(c, x).value() == eval_int(c, x.value() as int) % (modulus() as int),
    decreases c.len(),
{
    lemma_modulus_range();
    let r = modulus() as int;
    let vx = x.value() as int;
    if c.len() == 0 {
        lemma_value_of_nat(0);
        assert(0int % r == 0);
    } else {
        let rest = c.drop_first();
        lemma_horner_value(rest, x);
        let h = horner(rest, x);
        let e = eval_int(rest, vx);
        let c0 = c[0].value() as int;
        lemma_fmul_value(h, x);
        lemma_fadd_value(fmul(h, x), c[0]);
        assert(h.value() == e % r);
        assert(fmul(h, x).value() == ((e % r) * vx) % r);
        assert(horner(c, x).value() == (((e % r) * vx) % r + c0) % r);
        // ((e % r) * vx) % r + c0, reduced, is c0 + vx * e, reduced
        lemma_mul_mod_noop_general(e, vx, r);
        vstd::arithmetic::div_mod::lemma_add_mod_noop_right(c0, e * vx, r);
        assert(e * vx + c0 == c0 + vx * e) by (nonlinear_arith);
    }
}

/// The coefficients of `p` after the first, also where `p` has none.
pub open spec fn tail(p: Seq<Scalar>) -> Seq<Scalar> {
    if p.len() == 0 {
        p
    } else {
        p.drop_first()
    }
}

/// The number of a polynomial is that of its first coefficient, zero where
/// there is none, plus `x` times the number of the rest.
pub proof fn lemma_eval_unfold(p: Seq<Scalar>, x: int)
    ensures
        eval_int(p, x) == coeff(p, 0).value() + x * eval_int(tail(p), x),
{
    if p.len() == 0 {
        lemma_modulus_range();
        lemma_value_of_nat(0);
        assert(x * 0 == 0) by (nonlinear_arith);
    }
}

/// Adding a multiple of `m` to `f` adds that multiple of the number of `m`
/// to the number of `f`, up to reduction.
pub proof fn lemma_add_scaled_value(f: Seq<Scalar>, c: Scalar, m: Seq<Scalar>, x: int)
    requires
        m.len() <= f.len(),
    ensures
        eval_int(add_scaled(f, c, m), x) % (modulus() as int) == (eval_int(f, x) + c.value()
            * eval_int(m, x)) % (modulus() as int),
    decreases f.len(),
{
    lemma_modulus_range();
    let r = modulus() as int;
    let g = add_scaled(f, c, m);
    if f.len() == 0 {
        assert(c.value() * 0 == 0) by (nonlinear_arith);
    } else {
        let f_higher = f.drop_first();
        let m_higher = tail(m);
        let g_higher = g.drop_first();
        assert(g_higher =~= add_scaled(f_higher, c, m_higher)) by {
            assert forall|j: int| 0 <= j < f_higher.len() implies g_higher[j] == add_scaled(f_higher, c, m_higher)[j] by {
                assert(coeff(m, j + 1) == coeff(m_higher, j));
            }
        }
        lemma_add_scaled_value(f_higher, c, m_higher, x);
        lemma_eval_unfold(m, x);
        let m_lowest = coeff(m, 0);
        let vc = c.value() as int;
        // the first coefficient
        lemma_fmul_value(c, m_lowest);
        lemma_fadd_value(f[0], fmul(c, m_lowest));
        lemma_add_mod_noop(f[0].value() as int, vc * m_lowest.value(), r);
        lemma_add_mod_noop(f[0].value() as int, (vc * m_lowest.value()) % r, r);
        vstd::arithmetic::div_mod::lemma_mod_twice(vc * m_lowest.value(), r);
        let a = g[0].value() as int;
        let a2 = f[0].value() + vc * m_lowest.value();
        assert(a == a2 % r);
        vstd::arithmetic::div_mod::lemma_mod_twice(a2, r);
        let b = eval_int(g_higher, x);
        let b2 = eval_int(f_higher, x) + vc * eval_int(m_higher, x);
        lemma_congruent_steps(a, a2, b, b2, x, r);
        assert(a2 + x * b2 == (f[0].value() + x * eval_int(f_higher, x)) + vc * (m_lowest.value() + x * eval_int(
            m_higher,
            x,
        ))) by (nonlinear_arith)
            requires
                a2 == f[0].value() + vc * m_lowest.value(),
                b2 == eval_int(f_higher, x) + vc * eval_int(m_higher, x),
        ;
    }
}

/// The product of `p` and `X - a`, with `carry` in the place of the
/// coefficient below the lowest.
pub open spec fn mul_linear_from(p: Seq<Scalar>, a: Scalar, carry: Scalar) -> Seq<Scalar> {
    Seq::new(
        p.len() + 1,
        |j: int|
            fsub(
                if j == 0 {
                    carry
                } else {
                    coeff(p, j - 1)
                },
                fmul(a, coeff(p, j)),
            ),
    )
}

/// The number of `mul_linear_from(p, a, carry)` is that of `carry` plus
/// `x - a` times the number of `p`, up to reduction.
pub proof fn lemma_mul_linear_from_value(p: Seq<Scalar>, a: Scalar, carry: Scalar, x: int)
    ensures
        eval_int(mul_linear_from(p, a, carry), x) % (modulus() as int) == (carry.value() + (x
            - a.value()) * eval_int(p, x)) % (modulus() as int),
    decreases p.len(),
{
    lemma_modulus_range();
    let r = modulus() as int;
    let g = mul_linear_from(p, a, carry);
    let va = a.value() as int;
    let lowest = coeff(p, 0);
    lemma_fmul_value(a, lowest);
    lemma_fsub_value(carry, fmul(a, lowest));
    lemma_sub_mod_noop(carry.value() as int, va * lowest.value(), r);
    lemma_sub_mod_noop(carry.value() as int, (va * lowest.value()) % r, r);
    vstd::arithmetic::div_mod::lemma_mod_twice(va * lowest.value(), r);
    let a1 = g[0].value() as int;
    let a2 = carry.value() - va * lowest.value();
    assert(a1 == a2 % r);
    vstd::arithmetic::div_mod::lemma_mod_twice(a2, r);
    let g_higher = g.drop_first();
    assert(a1 % r == a2 % r);
    assert(eval_int(g, x) == a1 + x * eval_int(g_higher, x));
    if p.len() == 0 {
        assert(g_higher =~= Seq::<Scalar>::empty());
        lemma_value_of_nat(0);
        assert(lowest.value() == 0);
        assert(va * 0 == 0) by (nonlinear_arith);
        assert(x * 0 == 0) by (nonlinear_arith);
        assert((x - va) * 0 == 0) by (nonlinear_arith);
        assert(eval_int(g_higher, x) == 0);
        assert(eval_int(p, x) == 0);
        assert(eval_int(g, x) == a1);
        assert(a2 == carry.value());
    } else {
        let higher = p.drop_first();
        assert(g_higher =~= mul_linear_from(higher, a, p[0])) by {
            assert forall|j: int| 0 <= j < p.len() implies g_higher[j] == mul_linear_from(higher, a, p[0])[j] by {
                assert(coeff(p, j + 1) == coeff(higher, j));
                if j > 0 {
                    assert(coeff(p, j) == coeff(higher, j - 1));
                }
            }
        }
        lemma_mul_linear_from_value(higher, a, p[0], x);
        let b = eval_int(g_higher, x);
        let b2 = p[0].value() + (x - va) * eval_int(higher, x);
        lemma_congruent_steps(a1, a2, b, b2, x, r);
        assert(a2 + x * b2 == carry.value() + (x - va) * (p[0].value() + x * eval_int(higher, x)))
            by (nonlinear_arith)
            requires
                a2 == carry.value() - va * p[0].value(),
                b2 == p[0].value() + (x - va) * eval_int(higher, x),
        ;
        assert(eval_int(p, x) == p[0].value() + x * eval_int(higher, x));
        assert(eval_int(g, x) == a1 + x * b);
    }
}

/// The number of the product of `p` and `X - a` is `x - a` times the number
/// of `p`, up to reduction.
pub proof fn lemma_mul_linear_value(p: Seq<Scalar>, a: Scalar, x: int)
    ensures
        eval_int(mul_linear(p, a), x) % (modulus() as int) == ((x - a.value()) * eval_int(p, x)) % (
        modulus() as int),
{
    lemma_modulus_range();
    lemma_value_of_nat(0);
    assert(mul_linear(p, a) =~= mul_linear_from(p, a, scalar_of_nat(0)));
    lemma_mul_linear_from_value(p, a, scalar_of_nat(0), x);
}

/// The vanishing polynomial of the first `t` points takes the value zero at
/// each of them.
pub proof fn lemma_vanishing_vanishes(xs: Seq<Scalar>, t: nat, i: int)
    requires
        0 <= i < t <= xs.len(),
    ensures
        eval_int(vanishing(xs, t), xs[i].value() as int) % (modulus() as int) == 0,
    decreases t,
{
    lemma_modulus_range();
    let r = modulus() as int;
    let x = xs[i].value() as int;
    let before = vanishing(xs, (t - 1) as nat);
    let a = xs[t - 1];
    assert(vanishing(xs, t) == mul_linear(before, a));
    lemma_mul_linear_value(before, a, x);
    let e = eval_int(before, x);
    let factor = x - a.value();
    assert(0int % r == 0);
    if i == t - 1 {
        assert(factor * e == 0) by (nonlinear_arith)
            requires
                factor == 0,
        ;
    } else {
        lemma_vanishing_vanishes(xs, (t - 1) as nat, i);
        lemma_mul_mod_noop_general(factor, e, r);
        assert(factor * (e % r) == 0) by (nonlinear_arith)
            requires
                e % r == 0,
        ;
    }
}

/// Newton's polynomial through the first `t` points takes at each of them
/// the value that belongs to it.
pub proof fn lemma_interpolant_interpolates(
    xs: Seq<Scalar>,
    ys: Seq<Scalar>,
    size: nat,
    t: nat,
    i: int,
)
    requires
        0 <= i < t <= size,
        t <= xs.len(),
        t <= ys.len(),
        interpolant(xs, ys, size, t) is Some,
    ensures
        eval_int(interpolant(xs, ys, size, t)->Some_0, xs[i].value() as int) % (modulus() as int)
            == ys[i].value() % modulus(),
    decreases t,
{
    lemma_modulus_range();
    let r = modulus() as int;
    let f = interpolant(xs, ys, size, (t - 1) as nat)->Some_0;
    let m = vanishing(xs, (t - 1) as nat);
    let x = xs[t - 1];
    let y = ys[t - 1];
    let d = horner(m, x);
    let inv = spec_fr_inverse(d)->Some_0;
    let e = horner(f, x);
    let c = fmul(fsub(y, e), inv);
    let g = interpolant(xs, ys, size, t)->Some_0;
    assert(g == add_scaled(f, c, m));
    lemma_interpolant_len(xs, ys, size, (t - 1) as nat);
    lemma_vanishing_len(xs, (t - 1) as nat);
    let z = xs[i].value() as int;
    lemma_add_scaled_value(f, c, m, z);
    let ef = eval_int(f, z);
    let em = eval_int(m, z);
    let vc = c.value() as int;
    assert(0int % r == 0);
    if i < t - 1 {
        lemma_interpolant_interpolates(xs, ys, size, (t - 1) as nat, i);
        lemma_vanishing_vanishes(xs, (t - 1) as nat, i);
        lemma_mul_mod_noop_general(vc, em, r);
        assert(vc * (em % r) == 0) by (nonlinear_arith)
            requires
                em % r == 0,
        ;
        assert((vc * em) % r == 0);
        lemma_add_mod_noop(ef, vc * em, r);
        vstd::arithmetic::div_mod::lemma_mod_twice(ef, r);
        assert((ef + vc * em) % r == ef % r);
    } else {
        // at the new point, the multiple of the vanishing polynomial mends
        // the value
        assert(is_inverse(d, inv));
        lemma_horner_value(m, x);
        lemma_horner_value(f, x);
        lemma_fsub_value(y, e);
        lemma_fmul_value(fsub(y, e), inv);
        let vy = y.value() as int;
        let vi = inv.value() as int;
        let diff = fsub(y, e).value() as int;
        // vc * em is, reduced, (vy - ef) * (vi * em), and vi * em is one
        lemma_mul_mod_noop_general(diff * vi, em, r);
        assert((diff * vi) * em == diff * (vi * em)) by (nonlinear_arith);
        lemma_mul_mod_noop_general(diff, vi * em, r);
        lemma_mul_mod_noop_general(vi, em, r);
        assert(vi * (em % r) == d.value() * vi) by (nonlinear_arith)
            requires
                d.value() == em % r,
        ;
        assert((vi * em) % r == 1);
        assert(diff * 1 == diff) by (nonlinear_arith);
        assert((vc * em) % r == diff % r);
        assert(e.value() == ef % r);
        assert(diff == (vy - ef % r) % r);
        vstd::arithmetic::div_mod::lemma_sub_mod_noop_right(vy, ef, r);
        vstd::arithmetic::div_mod::lemma_mod_twice(vy - ef, r);
        assert(diff % r == (vy - ef) % r);
        lemma_add_mod_noop(ef, vc * em, r);
        lemma_add_mod_noop(ef, vy - ef, r);
        assert(ef + (vy - ef) == vy);
    }
}

/// What the decoder finds is a polynomial through the points it was given:
/// it has `data_size` coefficients, and at the domain element that each of
/// the first `data_size` points names it takes the value that the point
/// gives, as an element of the field.
pub proof fn lemma_decoded_polynomial_interpolates(
    points: Seq<Point>,
    data_size: nat,
    domain_size: nat,
    i: int,
)
    requires
        spec_decode(points, data_size, domain_size) is Some,
        0 <= i < data_size,
    ensures
        spec_decode(points, data_size, domain_size)->Some_0.len() == data_size,
        horner(
            spec_decode(points, data_size, domain_size)->Some_0,
            spec_domain_element(domain_size, points[i].index as nat),
        ).value() == points[i].eval.value() % modulus(),
{
    let xs = point_xs(points, data_size, domain_size);
    let ys = point_ys(points, data_size);
    let c = spec_decode(points, data_size, domain_size)->Some_0;
    lemma_interpolant_len(xs, ys, data_size, data_size);
    lemma_interpolant_interpolates(xs, ys, data_size, data_size, i);
    lemma_horner_value(c, xs[i]);
}

/// What the decoder finds has `data_size` coefficients.
pub proof fn lemma_decoded_polynomial_len(
    points: Seq<Point>,
    data_size: nat,
    domain_size: nat,
)
    requires
        spec_decode(points, data_size, domain_size) is Some,
    ensures
        spec_decode(points, data_size, domain_size)->Some_0.len() == data_size,
{
    lemma_interpolant_len(
        point_xs(points, data_size, domain_size),
        point_ys(points, data_size),
        data_size,
        data_size,
    );
}

/// Division with remainder by `X - z`: at every `x`, the number of `poly` is
/// its value at `z` plus `x - z` times the number of the quotient, up to
/// reduction.
pub proof fn lemma_quotient_divides(poly: Seq<Scalar>, z: Scalar, x: int)
    ensures
        eval_int(poly, x) % (modulus() as int) == (horner(poly, z).value() + (x - z.value())
            * eval_int(crate::pcs::quotient(poly, z), x)) % (modulus() as int),
    decreases poly.len(),
{
    lemma_modulus_range();
    let r = modulus() as int;
    let vz = z.value() as int;
    let q = crate::pcs::quotient(poly, z);
    lemma_horner_value(poly, z);
    if poly.len() == 0 {
        assert(q =~= Seq::<Scalar>::empty());
        assert((x - vz) * 0 == 0) by (nonlinear_arith);
        assert(0int % r == 0);
        lemma_value_of_nat(0);
    } else if poly.len() == 1 {
        assert(q =~= Seq::<Scalar>::empty());
        assert((x - vz) * 0 == 0) by (nonlinear_arith);
        assert(poly.drop_first() =~= Seq::<Scalar>::empty());
        assert(eval_int(poly.drop_first(), x) == 0);
        assert(eval_int(poly.drop_first(), vz) == 0);
        assert(x * 0 == 0) by (nonlinear_arith);
        assert(vz * 0 == 0) by (nonlinear_arith);
        vstd::arithmetic::div_mod::lemma_mod_twice(poly[0].value() as int, r);
    } else {
        let rest = poly.drop_first();
        let q_higher = crate::pcs::quotient(rest, z);
        assert(q.drop_first() =~= q_higher) by {
            assert forall|i: int| 0 <= i < q_higher.len() implies q.drop_first()[i] == q_higher[i] by {
                assert(poly.skip(i + 2) =~= rest.skip(i + 1));
            }
        }
        assert(poly.skip(1) =~= rest);
        assert(q[0] == horner(rest, z));
        lemma_quotient_divides(rest, z, x);
        lemma_horner_value(rest, z);
        let a0 = poly[0].value() as int;
        let ex = eval_int(rest, x);
        let ez = eval_int(rest, vz);
        let hz = horner(rest, z).value() as int;
        let eq_higher = eval_int(q_higher, x);
        // eval(q) = hz + x * eval(q_higher), and (x - vz) * eval(q_higher) is ex - hz, reduced
        assert(eval_int(q, x) == hz + x * eq_higher);
        assert(ex % r == (hz + (x - vz) * eq_higher) % r);
        assert(hz == ez % r);
        // the claim: a0 + x * ex is (a0 + vz * ez) + (x - vz) * (hz + x * eq_higher), reduced
        let lhs = a0 + x * ex;
        let mid = a0 + x * (hz + (x - vz) * eq_higher);
        lemma_congruent_steps(a0, a0, ex, hz + (x - vz) * eq_higher, x, r);
        assert(lhs % r == mid % r);
        let rhs1 = (a0 + vz * hz) + (x - vz) * (hz + x * eq_higher);
        assert(mid == rhs1) by (nonlinear_arith)
            requires
                mid == a0 + x * (hz + (x - vz) * eq_higher),
                rhs1 == (a0 + vz * hz) + (x - vz) * (hz + x * eq_higher),
        ;
        // and a0 + vz * hz is, reduced, the value of poly at z
        vstd::arithmetic::div_mod::lemma_mod_twice(ez, r);
        lemma_congruent_steps(a0, a0, hz, ez, vz, r);
        let hp = horner(poly, z).value() as int;
        assert(hp == (a0 + vz * ez) % r);
        assert((a0 + vz * hz) % r == hp % r) by {
            vstd::arithmetic::div_mod::lemma_mod_twice(a0 + vz * ez, r);
        }
        let tail_term = (x - vz) * (hz + x * eq_higher);
        lemma_add_mod_noop(a0 + vz * hz, tail_term, r);
        lemma_add_mod_noop(hp, tail_term, r);
    }
}

/// The value at `alpha` of the polynomial with the numbers `values` as
/// coefficients, with nothing reduced.
pub open spec fn combine(values: Seq<int>, alpha: int) -> int
    decreases values.len(),
{
    if values.len() == 0 {
        0
    } else {
        values[0] + alpha * combine(values.drop_first(), alpha)
    }
}

/// The numbers that the polynomials `polys` take at `x`.
pub open spec fn values_at(polys: Seq<Seq<Scalar>>, x: int) -> Seq<int> {
    Seq::new(polys.len(), |j: int| eval_int(polys[j], x))
}

/// The aggregate polynomial aggregates the values: at every `x`, its number
/// is the sum of the numbers of the polynomials, the `j`-th multiplied by the
/// `j`-th power of `alpha`, up to reduction.
pub proof fn lemma_aggregate_value(polys: Seq<Seq<Scalar>>, alpha: Scalar, chunk_size: nat, x: int)
    requires
        forall|j: int| 0 <= j < polys.len() ==> (#[trigger] polys[j]).len() == chunk_size,
    ensures
        eval_int(crate::dispersal::spec_aggregate_poly(polys, alpha, chunk_size), x) % (
        modulus() as int) == combine(values_at(polys, x), alpha.value() as int) % (modulus() as int),
    decreases polys.len(),
{
    lemma_modulus_range();
    let r = modulus() as int;
    let va = alpha.value() as int;
    let agg = crate::dispersal::spec_aggregate_poly(polys, alpha, chunk_size);
    if polys.len() == 0 {
        lemma_zero_polynomial(agg, x);
        assert(0int % r == 0);
    } else {
        let rest = polys.drop_first();
        let agg1 = crate::dispersal::spec_aggregate_poly(rest, alpha, chunk_size);
        lemma_aggregate_value(rest, alpha, chunk_size, x);
        assert(agg =~= add_scaled(polys[0], alpha, agg1)) by {
            assert forall|c: int| 0 <= c < chunk_size implies agg[c] == add_scaled(
                polys[0],
                alpha,
                agg1,
            )[c] by {
                let col = crate::dispersal::column(polys, c);
                assert(col.drop_first() =~= crate::dispersal::column(rest, c));
                assert(col[0] == polys[0][c]);
                reveal(fadd);
                reveal(fmul);
                let h = horner(crate::dispersal::column(rest, c), alpha);
                assert(h.value() * alpha.value() == alpha.value() * h.value()) by (nonlinear_arith);
            }
        }
        lemma_add_scaled_value(polys[0], alpha, agg1, x);
        assert(values_at(polys, x).drop_first() =~= values_at(rest, x));
        let e0 = eval_int(polys[0], x);
        lemma_congruent_steps(
            e0,
            e0,
            eval_int(agg1, x),
            combine(values_at(rest, x), va),
            va,
            r,
        );
    }
}

/// A polynomial whose coefficients are all zero has the number zero.
pub proof fn lemma_zero_polynomial(p: Seq<Scalar>, x: int)
    requires
        forall|j: int| 0 <= j < p.len() ==> p[j] == scalar_of_nat(0),
    ensures
        eval_int(p, x) == 0,
    decreases p.len(),
{
    if p.len() > 0 {
        lemma_modulus_range();
        lemma_value_of_nat(0);
        lemma_zero_polynomial(p.drop_first(), x);
        assert(x * 0 == 0) by (nonlinear_arith);
    }
}

} // verus!
