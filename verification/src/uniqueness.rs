//! Why the decoder finds the polynomial that the values came from.
//!
//! The field's operations obey the laws of a ring, and an element that has an
//! inverse can be cancelled. From these, Newton's interpolation through the
//! values of a polynomial gives that polynomial back: what is left of it
//! after `t` points is a multiple of the vanishing polynomial of these
//! points, and after as many points as it has coefficients nothing is left.

use crate::bytes_to_field::lemma_nat_byte_of_le_nat;
use crate::field::{
    all_canonical, fadd, fmul, fsub, horner, is_inverse, modulus, scalar_of_nat, spec_fr_inverse,
    Scalar,
};
use crate::pcs::quotient;
use crate::polynomial::{
    eval_int, lemma_add_scaled_value, lemma_fadd_value, lemma_fmul_value, lemma_fsub_value,
    lemma_horner_value, lemma_modulus_range, lemma_mul_linear_value, lemma_value_of_nat,
};
use crate::reed_solomon::{
    add_scaled, coeff, interpolant, lemma_interpolant_len, lemma_vanishing_len, mul_linear,
    vanishing,
};
use vstd::arithmetic::div_mod::{
    lemma_add_mod_noop, lemma_mul_mod_noop_general, lemma_small_mod, lemma_sub_mod_noop,
};
use vstd::prelude::*;

verus! {

/// `a` and `b` leave the same remainder modulo the field order.
pub open spec fn cong(a: int, b: int) -> bool {
    a % (modulus() as int) == b % (modulus() as int)
}

/// An element is the element of its number.
pub proof fn lemma_scalar_of_value(a: Scalar)
    ensures
        scalar_of_nat(a.value()) == a,
{
    reveal(scalar_of_nat);
    assert forall|i: int| 0 <= i < 32 implies scalar_of_nat(a.value()).bytes@[i] == a.bytes@[i] by {
        lemma_nat_byte_of_le_nat(a.bytes@, i as nat);
    }
    assert(scalar_of_nat(a.value()).bytes =~= a.bytes);
}

/// Two elements with the same number are the same.
pub proof fn lemma_equal_by_value(a: Scalar, b: Scalar)
    requires
        a.value() == b.value(),
    ensures
        a == b,
{
    lemma_scalar_of_value(a);
    lemma_scalar_of_value(b);
}

/// Two elements below the field order whose numbers leave the remainder of
/// the same number are the same.
pub proof fn lemma_equal_by_cong(a: Scalar, b: Scalar, n: int)
    requires
        a.canonical(),
        b.canonical(),
        cong(a.value() as int, n),
        cong(b.value() as int, n),
    ensures
        a == b,
{
    lemma_small_mod(a.value(), modulus());
    lemma_small_mod(b.value(), modulus());
    lemma_equal_by_value(a, b);
}

/// The sum of two elements is below the field order, and its number is the
/// sum of any two numbers that the elements' numbers are congruent to, up to
/// reduction.
pub proof fn lemma_cong_add(x: Scalar, y: Scalar, a: int, b: int)
    requires
        cong(x.value() as int, a),
        cong(y.value() as int, b),
    ensures
        fadd(x, y).canonical(),
        cong(fadd(x, y).value() as int, a + b),
{
    lemma_modulus_range();
    let r = modulus() as int;
    lemma_fadd_value(x, y);
    lemma_add_mod_noop(x.value() as int, y.value() as int, r);
    lemma_add_mod_noop(a, b, r);
    vstd::arithmetic::div_mod::lemma_mod_twice((x.value() + y.value()) as int, r);
}

/// The difference of two elements is below the field order, and its number
/// is the difference of any two numbers that the elements' numbers are
/// congruent to, up to reduction.
pub proof fn lemma_cong_sub(x: Scalar, y: Scalar, a: int, b: int)
    requires
        cong(x.value() as int, a),
        cong(y.value() as int, b),
    ensures
        fsub(x, y).canonical(),
        cong(fsub(x, y).value() as int, a - b),
{
    lemma_modulus_range();
    let r = modulus() as int;
    lemma_fsub_value(x, y);
    lemma_sub_mod_noop(x.value() as int, y.value() as int, r);
    lemma_sub_mod_noop(a, b, r);
    vstd::arithmetic::div_mod::lemma_mod_twice(x.value() - y.value(), r);
}

/// The product of two elements is below the field order, and its number is
/// the product of any two numbers that the elements' numbers are congruent
/// to, up to reduction.
pub proof fn lemma_cong_mul(x: Scalar, y: Scalar, a: int, b: int)
    requires
        cong(x.value() as int, a),
        cong(y.value() as int, b),
    ensures
        fmul(x, y).canonical(),
        cong(fmul(x, y).value() as int, a * b),
{
    lemma_modulus_range();
    let r = modulus() as int;
    lemma_fmul_value(x, y);
    lemma_mul_mod_noop_general(x.value() as int, y.value() as int, r);
    lemma_mul_mod_noop_general(a, b, r);
    vstd::arithmetic::div_mod::lemma_mod_twice((x.value() * y.value()) as int, r);
}

/// The number of zero is zero, and that of one is one.
pub proof fn lemma_zero_one()
    ensures
        scalar_of_nat(0).value() == 0,
        scalar_of_nat(1).value() == 1,
        scalar_of_nat(0).canonical(),
        scalar_of_nat(1).canonical(),
{
    lemma_modulus_range();
    lemma_value_of_nat(0);
    lemma_value_of_nat(1);
}

/// The product of `g` and `X - xs[i]` over the first `t` of the `xs`.
pub open spec fn lin(g: Seq<Scalar>, xs: Seq<Scalar>, t: nat) -> Seq<Scalar>
    decreases t,
{
    if t == 0 {
        g
    } else {
        mul_linear(lin(g, xs, (t - 1) as nat), xs[t - 1])
    }
}

/// The difference of `f` and `c` times `m`, cut to the length of `f`.
pub open spec fn sub_scaled(f: Seq<Scalar>, c: Scalar, m: Seq<Scalar>) -> Seq<Scalar> {
    Seq::new(f.len(), |j: int| fsub(f[j], fmul(c, coeff(m, j))))
}

/// The polynomial one.
pub open spec fn unit() -> Seq<Scalar> {
    seq![scalar_of_nat(1)]
}

/// The product with linear factors has one coefficient more for each factor.
pub proof fn lemma_lin_len(g: Seq<Scalar>, xs: Seq<Scalar>, t: nat)
    ensures
        lin(g, xs, t).len() == g.len() + t,
    decreases t,
{
    if t > 0 {
        lemma_lin_len(g, xs, (t - 1) as nat);
    }
}

/// The vanishing polynomial is the product of one with the linear factors.
pub proof fn lemma_vanishing_is_lin(xs: Seq<Scalar>, t: nat)
    ensures
        vanishing(xs, t) == lin(unit(), xs, t),
    decreases t,
{
    if t > 0 {
        lemma_vanishing_is_lin(xs, (t - 1) as nat);
    }
}

/// Zero minus a multiple of zero is zero.
pub proof fn lemma_zero_combination(a: Scalar)
    ensures
        fsub(scalar_of_nat(0), fmul(a, scalar_of_nat(0))) == scalar_of_nat(0),
{
    lemma_zero_one();
    let zero = scalar_of_nat(0);
    lemma_cong_mul(a, zero, a.value() as int, 0);
    lemma_cong_sub(zero, fmul(a, zero), 0, (a.value() * 0) as int);
    assert(a.value() * 0 == 0) by (nonlinear_arith);
    lemma_equal_by_cong(fsub(zero, fmul(a, zero)), zero, 0);
}

/// The coefficients of the product of `p` and `X - a`, also beyond its
/// length.
pub proof fn lemma_mul_linear_coeff(p: Seq<Scalar>, a: Scalar, j: int)
    ensures
        coeff(mul_linear(p, a), j) == fsub(coeff(p, j - 1), fmul(a, coeff(p, j))),
{
    if !(0 <= j < p.len() + 1) {
        lemma_zero_combination(a);
    }
}

/// The coefficients of `f - c * m`, also beyond its length, where `m` is not
/// longer than `f`.
pub proof fn lemma_sub_scaled_coeff(f: Seq<Scalar>, c: Scalar, m: Seq<Scalar>, j: int)
    requires
        m.len() <= f.len(),
    ensures
        coeff(sub_scaled(f, c, m), j) == fsub(coeff(f, j), fmul(c, coeff(m, j))),
{
    if !(0 <= j < f.len()) {
        lemma_zero_combination(c);
    }
}

/// The order of two linear factors does not matter.
pub proof fn lemma_mul_linear_swap(g: Seq<Scalar>, a: Scalar, b: Scalar)
    ensures
        mul_linear(mul_linear(g, a), b) == mul_linear(mul_linear(g, b), a),
{
    let left = mul_linear(mul_linear(g, a), b);
    let right = mul_linear(mul_linear(g, b), a);
    assert forall|j: int| 0 <= j < g.len() + 2 implies left[j] == right[j] by {
        let u = coeff(g, j - 2);
        let w = coeff(g, j - 1);
        let z = coeff(g, j);
        lemma_mul_linear_coeff(g, a, j - 1);
        lemma_mul_linear_coeff(g, a, j);
        lemma_mul_linear_coeff(g, b, j - 1);
        lemma_mul_linear_coeff(g, b, j);
        lemma_two_factors(u, w, z, a, b);
        lemma_two_factors(u, w, z, b, a);
        assert(two_factors_number(u, w, z, a, b) == two_factors_number(u, w, z, b, a))
            by (nonlinear_arith)
            requires
                two_factors_number(u, w, z, a, b) == u.value() - (a.value() + b.value())
                    * w.value() + a.value() * b.value() * z.value(),
                two_factors_number(u, w, z, b, a) == u.value() - (b.value() + a.value())
                    * w.value() + b.value() * a.value() * z.value(),
        ;
        lemma_equal_by_cong(left[j], right[j], two_factors_number(u, w, z, a, b));
    }
    assert(left =~= right);
}

/// The number that the coefficient `u - (a + b) w + a b z` of a product with
/// two linear factors stands for.
pub open spec fn two_factors_number(u: Scalar, w: Scalar, z: Scalar, a: Scalar, b: Scalar) -> int {
    u.value() - (a.value() + b.value()) * w.value() + a.value() * b.value() * z.value()
}

/// A coefficient of a product with two linear factors.
pub proof fn lemma_two_factors(u: Scalar, w: Scalar, z: Scalar, a: Scalar, b: Scalar)
    ensures
        fsub(fsub(u, fmul(a, w)), fmul(b, fsub(w, fmul(a, z)))).canonical(),
        cong(
            fsub(fsub(u, fmul(a, w)), fmul(b, fsub(w, fmul(a, z)))).value() as int,
            two_factors_number(u, w, z, a, b),
        ),
{
    let (vu, vw, vz, va, vb) = (
        u.value() as int,
        w.value() as int,
        z.value() as int,
        a.value() as int,
        b.value() as int,
    );
    lemma_cong_mul(a, w, va, vw);
    lemma_cong_sub(u, fmul(a, w), vu, va * vw);
    lemma_cong_mul(a, z, va, vz);
    lemma_cong_sub(w, fmul(a, z), vw, va * vz);
    lemma_cong_mul(b, fsub(w, fmul(a, z)), vb, vw - va * vz);
    lemma_cong_sub(
        fsub(u, fmul(a, w)),
        fmul(b, fsub(w, fmul(a, z))),
        vu - va * vw,
        vb * (vw - va * vz),
    );
    assert((vu - va * vw) - vb * (vw - va * vz) == vu - (va + vb) * vw + va * vb * vz)
        by (nonlinear_arith);
}

/// A linear factor may be multiplied in before the others or after them.
pub proof fn lemma_lin_commutes(q: Seq<Scalar>, a: Scalar, xs: Seq<Scalar>, t: nat)
    ensures
        lin(mul_linear(q, a), xs, t) == mul_linear(lin(q, xs, t), a),
    decreases t,
{
    if t > 0 {
        let before = (t - 1) as nat;
        lemma_lin_commutes(q, a, xs, before);
        lemma_mul_linear_swap(lin(q, xs, before), a, xs[t - 1]);
    }
}

/// A coefficient of `(g - c * b) * (X - a)`, written in two ways.
pub proof fn lemma_linear_in_both(u: Scalar, w: Scalar, v: Scalar, z: Scalar, a: Scalar, c: Scalar)
    ensures
        fsub(fsub(u, fmul(c, v)), fmul(a, fsub(w, fmul(c, z)))) == fsub(
            fsub(u, fmul(a, w)),
            fmul(c, fsub(v, fmul(a, z))),
        ),
{
    let (vu, vw, vv, vz, va, vc) = (
        u.value() as int,
        w.value() as int,
        v.value() as int,
        z.value() as int,
        a.value() as int,
        c.value() as int,
    );
    lemma_cong_mul(c, v, vc, vv);
    lemma_cong_sub(u, fmul(c, v), vu, vc * vv);
    lemma_cong_mul(c, z, vc, vz);
    lemma_cong_sub(w, fmul(c, z), vw, vc * vz);
    lemma_cong_mul(a, fsub(w, fmul(c, z)), va, vw - vc * vz);
    lemma_cong_sub(
        fsub(u, fmul(c, v)),
        fmul(a, fsub(w, fmul(c, z))),
        vu - vc * vv,
        va * (vw - vc * vz),
    );
    lemma_cong_mul(a, w, va, vw);
    lemma_cong_sub(u, fmul(a, w), vu, va * vw);
    lemma_cong_mul(a, z, va, vz);
    lemma_cong_sub(v, fmul(a, z), vv, va * vz);
    lemma_cong_mul(c, fsub(v, fmul(a, z)), vc, vv - va * vz);
    lemma_cong_sub(
        fsub(u, fmul(a, w)),
        fmul(c, fsub(v, fmul(a, z))),
        vu - va * vw,
        vc * (vv - va * vz),
    );
    assert((vu - vc * vv) - va * (vw - vc * vz) == (vu - va * vw) - vc * (vv - va * vz))
        by (nonlinear_arith);
    lemma_equal_by_cong(
        fsub(fsub(u, fmul(c, v)), fmul(a, fsub(w, fmul(c, z)))),
        fsub(fsub(u, fmul(a, w)), fmul(c, fsub(v, fmul(a, z)))),
        (vu - vc * vv) - va * (vw - vc * vz),
    );
}

/// Multiplying by the linear factors goes through a difference: the product
/// of `g - c * b` with the factors is the product of `g` less `c` times the
/// product of `b`.
pub proof fn lemma_lin_of_difference(
    g: Seq<Scalar>,
    c: Scalar,
    b: Seq<Scalar>,
    xs: Seq<Scalar>,
    t: nat,
)
    requires
        b.len() <= g.len(),
    ensures
        lin(sub_scaled(g, c, b), xs, t) == sub_scaled(lin(g, xs, t), c, lin(b, xs, t)),
    decreases t,
{
    if t > 0 {
        let before = (t - 1) as nat;
        lemma_lin_of_difference(g, c, b, xs, before);
        let a = xs[t - 1];
        let big = lin(g, xs, before);
        let small = lin(b, xs, before);
        lemma_lin_len(g, xs, before);
        lemma_lin_len(b, xs, before);
        let diff = sub_scaled(big, c, small);
        let left = mul_linear(diff, a);
        let right = sub_scaled(mul_linear(big, a), c, mul_linear(small, a));
        assert forall|j: int| 0 <= j < big.len() + 1 implies left[j] == right[j] by {
            lemma_sub_scaled_coeff(big, c, small, j - 1);
            lemma_sub_scaled_coeff(big, c, small, j);
            lemma_mul_linear_coeff(big, a, j);
            lemma_mul_linear_coeff(small, a, j);
            lemma_linear_in_both(
                coeff(big, j - 1),
                coeff(big, j),
                coeff(small, j - 1),
                coeff(small, j),
                a,
                c,
            );
        }
        assert(left =~= right);
    }
}

/// The product of a polynomial without coefficients with `t` linear factors
/// has `t` coefficients, all zero.
pub proof fn lemma_lin_of_nothing(xs: Seq<Scalar>, t: nat, j: int)
    requires
        0 <= j < t,
    ensures
        lin(Seq::<Scalar>::empty(), xs, t).len() == t,
        lin(Seq::<Scalar>::empty(), xs, t)[j] == scalar_of_nat(0),
    decreases t,
{
    let before = (t - 1) as nat;
    lemma_lin_len(Seq::<Scalar>::empty(), xs, t);
    lemma_lin_len(Seq::<Scalar>::empty(), xs, before);
    let p = lin(Seq::<Scalar>::empty(), xs, before);
    if j - 1 >= 0 {
        lemma_lin_of_nothing(xs, before, j - 1);
    }
    if j < before {
        lemma_lin_of_nothing(xs, before, j);
    }
    lemma_zero_combination(xs[t - 1]);
}

/// Division without remainder: a polynomial that takes the value zero at `z`
/// is the product of its quotient by `X - z` and `X - z`.
pub proof fn lemma_quotient_times_factor(h: Seq<Scalar>, z: Scalar)
    requires
        h.len() >= 1,
        all_canonical(h),
        horner(h, z) == scalar_of_nat(0),
    ensures
        mul_linear(quotient(h, z), z) == h,
        all_canonical(quotient(h, z)),
        quotient(h, z).len() == h.len() - 1,
{
    let q = quotient(h, z);
    let back = mul_linear(q, z);
    lemma_zero_one();
    let vz = z.value() as int;
    assert forall|j: int| 0 <= j < q.len() implies (#[trigger] q[j]).canonical() by {
        lemma_horner_canonical(h.skip(j + 1), z);
    }
    assert forall|j: int| 0 <= j < h.len() implies back[j] == h[j] by {
        // the value at z of the coefficients from j on, and from j + 1 on
        let from_here = horner(h.skip(j), z);
        let above = horner(h.skip(j + 1), z);
        assert(h.skip(j).drop_first() =~= h.skip(j + 1));
        assert(h.skip(j)[0] == h[j]);
        assert(from_here == fadd(fmul(above, z), h[j]));
        if j + 1 == h.len() {
            assert(h.skip(j + 1) =~= Seq::<Scalar>::empty());
        }
        assert(coeff(q, j) == above);
        let va = above.value() as int;
        lemma_cong_mul(above, z, va, vz);
        lemma_cong_add(fmul(above, z), h[j], va * vz, h[j].value() as int);
        lemma_cong_mul(z, above, vz, va);
        if j == 0 {
            // the whole polynomial takes the value zero
            assert(h.skip(0) =~= h);
            assert(cong(0, va * vz + h[0].value()));
            lemma_cong_sub(scalar_of_nat(0), fmul(z, above), 0, vz * va);
            assert(cong(0 - vz * va, h[0].value() as int)) by {
                lemma_shift_congruence(0, va * vz + h[0].value(), vz * va);
                assert(va * vz + h[0].value() - vz * va == h[0].value()) by (nonlinear_arith);
            }
            lemma_equal_by_cong(back[0], h[0], h[0].value() as int);
        } else {
            assert(coeff(q, j - 1) == from_here);
            lemma_cong_sub(from_here, fmul(z, above), va * vz + h[j].value(), vz * va);
            assert(va * vz + h[j].value() - vz * va == h[j].value()) by (nonlinear_arith);
            lemma_equal_by_cong(back[j], h[j], h[j].value() as int);
        }
    }
    assert(back =~= h);
}

/// Subtracting the same number keeps two numbers congruent.
pub proof fn lemma_shift_congruence(a: int, b: int, c: int)
    requires
        cong(a, b),
    ensures
        cong(a - c, b - c),
{
    lemma_modulus_range();
    lemma_sub_mod_noop(a, c, modulus() as int);
    lemma_sub_mod_noop(b, c, modulus() as int);
}

/// The value of a polynomial is below the field order.
pub proof fn lemma_horner_canonical(p: Seq<Scalar>, x: Scalar)
    ensures
        horner(p, x).canonical(),
{
    lemma_zero_one();
    if p.len() > 0 {
        let above = horner(p.drop_first(), x);
        lemma_cong_add(fmul(above, x), p[0], fmul(above, x).value() as int, p[0].value() as int);
    }
}

/// Multiplying by the same number keeps two numbers congruent.
pub proof fn lemma_cong_times(a: int, b: int, c: int)
    requires
        cong(a, b),
    ensures
        cong(a * c, b * c),
        cong(c * a, c * b),
{
    lemma_modulus_range();
    let r = modulus() as int;
    lemma_mul_mod_noop_general(a, c, r);
    lemma_mul_mod_noop_general(b, c, r);
    lemma_mul_mod_noop_general(c, a, r);
    lemma_mul_mod_noop_general(c, b, r);
}

/// Adding congruent numbers keeps two numbers congruent.
pub proof fn lemma_cong_plus(a: int, b: int, c: int, d: int)
    requires
        cong(a, b),
        cong(c, d),
    ensures
        cong(a + c, b + d),
        cong(a - c, b - d),
{
    lemma_modulus_range();
    let r = modulus() as int;
    lemma_add_mod_noop(a, c, r);
    lemma_add_mod_noop(b, d, r);
    lemma_sub_mod_noop(a, c, r);
    lemma_sub_mod_noop(b, d, r);
}

/// The product of `x - xs[i]` over the first `t` of the `xs`, as a number.
pub open spec fn product_of_differences(xs: Seq<Scalar>, t: nat, x: int) -> int
    decreases t,
{
    if t == 0 {
        1
    } else {
        product_of_differences(xs, (t - 1) as nat, x) * (x - xs[t - 1].value())
    }
}

/// The number of a product with linear factors is the number of the
/// polynomial times the product of the differences, up to reduction.
pub proof fn lemma_lin_value(g: Seq<Scalar>, xs: Seq<Scalar>, t: nat, x: int)
    ensures
        cong(eval_int(lin(g, xs, t), x), eval_int(g, x) * product_of_differences(xs, t, x)),
    decreases t,
{
    if t == 0 {
        assert(eval_int(g, x) * 1 == eval_int(g, x)) by (nonlinear_arith);
    } else {
        let before = (t - 1) as nat;
        let a = xs[t - 1];
        lemma_lin_value(g, xs, before, x);
        lemma_mul_linear_value(lin(g, xs, before), a, x);
        let e = eval_int(lin(g, xs, before), x);
        let n = eval_int(g, x) * product_of_differences(xs, before, x);
        lemma_cong_times(e, n, x - a.value());
        assert((x - a.value()) * n == eval_int(g, x) * (product_of_differences(xs, before, x) * (x
            - a.value()))) by (nonlinear_arith)
            requires
                n == eval_int(g, x) * product_of_differences(xs, before, x),
        ;
    }
}

/// A coefficient of `f - c * m`, written as a sum.
pub proof fn lemma_difference_as_sum(f: Scalar, c: Scalar, m: Scalar)
    ensures
        fsub(f, fmul(c, m)) == fadd(f, fmul(fsub(scalar_of_nat(0), c), m)),
{
    lemma_zero_one();
    let (vf, vc, vm) = (f.value() as int, c.value() as int, m.value() as int);
    lemma_cong_mul(c, m, vc, vm);
    lemma_cong_sub(f, fmul(c, m), vf, vc * vm);
    lemma_cong_sub(scalar_of_nat(0), c, 0, vc);
    lemma_cong_mul(fsub(scalar_of_nat(0), c), m, 0 - vc, vm);
    lemma_cong_add(f, fmul(fsub(scalar_of_nat(0), c), m), vf, (0 - vc) * vm);
    assert(vf + (0 - vc) * vm == vf - vc * vm) by (nonlinear_arith);
    lemma_equal_by_cong(
        fsub(f, fmul(c, m)),
        fadd(f, fmul(fsub(scalar_of_nat(0), c), m)),
        vf - vc * vm,
    );
}

/// The number of `f - c * m` is the number of `f` less `c` times the number
/// of `m`, up to reduction.
pub proof fn lemma_sub_scaled_value(f: Seq<Scalar>, c: Scalar, m: Seq<Scalar>, x: int)
    requires
        m.len() <= f.len(),
    ensures
        cong(eval_int(sub_scaled(f, c, m), x), eval_int(f, x) - c.value() * eval_int(m, x)),
{
    lemma_zero_one();
    let minus_c = fsub(scalar_of_nat(0), c);
    assert(sub_scaled(f, c, m) =~= add_scaled(f, minus_c, m)) by {
        assert forall|j: int| 0 <= j < f.len() implies sub_scaled(f, c, m)[j] == add_scaled(
            f,
            minus_c,
            m,
        )[j] by {
            lemma_difference_as_sum(f[j], c, coeff(m, j));
        }
    }
    lemma_add_scaled_value(f, minus_c, m, x);
    lemma_cong_sub(scalar_of_nat(0), c, 0, c.value() as int);
    let e = eval_int(m, x);
    lemma_cong_times(minus_c.value() as int, 0 - c.value(), e);
    lemma_cong_plus(eval_int(f, x), eval_int(f, x), minus_c.value() * e, (0 - c.value()) * e);
    assert(eval_int(f, x) + (0 - c.value()) * e == eval_int(f, x) - c.value() * e)
        by (nonlinear_arith);
}

/// The multiple of the vanishing polynomial that Newton's interpolation adds
/// for the point `t`.
pub open spec fn newton_coefficient(xs: Seq<Scalar>, ys: Seq<Scalar>, size: nat, t: nat) -> Scalar {
    let f = interpolant(xs, ys, size, t)->Some_0;
    let x = xs[t as int];
    fmul(
        fsub(ys[t as int], horner(f, x)),
        spec_fr_inverse(horner(vanishing(xs, t), x))->Some_0,
    )
}

/// What is left of `p` after `t` points, divided by the vanishing polynomial
/// of these points.
pub open spec fn remainder(p: Seq<Scalar>, xs: Seq<Scalar>, ys: Seq<Scalar>, t: nat) -> Seq<Scalar>
    decreases t,
{
    if t == 0 {
        sub_scaled(p, scalar_of_nat(1), Seq::new(p.len(), |j: int| scalar_of_nat(0)))
    } else {
        quotient(
            sub_scaled(
                remainder(p, xs, ys, (t - 1) as nat),
                newton_coefficient(xs, ys, p.len(), (t - 1) as nat),
                unit(),
            ),
            xs[t - 1],
        )
    }
}

/// `ys` holds the values of `p` at the `xs`.
pub open spec fn values_of(p: Seq<Scalar>, xs: Seq<Scalar>, ys: Seq<Scalar>) -> bool {
    forall|i: int|
        0 <= i < p.len() ==> cong(
            (#[trigger] ys[i]).value() as int,
            eval_int(p, xs[i].value() as int),
        )
}

/// A coefficient of what is left after one more point.
pub proof fn lemma_split_off(p: Scalar, f: Scalar, m: Scalar, c: Scalar)
    ensures
        fsub(p, fmul(scalar_of_nat(1), fadd(f, fmul(c, m)))) == fsub(
            fsub(p, fmul(scalar_of_nat(1), f)),
            fmul(c, m),
        ),
{
    lemma_zero_one();
    let one = scalar_of_nat(1);
    let (vp, vf, vm, vc) = (p.value() as int, f.value() as int, m.value() as int, c.value() as int);
    lemma_cong_mul(c, m, vc, vm);
    lemma_cong_add(f, fmul(c, m), vf, vc * vm);
    lemma_cong_mul(one, fadd(f, fmul(c, m)), 1, vf + vc * vm);
    lemma_cong_sub(p, fmul(one, fadd(f, fmul(c, m))), vp, 1 * (vf + vc * vm));
    lemma_cong_mul(one, f, 1, vf);
    lemma_cong_sub(p, fmul(one, f), vp, 1 * vf);
    lemma_cong_sub(fsub(p, fmul(one, f)), fmul(c, m), vp - 1 * vf, vc * vm);
    assert(vp - 1 * (vf + vc * vm) == vp - 1 * vf - vc * vm) by (nonlinear_arith);
    lemma_equal_by_cong(
        fsub(p, fmul(one, fadd(f, fmul(c, m)))),
        fsub(fsub(p, fmul(one, f)), fmul(c, m)),
        vp - 1 * (vf + vc * vm),
    );
}

/// What is left of `p` after `t` points is a multiple of the vanishing
/// polynomial of these points: it is the product of `remainder(p, xs, ys, t)`
/// and the linear factors of the points.
pub proof fn lemma_remainder(p: Seq<Scalar>, xs: Seq<Scalar>, ys: Seq<Scalar>, t: nat)
    requires
        t <= p.len(),
        p.len() <= xs.len(),
        p.len() <= ys.len(),
        values_of(p, xs, ys),
        interpolant(xs, ys, p.len(), t) is Some,
    ensures
        sub_scaled(p, scalar_of_nat(1), interpolant(xs, ys, p.len(), t)->Some_0) == lin(
            remainder(p, xs, ys, t),
            xs,
            t,
        ),
        remainder(p, xs, ys, t).len() == p.len() - t,
        all_canonical(remainder(p, xs, ys, t)),
    decreases t,
{
    lemma_zero_one();
    let k = p.len();
    let one = scalar_of_nat(1);
    if t == 0 {
        let g = remainder(p, xs, ys, 0);
        assert forall|j: int| 0 <= j < g.len() implies (#[trigger] g[j]).canonical() by {
            lemma_cong_sub(p[j], fmul(one, scalar_of_nat(0)), p[j].value() as int, fmul(
                one,
                scalar_of_nat(0),
            ).value() as int);
        }
    } else {
        let s = (t - 1) as nat;
        let f = interpolant(xs, ys, k, s)->Some_0;
        let m = vanishing(xs, s);
        let x = xs[s as int];
        let y = ys[s as int];
        let d = horner(m, x);
        let inv = spec_fr_inverse(d)->Some_0;
        let e = horner(f, x);
        let c = newton_coefficient(xs, ys, k, s);
        let next = interpolant(xs, ys, k, t)->Some_0;
        assert(next == add_scaled(f, c, m));
        assert(is_inverse(d, inv));
        lemma_remainder(p, xs, ys, s);
        lemma_interpolant_len(xs, ys, k, s);
        lemma_vanishing_len(xs, s);
        lemma_vanishing_is_lin(xs, s);
        let g = remainder(p, xs, ys, s);
        let left = sub_scaled(p, one, f);
        // what is left after the new point is what was left less c times the
        // vanishing polynomial
        let left_next = sub_scaled(p, one, next);
        assert(left_next =~= sub_scaled(left, c, m)) by {
            assert forall|j: int| 0 <= j < k implies left_next[j] == sub_scaled(left, c, m)[j] by {
                lemma_split_off(p[j], f[j], coeff(m, j), c);
            }
        }
        let h = sub_scaled(g, c, unit());
        lemma_lin_of_difference(g, c, unit(), xs, s);
        assert(left_next == lin(h, xs, s));
        assert forall|j: int| 0 <= j < h.len() implies (#[trigger] h[j]).canonical() by {
            lemma_cong_sub(g[j], fmul(c, coeff(unit(), j)), g[j].value() as int, fmul(
                c,
                coeff(unit(), j),
            ).value() as int);
        }
        // the new point is a root of h
        let at = x.value() as int;
        let prod = product_of_differences(xs, s, at);
        let eg = eval_int(g, at);
        let ep = eval_int(p, at);
        let ef = eval_int(f, at);
        let vi = inv.value() as int;
        lemma_sub_scaled_value(p, one, f, at);
        assert(1 * ef == ef) by (nonlinear_arith);
        lemma_lin_value(g, xs, s, at);
        assert(cong(ep - ef, eg * prod));
        lemma_lin_value(unit(), xs, s, at);
        assert(eval_int(unit(), at) == 1) by {
            assert(unit().drop_first() =~= Seq::<Scalar>::empty());
            assert(eval_int(unit().drop_first(), at) == 0);
            assert(at * 0 == 0) by (nonlinear_arith);
        }
        assert(1 * prod == prod) by (nonlinear_arith);
        lemma_horner_value(m, x);
        lemma_modulus_range();
        vstd::arithmetic::div_mod::lemma_mod_twice(eval_int(m, at), modulus() as int);
        assert(cong(d.value() as int, prod));
        lemma_cong_times(d.value() as int, prod, vi);
        lemma_small_mod(1, modulus());
        assert(cong(prod * vi, 1));
        lemma_horner_value(f, x);
        vstd::arithmetic::div_mod::lemma_mod_twice(ef, modulus() as int);
        assert(cong(e.value() as int, ef));
        assert(cong(y.value() as int, ep));
        lemma_cong_sub(y, e, ep, ef);
        lemma_cong_mul(fsub(y, e), inv, ep - ef, vi);
        // c is (ep - ef) * vi, which is eg * prod * vi, which is eg
        lemma_cong_times(ep - ef, eg * prod, vi);
        lemma_cong_times(prod * vi, 1, eg);
        assert((eg * prod) * vi == eg * (prod * vi)) by (nonlinear_arith);
        assert(eg * 1 == eg) by (nonlinear_arith);
        assert(cong(c.value() as int, eg));
        lemma_sub_scaled_value(g, c, unit(), at);
        assert(c.value() * 1 == c.value()) by (nonlinear_arith);
        lemma_cong_plus(eg, eg, c.value() as int, eg);
        assert(cong(eval_int(h, at), 0));
        lemma_horner_value(h, x);
        lemma_small_mod(0, modulus());
        lemma_equal_by_value(horner(h, x), scalar_of_nat(0));
        // so h is its quotient times the new linear factor
        lemma_quotient_times_factor(h, x);
        let q = quotient(h, x);
        assert(q == remainder(p, xs, ys, t));
        lemma_lin_commutes(q, x, xs, s);
    }
}

/// The polynomial that Newton's interpolation finds has all its coefficients
/// below the field order.
pub proof fn lemma_interpolant_canonical(xs: Seq<Scalar>, ys: Seq<Scalar>, size: nat, t: nat)
    requires
        interpolant(xs, ys, size, t) is Some,
    ensures
        all_canonical(interpolant(xs, ys, size, t)->Some_0),
{
    lemma_zero_one();
    let f = interpolant(xs, ys, size, t)->Some_0;
    if t > 0 {
        let before = interpolant(xs, ys, size, (t - 1) as nat)->Some_0;
        let c = newton_coefficient(xs, ys, size, (t - 1) as nat);
        let m = vanishing(xs, (t - 1) as nat);
        assert(f == add_scaled(before, c, m));
        assert forall|j: int| 0 <= j < f.len() implies (#[trigger] f[j]).canonical() by {
            lemma_cong_add(before[j], fmul(c, coeff(m, j)), before[j].value() as int, fmul(
                c,
                coeff(m, j),
            ).value() as int);
        }
    }
}

/// Newton's interpolation gives a polynomial back from its values: where the
/// `ys` are the values at the `xs` of a polynomial `p` whose coefficients are
/// below the field order, the polynomial through as many of these points as
/// `p` has coefficients is `p`.
pub proof fn lemma_interpolant_is_the_polynomial(p: Seq<Scalar>, xs: Seq<Scalar>, ys: Seq<Scalar>)
    requires
        all_canonical(p),
        p.len() <= xs.len(),
        p.len() <= ys.len(),
        values_of(p, xs, ys),
        interpolant(xs, ys, p.len(), p.len()) is Some,
    ensures
        interpolant(xs, ys, p.len(), p.len()) == Some(p),
{
    lemma_zero_one();
    let k = p.len();
    let one = scalar_of_nat(1);
    let f = interpolant(xs, ys, k, k)->Some_0;
    lemma_remainder(p, xs, ys, k);
    lemma_interpolant_len(xs, ys, k, k);
    lemma_interpolant_canonical(xs, ys, k, k);
    let g = remainder(p, xs, ys, k);
    assert(g =~= Seq::<Scalar>::empty());
    assert forall|j: int| 0 <= j < k implies f[j] == p[j] by {
        lemma_lin_of_nothing(xs, k, j);
        let diff = sub_scaled(p, one, f)[j];
        assert(diff == scalar_of_nat(0));
        let (vp, vf) = (p[j].value() as int, f[j].value() as int);
        lemma_cong_mul(one, f[j], 1, vf);
        lemma_cong_sub(p[j], fmul(one, f[j]), vp, 1 * vf);
        assert(1 * vf == vf) by (nonlinear_arith);
        assert(cong(0, vp - vf));
        lemma_cong_plus(0, vp - vf, vf, vf);
        lemma_equal_by_cong(f[j], p[j], vp);
    }
    assert(f =~= p);
}

} // verus!
