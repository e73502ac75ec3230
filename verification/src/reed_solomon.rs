//! Decoding of a Reed-Solomon code word from erasures: the polynomial of
//! degree below `data_size` through `data_size` points of an evaluation domain.

use crate::domain::{spec_domain_element, Radix2Domain};
use crate::field::{
    fadd, fmul, fr_add, fr_inverse, fr_mul, fr_sub, fsub, horner, modulus, polynomial_eval,
    scalar_of_nat, spec_fr_inverse, Scalar,
};
use vstd::prelude::*;

verus! {

/// One value of a code word: the index of a domain element, and the value of
/// the polynomial there.
#[derive(Clone, Copy, Debug, PartialEq, Eq)]
pub struct Point {
    pub index: u64,
    pub eval: Scalar,
}

/// The coefficient of `X^j` in `p`: zero from the length of `p` on.
pub open spec fn coeff(p: Seq<Scalar>, j: int) -> Scalar {
    if 0 <= j < p.len() {
        p[j]
    } else {
        scalar_of_nat(0)
    }
}

/// The product of `p` and `X - a`.
pub open spec fn mul_linear(p: Seq<Scalar>, a: Scalar) -> Seq<Scalar> {
    Seq::new(p.len() + 1, |j: int| fsub(coeff(p, j - 1), fmul(a, coeff(p, j))))
}

/// The sum of `f` and `c` times `m`, cut to the length of `f`.
pub open spec fn add_scaled(f: Seq<Scalar>, c: Scalar, m: Seq<Scalar>) -> Seq<Scalar> {
    Seq::new(f.len(), |j: int| fadd(f[j], fmul(c, coeff(m, j))))
}

/// The product of `X - xs[i]` over the first `t` of the `xs`.
pub open spec fn vanishing(xs: Seq<Scalar>, t: nat) -> Seq<Scalar>
    decreases t,
{
    if t == 0 {
        seq![scalar_of_nat(1)]
    } else {
        mul_linear(vanishing(xs, (t - 1) as nat), xs[t - 1])
    }
}

/// Newton's interpolation: the polynomial with `size` coefficients through the
/// first `t` points `(xs[i], ys[i])`. The polynomial through one point more is
/// the one before, plus the multiple of the vanishing polynomial of the points
/// before that mends the value at the new point. There is none where a new
/// point's `x` is a root of that vanishing polynomial, as it is when an `x`
/// comes twice.
pub open spec fn interpolant(xs: Seq<Scalar>, ys: Seq<Scalar>, size: nat, t: nat) -> Option<
    Seq<Scalar>,
>
    decreases t,
{
    if t == 0 {
        Some(Seq::new(size, |j: int| scalar_of_nat(0)))
    } else {
        match interpolant(xs, ys, size, (t - 1) as nat) {
            None => None,
            Some(f) => {
                let m = vanishing(xs, (t - 1) as nat);
                let x = xs[t - 1];
                match spec_fr_inverse(horner(m, x)) {
                    None => None,
                    Some(inv) => Some(
                        add_scaled(f, fmul(fsub(ys[t - 1], horner(f, x)), inv), m),
                    ),
                }
            },
        }
    }
}

/// The domain elements that the first `data_size` points name.
pub open spec fn point_xs(points: Seq<Point>, data_size: nat, domain_size: nat) -> Seq<Scalar> {
    Seq::new(data_size, |i: int| spec_domain_element(domain_size, points[i].index as nat))
}

/// The values of the first `data_size` points.
pub open spec fn point_ys(points: Seq<Point>, data_size: nat) -> Seq<Scalar> {
    Seq::new(data_size, |i: int| points[i].eval)
}

/// One of the first `data_size` points names an index outside the domain.
pub open spec fn index_out_of_domain(points: Seq<Point>, data_size: nat, domain_size: nat) -> bool {
    exists|i: int| 0 <= i < data_size && i < points.len() && points[i].index >= domain_size
}

/// Two of the first `data_size` points name the same index.
pub open spec fn repeated_index(points: Seq<Point>, data_size: nat) -> bool {
    exists|i: int, j: int|
        0 <= i < j < data_size && j < points.len() && (#[trigger] points[i]).index == (
        #[trigger] points[j]).index
}

/// What the decoder gives: the `data_size` coefficients of the polynomial
/// through the first `data_size` points, or nothing where there are too few
/// points, an index lies outside the domain, or no polynomial is found.
pub open spec fn spec_decode(points: Seq<Point>, data_size: nat, domain_size: nat) -> Option<
    Seq<Scalar>,
> {
    if points.len() < data_size || index_out_of_domain(points, data_size, domain_size) {
        None
    } else {
        interpolant(
            point_xs(points, data_size, domain_size),
            point_ys(points, data_size),
            data_size,
            data_size,
        )
    }
}

/// A polynomial that was found has `size` coefficients.
pub proof fn lemma_interpolant_len(xs: Seq<Scalar>, ys: Seq<Scalar>, size: nat, t: nat)
    ensures
        interpolant(xs, ys, size, t) matches Some(f) ==> f.len() == size,
    decreases t,
{
    if t > 0 {
        lemma_interpolant_len(xs, ys, size, (t - 1) as nat);
    }
}

/// The vanishing polynomial of `t` points has `t + 1` coefficients.
pub proof fn lemma_vanishing_len(xs: Seq<Scalar>, t: nat)
    ensures
        vanishing(xs, t).len() == t + 1,
    decreases t,
{
    if t > 0 {
        lemma_vanishing_len(xs, (t - 1) as nat);
    }
}

/// The product of `p` and `X - a`.
fn poly_mul_linear(p: &Vec<Scalar>, a: &Scalar) -> (r: Vec<Scalar>)
    ensures
        r@ == mul_linear(p@, *a),
{
    let zero = Scalar::zero();
    let mut out: Vec<Scalar> = Vec::new();
    let mut j: usize = 0;
    while j < p.len()
        invariant
            j <= p.len(),
            zero == scalar_of_nat(0),
            out.len() == j,
            forall|i: int| 0 <= i < j ==> out[i] == fsub(coeff(p@, i - 1), fmul(*a, coeff(p@, i))),
        decreases p.len() - j,
    {
        let below = if j > 0 {
            p[j - 1]
        } else {
            zero
        };
        let t = fr_mul(a, &p[j]);
        out.push(fr_sub(&below, &t));
        j += 1;
    }
    let below = if j > 0 {
        p[j - 1]
    } else {
        zero
    };
    let t = fr_mul(a, &zero);
    out.push(fr_sub(&below, &t));
    assert(out@ =~= mul_linear(p@, *a));
    out
}

/// The sum of `f` and `c` times `m`, cut to the length of `f`.
fn poly_add_scaled(f: &Vec<Scalar>, c: &Scalar, m: &Vec<Scalar>) -> (r: Vec<Scalar>)
    ensures
        r@ == add_scaled(f@, *c, m@),
{
    let zero = Scalar::zero();
    let mut out: Vec<Scalar> = Vec::new();
    let mut j: usize = 0;
    while j < f.len()
        invariant
            j <= f.len(),
            zero == scalar_of_nat(0),
            out.len() == j,
            forall|i: int| 0 <= i < j ==> out[i] == fadd(f[i], fmul(*c, coeff(m@, i))),
        decreases f.len() - j,
    {
        let here = if j < m.len() {
            m[j]
        } else {
            zero
        };
        let t = fr_mul(c, &here);
        out.push(fr_add(&f[j], &t));
        j += 1;
    }
    assert(out@ =~= add_scaled(f@, *c, m@));
    out
}

/// Finds the polynomial of degree below `data_size` that takes, at the domain
/// elements that the first `data_size` points name, the values that they
/// give. Further points are not read. There is no such polynomial to find
/// where there are too few points, where one of them names an index outside
/// the domain, and where two of them name the same index.
pub fn reed_solomon_erasure_decode_rou(points: &[Point], data_size: usize, domain: &Radix2Domain) -> (r:
    Option<Vec<Scalar>>)
    requires
        domain.wf(),
    ensures
        r matches Some(c) ==> spec_decode(points@, data_size as nat, domain.spec_size()) == Some(
            c@,
        ),
        r is None ==> spec_decode(points@, data_size as nat, domain.spec_size()) is None,
        r is None <==> points.len() < data_size || index_out_of_domain(
            points@,
            data_size as nat,
            domain.spec_size(),
        ) || repeated_index(points@, data_size as nat),
        r matches Some(c) ==> c.len() == data_size && forall|i: int|
            0 <= i < data_size ==> horner(
                c@,
                spec_domain_element(domain.spec_size(), (#[trigger] points[i]).index as nat),
            ).value() == points[i].eval.value() % modulus(),
{
    let domain_size = domain.size();
    proof {
        domain.lemma_wf();
        crate::roots::lemma_decode_fails_iff(points@, data_size as nat, domain.spec_size());
    }
    if points.len() < data_size {
        return None;
    }
    let ghost xs = point_xs(points@, data_size as nat, domain.spec_size());
    let ghost ys = point_ys(points@, data_size as nat);
    let mut i: usize = 0;
    while i < data_size
        invariant
            i <= data_size <= points.len(),
            domain_size == domain.spec_size(),
            forall|j: int| 0 <= j < i ==> points[j].index < domain_size,
        decreases data_size - i,
    {
        if points[i].index >= domain_size as u64 {
            return None;
        }
        i += 1;
    }
    assert(!index_out_of_domain(points@, data_size as nat, domain.spec_size()));
    let zero = Scalar::zero();
    let mut f: Vec<Scalar> = Vec::new();
    let mut j: usize = 0;
    while j < data_size
        invariant
            j <= data_size,
            zero == scalar_of_nat(0),
            f.len() == j,
            forall|i: int| 0 <= i < j ==> f[i] == scalar_of_nat(0),
        decreases data_size - j,
    {
        f.push(zero);
        j += 1;
    }
    assert(f@ =~= Seq::new(data_size as nat, |j: int| scalar_of_nat(0)));
    let mut m: Vec<Scalar> = Vec::new();
    m.push(Scalar::one());
    assert(m@ =~= vanishing(xs, 0));
    let mut t: usize = 0;
    while t < data_size
        invariant
            t <= data_size <= points.len(),
            domain.wf(),
            domain_size == domain.spec_size(),
            forall|j: int| 0 <= j < data_size ==> points[j].index < domain_size,
            xs == point_xs(points@, data_size as nat, domain.spec_size()),
            ys == point_ys(points@, data_size as nat),
            interpolant(xs, ys, data_size as nat, t as nat) == Some(f@),
            m@ == vanishing(xs, t as nat),
            m.len() == t + 1,
            spec_decode(points@, data_size as nat, domain.spec_size()) is None
                <==> points.len() < data_size || index_out_of_domain(
                points@,
                data_size as nat,
                domain.spec_size(),
            ) || repeated_index(points@, data_size as nat),
        decreases data_size - t,
    {
        let x = domain.element(points[t].index as usize);
        let y = points[t].eval;
        assert(x == xs[t as int]);
        assert(y == ys[t as int]);
        let d = polynomial_eval(m.as_slice(), &x);
        let inv = match fr_inverse(&d) {
            None => {
                proof {
                    assert(interpolant(xs, ys, data_size as nat, (t + 1) as nat) is None);
                    lemma_interpolant_fails_on(
                        xs,
                        ys,
                        data_size as nat,
                        (t + 1) as nat,
                        data_size as nat,
                    );
                }
                return None;
            },
            Some(inv) => inv,
        };
        let e = polynomial_eval(f.as_slice(), &x);
        let diff = fr_sub(&y, &e);
        let c = fr_mul(&diff, &inv);
        let ghost f0 = f@;
        let ghost m0 = m@;
        f = poly_add_scaled(&f, &c, &m);
        m = poly_mul_linear(&m, &x);
        t += 1;
        proof {
            assert(spec_fr_inverse(horner(m0, x)) == Some(inv));
            assert(c == fmul(fsub(ys[t - 1], horner(f0, x)), inv));
            assert(interpolant(xs, ys, data_size as nat, (t - 1) as nat) == Some(f0));
            assert(interpolant(xs, ys, data_size as nat, t as nat) == Some(add_scaled(f0, c, m0)));
            assert(vanishing(xs, t as nat) == mul_linear(m0, x));
        }
    }
    proof {
        assert forall|i: int| 0 <= i < data_size implies horner(
            f@,
            spec_domain_element(domain.spec_size(), (#[trigger] points[i]).index as nat),
        ).value() == points[i].eval.value() % modulus() by {
            crate::polynomial::lemma_decoded_polynomial_interpolates(
                points@,
                data_size as nat,
                domain.spec_size(),
                i,
            );
        }
        crate::polynomial::lemma_decoded_polynomial_len(
            points@,
            data_size as nat,
            domain.spec_size(),
        );
    }
    Some(f)
}

/// Once there is no polynomial through the first `t` points, there is none
/// through more of them.
pub proof fn lemma_interpolant_fails_on(
    xs: Seq<Scalar>,
    ys: Seq<Scalar>,
    size: nat,
    t: nat,
    u: nat,
)
    requires
        t <= u,
        interpolant(xs, ys, size, t) is None,
    ensures
        interpolant(xs, ys, size, u) is None,
    decreases u,
{
    if t < u {
        lemma_interpolant_fails_on(xs, ys, size, t, (u - 1) as nat);
    }
}

} // verus!
