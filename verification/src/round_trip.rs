//! From a dispersal back to the payload: what the recovery makes of shares
//! of a dispersal, where it makes anything of them, is the payload.

use crate::advz::{AdvzInternal, Share, VidDisperse};
use crate::bytes_to_field::{
    chunk_of, lemma_pack_bytes, num_elems, pack, spec_bytes_to_field, spec_field_to_bytes,
};
use crate::dispersal::{polys_are_transforms, spec_payload_elems};
use crate::domain::{padded, spec_domain_element, spec_fft};
use crate::error::VidError;
use crate::field::{horner, modulus, reduced, Scalar};
use crate::laws::{lemma_points_len, lemma_shares_hold_the_code_word};
use crate::pcs::{lemma_batch_commit_len, spec_multi_evals, KzgCommit, KzgProof};
use crate::polynomial::{eval_int, lemma_horner_value, lemma_modulus_range, lemma_value_of_nat};
use crate::recovery::{lemma_recover_fails_on, share_points, spec_points, spec_recover_elems, truncated};
use crate::advz::Common;
use crate::reed_solomon::{
    index_out_of_domain, interpolant, point_xs, point_ys, repeated_index, spec_decode,
};
use crate::roots::{distinct_elements, lemma_decode_fails_iff, lemma_interpolant_exists};
use crate::uniqueness::{cong, lemma_interpolant_is_the_polynomial, values_of};
use vstd::prelude::*;

verus! {

/// A packed run of bytes is below the field order.
pub proof fn lemma_pack_is_reduced(chunk: Seq<u8>)
    ensures
        reduced(pack(chunk)) == pack(chunk),
{
    lemma_modulus_range();
    let n = crate::field::le_nat(chunk) % modulus();
    lemma_value_of_nat(n);
    vstd::arithmetic::div_mod::lemma_small_mod(n, modulus());
}

/// The bytes of two runs of field elements, one after the other, are the
/// bytes of the first followed by the bytes of the second.
pub proof fn lemma_field_to_bytes_concat(a: Seq<Scalar>, b: Seq<Scalar>)
    ensures
        spec_field_to_bytes(a + b) == spec_field_to_bytes(a) + spec_field_to_bytes(b),
{
    let whole = spec_field_to_bytes(a + b);
    let parts = spec_field_to_bytes(a) + spec_field_to_bytes(b);
    assert forall|j: int| 0 <= j < whole.len() implies whole[j] == parts[j] by {
        if j >= 31 * a.len() {
            let t = j - 31 * a.len();
            assert(j / 31 == a.len() + t / 31);
            assert(j % 31 == t % 31);
        }
    }
    assert(whole =~= parts);
}

/// The polynomial's worth of field elements that a run of at most
/// `31 * chunk_size` bytes fills, with zeros at its end, unpacks to the run,
/// followed by zeros.
pub proof fn lemma_block_bytes(bytes: Seq<u8>, chunk_size: nat)
    requires
        bytes.len() <= 31 * chunk_size,
    ensures
        spec_field_to_bytes(padded(spec_bytes_to_field(bytes), chunk_size)).len() == 31 * chunk_size,
        spec_field_to_bytes(padded(spec_bytes_to_field(bytes), chunk_size)).take(bytes.len() as int)
            == bytes,
{
    let elems = spec_bytes_to_field(bytes);
    let block = padded(elems, chunk_size);
    let out = spec_field_to_bytes(block);
    assert(elems.len() == num_elems(bytes.len()));
    assert(elems.len() <= chunk_size);
    assert forall|j: int| 0 <= j < bytes.len() implies out[j] == bytes[j] by {
        let i = j / 31;
        let chunk = chunk_of(bytes, i);
        assert(0 <= i < elems.len());
        assert(elems[i] == pack(chunk));
        lemma_pack_is_reduced(chunk);
        assert(block[i] == pack(chunk));
        lemma_pack_bytes(chunk, j % 31);
        assert(chunk[j % 31] == bytes[31 * i + j % 31]);
    }
    assert(out.take(bytes.len() as int) =~= bytes);
}

/// The field elements of all polynomials of a payload, each polynomial's
/// filled up with zeros to `chunk_size` elements.
pub open spec fn payload_blocks(payload: Seq<u8>, chunk_size: nat) -> Seq<Seq<Scalar>> {
    Seq::new(
        spec_payload_elems(payload, chunk_size).len(),
        |j: int| padded(spec_payload_elems(payload, chunk_size)[j], chunk_size),
    )
}

/// The field elements of all polynomials of a payload, filled up and put one
/// after the other, unpack to the payload, followed by zeros.
pub proof fn lemma_payload_bytes(payload: Seq<u8>, chunk_size: nat)
    requires
        chunk_size >= 1,
    ensures
        spec_field_to_bytes(payload_blocks(payload, chunk_size).flatten()).len() >= payload.len(),
        spec_field_to_bytes(payload_blocks(payload, chunk_size).flatten()).take(
            payload.len() as int,
        ) == payload,
    decreases payload.len(),
{
    let step = 31 * chunk_size;
    let blocks = payload_blocks(payload, chunk_size);
    let flat = blocks.flatten();
    if payload.len() == 0 {
        assert(blocks =~= Seq::<Seq<Scalar>>::empty());
        assert(spec_field_to_bytes(flat).take(0) =~= payload);
    } else if payload.len() <= step {
        assert(blocks =~= seq![padded(spec_bytes_to_field(payload), chunk_size)]);
        blocks.lemma_flatten_one_element();
        lemma_block_bytes(payload, chunk_size);
    } else {
        let first_bytes = payload.take(step as int);
        let rest_bytes = payload.skip(step as int);
        let first = padded(spec_bytes_to_field(first_bytes), chunk_size);
        let rest = payload_blocks(rest_bytes, chunk_size);
        assert(blocks =~= seq![first] + rest);
        assert(blocks.first() == first);
        assert(blocks.drop_first() =~= rest);
        assert(flat == first + rest.flatten());
        lemma_field_to_bytes_concat(first, rest.flatten());
        lemma_block_bytes(first_bytes, chunk_size);
        lemma_payload_bytes(rest_bytes, chunk_size);
        let a = spec_field_to_bytes(first);
        let b = spec_field_to_bytes(rest.flatten());
        assert(a =~= first_bytes) by {
            assert(a.take(step as int) =~= a);
        }
        assert((a + b).take(payload.len() as int) =~= first_bytes + b.take(rest_bytes.len() as int));
        assert(first_bytes + rest_bytes =~= payload);
    }
}

/// Among the values gathered from `count` shares, those of the share `s`
/// stand from `s * m` on.
pub proof fn lemma_point_at(
    shares: Seq<Share>,
    m: nat,
    num_polys: nat,
    p: nat,
    count: nat,
    s: int,
    l: int,
)
    requires
        0 <= s < count,
        0 <= l < m,
    ensures
        0 <= s * m + l < spec_points(shares, m, num_polys, p, count).len(),
        spec_points(shares, m, num_polys, p, count)[s * m + l] == share_points(
            shares[s],
            m,
            num_polys,
            p,
        )[l],
    decreases count,
{
    lemma_points_len(shares, m, num_polys, p, count);
    lemma_points_len(shares, m, num_polys, p, (count - 1) as nat);
    assert(0 <= s * m && s * m + m <= count * m && (count - 1) * m + m == count * m)
        by (nonlinear_arith)
        requires
            0 <= s < count,
    ;
    if s < count - 1 {
        lemma_point_at(shares, m, num_polys, p, (count - 1) as nat, s, l);
        assert(s * m + m <= (count - 1) * m) by (nonlinear_arith)
            requires
                0 <= s < count - 1,
        ;
    }
}

/// Every one of `shares` is a share of the dispersal `d`.
pub open spec fn shares_of(shares: Seq<Share>, d: VidDisperse) -> bool {
    forall|s: int| 0 <= s < shares.len() ==> d.shares@.contains(#[trigger] shares[s])
}

/// The points that the decoder gets for the polynomial `p` from shares of a
/// dispersal are points of that polynomial: the first `chunk_size` of them
/// give, at the domain elements they name, the values of the polynomial.
pub proof fn lemma_points_of_the_polynomial(
    advz: AdvzInternal,
    payload: Seq<u8>,
    d: VidDisperse,
    commits: Seq<KzgCommit>,
    proofs: Seq<KzgProof>,
    shares: Seq<Share>,
    p: int,
)
    requires
        advz.wf(),
        advz.spec_poly_commits(payload) == Some(commits),
        advz.is_dispersal_of(d, payload, commits, proofs),
        shares_of(shares, d),
        shares.len() >= advz.k(),
        0 <= p < commits.len(),
    ensures
        ({
            let points = spec_points(shares, advz.m(), commits.len(), p as nat, shares.len());
            let poly = advz.spec_polys(payload)[p];
            &&& points.len() >= advz.chunk_size()
            &&& !crate::reed_solomon::index_out_of_domain(
                points,
                advz.chunk_size(),
                advz.domain_size(),
            )
            &&& forall|t: int|
                0 <= t < advz.chunk_size() ==> cong(
                    (#[trigger] point_ys(points, advz.chunk_size())[t]).value() as int,
                    eval_int(
                        poly,
                        point_xs(points, advz.chunk_size(), advz.domain_size())[t].value() as int,
                    ),
                )
        }),
{
    advz.lemma_wf();
    lemma_modulus_range();
    let m = advz.m();
    let k = advz.k();
    let n = advz.n();
    let chunk = advz.chunk_size();
    let domain = advz.domain_size();
    let cw = advz.code_word_size();
    let width = commits.len();
    let points = spec_points(shares, m, width, p as nat, shares.len());
    let polys = advz.spec_polys(payload);
    lemma_batch_commit_len(advz.powers(), polys, polys.len());
    let poly = polys[p];
    lemma_points_len(shares, m, width, p as nat, shares.len());
    assert(chunk <= shares.len() * m) by (nonlinear_arith)
        requires
            chunk == m * k,
            k <= shares.len(),
    ;
    assert forall|t: int| 0 <= t < chunk implies points[t].index < domain && cong(
        (#[trigger] point_ys(points, chunk)[t]).value() as int,
        eval_int(poly, point_xs(points, chunk, domain)[t].value() as int),
    ) by {
        let s = t / (m as int);
        let l = t % (m as int);
        vstd::arithmetic::div_mod::lemma_fundamental_div_mod(t, m as int);
        assert(0 <= s < k) by (nonlinear_arith)
            requires
                0 <= t < m * k,
                t == m * s + l,
                0 <= l < m,
        ;
        assert(s * m + l == t) by (nonlinear_arith)
            requires
                t == m * s + l,
        ;
        lemma_point_at(shares, m, width, p as nat, shares.len(), s, l);
        let share = shares[s];
        assert(d.shares@.contains(share));
        let i = choose|i: int| 0 <= i < d.shares@.len() && d.shares@[i] == share;
        lemma_shares_hold_the_code_word(advz, payload, d, commits, proofs, i, l, p);
        let pos = i * m + l;
        assert(0 <= pos < cw) by (nonlinear_arith)
            requires
                0 <= i < n,
                0 <= l < m,
                cw == m * n,
                pos == i * m + l,
        ;
        let point = points[t];
        assert(point.index == pos);
        let x = spec_domain_element(domain, pos as nat);
        assert(point_xs(points, chunk, domain)[t] == x);
        let y = point_ys(points, chunk)[t];
        assert(y == spec_multi_evals(poly, domain, cw)[pos]);
        assert(y == horner(poly, x));
        lemma_horner_value(poly, x);
        vstd::arithmetic::div_mod::lemma_mod_twice(
            eval_int(poly, x.value() as int),
            modulus() as int,
        );
    }
    assert forall|t: int| 0 <= t < chunk implies (#[trigger] points[t]).index < domain by {
        let y = point_ys(points, chunk)[t];
    }
}

/// From shares of a dispersal the decoder finds the polynomial that was
/// dispersed, where it finds one.
pub proof fn lemma_decoder_finds_the_polynomial(
    advz: AdvzInternal,
    payload: Seq<u8>,
    d: VidDisperse,
    commits: Seq<KzgCommit>,
    proofs: Seq<KzgProof>,
    shares: Seq<Share>,
    p: int,
)
    requires
        advz.wf(),
        advz.spec_poly_commits(payload) == Some(commits),
        advz.is_dispersal_of(d, payload, commits, proofs),
        polys_are_transforms(payload, advz.chunk_size(), advz.spec_polys(payload)),
        shares_of(shares, d),
        shares.len() >= advz.k(),
        0 <= p < commits.len(),
        spec_decode(
            spec_points(shares, advz.m(), commits.len(), p as nat, shares.len()),
            advz.chunk_size(),
            advz.domain_size(),
        ) is Some,
    ensures
        spec_decode(
            spec_points(shares, advz.m(), commits.len(), p as nat, shares.len()),
            advz.chunk_size(),
            advz.domain_size(),
        ) == Some(advz.spec_polys(payload)[p]),
{
    let chunk = advz.chunk_size();
    let domain = advz.domain_size();
    let points = spec_points(shares, advz.m(), commits.len(), p as nat, shares.len());
    let polys = advz.spec_polys(payload);
    lemma_batch_commit_len(advz.powers(), polys, polys.len());
    let poly = polys[p];
    let xs = point_xs(points, chunk, domain);
    let ys = point_ys(points, chunk);
    lemma_points_of_the_polynomial(advz, payload, d, commits, proofs, shares, p);
    assert(poly.len() == chunk);
    assert(values_of(poly, xs, ys));
    assert(spec_decode(points, chunk, domain) == interpolant(xs, ys, chunk, chunk));
    lemma_interpolant_is_the_polynomial(poly, xs, ys);
}

/// The field elements that the first `upto` polynomials give back from
/// shares of a dispersal are the field elements that the polynomials were
/// made of, each polynomial's filled up with zeros, where they give any.
pub proof fn lemma_recovered_elems(
    advz: AdvzInternal,
    payload: Seq<u8>,
    d: VidDisperse,
    commits: Seq<KzgCommit>,
    proofs: Seq<KzgProof>,
    shares: Seq<Share>,
    upto: nat,
)
    requires
        advz.wf(),
        advz.spec_poly_commits(payload) == Some(commits),
        advz.is_dispersal_of(d, payload, commits, proofs),
        polys_are_transforms(payload, advz.chunk_size(), advz.spec_polys(payload)),
        shares_of(shares, d),
        shares.len() >= advz.k(),
        upto <= commits.len(),
        spec_recover_elems(
            shares,
            advz.m(),
            commits.len(),
            advz.chunk_size(),
            advz.domain_size(),
            upto,
        ) is Some,
    ensures
        spec_recover_elems(
            shares,
            advz.m(),
            commits.len(),
            advz.chunk_size(),
            advz.domain_size(),
            upto,
        ) == Some(payload_blocks(payload, advz.chunk_size()).take(upto as int).flatten_alt()),
    decreases upto,
{
    let chunk = advz.chunk_size();
    let polys = advz.spec_polys(payload);
    lemma_batch_commit_len(advz.powers(), polys, polys.len());
    let blocks = payload_blocks(payload, chunk);
    if upto == 0 {
        assert(blocks.take(0) =~= Seq::<Seq<Scalar>>::empty());
    } else {
        let p = (upto - 1) as nat;
        lemma_recovered_elems(advz, payload, d, commits, proofs, shares, p);
        lemma_decoder_finds_the_polynomial(advz, payload, d, commits, proofs, shares, p as int);
        assert(spec_fft(chunk, polys[p as int]) == blocks[p as int]);
        let upto_blocks = blocks.take(upto as int);
        assert(upto_blocks.drop_last() =~= blocks.take(p as int));
        assert(upto_blocks.last() == blocks[p as int]);
    }
}

/// The recovery never gives a wrong payload: what it makes of shares of a
/// dispersal, as many of them as the recovery threshold or more and in any
/// order, is the payload that was dispersed, where it makes anything of
/// them.
pub proof fn lemma_recovery_gives_the_payload(
    advz: AdvzInternal,
    payload: Seq<u8>,
    d: VidDisperse,
    shares: Seq<Share>,
    bytes: Seq<u8>,
)
    requires
        advz.wf(),
        advz.disperse_result(payload, Ok(d)),
        shares_of(shares, d),
        advz.spec_recover_payload(shares, d.common) == Ok::<Seq<u8>, VidError>(bytes),
    ensures
        bytes == payload,
{
    advz.lemma_wf();
    let chunk = advz.chunk_size();
    let commits = advz.spec_poly_commits(payload)->Some_0;
    let proofs = advz.spec_aggregate_proofs(payload, commits)->Some_0;
    let polys = advz.spec_polys(payload);
    lemma_batch_commit_len(advz.powers(), polys, polys.len());
    let count = commits.len();
    assert(d.common.poly_commits.len() == count);
    lemma_recovered_elems(advz, payload, d, commits, proofs, shares, count);
    let blocks = payload_blocks(payload, chunk);
    assert(blocks.take(count as int) =~= blocks);
    blocks.lemma_flatten_and_flatten_alt_are_equivalent();
    lemma_payload_bytes(payload, chunk);
    let elems = blocks.flatten();
    assert(bytes == truncated(spec_field_to_bytes(elems), payload.len()));
}

/// The first `k` of `shares` are shares of different nodes.
pub open spec fn different_nodes(shares: Seq<Share>, k: nat) -> bool {
    forall|s: int, t: int|
        0 <= s < t < k && t < shares.len() ==> (#[trigger] shares[s]).index != (
        #[trigger] shares[t]).index
}

/// From shares of different nodes of a dispersal the decoder finds a
/// polynomial.
pub proof fn lemma_decoder_succeeds(
    advz: AdvzInternal,
    payload: Seq<u8>,
    d: VidDisperse,
    commits: Seq<KzgCommit>,
    proofs: Seq<KzgProof>,
    shares: Seq<Share>,
    p: int,
)
    requires
        advz.wf(),
        advz.spec_poly_commits(payload) == Some(commits),
        advz.is_dispersal_of(d, payload, commits, proofs),
        shares_of(shares, d),
        shares.len() >= advz.k(),
        different_nodes(shares, advz.k()),
        0 <= p < commits.len(),
    ensures
        spec_decode(
            spec_points(shares, advz.m(), commits.len(), p as nat, shares.len()),
            advz.chunk_size(),
            advz.domain_size(),
        ) is Some,
{
    advz.lemma_wf();
    let m = advz.m();
    let k = advz.k();
    let chunk = advz.chunk_size();
    let domain = advz.domain_size();
    let width = commits.len();
    let points = spec_points(shares, m, width, p as nat, shares.len());
    lemma_points_of_the_polynomial(advz, payload, d, commits, proofs, shares, p);
    let xs = point_xs(points, chunk, domain);
    let ys = point_ys(points, chunk);
    let places = Seq::new(chunk, |t: int| points[t].index as nat);
    assert forall|t: int| 0 <= t < chunk implies places[t] < domain && #[trigger] xs[t]
        == spec_domain_element(domain, places[t]) by {
        assert(points[t].index < domain);
    }
    assert forall|t: int, v: int| 0 <= t < v < chunk implies #[trigger] places[t]
        != #[trigger] places[v] by {
        let (s, l) = (t / (m as int), t % (m as int));
        let (s2, l2) = (v / (m as int), v % (m as int));
        vstd::arithmetic::div_mod::lemma_fundamental_div_mod(t, m as int);
        vstd::arithmetic::div_mod::lemma_fundamental_div_mod(v, m as int);
        assert(0 <= s <= s2 < k) by (nonlinear_arith)
            requires
                0 <= t < v < m * k,
                t == m * s + l,
                v == m * s2 + l2,
                0 <= l < m,
                0 <= l2 < m,
        ;
        assert(s * m + l == t && s2 * m + l2 == v) by (nonlinear_arith)
            requires
                t == m * s + l,
                v == m * s2 + l2,
        ;
        lemma_point_at(shares, m, width, p as nat, shares.len(), s, l);
        lemma_point_at(shares, m, width, p as nat, shares.len(), s2, l2);
        let (a, b) = (shares[s].index as int, shares[s2].index as int);
        assert(0 <= a * m + l <= 0xffff_ffff * 0xffff_ffff + 0xffff_ffff && 0 <= b * m + l2
            <= 0xffff_ffff * 0xffff_ffff + 0xffff_ffff) by (nonlinear_arith)
            requires
                0 <= a <= 0xffff_ffff,
                0 <= b <= 0xffff_ffff,
                0 <= l < m <= 0xffff_ffff,
                0 <= l2 < m,
        ;
        assert(places[t] == a * m + l);
        assert(places[v] == b * m + l2);
        if s == s2 {
            assert(l != l2);
        } else {
            assert(a != b);
            assert(a * m + l != b * m + l2) by (nonlinear_arith)
                requires
                    a != b,
                    0 <= l < m,
                    0 <= l2 < m,
            ;
        }
    }
    assert(distinct_elements(xs, places, domain));
    lemma_interpolant_exists(xs, ys, places, domain, chunk, chunk);
}

/// From shares of different nodes of a dispersal, as many as the recovery
/// threshold or more, every polynomial is found.
pub proof fn lemma_all_polynomials_are_found(
    advz: AdvzInternal,
    payload: Seq<u8>,
    d: VidDisperse,
    commits: Seq<KzgCommit>,
    proofs: Seq<KzgProof>,
    shares: Seq<Share>,
    upto: nat,
)
    requires
        advz.wf(),
        advz.spec_poly_commits(payload) == Some(commits),
        advz.is_dispersal_of(d, payload, commits, proofs),
        shares_of(shares, d),
        shares.len() >= advz.k(),
        different_nodes(shares, advz.k()),
        upto <= commits.len(),
    ensures
        spec_recover_elems(
            shares,
            advz.m(),
            commits.len(),
            advz.chunk_size(),
            advz.domain_size(),
            upto,
        ) is Some,
    decreases upto,
{
    if upto > 0 {
        lemma_all_polynomials_are_found(advz, payload, d, commits, proofs, shares, (upto - 1) as nat);
        lemma_decoder_succeeds(advz, payload, d, commits, proofs, shares, upto - 1);
    }
}

/// Any shares of different nodes of a dispersal, as many as the recovery
/// threshold or more and in any order, give the payload back.
pub proof fn lemma_shares_recover_the_payload(
    advz: AdvzInternal,
    payload: Seq<u8>,
    d: VidDisperse,
    shares: Seq<Share>,
)
    requires
        advz.wf(),
        advz.disperse_result(payload, Ok(d)),
        shares_of(shares, d),
        shares.len() >= advz.k(),
        different_nodes(shares, advz.k()),
    ensures
        advz.spec_recover_payload(shares, d.common) == Ok::<Seq<u8>, VidError>(payload),
{
    advz.lemma_wf();
    let commits = advz.spec_poly_commits(payload)->Some_0;
    let proofs = advz.spec_aggregate_proofs(payload, commits)->Some_0;
    let polys = advz.spec_polys(payload);
    lemma_batch_commit_len(advz.powers(), polys, polys.len());
    let count = commits.len();
    // the arguments are in order
    assert forall|s: int| 0 <= s < shares.len() implies (#[trigger] shares[s]).evals.len()
        == advz.m() * count by {
        assert(d.shares@.contains(shares[s]));
        let i = choose|i: int| 0 <= i < d.shares@.len() && d.shares@[i] == shares[s];
        if count > 0 {
            lemma_shares_hold_the_code_word(advz, payload, d, commits, proofs, i, 0, 0);
        } else {
            crate::laws::lemma_share_without_polynomials(advz, payload, d, commits, proofs, i);
        }
    }
    assert(advz.recover_argument_error(shares, d.common) is None);
    lemma_all_polynomials_are_found(advz, payload, d, commits, proofs, shares, count);
    let bytes = advz.spec_recover_payload(shares, d.common)->Ok_0;
    lemma_recovery_gives_the_payload(advz, payload, d, shares, bytes);
}

/// The code-word positions that the shares name do not depend on the
/// polynomial.
pub proof fn lemma_positions(shares: Seq<Share>, m: nat, num_polys: nat, p: nat, count: nat, t: int)
    requires
        0 <= t < count * m,
        count <= shares.len(),
    ensures
        spec_points(shares, m, num_polys, p, count).len() == count * m,
        spec_points(shares, m, num_polys, 0, count).len() == count * m,
        spec_points(shares, m, num_polys, p, count)[t].index == spec_points(
            shares,
            m,
            num_polys,
            0,
            count,
        )[t].index,
    decreases count,
{
    lemma_points_len(shares, m, num_polys, p, count);
    lemma_points_len(shares, m, num_polys, 0, count);
    lemma_points_len(shares, m, num_polys, p, (count - 1) as nat);
    lemma_points_len(shares, m, num_polys, 0, (count - 1) as nat);
    assert((count - 1) * m + m == count * m) by (nonlinear_arith);
    if t < (count - 1) * m {
        lemma_positions(shares, m, num_polys, p, (count - 1) as nat, t);
    }
}

/// When the recovery fails on arguments that are in order: where there is a
/// polynomial to recover and, among the code-word positions that the first
/// `recovery_threshold` shares name, one lies outside the domain or two are
/// the same; and then only.
pub proof fn lemma_recovery_fails_iff(advz: AdvzInternal, shares: Seq<Share>, common: Common)
    requires
        advz.wf(),
        advz.recover_argument_error(shares, common) is None,
    ensures
        ({
            let positions = spec_points(
                shares,
                advz.m(),
                common.poly_commits.len() as nat,
                0,
                shares.len(),
            );
            advz.spec_recover_payload(shares, common) is Err <==> common.poly_commits.len() >= 1 && (
            index_out_of_domain(positions, advz.chunk_size(), advz.domain_size()) || repeated_index(
                positions,
                advz.chunk_size(),
            ))
        }),
{
    advz.lemma_wf();
    let m = advz.m();
    let chunk = advz.chunk_size();
    let domain = advz.domain_size();
    let count = common.poly_commits.len() as nat;
    let positions = spec_points(shares, m, count, 0, shares.len());
    let bad = index_out_of_domain(positions, chunk, domain) || repeated_index(positions, chunk);
    lemma_points_len(shares, m, count, 0, shares.len());
    assert(chunk <= shares.len() * m) by (nonlinear_arith)
        requires
            chunk == m * advz.k(),
            advz.k() <= shares.len(),
    ;
    if count >= 1 {
        lemma_decode_fails_iff(positions, chunk, domain);
        if bad {
            assert(spec_recover_elems(shares, m, count, chunk, domain, 1) is None);
            lemma_recover_fails_on(shares, m, count, chunk, domain, 1, count);
        } else {
            lemma_recover_elems_exist(advz, shares, count, count);
        }
    }
}

/// Where the positions that the shares name are in the domain and all
/// different, every polynomial is found.
proof fn lemma_recover_elems_exist(advz: AdvzInternal, shares: Seq<Share>, num_polys: nat, upto: nat)
    requires
        advz.wf(),
        shares.len() >= advz.k(),
        upto <= num_polys,
        !index_out_of_domain(
            spec_points(shares, advz.m(), num_polys, 0, shares.len()),
            advz.chunk_size(),
            advz.domain_size(),
        ),
        !repeated_index(
            spec_points(shares, advz.m(), num_polys, 0, shares.len()),
            advz.chunk_size(),
        ),
    ensures
        spec_recover_elems(
            shares,
            advz.m(),
            num_polys,
            advz.chunk_size(),
            advz.domain_size(),
            upto,
        ) is Some,
    decreases upto,
{
    advz.lemma_wf();
    if upto > 0 {
        let m = advz.m();
        let chunk = advz.chunk_size();
        let domain = advz.domain_size();
        let p = (upto - 1) as nat;
        lemma_recover_elems_exist(advz, shares, num_polys, p);
        let positions = spec_points(shares, m, num_polys, 0, shares.len());
        let points = spec_points(shares, m, num_polys, p, shares.len());
        lemma_points_len(shares, m, num_polys, p, shares.len());
        lemma_points_len(shares, m, num_polys, 0, shares.len());
        assert(chunk <= shares.len() * m) by (nonlinear_arith)
            requires
                chunk == m * advz.k(),
                advz.k() <= shares.len(),
        ;
        assert forall|t: int| 0 <= t < chunk implies (#[trigger] points[t]).index
            == positions[t].index by {
            lemma_positions(shares, m, num_polys, p, shares.len(), t);
        }
        lemma_decode_fails_iff(points, chunk, domain);
        if index_out_of_domain(points, chunk, domain) {
            let i = choose|i: int|
                0 <= i < chunk && i < points.len() && points[i].index >= domain;
            assert(positions[i].index >= domain);
        }
        if repeated_index(points, chunk) {
            let (i, j) = choose|i: int, j: int|
                0 <= i < j < chunk && j < points.len() && (#[trigger] points[i]).index == (
                #[trigger] points[j]).index;
            assert(positions[i].index == positions[j].index);
        }
    }
}

/// Where one of the first `recovery_threshold` shares names a code-word
/// position outside the domain and there is a polynomial to recover, the
/// payload is not recovered. So it is when every index is shifted by the
/// number of nodes and a shifted position reaches the size of the domain.
pub proof fn lemma_index_out_of_domain_fails_recovery(
    advz: AdvzInternal,
    shares: Seq<Share>,
    common: Common,
    s: int,
    l: int,
)
    requires
        advz.wf(),
        advz.recover_argument_error(shares, common) is None,
        common.poly_commits.len() >= 1,
        0 <= s < advz.k(),
        0 <= l < advz.m(),
        shares[s].index * advz.m() + l >= advz.domain_size(),
    ensures
        advz.spec_recover_payload(shares, common) == Err::<Seq<u8>, VidError>(
            VidError::Internal(crate::error::InternalError::ErasureDecode),
        ),
{
    advz.lemma_wf();
    let m = advz.m();
    let k = advz.k();
    let count = common.poly_commits.len() as nat;
    let positions = spec_points(shares, m, count, 0, shares.len());
    lemma_point_at(shares, m, count, 0, shares.len(), s, l);
    let t = s * m + l;
    assert(0 <= t < advz.chunk_size()) by (nonlinear_arith)
        requires
            0 <= s < k,
            0 <= l < m,
            t == s * m + l,
            advz.chunk_size() == m * k,
    ;
    let index = shares[s].index as int;
    assert(0 <= index * m + l <= 0xffff_ffff * 0xffff_ffff + 0xffff_ffff) by (nonlinear_arith)
        requires
            0 <= index <= 0xffff_ffff,
            0 <= l < m <= 0xffff_ffff,
    ;
    assert(positions[t].index >= advz.domain_size());
    assert(index_out_of_domain(positions, advz.chunk_size(), advz.domain_size()));
    lemma_recovery_fails_iff(advz, shares, common);
}

} // verus!
