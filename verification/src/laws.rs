//! What holds of the scheme's operations taken together.

use crate::advz::{spec_derive_commit, AdvzInternal, Commit, Common, Share, Verdict, VidDisperse};
use crate::dispersal::{concat_rows, polys_are_transforms, spec_aggregate_poly, spec_leaves};
use crate::domain::spec_domain_element;
use crate::field::{horner, modulus};
use crate::polynomial::{
    combine, eval_int, lemma_aggregate_value, lemma_horner_value, lemma_modulus_range, values_at,
};
use crate::uniqueness::{
    cong, lemma_cong_plus, lemma_cong_times, lemma_equal_by_cong, lemma_horner_canonical,
};
use crate::error::{ArgumentError, VidError};
use crate::field::Scalar;
use crate::merkle_tree::{
    height, lemma_climb, lemma_halved_to_root, lemma_height_of_multiple, lemma_span_of_height,
    lemma_window, merkle_root, node, span,
};
use crate::pcs::{lemma_batch_commit_len, spec_multi_evals, KzgCommit, KzgProof};
use crate::recovery::{share_points, spec_points, spec_recover_elems};
use crate::reed_solomon::{index_out_of_domain, point_xs, point_ys, spec_decode, Point};
use crate::verification::{merkle_accepts, share_leaves, sub_batch};
use vstd::arithmetic::div_mod::{lemma_div_multiples_vanish, lemma_fundamental_div_mod_converse};
use vstd::prelude::*;

verus! {

/// Two instances for the same parameters and the same reference string are
/// alike: they have the same keys and domains, and so commit, check and
/// recover alike. This holds of the instance that `new` gives and the one
/// that `with_multiplicity` gives for the multiplicity one.
pub proof fn lemma_instances_agree(
    a: AdvzInternal,
    b: AdvzInternal,
    num_storage_nodes: u32,
    recovery_threshold: u32,
    multiplicity: u32,
    srs: crate::pcs::KzgSrs,
)
    requires
        a.is_instance_for(num_storage_nodes, recovery_threshold, multiplicity, srs),
        b.is_instance_for(num_storage_nodes, recovery_threshold, multiplicity, srs),
    ensures
        a.n() == b.n(),
        a.k() == b.k(),
        a.m() == b.m(),
        a.powers() == b.powers(),
        a.verifier_key() == b.verifier_key(),
        a.chunk_size() == b.chunk_size(),
        a.domain_size() == b.domain_size(),
        forall|payload: Seq<u8>| #[trigger] a.spec_commit_only(payload) == b.spec_commit_only(payload),
        forall|payload: Seq<u8>, r: crate::advz::VidResult<VidDisperse>| #[trigger]
            a.disperse_result(payload, r) == b.disperse_result(payload, r),
        forall|share: Share, common: Common, commit: Commit| #[trigger]
            a.spec_verify_share(share, common, commit) == b.spec_verify_share(share, common, commit),
        forall|shares: Seq<Share>, common: Common| #[trigger]
            a.spec_recover_payload(shares, common) == b.spec_recover_payload(shares, common),
{
}

/// The commitment of a dispersal is the one that `commit_only` gives for the
/// same payload.
pub proof fn lemma_commit_determinism(advz: AdvzInternal, payload: Seq<u8>, d: VidDisperse)
    requires
        advz.disperse_result(payload, Ok(d)),
    ensures
        advz.spec_commit_only(payload) == Ok::<Commit, VidError>(d.commit),
{
}

/// The common data of a dispersal names the payload's length, the instance's
/// number of storage nodes and its multiplicity, and there is one share for
/// each storage node.
pub proof fn lemma_metadata_fidelity(advz: AdvzInternal, payload: Seq<u8>, d: VidDisperse)
    requires
        advz.disperse_result(payload, Ok(d)),
    ensures
        d.common.payload_byte_len == payload.len(),
        d.common.num_storage_nodes == advz.n(),
        d.common.multiplicity == advz.m(),
        d.shares.len() == advz.n(),
{
}

/// The commitment of a dispersal belongs to its common data.
pub proof fn lemma_dispersal_is_consistent(advz: AdvzInternal, payload: Seq<u8>, d: VidDisperse)
    requires
        advz.disperse_result(payload, Ok(d)),
    ensures
        d.commit == spec_derive_commit(
            d.common.poly_commits@,
            d.common.payload_byte_len,
            d.common.num_storage_nodes,
        ),
{
}

/// A share that lacks one of the values that the common data asks for gives
/// an argument error.
pub proof fn lemma_dropped_eval_is_argument_error(
    advz: AdvzInternal,
    share: Share,
    common: Common,
    commit: Commit,
)
    requires
        advz.wf(),
        common.multiplicity == advz.m(),
        share.evals.len() + 1 == advz.m() * common.poly_commits.len(),
    ensures
        advz.spec_verify_share(share, common, commit) == Err::<Verdict, VidError>(
            VidError::Argument(ArgumentError::EvalsCommitsMismatch),
        ),
{
    advz.lemma_wf();
    let m = advz.m() as int;
    let polys = common.poly_commits.len() as int;
    let len = share.evals.len() as int;
    assert(polys >= 1) by (nonlinear_arith)
        requires
            len + 1 == m * polys,
            len >= 0,
            m >= 1,
    ;
    assert(len == (polys - 1) * m + (m - 1)) by (nonlinear_arith)
        requires
            len + 1 == m * polys,
    ;
    lemma_fundamental_div_mod_converse(len, m, polys - 1, m - 1);
}

/// Common data that lacks one of the commitments that the share has values
/// for gives an argument error.
pub proof fn lemma_dropped_commit_is_argument_error(
    advz: AdvzInternal,
    share: Share,
    common: Common,
    commit: Commit,
)
    requires
        advz.wf(),
        common.multiplicity == advz.m(),
        share.evals.len() == advz.m() * (common.poly_commits.len() + 1),
    ensures
        advz.spec_verify_share(share, common, commit) == Err::<Verdict, VidError>(
            VidError::Argument(ArgumentError::EvalsCommitsMismatch),
        ),
{
    advz.lemma_wf();
    let m = advz.m() as int;
    let polys = common.poly_commits.len() as int;
    lemma_div_multiples_vanish(polys + 1, m);
}

/// A share whose index is not that of a storage node is rejected, where the
/// arguments are in order.
pub proof fn lemma_index_out_of_range_is_rejected(
    advz: AdvzInternal,
    share: Share,
    common: Common,
    commit: Commit,
)
    requires
        advz.verify_share_argument_error(share, common, commit) is None,
        share.index >= advz.n(),
    ensures
        advz.spec_verify_share(share, common, commit) == Ok::<Verdict, VidError>(Err(())),
{
}

/// Fewer shares than the recovery threshold give an argument error.
pub proof fn lemma_too_few_shares_is_argument_error(
    advz: AdvzInternal,
    shares: Seq<Share>,
    common: Common,
)
    requires
        shares.len() < advz.k(),
    ensures
        advz.spec_recover_payload(shares, common) == Err::<Seq<u8>, VidError>(
            VidError::Argument(ArgumentError::NotEnoughShares),
        ),
{
}

/// Shares that do not all hold the same number of values give an argument
/// error.
pub proof fn lemma_unequal_evals_is_argument_error(
    advz: AdvzInternal,
    shares: Seq<Share>,
    common: Common,
    i: int,
)
    requires
        0 <= i < shares.len(),
        shares[i].evals.len() != shares[0].evals.len(),
    ensures
        advz.spec_recover_payload(shares, common) matches Err(VidError::Argument(_)),
{
}

/// In a run of rows of one width, written one after the other, the row `l`
/// stands from `l * width` on.
pub proof fn lemma_concat_rows(rows: Seq<Seq<Scalar>>, from: int, count: nat, width: nat, l: int)
    requires
        0 <= from,
        from + count <= rows.len(),
        forall|r: int| from <= r < from + count ==> (#[trigger] rows[r]).len() == width,
        0 <= l < count,
    ensures
        concat_rows(rows, from, count).len() == count * width,
        sub_batch(concat_rows(rows, from, count), width, l) == rows[from + l],
    decreases count,
{
    let all = concat_rows(rows, from, count);
    let before = concat_rows(rows, from, (count - 1) as nat);
    let last = rows[from + count - 1];
    assert(all == before + last);
    assert((count - 1) * width + width == count * width && 0 <= l * width && l * width + width
        <= count * width) by (nonlinear_arith)
        requires
            0 <= l < count,
            width >= 0,
    ;
    if count == 1 {
        assert(before =~= Seq::<Scalar>::empty());
        assert(sub_batch(all, width, l) =~= last);
    } else {
        lemma_concat_rows(rows, from, (count - 1) as nat, width, if l < count - 1 {
            l
        } else {
            0
        });
        if l < count - 1 {
            assert(l * width + width <= (count - 1) * width) by (nonlinear_arith)
                requires
                    0 <= l < count - 1,
                    width >= 0,
            ;
            assert(sub_batch(all, width, l) =~= sub_batch(before, width, l));
        } else {
            assert(sub_batch(all, width, l) =~= last);
        }
    }
}

/// What the recovery reads in the shares of a dispersal is the code word:
/// the value that the share of the node `i` holds of the polynomial `p` at
/// the node's `l`-th position is the value of that polynomial at the
/// code-word position `i * m + l`, and it is handed to the decoder with that
/// position.
pub proof fn lemma_shares_hold_the_code_word(
    advz: AdvzInternal,
    payload: Seq<u8>,
    d: VidDisperse,
    commits: Seq<KzgCommit>,
    proofs: Seq<KzgProof>,
    i: int,
    l: int,
    p: int,
)
    requires
        advz.wf(),
        advz.spec_poly_commits(payload) == Some(commits),
        advz.is_dispersal_of(d, payload, commits, proofs),
        0 <= i < advz.n(),
        0 <= l < advz.m(),
        0 <= p < commits.len(),
    ensures
        d.shares[i].evals.len() == advz.m() * commits.len(),
        share_points(d.shares[i], advz.m(), commits.len(), p as nat)[l] == (Point {
            index: (i * advz.m() + l) as u64,
            eval: spec_multi_evals(
                advz.spec_polys(payload)[p],
                advz.domain_size(),
                advz.code_word_size(),
            )[i * advz.m() + l],
        }),
{
    advz.lemma_wf();
    let m = advz.m();
    let n = advz.n();
    let polys = advz.spec_polys(payload);
    lemma_batch_commit_len(advz.powers(), polys, polys.len());
    let width = commits.len();
    let rows = advz.spec_evals(payload);
    assert(0 <= i * m && i * m + m <= m * n && i * m + l < m * n) by (nonlinear_arith)
        requires
            0 <= i < n,
            0 <= l < m,
    ;
    lemma_concat_rows(rows, i * m, m, width, l);
    let evals = d.shares[i].evals@;
    assert(evals == concat_rows(rows, i * m, m));
    let batch = sub_batch(evals, width, l);
    assert(batch == rows[i * m + l]);
    assert(0 <= l * width && l * width + width <= m * width) by (nonlinear_arith)
        requires
            0 <= l < m,
            width >= 0,
    ;
    assert(batch[p] == evals[l * width + p]);
}

/// The shares of a dispersal of a payload without polynomials hold no values.
pub proof fn lemma_share_without_polynomials(
    advz: AdvzInternal,
    payload: Seq<u8>,
    d: VidDisperse,
    commits: Seq<KzgCommit>,
    proofs: Seq<KzgProof>,
    i: int,
)
    requires
        advz.wf(),
        advz.spec_poly_commits(payload) == Some(commits),
        advz.is_dispersal_of(d, payload, commits, proofs),
        0 <= i < advz.n(),
        commits.len() == 0,
    ensures
        d.shares[i].evals.len() == 0,
        advz.m() * commits.len() == 0,
{
    advz.lemma_wf();
    let m = advz.m();
    let n = advz.n();
    let polys = advz.spec_polys(payload);
    lemma_batch_commit_len(advz.powers(), polys, polys.len());
    let rows = advz.spec_evals(payload);
    assert(0 <= i * m && i * m + m <= m * n) by (nonlinear_arith)
        requires
            0 <= i < n,
            m >= 1,
    ;
    lemma_concat_rows(rows, i * m, m, 0, 0);
    assert(m * 0 == 0) by (nonlinear_arith);
}

/// The share of a dispersal passes every check that comes before the
/// openings: the arguments are in order, the index is that of a storage node,
/// the share has its shape, and its values lead, by its Merkle proof, to the
/// root of the evaluations' tree.
pub proof fn lemma_honest_share_reaches_the_openings(
    advz: AdvzInternal,
    payload: Seq<u8>,
    d: VidDisperse,
    commits: Seq<KzgCommit>,
    proofs: Seq<KzgProof>,
    i: int,
)
    requires
        advz.wf(),
        advz.spec_poly_commits(payload) == Some(commits),
        advz.spec_aggregate_proofs(payload, commits) == Some(proofs),
        advz.is_dispersal_of(d, payload, commits, proofs),
        0 <= i < advz.n(),
    ensures
        advz.verify_share_argument_error(d.shares[i], d.common, d.commit) is None,
        d.shares[i].index < advz.n(),
        advz.well_shaped(d.shares[i], d.common),
        merkle_accepts(
            d.shares[i],
            advz.m(),
            d.common.poly_commits.len() as nat,
            advz.code_word_size(),
            d.common.all_evals_digest,
        ),
{
    advz.lemma_wf();
    let m = advz.m();
    let n = advz.n();
    let share = d.shares[i];
    let polys = advz.spec_polys(payload);
    lemma_batch_commit_len(advz.powers(), polys, polys.len());
    crate::pcs::lemma_multi_open_len(
        advz.powers(),
        crate::dispersal::spec_aggregate_poly(polys, advz.spec_alpha(payload, commits), advz.chunk_size()),
        advz.domain_size(),
        advz.code_word_size(),
    );
    let width = commits.len();
    let rows = advz.spec_evals(payload);
    let leaves = spec_leaves(rows);
    assert(0 <= i * m && i * m + m <= m * n) by (nonlinear_arith)
        requires
            0 <= i < n,
            m >= 1,
    ;
    lemma_concat_rows(rows, i * m, m, width, 0);
    assert(share.evals.len() == m * width);
    lemma_div_multiples_vanish(width as int, m as int);
    assert(m * width == width * m) by (nonlinear_arith);
    // the share's own leaves are a run of the tree's leaves
    let own = share_leaves(share.evals@, m, width);
    let level = height(m);
    lemma_span_of_height(m);
    assert(own =~= leaves.subrange(i * m, i * m + m)) by {
        assert forall|l: int| 0 <= l < m implies own[l] == leaves[i * m + l] by {
            lemma_concat_rows(rows, i * m, m, width, l);
        }
    }
    assert((0 + 1) * span(level) == m) by (nonlinear_arith)
        requires
            span(level) == m,
    ;
    lemma_window(leaves, own, level, i as nat, 0);
    assert(merkle_root(own) == node(leaves, level, i as nat));
    // from there the proof leads to the root
    assert(leaves.len() == m * n);
    assert(m * n == n * span(level)) by (nonlinear_arith)
        requires
            span(level) == m,
    ;
    lemma_height_of_multiple(n, level);
    let top = height(leaves.len());
    lemma_climb(leaves, level, i as nat, top);
    lemma_halved_to_root(i as nat, n, (top - level) as nat);
}

/// The values gathered from `count` shares are `count * m` many.
pub proof fn lemma_points_len(shares: Seq<Share>, m: nat, num_polys: nat, p: nat, count: nat)
    ensures
        spec_points(shares, m, num_polys, p, count).len() == count * m,
    decreases count,
{
    if count > 0 {
        lemma_points_len(shares, m, num_polys, p, (count - 1) as nat);
        assert((count - 1) * m + m == count * m) by (nonlinear_arith);
    } else {
        assert(0 * m == 0) by (nonlinear_arith);
    }
}

/// The values gathered from more shares begin with those gathered from
/// fewer, and those gathered from the first shares are the same whatever
/// shares follow.
pub proof fn lemma_points_prefix(
    shares: Seq<Share>,
    fewer: Seq<Share>,
    m: nat,
    num_polys: nat,
    p: nat,
    k: nat,
    count: nat,
    t: int,
)
    requires
        k <= count <= shares.len(),
        fewer == shares.take(k as int),
        0 <= t < k * m,
    ensures
        t < spec_points(shares, m, num_polys, p, count).len(),
        t < spec_points(fewer, m, num_polys, p, k).len(),
        spec_points(shares, m, num_polys, p, count)[t] == spec_points(fewer, m, num_polys, p, k)[t],
    decreases count,
{
    lemma_points_len(shares, m, num_polys, p, count);
    lemma_points_len(fewer, m, num_polys, p, k);
    assert(k * m <= count * m) by (nonlinear_arith)
        requires
            k <= count,
    ;
    if count > k {
        lemma_points_prefix(shares, fewer, m, num_polys, p, k, (count - 1) as nat, t);
        lemma_points_len(shares, m, num_polys, p, (count - 1) as nat);
        assert(k * m <= (count - 1) * m) by (nonlinear_arith)
            requires
                k <= count - 1,
        ;
    } else if k > 0 {
        // count == k: the same shares are read on both sides
        let before = (k - 1) as nat;
        lemma_points_len(shares, m, num_polys, p, before);
        lemma_points_len(fewer, m, num_polys, p, before);
        assert(fewer[k - 1] == shares[k - 1]);
        if t < before * m {
            lemma_points_prefix(shares, shares.take(before as int), m, num_polys, p, before, before, t);
            lemma_points_prefix(fewer, fewer.take(before as int), m, num_polys, p, before, before, t);
            assert(fewer.take(before as int) =~= shares.take(before as int));
        }
    }
}

/// The decoder reads the first `data_size` points only.
pub proof fn lemma_decode_reads_prefix(a: Seq<Point>, b: Seq<Point>, data_size: nat, domain_size: nat)
    requires
        a.len() >= data_size,
        b.len() >= data_size,
        forall|i: int| 0 <= i < data_size ==> a[i] == b[i],
    ensures
        spec_decode(a, data_size, domain_size) == spec_decode(b, data_size, domain_size),
{
    assert(point_xs(a, data_size, domain_size) =~= point_xs(b, data_size, domain_size));
    assert(point_ys(a, data_size) =~= point_ys(b, data_size));
    if index_out_of_domain(a, data_size, domain_size) {
        let i = choose|i: int| 0 <= i < data_size && i < a.len() && a[i].index >= domain_size;
        assert(b[i].index >= domain_size);
    }
    if index_out_of_domain(b, data_size, domain_size) {
        let i = choose|i: int| 0 <= i < data_size && i < b.len() && b[i].index >= domain_size;
        assert(a[i].index >= domain_size);
    }
}

/// More shares than the recovery threshold change nothing: the payload
/// recovered from shares whose arguments are in order is the one recovered
/// from the first `recovery_threshold` of them.
pub proof fn lemma_recovery_reads_the_first_shares(
    advz: AdvzInternal,
    shares: Seq<Share>,
    common: Common,
)
    requires
        advz.wf(),
        advz.recover_argument_error(shares, common) is None,
    ensures
        advz.recover_argument_error(shares.take(advz.k() as int), common) is None,
        advz.spec_recover_payload(shares.take(advz.k() as int), common)
            == advz.spec_recover_payload(shares, common),
{
    advz.lemma_wf();
    let k = advz.k();
    let m = advz.m();
    let fewer = shares.take(k as int);
    let polys = common.poly_commits.len() as nat;
    assert(advz.recover_argument_error(fewer, common) is None) by {
        assert(fewer[0] == shares[0]);
        assert forall|i: int| 0 <= i < fewer.len() implies (#[trigger] fewer[i]).evals.len()
            == fewer[0].evals.len() by {
            assert(fewer[i] == shares[i]);
            assert(shares[i].evals.len() == shares[0].evals.len());
        }
    }
    lemma_recover_elems_read_the_first_shares(advz, shares, polys, polys);
}

/// The elements that the polynomials give back are those that the first
/// `recovery_threshold` shares give.
proof fn lemma_recover_elems_read_the_first_shares(
    advz: AdvzInternal,
    shares: Seq<Share>,
    num_polys: nat,
    upto: nat,
)
    requires
        advz.wf(),
        shares.len() >= advz.k(),
    ensures
        spec_recover_elems(
            shares.take(advz.k() as int),
            advz.m(),
            num_polys,
            advz.chunk_size(),
            advz.domain_size(),
            upto,
        ) == spec_recover_elems(
            shares,
            advz.m(),
            num_polys,
            advz.chunk_size(),
            advz.domain_size(),
            upto,
        ),
    decreases upto,
{
    advz.lemma_wf();
    if upto > 0 {
        let k = advz.k();
        let m = advz.m();
        let chunk = advz.chunk_size();
        let fewer = shares.take(k as int);
        let p = (upto - 1) as nat;
        lemma_recover_elems_read_the_first_shares(advz, shares, num_polys, p);
        let a = spec_points(shares, m, num_polys, p, shares.len());
        let b = spec_points(fewer, m, num_polys, p, fewer.len());
        assert(k * m == m * k) by (nonlinear_arith);
        lemma_points_len(shares, m, num_polys, p, shares.len());
        lemma_points_len(fewer, m, num_polys, p, k);
        assert(k * m <= shares.len() * m) by (nonlinear_arith)
            requires
                k <= shares.len(),
        ;
        assert forall|t: int| 0 <= t < chunk implies a[t] == b[t] by {
            lemma_points_prefix(shares, fewer, m, num_polys, p, k, shares.len(), t);
        }
        lemma_decode_reads_prefix(a, b, chunk, advz.domain_size());
    }
}

/// The number of a polynomial whose coefficients stand for given numbers is
/// the combination of these numbers, up to reduction.
pub proof fn lemma_values_combine(coeffs: Seq<Scalar>, values: Seq<int>, alpha: int)
    requires
        coeffs.len() == values.len(),
        forall|j: int| 0 <= j < coeffs.len() ==> cong((#[trigger] coeffs[j]).value() as int, values[j]),
    ensures
        cong(eval_int(coeffs, alpha), combine(values, alpha)),
    decreases coeffs.len(),
{
    if coeffs.len() > 0 {
        lemma_values_combine(coeffs.drop_first(), values.drop_first(), alpha);
        let e = eval_int(coeffs.drop_first(), alpha);
        let c = combine(values.drop_first(), alpha);
        lemma_cong_times(e, c, alpha);
        lemma_cong_plus(coeffs[0].value() as int, values[0], alpha * e, alpha * c);
    }
}

/// The aggregate of a share's values is the value of the aggregate
/// polynomial: for the share of the node `i` of a dispersal, the values of
/// all polynomials at the node's `l`-th position, aggregated with `alpha`,
/// give the value of the aggregate polynomial at the domain element of that
/// position.
pub proof fn lemma_aggregate_of_values(
    advz: AdvzInternal,
    payload: Seq<u8>,
    d: VidDisperse,
    commits: Seq<KzgCommit>,
    proofs: Seq<KzgProof>,
    alpha: Scalar,
    i: int,
    l: int,
)
    requires
        advz.wf(),
        advz.spec_poly_commits(payload) == Some(commits),
        advz.is_dispersal_of(d, payload, commits, proofs),
        polys_are_transforms(payload, advz.chunk_size(), advz.spec_polys(payload)),
        0 <= i < advz.n(),
        0 <= l < advz.m(),
    ensures
        horner(sub_batch(d.shares[i].evals@, commits.len(), l), alpha) == horner(
            spec_aggregate_poly(advz.spec_polys(payload), alpha, advz.chunk_size()),
            spec_domain_element(advz.domain_size(), (i * advz.m() + l) as nat),
        ),
{
    advz.lemma_wf();
    lemma_modulus_range();
    let r = modulus() as int;
    let m = advz.m();
    let n = advz.n();
    let chunk = advz.chunk_size();
    let polys = advz.spec_polys(payload);
    lemma_batch_commit_len(advz.powers(), polys, polys.len());
    let width = commits.len();
    let rows = advz.spec_evals(payload);
    assert(0 <= i * m && i * m + m <= m * n && i * m + l < m * n) by (nonlinear_arith)
        requires
            0 <= i < n,
            0 <= l < m,
    ;
    let pos = i * m + l;
    lemma_concat_rows(rows, i * m, m, width, l);
    let batch = sub_batch(d.shares[i].evals@, width, l);
    assert(batch == rows[pos]);
    let x = spec_domain_element(advz.domain_size(), pos as nat);
    let at = x.value() as int;
    let values = values_at(polys, at);
    assert forall|j: int| 0 <= j < batch.len() implies cong(
        (#[trigger] batch[j]).value() as int,
        values[j],
    ) by {
        assert(batch[j] == horner(polys[j], x));
        lemma_horner_value(polys[j], x);
        vstd::arithmetic::div_mod::lemma_mod_twice(eval_int(polys[j], at), r);
    }
    let va = alpha.value() as int;
    lemma_values_combine(batch, values, va);
    lemma_horner_value(batch, alpha);
    vstd::arithmetic::div_mod::lemma_mod_twice(eval_int(batch, va), r);
    let aggregate = spec_aggregate_poly(polys, alpha, chunk);
    lemma_aggregate_value(polys, alpha, chunk, at);
    lemma_horner_value(aggregate, x);
    vstd::arithmetic::div_mod::lemma_mod_twice(eval_int(aggregate, at), r);
    lemma_horner_canonical(batch, alpha);
    lemma_horner_canonical(aggregate, x);
    lemma_equal_by_cong(horner(batch, alpha), horner(aggregate, x), combine(values, va));
}

} // verus!
