//! Dispersal: from a payload to polynomials, their values on the code word,
//! the commitments, and a share for every storage node.

use crate::advz::{
    spec_derive_commit, spec_pseudorandom_scalar, AdvzInternal, Commit, Common, Share, VidDisperse,
    VidResult,
};
use crate::bytes_to_field::{bytes_to_field, spec_bytes_to_field};
use crate::curve::G1Point;
use crate::domain::{is_inverse_transform, spec_ifft, Radix2Domain};
use crate::error::{InternalError, VidError};
use crate::field::{fr_add, fr_mul, horner, modulus, scalar_of_nat, Scalar};
use crate::polynomial::{combine, eval_int, lemma_aggregate_value, values_at};
use crate::hash::HashNode;
use crate::merkle_tree::{
    hash_leaf, height, leaf_hash, log2_exact, merkle_root, path_from, MerkleTree,
};
use crate::pcs::{
    batch_commit, multi_open_rou_evals, multi_open_rou_proofs, polys_view, spec_batch_commit,
    spec_multi_evals, spec_multi_open, KzgCommit, KzgProof,
};
use crate::reed_solomon::coeff;
use vstd::prelude::*;
use vstd::slice::slice_subrange;

verus! {

/// The polynomial that a run of field elements stands for: the elements are
/// its values on the domain of size `chunk_size`, and the result holds its
/// `chunk_size` coefficients.
pub open spec fn spec_polynomial(chunk_size: nat, elems: Seq<Scalar>) -> Seq<Scalar> {
    spec_ifft(chunk_size, elems)
}

/// The field elements that each polynomial of a payload is made of: each
/// polynomial takes the next `31 * chunk_size` bytes, the last one what is
/// left, and the bytes are packed into field elements.
pub open spec fn spec_payload_elems(payload: Seq<u8>, chunk_size: nat) -> Seq<Seq<Scalar>>
    decreases payload.len(),
{
    let step = 31 * chunk_size;
    if payload.len() == 0 || step == 0 {
        Seq::empty()
    } else if payload.len() <= step {
        seq![spec_bytes_to_field(payload)]
    } else {
        seq![spec_bytes_to_field(payload.take(step as int))] + spec_payload_elems(
            payload.skip(step as int),
            chunk_size,
        )
    }
}

/// The polynomials that a payload is cut into.
pub open spec fn spec_bytes_to_polys(payload: Seq<u8>, chunk_size: nat) -> Seq<Seq<Scalar>> {
    Seq::new(
        spec_payload_elems(payload, chunk_size).len(),
        |j: int| spec_polynomial(chunk_size, spec_payload_elems(payload, chunk_size)[j]),
    )
}

/// Each of the polynomials `polys` takes the field elements that it was made
/// of as its values on the domain of size `chunk_size`.
pub open spec fn polys_are_transforms(payload: Seq<u8>, chunk_size: nat, polys: Seq<Seq<Scalar>>) -> bool {
    &&& polys.len() == spec_payload_elems(payload, chunk_size).len()
    &&& forall|j: int|
        0 <= j < polys.len() ==> is_inverse_transform(
            chunk_size,
            spec_payload_elems(payload, chunk_size)[j],
            #[trigger] polys[j],
        )
}

/// The values that each code-word position holds: position `i` holds, for
/// each polynomial in turn, its value at the `i`-th element of the domain.
pub open spec fn spec_node_evals(polys: Seq<Seq<Scalar>>, domain_size: nat, code_word_size: nat) -> Seq<
    Seq<Scalar>,
> {
    Seq::new(
        code_word_size,
        |i: int|
            Seq::new(
                polys.len(),
                |j: int| spec_multi_evals(polys[j], domain_size, code_word_size)[i],
            ),
    )
}

/// The coefficients of `X^c` of the polynomials `polys`, in their order.
pub open spec fn column(polys: Seq<Seq<Scalar>>, c: int) -> Seq<Scalar> {
    Seq::new(polys.len(), |j: int| coeff(polys[j], c))
}

/// The aggregate of `polys`: the sum of the polynomials, the `j`-th
/// multiplied by the `j`-th power of `alpha`. Its coefficient of `X^c` is the
/// value at `alpha` of the polynomial that the coefficients of `X^c` make.
pub open spec fn spec_aggregate_poly(polys: Seq<Seq<Scalar>>, alpha: Scalar, chunk_size: nat) -> Seq<
    Scalar,
> {
    Seq::new(chunk_size, |c: int| horner(column(polys, c), alpha))
}

/// The rows `from`, `from + 1`, .. of `rows`, `count` of them, one after the
/// other.
pub open spec fn concat_rows(rows: Seq<Seq<Scalar>>, from: int, count: nat) -> Seq<Scalar>
    decreases count,
{
    if count == 0 {
        Seq::empty()
    } else {
        concat_rows(rows, from, (count - 1) as nat) + rows[from + count - 1]
    }
}

/// The digests of the leaves of the evaluations' tree: one leaf for each
/// code-word position, holding the values of all polynomials there.
pub open spec fn spec_leaves(node_evals: Seq<Seq<Scalar>>) -> Seq<HashNode> {
    Seq::new(node_evals.len(), |i: int| leaf_hash(node_evals[i]))
}

/// `share` is what the storage node `i` gets, where each node gets `m`
/// code-word positions: the values at its positions, the openings of the
/// aggregate polynomial there, and the way from its positions up to the root
/// of the evaluations' tree.
pub open spec fn share_of(
    share: Share,
    i: nat,
    m: nat,
    node_evals: Seq<Seq<Scalar>>,
    proofs: Seq<KzgProof>,
) -> bool {
    &&& share.index == i
    &&& share.evals@ == concat_rows(node_evals, (i * m) as int, m)
    &&& share.aggregate_proofs@ == proofs.subrange((i * m) as int, (i * m + m) as int)
    &&& share.evals_proof.path@ == path_from(
        spec_leaves(node_evals),
        height(m),
        i,
        height(node_evals.len()),
    )
}

/// The aggregate of `polys` at `point`, by Horner's rule on polynomials. At
/// every `x`, its number is the sum of the numbers of the polynomials, the
/// `j`-th multiplied by the `j`-th power of `point`, up to reduction.
pub fn polynomial_eval_polys(polys: &Vec<Vec<Scalar>>, point: &Scalar, chunk_size: usize) -> (r: Vec<
    Scalar,
>)
    requires
        forall|j: int| 0 <= j < polys.len() ==> (#[trigger] polys[j]).len() == chunk_size,
    ensures
        r@ == spec_aggregate_poly(polys_view(polys@), *point, chunk_size as nat),
        forall|x: int|
            #[trigger] eval_int(r@, x) % (modulus() as int) == combine(
                values_at(polys_view(polys@), x),
                point.value() as int,
            ) % (modulus() as int),
{
    let ghost pv = polys_view(polys@);
    proof {
        assert forall|x: int|
            #[trigger] eval_int(spec_aggregate_poly(pv, *point, chunk_size as nat), x) % (
            modulus() as int) == combine(values_at(pv, x), point.value() as int) % (
            modulus() as int) by {
            lemma_aggregate_value(pv, *point, chunk_size as nat, x);
        }
    }
    let zero = Scalar::zero();
    let mut acc: Vec<Scalar> = Vec::new();
    let mut c: usize = 0;
    while c < chunk_size
        invariant
            c <= chunk_size,
            acc.len() == c,
            zero == scalar_of_nat(0),
            pv == polys_view(polys@),
            forall|d: int|
                0 <= d < c ==> acc[d] == horner(column(pv, d).skip(polys.len() as int), *point),
        decreases chunk_size - c,
    {
        assert(column(pv, c as int).skip(polys.len() as int) =~= Seq::<Scalar>::empty());
        acc.push(zero);
        c += 1;
    }
    let mut j: usize = polys.len();
    while j > 0
        invariant
            j <= polys.len(),
            acc.len() == chunk_size,
            pv == polys_view(polys@),
            forall|t: int| 0 <= t < polys.len() ==> (#[trigger] polys[t]).len() == chunk_size,
            forall|d: int|
                0 <= d < chunk_size ==> acc[d] == horner(column(pv, d).skip(j as int), *point),
        decreases j,
    {
        j -= 1;
        let poly = &polys[j];
        let mut next: Vec<Scalar> = Vec::new();
        let mut c: usize = 0;
        while c < chunk_size
            invariant
                c <= chunk_size,
                j < polys.len(),
                next.len() == c,
                acc.len() == chunk_size,
                poly.len() == chunk_size,
                poly@ == pv[j as int],
                pv == polys_view(polys@),
                forall|d: int|
                    0 <= d < chunk_size ==> acc[d] == horner(column(pv, d).skip(j + 1), *point),
                forall|d: int| 0 <= d < c ==> next[d] == horner(column(pv, d).skip(j as int), *point),
            decreases chunk_size - c,
        {
            let t = fr_mul(&acc[c], point);
            next.push(fr_add(&t, &poly[c]));
            proof {
                let col = column(pv, c as int).skip(j as int);
                assert(col.drop_first() =~= column(pv, c as int).skip(j + 1));
                assert(col[0] == coeff(pv[j as int], c as int));
            }
            c += 1;
        }
        acc = next;
    }
    proof {
        assert forall|d: int| 0 <= d < chunk_size implies acc[d] == horner(column(pv, d), *point) by {
            assert(column(pv, d).skip(0) =~= column(pv, d));
        }
        assert(acc@ =~= spec_aggregate_poly(pv, *point, chunk_size as nat));
    }
    acc
}

/// A helper trait for what a specialised instance may compute elsewhere than
/// on the processor.
pub trait MaybeGPU: Sized {
    /// The powers of the reference string that the commitments are made with.
    spec fn commit_powers(&self) -> Seq<G1Point>;

    /// Commits to each of `polys`, in their order, and leaves the instance as
    /// it was.
    fn kzg_batch_commit(&mut self, polys: &Vec<Vec<Scalar>>) -> (r: VidResult<Vec<KzgCommit>>)
        ensures
            *final(self) == *old(self),
            r is Ok <==> spec_batch_commit(
                old(self).commit_powers(),
                polys_view(polys@),
                polys.len() as nat,
            ) is Some,
            r matches Ok(c) ==> Some(c@) == spec_batch_commit(
                old(self).commit_powers(),
                polys_view(polys@),
                polys.len() as nat,
            ),
            r matches Err(e) ==> e == VidError::Internal(InternalError::GroupElement),
    ;
}

impl MaybeGPU for AdvzInternal {
    open spec fn commit_powers(&self) -> Seq<G1Point> {
        self.powers()
    }

    fn kzg_batch_commit(&mut self, polys: &Vec<Vec<Scalar>>) -> (r: VidResult<Vec<KzgCommit>>) {
        match batch_commit(self.prover_param(), polys) {
            None => Err(VidError::Internal(InternalError::GroupElement)),
            Some(c) => Ok(c),
        }
    }
}

impl AdvzInternal {
    /// The polynomials that `payload` is cut into.
    pub open spec fn spec_polys(&self, payload: Seq<u8>) -> Seq<Seq<Scalar>> {
        spec_bytes_to_polys(payload, self.chunk_size())
    }

    /// The commitments to the polynomials of `payload`, if they exist.
    pub open spec fn spec_poly_commits(&self, payload: Seq<u8>) -> Option<Seq<KzgCommit>> {
        spec_batch_commit(self.powers(), self.spec_polys(payload), self.spec_polys(payload).len())
    }

    /// What `commit_only` gives for `payload`.
    pub open spec fn spec_commit_only(&self, payload: Seq<u8>) -> VidResult<Commit> {
        if payload.len() > u32::MAX {
            Err(VidError::Internal(InternalError::PayloadTooLong))
        } else {
            match self.spec_poly_commits(payload) {
                None => Err(VidError::Internal(InternalError::GroupElement)),
                Some(c) => Ok(spec_derive_commit(c, payload.len() as u32, self.n() as u32)),
            }
        }
    }

    /// Turns `coeffs`, the values of a polynomial on the domain `domain_ref`
    /// of size `chunk_size`, into the polynomial's coefficients.
    pub fn polynomial_internal(domain_ref: &Radix2Domain, chunk_size: usize, coeffs: &Vec<Scalar>) -> (r:
        Vec<Scalar>)
        requires
            domain_ref.wf(),
            domain_ref.spec_size() == chunk_size,
            coeffs.len() <= chunk_size,
        ensures
            r@ == spec_polynomial(chunk_size as nat, coeffs@),
            is_inverse_transform(chunk_size as nat, coeffs@, r@),
    {
        domain_ref.ifft(coeffs)
    }

    /// Turns `coeffs`, the values of a polynomial on the instance's domain,
    /// into the polynomial's coefficients.
    pub fn polynomial(&self, coeffs: &Vec<Scalar>) -> (r: Vec<Scalar>)
        requires
            self.wf(),
            coeffs.len() <= self.chunk_size(),
        ensures
            r@ == spec_polynomial(self.chunk_size(), coeffs@),
            is_inverse_transform(self.chunk_size(), coeffs@, r@),
    {
        proof {
            self.lemma_wf();
        }
        Self::polynomial_internal(self.eval_domain(), self.chunk_len(), coeffs)
    }

    /// Cuts `payload` into polynomials. Each has `chunk_size` coefficients
    /// and takes the field elements that it was made of as its values on the
    /// domain of that size.
    pub fn bytes_to_polys(&self, payload: &[u8]) -> (r: Vec<Vec<Scalar>>)
        requires
            self.wf(),
        ensures
            polys_view(r@) == self.spec_polys(payload@),
            polys_are_transforms(payload@, self.chunk_size(), polys_view(r@)),
            forall|j: int| 0 <= j < r.len() ==> (#[trigger] r[j]).len() == self.chunk_size(),
    {
        proof {
            self.lemma_wf();
        }
        let chunk_size = self.chunk_len();
        let step: u64 = 31 * (chunk_size as u64);
        let mut out: Vec<Vec<Scalar>> = Vec::new();
        let mut start: usize = 0;
        let ghost all = spec_payload_elems(payload@, chunk_size as nat);
        let ghost done: Seq<Seq<Scalar>> = Seq::empty();
        assert(payload@.skip(0) =~= payload@);
        assert(done + all =~= all);
        while start < payload.len()
            invariant
                self.wf(),
                start <= payload.len(),
                chunk_size == self.chunk_size(),
                1 <= chunk_size <= u32::MAX,
                step == 31 * chunk_size,
                all == spec_payload_elems(payload@, chunk_size as nat),
                done + spec_payload_elems(payload@.skip(start as int), chunk_size as nat) == all,
                out.len() == done.len(),
                forall|j: int|
                    0 <= j < out.len() ==> (#[trigger] out[j])@ == spec_polynomial(
                        chunk_size as nat,
                        done[j],
                    ) && is_inverse_transform(chunk_size as nat, done[j], out[j]@),
            decreases payload.len() - start,
        {
            let left: usize = payload.len() - start;
            let end: usize = if (left as u64) <= step {
                payload.len()
            } else {
                start + step as usize
            };
            let chunk = slice_subrange(payload, start, end);
            let elems = bytes_to_field(chunk);
            proof {
                let rest = payload@.skip(start as int);
                let tail = spec_payload_elems(payload@.skip(end as int), chunk_size as nat);
                if left <= step {
                    assert(chunk@ =~= rest);
                    assert(payload@.skip(end as int).len() == 0);
                    assert(tail =~= Seq::<Seq<Scalar>>::empty());
                    assert(spec_payload_elems(rest, chunk_size as nat) =~= seq![elems@] + tail);
                } else {
                    assert(chunk@ =~= rest.take(step as int));
                    assert(payload@.skip(end as int) =~= rest.skip(step as int));
                    assert(spec_payload_elems(rest, chunk_size as nat) =~= seq![elems@] + tail);
                }
                assert(elems.len() <= chunk_size) by {
                    assert(chunk@.len() <= 31 * chunk_size);
                }
                assert(done.push(elems@) + tail =~= done + (seq![elems@] + tail));
            }
            let poly = self.polynomial(&elems);
            out.push(poly);
            proof {
                done = done.push(elems@);
            }
            start = end;
        }
        proof {
            assert(spec_payload_elems(payload@.skip(start as int), chunk_size as nat)
                =~= Seq::<Seq<Scalar>>::empty());
            assert(done + Seq::<Seq<Scalar>>::empty() =~= done);
            assert(polys_view(out@) =~= self.spec_polys(payload@));
        }
        out
    }

    /// Evaluates each polynomial on the code word, and gathers for each
    /// code-word position the values of all polynomials there.
    pub fn evaluate_polys(&self, polys: &Vec<Vec<Scalar>>) -> (r: Vec<Vec<Scalar>>)
        requires
            self.wf(),
            forall|j: int| 0 <= j < polys.len() ==> (#[trigger] polys[j]).len() <= self.domain_size(),
        ensures
            polys_view(r@) == spec_node_evals(
                polys_view(polys@),
                self.domain_size(),
                self.code_word_size(),
            ),
    {
        proof {
            self.lemma_wf();
        }
        let code_word_size = self.code_word_len();
        let domain_ref = self.multi_open_domain();
        let domain = domain_ref.size();
        let ghost pv = polys_view(polys@);
        let mut all_poly_evals: Vec<Vec<Scalar>> = Vec::new();
        let mut j: usize = 0;
        while j < polys.len()
            invariant
                j <= polys.len(),
                all_poly_evals.len() == j,
                domain_ref.wf(),
                domain == domain_ref.spec_size(),
                code_word_size <= domain,
                pv == polys_view(polys@),
                forall|t: int| 0 <= t < polys.len() ==> (#[trigger] polys[t]).len() <= domain,
                forall|t: int|
                    0 <= t < j ==> (#[trigger] all_poly_evals[t])@ == spec_multi_evals(
                        pv[t],
                        domain as nat,
                        code_word_size as nat,
                    ) && all_poly_evals[t].len() == code_word_size,
            decreases polys.len() - j,
        {
            let evals = multi_open_rou_evals(&polys[j], code_word_size, domain_ref);
            all_poly_evals.push(evals);
            j += 1;
        }
        let mut all_storage_node_evals: Vec<Vec<Scalar>> = Vec::new();
        let mut i: usize = 0;
        while i < code_word_size
            invariant
                i <= code_word_size,
                all_poly_evals.len() == polys.len(),
                all_storage_node_evals.len() == i,
                pv == polys_view(polys@),
                forall|t: int|
                    0 <= t < polys.len() ==> (#[trigger] all_poly_evals[t])@ == spec_multi_evals(
                        pv[t],
                        domain as nat,
                        code_word_size as nat,
                    ) && all_poly_evals[t].len() == code_word_size,
                forall|u: int|
                    0 <= u < i ==> (#[trigger] all_storage_node_evals[u])@ == Seq::new(
                        polys.len() as nat,
                        |t: int| spec_multi_evals(pv[t], domain as nat, code_word_size as nat)[u],
                    ),
            decreases code_word_size - i,
        {
            let mut storage_node_evals: Vec<Scalar> = Vec::new();
            let mut t: usize = 0;
            while t < polys.len()
                invariant
                    t <= polys.len(),
                    i < code_word_size,
                    all_poly_evals.len() == polys.len(),
                    storage_node_evals.len() == t,
                    forall|v: int|
                        0 <= v < polys.len() ==> (#[trigger] all_poly_evals[v])@ == spec_multi_evals(
                            pv[v],
                            domain as nat,
                            code_word_size as nat,
                        ) && all_poly_evals[v].len() == code_word_size,
                    forall|v: int|
                        0 <= v < t ==> storage_node_evals[v] == spec_multi_evals(
                            pv[v],
                            domain as nat,
                            code_word_size as nat,
                        )[i as int],
                decreases polys.len() - t,
            {
                assert(all_poly_evals[t as int].len() == code_word_size);
                storage_node_evals.push(all_poly_evals[t][i]);
                t += 1;
            }
            assert(storage_node_evals@ =~= Seq::new(
                polys.len() as nat,
                |t: int| spec_multi_evals(pv[t], domain as nat, code_word_size as nat)[i as int],
            ));
            all_storage_node_evals.push(storage_node_evals);
            i += 1;
        }
        assert(polys_view(all_storage_node_evals@) =~= spec_node_evals(
            pv,
            domain as nat,
            code_word_size as nat,
        ));
        all_storage_node_evals
    }

    /// The values that each code-word position holds for `payload`.
    pub open spec fn spec_evals(&self, payload: Seq<u8>) -> Seq<Seq<Scalar>> {
        spec_node_evals(self.spec_polys(payload), self.domain_size(), self.code_word_size())
    }

    /// The root of the evaluations' tree for `payload`.
    pub open spec fn spec_all_evals_digest(&self, payload: Seq<u8>) -> HashNode {
        merkle_root(spec_leaves(self.spec_evals(payload)))
    }

    /// The scalar that the aggregation for `payload` is made with, where the
    /// polynomials have the commitments `commits`.
    pub open spec fn spec_alpha(&self, payload: Seq<u8>, commits: Seq<KzgCommit>) -> Scalar {
        spec_pseudorandom_scalar(
            spec_derive_commit(commits, payload.len() as u32, self.n() as u32),
            self.spec_all_evals_digest(payload),
        )
    }

    /// The openings of the aggregate polynomial of `payload` at every
    /// code-word position, if they exist.
    pub open spec fn spec_aggregate_proofs(&self, payload: Seq<u8>, commits: Seq<KzgCommit>) -> Option<
        Seq<KzgProof>,
    > {
        spec_multi_open(
            self.powers(),
            spec_aggregate_poly(
                self.spec_polys(payload),
                self.spec_alpha(payload, commits),
                self.chunk_size(),
            ),
            self.domain_size(),
            self.code_word_size(),
        )
    }

    /// `d` is the dispersal of `payload`, where the polynomials have the
    /// commitments `commits` and the aggregate polynomial the openings
    /// `proofs`.
    pub open spec fn is_dispersal_of(
        &self,
        d: VidDisperse,
        payload: Seq<u8>,
        commits: Seq<KzgCommit>,
        proofs: Seq<KzgProof>,
    ) -> bool {
        &&& d.common.poly_commits@ == commits
        &&& d.common.all_evals_digest == self.spec_all_evals_digest(payload)
        &&& d.common.payload_byte_len == payload.len()
        &&& d.common.num_storage_nodes == self.n()
        &&& d.common.multiplicity == self.m()
        &&& d.commit == spec_derive_commit(commits, payload.len() as u32, self.n() as u32)
        &&& d.shares.len() == self.n()
        &&& forall|i: int|
            0 <= i < self.n() ==> share_of(
                #[trigger] d.shares[i],
                i as nat,
                self.m(),
                self.spec_evals(payload),
                proofs,
            )
    }

    /// What `disperse` gives for `payload`: an error, or something that
    /// `is_dispersal_of` describes. Where there is a dispersal, each
    /// polynomial of the payload takes the field elements it was made of as
    /// its values.
    pub open spec fn disperse_result(&self, payload: Seq<u8>, r: VidResult<VidDisperse>) -> bool {
        if payload.len() > u32::MAX {
            r == Err::<VidDisperse, VidError>(VidError::Internal(InternalError::PayloadTooLong))
        } else {
            match self.spec_poly_commits(payload) {
                None => r == Err::<VidDisperse, VidError>(
                    VidError::Internal(InternalError::GroupElement),
                ),
                Some(commits) => match self.spec_aggregate_proofs(payload, commits) {
                    None => r == Err::<VidDisperse, VidError>(
                        VidError::Internal(InternalError::GroupElement),
                    ),
                    Some(proofs) => r matches Ok(d) && self.is_dispersal_of(
                        d,
                        payload,
                        commits,
                        proofs,
                    ) && polys_are_transforms(payload, self.chunk_size(), self.spec_polys(payload)),
                },
            }
        }
    }

    /// Assembles the shares from the values at every code-word position, the
    /// openings there, and the evaluations' tree.
    pub fn assemble_shares(
        &self,
        all_storage_node_evals: &Vec<Vec<Scalar>>,
        aggregate_proofs: &Vec<KzgProof>,
        all_evals_commit: &MerkleTree,
    ) -> (r: VidResult<Vec<Share>>)
        requires
            self.wf(),
            all_storage_node_evals.len() == self.code_word_size(),
            aggregate_proofs.len() == self.code_word_size(),
            all_evals_commit.wf(),
            all_evals_commit.leaves() == spec_leaves(polys_view(all_storage_node_evals@)),
        ensures
            r matches Ok(shares) && shares.len() == self.n() && forall|i: int|
                0 <= i < self.n() ==> share_of(
                    #[trigger] shares[i],
                    i as nat,
                    self.m(),
                    polys_view(all_storage_node_evals@),
                    aggregate_proofs@,
                ),
    {
        proof {
            self.lemma_wf();
        }
        let n = self.num_storage_nodes();
        let m = self.multiplicity();
        let level = log2_exact(m);
        let ghost ev = polys_view(all_storage_node_evals@);
        let mut shares: Vec<Share> = Vec::new();
        let mut index: u32 = 0;
        let mut pos: usize = 0;
        while index < n
            invariant
                self.wf(),
                index <= n,
                n == self.n(),
                m == self.m(),
                m >= 1,
                level == height(m as nat),
                pos == index * m,
                self.code_word_size() == n * m,
                all_storage_node_evals.len() == n * m,
                aggregate_proofs.len() == n * m,
                ev == polys_view(all_storage_node_evals@),
                all_evals_commit.wf(),
                all_evals_commit.leaves() == spec_leaves(ev),
                shares.len() == index,
                forall|i: int|
                    0 <= i < index ==> share_of(#[trigger] shares[i], i as nat, m as nat, ev, aggregate_proofs@),
            decreases n - index,
        {
            let ghost base = pos as int;
            proof {
                assert(index * m + m <= n * m) by (nonlinear_arith)
                    requires
                        index < n,
                        m >= 1,
                ;
            }
            let mut evals: Vec<Scalar> = Vec::new();
            let mut proofs: Vec<KzgProof> = Vec::new();
            let mut l: u32 = 0;
            assert(proofs@ =~= aggregate_proofs@.subrange(base, base));
            while l < m
                invariant
                    l <= m,
                    0 <= base,
                    base + m <= n * m,
                    pos == base + l,
                    all_storage_node_evals.len() == n * m,
                    aggregate_proofs.len() == n * m,
                    ev == polys_view(all_storage_node_evals@),
                    evals@ == concat_rows(ev, base, l as nat),
                    proofs@ == aggregate_proofs@.subrange(base, base + l),
                decreases m - l,
            {
                let row = &all_storage_node_evals[pos];
                let ghost before = evals@;
                let mut t: usize = 0;
                while t < row.len()
                    invariant
                        t <= row.len(),
                        evals@ == before + row@.take(t as int),
                    decreases row.len() - t,
                {
                    evals.push(row[t]);
                    assert(row@.take(t + 1) =~= row@.take(t as int).push(row[t as int]));
                    t += 1;
                }
                proof {
                    assert(row@.take(row.len() as int) =~= row@);
                    assert(ev[base + l] == row@);
                }
                let ghost proofs_before = proofs@;
                proofs.push(aggregate_proofs[pos]);
                assert(proofs@ =~= aggregate_proofs@.subrange(base, base + l + 1));
                pos += 1;
                l += 1;
            }
            let evals_proof = all_evals_commit.lookup(level, index as usize);
            assert(spec_leaves(ev).len() == ev.len());
            shares.push(Share { index, evals, aggregate_proofs: proofs, evals_proof });
            proof {
                assert((index + 1) * m == index * m + m) by (nonlinear_arith);
            }
            index += 1;
        }
        Ok(shares)
    }

    /// Disperses `payload`: computes a share for every storage node, the
    /// common data and the commitment.
    pub fn disperse(&mut self, payload: &[u8]) -> (r: VidResult<VidDisperse>)
        requires
            old(self).wf(),
        ensures
            *final(self) == *old(self),
            old(self).disperse_result(payload@, r),
    {
        proof {
            self.lemma_wf();
        }
        if payload.len() > u32::MAX as usize {
            return Err(VidError::Internal(InternalError::PayloadTooLong));
        }
        let payload_byte_len: u32 = payload.len() as u32;
        let chunk_size = self.chunk_len();
        let code_word_size = self.code_word_len();

        // partition payload into polynomial coefficients
        let polys = self.bytes_to_polys(payload);

        // evaluate polynomials
        let all_storage_node_evals = self.evaluate_polys(&polys);
        let ghost ev = polys_view(all_storage_node_evals@);

        // vector commitment to polynomial evaluations
        let mut leaves: Vec<HashNode> = Vec::new();
        let mut i: usize = 0;
        while i < all_storage_node_evals.len()
            invariant
                i <= all_storage_node_evals.len(),
                leaves.len() == i,
                ev == polys_view(all_storage_node_evals@),
                forall|j: int| 0 <= j < i ==> leaves[j] == leaf_hash(ev[j]),
            decreases all_storage_node_evals.len() - i,
        {
            leaves.push(hash_leaf(all_storage_node_evals[i].as_slice()));
            i += 1;
        }
        assert(leaves@ =~= spec_leaves(ev));
        let all_evals_commit = MerkleTree::from_leaves(leaves);

        let poly_commits = match self.kzg_batch_commit(&polys) {
            Err(e) => {
                return Err(e);
            },
            Ok(c) => c,
        };
        let ghost commits = poly_commits@;
        let common = Common {
            poly_commits,
            all_evals_digest: all_evals_commit.root(),
            payload_byte_len,
            num_storage_nodes: self.num_storage_nodes(),
            multiplicity: self.multiplicity(),
        };
        let commit = Self::derive_commit(
            common.poly_commits.as_slice(),
            payload_byte_len,
            self.num_storage_nodes(),
        );
        let pseudorandom_scalar = Self::pseudorandom_scalar(&common, &commit);

        // the aggregate polynomial is a pseudorandom linear combination of
        // the polynomials
        let aggregate_poly = polynomial_eval_polys(&polys, &pseudorandom_scalar, chunk_size);
        let aggregate_proofs = match multi_open_rou_proofs(
            self.prover_param(),
            &aggregate_poly,
            code_word_size,
            self.multi_open_domain(),
        ) {
            None => {
                return Err(VidError::Internal(InternalError::GroupElement));
            },
            Some(p) => p,
        };
        proof {
            crate::pcs::lemma_multi_open_len(
                self.powers(),
                aggregate_poly@,
                self.domain_size(),
                code_word_size as nat,
            );
        }
        let shares = match self.assemble_shares(
            &all_storage_node_evals,
            &aggregate_proofs,
            &all_evals_commit,
        ) {
            Err(e) => {
                return Err(e);
            },
            Ok(s) => s,
        };
        Ok(VidDisperse { shares, common, commit })
    }

    /// Commits to `payload` without dispersing it.
    pub fn commit_only(&mut self, payload: &[u8]) -> (r: VidResult<Commit>)
        requires
            old(self).wf(),
        ensures
            *final(self) == *old(self),
            r == old(self).spec_commit_only(payload@),
    {
        if payload.len() > u32::MAX as usize {
            return Err(VidError::Internal(InternalError::PayloadTooLong));
        }
        let payload_byte_len: u32 = payload.len() as u32;
        let polys = self.bytes_to_polys(payload);
        let poly_commits = match self.kzg_batch_commit(&polys) {
            Err(e) => {
                return Err(e);
            },
            Ok(c) => c,
        };
        Ok(Self::derive_commit(poly_commits.as_slice(), payload_byte_len, self.num_storage_nodes()))
    }
}

} // verus!
