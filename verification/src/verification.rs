//! Checking a share against the common data and the commitment.

use crate::advz::{
    spec_derive_commit, spec_pseudorandom_scalar, AdvzInternal, Commit, Common, Share, Verdict,
    VidResult,
};
use crate::curve::{g1_msm, spec_g1_msm};
use crate::domain::spec_domain_element;
use crate::error::{ArgumentError, InternalError, VidError};
use crate::field::{fr_mul, horner, polynomial_eval, power, Scalar};
use crate::hash::HashNode;
use crate::merkle_tree::{
    climb, hash_leaf, height, leaf_hash, log2_exact, merkle_climb, merkle_root, tree_height,
    MerkleTree,
};
use crate::pcs::{spec_verify, verify, KzgCommit, KzgVerifierParam};
use vstd::prelude::*;
use vstd::slice::slice_subrange;

verus! {

/// The first `count` powers of `alpha`, from the power zero on.
pub open spec fn alpha_powers(alpha: Scalar, count: nat) -> Seq<Scalar> {
    Seq::new(count, |j: int| power(alpha, j as nat))
}

/// The aggregate of the commitments `commits`: the sum of the commitments,
/// the `j`-th multiplied by the `j`-th power of `alpha`. Nothing where a
/// commitment is refused by the decoder.
pub open spec fn spec_aggregate_commit(commits: Seq<KzgCommit>, alpha: Scalar) -> Option<KzgCommit> {
    spec_g1_msm(commits, alpha_powers(alpha, commits.len()))
}

/// The `l`-th run of `num_polys` values of a share: the values of all
/// polynomials at the `l`-th of the node's code-word positions.
pub open spec fn sub_batch(evals: Seq<Scalar>, num_polys: nat, l: int) -> Seq<Scalar> {
    evals.subrange(l * num_polys, l * num_polys + num_polys)
}

/// The digests of the leaves that a share's values make: one for each of the
/// node's `m` code-word positions.
pub open spec fn share_leaves(evals: Seq<Scalar>, m: nat, num_polys: nat) -> Seq<HashNode> {
    Seq::new(m, |l: int| leaf_hash(sub_batch(evals, num_polys, l)))
}

/// The share's values lead, by the share's Merkle proof, to `root`: the
/// proof has one sibling for each level between the node's positions and the
/// root of a tree over `code_word_size` leaves, and hashing the root of the
/// share's own leaves with them gives `root`.
pub open spec fn merkle_accepts(
    share: Share,
    m: nat,
    num_polys: nat,
    code_word_size: nat,
    root: HashNode,
) -> bool {
    &&& share.evals_proof.path.len() + height(m) == height(code_word_size)
    &&& climb(
        merkle_root(share_leaves(share.evals@, m, num_polys)),
        share.index as nat,
        share.evals_proof.path@,
    ) == root
}

/// The verdict on the openings `from`, `from + 1`, .. of a share: the first
/// opening that does not hold, or has no verdict, decides.
pub open spec fn spec_check_openings(
    vk: KzgVerifierParam,
    aggregate_commit: KzgCommit,
    alpha: Scalar,
    share: Share,
    m: nat,
    num_polys: nat,
    domain_size: nat,
    from: nat,
) -> VidResult<Verdict>
    decreases m - from,
{
    if from >= m {
        Ok(Ok(()))
    } else {
        match spec_verify(
            vk,
            aggregate_commit,
            spec_domain_element(domain_size, (share.index * m + from) as nat),
            horner(sub_batch(share.evals@, num_polys, from as int), alpha),
            share.aggregate_proofs[from as int],
        ) {
            None => Err(VidError::Internal(InternalError::GroupElement)),
            Some(false) => Ok(Err(())),
            Some(true) => spec_check_openings(
                vk,
                aggregate_commit,
                alpha,
                share,
                m,
                num_polys,
                domain_size,
                from + 1,
            ),
        }
    }
}

/// The first `count` powers of `alpha`.
pub fn powers_of(alpha: &Scalar, count: usize) -> (r: Vec<Scalar>)
    ensures
        r@ == alpha_powers(*alpha, count as nat),
{
    let mut out: Vec<Scalar> = Vec::new();
    let mut cur = Scalar::one();
    let mut j: usize = 0;
    while j < count
        invariant
            j <= count,
            out.len() == j,
            cur == power(*alpha, j as nat),
            forall|i: int| 0 <= i < j ==> out[i] == power(*alpha, i as nat),
        decreases count - j,
    {
        out.push(cur);
        cur = fr_mul(&cur, alpha);
        j += 1;
    }
    assert(out@ =~= alpha_powers(*alpha, count as nat));
    out
}

/// The aggregate of the commitments `commits` at `point`.
pub fn polynomial_eval_commits(commits: &Vec<KzgCommit>, point: &Scalar) -> (r: Option<KzgCommit>)
    ensures
        r == spec_aggregate_commit(commits@, *point),
{
    let powers = powers_of(point, commits.len());
    g1_msm(commits.as_slice(), powers.as_slice())
}

impl AdvzInternal {
    /// The share has one value for each polynomial and each of the node's
    /// code-word positions, and one opening for each position.
    pub open spec fn well_shaped(&self, share: Share, common: Common) -> bool {
        &&& share.evals.len() == self.m() * common.poly_commits.len()
        &&& share.aggregate_proofs.len() == self.m()
    }

    /// What is wrong with the arguments of `verify_share`, if anything.
    pub open spec fn verify_share_argument_error(
        &self,
        share: Share,
        common: Common,
        commit: Commit,
    ) -> Option<ArgumentError> {
        if common.multiplicity == 0 {
            Some(ArgumentError::ZeroMultiplicity)
        } else if share.evals.len() as int / common.multiplicity as int != common.poly_commits.len() {
            Some(ArgumentError::EvalsCommitsMismatch)
        } else if common.num_storage_nodes != self.n() {
            Some(ArgumentError::NumStorageNodesMismatch)
        } else if commit != spec_derive_commit(
            common.poly_commits@,
            common.payload_byte_len,
            common.num_storage_nodes,
        ) {
            Some(ArgumentError::InconsistentCommit)
        } else {
            None
        }
    }

    /// What `verify_share` gives. Arguments that are out of order give an
    /// error. A share of a node that does not exist, one of the wrong shape
    /// and one whose values do not lead to the root of the evaluations' tree
    /// are rejected. Then the openings of the aggregate polynomial decide.
    pub open spec fn spec_verify_share(&self, share: Share, common: Common, commit: Commit) -> VidResult<
        Verdict,
    > {
        match self.verify_share_argument_error(share, common, commit) {
            Some(e) => Err(VidError::Argument(e)),
            None => {
                if share.index >= self.n() || !self.well_shaped(share, common) || !merkle_accepts(
                    share,
                    self.m(),
                    common.poly_commits.len() as nat,
                    self.code_word_size(),
                    common.all_evals_digest,
                ) {
                    Ok(Err(()))
                } else {
                    let alpha = spec_pseudorandom_scalar(commit, common.all_evals_digest);
                    match spec_aggregate_commit(common.poly_commits@, alpha) {
                        None => Err(VidError::Internal(InternalError::GroupElement)),
                        Some(aggregate_commit) => spec_check_openings(
                            self.verifier_key(),
                            aggregate_commit,
                            alpha,
                            share,
                            self.m(),
                            common.poly_commits.len() as nat,
                            self.domain_size(),
                            0,
                        ),
                    }
                }
            },
        }
    }

    /// Checks the share's values against the root of the evaluations' tree.
    fn check_merkle(&self, share: &Share, common: &Common) -> (r: bool)
        requires
            self.wf(),
            self.well_shaped(*share, *common),
        ensures
            r == merkle_accepts(
                *share,
                self.m(),
                common.poly_commits.len() as nat,
                self.code_word_size(),
                common.all_evals_digest,
            ),
    {
        proof {
            self.lemma_wf();
        }
        let m = self.multiplicity();
        let polys_len = common.poly_commits.len();
        let top = tree_height(self.code_word_len());
        let level = log2_exact(m);
        if top < level || share.evals_proof.path.len() != top - level {
            return false;
        }
        let mut leaves: Vec<HashNode> = Vec::new();
        let mut l: u32 = 0;
        let mut start: usize = 0;
        while l < m
            invariant
                l <= m,
                m == self.m(),
                start == l * polys_len,
                share.evals.len() == m * polys_len,
                leaves.len() == l,
                forall|i: int|
                    0 <= i < l ==> leaves[i] == leaf_hash(sub_batch(share.evals@, polys_len as nat, i)),
            decreases m - l,
        {
            proof {
                assert(l * polys_len + polys_len <= m * polys_len) by (nonlinear_arith)
                    requires
                        l < m,
                ;
                assert((l + 1) * polys_len == l * polys_len + polys_len) by (nonlinear_arith);
            }
            let batch = slice_subrange(share.evals.as_slice(), start, start + polys_len);
            leaves.push(hash_leaf(batch));
            start = start + polys_len;
            l += 1;
        }
        assert(leaves@ =~= share_leaves(share.evals@, m as nat, polys_len as nat));
        let tree = MerkleTree::from_leaves(leaves);
        let reached = merkle_climb(&tree.root(), share.index as u64, &share.evals_proof.path);
        reached.same(&common.all_evals_digest)
    }

    /// Checks the openings `from`, `from + 1`, .. of a share.
    fn check_openings(
        &self,
        aggregate_commit: &KzgCommit,
        alpha: &Scalar,
        share: &Share,
        common: &Common,
    ) -> (r: VidResult<Verdict>)
        requires
            self.wf(),
            self.well_shaped(*share, *common),
            share.index < self.n(),
        ensures
            r == spec_check_openings(
                self.verifier_key(),
                *aggregate_commit,
                *alpha,
                *share,
                self.m(),
                common.poly_commits.len() as nat,
                self.domain_size(),
                0,
            ),
    {
        proof {
            self.lemma_wf();
        }
        let m = self.multiplicity();
        let polys_len = common.poly_commits.len();
        let domain_ref = self.multi_open_domain();
        let ghost domain = self.domain_size();
        let ghost vk = self.verifier_key();
        let ghost goal = spec_check_openings(
            vk,
            *aggregate_commit,
            *alpha,
            *share,
            m as nat,
            polys_len as nat,
            domain,
            0,
        );
        proof {
            let n = self.n() as int;
            let i = share.index as int;
            let mm = m as int;
            assert(0 <= i * mm && i * mm + mm <= mm * n) by (nonlinear_arith)
                requires
                    0 <= i < n,
                    mm >= 1,
            ;
        }
        let base: usize = (share.index as u64 * m as u64) as usize;
        let mut l: u32 = 0;
        let mut start: usize = 0;
        while l < m
            invariant
                self.wf(),
                l <= m,
                m == self.m(),
                vk == self.verifier_key(),
                domain == self.domain_size(),
                domain_ref.wf(),
                domain_ref.spec_size() == domain,
                base == share.index * m,
                base + m <= u32::MAX,
                start == l * polys_len,
                share.evals.len() == m * polys_len,
                share.aggregate_proofs.len() == m,
                polys_len == common.poly_commits.len(),
                goal == spec_check_openings(
                    self.verifier_key(),
                    *aggregate_commit,
                    *alpha,
                    *share,
                    self.m(),
                    polys_len as nat,
                    self.domain_size(),
                    0,
                ),
                spec_check_openings(
                    vk,
                    *aggregate_commit,
                    *alpha,
                    *share,
                    m as nat,
                    polys_len as nat,
                    domain,
                    l as nat,
                ) == goal,
            decreases m - l,
        {
            proof {
                assert(l * polys_len + polys_len <= m * polys_len) by (nonlinear_arith)
                    requires
                        l < m,
                ;
                assert((l + 1) * polys_len == l * polys_len + polys_len) by (nonlinear_arith);
            }
            let batch = slice_subrange(share.evals.as_slice(), start, start + polys_len);
            let aggregate_eval = polynomial_eval(batch, alpha);
            let point = domain_ref.element(base + l as usize);
            let checked = verify(
                self.verifier_param(),
                aggregate_commit,
                &point,
                &aggregate_eval,
                &share.aggregate_proofs[l as usize],
            );
            proof {
                assert(batch@ == sub_batch(share.evals@, polys_len as nat, l as int));
            }
            match checked {
                None => {
                    return Err(VidError::Internal(InternalError::GroupElement));
                },
                Some(false) => {
                    return Ok(Err(()));
                },
                Some(true) => {},
            }
            start = start + polys_len;
            l += 1;
        }
        Ok(Ok(()))
    }

    /// Checks `share` against `common` and `commit`.
    pub fn verify_share(&self, share: &Share, common: &Common, commit: &Commit) -> (r: VidResult<
        Verdict,
    >)
        requires
            self.wf(),
        ensures
            r == self.spec_verify_share(*share, *common, *commit),
    {
        proof {
            self.lemma_wf();
        }
        // check arguments
        if common.multiplicity == 0 {
            return Err(VidError::Argument(ArgumentError::ZeroMultiplicity));
        }
        let multiplicity: usize = common.multiplicity as usize;
        if share.evals.len() / multiplicity != common.poly_commits.len() {
            return Err(VidError::Argument(ArgumentError::EvalsCommitsMismatch));
        }
        if common.num_storage_nodes != self.num_storage_nodes() {
            return Err(VidError::Argument(ArgumentError::NumStorageNodesMismatch));
        }
        match Self::is_consistent(commit, common) {
            Err(e) => {
                return Err(e);
            },
            Ok(_) => {},
        }
        if share.index >= self.num_storage_nodes() {
            return Ok(Err(()));  // not an arg error
        }
        let m = self.multiplicity();
        let polys_len = common.poly_commits.len();
        proof {
            let a = m as int;
            let b = polys_len as int;
            assert(0 <= a * b <= 0xffff_ffff * 0xffff_ffff_ffff_ffff) by (nonlinear_arith)
                requires
                    0 <= a <= 0xffff_ffff,
                    0 <= b <= 0xffff_ffff_ffff_ffff,
            ;
        }
        if share.aggregate_proofs.len() != m as usize || share.evals.len() as u128 != m as u128
            * polys_len as u128 {
            return Ok(Err(()));
        }
        // verify eval proof
        if !self.check_merkle(share, common) {
            return Ok(Err(()));
        }
        let pseudorandom_scalar = Self::pseudorandom_scalar(common, commit);

        // the aggregate commitment is the same pseudorandom linear combination
        // of the commitments that the aggregate polynomial is of the polynomials
        let aggregate_poly_commit = match polynomial_eval_commits(
            &common.poly_commits,
            &pseudorandom_scalar,
        ) {
            None => {
                return Err(VidError::Internal(InternalError::GroupElement));
            },
            Some(c) => c,
        };
        // verify aggregate proof
        self.check_openings(&aggregate_poly_commit, &pseudorandom_scalar, share, common)
    }
}

} // verus!
