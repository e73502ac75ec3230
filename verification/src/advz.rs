//! The dispersal scheme itself: its parameters, what it hands out, and the
//! commitment that binds a payload.

use crate::curve::G1Point;
use crate::domain::{
    is_domain_size, is_primitive_root, is_subdomain, lemma_next_power_of_two, lemma_pow2_halves,
    lemma_pow2_squeeze, next_power_of_two, spec_group_gen, Radix2Domain,
};
use crate::error::{ArgumentError, InternalError, VidError};
use crate::field::{fr_from_le_bytes_mod_order, le_nat, modulus, scalar_of_nat, Scalar};
use crate::hash::{sha256, spec_sha256, HashNode};
use crate::merkle_tree::MerkleProof;
use crate::pcs::{trim, KzgCommit, KzgProof, KzgProverParam, KzgSrs, KzgVerifierParam};
use crate::wire::{le32, points_bytes, push_le32};
use vstd::arithmetic::power2::is_pow2;
use vstd::prelude::*;

verus! {

/// What the scheme's operations return.
pub type VidResult<T> = Result<T, VidError>;

/// The commitment that binds a payload: a digest of its length, the number of
/// storage nodes and the commitments to its polynomials.
pub type Commit = HashNode;

/// The scheme on one processor.
pub type Advz = AdvzInternal;

/// An instance of the scheme: its parameters and its keys.
#[derive(Clone, Debug, PartialEq, Eq)]
pub struct AdvzInternal {
    recovery_threshold: u32,
    num_storage_nodes: u32,
    multiplicity: u32,
    ck: KzgProverParam,
    vk: KzgVerifierParam,
    multi_open_domain: Radix2Domain,
    eval_domain: Radix2Domain,
}

/// What one storage node gets.
#[derive(Clone, Debug, PartialEq, Eq, Hash)]
pub struct Share {
    pub index: u32,
    pub evals: Vec<Scalar>,
    pub aggregate_proofs: Vec<KzgProof>,
    pub evals_proof: MerkleProof,
}

/// What all storage nodes get alike.
#[derive(Clone, Debug, PartialEq, Eq, Hash)]
pub struct Common {
    pub poly_commits: Vec<KzgCommit>,
    pub all_evals_digest: HashNode,
    pub payload_byte_len: u32,
    pub num_storage_nodes: u32,
    pub multiplicity: u32,
}

/// What a dispersal gives: a share for each storage node, the common data and
/// the commitment.
#[derive(Clone, Debug, PartialEq, Eq)]
pub struct VidDisperse {
    pub shares: Vec<Share>,
    pub common: Common,
    pub commit: Commit,
}

/// The outcome of checking a share whose arguments are in order.
pub type Verdict = Result<(), ()>;

/// The commitment that binds a payload of `payload_byte_len` bytes, dispersed
/// to `num_storage_nodes` nodes, whose polynomials have the commitments
/// `poly_commits`.
pub open spec fn spec_derive_commit(
    poly_commits: Seq<KzgCommit>,
    payload_byte_len: u32,
    num_storage_nodes: u32,
) -> Commit {
    spec_sha256(le32(payload_byte_len) + le32(num_storage_nodes) + points_bytes(poly_commits))
}

/// The scalar that the aggregation is made with: the digest of the commitment
/// and of the root of the evaluations' tree, read as a little-endian number
/// and reduced modulo the field order.
pub open spec fn spec_pseudorandom_scalar(commit: Commit, all_evals_digest: HashNode) -> Scalar {
    scalar_of_nat(
        le_nat(spec_sha256(commit.bytes@ + all_evals_digest.bytes@).bytes@) % modulus(),
    )
}

/// Why an instance with these parameters cannot be made from a reference
/// string of `srs_len` powers, if the evaluation domain that the code word
/// needs exists; nothing where it can.
pub open spec fn parameter_error(
    num_storage_nodes: u32,
    recovery_threshold: u32,
    multiplicity: u32,
    srs_len: nat,
) -> Option<VidError> {
    if recovery_threshold == 0 || num_storage_nodes < recovery_threshold {
        Some(VidError::Argument(ArgumentError::ThresholdOutOfRange))
    } else if !is_pow2(multiplicity as int) {
        Some(VidError::Argument(ArgumentError::MultiplicityNotPowerOfTwo))
    } else if multiplicity * num_storage_nodes > u32::MAX {
        Some(VidError::Argument(ArgumentError::CodeWordTooLong))
    } else if srs_len < multiplicity * recovery_threshold {
        Some(VidError::Internal(InternalError::ReferenceStringTooShort))
    } else if !is_pow2(multiplicity * recovery_threshold) {
        Some(VidError::Argument(ArgumentError::ChunkSizeNotPowerOfTwo))
    } else {
        None
    }
}

/// Whether `x` is a power of two.
pub fn is_power_of_two(x: u64) -> (r: bool)
    ensures
        r == is_pow2(x as int),
{
    if x == 0 {
        proof {
            reveal(is_pow2);
        }
        return false;
    }
    let mut y: u64 = x;
    while y % 2 == 0
        invariant
            y >= 1,
            is_pow2(y as int) == is_pow2(x as int),
        decreases y,
    {
        proof {
            lemma_pow2_halves(y as int);
        }
        y = y / 2;
    }
    proof {
        reveal(is_pow2);
    }
    y == 1
}

impl AdvzInternal {
    /// The number of storage nodes, `n`.
    pub closed spec fn n(&self) -> nat {
        self.num_storage_nodes as nat
    }

    /// The recovery threshold, `k`.
    pub closed spec fn k(&self) -> nat {
        self.recovery_threshold as nat
    }

    /// The multiplicity, `m`.
    pub closed spec fn m(&self) -> nat {
        self.multiplicity as nat
    }

    /// The number of coefficients of a polynomial, `m * k`.
    pub open spec fn chunk_size(&self) -> nat {
        self.m() * self.k()
    }

    /// The number of code-word positions, `m * n`.
    pub open spec fn code_word_size(&self) -> nat {
        self.m() * self.n()
    }

    /// The powers of the reference string that the prover holds.
    pub closed spec fn powers(&self) -> Seq<G1Point> {
        self.ck.powers_of_g@
    }

    /// The verifier's key.
    pub closed spec fn verifier_key(&self) -> KzgVerifierParam {
        self.vk
    }

    /// The size of the domain that the code word lies on.
    pub closed spec fn domain_size(&self) -> nat {
        self.multi_open_domain.spec_size()
    }

    /// The instance is the one for `num_storage_nodes` nodes, the recovery
    /// threshold `recovery_threshold` and the multiplicity `multiplicity`,
    /// with its keys cut from the reference string `srs`: the prover's key
    /// holds one power for each coefficient of a polynomial, and the code
    /// word lies on the smallest domain that has room for it.
    pub open spec fn is_instance_for(
        &self,
        num_storage_nodes: u32,
        recovery_threshold: u32,
        multiplicity: u32,
        srs: KzgSrs,
    ) -> bool {
        &&& self.wf()
        &&& self.n() == num_storage_nodes
        &&& self.k() == recovery_threshold
        &&& self.m() == multiplicity
        &&& self.powers() == srs.powers_of_g@.take(multiplicity * recovery_threshold)
        &&& self.verifier_key() == (KzgVerifierParam {
            g: srs.powers_of_g[0],
            h: srs.h,
            beta_h: srs.beta_h,
        })
        &&& self.domain_size() == next_power_of_two(
            (multiplicity * num_storage_nodes) as nat,
        )
    }

    /// The parameters are in range, and the keys and domains fit them.
    pub closed spec fn wf(&self) -> bool {
        &&& 1 <= self.recovery_threshold <= self.num_storage_nodes
        &&& is_pow2(self.multiplicity as int)
        &&& self.multiplicity * self.num_storage_nodes <= u32::MAX
        &&& is_pow2(self.multiplicity * self.recovery_threshold)
        &&& self.ck.powers_of_g.len() == self.multiplicity * self.recovery_threshold
        &&& self.eval_domain.wf()
        &&& self.eval_domain.spec_size() == self.multiplicity * self.recovery_threshold
        &&& self.multi_open_domain.wf()
        &&& self.multi_open_domain.spec_size() == next_power_of_two(
            (self.multiplicity * self.num_storage_nodes) as nat,
        )
        &&& is_subdomain(self.eval_domain.spec_size(), self.multi_open_domain.spec_size())
    }

    /// What holds of every instance that is in order.
    pub proof fn lemma_wf(&self)
        requires
            self.wf(),
        ensures
            1 <= self.k() <= self.n() <= u32::MAX,
            1 <= self.m() <= u32::MAX,
            is_pow2(self.m() as int),
            is_pow2(self.chunk_size() as int),
            1 <= self.chunk_size() <= self.code_word_size() <= u32::MAX,
            self.code_word_size() <= self.domain_size() < 2 * self.code_word_size(),
            self.domain_size() == next_power_of_two(self.code_word_size()),
            is_domain_size(self.domain_size()),
            is_domain_size(self.chunk_size()),
            self.powers().len() == self.chunk_size(),
            is_primitive_root(spec_group_gen(self.domain_size()), self.domain_size()),
            is_subdomain(self.chunk_size(), self.domain_size()),
    {
        let m = self.multiplicity as int;
        let k = self.recovery_threshold as int;
        let n = self.num_storage_nodes as int;
        self.multi_open_domain.lemma_wf();
        self.eval_domain.lemma_wf();
        lemma_next_power_of_two((m * n) as nat);
        assert(m >= 1) by {
            reveal(is_pow2);
        }
        assert(1 <= m * k <= m * n) by (nonlinear_arith)
            requires
                m >= 1,
                1 <= k <= n,
        ;
    }

    /// The number of storage nodes.
    pub fn num_storage_nodes(&self) -> (r: u32)
        ensures
            r == self.n(),
    {
        self.num_storage_nodes
    }

    /// The recovery threshold.
    pub fn recovery_threshold(&self) -> (r: u32)
        ensures
            r == self.k(),
    {
        self.recovery_threshold
    }

    /// The multiplicity.
    pub fn multiplicity(&self) -> (r: u32)
        ensures
            r == self.m(),
    {
        self.multiplicity
    }

    /// The number of coefficients of a polynomial.
    pub fn chunk_len(&self) -> (r: usize)
        requires
            self.wf(),
        ensures
            r == self.chunk_size(),
    {
        self.eval_domain.size()
    }

    /// The number of code-word positions.
    pub fn code_word_len(&self) -> (r: usize)
        requires
            self.wf(),
        ensures
            r == self.code_word_size(),
    {
        (self.multiplicity as u64 * self.num_storage_nodes as u64) as usize
    }

    /// The domain that the code word lies on.
    pub fn multi_open_domain(&self) -> (r: &Radix2Domain)
        requires
            self.wf(),
        ensures
            r.wf(),
            r.spec_size() == self.domain_size(),
    {
        &self.multi_open_domain
    }

    /// The domain on which the field elements of a payload are the values of
    /// its polynomials.
    pub fn eval_domain(&self) -> (r: &Radix2Domain)
        requires
            self.wf(),
        ensures
            r.wf(),
            r.spec_size() == self.chunk_size(),
    {
        &self.eval_domain
    }

    /// The prover's key.
    pub fn prover_param(&self) -> (r: &KzgProverParam)
        ensures
            r.powers_of_g@ == self.powers(),
    {
        &self.ck
    }

    /// The verifier's key.
    pub fn verifier_param(&self) -> (r: &KzgVerifierParam)
        ensures
            *r == self.verifier_key(),
    {
        &self.vk
    }

    pub(crate) fn new_internal(num_storage_nodes: u32, recovery_threshold: u32, srs: &KzgSrs) -> (r:
        VidResult<Self>)
        ensures
            r matches Ok(advz) ==> {
                &&& advz.is_instance_for(num_storage_nodes, recovery_threshold, 1, *srs)
                &&& parameter_error(
                    num_storage_nodes,
                    recovery_threshold,
                    1,
                    srs.powers_of_g.len() as nat,
                ) is None
            },
            r matches Err(e) ==> {
                ||| Some(e) == parameter_error(
                    num_storage_nodes,
                    recovery_threshold,
                    1,
                    srs.powers_of_g.len() as nat,
                )
                ||| (e == VidError::Internal(InternalError::DomainUnavailable) && num_storage_nodes
                    > 0x8000_0000)
            },
    {
        let multiplicity: u32 = 1;
        Self::with_multiplicity_internal(num_storage_nodes, recovery_threshold, multiplicity, srs)
    }

    pub(crate) fn with_multiplicity_internal(
        num_storage_nodes: u32,
        recovery_threshold: u32,
        multiplicity: u32,
        srs: &KzgSrs,
    ) -> (r: VidResult<Self>)
        ensures
            r matches Ok(advz) ==> {
                &&& advz.is_instance_for(num_storage_nodes, recovery_threshold, multiplicity, *srs)
                &&& parameter_error(
                    num_storage_nodes,
                    recovery_threshold,
                    multiplicity,
                    srs.powers_of_g.len() as nat,
                ) is None
            },
            r matches Err(e) ==> {
                ||| Some(e) == parameter_error(
                    num_storage_nodes,
                    recovery_threshold,
                    multiplicity,
                    srs.powers_of_g.len() as nat,
                )
                ||| (e == VidError::Internal(InternalError::DomainUnavailable) && multiplicity
                    * num_storage_nodes > 0x8000_0000)
            },
    {
        if recovery_threshold == 0 || num_storage_nodes < recovery_threshold {
            return Err(VidError::Argument(ArgumentError::ThresholdOutOfRange));
        }
        if !is_power_of_two(multiplicity as u64) {
            return Err(VidError::Argument(ArgumentError::MultiplicityNotPowerOfTwo));
        }
        let ghost m = multiplicity as int;
        let ghost k = recovery_threshold as int;
        let ghost n = num_storage_nodes as int;
        proof {
            assert(m >= 1) by {
                reveal(is_pow2);
            }
            assert(m * n <= 0xffff_ffff * 0xffff_ffff && 1 <= m * k <= m * n) by (nonlinear_arith)
                requires
                    1 <= m <= 0xffff_ffff,
                    1 <= k <= n <= 0xffff_ffff,
            ;
        }
        let wide: u64 = multiplicity as u64 * num_storage_nodes as u64;
        if wide > u32::MAX as u64 {
            return Err(VidError::Argument(ArgumentError::CodeWordTooLong));
        }
        // erasure code params
        let chunk_size: usize = (multiplicity as u64 * recovery_threshold as u64) as usize;
        let code_word_size: usize = wide as usize;
        assert(chunk_size == m * k && code_word_size == m * n);
        let poly_degree: usize = chunk_size - 1;
        let (ck, vk) = match trim(srs, poly_degree) {
            None => {
                return Err(VidError::Internal(InternalError::ReferenceStringTooShort));
            },
            Some(keys) => keys,
        };
        let multi_open_domain = match Radix2Domain::new(code_word_size) {
            None => {
                return Err(VidError::Internal(InternalError::DomainUnavailable));
            },
            Some(domain) => domain,
        };
        let eval_domain = match Radix2Domain::new(chunk_size) {
            None => {
                return Err(VidError::Internal(InternalError::DomainUnavailable));
            },
            Some(domain) => domain,
        };
        proof {
            multi_open_domain.lemma_wf();
            eval_domain.lemma_wf();
        }
        if chunk_size != eval_domain.size() {
            proof {
                lemma_next_power_of_two(chunk_size as nat);
                if is_pow2(chunk_size as int) {
                    lemma_pow2_squeeze(chunk_size as int, eval_domain.spec_size() as int);
                }
            }
            return Err(VidError::Argument(ArgumentError::ChunkSizeNotPowerOfTwo));
        }
        // the domain of the polynomials lies in the domain of the code word:
        // halving the latter leads to the former
        let mut between = multi_open_domain;
        let ghost big = multi_open_domain.spec_size();
        let ghost q: nat = 1;
        proof {
            lemma_next_power_of_two(code_word_size as nat);
            vstd::arithmetic::power::lemma_pow1(spec_group_gen(big).value() as int);
            assert(big * 1 == big) by (nonlinear_arith);
        }
        while between.size() > chunk_size
            invariant
                between.wf(),
                is_pow2(chunk_size as int),
                1 <= chunk_size <= between.spec_size(),
                q >= 1,
                big == between.spec_size() * q,
                crate::uniqueness::cong(
                    spec_group_gen(between.spec_size()).value() as int,
                    vstd::arithmetic::power::pow(spec_group_gen(big).value() as int, q),
                ),
            decreases between.spec_size(),
        {
            let ghost size = between.spec_size();
            proof {
                between.lemma_wf();
                lemma_pow2_halves(size as int);
                crate::roots::lemma_generator_of_half(size, big, q);
                if size / 2 < chunk_size {
                    lemma_pow2_squeeze((size / 2) as int, chunk_size as int);
                }
                assert(size * q == (size / 2) * (2 * q)) by (nonlinear_arith)
                    requires
                        size % 2 == 0,
                ;
            }
            between = between.half();
            proof {
                q = 2 * q;
            }
        }
        proof {
            crate::roots::lemma_subdomain(chunk_size as nat, big, q);
        }
        Ok(
            AdvzInternal {
                recovery_threshold,
                num_storage_nodes,
                multiplicity,
                ck,
                vk,
                multi_open_domain,
                eval_domain,
            },
        )
    }

    /// A new instance for `num_storage_nodes` nodes, of which any
    /// `recovery_threshold` can recover a payload, with the multiplicity 1.
    pub fn new(num_storage_nodes: u32, recovery_threshold: u32, srs: &KzgSrs) -> (r: VidResult<Self>)
        ensures
            r matches Ok(advz) ==> {
                &&& advz.is_instance_for(num_storage_nodes, recovery_threshold, 1, *srs)
                &&& parameter_error(
                    num_storage_nodes,
                    recovery_threshold,
                    1,
                    srs.powers_of_g.len() as nat,
                ) is None
            },
            r matches Err(e) ==> {
                ||| Some(e) == parameter_error(
                    num_storage_nodes,
                    recovery_threshold,
                    1,
                    srs.powers_of_g.len() as nat,
                )
                ||| (e == VidError::Internal(InternalError::DomainUnavailable) && num_storage_nodes
                    > 0x8000_0000)
            },
    {
        Self::new_internal(num_storage_nodes, recovery_threshold, srs)
    }

    /// A new instance in which each storage node gets `multiplicity` values of
    /// every polynomial.
    pub fn with_multiplicity(
        num_storage_nodes: u32,
        recovery_threshold: u32,
        multiplicity: u32,
        srs: &KzgSrs,
    ) -> (r: VidResult<Self>)
        ensures
            r matches Ok(advz) ==> {
                &&& advz.is_instance_for(num_storage_nodes, recovery_threshold, multiplicity, *srs)
                &&& parameter_error(
                    num_storage_nodes,
                    recovery_threshold,
                    multiplicity,
                    srs.powers_of_g.len() as nat,
                ) is None
            },
            r matches Err(e) ==> {
                ||| Some(e) == parameter_error(
                    num_storage_nodes,
                    recovery_threshold,
                    multiplicity,
                    srs.powers_of_g.len() as nat,
                )
                ||| (e == VidError::Internal(InternalError::DomainUnavailable) && multiplicity
                    * num_storage_nodes > 0x8000_0000)
            },
    {
        Self::with_multiplicity_internal(num_storage_nodes, recovery_threshold, multiplicity, srs)
    }

    /// Derives the commitment from the commitments to the polynomials, the
    /// payload's length and the number of storage nodes.
    pub fn derive_commit(poly_commits: &[KzgCommit], payload_byte_len: u32, num_storage_nodes: u32) -> (r:
        Commit)
        ensures
            r == spec_derive_commit(poly_commits@, payload_byte_len, num_storage_nodes),
    {
        let mut data: Vec<u8> = Vec::new();
        push_le32(&mut data, payload_byte_len);
        push_le32(&mut data, num_storage_nodes);
        let ghost head = data@;
        let mut i: usize = 0;
        while i < poly_commits.len()
            invariant
                i <= poly_commits.len(),
                head.len() == 8,
                data.len() == 8 + 96 * i,
                data@.take(8) == head,
                forall|j: int|
                    8 <= j < 8 + 96 * i ==> #[trigger] data[j] == poly_commits[(j - 8) / 96].bytes@[(j
                        - 8) % 96],
            decreases poly_commits.len() - i,
        {
            let mut b: usize = 0;
            while b < 96
                invariant
                    i < poly_commits.len(),
                    b <= 96,
                    head.len() == 8,
                    data.len() == 8 + 96 * i + b,
                    data@.take(8) == head,
                    forall|j: int|
                        8 <= j < 8 + 96 * i + b ==> #[trigger] data[j] == poly_commits[(j - 8)
                            / 96].bytes@[(j - 8) % 96],
                decreases 96 - b,
            {
                let ghost before = data@;
                data.push(poly_commits[i].bytes[b]);
                assert(data@.take(8) =~= before.take(8));
                b += 1;
            }
            i += 1;
        }
        assert(data@ =~= head + points_bytes(poly_commits@)) by {
            assert(data@.take(8) == head);
            assert forall|j: int| 0 <= j < 8 implies data@[j] == head[j] by {
                assert(data@.take(8)[j] == data@[j]);
            }
        }
        sha256(data.as_slice())
    }

    /// Checks that `commit` is the commitment that belongs to `common`.
    pub fn is_consistent(commit: &Commit, common: &Common) -> (r: VidResult<()>)
        ensures
            r is Ok <==> *commit == spec_derive_commit(
                common.poly_commits@,
                common.payload_byte_len,
                common.num_storage_nodes,
            ),
            r matches Err(e) ==> e == VidError::Argument(ArgumentError::InconsistentCommit),
    {
        let derived = Self::derive_commit(
            common.poly_commits.as_slice(),
            common.payload_byte_len,
            common.num_storage_nodes,
        );
        if !commit.same(&derived) {
            return Err(VidError::Argument(ArgumentError::InconsistentCommit));
        }
        Ok(())
    }

    /// The length of the payload that `common` belongs to.
    pub fn get_payload_byte_len(common: &Common) -> (r: u32)
        ensures
            r == common.payload_byte_len,
    {
        common.payload_byte_len
    }

    /// The number of storage nodes that `common` was made for.
    pub fn get_num_storage_nodes(common: &Common) -> (r: u32)
        ensures
            r == common.num_storage_nodes,
    {
        common.num_storage_nodes
    }

    /// The multiplicity that `common` was made with.
    pub fn get_multiplicity(common: &Common) -> (r: u32)
        ensures
            r == common.multiplicity,
    {
        common.multiplicity
    }

    /// Computes the scalar that the aggregation is made with.
    pub fn pseudorandom_scalar(common: &Common, commit: &Commit) -> (r: Scalar)
        ensures
            r == spec_pseudorandom_scalar(*commit, common.all_evals_digest),
    {
        let mut data: Vec<u8> = Vec::new();
        let mut b: usize = 0;
        while b < 32
            invariant
                b <= 32,
                data.len() == b,
                forall|j: int| 0 <= j < b ==> data[j] == commit.bytes@[j],
            decreases 32 - b,
        {
            data.push(commit.bytes[b]);
            b += 1;
        }
        b = 0;
        while b < 32
            invariant
                b <= 32,
                data.len() == 32 + b,
                forall|j: int| 0 <= j < 32 ==> data[j] == commit.bytes@[j],
                forall|j: int| 32 <= j < 32 + b ==> data[j] == common.all_evals_digest.bytes@[j - 32],
            decreases 32 - b,
        {
            data.push(common.all_evals_digest.bytes[b]);
            b += 1;
        }
        assert(data@ =~= commit.bytes@ + common.all_evals_digest.bytes@);
        let digest = sha256(data.as_slice());
        fr_from_le_bytes_mod_order(digest.bytes.as_slice())
    }
}

} // verus!
