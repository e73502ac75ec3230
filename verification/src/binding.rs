//! What binds a share to the commitment, as far as the hash does: whoever
//! gets two different things accepted where only one should be has found two
//! byte strings with the same SHA-256 digest.

use crate::advz::{spec_derive_commit, AdvzInternal, Commit, Common, Share, Verdict};
use crate::wire::{le32, lemma_le32_injective, points_bytes};
use crate::curve::G1Point;
use crate::error::VidError;
use crate::field::Scalar;
use crate::hash::{spec_sha256, HashNode};
use crate::merkle_tree::{climb, leaf_hash, merkle_root, node, node_hash, scalars_bytes, span};
use crate::verification::{merkle_accepts, share_leaves, sub_batch};
use vstd::prelude::*;

verus! {

/// Two different byte strings have the same digest.
pub open spec fn sha256_collides() -> bool {
    exists|x: Seq<u8>, y: Seq<u8>| x != y && #[trigger] spec_sha256(x) == #[trigger] spec_sha256(y)
}

/// Two digests are the same where their bytes are.
pub proof fn lemma_digest_bytes(a: HashNode, b: HashNode)
    ensures
        a.bytes@ == b.bytes@ ==> a == b,
{
    if a.bytes@ == b.bytes@ {
        assert(a.bytes =~= b.bytes);
    }
}

/// Two nodes with the same digest have the same children, or two byte
/// strings have the same digest.
pub proof fn lemma_node_hash_binding(l1: HashNode, r1: HashNode, l2: HashNode, r2: HashNode)
    requires
        node_hash(l1, r1) == node_hash(l2, r2),
    ensures
        (l1 == l2 && r1 == r2) || sha256_collides(),
{
    let x = seq![1u8] + l1.bytes@ + r1.bytes@;
    let y = seq![1u8] + l2.bytes@ + r2.bytes@;
    if x == y {
        assert(l1.bytes@ =~= x.subrange(1, 33));
        assert(l2.bytes@ =~= y.subrange(1, 33));
        assert(r1.bytes@ =~= x.subrange(33, 65));
        assert(r2.bytes@ =~= y.subrange(33, 65));
        lemma_digest_bytes(l1, l2);
        lemma_digest_bytes(r1, r2);
    } else {
        assert(spec_sha256(x) == spec_sha256(y));
    }
}

/// Two leaves with the same digest hold the same field elements, or two byte
/// strings have the same digest.
pub proof fn lemma_leaf_hash_binding(a: Seq<Scalar>, b: Seq<Scalar>)
    requires
        leaf_hash(a) == leaf_hash(b),
    ensures
        a == b || sha256_collides(),
{
    let x = seq![0u8] + scalars_bytes(a);
    let y = seq![0u8] + scalars_bytes(b);
    if x == y {
        assert(x.len() == 1 + 32 * a.len());
        assert(y.len() == 1 + 32 * b.len());
        assert(a.len() == b.len());
        assert forall|j: int| 0 <= j < a.len() implies a[j] == b[j] by {
            assert forall|t: int| 0 <= t < 32 implies a[j].bytes@[t] == b[j].bytes@[t] by {
                let at = 32 * j + t;
                assert(scalars_bytes(a)[at] == x[1 + at]);
                assert(scalars_bytes(b)[at] == y[1 + at]);
                assert(at / 32 == j && at % 32 == t);
            }
            assert(a[j].bytes =~= b[j].bytes);
        }
        assert(a =~= b);
    } else {
        assert(spec_sha256(x) == spec_sha256(y));
    }
}

/// Two ways up from the same index and of the same length that reach the
/// same digest start from the same digest and pass the same siblings, or two
/// byte strings have the same digest.
pub proof fn lemma_climb_binding(
    a: HashNode,
    b: HashNode,
    idx: nat,
    path_a: Seq<HashNode>,
    path_b: Seq<HashNode>,
)
    requires
        path_a.len() == path_b.len(),
        climb(a, idx, path_a) == climb(b, idx, path_b),
    ensures
        (a == b && path_a == path_b) || sha256_collides(),
    decreases path_a.len(),
{
    if path_a.len() > 0 {
        let pa = if idx % 2 == 0 {
            node_hash(a, path_a[0])
        } else {
            node_hash(path_a[0], a)
        };
        let pb = if idx % 2 == 0 {
            node_hash(b, path_b[0])
        } else {
            node_hash(path_b[0], b)
        };
        lemma_climb_binding(pa, pb, idx / 2, path_a.drop_first(), path_b.drop_first());
        if pa == pb {
            if idx % 2 == 0 {
                lemma_node_hash_binding(a, path_a[0], b, path_b[0]);
            } else {
                lemma_node_hash_binding(path_a[0], a, path_b[0], b);
            }
        }
        if !sha256_collides() {
            assert(path_a =~= seq![path_a[0]] + path_a.drop_first());
            assert(path_b =~= seq![path_b[0]] + path_b.drop_first());
        }
    } else {
        assert(path_a =~= path_b);
    }
}

/// Two trees over equally many leaves with the same node at some place have
/// the same leaves below that place, or two byte strings have the same
/// digest.
pub proof fn lemma_node_binding(
    leaves_a: Seq<HashNode>,
    leaves_b: Seq<HashNode>,
    level: nat,
    idx: nat,
    j: int,
)
    requires
        leaves_a.len() == leaves_b.len(),
        node(leaves_a, level, idx) == node(leaves_b, level, idx),
        idx * span(level) <= j < (idx + 1) * span(level),
        j < leaves_a.len(),
    ensures
        leaves_a[j] == leaves_b[j] || sha256_collides(),
    decreases level,
{
    if level == 0 {
        assert(span(0) == 1);
        assert(idx * 1 == idx && (idx + 1) * 1 == idx + 1) by (nonlinear_arith);
    } else {
        let below = (level - 1) as nat;
        let u = span(below);
        assert(span(level) == 2 * u);
        assert(idx * (2 * u) == (2 * idx) * u && (2 * idx + 1) * u == (2 * idx) * u + u && (idx + 1)
            * (2 * u) == (2 * idx + 2) * u && (2 * idx + 2) * u == (2 * idx + 1) * u + u)
            by (nonlinear_arith);
        lemma_node_hash_binding(
            node(leaves_a, below, 2 * idx),
            node(leaves_a, below, 2 * idx + 1),
            node(leaves_b, below, 2 * idx),
            node(leaves_b, below, 2 * idx + 1),
        );
        if !sha256_collides() {
            if j < (2 * idx + 1) * u {
                lemma_node_binding(leaves_a, leaves_b, below, 2 * idx, j);
            } else {
                lemma_node_binding(leaves_a, leaves_b, below, 2 * idx + 1, j);
            }
        }
    }
}

/// Two commitments are the same only where they bind the same length, the
/// same number of nodes and the same commitments to polynomials, or two byte
/// strings have the same digest.
pub proof fn lemma_derive_commit_binding(
    commits_a: Seq<G1Point>,
    len_a: u32,
    n_a: u32,
    commits_b: Seq<G1Point>,
    len_b: u32,
    n_b: u32,
)
    requires
        spec_derive_commit(commits_a, len_a, n_a) == spec_derive_commit(commits_b, len_b, n_b),
    ensures
        (commits_a == commits_b && len_a == len_b && n_a == n_b) || sha256_collides(),
{
    let x = le32(len_a) + le32(n_a) + points_bytes(commits_a);
    let y = le32(len_b) + le32(n_b) + points_bytes(commits_b);
    if x == y {
        assert(x.len() == 8 + 96 * commits_a.len());
        assert(y.len() == 8 + 96 * commits_b.len());
        assert(le32(len_a) =~= x.subrange(0, 4));
        assert(le32(len_b) =~= y.subrange(0, 4));
        assert(le32(n_a) =~= x.subrange(4, 8));
        assert(le32(n_b) =~= y.subrange(4, 8));
        lemma_le32_injective(len_a, len_b);
        lemma_le32_injective(n_a, n_b);
        assert forall|j: int| 0 <= j < commits_a.len() implies commits_a[j] == commits_b[j] by {
            assert forall|t: int| 0 <= t < 96 implies commits_a[j].bytes@[t] == commits_b[j].bytes@[t] by {
                let at = 96 * j + t;
                assert(points_bytes(commits_a)[at] == x[8 + at]);
                assert(points_bytes(commits_b)[at] == y[8 + at]);
                assert(at / 96 == j && at % 96 == t);
            }
            assert(commits_a[j].bytes =~= commits_b[j].bytes);
        }
        assert(commits_a =~= commits_b);
    } else {
        assert(spec_sha256(x) == spec_sha256(y));
    }
}

/// The evaluations' tree binds the values: of two shares of one index with
/// equally many values that both lead to the same root, the values are the
/// same, or two byte strings have the same digest.
pub proof fn lemma_merkle_binds_the_values(
    a: Share,
    b: Share,
    m: nat,
    num_polys: nat,
    code_word_size: nat,
    root: HashNode,
)
    requires
        vstd::arithmetic::power2::is_pow2(m as int),
        a.index == b.index,
        a.evals.len() == m * num_polys,
        b.evals.len() == m * num_polys,
        merkle_accepts(a, m, num_polys, code_word_size, root),
        merkle_accepts(b, m, num_polys, code_word_size, root),
    ensures
        a.evals@ == b.evals@ || sha256_collides(),
{
    let la = share_leaves(a.evals@, m, num_polys);
    let lb = share_leaves(b.evals@, m, num_polys);
    lemma_climb_binding(
        merkle_root(la),
        merkle_root(lb),
        a.index as nat,
        a.evals_proof.path@,
        b.evals_proof.path@,
    );
    if !sha256_collides() {
        let level = crate::merkle_tree::height(m);
        crate::merkle_tree::lemma_span_of_height(m);
        assert(0 * span(level) == 0 && (0 + 1) * span(level) == m) by (nonlinear_arith)
            requires
                span(level) == m,
        ;
        assert forall|t: int| 0 <= t < m * num_polys implies a.evals@[t] == b.evals@[t] by {
            let l = t / (num_polys as int);
            let p = t % (num_polys as int);
            assert(num_polys > 0) by (nonlinear_arith)
                requires
                    0 <= t < m * num_polys,
            ;
            vstd::arithmetic::div_mod::lemma_fundamental_div_mod(t, num_polys as int);
            assert(0 <= l < m) by (nonlinear_arith)
                requires
                    0 <= t < m * num_polys,
                    t == num_polys * l + p,
                    0 <= p < num_polys,
            ;
            assert(0 <= l * num_polys && l * num_polys + num_polys <= m * num_polys && l * num_polys
                == num_polys * l) by (nonlinear_arith)
                requires
                    0 <= l < m,
                    num_polys > 0,
            ;
            lemma_node_binding(la, lb, level, 0, l);
            lemma_leaf_hash_binding(
                sub_batch(a.evals@, num_polys, l),
                sub_batch(b.evals@, num_polys, l),
            );
            assert(sub_batch(a.evals@, num_polys, l)[p] == a.evals@[t]);
            assert(sub_batch(b.evals@, num_polys, l)[p] == b.evals@[t]);
        }
        assert(a.evals@ =~= b.evals@);
    }
}

/// Changed values are rejected: where a share leads to the root of the common
/// data, a share of the same index whose values are others, as many as
/// before, is rejected, or two byte strings have the same digest.
pub proof fn lemma_changed_values_are_rejected(
    advz: AdvzInternal,
    share: Share,
    changed: Share,
    common: Common,
    commit: Commit,
)
    requires
        advz.wf(),
        advz.verify_share_argument_error(share, common, commit) is None,
        advz.well_shaped(share, common),
        merkle_accepts(
            share,
            advz.m(),
            common.poly_commits.len() as nat,
            advz.code_word_size(),
            common.all_evals_digest,
        ),
        changed.index == share.index,
        changed.evals.len() == share.evals.len(),
        changed.evals@ != share.evals@,
    ensures
        advz.spec_verify_share(changed, common, commit) == Ok::<Verdict, VidError>(Err(()))
            || sha256_collides(),
{
    advz.lemma_wf();
    if merkle_accepts(
        changed,
        advz.m(),
        common.poly_commits.len() as nat,
        advz.code_word_size(),
        common.all_evals_digest,
    ) {
        lemma_merkle_binds_the_values(
            share,
            changed,
            advz.m(),
            common.poly_commits.len() as nat,
            advz.code_word_size(),
            common.all_evals_digest,
        );
    }
}

/// A changed root is rejected: a share that leads to one root of the
/// evaluations' tree is rejected with common data that names another.
pub proof fn lemma_changed_digest_is_rejected(
    advz: AdvzInternal,
    share: Share,
    common: Common,
    changed: Common,
    commit: Commit,
)
    requires
        advz.verify_share_argument_error(share, common, commit) is None,
        merkle_accepts(
            share,
            advz.m(),
            common.poly_commits.len() as nat,
            advz.code_word_size(),
            common.all_evals_digest,
        ),
        changed.poly_commits@ == common.poly_commits@,
        changed.payload_byte_len == common.payload_byte_len,
        changed.num_storage_nodes == common.num_storage_nodes,
        changed.multiplicity == common.multiplicity,
        changed.all_evals_digest != common.all_evals_digest,
    ensures
        advz.spec_verify_share(share, changed, commit) == Ok::<Verdict, VidError>(Err(())),
{
}

/// Changed commitments to polynomials are an argument error: where a
/// commitment belongs to common data, common data with other commitments to
/// polynomials gives an argument error, or two byte strings have the same
/// digest.
pub proof fn lemma_changed_commits_are_argument_error(
    advz: AdvzInternal,
    share: Share,
    common: Common,
    changed: Common,
    commit: Commit,
)
    requires
        commit == spec_derive_commit(
            common.poly_commits@,
            common.payload_byte_len,
            common.num_storage_nodes,
        ),
        changed.poly_commits@ != common.poly_commits@,
    ensures
        advz.spec_verify_share(share, changed, commit) matches Err(VidError::Argument(_))
            || sha256_collides(),
{
    if advz.verify_share_argument_error(share, changed, commit) is None {
        lemma_derive_commit_binding(
            common.poly_commits@,
            common.payload_byte_len,
            common.num_storage_nodes,
            changed.poly_commits@,
            changed.payload_byte_len,
            changed.num_storage_nodes,
        );
    }
}

/// Another proof is rejected: where a share leads to the root of the common
/// data, the same share with other siblings in its Merkle proof is rejected,
/// or two byte strings have the same digest.
pub proof fn lemma_changed_proof_is_rejected(
    advz: AdvzInternal,
    share: Share,
    changed: Share,
    common: Common,
    commit: Commit,
)
    requires
        advz.verify_share_argument_error(share, common, commit) is None,
        merkle_accepts(
            share,
            advz.m(),
            common.poly_commits.len() as nat,
            advz.code_word_size(),
            common.all_evals_digest,
        ),
        changed.index == share.index,
        changed.evals@ == share.evals@,
        changed.evals_proof.path@ != share.evals_proof.path@,
    ensures
        advz.spec_verify_share(changed, common, commit) == Ok::<Verdict, VidError>(Err(()))
            || sha256_collides(),
{
    let m = advz.m();
    let polys = common.poly_commits.len() as nat;
    if merkle_accepts(changed, m, polys, advz.code_word_size(), common.all_evals_digest) {
        lemma_climb_binding(
            merkle_root(share_leaves(share.evals@, m, polys)),
            merkle_root(share_leaves(changed.evals@, m, polys)),
            share.index as nat,
            share.evals_proof.path@,
            changed.evals_proof.path@,
        );
    }
}

/// The values of another node are rejected: a share that names the node `j`
/// of a dispersal but holds other values than that node's share, as many as
/// it, is rejected, or two byte strings have the same digest.
pub proof fn lemma_values_of_another_node_are_rejected(
    advz: AdvzInternal,
    payload: Seq<u8>,
    d: crate::advz::VidDisperse,
    changed: Share,
    j: int,
)
    requires
        advz.wf(),
        advz.disperse_result(payload, Ok(d)),
        0 <= j < advz.n(),
        changed.index == j,
        changed.evals.len() == d.shares[j].evals.len(),
        changed.evals@ != d.shares[j].evals@,
    ensures
        advz.spec_verify_share(changed, d.common, d.commit) == Ok::<Verdict, VidError>(Err(()))
            || sha256_collides(),
{
    let commits = advz.spec_poly_commits(payload)->Some_0;
    let proofs = advz.spec_aggregate_proofs(payload, commits)->Some_0;
    crate::laws::lemma_honest_share_reaches_the_openings(advz, payload, d, commits, proofs, j);
    lemma_changed_values_are_rejected(advz, d.shares[j], changed, d.common, d.commit);
}

} // verus!
