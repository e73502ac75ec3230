//! The wire form of the common data and of a share.
//!
//! Numbers are written little end first in a fixed width, a list as the
//! number of its items in 64 bits followed by the items, and field elements,
//! group elements and digests as their bytes.

use crate::advz::{Common, Share};
use crate::curve::G1Point;
use crate::field::Scalar;
use crate::hash::HashNode;
use crate::merkle_tree::{scalars_bytes, MerkleProof};
use vstd::prelude::*;

verus! {

/// The four bytes of `x`, little end first.
pub open spec fn le32(x: u32) -> Seq<u8> {
    seq![
        (x % 256) as u8,
        ((x / 256) % 256) as u8,
        ((x / 65536) % 256) as u8,
        (x / 16777216) as u8,
    ]
}

/// The encodings of a list of points, one after the other.
pub open spec fn points_bytes(points: Seq<G1Point>) -> Seq<u8> {
    Seq::new(96 * points.len(), |j: int| points[j / 96].bytes@[j % 96])
}

/// The eight bytes of `x`, little end first.
pub open spec fn le64(x: u64) -> Seq<u8> {
    seq![
        (x % 256) as u8,
        ((x / 0x100) % 256) as u8,
        ((x / 0x1_0000) % 256) as u8,
        ((x / 0x100_0000) % 256) as u8,
        ((x / 0x1_0000_0000) % 256) as u8,
        ((x / 0x100_0000_0000) % 256) as u8,
        ((x / 0x1_0000_0000_0000) % 256) as u8,
        (x / 0x100_0000_0000_0000) as u8,
    ]
}

/// The bytes of a list of digests, one after the other.
pub open spec fn digests_bytes(digests: Seq<HashNode>) -> Seq<u8> {
    Seq::new(32 * digests.len(), |j: int| digests[j / 32].bytes@[j % 32])
}

/// The wire form of the common data.
pub open spec fn spec_common_bytes(common: Common) -> Seq<u8> {
    le64(common.poly_commits.len() as u64) + points_bytes(common.poly_commits@)
        + common.all_evals_digest.bytes@ + le32(common.payload_byte_len) + le32(
        common.num_storage_nodes,
    ) + le32(common.multiplicity)
}

/// The wire form of a share.
pub open spec fn spec_share_bytes(share: Share) -> Seq<u8> {
    le32(share.index) + le64(share.evals.len() as u64) + scalars_bytes(share.evals@) + le64(
        share.aggregate_proofs.len() as u64,
    ) + points_bytes(share.aggregate_proofs@) + le64(share.evals_proof.path.len() as u64)
        + digests_bytes(share.evals_proof.path@)
}

/// Writes the four bytes of `x`, little end first, at the end of `out`.
pub fn push_le32(out: &mut Vec<u8>, x: u32)
    ensures
        final(out)@ == old(out)@ + le32(x),
{
    let ghost before = out@;
    out.push((x % 256) as u8);
    out.push(((x / 256) % 256) as u8);
    out.push(((x / 65536) % 256) as u8);
    out.push((x / 16777216) as u8);
    assert(out@ =~= before + le32(x));
}

/// Writes the eight bytes of `x`, little end first, at the end of `out`.
pub fn push_le64(out: &mut Vec<u8>, x: u64)
    ensures
        final(out)@ == old(out)@ + le64(x),
{
    let ghost before = out@;
    out.push((x % 256) as u8);
    out.push(((x / 0x100) % 256) as u8);
    out.push(((x / 0x1_0000) % 256) as u8);
    out.push(((x / 0x100_0000) % 256) as u8);
    out.push(((x / 0x1_0000_0000) % 256) as u8);
    out.push(((x / 0x100_0000_0000) % 256) as u8);
    out.push(((x / 0x1_0000_0000_0000) % 256) as u8);
    out.push((x / 0x100_0000_0000_0000) as u8);
    assert(out@ =~= before + le64(x));
}

/// Writes `bytes` at the end of `out`.
pub fn push_bytes(out: &mut Vec<u8>, bytes: &[u8])
    ensures
        final(out)@ == old(out)@ + bytes@,
{
    let ghost before = out@;
    let mut i: usize = 0;
    while i < bytes.len()
        invariant
            i <= bytes.len(),
            out@ == before + bytes@.take(i as int),
        decreases bytes.len() - i,
    {
        out.push(bytes[i]);
        assert(bytes@.take(i + 1) =~= bytes@.take(i as int).push(bytes[i as int]));
        i += 1;
    }
    assert(bytes@.take(bytes.len() as int) =~= bytes@);
}

/// Reads the number whose four bytes, little end first, stand at `at`.
pub fn read_le32(bytes: &[u8], at: usize) -> (r: u32)
    requires
        at + 4 <= bytes.len(),
    ensures
        le32(r) == bytes@.subrange(at as int, at + 4),
{
    let b0 = bytes[at];
    let b1 = bytes[at + 1];
    let b2 = bytes[at + 2];
    let b3 = bytes[at + 3];
    let r: u32 = b0 as u32 | (b1 as u32) << 8 | (b2 as u32) << 16 | (b3 as u32) << 24;
    assert(r % 256 == b0 as u32 && (r / 256) % 256 == b1 as u32 && (r / 65536) % 256 == b2 as u32 && r
        / 16777216 == b3 as u32) by (bit_vector)
        requires
            r == b0 as u32 | (b1 as u32) << 8 | (b2 as u32) << 16 | (b3 as u32) << 24,
    ;
    assert(le32(r) =~= bytes@.subrange(at as int, at + 4));
    r
}

/// Reads the number whose eight bytes, little end first, stand at `at`.
pub fn read_le64(bytes: &[u8], at: usize) -> (r: u64)
    requires
        at + 8 <= bytes.len(),
    ensures
        le64(r) == bytes@.subrange(at as int, at + 8),
{
    let b0 = bytes[at];
    let b1 = bytes[at + 1];
    let b2 = bytes[at + 2];
    let b3 = bytes[at + 3];
    let b4 = bytes[at + 4];
    let b5 = bytes[at + 5];
    let b6 = bytes[at + 6];
    let b7 = bytes[at + 7];
    let r: u64 = b0 as u64 | (b1 as u64) << 8 | (b2 as u64) << 16 | (b3 as u64) << 24 | (b4 as u64)
        << 32 | (b5 as u64) << 40 | (b6 as u64) << 48 | (b7 as u64) << 56;
    assert(r % 256 == b0 as u64 && (r / 0x100) % 256 == b1 as u64 && (r / 0x1_0000) % 256 == b2 as u64
        && (r / 0x100_0000) % 256 == b3 as u64 && (r / 0x1_0000_0000) % 256 == b4 as u64 && (r
        / 0x100_0000_0000) % 256 == b5 as u64 && (r / 0x1_0000_0000_0000) % 256 == b6 as u64 && r
        / 0x100_0000_0000_0000 == b7 as u64) by (bit_vector)
        requires
            r == b0 as u64 | (b1 as u64) << 8 | (b2 as u64) << 16 | (b3 as u64) << 24 | (b4 as u64)
                << 32 | (b5 as u64) << 40 | (b6 as u64) << 48 | (b7 as u64) << 56,
    ;
    assert(le64(r) =~= bytes@.subrange(at as int, at + 8));
    r
}

/// Two numbers with the same four bytes are the same.
pub proof fn lemma_le32_injective(a: u32, b: u32)
    requires
        le32(a) == le32(b),
    ensures
        a == b,
{
    assert(le32(a)[0] == le32(b)[0]);
    assert(le32(a)[1] == le32(b)[1]);
    assert(le32(a)[2] == le32(b)[2]);
    assert(le32(a)[3] == le32(b)[3]);
}

/// Two numbers with the same eight bytes are the same.
pub proof fn lemma_le64_injective(a: u64, b: u64)
    requires
        le64(a) == le64(b),
    ensures
        a == b,
{
    assert(le64(a)[0] == le64(b)[0]);
    assert(le64(a)[1] == le64(b)[1]);
    assert(le64(a)[2] == le64(b)[2]);
    assert(le64(a)[3] == le64(b)[3]);
    assert(le64(a)[4] == le64(b)[4]);
    assert(le64(a)[5] == le64(b)[5]);
    assert(le64(a)[6] == le64(b)[6]);
    assert(le64(a)[7] == le64(b)[7]);
    assert(a == b) by (bit_vector)
        requires
            a % 256 == b % 256,
            (a / 0x100) % 256 == (b / 0x100) % 256,
            (a / 0x1_0000) % 256 == (b / 0x1_0000) % 256,
            (a / 0x100_0000) % 256 == (b / 0x100_0000) % 256,
            (a / 0x1_0000_0000) % 256 == (b / 0x1_0000_0000) % 256,
            (a / 0x100_0000_0000) % 256 == (b / 0x100_0000_0000) % 256,
            (a / 0x1_0000_0000_0000) % 256 == (b / 0x1_0000_0000_0000) % 256,
            a / 0x100_0000_0000_0000 == b / 0x100_0000_0000_0000,
    ;
}

/// Reads the digest whose bytes stand at `at`.
pub fn read_digest(bytes: &[u8], at: usize) -> (r: HashNode)
    requires
        at + 32 <= bytes.len(),
    ensures
        r.bytes@ == bytes@.subrange(at as int, at + 32),
{
    let mut out = [0u8; 32];
    let mut t: usize = 0;
    while t < 32
        invariant
            t <= 32,
            at + 32 <= bytes.len(),
            forall|j: int| 0 <= j < t ==> out[j] == bytes[at + j],
        decreases 32 - t,
    {
        out[t] = bytes[at + t];
        t += 1;
    }
    assert(out@ =~= bytes@.subrange(at as int, at + 32));
    HashNode { bytes: out }
}

/// Reads the field element whose bytes stand at `at`.
pub fn read_scalar(bytes: &[u8], at: usize) -> (r: Scalar)
    requires
        at + 32 <= bytes.len(),
    ensures
        r.bytes@ == bytes@.subrange(at as int, at + 32),
{
    Scalar { bytes: read_digest(bytes, at).bytes }
}

/// Reads the group element whose bytes stand at `at`.
pub fn read_point(bytes: &[u8], at: usize) -> (r: G1Point)
    requires
        at + 96 <= bytes.len(),
    ensures
        r.bytes@ == bytes@.subrange(at as int, at + 96),
{
    let mut out = [0u8; 96];
    let mut t: usize = 0;
    while t < 96
        invariant
            t <= 96,
            at + 96 <= bytes.len(),
            forall|j: int| 0 <= j < t ==> out[j] == bytes[at + j],
        decreases 96 - t,
    {
        out[t] = bytes[at + t];
        t += 1;
    }
    assert(out@ =~= bytes@.subrange(at as int, at + 96));
    G1Point { bytes: out }
}

/// Writes the bytes of the group elements `points` at the end of `out`.
pub fn write_points(out: &mut Vec<u8>, points: &Vec<G1Point>)
    ensures
        final(out)@ == old(out)@ + points_bytes(points@),
{
    let ghost before = out@;
    let mut i: usize = 0;
    assert(points_bytes(points@.take(0)) =~= Seq::<u8>::empty());
    while i < points.len()
        invariant
            i <= points.len(),
            out@ == before + points_bytes(points@.take(i as int)),
        decreases points.len() - i,
    {
        push_bytes(out, points[i].bytes.as_slice());
        assert(points_bytes(points@.take(i + 1)) =~= points_bytes(points@.take(i as int))
            + points[i as int].bytes@);
        i += 1;
    }
    assert(points@.take(points.len() as int) =~= points@);
}

/// Writes the bytes of the field elements `scalars` at the end of `out`.
pub fn write_scalars(out: &mut Vec<u8>, scalars: &Vec<Scalar>)
    ensures
        final(out)@ == old(out)@ + scalars_bytes(scalars@),
{
    let ghost before = out@;
    let mut i: usize = 0;
    assert(scalars_bytes(scalars@.take(0)) =~= Seq::<u8>::empty());
    while i < scalars.len()
        invariant
            i <= scalars.len(),
            out@ == before + scalars_bytes(scalars@.take(i as int)),
        decreases scalars.len() - i,
    {
        push_bytes(out, scalars[i].bytes.as_slice());
        assert(scalars_bytes(scalars@.take(i + 1)) =~= scalars_bytes(scalars@.take(i as int))
            + scalars[i as int].bytes@);
        i += 1;
    }
    assert(scalars@.take(scalars.len() as int) =~= scalars@);
}

/// Writes the bytes of the digests `digests` at the end of `out`.
pub fn write_digests(out: &mut Vec<u8>, digests: &Vec<HashNode>)
    ensures
        final(out)@ == old(out)@ + digests_bytes(digests@),
{
    let ghost before = out@;
    let mut i: usize = 0;
    assert(digests_bytes(digests@.take(0)) =~= Seq::<u8>::empty());
    while i < digests.len()
        invariant
            i <= digests.len(),
            out@ == before + digests_bytes(digests@.take(i as int)),
        decreases digests.len() - i,
    {
        push_bytes(out, digests[i].bytes.as_slice());
        assert(digests_bytes(digests@.take(i + 1)) =~= digests_bytes(digests@.take(i as int))
            + digests[i as int].bytes@);
        i += 1;
    }
    assert(digests@.take(digests.len() as int) =~= digests@);
}

/// Reads `count` group elements whose bytes stand from `at` on.
pub fn read_points(bytes: &[u8], at: usize, count: usize) -> (r: Vec<G1Point>)
    requires
        at + 96 * count <= bytes.len(),
    ensures
        r.len() == count,
        points_bytes(r@) == bytes@.subrange(at as int, at + 96 * count),
{
    let mut out: Vec<G1Point> = Vec::new();
    let mut i: usize = 0;
    while i < count
        invariant
            i <= count,
            at + 96 * count <= bytes.len(),
            out.len() == i,
            forall|j: int|
                0 <= j < i ==> (#[trigger] out[j]).bytes@ == bytes@.subrange(
                    at + 96 * j,
                    at + 96 * j + 96,
                ),
        decreases count - i,
    {
        out.push(read_point(bytes, at + 96 * i));
        i += 1;
    }
    assert(points_bytes(out@) =~= bytes@.subrange(at as int, at + 96 * count)) by {
        assert forall|t: int| 0 <= t < 96 * count implies points_bytes(out@)[t] == bytes@[at + t] by {
            let j = t / 96;
            assert(out[j].bytes@[t % 96] == bytes@.subrange(at + 96 * j, at + 96 * j + 96)[t % 96]);
        }
    }
    out
}

/// Reads `count` field elements whose bytes stand from `at` on.
pub fn read_scalars(bytes: &[u8], at: usize, count: usize) -> (r: Vec<Scalar>)
    requires
        at + 32 * count <= bytes.len(),
    ensures
        r.len() == count,
        scalars_bytes(r@) == bytes@.subrange(at as int, at + 32 * count),
{
    let mut out: Vec<Scalar> = Vec::new();
    let mut i: usize = 0;
    while i < count
        invariant
            i <= count,
            at + 32 * count <= bytes.len(),
            out.len() == i,
            forall|j: int|
                0 <= j < i ==> (#[trigger] out[j]).bytes@ == bytes@.subrange(
                    at + 32 * j,
                    at + 32 * j + 32,
                ),
        decreases count - i,
    {
        out.push(read_scalar(bytes, at + 32 * i));
        i += 1;
    }
    assert(scalars_bytes(out@) =~= bytes@.subrange(at as int, at + 32 * count)) by {
        assert forall|t: int| 0 <= t < 32 * count implies scalars_bytes(out@)[t] == bytes@[at + t] by {
            let j = t / 32;
            assert(out[j].bytes@[t % 32] == bytes@.subrange(at + 32 * j, at + 32 * j + 32)[t % 32]);
        }
    }
    out
}

/// Reads `count` digests whose bytes stand from `at` on.
pub fn read_digests(bytes: &[u8], at: usize, count: usize) -> (r: Vec<HashNode>)
    requires
        at + 32 * count <= bytes.len(),
    ensures
        r.len() == count,
        digests_bytes(r@) == bytes@.subrange(at as int, at + 32 * count),
{
    let mut out: Vec<HashNode> = Vec::new();
    let mut i: usize = 0;
    while i < count
        invariant
            i <= count,
            at + 32 * count <= bytes.len(),
            out.len() == i,
            forall|j: int|
                0 <= j < i ==> (#[trigger] out[j]).bytes@ == bytes@.subrange(
                    at + 32 * j,
                    at + 32 * j + 32,
                ),
        decreases count - i,
    {
        out.push(read_digest(bytes, at + 32 * i));
        i += 1;
    }
    assert(digests_bytes(out@) =~= bytes@.subrange(at as int, at + 32 * count)) by {
        assert forall|t: int| 0 <= t < 32 * count implies digests_bytes(out@)[t] == bytes@[at + t] by {
            let j = t / 32;
            assert(out[j].bytes@[t % 32] == bytes@.subrange(at + 32 * j, at + 32 * j + 32)[t % 32]);
        }
    }
    out
}

impl Common {
    /// The wire form of the common data.
    pub fn to_bytes(&self) -> (r: Vec<u8>)
        ensures
            r@ == spec_common_bytes(*self),
    {
        let mut out: Vec<u8> = Vec::new();
        push_le64(&mut out, self.poly_commits.len() as u64);
        write_points(&mut out, &self.poly_commits);
        push_bytes(&mut out, self.all_evals_digest.bytes.as_slice());
        push_le32(&mut out, self.payload_byte_len);
        push_le32(&mut out, self.num_storage_nodes);
        push_le32(&mut out, self.multiplicity);
        assert(out@ =~= spec_common_bytes(*self));
        out
    }

    /// The common data that `bytes` is the wire form of, if it is one.
    pub fn from_bytes(bytes: &[u8]) -> (r: Option<Common>)
        ensures
            r matches Some(common) ==> spec_common_bytes(common) == bytes@,
            r is None ==> forall|common: Common| spec_common_bytes(common) != bytes@,
    {
        if bytes.len() < 52 {
            assert forall|common: Common| spec_common_bytes(common) != bytes@ by {
                assert(spec_common_bytes(common).len() >= 52);
            }
            return None;
        }
        let count = read_le64(bytes, 0);
        if bytes.len() as u128 != 52 + 96 * (count as u128) {
            assert forall|common: Common| spec_common_bytes(common) != bytes@ by {
                let enc = spec_common_bytes(common);
                if enc == bytes@ {
                    assert(enc.subrange(0, 8) =~= le64(common.poly_commits.len() as u64));
                    lemma_le64_injective(common.poly_commits.len() as u64, count);
                    assert(enc.len() == 52 + 96 * common.poly_commits.len());
                }
            }
            return None;
        }
        let count: usize = count as usize;
        let poly_commits = read_points(bytes, 8, count);
        let at: usize = 8 + 96 * count;
        let all_evals_digest = read_digest(bytes, at);
        let payload_byte_len = read_le32(bytes, at + 32);
        let num_storage_nodes = read_le32(bytes, at + 36);
        let multiplicity = read_le32(bytes, at + 40);
        let common = Common {
            poly_commits,
            all_evals_digest,
            payload_byte_len,
            num_storage_nodes,
            multiplicity,
        };
        assert(spec_common_bytes(common) =~= bytes@.subrange(0, 8) + bytes@.subrange(8, at as int)
            + bytes@.subrange(at as int, at + 32) + bytes@.subrange(at + 32, at + 36)
            + bytes@.subrange(at + 36, at + 40) + bytes@.subrange(at + 40, at + 44));
        assert(spec_common_bytes(common) =~= bytes@);
        Some(common)
    }
}

impl Share {
    /// The wire form of the share.
    pub fn to_bytes(&self) -> (r: Vec<u8>)
        ensures
            r@ == spec_share_bytes(*self),
    {
        let mut out: Vec<u8> = Vec::new();
        push_le32(&mut out, self.index);
        push_le64(&mut out, self.evals.len() as u64);
        write_scalars(&mut out, &self.evals);
        push_le64(&mut out, self.aggregate_proofs.len() as u64);
        write_points(&mut out, &self.aggregate_proofs);
        push_le64(&mut out, self.evals_proof.path.len() as u64);
        write_digests(&mut out, &self.evals_proof.path);
        assert(out@ =~= spec_share_bytes(*self));
        out
    }

    /// The share that `bytes` is the wire form of, if it is one.
    pub fn from_bytes(bytes: &[u8]) -> (r: Option<Share>)
        ensures
            r matches Some(share) ==> spec_share_bytes(share) == bytes@,
            r is None ==> forall|share: Share| spec_share_bytes(share) != bytes@,
    {
        let (num_evals, num_proofs, num_nodes) = match share_counts(bytes) {
            None => {
                return None;
            },
            Some(counts) => counts,
        };
        let index = read_le32(bytes, 0);
        let evals = read_scalars(bytes, 12, num_evals);
        let at: usize = 12 + 32 * num_evals;
        let aggregate_proofs = read_points(bytes, at + 8, num_proofs);
        let at2: usize = at + 8 + 96 * num_proofs;
        let path = read_digests(bytes, at2 + 8, num_nodes);
        let share = Share { index, evals, aggregate_proofs, evals_proof: MerkleProof { path } };
        proof {
            lemma_share_bytes_shape(share);
            let enc = spec_share_bytes(share);
            assert(enc =~= enc.subrange(0, 4) + enc.subrange(4, 12) + enc.subrange(12, at as int)
                + enc.subrange(at as int, at + 8) + enc.subrange(at + 8, at2 as int) + enc.subrange(
                at2 as int,
                at2 + 8,
            ) + enc.subrange(at2 + 8, bytes.len() as int));
            assert(bytes@ =~= bytes@.subrange(0, 4) + bytes@.subrange(4, 12) + bytes@.subrange(
                12,
                at as int,
            ) + bytes@.subrange(at as int, at + 8) + bytes@.subrange(at + 8, at2 as int)
                + bytes@.subrange(at2 as int, at2 + 8) + bytes@.subrange(
                at2 + 8,
                bytes.len() as int,
            ));
        }
        Some(share)
    }
}

/// The numbers of values, openings and siblings that `bytes` announces as the
/// wire form of a share, where it is as long as they ask for.
fn share_counts(bytes: &[u8]) -> (r: Option<(usize, usize, usize)>)
    ensures
        r matches Some((e, p, h)) ==> {
            &&& bytes.len() == 28 + 32 * e + 96 * p + 32 * h
            &&& le64(e as u64) == bytes@.subrange(4, 12)
            &&& le64(p as u64) == bytes@.subrange(12 + 32 * e, 20 + 32 * e)
            &&& le64(h as u64) == bytes@.subrange(20 + 32 * e + 96 * p, 28 + 32 * e + 96 * p)
        },
        r is None ==> forall|share: Share| spec_share_bytes(share) != bytes@,
{
    let len: u128 = bytes.len() as u128;
    if len < 28 {
        assert forall|share: Share| spec_share_bytes(share) != bytes@ by {
            lemma_share_bytes_shape(share);
        }
        return None;
    }
    let num_evals = read_le64(bytes, 4);
    if len < 28 + 32 * (num_evals as u128) {
        assert forall|share: Share| spec_share_bytes(share) != bytes@ by {
            lemma_share_bytes_shape(share);
            if spec_share_bytes(share) == bytes@ {
                lemma_le64_injective(share.evals.len() as u64, num_evals);
            }
        }
        return None;
    }
    let at: usize = 12 + 32 * (num_evals as usize);
    let num_proofs = read_le64(bytes, at);
    if len < 28 + 32 * (num_evals as u128) + 96 * (num_proofs as u128) {
        assert forall|share: Share| spec_share_bytes(share) != bytes@ by {
            lemma_share_bytes_shape(share);
            if spec_share_bytes(share) == bytes@ {
                lemma_le64_injective(share.evals.len() as u64, num_evals);
                lemma_le64_injective(share.aggregate_proofs.len() as u64, num_proofs);
            }
        }
        return None;
    }
    let at2: usize = at + 8 + 96 * (num_proofs as usize);
    let num_nodes = read_le64(bytes, at2);
    if len != 28 + 32 * (num_evals as u128) + 96 * (num_proofs as u128) + 32 * (num_nodes as u128) {
        assert forall|share: Share| spec_share_bytes(share) != bytes@ by {
            lemma_share_bytes_shape(share);
            if spec_share_bytes(share) == bytes@ {
                lemma_le64_injective(share.evals.len() as u64, num_evals);
                lemma_le64_injective(share.aggregate_proofs.len() as u64, num_proofs);
                lemma_le64_injective(share.evals_proof.path.len() as u64, num_nodes);
            }
        }
        return None;
    }
    Some((num_evals as usize, num_proofs as usize, num_nodes as usize))
}

/// The places of the parts in the wire form of a share.
pub proof fn lemma_share_bytes_shape(share: Share)
    ensures
        ({
            let enc = spec_share_bytes(share);
            let at = 12 + 32 * share.evals.len();
            let at2 = at + 8 + 96 * share.aggregate_proofs.len();
            let end = at2 + 8 + 32 * share.evals_proof.path.len();
            &&& enc.len() == end
            &&& enc.subrange(0, 4) == le32(share.index)
            &&& enc.subrange(4, 12) == le64(share.evals.len() as u64)
            &&& enc.subrange(12, at) == scalars_bytes(share.evals@)
            &&& enc.subrange(at, at + 8) == le64(share.aggregate_proofs.len() as u64)
            &&& enc.subrange(at + 8, at2) == points_bytes(share.aggregate_proofs@)
            &&& enc.subrange(at2, at2 + 8) == le64(share.evals_proof.path.len() as u64)
            &&& enc.subrange(at2 + 8, end) == digests_bytes(share.evals_proof.path@)
        }),
{
    let enc = spec_share_bytes(share);
    let at = 12 + 32 * share.evals.len();
    let at2 = at + 8 + 96 * share.aggregate_proofs.len();
    let end = at2 + 8 + 32 * share.evals_proof.path.len();
    assert(enc.len() == end);
    assert(enc.subrange(0, 4) =~= le32(share.index));
    assert(enc.subrange(4, 12) =~= le64(share.evals.len() as u64));
    assert(enc.subrange(12, at) =~= scalars_bytes(share.evals@));
    assert(enc.subrange(at, at + 8) =~= le64(share.aggregate_proofs.len() as u64));
    assert(enc.subrange(at + 8, at2) =~= points_bytes(share.aggregate_proofs@));
    assert(enc.subrange(at2, at2 + 8) =~= le64(share.evals_proof.path.len() as u64));
    assert(enc.subrange(at2 + 8, end) =~= digests_bytes(share.evals_proof.path@));
}

/// The wire form tells the common data: two with the same wire form have the
/// same fields.
pub proof fn lemma_common_bytes_injective(a: Common, b: Common)
    requires
        spec_common_bytes(a) == spec_common_bytes(b),
    ensures
        a.poly_commits@ == b.poly_commits@,
        a.all_evals_digest == b.all_evals_digest,
        a.payload_byte_len == b.payload_byte_len,
        a.num_storage_nodes == b.num_storage_nodes,
        a.multiplicity == b.multiplicity,
{
    let x = spec_common_bytes(a);
    let y = spec_common_bytes(b);
    assert(x.subrange(0, 8) =~= le64(a.poly_commits.len() as u64));
    assert(y.subrange(0, 8) =~= le64(b.poly_commits.len() as u64));
    lemma_le64_injective(a.poly_commits.len() as u64, b.poly_commits.len() as u64);
    let count = a.poly_commits.len() as int;
    let at = 8 + 96 * count;
    assert(points_bytes(a.poly_commits@) =~= x.subrange(8, at));
    assert(points_bytes(b.poly_commits@) =~= y.subrange(8, at));
    lemma_points_bytes_injective(a.poly_commits@, b.poly_commits@);
    assert(a.all_evals_digest.bytes@ =~= x.subrange(at, at + 32));
    assert(b.all_evals_digest.bytes@ =~= y.subrange(at, at + 32));
    assert(a.all_evals_digest.bytes =~= b.all_evals_digest.bytes);
    assert(le32(a.payload_byte_len) =~= x.subrange(at + 32, at + 36));
    assert(le32(b.payload_byte_len) =~= y.subrange(at + 32, at + 36));
    assert(le32(a.num_storage_nodes) =~= x.subrange(at + 36, at + 40));
    assert(le32(b.num_storage_nodes) =~= y.subrange(at + 36, at + 40));
    assert(le32(a.multiplicity) =~= x.subrange(at + 40, at + 44));
    assert(le32(b.multiplicity) =~= y.subrange(at + 40, at + 44));
    lemma_le32_injective(a.payload_byte_len, b.payload_byte_len);
    lemma_le32_injective(a.num_storage_nodes, b.num_storage_nodes);
    lemma_le32_injective(a.multiplicity, b.multiplicity);
}

/// Two lists of equally many group elements with the same bytes are the same.
pub proof fn lemma_points_bytes_injective(a: Seq<G1Point>, b: Seq<G1Point>)
    requires
        a.len() == b.len(),
        points_bytes(a) == points_bytes(b),
    ensures
        a == b,
{
    assert forall|j: int| 0 <= j < a.len() implies a[j] == b[j] by {
        assert forall|t: int| 0 <= t < 96 implies a[j].bytes@[t] == b[j].bytes@[t] by {
            let at = 96 * j + t;
            assert(at / 96 == j && at % 96 == t);
            assert(points_bytes(a)[at] == a[j].bytes@[t]);
            assert(points_bytes(b)[at] == b[j].bytes@[t]);
        }
        assert(a[j].bytes =~= b[j].bytes);
    }
    assert(a =~= b);
}

/// Two lists of equally many field elements with the same bytes are the same.
pub proof fn lemma_scalars_bytes_injective(a: Seq<Scalar>, b: Seq<Scalar>)
    requires
        a.len() == b.len(),
        scalars_bytes(a) == scalars_bytes(b),
    ensures
        a == b,
{
    assert forall|j: int| 0 <= j < a.len() implies a[j] == b[j] by {
        assert forall|t: int| 0 <= t < 32 implies a[j].bytes@[t] == b[j].bytes@[t] by {
            let at = 32 * j + t;
            assert(at / 32 == j && at % 32 == t);
            assert(scalars_bytes(a)[at] == a[j].bytes@[t]);
            assert(scalars_bytes(b)[at] == b[j].bytes@[t]);
        }
        assert(a[j].bytes =~= b[j].bytes);
    }
    assert(a =~= b);
}

/// Two lists of equally many digests with the same bytes are the same.
pub proof fn lemma_digests_bytes_injective(a: Seq<HashNode>, b: Seq<HashNode>)
    requires
        a.len() == b.len(),
        digests_bytes(a) == digests_bytes(b),
    ensures
        a == b,
{
    assert forall|j: int| 0 <= j < a.len() implies a[j] == b[j] by {
        assert forall|t: int| 0 <= t < 32 implies a[j].bytes@[t] == b[j].bytes@[t] by {
            let at = 32 * j + t;
            assert(at / 32 == j && at % 32 == t);
            assert(digests_bytes(a)[at] == a[j].bytes@[t]);
            assert(digests_bytes(b)[at] == b[j].bytes@[t]);
        }
        assert(a[j].bytes =~= b[j].bytes);
    }
    assert(a =~= b);
}

/// The wire form tells the share: two with the same wire form have the same
/// fields.
pub proof fn lemma_share_bytes_injective(a: Share, b: Share)
    requires
        spec_share_bytes(a) == spec_share_bytes(b),
    ensures
        a.index == b.index,
        a.evals@ == b.evals@,
        a.aggregate_proofs@ == b.aggregate_proofs@,
        a.evals_proof.path@ == b.evals_proof.path@,
{
    lemma_share_bytes_shape(a);
    lemma_share_bytes_shape(b);
    lemma_le32_injective(a.index, b.index);
    lemma_le64_injective(a.evals.len() as u64, b.evals.len() as u64);
    lemma_scalars_bytes_injective(a.evals@, b.evals@);
    lemma_le64_injective(a.aggregate_proofs.len() as u64, b.aggregate_proofs.len() as u64);
    lemma_points_bytes_injective(a.aggregate_proofs@, b.aggregate_proofs@);
    lemma_le64_injective(a.evals_proof.path.len() as u64, b.evals_proof.path.len() as u64);
    lemma_digests_bytes_injective(a.evals_proof.path@, b.evals_proof.path@);
}

/// Reading what was written gives the common data back: whatever
/// `from_bytes` makes of the wire form of `common` has the fields of `common`.
pub proof fn lemma_common_round_trip(common: Common, read: Option<Common>)
    requires
        read matches Some(c) ==> spec_common_bytes(c) == spec_common_bytes(common),
        read is None ==> forall|c: Common| #[trigger]
            spec_common_bytes(c) != spec_common_bytes(common),
    ensures
        read matches Some(c) && c.poly_commits@ == common.poly_commits@ && c.all_evals_digest
            == common.all_evals_digest && c.payload_byte_len == common.payload_byte_len
            && c.num_storage_nodes == common.num_storage_nodes && c.multiplicity
            == common.multiplicity,
{
    match read {
        Some(c) => {
            lemma_common_bytes_injective(c, common);
        },
        None => {
            let enc = spec_common_bytes(common);
            assert(enc == enc);
            assert(false);
        },
    }
}

/// Reading what was written gives the share back: whatever `from_bytes` makes
/// of the wire form of `share` has the fields of `share`.
pub proof fn lemma_share_round_trip(share: Share, read: Option<Share>)
    requires
        read matches Some(s) ==> spec_share_bytes(s) == spec_share_bytes(share),
        read is None ==> forall|s: Share| #[trigger]
            spec_share_bytes(s) != spec_share_bytes(share),
    ensures
        read matches Some(s) && s.index == share.index && s.evals@ == share.evals@
            && s.aggregate_proofs@ == share.aggregate_proofs@ && s.evals_proof.path@
            == share.evals_proof.path@,
{
    match read {
        Some(s) => {
            lemma_share_bytes_injective(s, share);
        },
        None => {
            let enc = spec_share_bytes(share);
            assert(enc == enc);
            assert(false);
        },
    }
}

} // verus!
