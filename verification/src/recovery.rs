//! Recovery of a payload from shares.

use crate::advz::{AdvzInternal, Common, Share, VidResult};
use crate::bytes_to_field::{field_to_bytes, spec_field_to_bytes};
use crate::domain::spec_fft;
use crate::error::{ArgumentError, InternalError, VidError};
use crate::field::Scalar;
use crate::reed_solomon::{
    lemma_interpolant_len, point_xs, point_ys, reed_solomon_erasure_decode_rou, spec_decode, Point,
};
use vstd::prelude::*;

verus! {

/// The values of the polynomial `p` that a share holds, each with its
/// code-word position: the node's `l`-th position is `index * m + l`, and the
/// value there stands at `l * num_polys + p` among the share's values.
pub open spec fn share_points(share: Share, m: nat, num_polys: nat, p: nat) -> Seq<Point> {
    Seq::new(
        m,
        |l: int|
            Point {
                index: (share.index * m + l) as u64,
                eval: share.evals[l * num_polys + p],
            },
    )
}

/// The values of the polynomial `p` that the first `count` shares hold, in
/// the order of the shares.
pub open spec fn spec_points(shares: Seq<Share>, m: nat, num_polys: nat, p: nat, count: nat) -> Seq<
    Point,
>
    decreases count,
{
    if count == 0 {
        Seq::empty()
    } else {
        spec_points(shares, m, num_polys, p, (count - 1) as nat) + share_points(
            shares[count - 1],
            m,
            num_polys,
            p,
        )
    }
}

/// The field elements that the first `upto` polynomials give back: each
/// polynomial is decoded from the values that the shares hold of it, and
/// evaluated on the domain of size `chunk_size`. Nothing where a polynomial
/// cannot be decoded.
pub open spec fn spec_recover_elems(
    shares: Seq<Share>,
    m: nat,
    num_polys: nat,
    chunk_size: nat,
    domain_size: nat,
    upto: nat,
) -> Option<Seq<Scalar>>
    decreases upto,
{
    if upto == 0 {
        Some(Seq::empty())
    } else {
        match spec_recover_elems(shares, m, num_polys, chunk_size, domain_size, (upto - 1) as nat) {
            None => None,
            Some(before) => match spec_decode(
                spec_points(shares, m, num_polys, (upto - 1) as nat, shares.len()),
                chunk_size,
                domain_size,
            ) {
                None => None,
                Some(coeffs) => Some(before + spec_fft(chunk_size, coeffs)),
            },
        }
    }
}

/// The first `len` bytes of `bytes`, or all of them where there are fewer.
pub open spec fn truncated(bytes: Seq<u8>, len: nat) -> Seq<u8> {
    if len <= bytes.len() {
        bytes.take(len as int)
    } else {
        bytes
    }
}

/// Once a polynomial among the first `t` cannot be decoded, none of the
/// longer runs of polynomials gives its elements back.
pub proof fn lemma_recover_fails_on(
    shares: Seq<Share>,
    m: nat,
    num_polys: nat,
    chunk_size: nat,
    domain_size: nat,
    t: nat,
    u: nat,
)
    requires
        t <= u,
        spec_recover_elems(shares, m, num_polys, chunk_size, domain_size, t) is None,
    ensures
        spec_recover_elems(shares, m, num_polys, chunk_size, domain_size, u) is None,
    decreases u,
{
    if t < u {
        lemma_recover_fails_on(shares, m, num_polys, chunk_size, domain_size, t, (u - 1) as nat);
    }
}

impl AdvzInternal {
    /// What is wrong with the arguments of `recover_payload`, if anything.
    pub open spec fn recover_argument_error(&self, shares: Seq<Share>, common: Common) -> Option<
        ArgumentError,
    > {
        if shares.len() < self.k() {
            Some(ArgumentError::NotEnoughShares)
        } else if common.num_storage_nodes != self.n() {
            Some(ArgumentError::NumStorageNodesMismatch)
        } else if exists|i: int|
            0 <= i < shares.len() && (#[trigger] shares[i]).evals.len() != shares[0].evals.len() {
            Some(ArgumentError::UnequalEvalsLengths)
        } else if shares[0].evals.len() != self.m() * common.poly_commits.len() {
            Some(ArgumentError::WrongEvalsLength)
        } else {
            None
        }
    }

    /// What `recover_payload` gives: an error for arguments that are out of
    /// order or for a polynomial that cannot be decoded, else the bytes that
    /// the decoded polynomials unpack to, cut to the payload's length.
    pub open spec fn spec_recover_payload(&self, shares: Seq<Share>, common: Common) -> VidResult<
        Seq<u8>,
    > {
        match self.recover_argument_error(shares, common) {
            Some(e) => Err(VidError::Argument(e)),
            None => match spec_recover_elems(
                shares,
                self.m(),
                common.poly_commits.len() as nat,
                self.chunk_size(),
                self.domain_size(),
                common.poly_commits.len() as nat,
            ) {
                None => Err(VidError::Internal(InternalError::ErasureDecode)),
                Some(elems) => Ok(
                    truncated(spec_field_to_bytes(elems), common.payload_byte_len as nat),
                ),
            },
        }
    }

    /// Gathers the values of the polynomial `p` from the shares.
    fn gather_points(&self, shares: &[Share], num_polys: usize, p: usize) -> (r: Vec<Point>)
        requires
            self.wf(),
            p < num_polys,
            forall|i: int|
                0 <= i < shares.len() ==> (#[trigger] shares[i]).evals.len() == self.m() * num_polys,
        ensures
            r@ == spec_points(shares@, self.m(), num_polys as nat, p as nat, shares.len() as nat),
    {
        proof {
            self.lemma_wf();
        }
        let m = self.multiplicity();
        let mut evals: Vec<Point> = Vec::new();
        let mut s: usize = 0;
        while s < shares.len()
            invariant
                s <= shares.len(),
                m == self.m(),
                m >= 1,
                p < num_polys,
                forall|i: int|
                    0 <= i < shares.len() ==> (#[trigger] shares[i]).evals.len() == m * num_polys,
                evals@ == spec_points(shares@, m as nat, num_polys as nat, p as nat, s as nat),
            decreases shares.len() - s,
        {
            let share = &shares[s];
            let ghost before = evals@;
            // extract all evaluations for polynomial p from the share
            let mut l: u32 = 0;
            while l < m
                invariant
                    l <= m,
                    p < num_polys,
                    share.evals.len() == m * num_polys,
                    evals@ == before + share_points(*share, m as nat, num_polys as nat, p as nat).take(
                        l as int,
                    ),
                decreases m - l,
            {
                proof {
                    let a = share.index as int;
                    let b = m as int;
                    let c = l as int;
                    let d = num_polys as int;
                    assert(0 <= a * b + c <= 0xffff_ffff * 0xffff_ffff + 0xffff_ffff)
                        by (nonlinear_arith)
                        requires
                            0 <= a <= 0xffff_ffff,
                            0 <= c < b <= 0xffff_ffff,
                    ;
                    assert(0 <= c * d && c * d + d <= b * d) by (nonlinear_arith)
                        requires
                            0 <= c < b,
                            0 <= d,
                    ;
                }
                let index: u64 = share.index as u64 * m as u64 + l as u64;
                let at: usize = l as usize * num_polys + p;
                let ghost pts = share_points(*share, m as nat, num_polys as nat, p as nat);
                evals.push(Point { index, eval: share.evals[at] });
                proof {
                    assert(pts.take(l + 1) =~= pts.take(l as int).push(pts[l as int]));
                    assert(evals@ =~= before + pts.take(l + 1));
                }
                l += 1;
            }
            proof {
                let pts = share_points(*share, m as nat, num_polys as nat, p as nat);
                assert(pts.take(m as int) =~= pts);
            }
            s += 1;
        }
        evals
    }

    /// Recovers the payload from `shares`. The shares are not checked here.
    pub fn recover_payload(&self, shares: &[Share], common: &Common) -> (r: VidResult<Vec<u8>>)
        requires
            self.wf(),
        ensures
            match self.spec_recover_payload(shares@, *common) {
                Ok(bytes) => r matches Ok(v) && v@ == bytes,
                Err(e) => r matches Err(f) && f == e,
            },
    {
        proof {
            self.lemma_wf();
        }
        if shares.len() < self.recovery_threshold() as usize {
            return Err(VidError::Argument(ArgumentError::NotEnoughShares));
        }
        if common.num_storage_nodes != self.num_storage_nodes() {
            return Err(VidError::Argument(ArgumentError::NumStorageNodesMismatch));
        }
        // all shares must have equal evals len
        let num_evals: usize = shares[0].evals.len();
        let mut i: usize = 0;
        while i < shares.len()
            invariant
                i <= shares.len(),
                shares.len() >= 1,
                shares.len() >= self.k(),
                common.num_storage_nodes == self.n(),
                num_evals == shares[0].evals.len(),
                forall|j: int| 0 <= j < i ==> (#[trigger] shares[j]).evals.len() == num_evals,
            decreases shares.len() - i,
        {
            if shares[i].evals.len() != num_evals {
                assert(shares@[i as int].evals.len() != shares@[0].evals.len());
                return Err(VidError::Argument(ArgumentError::UnequalEvalsLengths));
            }
            i += 1;
        }
        let m = self.multiplicity();
        let num_polys: usize = common.poly_commits.len();
        proof {
            let a = m as int;
            let b = num_polys as int;
            assert(0 <= a * b <= 0xffff_ffff * 0xffff_ffff_ffff_ffff) by (nonlinear_arith)
                requires
                    0 <= a <= 0xffff_ffff,
                    0 <= b <= 0xffff_ffff_ffff_ffff,
            ;
        }
        if num_evals as u128 != m as u128 * num_polys as u128 {
            return Err(VidError::Argument(ArgumentError::WrongEvalsLength));
        }
        assert(self.recover_argument_error(shares@, *common) is None);
        let chunk_size = self.chunk_len();
        let domain_ref = self.multi_open_domain();
        let eval_domain_ref = self.eval_domain();
        let ghost domain = self.domain_size();
        let mut elems: Vec<Scalar> = Vec::new();
        let mut p: usize = 0;
        while p < num_polys
            invariant
                self.wf(),
                p <= num_polys,
                m == self.m(),
                chunk_size == self.chunk_size(),
                domain == self.domain_size(),
                domain_ref.wf(),
                domain_ref.spec_size() == domain,
                eval_domain_ref.wf(),
                eval_domain_ref.spec_size() == chunk_size,
                num_polys == common.poly_commits.len(),
                self.recover_argument_error(shares@, *common) is None,
                forall|j: int|
                    0 <= j < shares.len() ==> (#[trigger] shares[j]).evals.len() == m * num_polys,
                spec_recover_elems(
                    shares@,
                    m as nat,
                    num_polys as nat,
                    chunk_size as nat,
                    domain,
                    p as nat,
                ) == Some(elems@),
            decreases num_polys - p,
        {
            let evals = self.gather_points(shares, num_polys, p);
            let coeffs = match reed_solomon_erasure_decode_rou(evals.as_slice(), chunk_size, domain_ref) {
                None => {
                    proof {
                        lemma_recover_fails_on(
                            shares@,
                            m as nat,
                            num_polys as nat,
                            chunk_size as nat,
                            domain,
                            (p + 1) as nat,
                            num_polys as nat,
                        );
                    }
                    return Err(VidError::Internal(InternalError::ErasureDecode));
                },
                Some(c) => c,
            };
            proof {
                lemma_interpolant_len(
                    point_xs(evals@, chunk_size as nat, domain),
                    point_ys(evals@, chunk_size as nat),
                    chunk_size as nat,
                    chunk_size as nat,
                );
            }
            // back from coefficients to the values that the bytes were packed into
            let mut values = eval_domain_ref.fft(&coeffs);
            let ghost before = elems@;
            let ghost added = values@;
            elems.append(&mut values);
            assert(elems@ =~= before + added);
            p += 1;
        }
        let mut payload = field_to_bytes(elems.as_slice());
        payload.truncate(common.payload_byte_len as usize);
        assert(payload@ =~= truncated(
            spec_field_to_bytes(elems@),
            common.payload_byte_len as nat,
        ));
        Ok(payload)
    }
}

} // verus!
