//! Packing of bytes into field elements and back.
//!
//! An element takes 31 bytes: each string of 31 bytes stands for a number
//! below the field order. The way back gives 31 bytes for every element, so a
//! caller that packed a string whose length is no multiple of 31 cuts the
//! result to the length it had.

use crate::field::{fr_from_le_bytes_mod_order, le_nat, modulus, nat_byte, scalar_of_nat, Scalar};
use vstd::prelude::*;
use vstd::slice::slice_subrange;

verus! {

/// The number of bytes that one field element takes.
pub open spec fn capacity() -> nat {
    31
}

/// The number of elements that `len` bytes are packed into.
pub open spec fn num_elems(len: nat) -> nat {
    (len + 30) / 31
}

/// The `i`-th run of at most 31 bytes of `bytes`.
pub open spec fn chunk_of(bytes: Seq<u8>, i: int) -> Seq<u8> {
    bytes.subrange(
        31 * i,
        if 31 * i + 31 <= bytes.len() {
            31 * i + 31
        } else {
            bytes.len() as int
        },
    )
}

/// The element that a run of bytes is packed into: the number that the bytes
/// stand for, little end first.
pub open spec fn pack(chunk: Seq<u8>) -> Scalar {
    scalar_of_nat(le_nat(chunk) % modulus())
}

/// The elements that `bytes` is packed into.
pub open spec fn spec_bytes_to_field(bytes: Seq<u8>) -> Seq<Scalar> {
    Seq::new(num_elems(bytes.len()), |i: int| pack(chunk_of(bytes, i)))
}

/// The bytes that `elems` unpack to: the 31 low bytes of each.
pub open spec fn spec_field_to_bytes(elems: Seq<Scalar>) -> Seq<u8> {
    Seq::new(31 * elems.len(), |j: int| elems[j / 31].bytes@[j % 31])
}

/// 256 to the power `n`.
pub open spec fn pow256(n: nat) -> nat
    decreases n,
{
    if n == 0 {
        1
    } else {
        256 * pow256((n - 1) as nat)
    }
}

/// A string of `n` bytes stands for a number below `256^n`.
pub proof fn lemma_le_nat_bound(s: Seq<u8>)
    ensures
        le_nat(s) < pow256(s.len()),
    decreases s.len(),
{
    if s.len() > 0 {
        lemma_le_nat_bound(s.drop_first());
    }
}

/// `256^n` grows with `n`.
pub proof fn lemma_pow256_monotonic(a: nat, b: nat)
    requires
        a <= b,
    ensures
        pow256(a) <= pow256(b),
        pow256(a) >= 1,
    decreases b,
{
    if a < b {
        lemma_pow256_monotonic(a, (b - 1) as nat);
    } else if a > 0 {
        lemma_pow256_monotonic((a - 1) as nat, (a - 1) as nat);
    }
}

/// A string of at most 31 bytes stands for a number below the field order.
pub proof fn lemma_chunk_below_modulus(s: Seq<u8>)
    requires
        s.len() <= 31,
    ensures
        le_nat(s) < modulus(),
{
    lemma_le_nat_bound(s);
    lemma_pow256_monotonic(s.len(), 31);
    lemma_pow256_31();
    reveal(modulus);
}

/// The value of `256^31`.
pub proof fn lemma_pow256_31()
    ensures
        pow256(31) == 0x100000000000000000000000000000000000000000000000000000000000000nat,
{
    assert(pow256(0) == 1);
    assert(pow256(1) == 0x100) by {
        reveal_with_fuel(pow256, 2);
    }
    lemma_pow256_step(1, 0x100nat);
    lemma_pow256_step(3, 0x1000000nat);
    lemma_pow256_step(5, 0x10000000000nat);
    lemma_pow256_step(7, 0x100000000000000nat);
    lemma_pow256_step(9, 0x1000000000000000000nat);
    lemma_pow256_step(11, 0x10000000000000000000000nat);
    lemma_pow256_step(13, 0x100000000000000000000000000nat);
    lemma_pow256_step(15, 0x1000000000000000000000000000000nat);
    lemma_pow256_step(17, 0x10000000000000000000000000000000000nat);
    lemma_pow256_step(19, 0x100000000000000000000000000000000000000nat);
    lemma_pow256_step(21, 0x1000000000000000000000000000000000000000000nat);
    lemma_pow256_step(23, 0x10000000000000000000000000000000000000000000000nat);
    lemma_pow256_step(25, 0x100000000000000000000000000000000000000000000000000nat);
    lemma_pow256_step(27, 0x1000000000000000000000000000000000000000000000000000000nat);
    lemma_pow256_step(29, 0x10000000000000000000000000000000000000000000000000000000000nat);
}

/// Two more bytes multiply `256^n` by 65536.
proof fn lemma_pow256_step(n: nat, v: nat)
    requires
        pow256(n) == v,
    ensures
        pow256(n + 2) == 0x10000 * v,
{
    assert(pow256(n + 1) == 256 * pow256(n));
    assert(pow256(n + 2) == 256 * pow256(n + 1));
}

/// The bytes of the number that a string stands for are the bytes of the
/// string, followed by zeros.
pub proof fn lemma_nat_byte_of_le_nat(s: Seq<u8>, i: nat)
    ensures
        nat_byte(le_nat(s), i) == if i < s.len() {
            s[i as int]
        } else {
            0u8
        },
    decreases i,
{
    if s.len() == 0 {
        lemma_nat_byte_of_zero(i);
    } else {
        let rest = s.drop_first();
        assert(le_nat(s) == s[0] as nat + 256 * le_nat(rest));
        assert(le_nat(s) % 256 == s[0] as nat);
        assert(le_nat(s) / 256 == le_nat(rest));
        if i > 0 {
            lemma_nat_byte_of_le_nat(rest, (i - 1) as nat);
        }
    }
}

/// Every byte of zero is zero.
pub proof fn lemma_nat_byte_of_zero(i: nat)
    ensures
        nat_byte(0, i) == 0u8,
    decreases i,
{
    if i > 0 {
        lemma_nat_byte_of_zero((i - 1) as nat);
    }
}

/// The bytes of the element that a run of at most 31 bytes is packed into
/// are the run, followed by zeros.
pub proof fn lemma_pack_bytes(chunk: Seq<u8>, i: int)
    requires
        chunk.len() <= 31,
        0 <= i < 32,
    ensures
        pack(chunk).bytes@[i] == if i < chunk.len() {
            chunk[i]
        } else {
            0u8
        },
{
    lemma_chunk_below_modulus(chunk);
    lemma_nat_byte_of_le_nat(chunk, i as nat);
    let n = le_nat(chunk);
    assert(n % modulus() == n) by {
        vstd::arithmetic::div_mod::lemma_small_mod(n, modulus());
    }
    assert(scalar_of_nat(n).bytes@[i] == nat_byte(n, i as nat)) by {
        reveal(scalar_of_nat);
    }
}

/// Packing, then unpacking, then cutting to the first length gives the bytes
/// back.
pub proof fn lemma_round_trip(bytes: Seq<u8>)
    ensures
        spec_field_to_bytes(spec_bytes_to_field(bytes)).len() >= bytes.len(),
        spec_field_to_bytes(spec_bytes_to_field(bytes)).take(bytes.len() as int) == bytes,
{
    let elems = spec_bytes_to_field(bytes);
    let out = spec_field_to_bytes(elems);
    assert forall|j: int| 0 <= j < bytes.len() implies out[j] == bytes[j] by {
        let i = j / 31;
        let chunk = chunk_of(bytes, i);
        assert(0 <= i < elems.len());
        assert(elems[i] == pack(chunk));
        lemma_pack_bytes(chunk, j % 31);
        assert(chunk[j % 31] == bytes[31 * i + j % 31]);
    }
    assert(out.take(bytes.len() as int) =~= bytes);
}

/// The number of bytes that one field element takes.
pub fn elem_byte_capacity() -> (r: usize)
    ensures
        r == capacity(),
{
    31
}

/// Packs `bytes` into field elements, 31 bytes to each; the last element takes
/// what is left.
pub fn bytes_to_field(bytes: &[u8]) -> (r: Vec<Scalar>)
    ensures
        r@ == spec_bytes_to_field(bytes@),
{
    let mut out: Vec<Scalar> = Vec::new();
    let mut start: usize = 0;
    while start < bytes.len()
        invariant
            start <= bytes.len(),
            start == 31 * out.len() || start == bytes.len(),
            out.len() == num_elems(start as nat),
            forall|i: int| 0 <= i < out.len() ==> out[i] == pack(chunk_of(bytes@, i)),
        decreases bytes.len() - start,
    {
        let end: usize = if bytes.len() - start >= 31 {
            start + 31
        } else {
            bytes.len()
        };
        let chunk = slice_subrange(bytes, start, end);
        assert(chunk@ == chunk_of(bytes@, out.len() as int));
        out.push(fr_from_le_bytes_mod_order(chunk));
        start = end;
    }
    assert(out@ =~= spec_bytes_to_field(bytes@));
    out
}

/// Unpacks field elements into bytes: the 31 low bytes of each, in order.
pub fn field_to_bytes(elems: &[Scalar]) -> (r: Vec<u8>)
    ensures
        r@ == spec_field_to_bytes(elems@),
{
    let mut out: Vec<u8> = Vec::new();
    let mut i: usize = 0;
    while i < elems.len()
        invariant
            i <= elems.len(),
            out.len() == 31 * i,
            forall|j: int| 0 <= j < out.len() ==> out[j] == elems[j / 31].bytes@[j % 31],
        decreases elems.len() - i,
    {
        let mut b: usize = 0;
        while b < 31
            invariant
                i < elems.len(),
                b <= 31,
                out.len() == 31 * i + b,
                forall|j: int| 0 <= j < out.len() ==> out[j] == elems[j / 31].bytes@[j % 31],
            decreases 31 - b,
        {
            out.push(elems[i].bytes[b]);
            b += 1;
        }
        i += 1;
    }
    assert(out@ =~= spec_field_to_bytes(elems@));
    out
}

} // verus!
