//! The node's hash function and the big-endian encoding of values.

use vstd::prelude::*;

verus! {

/// The 32-byte digest that the node's hash function assigns to a byte
/// string. The function itself is outside the library; everything the
/// contracts need is that the digest depends on the input bytes alone.
pub uninterp spec fn sha256_of(data: Seq<u8>) -> Seq<u8>;

/// Relies on rs_merkle::algorithms::Sha256::hash: SHA-256 of the input, a
/// 32-byte digest that is a function of the input bytes alone.
#[verifier::external_body]
pub(crate) fn sha256(data: &[u8]) -> (r: [u8; 32])
    ensures
        r@ == sha256_of(data@),
{
    <rs_merkle::algorithms::Sha256 as rs_merkle::Hasher>::hash(data)
}

/// The 8-byte big-endian encoding of a 64-bit value.
pub open spec fn be64(v: u64) -> Seq<u8> {
    seq![
        (v >> 56) as u8,
        (v >> 48) as u8,
        (v >> 40) as u8,
        (v >> 32) as u8,
        (v >> 24) as u8,
        (v >> 16) as u8,
        (v >> 8) as u8,
        v as u8,
    ]
}

/// The digest a leaf slot holds when its key has the given value.
pub open spec fn leaf_digest(v: u64) -> Seq<u8> {
    sha256_of(be64(v))
}

pub fn u64_be_bytes(v: u64) -> (r: Vec<u8>)
    ensures
        r@ == be64(v),
{
    let mut r: Vec<u8> = Vec::new();
    r.push((v >> 56) as u8);
    r.push((v >> 48) as u8);
    r.push((v >> 40) as u8);
    r.push((v >> 32) as u8);
    r.push((v >> 24) as u8);
    r.push((v >> 16) as u8);
    r.push((v >> 8) as u8);
    r.push(v as u8);
    proof {
        assert(r@ =~= be64(v));
    }
    r
}

/// Computes the leaf digest of a value: the hash of its big-endian bytes.
pub(crate) fn hash_value(v: u64) -> (r: [u8; 32])
    ensures
        r@ == leaf_digest(v),
{
    let bytes = u64_be_bytes(v);
    sha256(bytes.as_slice())
}

/// Byte-for-byte comparison of two digests.
pub fn digest_eq(a: &[u8; 32], b: &[u8; 32]) -> (r: bool)
    ensures
        r <==> a@ == b@,
{
    let mut i: usize = 0;
    while i < 32
        invariant
            i <= 32,
            forall|j: int| 0 <= j < i ==> a@[j] == b@[j],
        decreases 32 - i,
    {
        if a[i] != b[i] {
            return false;
        }
        i += 1;
    }
    proof {
        assert(a@ =~= b@);
    }
    true
}

/// Byte-for-byte comparison of two byte vectors.
pub fn bytes_eq(a: &Vec<u8>, b: &Vec<u8>) -> (r: bool)
    ensures
        r <==> a@ == b@,
{
    if a.len() != b.len() {
        return false;
    }
    let mut i: usize = 0;
    while i < a.len()
        invariant
            i <= a@.len(),
            a@.len() == b@.len(),
            forall|j: int| 0 <= j < i ==> a@[j] == b@[j],
        decreases a@.len() - i,
    {
        if a[i] != b[i] {
            return false;
        }
        i += 1;
    }
    proof {
        assert(a@ =~= b@);
    }
    true
}

/// Appends a byte slice to a vector.
pub(crate) fn push_bytes(out: &mut Vec<u8>, s: &[u8])
    ensures
        final(out)@ == old(out)@ + s@,
{
    let mut i: usize = 0;
    while i < s.len()
        invariant
            i <= s@.len(),
            out@ == old(out)@ + s@.subrange(0, i as int),
        decreases s@.len() - i,
    {
        out.push(s[i]);
        proof {
            assert(out@ =~= old(out)@ + s@.subrange(0, i + 1));
        }
        i += 1;
    }
    proof {
        assert(s@.subrange(0, s@.len() as int) =~= s@);
    }
}

} // verus!
