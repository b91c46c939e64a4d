//! The binary Merkle tree over the 256 leaf digests, as a spec-level
//! definition and a verified computation of its root.

use vstd::prelude::*;

use crate::hashes::{sha256, sha256_of};

verus! {

/// The digests held by a vector of 32-byte slots, as a sequence of byte
/// sequences.
pub open spec fn digests_of(items: Seq<[u8; 32]>) -> Seq<Seq<u8>> {
    items.map_values(|d: [u8; 32]| d@)
}

/// One level up the tree: each adjacent pair hashed together.
pub open spec fn combine_level(level: Seq<Seq<u8>>) -> Seq<Seq<u8>> {
    Seq::new(level.len() / 2, |i: int| sha256_of(level[2 * i] + level[2 * i + 1]))
}

/// The root of the binary Merkle tree whose bottom level is `level`: levels
/// are combined pairwise until one digest is left. On 256 leaves the tree is
/// perfect and no padding policy is involved.
pub open spec fn merkle_root_spec(level: Seq<Seq<u8>>) -> Seq<u8>
    decreases level.len(),
{
    if level.len() <= 1 {
        if level.len() == 1 {
            level[0]
        } else {
            Seq::<u8>::empty()
        }
    } else {
        merkle_root_spec(combine_level(level))
    }
}

/// Builds the level above the given one, hashing adjacent pairs.
fn halve_level(level: &Vec<[u8; 32]>) -> (r: Vec<[u8; 32]>)
    requires
        level@.len() % 2 == 0,
        level@.len() <= 256,
    ensures
        r@.len() == level@.len() / 2,
        digests_of(r@) == combine_level(digests_of(level@)),
{
    let n = level.len() / 2;
    let mut next: Vec<[u8; 32]> = Vec::new();
    let mut i: usize = 0;
    while i < n
        invariant
            i <= n,
            n == level@.len() / 2,
            level@.len() % 2 == 0,
            level@.len() <= 256,
            next@.len() == i,
            forall|j: int|
                0 <= j < i ==> digests_of(next@)[j] == combine_level(digests_of(level@))[j],
        decreases n - i,
    {
        let mut buf: Vec<u8> = Vec::new();
        crate::hashes::push_bytes(&mut buf, level[2 * i].as_slice());
        crate::hashes::push_bytes(&mut buf, level[2 * i + 1].as_slice());
        proof {
            assert(buf@ =~= level@[2 * i as int]@ + level@[2 * i as int + 1]@);
        }
        let h = sha256(buf.as_slice());
        let ghost prev = next@;
        next.push(h);
        proof {
            assert(digests_of(level@)[2 * i as int] == level@[2 * i as int]@);
            assert(digests_of(level@)[2 * i as int + 1] == level@[2 * i as int + 1]@);
            assert(combine_level(digests_of(level@))[i as int] == sha256_of(
                level@[2 * i as int]@ + level@[2 * i as int + 1]@,
            ));
            assert forall|j: int|
                0 <= j < i + 1 implies digests_of(next@)[j] == combine_level(digests_of(level@))[j] by {
                assert(digests_of(next@)[j] == next@[j]@);
                if j < i {
                    assert(next@[j] == prev[j]);
                    assert(digests_of(prev)[j] == prev[j]@);
                }
            }
        }
        i += 1;
    }
    proof {
        assert(digests_of(next@) =~= combine_level(digests_of(level@)));
    }
    next
}

/// Computes the Merkle root of the 256 leaf digests.
pub fn compute_root(items: &Vec<[u8; 32]>) -> (r: [u8; 32])
    requires
        items@.len() == 256,
    ensures
        r@ == merkle_root_spec(digests_of(items@)),
{
    let mut level: Vec<[u8; 32]> = Vec::new();
    let mut i: usize = 0;
    while i < items.len()
        invariant
            items@.len() == 256,
            level@.len() == i,
            i <= 256,
            forall|j: int| 0 <= j < i ==> level@[j] == items@[j],
        decreases 256 - i,
    {
        level.push(items[i]);
        i += 1;
    }
    proof {
        assert(level@ =~= items@);
    }
    let l1 = halve_level(&level);
    let l2 = halve_level(&l1);
    let l3 = halve_level(&l2);
    let l4 = halve_level(&l3);
    let l5 = halve_level(&l4);
    let l6 = halve_level(&l5);
    let l7 = halve_level(&l6);
    let l8 = halve_level(&l7);
    proof {
        assert(merkle_root_spec(digests_of(level@)) == merkle_root_spec(digests_of(l1@)));
        assert(merkle_root_spec(digests_of(l1@)) == merkle_root_spec(digests_of(l2@)));
        assert(merkle_root_spec(digests_of(l2@)) == merkle_root_spec(digests_of(l3@)));
        assert(merkle_root_spec(digests_of(l3@)) == merkle_root_spec(digests_of(l4@)));
        assert(merkle_root_spec(digests_of(l4@)) == merkle_root_spec(digests_of(l5@)));
        assert(merkle_root_spec(digests_of(l5@)) == merkle_root_spec(digests_of(l6@)));
        assert(merkle_root_spec(digests_of(l6@)) == merkle_root_spec(digests_of(l7@)));
        assert(merkle_root_spec(digests_of(l7@)) == merkle_root_spec(digests_of(l8@)));
        assert(merkle_root_spec(digests_of(l8@)) == digests_of(l8@)[0]);
    }
    let r = l8[0];
    r
}

} // verus!
