//! The authenticated key/value state: a table of 256 leaf slots, the values
//! behind them, and the Merkle root derived from the slots.

use vstd::prelude::*;

use crate::hashes::{hash_value, leaf_digest};
use crate::merkle::{compute_root, digests_of, merkle_root_spec};

verus! {

/// A 32-byte Merkle root or leaf digest.
pub type RootHash = [u8; 32];

/// How far a value has progressed towards finality.
#[derive(Clone, Copy, Debug, PartialEq, Eq, Structural)]
pub enum FinalizationStatus {
    /// Committed by the sequencer only.
    Trusted,
    /// Mirrored by the DA state, whose root is not finalized.
    DaNotFinalized,
    /// Mirrored by the DA state, whose root is the finalized root.
    DaFinalized,
}

/// The mathematical content of a `Leaves` table: the digest and the value of
/// each of the 256 key slots.
#[verifier::ext_equal]
pub struct LeavesModel {
    pub items: Seq<Seq<u8>>,
    pub values: Seq<u64>,
}

/// Both columns of the table hold exactly one entry per key.
pub open spec fn leaves_wf(m: LeavesModel) -> bool {
    &&& m.items.len() == 256
    &&& m.values.len() == 256
    &&& forall|k: int| 0 <= k < 256 ==> m.items[k].len() == 32
}

/// Every slot holds the digest of its value: the invariant every `State`
/// maintains.
pub open spec fn leaves_consistent(m: LeavesModel) -> bool {
    &&& leaves_wf(m)
    &&& forall|k: int| 0 <= k < 256 ==> m.items[k] == leaf_digest(m.values[k])
}

/// The initial table: every key at value 0 with the digest of 0.
pub open spec fn initial_leaves_model() -> LeavesModel {
    LeavesModel {
        items: Seq::new(256, |k: int| leaf_digest(0)),
        values: Seq::new(256, |k: int| 0u64),
    }
}

/// The leaf table: one digest slot and one value per key (a byte).
pub struct Leaves {
    items: Vec<[u8; 32]>,
    values: Vec<u64>,
}

impl View for Leaves {
    type V = LeavesModel;

    closed spec fn view(&self) -> LeavesModel {
        LeavesModel { items: digests_of(self.items@), values: self.values@ }
    }
}

impl Leaves {
    pub open spec fn wf(&self) -> bool {
        leaves_wf(self@)
    }

    /// A fresh table: every key has value 0 and the digest of value 0.
    pub fn new() -> (r: Self)
        ensures
            leaves_consistent(r@),
            r@ == initial_leaves_model(),
    {
        let zero = hash_value(0);
        let mut items: Vec<[u8; 32]> = Vec::new();
        let mut values: Vec<u64> = Vec::new();
        let mut i: usize = 0;
        while i < 256
            invariant
                i <= 256,
                items@.len() == i,
                values@.len() == i,
                zero@ == leaf_digest(0),
                forall|j: int| 0 <= j < i ==> items@[j]@ == leaf_digest(0),
                forall|j: int| 0 <= j < i ==> values@[j] == 0,
            decreases 256 - i,
        {
            items.push(zero);
            values.push(0);
            i += 1;
        }
        let r = Leaves { items, values };
        proof {
            assert(forall|k: int| 0 <= k < 256 ==> r@.items[k] == r.items@[k]@);
            assert(r@.items =~= initial_leaves_model().items);
            assert(r@.values =~= initial_leaves_model().values);
            assert(r@ =~= initial_leaves_model());
        }
        r
    }

    /// Rebuilds a table from its two columns, as the deserializer does.
    pub fn from_parts(items: Vec<[u8; 32]>, values: Vec<u64>) -> (r: Self)
        requires
            items@.len() == 256,
            values@.len() == 256,
        ensures
            r@.items == crate::merkle::digests_of(items@),
            r@.values == values@,
            leaves_wf(r@),
    {
        let r = Leaves { items, values };
        proof {
            assert(forall|k: int| 0 <= k < 256 ==> r@.items[k] == r.items@[k]@);
        }
        r
    }

    /// Overwrites slot `key` with digest `value`. The value column is left
    /// alone; `State` keeps the two in step.
    pub fn set(&mut self, key: u8, value: [u8; 32])
        requires
            old(self).wf(),
        ensures
            final(self)@.items == old(self)@.items.update(key as int, value@),
            final(self)@.values == old(self)@.values,
    {
        self.items[key as usize] = value;
        proof {
            assert forall|j: int|
                0 <= j < 256 implies digests_of(self.items@)[j] == old(self)@.items.update(
                key as int,
                value@,
            )[j] by {
                assert(digests_of(self.items@)[j] == self.items@[j]@);
                if j != key as int {
                    assert(old(self)@.items[j] == old(self).items@[j]@);
                }
            }
            assert(digests_of(self.items@) =~= old(self)@.items.update(key as int, value@));
        }
    }

    /// Reads the digest at slot `key`.
    pub fn get(&self, key: u8) -> (r: [u8; 32])
        requires
            self.wf(),
        ensures
            r@ == self@.items[key as int],
    {
        self.items[key as usize]
    }

    /// The digest column itself.
    pub fn inner(&self) -> (r: &Vec<[u8; 32]>)
        ensures
            digests_of(r@) == self@.items,
            r@.len() == self@.items.len(),
    {
        &self.items
    }

    /// Reads the value behind slot `key`.
    pub fn value(&self, key: u8) -> (r: u64)
        requires
            self.wf(),
        ensures
            r == self@.values[key as int],
    {
        self.values[key as usize]
    }

    /// Overwrites the value behind slot `key`. The digest column is left
    /// alone; `State` keeps the two in step.
    pub fn set_value(&mut self, key: u8, value: u64)
        requires
            old(self).wf(),
        ensures
            final(self)@.values == old(self)@.values.update(key as int, value),
            final(self)@.items == old(self)@.items,
    {
        self.values[key as usize] = value;
    }
}

/// The three Merkle roots the node tracks.
pub struct Roots {
    /// The latest sequencer root after a successful `trust_block`.
    pub trusted: RootHash,
    /// The latest sequencer root mirrored into DA by `publish_block`.
    pub on_da: RootHash,
    /// The latest DA root declared final by `finalize_block`; never reverted.
    pub on_da_finalized: RootHash,
}

/// The all-zero digest the roots start from.
pub open spec fn zero_digest() -> Seq<u8> {
    Seq::new(32, |i: int| 0u8)
}

impl Default for Roots {
    /// All three roots start as the zero digest.
    fn default() -> (r: Self)
        ensures
            r.trusted@ == zero_digest(),
            r.on_da@ == zero_digest(),
            r.on_da_finalized@ == zero_digest(),
    {
        let z: [u8; 32] = [0u8; 32];
        proof {
            assert(z@ =~= zero_digest());
        }
        Roots { trusted: z, on_da: z, on_da_finalized: z }
    }
}

/// A state transition: one (key, value) change applied to a leaf table.
pub trait StateMachine {
    /// The machine's leaf table is well formed and authenticated.
    spec fn machine_wf(&self) -> bool;

    /// The machine's leaf table.
    spec fn machine_model(&self) -> LeavesModel;

    /// Applies one state change: slot `key` takes `value` and the digest of
    /// `value`.
    fn dispatch(&mut self, key: u8, value: u64)
        requires
            old(self).machine_wf(),
        ensures
            final(self).machine_wf(),
            final(self).machine_model().values == old(self).machine_model().values.update(
                key as int,
                value,
            ),
            final(self).machine_model().items == old(self).machine_model().items.update(
                key as int,
                leaf_digest(value),
            ),
    ;
}

/// One authenticated state: a leaf table and the cached root of its Merkle
/// tree, never out of step across a public operation.
pub struct State {
    leaves: Leaves,
    root: [u8; 32],
}

impl State {
    /// The table as a model.
    pub closed spec fn leaves_model(&self) -> LeavesModel {
        self.leaves@
    }

    /// The cached root as bytes.
    pub closed spec fn root_spec(&self) -> Seq<u8> {
        self.root@
    }

    /// Digests match values, and the cached root is the Merkle root of the
    /// digests.
    pub open spec fn wf(&self) -> bool {
        &&& leaves_consistent(self.leaves_model())
        &&& self.root_spec() == merkle_root_spec(self.leaves_model().items)
    }

    /// A fresh state: all values 0, root of the 256 zero-value digests.
    pub fn new() -> (r: Self)
        ensures
            r.wf(),
            r.leaves_model() == initial_leaves_model(),
    {
        let leaves = Leaves::new();
        let root = compute_root(leaves.inner());
        State { leaves, root }
    }

    /// Recomputes the cached root from the current leaves.
    pub fn update(&mut self)
        requires
            leaves_wf(old(self).leaves_model()),
        ensures
            final(self).leaves_model() == old(self).leaves_model(),
            final(self).root_spec() == merkle_root_spec(final(self).leaves_model().items),
    {
        self.root = compute_root(self.leaves.inner());
    }

    /// The current cached root.
    pub fn root(&self) -> (r: RootHash)
        ensures
            r@ == self.root_spec(),
    {
        self.root
    }

    /// The current leaf table.
    pub fn leaves(&self) -> (r: &Leaves)
        ensures
            r@ == self.leaves_model(),
    {
        &self.leaves
    }

    /// Reads the value behind `key`.
    pub fn value(&self, key: u8) -> (r: u64)
        requires
            leaves_wf(self.leaves_model()),
        ensures
            r == self.leaves_model().values[key as int],
    {
        self.leaves.value(key)
    }

    /// Reads the digest at slot `key`.
    pub fn digest(&self, key: u8) -> (r: [u8; 32])
        requires
            leaves_wf(self.leaves_model()),
        ensures
            r@ == self.leaves_model().items[key as int],
    {
        self.leaves.get(key)
    }

    /// Replaces the whole leaf table and recomputes the root.
    pub fn override_leaves(&mut self, leaves: Leaves)
        requires
            leaves_consistent(leaves@),
        ensures
            final(self).wf(),
            final(self).leaves_model() == leaves@,
    {
        self.leaves = leaves;
        self.update();
    }
}

/// Root determinism: the Merkle root of a well-formed state depends only on
/// the values behind its leaves, not on the order the dispatches that
/// produced them were applied in.
pub proof fn lemma_root_determined_by_values(a: State, b: State)
    requires
        a.wf(),
        b.wf(),
        a.leaves_model().values == b.leaves_model().values,
    ensures
        a.root_spec() == b.root_spec(),
{
    assert(a.leaves_model().items =~= b.leaves_model().items) by {
        assert forall|k: int| 0 <= k < 256 implies a.leaves_model().items[k]
            == b.leaves_model().items[k] by {
            assert(a.leaves_model().items[k] == leaf_digest(a.leaves_model().values[k]));
            assert(b.leaves_model().items[k] == leaf_digest(b.leaves_model().values[k]));
        }
    }
}

impl StateMachine for State {
    open spec fn machine_wf(&self) -> bool {
        self.wf()
    }

    open spec fn machine_model(&self) -> LeavesModel {
        self.leaves_model()
    }

    fn dispatch(&mut self, key: u8, value: u64) {
        let d = hash_value(value);
        self.leaves.set_value(key, value);
        self.leaves.set(key, d);
        self.update();
        proof {
            assert forall|k: int|
                0 <= k < 256 implies self.leaves@.items[k] == leaf_digest(
                self.leaves@.values[k],
            ) by {
                if k != key as int {
                    assert(self.leaves@.items[k] == old(self).leaves@.items[k]);
                    assert(self.leaves@.values[k] == old(self).leaves@.values[k]);
                }
            }
        }
    }
}

} // verus!
