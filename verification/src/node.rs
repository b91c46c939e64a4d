//! The node: the pair of authenticated states, the tracked roots, the block
//! counters, and the snapshot store that makes bounded-depth revert possible.

use vstd::prelude::*;

use crate::codec::{dec_bytes, deserialize_leaves, push_dec, ser_spec, serialize_leaves};
use crate::hashes::digest_eq;
use crate::state_machine::{
    leaves_consistent, leaves_wf, FinalizationStatus, Leaves, LeavesModel, Roots, State,
    StateMachine,
};
use crate::storage::{db_contents, db_get, db_insert};
use crate::NodeError;

verus! {

/// The two logical channels: each has its own state, block counter and
/// snapshot history.
#[derive(Clone, Copy, Debug, PartialEq, Eq, Structural)]
pub enum StateType {
    Sequencer,
    DA,
}

/// The bytes of `seq-block-` or `da-block-`.
pub open spec fn block_key_prefix(stream: StateType) -> Seq<u8> {
    match stream {
        StateType::Sequencer => seq![115u8, 101u8, 113u8, 45u8, 98u8, 108u8, 111u8, 99u8, 107u8, 45u8],
        StateType::DA => seq![100u8, 97u8, 45u8, 98u8, 108u8, 111u8, 99u8, 107u8, 45u8],
    }
}

/// The storage key of block `n` on a stream: the prefix and the decimal of
/// `n`.
pub open spec fn block_key_spec(stream: StateType, n: u64) -> Seq<u8> {
    block_key_prefix(stream) + dec_bytes(n as nat)
}

/// The bytes of `seq-current-block` or `da-current-block`.
pub open spec fn current_key_spec(stream: StateType) -> Seq<u8> {
    match stream {
        StateType::Sequencer => seq![
            115u8, 101u8, 113u8, 45u8, 99u8, 117u8, 114u8, 114u8, 101u8, 110u8, 116u8, 45u8, 98u8,
            108u8, 111u8, 99u8, 107u8,
        ],
        StateType::DA => seq![
            100u8, 97u8, 45u8, 99u8, 117u8, 114u8, 114u8, 101u8, 110u8, 116u8, 45u8, 98u8, 108u8,
            111u8, 99u8, 107u8,
        ],
    }
}

proof fn lemma_block_keys_injective(stream: StateType, b1: u64, b2: u64)
    ensures
        block_key_spec(stream, b1) == block_key_spec(stream, b2) ==> b1 == b2,
{
    if block_key_spec(stream, b1) == block_key_spec(stream, b2) {
        let p = block_key_prefix(stream);
        let x = dec_bytes(b1 as nat);
        let y = dec_bytes(b2 as nat);
        assert((p + x).len() == (p + y).len());
        assert(x.len() == y.len());
        assert(x =~= y) by {
            assert forall|j: int| 0 <= j < x.len() implies x[j] == y[j] by {
                assert((p + x)[p.len() + j] == x[j]);
                assert((p + y)[p.len() + j] == y[j]);
            }
        }
        crate::codec::lemma_dec_bytes_injective(b1 as nat, b2 as nat);
    }
}

proof fn lemma_keys_distinct(s1: StateType, s2: StateType, b1: u64, b2: u64)
    ensures
        s1 != s2 ==> block_key_spec(s1, b1) != block_key_spec(s2, b2),
        block_key_spec(s1, b1) != current_key_spec(s2),
        s1 != s2 ==> current_key_spec(s1) != current_key_spec(s2),
{
    let k1 = block_key_spec(s1, b1);
    assert(k1[0] == block_key_prefix(s1)[0]);
    if s1 != s2 {
        let k2 = block_key_spec(s2, b2);
        assert(k2[0] == block_key_prefix(s2)[0]);
        assert(k1[0] != k2[0]);
        assert(current_key_spec(s1)[0] != current_key_spec(s2)[0]);
    }
    // A block key differs from every current key: at the byte after the
    // stream prefix of the shorter name, one spells `block-` and the other
    // `current-`.
    let c2 = current_key_spec(s2);
    if s1 == s2 {
        match s1 {
            StateType::Sequencer => {
                assert(k1[4] == block_key_prefix(s1)[4]);
                assert(k1[4] == 98);
                assert(c2[4] == 99);
            },
            StateType::DA => {
                assert(k1[3] == block_key_prefix(s1)[3]);
                assert(k1[3] == 98);
                assert(c2[3] == 99);
            },
        }
    } else {
        assert(k1[0] != c2[0]);
    }
}

/// Builds the storage key of block `n` on a stream.
fn block_key(stream: StateType, n: u64) -> (r: Vec<u8>)
    ensures
        r@ == block_key_spec(stream, n),
{
    let mut r: Vec<u8> = match stream {
        StateType::Sequencer => vec![115u8, 101u8, 113u8, 45u8, 98u8, 108u8, 111u8, 99u8, 107u8, 45u8],
        StateType::DA => vec![100u8, 97u8, 45u8, 98u8, 108u8, 111u8, 99u8, 107u8, 45u8],
    };
    proof {
        assert(r@ =~= block_key_prefix(stream));
    }
    push_dec(&mut r, n);
    r
}

/// Builds the current-block key of a stream.
fn current_key(stream: StateType) -> (r: Vec<u8>)
    ensures
        r@ == current_key_spec(stream),
{
    let r: Vec<u8> = match stream {
        StateType::Sequencer => vec![
            115u8, 101u8, 113u8, 45u8, 99u8, 117u8, 114u8, 114u8, 101u8, 110u8, 116u8, 45u8, 98u8,
            108u8, 111u8, 99u8, 107u8,
        ],
        StateType::DA => vec![
            100u8, 97u8, 45u8, 99u8, 117u8, 114u8, 114u8, 101u8, 110u8, 116u8, 45u8, 98u8, 108u8,
            111u8, 99u8, 107u8,
        ],
    };
    proof {
        assert(r@ =~= current_key_spec(stream));
    }
    r
}

/// Answers queries about the node's current and historical values.
pub trait StateProvider {
    /// Both leaf tables have their full shape.
    spec fn provider_wf(&self) -> bool;

    /// The current sequencer value of a key.
    spec fn value_at(&self, key: u8) -> u64;

    /// How final the current value of a key is.
    spec fn status_at(&self, key: u8) -> FinalizationStatus;

    /// What a historical query may return for a key at a block: the value of
    /// every valid snapshot stored under that block's key, or 0 when the
    /// snapshot is absent, unreadable or invalid.
    spec fn historical_ok(&self, key: u8, block: u64, r: u64) -> bool;

    /// Returns the value at the given key, or 0 if the key was never set,
    /// and the finalization status of the value.
    fn get(&self, key: u8) -> (r: (u64, FinalizationStatus))
        requires
            self.provider_wf(),
        ensures
            r.0 == self.value_at(key),
            r.1 == self.status_at(key),
    ;

    /// Returns the value at block height for the given key, or 0 if there is
    /// no snapshot for that block.
    fn get_historical(&self, key: u8, block: u64) -> (r: u64)
        ensures
            self.historical_ok(key, block, r),
    ;
}

/// The node: one state per stream, the tracked roots, the block counters,
/// and the snapshot store.
pub struct Node {
    /// The snapshot store.
    pub storage: sled::Db,
    /// The fast, optimistic state.
    pub sequencer_state: State,
    /// The sequencer's block counter; 0 before any block.
    pub sequencer_block_number: u64,
    /// The slow, authoritative state.
    pub da_state: State,
    /// The DA block counter; 0 before any block.
    pub da_block_number: u64,
    /// The tracked roots.
    pub roots: Roots,
    /// The sequencer block at the last finalization; reverts below it are
    /// refused.
    pub finalized_seq_block: u64,
    /// The DA block at the last finalization; reverts below it are refused.
    pub finalized_da_block: u64,
    /// The leaf tables committed so far on the sequencer stream.
    pub seq_history: Ghost<Map<u64, LeavesModel>>,
    /// The leaf tables committed so far on the DA stream.
    pub da_history: Ghost<Map<u64, LeavesModel>>,
}

impl Node {
    /// The snapshot store's contents.
    pub closed spec fn db(&self) -> Map<Seq<u8>, Seq<u8>> {
        db_contents(self.storage)
    }

    /// The leaf tables committed so far on a stream, by block number.
    pub closed spec fn history(&self, stream: StateType) -> Map<u64, LeavesModel> {
        match stream {
            StateType::Sequencer => self.seq_history@,
            StateType::DA => self.da_history@,
        }
    }

    /// The stream's state.
    pub open spec fn state_of(&self, stream: StateType) -> State {
        match stream {
            StateType::Sequencer => self.sequencer_state,
            StateType::DA => self.da_state,
        }
    }

    /// The stream's block counter.
    pub open spec fn block_number_of(&self, stream: StateType) -> u64 {
        match stream {
            StateType::Sequencer => self.sequencer_block_number,
            StateType::DA => self.da_block_number,
        }
    }

    /// The block at which the stream was last finalized; 0 if never. A
    /// revert below it is refused.
    pub closed spec fn finalized_block_of(&self, stream: StateType) -> u64 {
        match stream {
            StateType::Sequencer => self.finalized_seq_block,
            StateType::DA => self.finalized_da_block,
        }
    }

    /// Block `b` of the stream is recorded: the history holds a consistent
    /// table for it and the store holds that table's serialization.
    pub open spec fn block_ok(&self, stream: StateType, b: u64) -> bool {
        &&& self.history(stream).contains_key(b)
        &&& leaves_consistent(self.history(stream)[b])
        &&& self.db().contains_key(block_key_spec(stream, b))
        &&& self.db()[block_key_spec(stream, b)] == ser_spec(self.history(stream)[b])
    }

    /// Every committed block of the stream has a consistent snapshot in the
    /// store, and the history records it.
    pub open spec fn stream_inv(&self, stream: StateType) -> bool {
        forall|b: u64| 1 <= b <= self.block_number_of(stream) ==> #[trigger] self.block_ok(stream, b)
    }

    /// The node's invariant: both states authenticated, every committed
    /// block recoverable, and no counter behind its finalized block.
    pub open spec fn inv(&self) -> bool {
        &&& self.sequencer_state.wf()
        &&& self.da_state.wf()
        &&& self.stream_inv(StateType::Sequencer)
        &&& self.stream_inv(StateType::DA)
        &&& self.finalized_block_of(StateType::Sequencer) <= self.sequencer_block_number
        &&& self.finalized_block_of(StateType::DA) <= self.da_block_number
    }

    /// A fresh node over the given store: both states at all-zero values,
    /// both counters at 0, all roots zero.
    pub fn new(storage: sled::Db) -> (r: Self)
        ensures
            r.inv(),
            r.sequencer_block_number == 0,
            r.da_block_number == 0,
            r.sequencer_state.leaves_model() == crate::state_machine::initial_leaves_model(),
            r.da_state.leaves_model() == crate::state_machine::initial_leaves_model(),
            r.roots.trusted@ == crate::state_machine::zero_digest(),
            r.roots.on_da@ == crate::state_machine::zero_digest(),
            r.roots.on_da_finalized@ == crate::state_machine::zero_digest(),
            r.db() == db_contents(storage),
            r.history(StateType::Sequencer) == Map::<u64, LeavesModel>::empty(),
            r.history(StateType::DA) == Map::<u64, LeavesModel>::empty(),
            r.finalized_block_of(StateType::Sequencer) == 0,
            r.finalized_block_of(StateType::DA) == 0,
    {
        Node {
            storage,
            sequencer_state: State::new(),
            da_state: State::new(),
            roots: Default::default(),
            sequencer_block_number: 0,
            da_block_number: 0,
            finalized_seq_block: 0,
            finalized_da_block: 0,
            seq_history: Ghost(Map::empty()),
            da_history: Ghost(Map::empty()),
        }
    }

    /// Applies one (key, value) change to the named stream's state. No block
    /// is committed and no snapshot is written; the change shows in the
    /// stream's root at once.
    pub fn dispatch_state_change(&mut self, state_type: StateType, key: u8, value: u64)
        requires
            old(self).inv(),
        ensures
            final(self).inv(),
            final(self).state_of(state_type).leaves_model() == crate::driver::apply_one(
                old(self).state_of(state_type).leaves_model(),
                key,
                value,
            ),
            final(self).state_of(other_stream(state_type)) == old(self).state_of(
                other_stream(state_type),
            ),
            final(self).sequencer_block_number == old(self).sequencer_block_number,
            final(self).da_block_number == old(self).da_block_number,
            final(self).roots == old(self).roots,
            final(self).db() == old(self).db(),
            final(self).history(StateType::Sequencer) == old(self).history(StateType::Sequencer),
            final(self).history(StateType::DA) == old(self).history(StateType::DA),
            final(self).finalized_block_of(StateType::Sequencer) == old(self).finalized_block_of(
                StateType::Sequencer,
            ),
            final(self).finalized_block_of(StateType::DA) == old(self).finalized_block_of(
                StateType::DA,
            ),
    {
        match state_type {
            StateType::Sequencer => {
                self.sequencer_state.dispatch(key, value);
            },
            StateType::DA => {
                self.da_state.dispatch(key, value);
            },
        }
        proof {
            assert(final(self).state_of(state_type).leaves_model() =~= crate::driver::apply_one(
                old(self).state_of(state_type).leaves_model(),
                key,
                value,
            ));
            lemma_stream_inv_unchanged(*old(self), *self, StateType::Sequencer);
            lemma_stream_inv_unchanged(*old(self), *self, StateType::DA);
        }
    }

    /// The two states currently agree on their Merkle root.
    pub fn is_state_match(&self) -> (r: bool)
        ensures
            r <==> self.da_state.root_spec() == self.sequencer_state.root_spec(),
    {
        let a = self.da_state.root();
        let b = self.sequencer_state.root();
        digest_eq(&a, &b)
    }

    /// Writes the named stream's current leaves as the snapshot of the given
    /// block, and the stream's current-block counter.
    fn leaves_to_storage(&mut self, state_type: StateType, block_number: u64) -> (r: Result<
        (),
        NodeError,
    >)
        requires
            leaves_consistent(old(self).state_of(state_type).leaves_model()),
        ensures
            r matches Err(e) ==> e == NodeError::Storage,
            final(self).sequencer_state == old(self).sequencer_state,
            final(self).da_state == old(self).da_state,
            final(self).sequencer_block_number == old(self).sequencer_block_number,
            final(self).da_block_number == old(self).da_block_number,
            final(self).roots == old(self).roots,
            final(self).finalized_block_of(StateType::Sequencer) == old(self).finalized_block_of(
                StateType::Sequencer,
            ),
            final(self).finalized_block_of(StateType::DA) == old(self).finalized_block_of(
                StateType::DA,
            ),
            r matches Ok(p) ==> final(self).db() == old(self).db().insert(
                block_key_spec(state_type, block_number),
                ser_spec(old(self).state_of(state_type).leaves_model()),
            ).insert(current_key_spec(state_type), dec_bytes(block_number as nat)),
            r matches Ok(p) ==> final(self).history(state_type) == old(self).history(
                state_type,
            ).insert(block_number, old(self).state_of(state_type).leaves_model()),
            r matches Ok(p) ==> final(self).history(other_stream(state_type)) == old(self).history(
                other_stream(state_type),
            ),
            r matches Err(e) ==> final(self).history(StateType::Sequencer) == old(self).history(
                StateType::Sequencer,
            ) && final(self).history(StateType::DA) == old(self).history(StateType::DA),
    {
        let leaves_bytes = match state_type {
            StateType::Sequencer => serialize_leaves(self.sequencer_state.leaves()),
            StateType::DA => serialize_leaves(self.da_state.leaves()),
        };
        let bkey = block_key(state_type, block_number);
        match db_insert(&mut self.storage, &bkey, &leaves_bytes) {
            Ok(_) => {},
            Err(_) => {
                return Err(NodeError::Storage);
            },
        }
        let ckey = current_key(state_type);
        let mut counter_bytes: Vec<u8> = Vec::new();
        push_dec(&mut counter_bytes, block_number);
        match db_insert(&mut self.storage, &ckey, &counter_bytes) {
            Ok(_) => {},
            Err(_) => {
                return Err(NodeError::Storage);
            },
        }
        match state_type {
            StateType::Sequencer => {
                proof {
                    self.seq_history@ = self.seq_history@.insert(
                        block_number,
                        self.sequencer_state.leaves_model(),
                    );
                }
            },
            StateType::DA => {
                proof {
                    self.da_history@ = self.da_history@.insert(
                        block_number,
                        self.da_state.leaves_model(),
                    );
                }
            },
        }
        Ok(())
    }

    /// Reads and checks the snapshot of the given block of a stream. An `Ok`
    /// is always a consistent table whose serialization is what the store
    /// holds, and it is pinned: it equals every model the stored bytes
    /// serialize.
    fn leaves_from_storage(&self, state_type: StateType, target_block: u64) -> (r: Result<
        Leaves,
        NodeError,
    >)
        ensures
            r matches Err(e) ==> e == NodeError::Storage,
            r matches Ok(l) ==> leaves_consistent(l@) && self.db().contains_key(
                block_key_spec(state_type, target_block),
            ) && self.db()[block_key_spec(state_type, target_block)] == ser_spec(l@),
            forall|m: LeavesModel|
                (self.db().contains_key(block_key_spec(state_type, target_block)) && self.db()[
                    block_key_spec(state_type, target_block)
                ] == #[trigger] ser_spec(m) && leaves_consistent(m)) ==> (r matches Ok(l) ==> l@
                    == m),
    {
        let key = block_key(state_type, target_block);
        let got = match db_get(&self.storage, &key) {
            Ok(v) => v,
            Err(_) => {
                return Err(NodeError::Storage);
            },
        };
        let bytes = match got {
            Some(b) => b,
            None => {
                return Err(NodeError::Storage);
            },
        };
        match deserialize_leaves(&bytes) {
            Some(l) => Ok(l),
            None => Err(NodeError::Storage),
        }
    }

    /// Commits the current sequencer state as a new sequencer block: bumps
    /// the counter, records the root as trusted, writes the snapshot.
    pub fn trust_block(&mut self) -> (r: Result<(), NodeError>)
        requires
            old(self).inv(),
            old(self).sequencer_block_number < u64::MAX,
        ensures
            r matches Ok(p) ==> trust_block_ok(*old(self), *final(self)),
            r matches Err(e) ==> e == NodeError::Storage,
            final(self).sequencer_state == old(self).sequencer_state,
            final(self).da_state == old(self).da_state,
            final(self).sequencer_block_number == old(self).sequencer_block_number + 1,
            final(self).da_block_number == old(self).da_block_number,
            final(self).roots.trusted@ == old(self).sequencer_state.root_spec(),
            final(self).roots.on_da == old(self).roots.on_da,
            final(self).roots.on_da_finalized == old(self).roots.on_da_finalized,
            final(self).finalized_block_of(StateType::Sequencer) == old(self).finalized_block_of(
                StateType::Sequencer,
            ),
            final(self).finalized_block_of(StateType::DA) == old(self).finalized_block_of(
                StateType::DA,
            ),
    {
        let root = self.sequencer_state.root();
        self.sequencer_block_number = self.sequencer_block_number + 1;
        self.roots.trusted = root;
        match self.leaves_to_storage(StateType::Sequencer, self.sequencer_block_number) {
            Ok(_) => {},
            Err(_) => {
                return Err(NodeError::Storage);
            },
        }
        proof {
            lemma_stream_inv_after_write(
                *old(self),
                *self,
                StateType::Sequencer,
                old(self).sequencer_state.leaves_model(),
            );
        }
        Ok(())
    }

    /// Commits the current DA state as a new DA block, mirroring the trusted
    /// sequencer root into `on_da`.
    pub fn publish_block(&mut self) -> (r: Result<(), NodeError>)
        requires
            old(self).inv(),
            old(self).da_block_number < u64::MAX,
        ensures
            r matches Ok(p) ==> publish_block_ok(*old(self), *final(self)),
            r matches Err(e) ==> e == NodeError::Storage,
            final(self).sequencer_state == old(self).sequencer_state,
            final(self).da_state == old(self).da_state,
            final(self).da_block_number == old(self).da_block_number + 1,
            final(self).sequencer_block_number == old(self).sequencer_block_number,
            final(self).roots.on_da == old(self).roots.trusted,
            final(self).roots.trusted == old(self).roots.trusted,
            final(self).roots.on_da_finalized == old(self).roots.on_da_finalized,
            final(self).finalized_block_of(StateType::Sequencer) == old(self).finalized_block_of(
                StateType::Sequencer,
            ),
            final(self).finalized_block_of(StateType::DA) == old(self).finalized_block_of(
                StateType::DA,
            ),
    {
        self.da_block_number = self.da_block_number + 1;
        self.roots.on_da = self.roots.trusted;
        match self.leaves_to_storage(StateType::DA, self.da_block_number) {
            Ok(_) => {},
            Err(_) => {
                return Err(NodeError::Storage);
            },
        }
        proof {
            lemma_stream_inv_after_write(
                *old(self),
                *self,
                StateType::DA,
                old(self).da_state.leaves_model(),
            );
        }
        Ok(())
    }

    /// Declares the current DA root final. Refused while the two states
    /// disagree; idempotent while the DA state does not change.
    pub fn finalize_block(&mut self) -> (r: Result<(), NodeError>)
        requires
            old(self).inv(),
        ensures
            r matches Ok(p) <==> old(self).sequencer_state.root_spec() == old(self).da_state.root_spec(),
            r matches Err(e) ==> e == NodeError::Protocol && *final(self) == *old(self),
            r matches Ok(p) ==> finalize_block_ok(*old(self), *final(self)),
    {
        if !self.is_state_match() {
            return Err(NodeError::Protocol);
        }
        let root = self.da_state.root();
        self.roots.on_da_finalized = root;
        self.finalized_seq_block = self.sequencer_block_number;
        self.finalized_da_block = self.da_block_number;
        proof {
            lemma_stream_inv_unchanged(*old(self), *self, StateType::Sequencer);
            lemma_stream_inv_unchanged(*old(self), *self, StateType::DA);
        }
        Ok(())
    }

    /// Reverts the named stream by `n` blocks, reloading the snapshot of the
    /// target block. Refused if `n` exceeds the current head or the target
    /// lies below the stream's finalized block.
    pub fn revert_blocks(&mut self, state_type: StateType, number_of_blocks_to_revert: u64) -> (r:
        Result<(), NodeError>)
        requires
            old(self).inv(),
        ensures
            (r matches Err(e) && e == NodeError::Protocol) <==> (number_of_blocks_to_revert > old(self).block_number_of(state_type) || old(self).block_number_of(state_type)
                - number_of_blocks_to_revert < old(self).finalized_block_of(state_type)),
            r matches Err(e) ==> *final(self) == *old(self) && (e == NodeError::Protocol || e
                == NodeError::Storage),
            r matches Ok(p) ==> revert_blocks_ok(
                *old(self),
                *final(self),
                state_type,
                number_of_blocks_to_revert,
            ),
    {
        let current_block_number = self.current_block_number(state_type);
        if number_of_blocks_to_revert > current_block_number {
            return Err(NodeError::Protocol);
        }
        let target_block = current_block_number - number_of_blocks_to_revert;
        let finalized = match state_type {
            StateType::Sequencer => self.finalized_seq_block,
            StateType::DA => self.finalized_da_block,
        };
        if target_block < finalized {
            return Err(NodeError::Protocol);
        }
        if target_block == 0 {
            // Block 0 is the state before any block: the initial table.
            let fresh = Leaves::new();
            match state_type {
                StateType::Sequencer => {
                    self.sequencer_state.override_leaves(fresh);
                    self.sequencer_block_number = 0;
                },
                StateType::DA => {
                    self.da_state.override_leaves(fresh);
                    self.da_block_number = 0;
                },
            }
            proof {
                lemma_stream_inv_unchanged(*old(self), *self, StateType::Sequencer);
                lemma_stream_inv_unchanged(*old(self), *self, StateType::DA);
            }
            return Ok(());
        }
        let leaves = match self.leaves_from_storage(state_type, target_block) {
            Ok(l) => l,
            Err(e) => {
                return Err(e);
            },
        };
        proof {
            if target_block >= 1 {
                assert(old(self).block_ok(state_type, target_block));
            }
        }
        match state_type {
            StateType::Sequencer => {
                self.sequencer_state.override_leaves(leaves);
                self.sequencer_block_number = target_block;
            },
            StateType::DA => {
                self.da_state.override_leaves(leaves);
                self.da_block_number = target_block;
            },
        }
        proof {
            lemma_stream_inv_unchanged(*old(self), *self, StateType::Sequencer);
            lemma_stream_inv_unchanged(*old(self), *self, StateType::DA);
        }
        Ok(())
    }

    /// The current head block number of a stream.
    fn current_block_number(&self, state_type: StateType) -> (r: u64)
        ensures
            r == self.block_number_of(state_type),
    {
        match state_type {
            StateType::DA => self.da_block_number,
            StateType::Sequencer => self.sequencer_block_number,
        }
    }
}

/// The other of the two streams.
pub open spec fn other_stream(stream: StateType) -> StateType {
    match stream {
        StateType::Sequencer => StateType::DA,
        StateType::DA => StateType::Sequencer,
    }
}

/// What a successful `trust_block` did.
pub open spec fn trust_block_ok(pre: Node, post: Node) -> bool {
    &&& post.inv()
    &&& post.sequencer_state == pre.sequencer_state
    &&& post.da_state == pre.da_state
    &&& post.sequencer_block_number == pre.sequencer_block_number + 1
    &&& post.da_block_number == pre.da_block_number
    &&& post.roots.trusted@ == pre.sequencer_state.root_spec()
    &&& post.roots.on_da == pre.roots.on_da
    &&& post.roots.on_da_finalized == pre.roots.on_da_finalized
    &&& post.finalized_block_of(StateType::Sequencer) == pre.finalized_block_of(
        StateType::Sequencer,
    )
    &&& post.finalized_block_of(StateType::DA) == pre.finalized_block_of(StateType::DA)
    &&& post.history(StateType::Sequencer) == pre.history(StateType::Sequencer).insert(
        post.sequencer_block_number,
        pre.sequencer_state.leaves_model(),
    )
    &&& post.history(StateType::DA) == pre.history(StateType::DA)
    &&& post.db() == pre.db().insert(
        block_key_spec(StateType::Sequencer, post.sequencer_block_number),
        ser_spec(pre.sequencer_state.leaves_model()),
    ).insert(
        current_key_spec(StateType::Sequencer),
        dec_bytes(post.sequencer_block_number as nat),
    )
}

/// What a successful `publish_block` did.
pub open spec fn publish_block_ok(pre: Node, post: Node) -> bool {
    &&& post.inv()
    &&& post.sequencer_state == pre.sequencer_state
    &&& post.da_state == pre.da_state
    &&& post.da_block_number == pre.da_block_number + 1
    &&& post.sequencer_block_number == pre.sequencer_block_number
    &&& post.roots.on_da == pre.roots.trusted
    &&& post.roots.trusted == pre.roots.trusted
    &&& post.roots.on_da_finalized == pre.roots.on_da_finalized
    &&& post.finalized_block_of(StateType::Sequencer) == pre.finalized_block_of(
        StateType::Sequencer,
    )
    &&& post.finalized_block_of(StateType::DA) == pre.finalized_block_of(StateType::DA)
    &&& post.history(StateType::DA) == pre.history(StateType::DA).insert(
        post.da_block_number,
        pre.da_state.leaves_model(),
    )
    &&& post.history(StateType::Sequencer) == pre.history(StateType::Sequencer)
    &&& post.db() == pre.db().insert(
        block_key_spec(StateType::DA, post.da_block_number),
        ser_spec(pre.da_state.leaves_model()),
    ).insert(current_key_spec(StateType::DA), dec_bytes(post.da_block_number as nat))
}

/// What a successful `finalize_block` did: it requires the two roots to
/// match, records the DA root as finalized, and pins the blocks below which
/// reverts are refused from now on.
pub open spec fn finalize_block_ok(pre: Node, post: Node) -> bool {
    &&& post.inv()
    &&& pre.sequencer_state.root_spec() == pre.da_state.root_spec()
    &&& post.roots.on_da_finalized@ == pre.da_state.root_spec()
    &&& post.roots.trusted == pre.roots.trusted
    &&& post.roots.on_da == pre.roots.on_da
    &&& post.sequencer_state == pre.sequencer_state
    &&& post.da_state == pre.da_state
    &&& post.sequencer_block_number == pre.sequencer_block_number
    &&& post.da_block_number == pre.da_block_number
    &&& post.finalized_block_of(StateType::Sequencer) == pre.sequencer_block_number
    &&& post.finalized_block_of(StateType::DA) == pre.da_block_number
    &&& post.finalized_block_of(StateType::Sequencer) >= pre.finalized_block_of(
        StateType::Sequencer,
    )
    &&& post.finalized_block_of(StateType::DA) >= pre.finalized_block_of(StateType::DA)
    &&& post.history(StateType::Sequencer) == pre.history(StateType::Sequencer)
    &&& post.history(StateType::DA) == pre.history(StateType::DA)
    &&& post.db() == pre.db()
}

/// The table a stream holds once it stands at `target`: the snapshot the
/// history records there, or the initial table for block 0, the state before
/// any block.
pub open spec fn snapshot_or_initial(pre: Node, stream: StateType, target: u64) -> LeavesModel {
    if target >= 1 {
        pre.history(stream)[target]
    } else {
        crate::state_machine::initial_leaves_model()
    }
}

/// What a successful `revert_blocks` did: the stream stands at the target
/// block with the leaves its snapshot holds; nothing else moved.
pub open spec fn revert_blocks_ok(pre: Node, post: Node, stream: StateType, n: u64) -> bool {
    let target = (pre.block_number_of(stream) - n) as u64;
    &&& post.inv()
    &&& n <= pre.block_number_of(stream)
    &&& target >= pre.finalized_block_of(stream)
    &&& post.block_number_of(stream) == target
    &&& post.state_of(stream).wf()
    &&& post.state_of(stream).leaves_model() == snapshot_or_initial(pre, stream, target)
    &&& post.state_of(other_stream(stream)) == pre.state_of(other_stream(stream))
    &&& post.block_number_of(other_stream(stream)) == pre.block_number_of(other_stream(stream))
    &&& post.roots == pre.roots
    &&& post.finalized_block_of(StateType::Sequencer) == pre.finalized_block_of(
        StateType::Sequencer,
    )
    &&& post.finalized_block_of(StateType::DA) == pre.finalized_block_of(StateType::DA)
    &&& post.history(StateType::Sequencer) == pre.history(StateType::Sequencer)
    &&& post.history(StateType::DA) == pre.history(StateType::DA)
    &&& post.db() == pre.db()
}

/// After a write of the next block on `stream`, both stream invariants
/// still hold.
proof fn lemma_stream_inv_after_write(pre: Node, post: Node, stream: StateType, m: LeavesModel)
    requires
        pre.stream_inv(StateType::Sequencer),
        pre.stream_inv(StateType::DA),
        post.block_number_of(stream) == pre.block_number_of(stream) + 1,
        post.block_number_of(other_stream(stream)) == pre.block_number_of(other_stream(stream)),
        post.history(stream) == pre.history(stream).insert(post.block_number_of(stream), m),
        post.history(other_stream(stream)) == pre.history(other_stream(stream)),
        post.db() == pre.db().insert(
            block_key_spec(stream, post.block_number_of(stream)),
            ser_spec(m),
        ).insert(current_key_spec(stream), dec_bytes(post.block_number_of(stream) as nat)),
        leaves_consistent(m),
    ensures
        post.stream_inv(StateType::Sequencer),
        post.stream_inv(StateType::DA),
{
    let nb = post.block_number_of(stream);
    let os = other_stream(stream);
    assert forall|b: u64| 1 <= b <= post.block_number_of(stream) implies #[trigger] post.block_ok(
        stream,
        b,
    ) by {
        lemma_keys_distinct(stream, stream, b, nb);
        lemma_block_keys_injective(stream, b, nb);
        if b != nb {
            assert(pre.block_ok(stream, b));
        }
    }
    assert forall|b: u64| 1 <= b <= post.block_number_of(os) implies #[trigger] post.block_ok(
        os,
        b,
    ) by {
        assert(pre.block_ok(os, b));
        lemma_keys_distinct(os, stream, b, nb);
        assert(stream != os);
    }
}

/// Revert idempotence at depth zero: reverting the sequencer by zero blocks
/// right after a trusted block leaves the sequencer root unchanged.
pub proof fn lemma_trust_then_revert_zero(pre: Node, mid: Node, post: Node)
    requires
        trust_block_ok(pre, mid),
        revert_blocks_ok(mid, post, StateType::Sequencer, 0),
    ensures
        post.state_of(StateType::Sequencer).root_spec() == mid.state_of(
            StateType::Sequencer,
        ).root_spec(),
{
    let target = mid.block_number_of(StateType::Sequencer);
    assert(post.state_of(StateType::Sequencer).leaves_model() == mid.history(
        StateType::Sequencer,
    )[target]);
    assert(mid.history(StateType::Sequencer)[target] == pre.state_of(
        StateType::Sequencer,
    ).leaves_model());
}

/// Reverting a stream restores exactly the root of the snapshot at the
/// target block.
pub proof fn lemma_revert_restores_snapshot(pre: Node, post: Node, stream: StateType, n: u64)
    requires
        revert_blocks_ok(pre, post, stream, n),
        pre.block_number_of(stream) - n >= 1,
    ensures
        post.state_of(stream).root_spec() == crate::merkle::merkle_root_spec(
            pre.history(stream)[(pre.block_number_of(stream) - n) as u64].items,
        ),
{
}

/// Monotone finalization: no node operation moves the finalized DA block
/// back, and the finalized root changes only when `finalize_block` records
/// the current DA root, at a block no earlier than the last finalized one.
pub proof fn lemma_finalization_monotone(pre: Node, post: Node)
    requires
        pre.inv(),
        trust_block_ok(pre, post) || publish_block_ok(pre, post) || finalize_block_ok(pre, post)
            || (exists|stream: StateType, n: u64| revert_blocks_ok(pre, post, stream, n)),
    ensures
        pre.finalized_block_of(StateType::DA) <= post.finalized_block_of(StateType::DA),
        post.roots.on_da_finalized != pre.roots.on_da_finalized ==> (finalize_block_ok(pre, post)
            && post.roots.on_da_finalized@ == pre.da_state.root_spec() && post.finalized_block_of(
            StateType::DA,
        ) == pre.da_block_number >= pre.finalized_block_of(StateType::DA)),
{
}

/// A stream invariant carries over when its history, the store and (up to a
/// decrease) its counter are unchanged.
proof fn lemma_stream_inv_unchanged(pre: Node, post: Node, stream: StateType)
    requires
        pre.stream_inv(stream),
        post.history(stream) == pre.history(stream),
        post.db() == pre.db(),
        post.block_number_of(stream) <= pre.block_number_of(stream),
    ensures
        post.stream_inv(stream),
{
    assert forall|b: u64| 1 <= b <= post.block_number_of(stream) implies #[trigger] post.block_ok(
        stream,
        b,
    ) by {
        assert(pre.block_ok(stream, b));
    }
}

impl StateProvider for Node {
    open spec fn provider_wf(&self) -> bool {
        &&& leaves_wf(self.sequencer_state.leaves_model())
        &&& leaves_wf(self.da_state.leaves_model())
    }

    open spec fn value_at(&self, key: u8) -> u64 {
        self.sequencer_state.leaves_model().values[key as int]
    }

    open spec fn status_at(&self, key: u8) -> FinalizationStatus {
        if self.sequencer_state.leaves_model().items[key as int] == self.da_state.leaves_model()
            .items[key as int] {
            if self.da_state.root_spec() == self.roots.on_da_finalized@ {
                FinalizationStatus::DaFinalized
            } else {
                FinalizationStatus::DaNotFinalized
            }
        } else {
            FinalizationStatus::Trusted
        }
    }

    open spec fn historical_ok(&self, key: u8, block: u64, r: u64) -> bool {
        let bkey = block_key_spec(StateType::Sequencer, block);
        // Either the read failed or found no valid snapshot, and 0 came
        // back; or a valid snapshot is stored and its value came back.
        &&& (r == 0 || exists|m: LeavesModel|
            leaves_consistent(m) && self.db().contains_key(bkey) && self.db()[bkey]
                == #[trigger] ser_spec(m) && r == m.values[key as int])
        &&& forall|m: LeavesModel|
            (self.db().contains_key(bkey) && self.db()[bkey] == #[trigger] ser_spec(m)
                && leaves_consistent(m)) ==> (r == 0 || r == m.values[key as int])
    }

    fn get(&self, key: u8) -> (r: (u64, FinalizationStatus)) {
        let value = self.sequencer_state.value(key);
        let seq_digest = self.sequencer_state.digest(key);
        let da_digest = self.da_state.digest(key);
        let status = if digest_eq(&seq_digest, &da_digest) {
            let da_root = self.da_state.root();
            if digest_eq(&da_root, &self.roots.on_da_finalized) {
                FinalizationStatus::DaFinalized
            } else {
                FinalizationStatus::DaNotFinalized
            }
        } else {
            FinalizationStatus::Trusted
        };
        (value, status)
    }

    fn get_historical(&self, key: u8, block: u64) -> (r: u64) {
        match self.leaves_from_storage(StateType::Sequencer, block) {
            Ok(leaves) => {
                let r = leaves.value(key);
                proof {
                    assert(leaves_consistent(leaves@) && self.db().contains_key(
                        block_key_spec(StateType::Sequencer, block),
                    ) && self.db()[block_key_spec(StateType::Sequencer, block)] == ser_spec(
                        leaves@,
                    ) && r == leaves@.values[key as int]);
                }
                r
            },
            Err(_) => 0,
        }
    }
}

} // verus!
