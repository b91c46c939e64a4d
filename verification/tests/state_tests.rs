use rollup_node::codec::{deserialize_leaves, serialize_leaves};
use rollup_node::state_machine::{State, StateMachine};
use rs_merkle::{algorithms::Sha256, Hasher, MerkleTree};

fn expected_root(vals: &[u64; 256]) -> [u8; 32] {
    let leaves: Vec<[u8; 32]> = vals.iter().map(|v| Sha256::hash(&v.to_be_bytes())).collect();
    MerkleTree::<Sha256>::from_leaves(&leaves).root().unwrap()
}

#[test]
fn fresh_state_root_matches_reference_tree() {
    let state = State::new();
    let vals = [0u64; 256];
    assert_eq!(state.root(), expected_root(&vals));
}

#[test]
fn dispatch_root_matches_reference_tree() {
    let mut state = State::new();
    state.dispatch(1, 10);
    state.dispatch(255, 99);
    let mut vals = [0u64; 256];
    vals[1] = 10;
    vals[255] = 99;
    assert_eq!(state.root(), expected_root(&vals));
}

#[test]
fn root_depends_only_on_final_values() {
    let mut a = State::new();
    a.dispatch(1, 10);
    a.dispatch(2, 20);
    a.dispatch(3, 30);
    let mut b = State::new();
    b.dispatch(3, 30);
    b.dispatch(2, 20);
    b.dispatch(1, 10);
    assert_eq!(a.root(), b.root());
}

#[test]
fn overwritten_key_keeps_last_value() {
    let mut a = State::new();
    a.dispatch(7, 1);
    a.dispatch(7, 2);
    let mut b = State::new();
    b.dispatch(7, 2);
    assert_eq!(a.root(), b.root());
}

#[test]
fn snapshot_round_trip_preserves_root() {
    let mut state = State::new();
    state.dispatch(5, 77);
    state.dispatch(250, u64::MAX);
    let bytes = serialize_leaves(state.leaves());
    let leaves = deserialize_leaves(&bytes).expect("the serializer's output must parse");
    let mut restored = State::new();
    restored.override_leaves(leaves);
    assert_eq!(restored.root(), state.root());
}

#[test]
fn snapshot_text_has_the_documented_shape() {
    let state = State::new();
    let bytes = serialize_leaves(state.leaves());
    let text = String::from_utf8(bytes).expect("snapshots are UTF-8 text");
    assert!(text.starts_with("{\"items\":[["));
    assert!(text.contains("],\"values\":["));
    assert!(text.ends_with("]}"));
    // 256 inner arrays of 32 decimal bytes each.
    assert_eq!(text.matches('[').count(), 2 + 256);
}

#[test]
fn deserialize_rejects_tampered_text() {
    let state = State::new();
    let mut bytes = serialize_leaves(state.leaves());
    assert!(deserialize_leaves(&bytes).is_some());
    // Flip one digit of one digest byte.
    bytes[12] = if bytes[12] == b'9' { b'8' } else { b'9' };
    assert!(deserialize_leaves(&bytes).is_none());
    let garbage = b"{\"items\":[]}".to_vec();
    assert!(deserialize_leaves(&garbage).is_none());
    let empty = Vec::new();
    assert!(deserialize_leaves(&empty).is_none());
}

#[test]
fn leaves_accessors_read_the_slots() {
    let mut state = State::new();
    state.dispatch(9, 1234);
    let leaves = state.leaves();
    assert_eq!(leaves.get(9), Sha256::hash(&1234u64.to_be_bytes()));
    assert_eq!(leaves.value(9), 1234);
    assert_eq!(leaves.inner().len(), 256);
    assert_eq!(leaves.get(8), Sha256::hash(&0u64.to_be_bytes()));
}

#[test]
fn leaves_set_overwrites_one_slot() {
    let mut leaves = rollup_node::state_machine::Leaves::new();
    let digest = Sha256::hash(&42u64.to_be_bytes());
    leaves.set(3, digest);
    assert_eq!(leaves.get(3), digest);
    assert_eq!(leaves.get(4), Sha256::hash(&0u64.to_be_bytes()));
    assert_eq!(leaves.inner()[3], digest);
}
