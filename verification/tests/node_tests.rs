use rollup_node::node::{Node, StateProvider, StateType};
use rollup_node::state_machine::FinalizationStatus;
use rollup_node::NodeError;

fn temp_db() -> sled::Db {
    sled::Config::new().temporary(true).open().unwrap()
}

#[test]
fn fresh_node_starts_at_block_zero() {
    let node = Node::new(temp_db());
    assert_eq!(node.sequencer_block_number, 0);
    assert_eq!(node.da_block_number, 0);
    assert_eq!(node.roots.trusted, [0u8; 32]);
    assert_eq!(node.roots.on_da, [0u8; 32]);
    assert_eq!(node.roots.on_da_finalized, [0u8; 32]);
    assert!(node.is_state_match());
}

#[test]
fn trust_block_records_the_sequencer_root() {
    let mut node = Node::new(temp_db());
    node.dispatch_state_change(StateType::Sequencer, 1, 10);
    node.trust_block().unwrap();
    assert_eq!(node.sequencer_block_number, 1);
    assert_eq!(node.roots.trusted, node.sequencer_state.root());
    assert!(!node.is_state_match());
}

#[test]
fn publish_block_mirrors_the_trusted_root() {
    let mut node = Node::new(temp_db());
    node.dispatch_state_change(StateType::Sequencer, 1, 10);
    node.trust_block().unwrap();
    node.dispatch_state_change(StateType::DA, 1, 10);
    assert!(node.is_state_match());
    node.publish_block().unwrap();
    assert_eq!(node.da_block_number, 1);
    assert_eq!(node.roots.on_da, node.roots.trusted);
}

#[test]
fn revert_zero_blocks_keeps_the_root() {
    let mut node = Node::new(temp_db());
    node.dispatch_state_change(StateType::Sequencer, 1, 10);
    node.trust_block().unwrap();
    let root = node.sequencer_state.root();
    node.revert_blocks(StateType::Sequencer, 0).unwrap();
    assert_eq!(node.sequencer_state.root(), root);
    assert_eq!(node.sequencer_block_number, 1);
}

#[test]
fn revert_one_block_restores_the_prior_root() {
    let mut node = Node::new(temp_db());
    node.dispatch_state_change(StateType::Sequencer, 1, 10);
    node.trust_block().unwrap();
    let root_at_one = node.sequencer_state.root();
    node.dispatch_state_change(StateType::Sequencer, 2, 20);
    node.trust_block().unwrap();
    assert_ne!(node.sequencer_state.root(), root_at_one);
    node.revert_blocks(StateType::Sequencer, 1).unwrap();
    assert_eq!(node.sequencer_state.root(), root_at_one);
    assert_eq!(node.sequencer_block_number, 1);
}

#[test]
fn revert_deeper_than_head_is_a_protocol_error() {
    let mut node = Node::new(temp_db());
    node.trust_block().unwrap();
    assert_eq!(node.revert_blocks(StateType::Sequencer, 2), Err(NodeError::Protocol));
    assert_eq!(node.revert_blocks(StateType::DA, 1), Err(NodeError::Protocol));
}

#[test]
fn revert_to_block_zero_restores_the_initial_state() {
    let mut node = Node::new(temp_db());
    let fresh_root = node.sequencer_state.root();
    node.dispatch_state_change(StateType::Sequencer, 1, 10);
    node.trust_block().unwrap();
    node.revert_blocks(StateType::Sequencer, 1).unwrap();
    assert_eq!(node.sequencer_block_number, 0);
    assert_eq!(node.sequencer_state.root(), fresh_root);
}

#[test]
fn revert_below_finalized_block_is_a_protocol_error() {
    let mut node = Node::new(temp_db());
    for i in 1..=3u64 {
        node.dispatch_state_change(StateType::Sequencer, 1, i);
        node.dispatch_state_change(StateType::DA, 1, i);
        node.trust_block().unwrap();
        node.publish_block().unwrap();
    }
    node.finalize_block().unwrap();
    assert_eq!(node.revert_blocks(StateType::DA, 1), Err(NodeError::Protocol));
    assert_eq!(node.revert_blocks(StateType::Sequencer, 1), Err(NodeError::Protocol));
    assert_eq!(node.revert_blocks(StateType::DA, 0), Ok(()));
}

#[test]
fn finalize_is_refused_while_roots_differ() {
    let mut node = Node::new(temp_db());
    node.dispatch_state_change(StateType::Sequencer, 1, 10);
    assert_eq!(node.finalize_block(), Err(NodeError::Protocol));
    assert_eq!(node.roots.on_da_finalized, [0u8; 32]);
}

#[test]
fn finalize_records_the_da_root_and_is_idempotent() {
    let mut node = Node::new(temp_db());
    node.dispatch_state_change(StateType::Sequencer, 1, 10);
    node.dispatch_state_change(StateType::DA, 1, 10);
    node.finalize_block().unwrap();
    let first = node.roots.on_da_finalized;
    assert_eq!(first, node.da_state.root());
    node.finalize_block().unwrap();
    assert_eq!(node.roots.on_da_finalized, first);
}

#[test]
fn get_reports_value_and_status() {
    let mut node = Node::new(temp_db());
    node.dispatch_state_change(StateType::Sequencer, 1, 10);
    assert_eq!(node.get(1), (10, FinalizationStatus::Trusted));
    node.dispatch_state_change(StateType::DA, 1, 10);
    assert_eq!(node.get(1), (10, FinalizationStatus::DaNotFinalized));
    node.finalize_block().unwrap();
    assert_eq!(node.get(1), (10, FinalizationStatus::DaFinalized));
    assert_eq!(node.get(2), (0, FinalizationStatus::DaFinalized));
}

#[test]
fn get_historical_reads_old_snapshots() {
    let mut node = Node::new(temp_db());
    for i in 1..=3u64 {
        node.dispatch_state_change(StateType::Sequencer, 3, i * 10);
        node.trust_block().unwrap();
    }
    assert_eq!(node.get_historical(3, 1), 10);
    assert_eq!(node.get_historical(3, 2), 20);
    assert_eq!(node.get_historical(3, 3), 30);
    assert_eq!(node.get_historical(3, 0), 0);
    assert_eq!(node.get_historical(3, 10), 0);
}

#[test]
fn corrupted_snapshot_is_a_storage_error() {
    let db = temp_db();
    db.insert("seq-block-2", "not a snapshot").unwrap();
    let mut node = Node::new(db);
    node.trust_block().unwrap();
    // Point the head past the corrupted entry and ask for it back.
    node.sequencer_block_number = 2;
    assert_eq!(node.revert_blocks(StateType::Sequencer, 0), Err(NodeError::Storage));
}
