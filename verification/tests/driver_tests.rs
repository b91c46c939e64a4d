use rollup_node::driver::{apply_batch_to_data_availability, get_state_changes, parse_da_line, run, DaLine};
use rollup_node::node::{Node, StateProvider, StateType};
use rollup_node::NodeError;
use rs_merkle::{algorithms::Sha256, Hasher, MerkleTree};

fn temp_db() -> sled::Db {
    sled::Config::new().temporary(true).open().unwrap()
}

fn lines(texts: &[&str]) -> Vec<Vec<u8>> {
    texts.iter().map(|t| t.as_bytes().to_vec()).collect()
}

fn expected_root(vals: &[u64; 256]) -> [u8; 32] {
    let leaves: Vec<[u8; 32]> = vals.iter().map(|v| Sha256::hash(&v.to_be_bytes())).collect();
    MerkleTree::<Sha256>::from_leaves(&leaves).root().unwrap()
}

#[test]
fn parses_single_and_multiple_pairs() {
    assert_eq!(get_state_changes(&b"1 10".to_vec()), Ok(vec![(1, 10)]));
    assert_eq!(
        get_state_changes(&b"1 10, 2 20, 255 18446744073709551615".to_vec()),
        Ok(vec![(1, 10), (2, 20), (255, u64::MAX)])
    );
}

#[test]
fn rejects_malformed_lines() {
    assert_eq!(get_state_changes(&b"".to_vec()), Err(NodeError::Parse));
    assert_eq!(get_state_changes(&b"1".to_vec()), Err(NodeError::Parse));
    assert_eq!(get_state_changes(&b"1 10,2 20".to_vec()), Err(NodeError::Parse));
    assert_eq!(get_state_changes(&b"256 10".to_vec()), Err(NodeError::Parse));
    assert_eq!(get_state_changes(&b"1 18446744073709551616".to_vec()), Err(NodeError::Parse));
    assert_eq!(get_state_changes(&b"a 10".to_vec()), Err(NodeError::Parse));
    assert_eq!(get_state_changes(&b"1 10, ".to_vec()), Err(NodeError::Parse));
    assert_eq!(get_state_changes(&b" 1 10".to_vec()), Err(NodeError::Parse));
    assert_eq!(get_state_changes(&b"1 10 ".to_vec()), Err(NodeError::Parse));
    assert_eq!(get_state_changes(&b"+1 10".to_vec()), Err(NodeError::Parse));
}

#[test]
fn classifies_da_lines() {
    match parse_da_line(&b"7 77".to_vec()) {
        Ok(DaLine::Batch(v)) => assert_eq!(v, vec![(7, 77)]),
        _ => panic!("a batch line must parse as a batch"),
    }
    match parse_da_line(&b"REORG 2".to_vec()) {
        Ok(DaLine::Reorg(n)) => assert_eq!(n, 2),
        _ => panic!("a REORG line must parse as a directive"),
    }
    assert!(matches!(parse_da_line(&b"REORG 0".to_vec()), Err(NodeError::Parse)));
    assert!(matches!(parse_da_line(&b"REORG".to_vec()), Err(NodeError::Parse)));
    assert!(matches!(parse_da_line(&b"REORG x".to_vec()), Err(NodeError::Parse)));
}

#[test]
fn single_block_no_da_step() {
    let node = run(temp_db(), &lines(&["1 10"]), &lines(&[])).unwrap();
    assert_eq!(node.sequencer_block_number, 1);
    assert_eq!(node.da_block_number, 0);
    let mut vals = [0u64; 256];
    vals[1] = 10;
    assert_eq!(node.roots.trusted, expected_root(&vals));
    assert_eq!(node.roots.on_da, [0u8; 32]);
}

#[test]
fn five_blocks_then_matching_da_batch() {
    let seq = lines(&["1 10", "2 20", "3 30", "4 40", "5 50"]);
    let da = lines(&["1 10, 2 20, 3 30, 4 40, 5 50"]);
    let node = run(temp_db(), &seq, &da).unwrap();
    assert!(node.is_state_match());
    assert_eq!(node.roots.on_da, node.roots.trusted);
    assert_eq!(node.da_block_number, 1);
    assert_eq!(node.sequencer_block_number, 5);
}

#[test]
fn lying_sequencer_is_realigned() {
    let seq = lines(&["1 10", "1 10", "1 10", "1 10", "1 999"]);
    let da = lines(&["1 10"]);
    let node = run(temp_db(), &seq, &da).unwrap();
    assert!(node.is_state_match());
    assert_eq!(node.get(1), (10, rollup_node::state_machine::FinalizationStatus::DaNotFinalized));
    assert_eq!(node.sequencer_block_number, 5);
    assert_eq!(node.da_block_number, 1);
}

#[test]
fn reorg_of_one_replays_one_batch() {
    let mut seq_texts: Vec<String> = Vec::new();
    for i in 1..=20u64 {
        seq_texts.push(format!("1 {}", i));
    }
    let seq: Vec<Vec<u8>> = seq_texts.iter().map(|t| t.as_bytes().to_vec()).collect();
    let da = lines(&["1 5", "1 10", "1 15", "REORG 1", "7 77"]);
    let node = run(temp_db(), &seq, &da).unwrap();
    assert_eq!(node.da_block_number, 3);
    assert_eq!(node.sequencer_block_number, 15);
    assert!(node.is_state_match());
    assert_eq!(node.get(7).0, 77);
    assert_eq!(node.get(1).0, 10);
}

#[test]
fn reorg_deeper_than_head_fails() {
    let seq = lines(&["1 1", "1 2", "1 3", "1 4", "1 5"]);
    let da = lines(&["REORG 1"]);
    match run(temp_db(), &seq, &da) {
        Err(e) => assert_eq!(e, NodeError::Protocol),
        Ok(_) => panic!("a reorg deeper than the DA head must fail"),
    }
}

#[test]
fn reorg_follow_up_must_be_a_batch() {
    let mut seq_texts: Vec<String> = Vec::new();
    for i in 1..=15u64 {
        seq_texts.push(format!("1 {}", i));
    }
    let seq: Vec<Vec<u8>> = seq_texts.iter().map(|t| t.as_bytes().to_vec()).collect();
    let da = lines(&["1 5", "1 10", "REORG 1", "REORG 1"]);
    match run(temp_db(), &seq, &da) {
        Err(e) => assert_eq!(e, NodeError::Protocol),
        Ok(_) => panic!("a REORG directive among the replay lines must fail"),
    }
}

#[test]
fn missing_da_line_fails() {
    let seq = lines(&["1 1", "1 2", "1 3", "1 4", "1 5"]);
    match run(temp_db(), &seq, &lines(&[])) {
        Err(e) => assert_eq!(e, NodeError::Protocol),
        Ok(_) => panic!("an exhausted DA stream must fail"),
    }
}

#[test]
fn malformed_sequencer_line_fails() {
    match run(temp_db(), &lines(&["1 10,2 20"]), &lines(&[])) {
        Err(e) => assert_eq!(e, NodeError::Parse),
        Ok(_) => panic!("a malformed sequencer line must fail"),
    }
}

#[test]
fn widened_spellings_run_like_canonical_ones() {
    let node = run(temp_db(), &lines(&["01  10"]), &lines(&[])).unwrap();
    assert_eq!(node.get(1).0, 10);
    assert_eq!(node.sequencer_block_number, 1);
}

#[test]
fn finalization_advances_and_never_reverts() {
    let mut seq_texts: Vec<String> = Vec::new();
    for i in 1..=42u64 {
        seq_texts.push(format!("1 {}", i));
    }
    let seq: Vec<Vec<u8>> = seq_texts.iter().map(|t| t.as_bytes().to_vec()).collect();
    let mut da_texts: Vec<String> = Vec::new();
    for k in 1..=8u64 {
        da_texts.push(format!("1 {}", 5 * k));
    }
    let da: Vec<Vec<u8>> = da_texts.iter().map(|t| t.as_bytes().to_vec()).collect();
    let node = run(temp_db(), &seq, &da).unwrap();
    assert_eq!(node.da_block_number, 8);
    assert_eq!(node.sequencer_block_number, 42);
    // The root finalized at DA block 8 is the current DA root: the two
    // sequencer-only lines after it did not touch it.
    assert_eq!(node.roots.on_da_finalized, node.da_state.root());
    assert_ne!(node.roots.on_da_finalized, node.sequencer_state.root());
}

#[test]
fn historical_queries_after_a_run() {
    let seq = lines(&["1 10", "2 20", "3 30", "4 40", "5 50"]);
    let da = lines(&["1 10, 2 20, 3 30, 4 40, 5 50"]);
    let node = run(temp_db(), &seq, &da).unwrap();
    assert_eq!(node.get_historical(3, 3), 30);
    assert_eq!(node.get_historical(3, 0), 0);
    assert_eq!(node.get_historical(5, 10), 0);
}

#[test]
fn da_step_counters_balance() {
    let mut node = Node::new(temp_db());
    for i in 1..=5u64 {
        node.dispatch_state_change(StateType::Sequencer, 1, i);
        node.trust_block().unwrap();
    }
    let da = lines(&["1 5"]);
    let next = apply_batch_to_data_availability(&mut node, &da, 0).unwrap();
    assert_eq!(next, 1);
    assert_eq!(node.sequencer_block_number, 5 * node.da_block_number);
    assert!(node.is_state_match());
}

#[test]
fn duplicate_keys_keep_the_last_value() {
    let node = run(temp_db(), &lines(&["1 10, 1 20"]), &lines(&[])).unwrap();
    assert_eq!(node.get(1).0, 20);
}

#[test]
fn empty_input_leaves_a_fresh_node() {
    let node = run(temp_db(), &lines(&[]), &lines(&[])).unwrap();
    assert_eq!(node.sequencer_block_number, 0);
    assert_eq!(node.da_block_number, 0);
    assert_eq!(node.get(0), (0, rollup_node::state_machine::FinalizationStatus::DaNotFinalized));
}

#[test]
fn whitespace_runs_and_leading_zeros_are_accepted() {
    // The separator is one whitespace run, and decimals may carry leading
    // zeros.
    assert_eq!(get_state_changes(&b"1  10".to_vec()), Ok(vec![(1, 10)]));
    assert_eq!(get_state_changes(&b"1\t10".to_vec()), Ok(vec![(1, 10)]));
    assert_eq!(get_state_changes(&b"01 0010".to_vec()), Ok(vec![(1, 10)]));
    assert_eq!(get_state_changes(&b"007 7, 8   8".to_vec()), Ok(vec![(7, 7), (8, 8)]));
    match parse_da_line(&b"REORG  02".to_vec()) {
        Ok(DaLine::Reorg(n)) => assert_eq!(n, 2),
        _ => panic!("a padded REORG directive must parse"),
    }
}

#[test]
fn reorg_of_two_replays_two_batches() {
    let mut seq_texts: Vec<String> = Vec::new();
    for i in 1..=25u64 {
        seq_texts.push(format!("1 {}", i));
    }
    let seq: Vec<Vec<u8>> = seq_texts.iter().map(|t| t.as_bytes().to_vec()).collect();
    let da = lines(&["1 5", "1 10", "1 15", "1 20", "REORG 2", "6 66", "7 77"]);
    let node = run(temp_db(), &seq, &da).unwrap();
    // DA went 4 -> 2 -> replay twice under one publish -> 3; the sequencer
    // went 25 -> 10 -> 20.
    assert_eq!(node.da_block_number, 3);
    assert_eq!(node.sequencer_block_number, 20);
    assert!(node.is_state_match());
    assert_eq!(node.get(6).0, 66);
    assert_eq!(node.get(7).0, 77);
    assert_eq!(node.get(1).0, 10);
}
