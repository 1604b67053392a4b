use rustchainlib::Block;
use rustchainlib::BlockChain;
use rustchainlib::BlockValidationError;
use rustchainlib::Output;
use rustchainlib::Transaction;
use rustchainlib::check_difficulty;
use rustchainlib::difficulty_bytes_as_u128;
use rustchainlib::make_zero_hash;

const EASY: u128 = u128::MAX;
const MODERATE: u128 = 0x000fffffffffffffffffffffffffffff;

fn out(addr: &str, value: u64) -> Output {
    Output { to_address: addr.to_string(), value }
}

fn tx(inputs: Vec<Output>, outputs: Vec<Output>) -> Transaction {
    Transaction { inputs, outputs }
}

#[test]
fn mined_block_satisfies_difficulty() {
    let mut b = Block::new(0, 1, make_zero_hash(), vec![tx(vec![], vec![out("Alice", 50)])], MODERATE);
    b.mine();
    let recomputed = b.hash();
    assert_eq!(recomputed, b.hash);
    assert!(check_difficulty(&recomputed, b.difficulty));
    assert!(difficulty_bytes_as_u128(&recomputed) < MODERATE);
}

#[test]
fn mining_is_deterministic() {
    let mut a = Block::new(0, 7, make_zero_hash(), vec![tx(vec![], vec![out("Alice", 50)])], MODERATE);
    let mut b = Block::new(0, 7, make_zero_hash(), vec![tx(vec![], vec![out("Alice", 50)])], MODERATE);
    a.mine();
    b.mine();
    assert_eq!(a.nonce, b.nonce);
    assert_eq!(a.hash, b.hash);
}

#[test]
fn accepted_blocks_link_in_order() {
    let mut chain = BlockChain::new();
    let mut genesis = Block::new(0, 1, make_zero_hash(), vec![tx(vec![], vec![out("Alice", 50)])], EASY);
    genesis.mine();
    let genesis_hash = genesis.hash.clone();
    assert_eq!(chain.update_with_block(genesis), Ok(()));
    let mut second = Block::new(1, 2, genesis_hash.clone(), vec![tx(vec![], vec![out("Bob", 3)])], EASY);
    second.mine();
    assert_eq!(chain.update_with_block(second), Ok(()));
    assert_eq!(chain.blocks.len(), 2);
    assert_eq!(chain.blocks[1].previous_block_hash, chain.blocks[0].hash);
    assert_eq!(chain.blocks[0].hash, genesis_hash);
    assert!(chain.blocks[1].timestamp > chain.blocks[0].timestamp);
}

#[test]
fn genesis_with_zero_sentinel_is_accepted() {
    let mut chain = BlockChain::new();
    let mut genesis = Block::new(0, 1, vec![0; 32], vec![tx(vec![], vec![out("Alice", 50)])], EASY);
    genesis.mine();
    assert_eq!(chain.update_with_block(genesis), Ok(()));
    assert_eq!(chain.blocks.len(), 1);
}

#[test]
fn genesis_with_nonzero_sentinel_is_rejected() {
    let mut chain = BlockChain::new();
    let mut genesis = Block::new(0, 1, vec![1; 32], vec![tx(vec![], vec![out("Alice", 50)])], EASY);
    genesis.mine();
    let r = chain.update_with_block(genesis);
    assert_eq!(r, Err(BlockValidationError::InvalidGenesisBlockFormat));
    assert_eq!(chain.blocks.len(), 0);
    assert_eq!(chain.unspent_hashes().len(), 0);
}

#[test]
fn mismatched_index_is_rejected() {
    let mut chain = BlockChain::new();
    let mut stray = Block::new(5, 1, make_zero_hash(), vec![], EASY);
    stray.mine();
    assert_eq!(chain.update_with_block(stray), Err(BlockValidationError::MismatchedIndex));
    assert_eq!(chain.blocks.len(), 0);
}

#[test]
fn unsatisfied_difficulty_is_rejected() {
    let mut chain = BlockChain::new();
    let unmined = Block::new(0, 1, make_zero_hash(), vec![], 0);
    assert_eq!(chain.update_with_block(unmined), Err(BlockValidationError::InvalidHash));
    assert_eq!(chain.blocks.len(), 0);
}

#[test]
fn stale_timestamp_is_rejected() {
    let mut chain = BlockChain::new();
    let mut genesis = Block::new(0, 5, make_zero_hash(), vec![], EASY);
    genesis.mine();
    let genesis_hash = genesis.hash.clone();
    assert_eq!(chain.update_with_block(genesis), Ok(()));
    let mut second = Block::new(1, 5, genesis_hash, vec![], EASY);
    second.mine();
    assert_eq!(chain.update_with_block(second), Err(BlockValidationError::AchronicalTimestamp));
    assert_eq!(chain.blocks.len(), 1);
}

#[test]
fn wrong_previous_hash_is_rejected() {
    let mut chain = BlockChain::new();
    let mut genesis = Block::new(0, 1, make_zero_hash(), vec![], EASY);
    genesis.mine();
    assert_eq!(chain.update_with_block(genesis), Ok(()));
    let mut second = Block::new(1, 2, vec![7; 32], vec![], EASY);
    second.mine();
    assert_eq!(chain.update_with_block(second), Err(BlockValidationError::MismatchedPreviousHash));
    assert_eq!(chain.blocks.len(), 1);
}

#[test]
fn first_transaction_must_be_coinbase() {
    let mut chain = BlockChain::new();
    let mut genesis = Block::new(
        0,
        1,
        make_zero_hash(),
        vec![tx(vec![out("Alice", 50)], vec![out("Bob", 50)])],
        EASY,
    );
    genesis.mine();
    assert_eq!(
        chain.update_with_block(genesis),
        Err(BlockValidationError::InvalidCoinbaseTransaction)
    );
    assert_eq!(chain.blocks.len(), 0);
}

#[test]
fn unknown_input_is_rejected_and_state_kept() {
    let mut chain = BlockChain::new();
    let mut genesis = Block::new(0, 1, make_zero_hash(), vec![tx(vec![], vec![out("Alice", 50)])], EASY);
    genesis.mine();
    let genesis_hash = genesis.hash.clone();
    assert_eq!(chain.update_with_block(genesis), Ok(()));
    let mut second = Block::new(
        1,
        2,
        genesis_hash,
        vec![
            tx(vec![], vec![out("Miner", 1)]),
            tx(vec![out("Dave", 99)], vec![out("Erin", 99)]),
        ],
        EASY,
    );
    second.mine();
    assert_eq!(chain.update_with_block(second), Err(BlockValidationError::InvalidInput));
    assert_eq!(chain.blocks.len(), 1);
    assert_eq!(chain.unspent_hashes().len(), 1);
    assert!(chain.is_unspent(&out("Alice", 50).hash()));
}

#[test]
fn intra_block_double_spend_is_rejected() {
    let mut chain = BlockChain::new();
    let mut genesis = Block::new(0, 1, make_zero_hash(), vec![tx(vec![], vec![out("Alice", 50)])], EASY);
    genesis.mine();
    let genesis_hash = genesis.hash.clone();
    assert_eq!(chain.update_with_block(genesis), Ok(()));
    let mut second = Block::new(
        1,
        2,
        genesis_hash,
        vec![
            tx(vec![], vec![out("Miner", 1)]),
            tx(vec![out("Alice", 50)], vec![out("Bob", 50)]),
            tx(vec![out("Alice", 50)], vec![out("Carol", 50)]),
        ],
        EASY,
    );
    second.mine();
    assert_eq!(chain.update_with_block(second), Err(BlockValidationError::InvalidInput));
    assert_eq!(chain.blocks.len(), 1);
    assert!(chain.is_unspent(&out("Alice", 50).hash()));
}

#[test]
fn excess_output_value_is_rejected_despite_rich_coinbase() {
    let mut chain = BlockChain::new();
    let mut genesis = Block::new(0, 1, make_zero_hash(), vec![tx(vec![], vec![out("Alice", 50)])], EASY);
    genesis.mine();
    let genesis_hash = genesis.hash.clone();
    assert_eq!(chain.update_with_block(genesis), Ok(()));
    let mut second = Block::new(
        1,
        2,
        genesis_hash,
        vec![
            tx(vec![], vec![out("Miner", 1000)]),
            tx(vec![out("Alice", 50)], vec![out("Bob", 60)]),
        ],
        EASY,
    );
    second.mine();
    assert_eq!(chain.update_with_block(second), Err(BlockValidationError::InsufficientInputValue));
    assert_eq!(chain.blocks.len(), 1);
    assert!(chain.is_unspent(&out("Alice", 50).hash()));
}

#[test]
fn coinbase_below_total_fee_is_rejected() {
    let mut chain = BlockChain::new();
    let mut genesis = Block::new(0, 1, make_zero_hash(), vec![tx(vec![], vec![out("Alice", 50)])], EASY);
    genesis.mine();
    let genesis_hash = genesis.hash.clone();
    assert_eq!(chain.update_with_block(genesis), Ok(()));
    let mut second = Block::new(
        1,
        2,
        genesis_hash,
        vec![
            tx(vec![], vec![out("Miner", 1)]),
            tx(vec![out("Alice", 50)], vec![out("Bob", 48)]),
        ],
        EASY,
    );
    second.mine();
    assert_eq!(
        chain.update_with_block(second),
        Err(BlockValidationError::InvalidCoinbaseTransaction)
    );
    assert_eq!(chain.blocks.len(), 1);
}

#[test]
fn settlement_updates_unspent_outputs() {
    let mut chain = BlockChain::new();
    let mut genesis = Block::new(
        0,
        1,
        make_zero_hash(),
        vec![tx(vec![], vec![out("Alice", 50), out("Bob", 7)])],
        EASY,
    );
    genesis.mine();
    let genesis_hash = genesis.hash.clone();
    assert_eq!(chain.update_with_block(genesis), Ok(()));
    assert_eq!(chain.unspent_hashes().len(), 2);
    let mut second = Block::new(
        1,
        2,
        genesis_hash,
        vec![
            tx(vec![], vec![out("Chris", 536)]),
            tx(vec![out("Alice", 50)], vec![out("Alice", 36), out("Bob", 12)]),
        ],
        EASY,
    );
    second.mine();
    assert_eq!(chain.update_with_block(second), Ok(()));
    assert_eq!(chain.blocks.len(), 2);
    assert_eq!(chain.unspent_hashes().len(), 4);
    assert!(!chain.is_unspent(&out("Alice", 50).hash()));
    assert!(chain.is_unspent(&out("Bob", 7).hash()));
    assert!(chain.is_unspent(&out("Alice", 36).hash()));
    assert!(chain.is_unspent(&out("Bob", 12).hash()));
    assert!(chain.is_unspent(&out("Chris", 536).hash()));
}

#[test]
fn empty_transaction_list_is_accepted_without_utxo_effect() {
    let mut chain = BlockChain::new();
    let mut genesis = Block::new(0, 1, make_zero_hash(), vec![], EASY);
    genesis.mine();
    assert_eq!(chain.update_with_block(genesis), Ok(()));
    assert_eq!(chain.blocks.len(), 1);
    assert_eq!(chain.unspent_hashes().len(), 0);
}

#[test]
fn output_bytes_are_address_then_value() {
    let o = out("A", 1);
    assert_eq!(o.bytes(), vec![65u8, 1, 0, 0, 0, 0, 0, 0, 0]);
}

#[test]
fn empty_transaction_digest_matches_sha256() {
    let t = tx(vec![], vec![]);
    assert_eq!(t.bytes(), Vec::<u8>::new());
    assert_eq!(
        hex::encode(t.hash()),
        "e3b0c44298fc1c149afbf4c8996fb92427ae41e4649b934ca495991b7852b855"
    );
}

#[test]
fn block_bytes_concatenate_header_and_transactions() {
    let t = tx(vec![], vec![out("A", 1)]);
    let b = Block::new(2, 3, vec![9; 32], vec![t], 5);
    let mut expected: Vec<u8> = Vec::new();
    expected.extend_from_slice(&2u32.to_le_bytes());
    expected.extend_from_slice(&3u128.to_le_bytes());
    expected.extend_from_slice(&[9u8; 32]);
    expected.extend_from_slice(&0u64.to_le_bytes());
    expected.extend_from_slice(&[65u8, 1, 0, 0, 0, 0, 0, 0, 0]);
    expected.extend_from_slice(&5u128.to_le_bytes());
    assert_eq!(b.bytes(), expected);
}

#[test]
fn transaction_values_and_hashes() {
    let t = tx(
        vec![out("Alice", 50)],
        vec![out("Alice", 36), out("Bob", 12)],
    );
    assert!(!t.is_coinbase());
    assert_eq!(t.input_value(), 50);
    assert_eq!(t.output_value(), 48);
    let ih = t.input_hashes();
    assert_eq!(ih.len(), 1);
    assert_eq!(ih[0], out("Alice", 50).hash());
    let oh = t.output_hashes();
    assert_eq!(oh.len(), 2);
    assert_eq!(oh[0], out("Alice", 36).hash());
    assert_eq!(oh[1], out("Bob", 12).hash());
    assert!(tx(vec![], vec![out("X", 1)]).is_coinbase());
}

#[test]
fn difficulty_value_reads_last_sixteen_bytes_little_endian() {
    let mut h: Vec<u8> = (0u8..32).collect();
    let mut tail = [0u8; 16];
    tail.copy_from_slice(&h[16..32]);
    assert_eq!(difficulty_bytes_as_u128(&h), u128::from_le_bytes(tail));
    h[0] = 0xff;
    assert_eq!(difficulty_bytes_as_u128(&h), u128::from_le_bytes(tail));
    let value = difficulty_bytes_as_u128(&h);
    assert!(check_difficulty(&h, value + 1));
    assert!(!check_difficulty(&h, value));
}

#[test]
fn hash_equality_is_byte_exact() {
    assert!(rustchainlib::hash_eq(&vec![1, 2, 3], &vec![1, 2, 3]));
    assert!(!rustchainlib::hash_eq(&vec![1, 2, 3], &vec![1, 2, 4]));
    assert!(!rustchainlib::hash_eq(&vec![1, 2], &vec![1, 2, 3]));
    assert_eq!(make_zero_hash(), vec![0u8; 32]);
}

#[test]
fn output_hash_is_a_digest_not_the_bytes() {
    let o = out("Alice", 50);
    assert_eq!(o.hash().len(), 32);
    assert_ne!(o.hash(), o.bytes());
    assert_ne!(o.hash(), out("Alice", 51).hash());
}
