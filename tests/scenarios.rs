use utxo_chain::block::{Block, BlockError, DIFFICULTY, MAX_BLOCK_SIZE};
use utxo_chain::hash::hash_starts_with_zero_bits;
use utxo_chain::ledger::Ledger;
use utxo_chain::mempool::MempoolEntry;
use utxo_chain::miner::Miner;
use utxo_chain::node::{Node, NodeError};
use utxo_chain::transaction::{Transaction, TxInput, TxOutput, BLOCK_REWARD};
use utxo_chain::wallet::{select_coins, Wallet, WalletError, GAP_LIMIT};

const DATE: &[u8] = b"2024-01-01 00:00:00";
const MINER_SEED: &[u8] = b"miner seed";

fn fresh_node() -> Node {
    Node::new(Miner::new(MINER_SEED), Ledger::new())
}

fn balance_of(node: &Node, address: &Vec<u8>) -> Vec<u64> {
    node.ledger()
        .get_utxos_for_addresses(&vec![address.clone()])
        .iter()
        .map(|u| u.output.value)
        .collect()
}

fn pay(node: &Node, wallet: &mut Wallet, to: &Vec<u8>, value: u64, fee: u64) -> MempoolEntry {
    wallet
        .send_tx(node.ledger(), vec![TxOutput { value, address: to.clone() }], fee, None, DATE.to_vec())
        .unwrap()
}

#[test]
fn genesis_mine() {
    let mut node = fresh_node();
    let block = node.mine(DATE.to_vec(), 1_000_000).unwrap();
    assert_eq!(node.height(), 1);
    assert_eq!(block.header.prev_block_hash, [0u8; 32]);
    assert_eq!(block.transactions.len(), 1);
    let coinbase = &block.transactions[0];
    assert!(coinbase.is_coinbase());
    assert_eq!(coinbase.outputs.len(), 1);
    assert_eq!(coinbase.outputs[0].value, 1_000_000);
    let expected = Wallet::new(MINER_SEED).branch_key(0, 0).get_address();
    assert_eq!(coinbase.outputs[0].address, expected);
    assert!(hash_starts_with_zero_bits(&block.id(), DIFFICULTY));
    assert!(block.validate().is_ok());
}

fn after_transfer() -> (Node, Wallet, Vec<u8>, MempoolEntry) {
    let mut node = fresh_node();
    node.mine(DATE.to_vec(), 1_000_000).unwrap();
    let mut alice = Wallet::new(b"alice");
    let a = alice.get_receive_addr();
    let mut sender = node.miner.wallet.clone();
    let entry = pay(&node, &mut sender, &a, 300_000, 10_000);
    node.receive_transaction(entry.tx.clone()).unwrap();
    (node, sender, a, entry)
}

#[test]
fn simple_transfer() {
    let (mut node, sender, a, entry) = after_transfer();
    assert_eq!(entry.tx.outputs.len(), 2);
    assert_eq!(entry.tx.outputs[1].value, 690_000);
    assert!(entry.tx.validate());
    let block = node.mine(DATE.to_vec(), 1_000_000).unwrap();
    assert_eq!(block.transactions.len(), 2);
    assert_eq!(block.transactions[0].outputs[0].value, BLOCK_REWARD + 10_000);
    assert_eq!(balance_of(&node, &a), vec![300_000]);
    assert_eq!(balance_of(&node, &entry.tx.outputs[1].address), vec![690_000]);
    assert_eq!(balance_of(&node, &block.transactions[0].outputs[0].address), vec![1_010_000]);
    assert!(node.is_mempool_empty());
    assert_eq!(sender.calculate_balance(node.ledger()), 690_000 + 1_010_000);
    let picked = sender.select_utxos(node.ledger(), 700_000).unwrap();
    assert_eq!(picked.len(), 1);
    assert_eq!(picked[0].output.value, 1_010_000);
    let both = sender.select_utxos(node.ledger(), 1_010_001).unwrap();
    assert_eq!(both.iter().map(|u| u.output.value).collect::<Vec<_>>(), vec![1_010_000, 690_000]);
    assert!(sender.select_utxos(node.ledger(), 1_700_001).is_none());
    let sorted = utxo_chain::wallet::sort_by_value_desc(sender.get_wallet_utxos(node.ledger()));
    assert_eq!(sorted.iter().map(|u| u.output.value).collect::<Vec<_>>(), vec![1_010_000, 690_000]);
}

#[test]
fn double_spend_rejection() {
    let (mut node, _sender, _a, _entry) = after_transfer();
    let mut bob = Wallet::new(b"bob");
    let b = bob.get_receive_addr();
    let mut second_sender = node.miner.wallet.clone();
    let second = pay(&node, &mut second_sender, &b, 200_000, 10_000);
    assert_eq!(node.receive_transaction(second.tx), Err(NodeError::UnknownInput));
}

#[test]
fn bad_signature() {
    let mut node = fresh_node();
    node.mine(DATE.to_vec(), 1_000_000).unwrap();
    let mut alice = Wallet::new(b"alice");
    let a = alice.get_receive_addr();
    let mut sender = node.miner.wallet.clone();
    let entry = pay(&node, &mut sender, &a, 300_000, 10_000);
    let mut forged: Transaction = entry.tx.clone();
    forged.inputs[0].signature[0] ^= 1;
    assert_eq!(node.receive_transaction(forged), Err(NodeError::InvalidSignature));
    assert!(node.is_mempool_empty());
}

#[test]
fn rollback_restores() {
    let (mut node, _sender, a, entry) = after_transfer();
    let utxos_before: Vec<u64> = balance_of(&node, &node.ledger().get_utxos_for_addresses(&vec![]).iter().map(|u| u.output.address.clone()).next().unwrap_or_default());
    assert!(utxos_before.is_empty());
    let block = node.mine(DATE.to_vec(), 1_000_000).unwrap();
    assert_eq!(balance_of(&node, &a), vec![300_000]);
    node.rollback_blocks(1).unwrap();
    assert_eq!(node.height(), 1);
    assert!(!node.has_block(&block.id()));
    assert!(balance_of(&node, &a).is_empty());
    assert!(balance_of(&node, &block.transactions[0].outputs[0].address).is_empty());
    assert_eq!(node.mempool().len(), 1);
    assert_eq!(node.mempool()[0].tx.id(), entry.tx.id());
    let genesis_address = Wallet::new(MINER_SEED).branch_key(0, 0).get_address();
    assert_eq!(balance_of(&node, &genesis_address), vec![1_000_000]);
}

#[test]
fn rollback_count_bounds() {
    let mut node = fresh_node();
    node.mine(DATE.to_vec(), 1_000_000).unwrap();
    node.mine(DATE.to_vec(), 1_000_000).unwrap();
    assert_eq!(node.rollback_blocks(0), Err(NodeError::InvalidRollbackCount));
    assert_eq!(node.rollback_blocks(2), Err(NodeError::InvalidRollbackCount));
    assert_eq!(node.height(), 2);
    assert_eq!(node.rollback_blocks(1), Ok(()));
    assert_eq!(node.height(), 1);
}

#[test]
fn coin_selection_boundary() {
    let mut node = fresh_node();
    node.mine(DATE.to_vec(), 1_000_000).unwrap();
    node.mine(DATE.to_vec(), 1_000_000).unwrap();
    let utxos = node.miner.wallet.get_wallet_utxos(node.ledger());
    assert_eq!(utxos.len(), 2);
    let sum: u64 = utxos.iter().map(|u| u.output.value).sum();
    assert_eq!(select_coins(&utxos, sum).map(|v| v.len()), Some(2));
    assert!(select_coins(&utxos, sum + 1).is_none());
    assert_eq!(select_coins(&utxos, 1).map(|v| v.len()), Some(1));
    let mut w = node.miner.wallet.clone();
    let mut bob = Wallet::new(b"bob");
    let b = bob.get_receive_addr();
    let r = w.send_tx(node.ledger(), vec![TxOutput { value: sum, address: b.clone() }], 1, None, DATE.to_vec());
    assert_eq!(r.unwrap_err(), WalletError::InsufficientFunds);
    let bad = w.send_tx(node.ledger(), vec![TxOutput { value: 1, address: b"nope".to_vec() }], 0, None, DATE.to_vec());
    assert_eq!(bad.unwrap_err(), WalletError::InvalidOutputAddress);
}

#[test]
fn discovery_without_usage() {
    let ledger = Ledger::new();
    let w = Wallet::new(b"unused");
    let d = w.discover(&ledger, 0);
    assert_eq!(d.probed, GAP_LIMIT as usize);
    assert!(d.known.is_empty());
    assert!(w.get_wallet_utxos(&ledger).is_empty());
    assert_eq!(w.owns_address(&ledger, &w.branch_key(0, 0).get_address()), None);
}

fn deposit(node: &mut Node, to: &Vec<u8>) {
    let mut sender = node.miner.wallet.clone();
    let entry = pay(node, &mut sender, to, 1_000, 0);
    node.receive_transaction(entry.tx).unwrap();
    node.mine(DATE.to_vec(), 1_000_000).unwrap();
}

#[test]
fn gap_limit_discovery() {
    let mut node = fresh_node();
    for _ in 0..3 {
        node.mine(DATE.to_vec(), 1_000_000).unwrap();
    }
    let user = Wallet::new(b"user seed");
    let at = |i: u32| user.branch_key(0, i).get_address();
    deposit(&mut node, &at(0));
    deposit(&mut node, &at(24));
    let values: Vec<usize> = user.get_wallet_utxos(node.ledger()).iter().map(|u| u.index).collect();
    assert_eq!(values.len(), 2);
    deposit(&mut node, &at(60));
    assert_eq!(user.get_wallet_utxos(node.ledger()).len(), 2);
    deposit(&mut node, &at(40));
    assert_eq!(user.get_wallet_utxos(node.ledger()).len(), 4);
    assert_eq!(user.owns_address(node.ledger(), &at(60)), Some(60));
}

fn mined(mut block: Block) -> Block {
    block.evaluate_merkle_root();
    loop {
        if hash_starts_with_zero_bits(&block.id(), DIFFICULTY) {
            return block;
        }
        block.header.nonce += 1;
    }
}

fn block_of_size(size: usize) -> Block {
    let mut block = Block::new([0u8; 32], DATE.to_vec());
    let mut coinbase = Transaction::new_coinbase(b"addr".to_vec(), 0, DATE.to_vec());
    block.transactions = vec![coinbase.clone()];
    let base = block.size();
    let mut message = coinbase.message.take().unwrap();
    message.extend(std::iter::repeat(b'x').take(size - base));
    coinbase.message = Some(message);
    block.transactions = vec![coinbase];
    assert_eq!(block.size(), size);
    mined(block)
}

#[test]
fn block_size_boundary() {
    assert!(block_of_size(MAX_BLOCK_SIZE).validate().is_ok());
    assert_eq!(block_of_size(MAX_BLOCK_SIZE + 1).validate(), Err(BlockError::Oversized));
}

#[test]
fn difficulty_boundary() {
    let mut block = Block::new([0u8; 32], DATE.to_vec());
    block.transactions = vec![Transaction::new_coinbase(b"addr".to_vec(), 0, DATE.to_vec())];
    block.evaluate_merkle_root();
    loop {
        let id = block.id();
        if hash_starts_with_zero_bits(&id, DIFFICULTY - 1) && !hash_starts_with_zero_bits(&id, DIFFICULTY) {
            break;
        }
        block.header.nonce += 1;
    }
    assert_eq!(block.validate(), Err(BlockError::InvalidProofOfWork));
}

#[test]
fn block_errors() {
    let empty = Block::new([0u8; 32], DATE.to_vec());
    assert_eq!(empty.validate(), Err(BlockError::EmptyBlock));
    let mut bad_root = block_of_size(300);
    bad_root.header.merkle_root = [1u8; 32];
    let bad_root = {
        let mut b = bad_root;
        loop {
            if hash_starts_with_zero_bits(&b.id(), DIFFICULTY) {
                break b;
            }
            b.header.nonce += 1;
        }
    };
    assert_eq!(bad_root.validate(), Err(BlockError::InvalidMerkleRoot));
}

#[test]
fn submit_rejects_wrong_parent() {
    let mut node = fresh_node();
    node.mine(DATE.to_vec(), 1_000_000).unwrap();
    let orphan = block_of_size(300);
    assert!(node.submit_block(orphan).is_err());
    assert_eq!(node.height(), 1);
}

#[test]
fn fee_rate_ordering() {
    let keys = vec![5u64, 9, 5, 1, 9];
    assert_eq!(utxo_chain::miner::order_by_key(&keys), vec![1, 4, 0, 2, 3]);
}

#[test]
fn receive_keys_and_chain_state() {
    let w = Wallet::new(b"keys");
    let keys = w.generate_n_keys(3, Some(5));
    assert_eq!(keys.len(), 3);
    assert_eq!(keys[0].get_address(), w.branch_key(0, 5).get_address());
    assert_eq!(keys[2].get_address(), w.branch_key(0, 7).get_address());
    assert_eq!(w.generate_n_keys(2, None)[1].get_address(), w.branch_key(0, 1).get_address());
    assert_ne!(w.branch_key(0, 1).get_address(), w.branch_key(1, 1).get_address());
    let path = w.derive_path(&[111, 0, 0, 5]);
    assert_eq!(path.private_key, keys[0].private_key);
    let mut node = fresh_node();
    assert!(node.is_chain_empty());
    node.mine(DATE.to_vec(), 1_000_000).unwrap();
    assert!(!node.is_chain_empty());
    assert!(node.validate_bc().is_ok());
    let chosen = node.miner.wallet.select_utxos(node.ledger(), 10).unwrap();
    assert_eq!(chosen.len(), 1);
    assert!(node.miner.wallet.select_utxos(node.ledger(), 1_000_001).is_none());
}

#[test]
fn duplicate_input_and_inputless_entries() {
    let mut node = fresh_node();
    let b0 = node.mine(DATE.to_vec(), 1_000_000).unwrap();
    let key = Wallet::new(MINER_SEED).branch_key(0, 0);
    let input = TxInput { prev_tx_id: b0.transactions[0].id(), output_index: 0, signature: vec![], public_key: vec![] };
    let mut alice = Wallet::new(b"alice");
    let a = alice.get_receive_addr();
    let mut tx = Transaction::new(vec![input.clone(), input], vec![TxOutput { value: 1_000, address: a.clone() }], DATE.to_vec(), None);
    let sig = key.sign(&tx.as_bytes()).to_vec();
    let pk = key.get_public_key().to_vec();
    for i in tx.inputs.iter_mut() {
        i.signature = sig.clone();
        i.public_key = pk.clone();
    }
    assert!(tx.validate());
    assert_eq!(node.receive_transaction(tx), Err(NodeError::DuplicateInput));

    let free = Transaction::new(vec![], vec![TxOutput { value: 0, address: a }], DATE.to_vec(), Some(b"free".to_vec()));
    node.receive_transaction(free).unwrap();
    let b1 = node.mine(DATE.to_vec(), 1_000_000).unwrap();
    assert_eq!(b1.transactions.len(), 1);
}
