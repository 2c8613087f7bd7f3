use utxo_chain::block::Block;
use utxo_chain::hash::digest_to_hex_string;
use utxo_chain::ledger::{Ledger, LedgerError};
use utxo_chain::miner::Miner;
use utxo_chain::network::{ask_for_block, ask_for_blocks, ask_for_tx, InventoryType, NetworkMessage};
use utxo_chain::node::{Node, NodeError};
use utxo_chain::rpc_types::{default_limit, node_status, transaction_view, utxos_response};
use utxo_chain::transaction::{Transaction, TxOutput};
use utxo_chain::wallet::Wallet;

const DATE: &[u8] = b"2024-02-02 12:00:00";

fn snapshot(l: &Ledger) -> Vec<([u8; 32], usize, u64)> {
    let mut v: Vec<([u8; 32], usize, u64)> = l
        .get_utxos_for_addresses(&all_addresses(l))
        .iter()
        .map(|u| (u.tx_id, u.index, u.output.value))
        .collect();
    v.sort();
    v
}

fn all_addresses(l: &Ledger) -> Vec<Vec<u8>> {
    let miner = Wallet::new(b"ledger miner");
    let alice = Wallet::new(b"ledger alice");
    let mut out = Vec::new();
    for i in 0..4 {
        out.push(miner.branch_key(0, i).get_address());
        out.push(miner.branch_key(1, i).get_address());
        out.push(alice.branch_key(0, i).get_address());
    }
    let _ = l;
    out
}

#[test]
fn submit_then_rollback_restores_utxos_and_mempool() {
    let mut node = Node::new(Miner::new(b"ledger miner"), Ledger::new());
    node.mine(DATE.to_vec(), 1_000_000).unwrap();
    node.mine(DATE.to_vec(), 1_000_000).unwrap();
    let mut alice = Wallet::new(b"ledger alice");
    let a = alice.get_receive_addr();
    let mut sender = node.miner.wallet.clone();
    let entry = sender
        .send_tx(node.ledger(), vec![TxOutput { value: 5_000, address: a }], 100, None, DATE.to_vec())
        .unwrap();
    node.receive_transaction(entry.tx.clone()).unwrap();
    let before = snapshot(node.ledger());
    let pool_before: Vec<[u8; 32]> = node.mempool().iter().map(|e| e.tx.id()).collect();
    node.mine(DATE.to_vec(), 1_000_000).unwrap();
    assert_ne!(snapshot(node.ledger()), before);
    node.rollback_blocks(1).unwrap();
    assert_eq!(snapshot(node.ledger()), before);
    let pool_after: Vec<[u8; 32]> = node.mempool().iter().map(|e| e.tx.id()).collect();
    assert_eq!(pool_after, pool_before);
}

#[test]
fn ledger_refuses_unknown_parent_and_non_tip() {
    let mut node = Node::new(Miner::new(b"ledger miner"), Ledger::new());
    let b0 = node.mine(DATE.to_vec(), 1_000_000).unwrap();
    let b1 = node.mine(DATE.to_vec(), 1_000_000).unwrap();
    let mut ledger = Ledger::new();
    assert_eq!(ledger.apply_block(&b1), Err(LedgerError::UnknownParent));
    assert_eq!(ledger.rollback_block(&b0), Err(LedgerError::UnknownBlock));
    ledger.apply_block(&b0).unwrap();
    assert_eq!(ledger.apply_block(&b0), Err(LedgerError::DuplicateOutput));
    ledger.apply_block(&b1).unwrap();
    assert_eq!(ledger.rollback_block(&b0), Err(LedgerError::NotTip));
    assert!(ledger.has_transaction(&b1.transactions[0].id()));
    ledger.rollback_block(&b1).unwrap();
    assert!(!ledger.has_transaction(&b1.transactions[0].id()));
    assert!(ledger.has_transaction(&b0.transactions[0].id()));
    let u = ledger.get_utxo(&b0.transactions[0].id(), 0).unwrap();
    assert_eq!(u.output.value, 1_000_000);
    assert!(ledger.get_utxo(&b0.transactions[0].id(), 1).is_none());
    let addr = b0.transactions[0].outputs[0].address.clone();
    assert!(ledger.has_any_address_been_used(&vec![b"x".to_vec(), addr]));
    assert!(!ledger.has_any_address_been_used(&vec![b"x".to_vec()]));
}

#[test]
fn already_confirmed_and_duplicate_admission() {
    let mut node = Node::new(Miner::new(b"ledger miner"), Ledger::new());
    let b0 = node.mine(DATE.to_vec(), 1_000_000).unwrap();
    assert_eq!(node.receive_transaction(b0.transactions[0].clone()), Err(NodeError::AlreadyConfirmed));
    let mut alice = Wallet::new(b"ledger alice");
    let a = alice.get_receive_addr();
    let mut sender = node.miner.wallet.clone();
    let entry = sender
        .send_tx(node.ledger(), vec![TxOutput { value: 5_000, address: a }], 100, None, DATE.to_vec())
        .unwrap();
    assert_eq!(entry.calculate_fee(), Some(100));
    node.receive_transaction(entry.tx.clone()).unwrap();
    assert_eq!(node.receive_transaction(entry.tx.clone()), Err(NodeError::Duplicate));
    assert_eq!(node.handle_received_block(b0.clone()), Ok(false));
}

#[test]
fn inventory_and_sync_protocol() {
    let mut node = Node::new(Miner::new(b"ledger miner"), Ledger::new());
    let b0 = node.mine(DATE.to_vec(), 1_000_000).unwrap();
    let b1 = node.mine(DATE.to_vec(), 1_000_000).unwrap();
    let unknown = [5u8; 32];
    let items = vec![
        (InventoryType::Block, b0.id()),
        (InventoryType::Block, unknown),
        (InventoryType::Tx, b1.transactions[0].id()),
        (InventoryType::Tx, unknown),
    ];
    let wanted = node.inventory_requests(&items);
    assert_eq!(wanted, vec![(InventoryType::Block, unknown), (InventoryType::Tx, unknown)]);

    let all: Vec<[u8; 32]> = node.blocks_after(&[0u8; 32]).iter().map(Block::id).collect();
    assert_eq!(all, vec![b0.id(), b1.id()]);
    let rest: Vec<[u8; 32]> = node.blocks_after(&b0.id()).iter().map(Block::id).collect();
    assert_eq!(rest, vec![b1.id()]);
    assert!(node.blocks_after(&unknown).is_empty());

    let (ack, ask) = node.on_version(5);
    assert!(matches!(ack, NetworkMessage::VerAck));
    assert!(matches!(ask, Some(NetworkMessage::GetBlocks { last_known_hash }) if last_known_hash == b1.id()));
    assert!(node.on_version(2).1.is_none());

    assert!(matches!(ask_for_block(unknown), NetworkMessage::GetData { item_type: InventoryType::Block, item_id } if item_id == unknown));
    assert!(matches!(ask_for_tx(unknown), NetworkMessage::GetData { item_type: InventoryType::Tx, item_id } if item_id == unknown));
    assert!(matches!(ask_for_blocks(unknown), NetworkMessage::GetBlocks { last_known_hash } if last_known_hash == unknown));

    let mut other = Node::new(Miner::new(b"other"), Ledger::new());
    assert_eq!(other.handle_received_block(b0.clone()), Ok(true));
    assert_eq!(other.handle_received_block(b1.clone()), Ok(true));
    assert_eq!(other.height(), 2);
}

#[test]
fn rpc_records() {
    let mut node = Node::new(Miner::new(b"ledger miner"), Ledger::new());
    let b0 = node.mine(DATE.to_vec(), 1_000_000).unwrap();
    let coinbase: &Transaction = &b0.transactions[0];
    let view = transaction_view(coinbase);
    assert_eq!(view.id, digest_to_hex_string(&coinbase.id()));
    assert!(view.is_coinbase);
    assert_eq!(view.outputs[0].value, 1_000_000);
    assert_eq!(view.date, "2024-02-02 12:00:00");
    assert_eq!(view.message.as_deref(), Some("Coinbase and fees"));
    assert_eq!(view.size, coinbase.as_bytes().len());

    let utxos = node.miner.wallet.get_wallet_utxos(node.ledger());
    let r = utxos_response(&utxos, default_limit());
    assert_eq!(r.utxos.len(), 1);
    assert_eq!(r.total_value, 1_000_000);
    assert_eq!(utxos_response(&utxos, 0).utxos.len(), 0);

    let status = node_status(&node, "1".to_string(), 3);
    assert_eq!(status.block_height, 1);
    assert_eq!(status.peers_connected, 3);
    assert_eq!(status.top_block_hash, digest_to_hex_string(&b0.id()));
}

#[test]
fn peer_message_handling() {
    let mut source = Node::new(Miner::new(b"ledger miner"), Ledger::new());
    let b0 = source.mine(DATE.to_vec(), 1_000_000).unwrap();
    let mut node = Node::new(Miner::new(b"other"), Ledger::new());

    let r = node.respond(NetworkMessage::Ping(7));
    assert!(matches!(r.replies.as_slice(), [NetworkMessage::Pong(7)]));
    let r = node.respond(NetworkMessage::Version { version: 1, height: 1, top_hash: b0.id() });
    assert!(matches!(r.replies.as_slice(), [NetworkMessage::VerAck, NetworkMessage::GetBlocks { .. }]));
    let r = node.respond(NetworkMessage::Inv { items: vec![(InventoryType::Block, b0.id())] });
    assert!(matches!(r.replies.as_slice(), [NetworkMessage::GetData { item_type: InventoryType::Block, .. }]));

    let answer = source.respond(NetworkMessage::GetData { item_type: InventoryType::Block, item_id: b0.id() });
    let block = match answer.replies.into_iter().next() {
        Some(NetworkMessage::Block(b)) => b,
        _ => panic!("no block in the answer"),
    };
    let r = node.respond(NetworkMessage::Block(block));
    assert_eq!(r.announce.len(), 1);
    assert_eq!(node.height(), 1);
    let r = node.respond(NetworkMessage::Block(b0.clone()));
    assert!(r.announce.is_empty());

    let r = node.respond(NetworkMessage::GetBlocks { last_known_hash: [0u8; 32] });
    assert_eq!(r.replies.len(), 1);
    let r = node.respond(NetworkMessage::GetData { item_type: InventoryType::Tx, item_id: b0.transactions[0].id() });
    assert!(matches!(r.replies.as_slice(), [NetworkMessage::Tx(_)]));
    let r = node.respond(NetworkMessage::GetData { item_type: InventoryType::Tx, item_id: [1u8; 32] });
    assert!(r.replies.is_empty());
}
