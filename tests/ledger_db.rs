use utxo_chain::block::{Block, BlockHeader};
use utxo_chain::ledger::Ledger;
use utxo_chain::transaction::{Transaction, TxOutput};

fn payment(outputs: Vec<(u64, &str)>, date: &str, message: Option<&str>) -> Transaction {
    Transaction::new(
        vec![],
        outputs.into_iter().map(|(value, a)| TxOutput { value, address: a.as_bytes().to_vec() }).collect(),
        date.as_bytes().to_vec(),
        message.map(|m| m.as_bytes().to_vec()),
    )
}

fn block_of(txs: Vec<Transaction>) -> Block {
    Block {
        header: BlockHeader {
            prev_block_hash: [0u8; 32],
            merkle_root: [1u8; 32],
            nonce: 12345,
            timestamp: b"2024-03-03 10:00:00".to_vec(),
        },
        transactions: txs,
    }
}

#[test]
fn test_apply_block_genesis() {
    let mut ledger = Ledger::new();
    let tx = payment(vec![(50, "miner_address")], "2024-03-03 10:00:00", Some("Genesis block"));
    let block = block_of(vec![tx.clone()]);
    let txid = tx.id();
    ledger.apply_block(&block).unwrap();
    assert!(ledger.has_transaction(&txid));
    let utxos = ledger.get_utxos_for_addresses(&vec![b"miner_address".to_vec()]);
    assert_eq!(utxos.len(), 1);
    assert_eq!(utxos[0].output.value, 50);
    assert_eq!(ledger.height_of(&block.id()), Some(0));
}

#[test]
fn test_get_utxos_for_address() {
    let mut ledger = Ledger::new();
    ledger.apply_block(&block_of(vec![payment(vec![(50, "test_address")], "2024-03-03 10:00:01", None)])).unwrap();
    let utxos = ledger.get_utxos_for_addresses(&vec![b"test_address".to_vec()]);
    assert_eq!(utxos.len(), 1);
    assert_eq!(utxos[0].index, 0);
    assert_eq!(utxos[0].output.value, 50);
}

#[test]
fn test_get_utxos_for_addresses_empty_list() {
    let mut ledger = Ledger::new();
    ledger.apply_block(&block_of(vec![payment(vec![(50, "test_address")], "2024-03-03 10:00:02", None)])).unwrap();
    assert!(ledger.get_utxos_for_addresses(&Vec::new()).is_empty());
}

#[test]
fn test_get_utxos_for_addresses_multiple() {
    let mut ledger = Ledger::new();
    let t1 = payment(vec![(25, "addr_one")], "2024-03-03 10:00:03", None);
    let t2 = payment(vec![(5, "filler"), (75, "addr_two")], "2024-03-03 10:00:04", None);
    let t3 = payment(vec![(10, "other")], "2024-03-03 10:00:05", None);
    ledger.apply_block(&block_of(vec![t1, t2, t3])).unwrap();
    let mut utxos = ledger.get_utxos_for_addresses(&vec![b"addr_one".to_vec(), b"addr_two".to_vec()]);
    utxos.sort_by(|a, b| a.output.address.cmp(&b.output.address).then(a.index.cmp(&b.index)));
    assert_eq!(utxos.len(), 2);
    assert_eq!(utxos[0].output.address, b"addr_one".to_vec());
    assert_eq!(utxos[0].output.value, 25);
    assert_eq!(utxos[1].output.address, b"addr_two".to_vec());
    assert_eq!(utxos[1].index, 1);
    assert_eq!(utxos[1].output.value, 75);
    let ids = vec![(utxos[0].tx_id, 0usize), ([9u8; 32], 0usize)];
    assert_eq!(ledger.get_utxos_from_ids(&ids).len(), 1);
}
