//! Request and response records of the node's remote interface, and the
//! functions that fill them from the node's state.

use vstd::prelude::*;
use crate::block::{Block, block_id_of};
use crate::blockchain::tip_hash;
use crate::hash::{Hash32, digest_to_hex_string, hex_of};
use crate::node::Node;
use crate::transaction::{Transaction, TxInput, TxOutput, UTXO, is_coinbase_tx, tx_bytes, tx_id_of};

verus! {

/// The text that a byte string reads as, invalid UTF-8 replaced.
pub uninterp spec fn text_of(b: Seq<u8>) -> Seq<char>;

/// Relies on String::from_utf8_lossy: the text depends on the bytes alone.
#[verifier::external_body]
fn bytes_to_text(b: &[u8]) -> (r: String)
    ensures
        r@ == text_of(b@),
{
    String::from_utf8_lossy(b).into_owned()
}

#[derive(Debug, Clone)]
pub struct NodeStatusResponse {
    pub version: String,
    pub peers_connected: usize,
    pub block_height: usize,
    pub top_block_hash: String,
}

#[derive(Debug, Clone)]
pub struct MempoolResponse {
    pub count: usize,
    pub transactions: Vec<TransactionViewResponse>,
}

#[derive(Debug, Clone)]
pub struct NodeInitResponse {
    pub success: bool,
    pub block_count: usize,
}

#[derive(Debug, Clone)]
pub struct SimpleSuccessResponse {
    pub success: bool,
}

#[derive(Debug, Clone)]
pub struct ChainStatusResponse {
    pub block_count: usize,
    pub is_valid: bool,
    pub last_block_hash: Option<String>,
    pub last_block_date: Option<String>,
}

#[derive(Debug, Clone)]
pub struct BlockInfo {
    pub height: usize,
    pub hash: String,
    pub prev_hash: String,
    pub merkle_root: String,
    pub nonce: u32,
    pub timestamp: String,
    pub transactions: Vec<TransactionViewResponse>,
    pub size_bytes: usize,
}

#[derive(Debug, Clone)]
pub struct ChainShowResponse {
    pub blocks: Vec<BlockInfo>,
}

#[derive(Debug, Clone)]
pub struct UtxoInfo {
    pub tx_id: String,
    pub index: usize,
    pub value: u64,
    pub address: String,
}

#[derive(Debug, Clone)]
pub struct UtxosParams {
    pub limit: u32,
}

#[derive(Debug, Clone)]
pub struct UtxosResponse {
    pub utxos: Vec<UtxoInfo>,
    pub total_value: u128,
}

#[derive(Debug, Clone)]
pub struct MineBlockResponse {
    pub success: bool,
    pub transactions: Vec<TransactionViewResponse>,
    pub block_hash: Option<String>,
    pub nonce: Option<u32>,
    pub error: Option<String>,
}

#[derive(Debug, Clone)]
pub struct TransactionViewParams {
    pub id: String,
}

#[derive(Debug, Clone)]
pub struct TxInputInfo {
    pub prev_tx_id: String,
    pub output_index: usize,
    pub signature: String,
    pub public_key: String,
}

#[derive(Debug, Clone)]
pub struct TxOutputInfo {
    pub value: u64,
    pub address: String,
}

#[derive(Debug, Clone)]
pub struct TransactionViewResponse {
    pub id: String,
    pub date: String,
    pub message: Option<String>,
    pub inputs: Vec<TxInputInfo>,
    pub outputs: Vec<TxOutputInfo>,
    pub is_coinbase: bool,
    pub size: usize,
}

#[derive(Debug, Clone)]
pub struct WalletImportParams {
    pub password: String,
    pub path: String,
}

#[derive(Debug, Clone)]
pub struct WalletNewParams {
    pub password: String,
    pub path: String,
}

#[derive(Debug, Clone)]
pub struct WalletNewResponse {
    pub success: bool,
    pub address: Option<String>,
    pub is_imported_wallet: bool,
}

#[derive(Debug, Clone)]
pub struct WalletInfo {
    pub name: String,
    pub balance: u128,
}

#[derive(Debug, Clone)]
pub struct WalletListResponse {
    pub wallets: Vec<WalletInfo>,
}

#[derive(Debug, Clone)]
pub struct WalletAddressParams {
    pub key_path: String,
    pub password: String,
}

#[derive(Debug, Clone)]
pub struct WalletAddressResponse {
    pub address: String,
}

#[derive(Debug, Clone)]
pub struct WalletBalanceParams {
    pub key_path: String,
    pub password: String,
}

#[derive(Debug, Clone)]
pub struct WalletBalanceResponse {
    pub balance: u128,
    pub utxo_count: usize,
    pub utxos: Vec<UtxoInfo>,
}

#[derive(Debug, Clone)]
pub struct WalletAccessParams {
    pub key_path: String,
    pub password: String,
}

#[derive(Debug, Clone)]
pub struct WalletSendParams {
    pub from: WalletAccessParams,
    pub to: String,
    pub amount: u64,
    pub fee: Option<u64>,
    pub message: Option<String>,
}

#[derive(Debug, Clone)]
pub struct WalletSendResponse {
    pub success: bool,
    pub tx_id: Option<String>,
    pub error: Option<String>,
}

#[derive(Debug, Clone)]
pub struct WalletGenerateKeysParams {
    pub wallet: WalletAccessParams,
    pub count: Option<u32>,
    /// 0 = receive, 1 = change.
    pub derivation_type: Option<u32>,
}

#[derive(Debug, Clone)]
pub struct GeneratedKey {
    pub address: String,
    pub public_key: String,
}

#[derive(Debug, Clone)]
pub struct WalletGenerateKeysResponse {
    pub keys: Vec<GeneratedKey>,
}

/// The number of UTXOs listed when a request names no limit.
pub fn default_limit() -> (r: u32)
    ensures
        r == 20,
{
    20
}

/// The record of one unspent output: hex id, index, value, address text.
pub fn utxo_info(u: &UTXO) -> (r: UtxoInfo)
    ensures
        r.tx_id@ == hex_of(u.tx_id@),
        r.index == u.index,
        r.value == u.output.value,
        r.address@ == text_of(u.output.address@),
{
    UtxoInfo {
        tx_id: digest_to_hex_string(&u.tx_id),
        index: u.index,
        value: u.output.value,
        address: bytes_to_text(u.output.address.as_slice()),
    }
}

/// The record of an input: hex previous id, index, hex signature and key.
pub fn input_info(i: &TxInput) -> (r: TxInputInfo)
    ensures
        r.prev_tx_id@ == hex_of(i.prev_tx_id@),
        r.output_index == i.output_index,
        r.signature@ == hex_of(i.signature@),
        r.public_key@ == hex_of(i.public_key@),
{
    TxInputInfo {
        prev_tx_id: digest_to_hex_string(&i.prev_tx_id),
        output_index: i.output_index,
        signature: crate::hash::hex_string(i.signature.as_slice()),
        public_key: crate::hash::hex_string(i.public_key.as_slice()),
    }
}

/// The view of a transaction: hex id, time and message text, inputs,
/// outputs, whether it is a coinbase, and its canonical size.
pub fn transaction_view(tx: &Transaction) -> (r: TransactionViewResponse)
    ensures
        r.id@ == hex_of(tx_id_of(tx@)),
        r.date@ == text_of(tx.date@),
        r.inputs@.len() == tx.inputs@.len(),
        r.outputs@.len() == tx.outputs@.len(),
        forall|k: int| 0 <= k < tx.outputs@.len() ==> (#[trigger] r.outputs@[k]).value == tx.outputs@[k].value,
        r.is_coinbase == is_coinbase_tx(tx@),
        r.size == tx_bytes(tx@).len(),
{
    let id = tx.id();
    let mut inputs: Vec<TxInputInfo> = Vec::new();
    let mut i: usize = 0;
    while i < tx.inputs.len()
        invariant
            i <= tx.inputs@.len(),
            inputs@.len() == i,
        decreases tx.inputs@.len() - i,
    {
        inputs.push(input_info(&tx.inputs[i]));
        i += 1;
    }
    let mut outputs: Vec<TxOutputInfo> = Vec::new();
    let mut j: usize = 0;
    while j < tx.outputs.len()
        invariant
            j <= tx.outputs@.len(),
            outputs@.len() == j,
            forall|k: int| 0 <= k < j ==> (#[trigger] outputs@[k]).value == tx.outputs@[k].value,
        decreases tx.outputs@.len() - j,
    {
        outputs.push(TxOutputInfo {
            value: tx.outputs[j].value,
            address: bytes_to_text(tx.outputs[j].address.as_slice()),
        });
        j += 1;
    }
    let message = match &tx.message {
        Some(m) => Some(bytes_to_text(m.as_slice())),
        None => None,
    };
    TransactionViewResponse {
        id: digest_to_hex_string(&id),
        date: bytes_to_text(tx.date.as_slice()),
        message,
        inputs,
        outputs,
        is_coinbase: tx.is_coinbase(),
        size: tx.as_bytes().len(),
    }
}

/// The first `limit` UTXOs of `utxos`, with the total value of those listed.
pub fn utxos_response(utxos: &Vec<UTXO>, limit: u32) -> (r: UtxosResponse)
    ensures
        r.utxos@.len() == if utxos@.len() < limit { utxos@.len() } else { limit as nat },
        forall|k: int| 0 <= k < r.utxos@.len() ==> (#[trigger] r.utxos@[k]).value == utxos@[k].output.value
            && r.utxos@[k].index == utxos@[k].index,
        r.total_value == crate::mempool::utxos_total(crate::ledger::utxos_view(utxos@).subrange(0, r.utxos@.len() as int)),
{
    let mut listed: Vec<UtxoInfo> = Vec::new();
    let mut total: u128 = 0;
    let mut i: usize = 0;
    while i < utxos.len() && (i as u64) < (limit as u64)
        invariant
            i <= utxos@.len(),
            i <= limit,
            listed@.len() == i,
            forall|k: int| 0 <= k < i ==> (#[trigger] listed@[k]).value == utxos@[k].output.value
                && listed@[k].index == utxos@[k].index,
            total == crate::mempool::utxos_total(crate::ledger::utxos_view(utxos@).subrange(0, i as int)),
            total <= i * (u64::MAX as nat),
        decreases utxos@.len() - i,
    {
        let ghost cur = crate::ledger::utxos_view(utxos@).subrange(0, i + 1 as int);
        assert(cur.drop_last() =~= crate::ledger::utxos_view(utxos@).subrange(0, i as int));
        assert(cur.last() == utxos@[i as int]@);
        proof {
            assert(i * (u64::MAX as nat) + (u64::MAX as nat) == (i + 1) * (u64::MAX as nat)) by (nonlinear_arith);
            assert((i + 1) * (u64::MAX as nat) <= (u32::MAX as nat + 1) * (u64::MAX as nat)) by (nonlinear_arith)
                requires i + 1 <= u32::MAX + 1;
        }
        total = total + utxos[i].output.value as u128;
        listed.push(utxo_info(&utxos[i]));
        i += 1;
    }
    UtxosResponse { utxos: listed, total_value: total }
}

/// The node's status: protocol version, peer count, chain length and tip id.
pub fn node_status(node: &Node, version: String, peers_connected: usize) -> (r: NodeStatusResponse)
    ensures
        r.version == version,
        r.peers_connected == peers_connected,
        r.block_height == node.chain().len(),
        r.top_block_hash@ == hex_of(tip_hash(node.chain())),
{
    let tip = node.tip();
    NodeStatusResponse {
        version,
        peers_connected,
        block_height: node.height(),
        top_block_hash: digest_to_hex_string(&tip),
    }
}

} // verus!
