//! A single-currency UTXO ledger engine: hashing and Base58Check addresses,
//! merkle commitments, transactions and blocks with their static validation,
//! the chain, the UTXO index with block application and rollback, the mempool,
//! the miner's block assembly, the HD wallet (gap-limit discovery, coin
//! selection, signing), the encrypted seed, the peer protocol's decisions and
//! the records of the node's remote interface.

pub mod address;
pub mod block;
pub mod blockchain;
pub mod bytes;
pub mod hash;
pub mod hdkey;
pub mod keystore;
pub mod ledger;
pub mod mempool;
pub mod merkle;
pub mod miner;
pub mod network;
pub mod node;
pub mod rpc_types;
pub mod signatures;
pub mod transaction;
pub mod wallet;
