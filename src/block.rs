//! Blocks: a header committing to the previous block and to the transaction
//! list through a merkle root, and the static validation rules.

use vstd::prelude::*;
use crate::bytes::{append_be_u32, append_bytes, be_u32, copy_bytes};
use crate::hash::{Hash32, has_leading_zero_bits, hash_eq, hash_starts_with_zero_bits, sha256, sha256_of};
use crate::merkle::{MerkleTree, hashes_view, merkle_root_of};
use crate::transaction::{Transaction, TxV, input_key, signatures_valid, tx_bytes, tx_id_of};

verus! {

/// Leading zero bits that a block id must have.
pub const DIFFICULTY: usize = 8;

/// Largest accepted canonical block size, in bytes.
pub const MAX_BLOCK_SIZE: usize = 1000;

/// Why a block fails static validation.
#[derive(Debug, Clone, Copy, PartialEq, Eq)]
pub enum BlockError {
    EmptyBlock,
    Oversized,
    InvalidProofOfWork,
    InvalidMerkleRoot,
    InvalidTransaction,
    DoubleSpend,
}

#[derive(Debug, Clone)]
pub struct BlockHeader {
    pub prev_block_hash: Hash32,
    pub merkle_root: Hash32,
    pub nonce: u32,
    /// The block's time as `YYYY-MM-DD HH:MM:SS` text.
    pub timestamp: Vec<u8>,
}

#[derive(Debug, Clone)]
pub struct Block {
    pub header: BlockHeader,
    pub transactions: Vec<Transaction>,
}

pub struct HeaderV {
    pub prev_block_hash: Seq<u8>,
    pub merkle_root: Seq<u8>,
    pub nonce: u32,
    pub timestamp: Seq<u8>,
}

pub struct BlockV {
    pub header: HeaderV,
    pub transactions: Seq<TxV>,
}

impl View for BlockHeader {
    type V = HeaderV;

    open spec fn view(&self) -> HeaderV {
        HeaderV {
            prev_block_hash: self.prev_block_hash@,
            merkle_root: self.merkle_root@,
            nonce: self.nonce,
            timestamp: self.timestamp@,
        }
    }
}

pub open spec fn txs_view(s: Seq<Transaction>) -> Seq<TxV> {
    s.map_values(|t: Transaction| t@)
}

impl View for Block {
    type V = BlockV;

    open spec fn view(&self) -> BlockV {
        BlockV { header: self.header@, transactions: txs_view(self.transactions@) }
    }
}

/// Canonical header bytes: previous hash, merkle root, big-endian nonce, time text.
pub open spec fn header_bytes_of(h: HeaderV) -> Seq<u8> {
    h.prev_block_hash + h.merkle_root + be_u32(h.nonce) + h.timestamp
}

/// Identity of a block: SHA-256 of its header bytes.
pub open spec fn block_id_of(b: BlockV) -> Seq<u8> {
    sha256_of(header_bytes_of(b.header))
}

/// Total canonical size of a transaction list.
pub open spec fn txs_size(s: Seq<TxV>) -> nat
    decreases s.len(),
{
    if s.len() == 0 {
        0
    } else {
        txs_size(s.drop_last()) + tx_bytes(s.last()).len()
    }
}

/// Canonical size of a block: header bytes plus every transaction's bytes.
pub open spec fn block_size(b: BlockV) -> nat {
    header_bytes_of(b.header).len() + txs_size(b.transactions)
}

/// The transaction ids, in order.
pub open spec fn tx_ids(s: Seq<TxV>) -> Seq<Seq<u8>> {
    s.map_values(|t: TxV| tx_id_of(t))
}

/// The merkle root that commits to a transaction list.
pub open spec fn txs_merkle_root(s: Seq<TxV>) -> Seq<u8> {
    merkle_root_of(tx_ids(s))
}

/// Every input key of a transaction list, in order.
pub open spec fn block_input_keys(s: Seq<TxV>) -> Seq<(Seq<u8>, usize)>
    decreases s.len(),
{
    if s.len() == 0 {
        Seq::empty()
    } else {
        block_input_keys(s.drop_last()) + s.last().inputs.map_values(|i| input_key(i))
    }
}

pub open spec fn no_duplicate_keys(keys: Seq<(Seq<u8>, usize)>) -> bool {
    forall|a: int, b: int| 0 <= a < b < keys.len() ==> keys[a] != keys[b]
}

pub open spec fn all_signatures_valid(s: Seq<TxV>) -> bool {
    forall|k: int| 0 <= k < s.len() ==> signatures_valid(#[trigger] s[k])
}

/// The outcome of static validation: the first rule that fails, in order.
pub open spec fn block_check(b: BlockV) -> Result<(), BlockError> {
    if b.transactions.len() == 0 {
        Err(BlockError::EmptyBlock)
    } else if block_size(b) > MAX_BLOCK_SIZE {
        Err(BlockError::Oversized)
    } else if !has_leading_zero_bits(block_id_of(b), DIFFICULTY as nat) {
        Err(BlockError::InvalidProofOfWork)
    } else if txs_merkle_root(b.transactions) != b.header.merkle_root {
        Err(BlockError::InvalidMerkleRoot)
    } else if !all_signatures_valid(b.transactions) {
        Err(BlockError::InvalidTransaction)
    } else if !no_duplicate_keys(block_input_keys(b.transactions)) {
        Err(BlockError::DoubleSpend)
    } else {
        Ok(())
    }
}

pub open spec fn keys_view(v: Seq<(Hash32, usize)>) -> Seq<(Seq<u8>, usize)> {
    v.map_values(|k: (Hash32, usize)| (k.0@, k.1))
}

/// Every input key of the transactions, in order.
pub fn collect_input_keys(txs: &Vec<Transaction>) -> (r: Vec<(Hash32, usize)>)
    ensures
        keys_view(r@) == block_input_keys(txs_view(txs@)),
{
    let mut out: Vec<(Hash32, usize)> = Vec::new();
    let mut i: usize = 0;
    while i < txs.len()
        invariant
            i <= txs@.len(),
            keys_view(out@) == block_input_keys(txs_view(txs@.subrange(0, i as int))),
        decreases txs@.len() - i,
    {
        let tx = &txs[i];
        let ghost before = keys_view(out@);
        let ghost base = out@.len();
        let mut j: usize = 0;
        while j < tx.inputs.len()
            invariant
                j <= tx.inputs@.len(),
                base == before.len(),
                out@.len() == base + j,
                forall|k: int| 0 <= k < base ==> #[trigger] keys_view(out@)[k] == before[k],
                forall|k: int|
                    0 <= k < j ==> #[trigger] keys_view(out@)[base + k] == input_key(
                        tx@.inputs[k],
                    ),
            decreases tx.inputs@.len() - j,
        {
            assert(tx@.inputs[j as int] == tx.inputs@[j as int]@);
            let ghost prev = out@;
            out.push((tx.inputs[j].prev_tx_id, tx.inputs[j].output_index));
            j += 1;
            assert forall|k: int| 0 <= k < j implies #[trigger] keys_view(out@)[base + k]
                == input_key(tx@.inputs[k]) by {
                if k < j - 1 {
                    assert(out@[base + k] == prev[base + k]);
                    assert(keys_view(prev)[base + k] == input_key(tx@.inputs[k]));
                }
            }
            assert forall|k: int| 0 <= k < base implies #[trigger] keys_view(out@)[k] == before[k] by {
                assert(out@[k] == prev[k]);
                assert(keys_view(prev)[k] == before[k]);
            }
        }
        let ghost added = tx@.inputs.map_values(|x| input_key(x));
        assert forall|k: int| 0 <= k < out@.len() implies #[trigger] keys_view(out@)[k] == (before
            + added)[k] by {
            if k >= base {
                let m = k - base;
                assert(keys_view(out@)[base + m] == input_key(tx@.inputs[m]));
            }
        }
        assert(keys_view(out@) =~= before + added);
        assert(tx@.inputs.subrange(0, tx@.inputs.len() as int) =~= tx@.inputs);
        i += 1;
        assert(txs_view(txs@.subrange(0, i as int)).drop_last() =~= txs_view(
            txs@.subrange(0, i - 1 as int),
        ));
        assert(txs_view(txs@.subrange(0, i as int)).last() == tx@);
    }
    assert(txs@.subrange(0, txs@.len() as int) =~= txs@);
    out
}

/// Some key occurs twice.
pub fn has_duplicate_key(keys: &Vec<(Hash32, usize)>) -> (r: bool)
    ensures
        r == !no_duplicate_keys(keys_view(keys@)),
{
    let n = keys.len();
    let mut a: usize = 0;
    while a < n
        invariant
            n == keys@.len(),
            a <= n,
            forall|x: int, y: int|
                0 <= x < a && x < y < n ==> keys_view(keys@)[x] != keys_view(keys@)[y],
        decreases n - a,
    {
        let mut b: usize = a + 1;
        while b < n
            invariant
                n == keys@.len(),
                a < n,
                a + 1 <= b <= n,
                forall|x: int, y: int|
                    0 <= x < a && x < y < n ==> keys_view(keys@)[x] != keys_view(keys@)[y],
                forall|y: int| a < y < b ==> keys_view(keys@)[a as int] != keys_view(keys@)[y],
            decreases n - b,
        {
            if keys[a].1 == keys[b].1 && hash_eq(&keys[a].0, &keys[b].0) {
                assert(keys_view(keys@)[a as int] == keys_view(keys@)[b as int]);
                return true;
            }
            b += 1;
        }
        a += 1;
    }
    false
}

impl BlockHeader {
    /// A copy of this header.
    pub fn duplicate(&self) -> (r: BlockHeader)
        ensures
            r@ == self@,
    {
        BlockHeader {
            prev_block_hash: self.prev_block_hash,
            merkle_root: self.merkle_root,
            nonce: self.nonce,
            timestamp: copy_bytes(self.timestamp.as_slice()),
        }
    }
}

impl Block {
    /// An empty block on top of `prev_block_hash`, nonce 0, zero merkle root.
    pub fn new(prev_block_hash: Hash32, timestamp: Vec<u8>) -> (r: Block)
        ensures
            r@.header.prev_block_hash == prev_block_hash@,
            r@.header.merkle_root == seq![0u8; 32],
            r@.header.nonce == 0,
            r@.header.timestamp == timestamp@,
            r@.transactions.len() == 0,
    {
        let r = Block {
            header: BlockHeader { prev_block_hash, merkle_root: [0u8; 32], nonce: 0, timestamp },
            transactions: Vec::new(),
        };
        assert(r@.header.merkle_root =~= seq![0u8; 32]);
        r
    }

    /// The merkle root over the ids of `txs`.
    pub fn eval_merkle_root_from_transactions(txs: &[Transaction]) -> (r: Hash32)
        ensures
            r@ == txs_merkle_root(txs_view(txs@)),
    {
        let mut leaves: Vec<Hash32> = Vec::new();
        let mut i: usize = 0;
        while i < txs.len()
            invariant
                i <= txs@.len(),
                leaves@.len() == i,
                forall|k: int| 0 <= k < i ==> #[trigger] leaves@[k]@ == tx_id_of(txs@[k]@),
            decreases txs@.len() - i,
        {
            leaves.push(txs[i].id());
            i += 1;
        }
        assert(hashes_view(leaves@) =~= tx_ids(txs_view(txs@)));
        let tree = MerkleTree::from_leaves(leaves);
        tree.root()
    }

    /// Sets the header's merkle root from the current transaction list.
    pub fn evaluate_merkle_root(&mut self)
        ensures
            final(self)@.header.merkle_root == txs_merkle_root(old(self)@.transactions),
            final(self)@.header.prev_block_hash == old(self)@.header.prev_block_hash,
            final(self)@.header.nonce == old(self)@.header.nonce,
            final(self)@.header.timestamp == old(self)@.header.timestamp,
            final(self)@.transactions == old(self)@.transactions,
    {
        let root = Block::eval_merkle_root_from_transactions(self.transactions.as_slice());
        self.header.merkle_root = root;
    }

    /// Canonical header bytes.
    pub fn header_bytes(&self) -> (r: Vec<u8>)
        ensures
            r@ == header_bytes_of(self@.header),
    {
        let mut out: Vec<u8> = Vec::new();
        append_bytes(&mut out, &self.header.prev_block_hash);
        append_bytes(&mut out, &self.header.merkle_root);
        append_be_u32(&mut out, self.header.nonce);
        append_bytes(&mut out, self.header.timestamp.as_slice());
        assert(out@ =~= header_bytes_of(self@.header));
        out
    }

    /// SHA-256 of the header bytes.
    pub fn header_hash(&self) -> (r: Hash32)
        ensures
            r@ == block_id_of(self@),
    {
        let b = self.header_bytes();
        sha256(b.as_slice())
    }

    /// The block's identity.
    pub fn id(&self) -> (r: Hash32)
        ensures
            r@ == block_id_of(self@),
    {
        self.header_hash()
    }

    /// Whether the canonical size is at most `limit`; stops summing once past it.
    pub fn size_at_most(&self, limit: usize) -> (r: bool)
        ensures
            r == (block_size(self@) <= limit),
    {
        let mut total: usize = self.header_bytes().len();
        if total > limit {
            return false;
        }
        let mut i: usize = 0;
        while i < self.transactions.len()
            invariant
                i <= self.transactions@.len(),
                total <= limit,
                total == header_bytes_of(self@.header).len() + txs_size(
                    txs_view(self.transactions@.subrange(0, i as int)),
                ),
            decreases self.transactions@.len() - i,
        {
            let n = self.transactions[i].as_bytes().len();
            assert(txs_view(self.transactions@.subrange(0, i + 1 as int)).drop_last() =~= txs_view(
                self.transactions@.subrange(0, i as int),
            ));
            if n > limit - total {
                proof {
                    self.lemma_size_prefix_bound((i + 1) as nat);
                }
                return false;
            }
            total = total + n;
            i += 1;
        }
        assert(self.transactions@.subrange(0, self.transactions@.len() as int) =~= self.transactions@);
        true
    }

    proof fn lemma_size_prefix_bound(&self, k: nat)
        requires
            k <= self.transactions@.len(),
        ensures
            txs_size(txs_view(self.transactions@.subrange(0, k as int))) <= txs_size(
                self@.transactions,
            ),
        decreases self.transactions@.len() - k,
    {
        if k < self.transactions@.len() {
            self.lemma_size_prefix_bound(k + 1);
            assert(txs_view(self.transactions@.subrange(0, k + 1 as int)).drop_last() =~= txs_view(
                self.transactions@.subrange(0, k as int),
            ));
        } else {
            assert(self.transactions@.subrange(0, k as int) =~= self.transactions@);
        }
    }

    /// Canonical size: header bytes plus every transaction's bytes.
    pub fn size(&self) -> (r: usize)
        requires
            block_size(self@) <= usize::MAX,
        ensures
            r == block_size(self@),
    {
        let mut total: usize = self.header_bytes().len();
        let mut i: usize = 0;
        while i < self.transactions.len()
            invariant
                i <= self.transactions@.len(),
                block_size(self@) <= usize::MAX,
                total == header_bytes_of(self@.header).len() + txs_size(
                    txs_view(self.transactions@.subrange(0, i as int)),
                ),
            decreases self.transactions@.len() - i,
        {
            let n = self.transactions[i].as_bytes().len();
            assert(txs_view(self.transactions@.subrange(0, i + 1 as int)).drop_last() =~= txs_view(
                self.transactions@.subrange(0, i as int),
            ));
            proof {
                self.lemma_size_prefix_bound((i + 1) as nat);
            }
            total = total + n;
            i += 1;
        }
        assert(self.transactions@.subrange(0, self.transactions@.len() as int) =~= self.transactions@);
        total
    }

    /// Static validation, rule by rule: non-empty, size, proof of work,
    /// merkle root, signatures, no input spent twice within the block.
    pub fn validate(&self) -> (r: Result<(), BlockError>)
        ensures
            r == block_check(self@),
    {
        if self.transactions.len() == 0 {
            return Err(BlockError::EmptyBlock);
        }
        if !self.size_at_most(MAX_BLOCK_SIZE) {
            return Err(BlockError::Oversized);
        }
        let id = self.header_hash();
        if !hash_starts_with_zero_bits(&id, DIFFICULTY) {
            return Err(BlockError::InvalidProofOfWork);
        }
        let root = Block::eval_merkle_root_from_transactions(self.transactions.as_slice());
        if !hash_eq(&root, &self.header.merkle_root) {
            return Err(BlockError::InvalidMerkleRoot);
        }
        let mut i: usize = 0;
        while i < self.transactions.len()
            invariant
                i <= self.transactions@.len(),
                self@.transactions.len() != 0,
                block_size(self@) <= MAX_BLOCK_SIZE,
                has_leading_zero_bits(block_id_of(self@), DIFFICULTY as nat),
                txs_merkle_root(self@.transactions) == self@.header.merkle_root,
                forall|k: int| 0 <= k < i ==> signatures_valid(#[trigger] self@.transactions[k]),
            decreases self.transactions@.len() - i,
        {
            assert(self@.transactions[i as int] == self.transactions@[i as int]@);
            if !self.transactions[i].validate() {
                assert(!signatures_valid(self@.transactions[i as int]));
                assert(!all_signatures_valid(self@.transactions));
                return Err(BlockError::InvalidTransaction);
            }
            i += 1;
        }
        let keys = collect_input_keys(&self.transactions);
        if has_duplicate_key(&keys) {
            return Err(BlockError::DoubleSpend);
        }
        Ok(())
    }
}


impl Block {
    /// A copy of this block.
    pub fn duplicate(&self) -> (r: Block)
        ensures
            r@ == self@,
    {
        let mut txs: Vec<Transaction> = Vec::new();
        let mut i: usize = 0;
        while i < self.transactions.len()
            invariant
                i <= self.transactions@.len(),
                txs@.len() == i,
                forall|k: int| 0 <= k < i ==> #[trigger] txs@[k]@ == self.transactions@[k]@,
            decreases self.transactions@.len() - i,
        {
            txs.push(self.transactions[i].duplicate());
            i += 1;
        }
        let r = Block { header: self.header.duplicate(), transactions: txs };
        assert(r@.transactions =~= self@.transactions);
        r
    }
}


/// A block whose only fault could be its size is accepted at exactly
/// `MAX_BLOCK_SIZE` bytes and refused as oversized one byte above.
pub proof fn lemma_size_boundary(b: BlockV)
    requires
        b.transactions.len() > 0,
        has_leading_zero_bits(block_id_of(b), DIFFICULTY as nat),
        txs_merkle_root(b.transactions) == b.header.merkle_root,
        all_signatures_valid(b.transactions),
        no_duplicate_keys(block_input_keys(b.transactions)),
    ensures
        block_size(b) == MAX_BLOCK_SIZE ==> block_check(b) is Ok,
        block_size(b) == MAX_BLOCK_SIZE + 1 ==> block_check(b) == Err::<(), BlockError>(BlockError::Oversized),
{
}

/// A non-empty block within the size limit whose id has fewer than
/// `DIFFICULTY` leading zero bits is refused for its proof of work.
pub proof fn lemma_difficulty_boundary(b: BlockV)
    requires
        b.transactions.len() > 0,
        block_size(b) <= MAX_BLOCK_SIZE,
        !has_leading_zero_bits(block_id_of(b), DIFFICULTY as nat),
    ensures
        block_check(b) == Err::<(), BlockError>(BlockError::InvalidProofOfWork),
{
}

} // verus!
