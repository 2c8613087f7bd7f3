//! The consensus core: the chain, the ledger and the mempool kept in step
//! through block submission, transaction admission and rollback.

use vstd::prelude::*;
use crate::block::{
    Block, BlockV, DIFFICULTY, block_check, block_id_of, block_input_keys, collect_input_keys, keys_view,
    no_duplicate_keys, txs_merkle_root,
};
use crate::ledger::{apply_txs, txs_applicable, undo_blocks, lemma_undo_blocks_err};
use crate::blockchain::{Blockchain, ChainError, blocks_view, chain_valid, tip_hash};
use crate::hash::{Hash32, has_leading_zero_bits, hash_eq};
use crate::ledger::{Ledger, LedgerError, has_key, utxo_key, utxo_with_key, utxos_view};
use crate::mempool::{EntryV, MempoolEntry, entries_view, entry_fee, utxos_total};
use crate::miner::{Miner, MinerError, mine_block};
use crate::transaction::{Transaction, TxV, UTXO, input_key, is_coinbase_tx, outputs_total, signatures_valid, tx_id_of};

verus! {

/// Why the node refuses an operation.
#[derive(Debug, Clone, Copy, PartialEq, Eq)]
pub enum NodeError {
    InvalidSignature,
    Duplicate,
    AlreadyConfirmed,
    UnknownInput,
    DuplicateInput,
    InsufficientInputs,
    Chain(ChainError),
    Ledger(LedgerError),
    Mining(MinerError),
    InvalidRollbackCount,
}

/// Some entry of the mempool has transaction id `id`.
pub open spec fn mempool_has_id(m: Seq<EntryV>, id: Seq<u8>) -> bool {
    exists|k: int| 0 <= k < m.len() && tx_id_of((#[trigger] m[k]).tx) == id
}

/// Some input of some entry of the mempool spends `key`.
pub open spec fn mempool_spends(m: Seq<EntryV>, key: (Seq<u8>, usize)) -> bool {
    exists|k: int, j: int|
        0 <= k < m.len() && 0 <= j < m[k].tx.inputs.len() && input_key(#[trigger] m[k].tx.inputs[j]) == key
}

/// The ledger's UTXO for each input of `t`, in input order.
pub open spec fn resolved_inputs_of(l: Ledger, t: TxV) -> Seq<crate::transaction::UtxoV> {
    Seq::new(t.inputs.len(), |j: int| crate::ledger::utxo_with_key(l.utxo_set(), input_key(t.inputs[j])))
}

/// Every input of `t` names a UTXO of the ledger that no mempool entry spends.
pub open spec fn inputs_available(l: Ledger, m: Seq<EntryV>, t: TxV) -> bool {
    forall|j: int|
        0 <= j < t.inputs.len() ==> has_key(l.utxo_set(), input_key(#[trigger] t.inputs[j]))
            && !mempool_spends(m, input_key(t.inputs[j]))
}

pub struct Node {
    pub miner: Miner,
    pub blockchain: Blockchain,
    mempool: Vec<MempoolEntry>,
    ledger: Ledger,
}

impl Node {
    pub closed spec fn pool(&self) -> Seq<EntryV> {
        entries_view(self.mempool@)
    }

    /// The miner's wallet.
    pub closed spec fn miner_wallet(&self) -> crate::wallet::Wallet {
        self.miner.wallet
    }

    /// The mempool's entries as stored.
    pub closed spec fn pool_entries(&self) -> Seq<MempoolEntry> {
        self.mempool@
    }

    pub closed spec fn index(&self) -> Ledger {
        self.ledger
    }

    pub closed spec fn chain(&self) -> Seq<BlockV> {
        self.blockchain.blocks()
    }

    /// The chain is linked and every block valid; the ledger's keys are unique.
    pub open spec fn wf(&self) -> bool {
        &&& chain_valid(self.chain())
        &&& self.index().wf()
        &&& ledger_follows_chain(self.index(), self.chain())
    }

    /// A node with an empty chain and mempool over `ledger`.
    pub fn new(miner: Miner, ledger: Ledger) -> (r: Node)
        requires
            ledger.wf(),
            ledger.block_count() == 0,
        ensures
            r.wf(),
            r.chain().len() == 0,
            r.pool().len() == 0,
            r.index() == ledger,
    {
        let r = Node { miner, blockchain: Blockchain::new(), mempool: Vec::new(), ledger };
        assert(r.chain() =~= Seq::<BlockV>::empty());
        assert(ledger.records().len() == 0);
        r
    }

    /// A node over a chain and mempool loaded from storage, with the ledger
    /// rebuilt by applying the chain's blocks in order; refused unless every
    /// block is valid and linked to its predecessor and the ledger takes them.
    pub fn load(miner: Miner, chain: Vec<Block>, mempool: Vec<MempoolEntry>) -> (r: Result<Node, NodeError>)
        ensures
            !chain_valid(blocks_view(chain@)) ==> r is Err,
            chain_valid(blocks_view(chain@)) && chain_applies(blocks_view(chain@)) ==> r is Ok,
            r matches Ok(n) ==> n.index().utxo_set() == chain_utxos(blocks_view(chain@)),
            r matches Ok(n) ==> n.wf() && n.chain() == blocks_view(chain@) && n.pool() == entries_view(mempool@),
    {
        let ghost cv = blocks_view(chain@);
        let blockchain = Blockchain { chain };
        assert(blockchain.blocks() == cv);
        match blockchain.validate_chain() {
            Ok(()) => {},
            Err(e) => {
                return Err(NodeError::Chain(e));
            },
        }
        if blockchain.chain.len() > 0 {
            match blockchain.chain[0].validate() {
                Ok(()) => {},
                Err(e) => {
                    assert(!chain_valid(blockchain.blocks())) by {
                        assert(blockchain.blocks()[0] == blockchain.chain@[0]@);
                    }
                    return Err(NodeError::Chain(ChainError::InvalidBlock(e)));
                },
            }
            assert(blockchain.blocks()[0] == blockchain.chain@[0]@);
        }
        assert forall|h: int| 0 < h < blockchain.blocks().len() implies (#[trigger] blockchain.blocks()[h]).header.prev_block_hash
            == block_id_of(blockchain.blocks()[h - 1]) by {
            assert(block_check(blockchain.blocks()[h]) is Ok && blockchain.blocks()[h].header.prev_block_hash == block_id_of(blockchain.blocks()[h - 1]));
        }
        assert forall|h: int| 0 <= h < blockchain.blocks().len() implies (#[trigger] block_check(blockchain.blocks()[h])) is Ok by {
            if h > 0 {
                assert(block_check(blockchain.blocks()[h]) is Ok && blockchain.blocks()[h].header.prev_block_hash == block_id_of(blockchain.blocks()[h - 1]));
            }
        }
        let ghost c = blockchain.blocks();
        let mut ledger = Ledger::new();
        let mut i: usize = 0;
        while i < blockchain.chain.len()
            invariant
                c == blockchain.blocks(),
                c == cv,
                cv == blocks_view(chain@),
                chain_valid(c),
                i <= c.len(),
                ledger.wf(),
                ledger_follows_chain(ledger, c.subrange(0, i as int)),
                ledger.utxo_set() == chain_utxos(c.subrange(0, i as int)),
            decreases c.len() - i,
        {
            proof {
                lemma_tip_parent(ledger, c.subrange(0, i as int));
                if i > 0 {
                    assert(c.subrange(0, i as int).last() == c[i - 1]);
                    assert(c[i as int].header.prev_block_hash == block_id_of(c[i - 1]));
                } else {
                    assert(c[0].header.prev_block_hash == crate::blockchain::zero_hash());
                }
            }
            assert(blockchain.chain@[i as int]@ == c[i as int]);
            let ghost pre = c.subrange(0, i as int);
            let ghost cur = c.subrange(0, i + 1 as int);
            assert(cur.drop_last() =~= pre);
            assert(cur.last() == c[i as int]);
            proof {
                if i > 0 {
                    assert(pre.last() == c[i - 1]);
                }
                assert(c[i as int].header.prev_block_hash == tip_hash(pre));
            }
            match ledger.apply_block(&blockchain.chain[i]) {
                Ok(()) => {},
                Err(e) => {
                    proof {
                        assert(!txs_applicable(chain_utxos(pre), c[i as int].transactions));
                        assert(!chain_applies(cur));
                        if chain_applies(c) {
                            lemma_chain_applies_prefix(c, i + 1);
                            assert(chain_applies(cur));
                        }
                        assert(!chain_applies(cv));
                    }
                    return Err(NodeError::Ledger(e));
                },
            }
            proof {
                lemma_follows_push(ledger, c, i as int);
            }
            i += 1;
        }
        assert(c.subrange(0, c.len() as int) =~= c);
        Ok(Node { miner, blockchain, mempool, ledger })
    }

    pub fn is_chain_empty(&self) -> (r: bool)
        ensures
            r == (self.chain().len() == 0),
    {
        self.blockchain.is_empty()
    }

    pub fn is_mempool_empty(&self) -> (r: bool)
        ensures
            r == (self.pool().len() == 0),
    {
        self.mempool.len() == 0
    }

    /// Number of blocks in the chain.
    pub fn height(&self) -> (r: usize)
        ensures
            r == self.chain().len(),
    {
        self.blockchain.chain.len()
    }

    /// The ledger index.
    pub fn ledger(&self) -> (r: &Ledger)
        ensures
            *r == self.index(),
    {
        &self.ledger
    }

    /// The mempool, in admission order.
    pub fn mempool(&self) -> (r: &Vec<MempoolEntry>)
        ensures
            entries_view(r@) == self.pool(),
    {
        &self.mempool
    }

    /// Checks the chain as loaded chains are checked.
    pub fn validate_bc(&self) -> (r: Result<(), ChainError>)
        ensures
            r is Ok <==> crate::blockchain::chain_accepted(self.chain()),
    {
        self.blockchain.validate_chain()
    }

    /// Whether some mempool entry has transaction id `id`.
    fn mempool_contains(&self, id: &Hash32) -> (r: bool)
        ensures
            r == mempool_has_id(self.pool(), id@),
    {
        let mut k: usize = 0;
        while k < self.mempool.len()
            invariant
                k <= self.mempool@.len(),
                forall|m: int| 0 <= m < k ==> tx_id_of((#[trigger] self.pool()[m]).tx) != id@,
            decreases self.mempool@.len() - k,
        {
            assert(self.pool()[k as int] == self.mempool@[k as int]@);
            let other = self.mempool[k].tx.id();
            if hash_eq(&other, id) {
                return true;
            }
            k += 1;
        }
        false
    }

    /// Whether some input of some mempool entry spends `(txid, index)`.
    fn mempool_spends_key(&self, txid: &Hash32, index: usize) -> (r: bool)
        ensures
            r == mempool_spends(self.pool(), (txid@, index)),
    {
        let mut k: usize = 0;
        while k < self.mempool.len()
            invariant
                k <= self.mempool@.len(),
                forall|m: int, j: int|
                    0 <= m < k && 0 <= j < self.pool()[m].tx.inputs.len() ==> input_key(
                        #[trigger] self.pool()[m].tx.inputs[j],
                    ) != (txid@, index),
            decreases self.mempool@.len() - k,
        {
            assert(self.pool()[k as int] == self.mempool@[k as int]@);
            let tx = &self.mempool[k].tx;
            let mut j: usize = 0;
            while j < tx.inputs.len()
                invariant
                    k < self.mempool@.len(),
                    tx == self.mempool@[k as int].tx,
                    j <= tx.inputs@.len(),
                    forall|i: int| 0 <= i < j ==> input_key(#[trigger] tx@.inputs[i]) != (txid@, index),
                decreases tx.inputs@.len() - j,
            {
                assert(tx@.inputs[j as int] == tx.inputs@[j as int]@);
                if tx.inputs[j].output_index == index && hash_eq(&tx.inputs[j].prev_tx_id, txid) {
                    assert(input_key(self.pool()[k as int].tx.inputs[j as int]) == (txid@, index));
                    return true;
                }
                j += 1;
            }
            k += 1;
        }
        false
    }

    /// Admits a transaction: its signatures verify, no mempool entry has its
    /// id, the ledger has not confirmed it, each input names a UTXO that no
    /// mempool entry spends, and those UTXOs hold at least what it pays out.
    /// The entry keeps the UTXOs as the ledger holds them.
    pub fn receive_transaction(&mut self, tx: Transaction) -> (r: Result<(), NodeError>)
        requires
            old(self).wf(),
        ensures
            final(self).wf(),
            r is Err ==> r == Err::<(), NodeError>(NodeError::InvalidSignature) || r == Err::<(), NodeError>(
                NodeError::Duplicate,
            ) || r == Err::<(), NodeError>(NodeError::AlreadyConfirmed) || r == Err::<(), NodeError>(
                NodeError::UnknownInput,
            ) || r == Err::<(), NodeError>(NodeError::DuplicateInput) || r == Err::<(), NodeError>(
                NodeError::InsufficientInputs,
            ),
            (r == Err::<(), NodeError>(NodeError::DuplicateInput)) <==> (signatures_valid(tx@)
                && !mempool_has_id(old(self).pool(), tx_id_of(tx@)) && !old(self).index().is_confirmed(tx_id_of(tx@))
                && inputs_available(old(self).index(), old(self).pool(), tx@) && !no_duplicate_keys(
                crate::miner::tx_keys(tx@),
            )),
            (r == Err::<(), NodeError>(NodeError::InsufficientInputs)) <==> (signatures_valid(tx@)
                && !mempool_has_id(old(self).pool(), tx_id_of(tx@)) && !old(self).index().is_confirmed(tx_id_of(tx@))
                && inputs_available(old(self).index(), old(self).pool(), tx@) && no_duplicate_keys(
                crate::miner::tx_keys(tx@),
            ) && entry_fee(
                resolved_inputs_of(old(self).index(), tx@),
                tx@.outputs,
            ) is None),
            r is Ok ==> final(self).pool().last().resolved_inputs == resolved_inputs_of(old(self).index(), tx@),
            final(self).chain() == old(self).chain(),
            final(self).index() == old(self).index(),
            r is Err ==> final(self).pool() == old(self).pool(),
            (r == Err::<(), NodeError>(NodeError::InvalidSignature)) <==> !signatures_valid(tx@),
            (r == Err::<(), NodeError>(NodeError::Duplicate)) <==> (signatures_valid(tx@)
                && mempool_has_id(old(self).pool(), tx_id_of(tx@))),
            (r == Err::<(), NodeError>(NodeError::AlreadyConfirmed)) <==> (signatures_valid(tx@)
                && !mempool_has_id(old(self).pool(), tx_id_of(tx@)) && old(self).index().is_confirmed(tx_id_of(tx@))),
            (r == Err::<(), NodeError>(NodeError::UnknownInput)) <==> (signatures_valid(tx@)
                && !mempool_has_id(old(self).pool(), tx_id_of(tx@)) && !old(self).index().is_confirmed(tx_id_of(tx@))
                && !inputs_available(old(self).index(), old(self).pool(), tx@)),
            r is Ok ==> signatures_valid(tx@) && !mempool_has_id(old(self).pool(), tx_id_of(tx@))
                && !old(self).index().is_confirmed(tx_id_of(tx@)) && inputs_available(old(self).index(), old(self).pool(), tx@)
                && no_duplicate_keys(crate::miner::tx_keys(tx@))
                && final(self).pool().len() == old(self).pool().len() + 1
                && final(self).pool().drop_last() == old(self).pool()
                && final(self).pool().last().tx == tx@
                && entry_fee(final(self).pool().last().resolved_inputs, tx@.outputs) is Some,
    {
        if !tx.validate() {
            return Err(NodeError::InvalidSignature);
        }
        let id = tx.id();
        if self.mempool_contains(&id) {
            return Err(NodeError::Duplicate);
        }
        if self.ledger.has_transaction(&id) {
            return Err(NodeError::AlreadyConfirmed);
        }
        let mut resolved: Vec<UTXO> = Vec::new();
        let mut j: usize = 0;
        while j < tx.inputs.len()
            invariant
                j <= tx.inputs@.len(),
                *self == *old(self),
                signatures_valid(tx@),
                id@ == tx_id_of(tx@),
                !mempool_has_id(self.pool(), tx_id_of(tx@)),
                !self.index().is_confirmed(tx_id_of(tx@)),
                self.wf(),
                forall|i: int|
                    0 <= i < j ==> has_key(self.index().utxo_set(), input_key(#[trigger] tx@.inputs[i]))
                        && !mempool_spends(self.pool(), input_key(tx@.inputs[i])),
                resolved@.len() == j,
                forall|i: int| 0 <= i < j ==> (#[trigger] resolved@[i])@ == utxo_with_key(
                    self.index().utxo_set(),
                    input_key(tx@.inputs[i]),
                ),
            decreases tx.inputs@.len() - j,
        {
            assert(tx@.inputs[j as int] == tx.inputs@[j as int]@);
            let input = &tx.inputs[j];
            match self.ledger.get_utxo(&input.prev_tx_id, input.output_index) {
                Some(u) => {
                    proof {
                        crate::ledger::lemma_utxo_with_key(self.index().utxo_set(), u@);
                    }
                    resolved.push(u);
                },
                None => {
                    return Err(NodeError::UnknownInput);
                },
            }
            if self.mempool_spends_key(&input.prev_tx_id, input.output_index) {
                return Err(NodeError::UnknownInput);
            }
            j += 1;
        }
        let keys = crate::miner::keys_of(&tx);
        if crate::block::has_duplicate_key(&keys) {
            return Err(NodeError::DuplicateInput);
        }
        let entry = MempoolEntry { tx, resolved_inputs: resolved };
        assert(entry@.resolved_inputs =~= resolved_inputs_of(self.index(), entry.tx@));
        if entry.calculate_fee().is_none() {
            return Err(NodeError::InsufficientInputs);
        }
        let ghost before = self.pool();
        self.mempool.push(entry);
        assert(self.pool().drop_last() =~= before);
        Ok(())
    }
}


/// A mempool entry stays while the ledger has not confirmed its transaction
/// and every input still names a UTXO of the ledger.
pub open spec fn entry_still_valid(l: Ledger, e: EntryV) -> bool {
    &&& !l.is_confirmed(tx_id_of(e.tx))
    &&& forall|j: int| 0 <= j < e.tx.inputs.len() ==> has_key(l.utxo_set(), input_key(#[trigger] e.tx.inputs[j]))
}

/// The entries of `m` that stay, in order.
pub open spec fn still_valid_entries(l: Ledger, m: Seq<EntryV>) -> Seq<EntryV>
    decreases m.len(),
{
    if m.len() == 0 {
        Seq::empty()
    } else if entry_still_valid(l, m.last()) {
        still_valid_entries(l, m.drop_last()).push(m.last())
    } else {
        still_valid_entries(l, m.drop_last())
    }
}

/// The ledger takes the block: its parent is the zero hash or a stored block
/// below the largest height, and its transactions apply in turn.
pub open spec fn ledger_accepts(l: Ledger, b: BlockV) -> bool {
    &&& (crate::ledger::is_zero(b.header.prev_block_hash) || (crate::ledger::parent_height(
        l.records(),
        b.header.prev_block_hash,
    ) matches Some(h) && h < usize::MAX))
    &&& txs_applicable(l.utxo_set(), b.transactions)
}

/// The UTXO set that applying the chain's blocks in order to an empty ledger gives.
pub open spec fn chain_utxos(c: Seq<BlockV>) -> Seq<crate::transaction::UtxoV>
    decreases c.len(),
{
    if c.len() == 0 {
        Seq::empty()
    } else {
        apply_txs(chain_utxos(c.drop_last()), c.last().transactions)
    }
}

/// Each block's transactions apply in turn to the UTXO set the blocks before it leave.
pub open spec fn chain_applies(c: Seq<BlockV>) -> bool
    decreases c.len(),
{
    if c.len() == 0 {
        true
    } else {
        chain_applies(c.drop_last()) && txs_applicable(chain_utxos(c.drop_last()), c.last().transactions)
    }
}

proof fn lemma_chain_applies_prefix(c: Seq<BlockV>, k: int)
    requires
        chain_applies(c),
        0 <= k <= c.len(),
    ensures
        chain_applies(c.subrange(0, k)),
    decreases c.len() - k,
{
    if k == c.len() {
        assert(c.subrange(0, k) =~= c);
    } else {
        lemma_chain_applies_prefix(c, k + 1);
        assert(c.subrange(0, k + 1).drop_last() =~= c.subrange(0, k));
    }
}

/// The ledger stores one header per chain block, in chain order, each with
/// that block's id and a height no larger than its position.
pub open spec fn ledger_follows_chain(l: Ledger, c: Seq<BlockV>) -> bool {
    &&& l.records().len() == c.len()
    &&& forall|h: int|
        0 <= h < c.len() ==> (#[trigger] l.records()[h]).block_hash == block_id_of(c[h]) && l.records()[h].height <= h
}

/// A ledger that follows the chain takes a block on the chain's tip as far as
/// its parent is concerned.
pub proof fn lemma_tip_parent(l: Ledger, c: Seq<BlockV>)
    requires
        ledger_follows_chain(l, c),
        c.len() <= usize::MAX,
    ensures
        crate::ledger::is_zero(tip_hash(c)) || (crate::ledger::parent_height(l.records(), tip_hash(c)) matches Some(
            h,
        ) && h < usize::MAX && h < c.len()),
{
    if c.len() == 0 {
        assert(crate::ledger::is_zero(crate::blockchain::zero_hash()));
    } else {
        let recs = l.records();
        assert(recs.last() == recs[c.len() - 1]);
        assert(tip_hash(c) == block_id_of(c[c.len() - 1]));
        assert(recs.last().block_hash == tip_hash(c));
    }
}

/// Appending the header of block `i` keeps the ledger following the chain.
proof fn lemma_follows_push(l: Ledger, c: Seq<BlockV>, i: int)
    requires
        0 <= i < c.len(),
        l.records().len() == i + 1,
        ledger_follows_chain_prefix(l.records().drop_last(), c, i),
        l.records().last().block_hash == block_id_of(c[i]),
        l.records().last().height <= i,
    ensures
        ledger_follows_chain(l, c.subrange(0, i + 1)),
{
    assert forall|h: int| 0 <= h < i + 1 implies (#[trigger] l.records()[h]).block_hash == block_id_of(
        c.subrange(0, i + 1)[h],
    ) && l.records()[h].height <= h by {
        if h < i {
            assert(l.records()[h] == l.records().drop_last()[h]);
        }
    }
}

/// Undoing blocks from the tip of a ledger that follows the chain drops
/// their headers from the end.
proof fn lemma_undo_records(
    recs: Seq<crate::ledger::RecordV>,
    us: Seq<crate::transaction::UtxoV>,
    c: Seq<BlockV>,
    n: int,
    count: nat,
)
    requires
        recs.len() == n,
        c.len() == n,
        count <= n,
        forall|h: int| 0 <= h < n ==> (#[trigger] recs[h]).block_hash == block_id_of(c[h]),
    ensures
        undo_blocks(recs, us, c, n, count) matches Ok(st) ==> st.0 == recs.subrange(0, n - count),
    decreases count,
{
    if count > 0 {
        lemma_undo_records(recs, us, c, n, (count - 1) as nat);
        if let Ok(st) = undo_blocks(recs, us, c, n, (count - 1) as nat) {
            let r = st.0;
            assert(r == recs.subrange(0, n - count + 1));
            assert(r.last() == recs[n - count]);
            assert(r.last().block_hash == block_id_of(c[n - count]));
            assert(crate::ledger::last_with_hash(r, block_id_of(c[n - count])) == Some(r.len() - 1));
            assert(r.remove(r.len() - 1) =~= recs.subrange(0, n - count));
        }
    }
}

/// The first `i` headers belong to the first `i` chain blocks.
pub open spec fn ledger_follows_chain_prefix(recs: Seq<crate::ledger::RecordV>, c: Seq<BlockV>, i: int) -> bool {
    &&& recs.len() == i
    &&& forall|h: int| 0 <= h < i ==> (#[trigger] recs[h]).block_hash == block_id_of(c[h]) && recs[h].height <= h
}

/// Every input of a block names a UTXO of the ledger.
pub open spec fn block_inputs_known(l: Ledger, b: BlockV) -> bool {
    forall|k: int|
        0 <= k < block_input_keys(b.transactions).len() ==> has_key(
            l.utxo_set(),
            #[trigger] block_input_keys(b.transactions)[k],
        )
}

/// A prefix of a valid chain is valid.
pub proof fn lemma_valid_chain_prefix(s: Seq<BlockV>, n: int)
    requires
        chain_valid(s),
        0 <= n <= s.len(),
    ensures
        chain_valid(s.subrange(0, n)),
{
    let p = s.subrange(0, n);
    assert forall|h: int| 0 < h < p.len() implies (#[trigger] p[h]).header.prev_block_hash == block_id_of(p[h - 1]) by {
        assert(p[h] == s[h] && p[h - 1] == s[h - 1]);
    }
    assert forall|h: int| 0 <= h < p.len() implies (#[trigger] block_check(p[h])) is Ok by {
        assert(p[h] == s[h]);
    }
}

impl Node {
    /// Whether every input of `block` names a UTXO of the ledger.
    fn inputs_known(&self, block: &Block) -> (r: bool)
        ensures
            r == block_inputs_known(self.index(), block@),
    {
        let keys = collect_input_keys(&block.transactions);
        let mut k: usize = 0;
        while k < keys.len()
            invariant
                k <= keys@.len(),
                keys_view(keys@) == block_input_keys(block@.transactions),
                forall|m: int| 0 <= m < k ==> has_key(self.index().utxo_set(), #[trigger] keys_view(keys@)[m]),
            decreases keys@.len() - k,
        {
            assert(keys_view(keys@)[k as int] == (keys@[k as int].0@, keys@[k as int].1));
            if self.ledger.get_utxo(&keys[k].0, keys[k].1).is_none() {
                return false;
            }
            k += 1;
        }
        true
    }

    /// Drops the entries that the ledger now confirms or whose inputs are gone.
    fn invalidate_mempool(&mut self)
        ensures
            final(self).pool() == still_valid_entries(old(self).index(), old(self).pool()),
            final(self).index() == old(self).index(),
            final(self).chain() == old(self).chain(),
    {
        let ghost l = self.index();
        let mut kept: Vec<MempoolEntry> = Vec::new();
        let mut i: usize = 0;
        while i < self.mempool.len()
            invariant
                i <= self.mempool@.len(),
                l == self.index(),
                self.pool() == old(self).pool(),
                self.index() == old(self).index(),
                self.chain() == old(self).chain(),
                entries_view(kept@) == still_valid_entries(l, entries_view(self.mempool@.subrange(0, i as int))),
            decreases self.mempool@.len() - i,
        {
            let ghost cur = entries_view(self.mempool@.subrange(0, i + 1 as int));
            assert(cur.drop_last() =~= entries_view(self.mempool@.subrange(0, i as int)));
            assert(cur.last() == self.mempool@[i as int]@);
            let entry = &self.mempool[i];
            let id = entry.tx.id();
            let mut ok = !self.ledger.has_transaction(&id);
            let mut j: usize = 0;
            while ok && j < entry.tx.inputs.len()
                invariant
                    j <= entry.tx.inputs@.len(),
                    ok ==> forall|m: int| 0 <= m < j ==> has_key(l.utxo_set(), input_key(#[trigger] entry.tx@.inputs[m])),
                    !ok ==> !entry_still_valid(l, entry@),
                    l == self.index(),
                    id@ == tx_id_of(entry.tx@),
                    ok ==> !l.is_confirmed(tx_id_of(entry.tx@)),
                decreases entry.tx.inputs@.len() - j,
            {
                assert(entry.tx@.inputs[j as int] == entry.tx.inputs@[j as int]@);
                if self.ledger.get_utxo(&entry.tx.inputs[j].prev_tx_id, entry.tx.inputs[j].output_index).is_none() {
                    ok = false;
                }
                j += 1;
            }
            assert(ok == entry_still_valid(l, entry@));
            if ok {
                let ghost prev = entries_view(kept@);
                kept.push(entry.clone_entry());
                assert(entries_view(kept@) =~= prev.push(entry@));
            }
            i += 1;
        }
        assert(self.mempool@.subrange(0, self.mempool@.len() as int) =~= self.mempool@);
        self.mempool = kept;
    }

    /// Appends a block: it points at the tip and is valid, its inputs name
    /// UTXOs of the ledger, and the ledger applies it; then the mempool
    /// drops what it confirms or spends. On failure nothing changes.
    pub fn submit_block(&mut self, block: Block) -> (r: Result<(), NodeError>)
        requires
            old(self).wf(),
        ensures
            final(self).wf(),
            r is Err ==> final(self).chain() == old(self).chain() && final(self).index() == old(self).index()
                && final(self).pool() == old(self).pool(),
            (block@.header.prev_block_hash != tip_hash(old(self).chain())) <==> r == Err::<(), NodeError>(
                NodeError::Chain(ChainError::PrevHashMismatch),
            ),
            block@.header.prev_block_hash == tip_hash(old(self).chain()) && block_check(block@) is Err ==> r
                == Err::<(), NodeError>(NodeError::Chain(ChainError::InvalidBlock(block_check(block@)->Err_0))),
            block@.header.prev_block_hash == tip_hash(old(self).chain()) && block_check(block@) is Ok ==> (r
                == Err::<(), NodeError>(NodeError::UnknownInput) <==> !block_inputs_known(old(self).index(), block@)),
            block@.header.prev_block_hash == tip_hash(old(self).chain()) && block_check(block@) is Ok
                && block_inputs_known(old(self).index(), block@) ==> (r is Ok <==> ledger_accepts(old(self).index(), block@)),
            r is Err ==> r == Err::<(), NodeError>(NodeError::Chain(ChainError::PrevHashMismatch)) || (r matches Err(
                NodeError::Chain(ChainError::InvalidBlock(_)),
            )) || r == Err::<(), NodeError>(NodeError::UnknownInput) || (r matches Err(NodeError::Ledger(_))),
            block@.header.prev_block_hash == tip_hash(old(self).chain()) && block_check(block@) is Ok
                && block_inputs_known(old(self).index(), block@) && txs_applicable(old(self).index().utxo_set(), block@.transactions)
                ==> r is Ok,
            r is Ok ==> final(self).index().records().drop_last() == old(self).index().records()
                && final(self).index().records().last().tx_ids == crate::ledger::tx_ids_of(block@.transactions)
                && final(self).index().records().last().spent == crate::ledger::spent_by_txs(
                old(self).index().utxo_set(),
                block@.transactions,
            ) && final(self).index().records().last().block_hash == block_id_of(block@),
            r is Ok ==> forall|k: int|
                0 <= k < block@.transactions.len() ==> final(self).index().is_confirmed(
                    tx_id_of(#[trigger] block@.transactions[k]),
                ),
            r is Ok ==> block_inputs_known(old(self).index(), block@)
                && final(self).chain() == old(self).chain().push(block@)
                && final(self).index().utxo_set() == apply_txs(old(self).index().utxo_set(), block@.transactions)
                && final(self).pool() == still_valid_entries(final(self).index(), old(self).pool()),
    {
        let last = self.blockchain.get_last_block_hash();
        if !hash_eq(&block.header.prev_block_hash, &last) {
            return Err(NodeError::Chain(ChainError::PrevHashMismatch));
        }
        match block.validate() {
            Ok(()) => {},
            Err(e) => {
                return Err(NodeError::Chain(ChainError::InvalidBlock(e)));
            },
        }
        if !self.inputs_known(&block) {
            return Err(NodeError::UnknownInput);
        }
        let n_blocks = self.blockchain.chain.len();
        let ghost old_chain = self.chain();
        let ghost old_recs = self.index().records();
        proof {
            assert(old_chain.len() == n_blocks);
            lemma_tip_parent(self.index(), old_chain);
        }
        match self.ledger.apply_block(&block) {
            Ok(()) => {},
            Err(e) => {
                return Err(NodeError::Ledger(e));
            },
        }
        let ghost txs = block@.transactions;
        let res = self.blockchain.add_block(block);
        assert(res is Ok);
        self.invalidate_mempool();
        proof {
            let c = old_chain.push(block@);
            assert(self.chain() == c);
            assert(ledger_follows_chain_prefix(self.index().records().drop_last(), c, old_chain.len() as int)) by {
                assert forall|h: int| 0 <= h < old_chain.len() implies (#[trigger] self.index().records().drop_last()[h]).block_hash
                    == block_id_of(c[h]) && self.index().records().drop_last()[h].height <= h by {
                    assert(self.index().records().drop_last()[h] == old_recs[h]);
                    assert(c[h] == old_chain[h]);
                }
            }
            lemma_follows_push(self.index(), c, old_chain.len() as int);
            assert(c.subrange(0, old_chain.len() as int + 1) =~= c);
            let recs = self.index().records();
            let last = recs.len() - 1;
            assert(recs[last] == recs.last());
            assert forall|k: int| 0 <= k < txs.len() implies self.index().is_confirmed(tx_id_of(#[trigger] txs[k])) by {
                assert(crate::ledger::tx_ids_of(txs)[k] == tx_id_of(txs[k]));
                assert(recs[last].tx_ids.contains(tx_id_of(txs[k])));
            }
        }
        Ok(())
    }
}

impl MempoolEntry {
    /// A copy of this entry.
    pub fn clone_entry(&self) -> (r: MempoolEntry)
        ensures
            r@ == self@,
    {
        MempoolEntry { tx: self.tx.duplicate(), resolved_inputs: crate::ledger::duplicate_utxos(&self.resolved_inputs) }
    }
}


/// Some block of the chain has id `id`.
pub open spec fn chain_has_block(c: Seq<BlockV>, id: Seq<u8>) -> bool {
    exists|h: int| 0 <= h < c.len() && block_id_of(#[trigger] c[h]) == id
}

impl Node {
    /// Mines a block on the tip from the mempool and submits it; returns a copy.
    pub fn mine(&mut self, date: Vec<u8>, max_attempts: u64) -> (r: Result<Block, NodeError>)
        requires
            old(self).wf(),
        ensures
            final(self).wf(),
            r matches Ok(b) ==> final(self).chain() == old(self).chain().push(b@)
                && has_leading_zero_bits(block_id_of(b@), DIFFICULTY as nat)
                && b@.header.prev_block_hash == tip_hash(old(self).chain()),
            (r == Err::<Block, NodeError>(NodeError::Mining(MinerError::IndexExhausted))) <==> old(self).miner_wallet().next_index()
                == u32::MAX,
            r is Err ==> r == Err::<Block, NodeError>(NodeError::Mining(MinerError::IndexExhausted)) || r == Err::<
                Block,
                NodeError,
            >(NodeError::Mining(MinerError::FeeOverflow)) || r == Err::<Block, NodeError>(
                NodeError::Mining(MinerError::MiningExhausted),
            ) || (r matches Err(NodeError::Chain(ChainError::InvalidBlock(_)))) || r == Err::<Block, NodeError>(
                NodeError::UnknownInput,
            ) || (r matches Err(NodeError::Ledger(_))),
            r matches Ok(b) ==> exists|c: BlockV|
                #[trigger] crate::miner::candidate_of(
                    old(self).pool_entries(),
                    old(self).miner_wallet().master(),
                    old(self).miner_wallet().next_index(),
                    tip_hash(old(self).chain()),
                    date@,
                    c,
                ) && b@ == crate::miner::with_nonce(c, b@.header.nonce) && b@.header.nonce < max_attempts,
            r == Err::<Block, NodeError>(NodeError::Mining(MinerError::MiningExhausted)) ==> exists|c: BlockV|
                #[trigger] crate::miner::candidate_of(
                    old(self).pool_entries(),
                    old(self).miner_wallet().master(),
                    old(self).miner_wallet().next_index(),
                    tip_hash(old(self).chain()),
                    date@,
                    c,
                ) && forall|n: int|
                    0 <= n < max_attempts && n <= u32::MAX ==> !has_leading_zero_bits(
                        #[trigger] block_id_of(crate::miner::with_nonce(c, n as u32)),
                        DIFFICULTY as nat,
                    ),
            r is Err ==> final(self).chain() == old(self).chain() && final(self).index() == old(self).index(),
    {
        let prev = self.blockchain.get_last_block_hash();
        let ghost entries = self.mempool@;
        let ghost date_v = date@;
        let ghost w = self.miner_wallet();
        let mut candidate = match self.miner.build_block(&self.mempool, prev, date) {
            Ok(b) => b,
            Err(e) => {
                return Err(NodeError::Mining(e));
            },
        };
        let ghost cand_txs = candidate@.transactions;
        let ghost cand = candidate@;
        assert(entries == old(self).pool_entries());
        assert(w == old(self).miner_wallet());
        assert(crate::miner::candidate_of(entries, w.master(), w.next_index(), tip_hash(old(self).chain()), date_v, cand));
        match mine_block(&mut candidate, DIFFICULTY, max_attempts) {
            Ok(()) => {},
            Err(e) => {
                assert(forall|n: int|
                    0 <= n < max_attempts && n <= u32::MAX ==> !has_leading_zero_bits(
                        #[trigger] block_id_of(crate::miner::with_nonce(cand, n as u32)),
                        DIFFICULTY as nat,
                    ));
                return Err(NodeError::Mining(e));
            },
        }
        let copy = candidate.duplicate();
        assert(copy@.transactions == cand_txs);
        match self.submit_block(candidate) {
            Ok(()) => Ok(copy),
            Err(e) => Err(e),
        }
    }

    /// Whether the chain holds a block with id `id`.
    pub fn has_block(&self, id: &Hash32) -> (r: bool)
        ensures
            r == chain_has_block(self.chain(), id@),
    {
        let mut h: usize = 0;
        while h < self.blockchain.chain.len()
            invariant
                h <= self.chain().len(),
                self.chain() == blocks_view(self.blockchain.chain@),
                forall|k: int| 0 <= k < h ==> block_id_of(#[trigger] self.chain()[k]) != id@,
            decreases self.chain().len() - h,
        {
            assert(self.chain()[h as int] == self.blockchain.chain@[h as int]@);
            let bid = self.blockchain.chain[h].header_hash();
            if hash_eq(&bid, id) {
                return true;
            }
            h += 1;
        }
        false
    }

    /// A block received from a peer: nothing happens when the chain already
    /// holds it (`Ok(false)`); otherwise it is submitted (`Ok(true)` once
    /// appended).
    pub fn handle_received_block(&mut self, block: Block) -> (r: Result<bool, NodeError>)
        requires
            old(self).wf(),
        ensures
            final(self).wf(),
            chain_has_block(old(self).chain(), block_id_of(block@)) ==> r == Ok::<bool, NodeError>(false)
                && final(self).chain() == old(self).chain() && final(self).pool() == old(self).pool(),
            !chain_has_block(old(self).chain(), block_id_of(block@)) ==> r != Ok::<bool, NodeError>(false),
            !chain_has_block(old(self).chain(), block_id_of(block@)) && block@.header.prev_block_hash == tip_hash(
                old(self).chain(),
            ) && block_check(block@) is Ok && block_inputs_known(old(self).index(), block@) ==> (r == Ok::<bool, NodeError>(true)
                <==> ledger_accepts(old(self).index(), block@)),
            !chain_has_block(old(self).chain(), block_id_of(block@)) && block@.header.prev_block_hash == tip_hash(
                old(self).chain(),
            ) && block_check(block@) is Ok && block_inputs_known(old(self).index(), block@) && txs_applicable(
                old(self).index().utxo_set(),
                block@.transactions,
            ) ==> r == Ok::<bool, NodeError>(true),
            !chain_has_block(old(self).chain(), block_id_of(block@)) && block@.header.prev_block_hash != tip_hash(
                old(self).chain(),
            ) ==> r == Err::<bool, NodeError>(NodeError::Chain(ChainError::PrevHashMismatch)),
            r == Ok::<bool, NodeError>(true) ==> final(self).chain() == old(self).chain().push(block@),
            r is Err ==> final(self).chain() == old(self).chain() && final(self).pool() == old(self).pool(),
    {
        let id = block.header_hash();
        if self.has_block(&id) {
            return Ok(false);
        }
        match self.submit_block(block) {
            Ok(()) => Ok(true),
            Err(e) => Err(e),
        }
    }

    /// The chain's blocks after the one with id `last_known`, up to the tip;
    /// every block when `last_known` is the zero hash; none when it is unknown.
    pub fn blocks_after(&self, last_known: &Hash32) -> (r: Vec<Block>)
        ensures
            crate::ledger::is_zero(last_known@) ==> crate::blockchain::blocks_view(r@) == self.chain(),
            !crate::ledger::is_zero(last_known@) && !chain_has_block(self.chain(), last_known@) ==> r@.len() == 0,
            !crate::ledger::is_zero(last_known@) && chain_has_block(self.chain(), last_known@) ==> exists|h: int|
                0 <= h < self.chain().len() && block_id_of(#[trigger] self.chain()[h]) == last_known@
                    && crate::blockchain::blocks_view(r@) == self.chain().subrange(h + 1, self.chain().len() as int),
    {
        let z: Hash32 = [0u8; 32];
        let mut start: usize = 0;
        if hash_eq(last_known, &z) {
            assert(crate::ledger::is_zero(last_known@));
        } else {
            assert(!crate::ledger::is_zero(last_known@)) by {
                if crate::ledger::is_zero(last_known@) {
                    assert(last_known@ =~= z@);
                }
            }
            let mut found: Option<usize> = None;
            let mut h: usize = 0;
            while h < self.blockchain.chain.len()
                invariant
                    h <= self.chain().len(),
                    self.chain() == blocks_view(self.blockchain.chain@),
                    found is None ==> forall|k: int| 0 <= k < h ==> block_id_of(#[trigger] self.chain()[k]) != last_known@,
                    found matches Some(f) ==> f < self.chain().len() && block_id_of(self.chain()[f as int]) == last_known@,
                decreases self.chain().len() - h,
            {
                assert(self.chain()[h as int] == self.blockchain.chain@[h as int]@);
                if found.is_none() {
                    let bid = self.blockchain.chain[h].header_hash();
                    if hash_eq(&bid, last_known) {
                        found = Some(h);
                    }
                }
                h += 1;
            }
            match found {
                Some(f) => {
                    start = f + 1;
                },
                None => {
                    return Vec::new();
                },
            }
        }
        let mut out: Vec<Block> = Vec::new();
        let mut i: usize = start;
        while i < self.blockchain.chain.len()
            invariant
                start <= i <= self.chain().len(),
                self.chain() == blocks_view(self.blockchain.chain@),
                blocks_view(out@) == self.chain().subrange(start as int, i as int),
            decreases self.chain().len() - i,
        {
            let ghost prev = blocks_view(out@);
            assert(self.chain()[i as int] == self.blockchain.chain@[i as int]@);
            out.push(self.blockchain.chain[i].duplicate());
            i += 1;
            assert(blocks_view(out@) =~= prev.push(self.chain()[i - 1]));
            assert(self.chain().subrange(start as int, i as int) =~= self.chain().subrange(start as int, i - 1).push(
                self.chain()[i - 1],
            ));
        }
        if start == 0 {
            assert(self.chain().subrange(0, self.chain().len() as int) =~= self.chain());
        }
        out
    }

    /// Removes the `count` newest blocks, all or none: the ledger undoes them
    /// tip first, and the transactions other than the coinbase of each, tip
    /// block first, go back to the mempool unless it already has their id.
    /// Refused unless `0 < count < chain length`, and when the ledger cannot
    /// undo one of the blocks; either way nothing changes then.
    pub fn rollback_blocks(&mut self, count: u32) -> (r: Result<(), NodeError>)
        requires
            old(self).wf(),
        ensures
            final(self).wf(),
            (r == Err::<(), NodeError>(NodeError::InvalidRollbackCount)) <==> (count == 0 || count
                >= old(self).chain().len()),
            r is Err ==> final(self).chain() == old(self).chain() && final(self).index() == old(self).index()
                && final(self).pool() == old(self).pool(),
            0 < count < old(self).chain().len() ==> match undo_blocks(
                old(self).index().records(),
                old(self).index().utxo_set(),
                old(self).chain(),
                old(self).chain().len() as int,
                count as nat,
            ) {
                Ok(st) => r is Ok && final(self).index().records() == st.0 && final(self).index().utxo_set() == st.1,
                Err(e) => r == Err::<(), NodeError>(NodeError::Ledger(e)),
            },
            r is Ok ==> final(self).chain() == old(self).chain().subrange(0, old(self).chain().len() - count),
            r is Ok ==> pool_txs(final(self).pool()) == readmit(
                pool_txs(old(self).pool()),
                popped_txs(old(self).chain(), old(self).chain().len() as int, count as nat),
            ),
    {
        let n = self.blockchain.chain.len();
        if count == 0 || count as usize >= n {
            return Err(NodeError::InvalidRollbackCount);
        }
        let ghost old_chain = self.chain();
        let ghost recs0 = self.index().records();
        let ghost us0 = self.index().utxo_set();
        let mut scratch = self.ledger.duplicate();
        let mut step: u32 = 0;
        while step < count
            invariant
                step <= count,
                (count as int) < n,
                n == old_chain.len(),
                *self == *old(self),
                self.wf(),
                old_chain == old(self).chain(),
                recs0 == old(self).index().records(),
                us0 == old(self).index().utxo_set(),
                self.chain() == blocks_view(self.blockchain.chain@),
                scratch.wf(),
                undo_blocks(recs0, us0, old_chain, n as int, step as nat) == Ok::<
                    (Seq<crate::ledger::RecordV>, Seq<crate::transaction::UtxoV>),
                    LedgerError,
                >((scratch.records(), scratch.utxo_set())),
            decreases count - step,
        {
            let idx = n - 1 - step as usize;
            assert(old_chain[idx as int] == self.blockchain.chain@[idx as int]@);
            match scratch.rollback_block(&self.blockchain.chain[idx]) {
                Ok(()) => {},
                Err(e) => {
                    proof {
                        lemma_undo_blocks_err(recs0, us0, old_chain, n as int, (step + 1) as nat, count as nat);
                    }
                    return Err(NodeError::Ledger(e));
                },
            }
            step += 1;
        }
        let ghost old_pool = self.pool();
        self.ledger = scratch;
        let ghost fin = self.index();
        assert(undo_blocks(recs0, us0, old_chain, n as int, count as nat) == Ok::<
            (Seq<crate::ledger::RecordV>, Seq<crate::transaction::UtxoV>),
            LedgerError,
        >((fin.records(), fin.utxo_set())));
        let mut step: u32 = 0;
        while step < count
            invariant
                step <= count,
                (count as int) < n,
                n == old_chain.len(),
                chain_valid(old_chain),
                old_chain == old(self).chain(),
                old_pool == old(self).pool(),
                self.index() == fin,
                fin.wf(),
                undo_blocks(recs0, us0, old_chain, n as int, count as nat) == Ok::<
                    (Seq<crate::ledger::RecordV>, Seq<crate::transaction::UtxoV>),
                    LedgerError,
                >((fin.records(), fin.utxo_set())),
                recs0 == old(self).index().records(),
                us0 == old(self).index().utxo_set(),
                self.chain() == old_chain.subrange(0, n - step),
                pool_txs(self.pool()) == readmit(pool_txs(old_pool), popped_txs(old_chain, n as int, step as nat)),
            decreases count - step,
        {
            let ghost before_pop = self.blockchain.chain@;
            let ghost chain_before = self.chain();
            assert(blocks_view(before_pop) == chain_before);
            let block = match self.blockchain.chain.pop() {
                Some(b) => b,
                None => {
                    return Err(NodeError::InvalidRollbackCount);
                },
            };
            assert(block@ == chain_before.last());
            assert(chain_before.last() == old_chain[n - step - 1]);
            proof {
                lemma_valid_chain_prefix(old_chain, n - step - 1);
                assert(self.blockchain.chain@ == before_pop.drop_last());
                assert(blocks_view(before_pop.drop_last()) =~= chain_before.drop_last());
                assert(self.chain() =~= old_chain.subrange(0, n - step - 1));
            }
            let ghost done = popped_txs(old_chain, n as int, step as nat);
            let mut t: usize = 0;
            while t < block.transactions.len()
                invariant
                    fin.wf(),
                    step < count,
                    (count as int) < n,
                    n == old_chain.len(),
                    self.index() == fin,
                    self.chain() == old_chain.subrange(0, n - step - 1),
                    t <= block.transactions@.len(),
                    block@ == old_chain[n - step - 1],
                    pool_txs(self.pool()) == readmit(pool_txs(old_pool), done + block@.transactions.subrange(0, t as int)),
                decreases block.transactions@.len() - t,
            {
                let ghost seen = done + block@.transactions.subrange(0, t as int);
                let ghost next = done + block@.transactions.subrange(0, t + 1 as int);
                assert(next.drop_last() =~= seen);
                let tx = &block.transactions[t];
                assert(block@.transactions[t as int] == tx@);
                assert(next.last() == tx@);
                let coinbase = tx.is_coinbase();
                let id = tx.id();
                let present = self.mempool_contains(&id);
                proof {
                    lemma_pool_has_id(self.pool(), id@);
                }
                if !coinbase && !present {
                    let mut resolved: Vec<UTXO> = Vec::new();
                    let mut j: usize = 0;
                    while j < tx.inputs.len()
                        invariant
                            j <= tx.inputs@.len(),
                        decreases tx.inputs@.len() - j,
                    {
                        match self.ledger.get_utxo(&tx.inputs[j].prev_tx_id, tx.inputs[j].output_index) {
                            Some(u) => resolved.push(u),
                            None => {},
                        }
                        j += 1;
                    }
                    let ghost before = self.pool();
                    self.mempool.push(MempoolEntry { tx: tx.duplicate(), resolved_inputs: resolved });
                    assert(self.pool() =~= before.push(self.pool().last()));
                    assert(pool_txs(self.pool()) =~= pool_txs(before).push(tx@));
                }
                t += 1;
            }
            assert(block@.transactions.subrange(0, block@.transactions.len() as int) =~= block@.transactions);
            assert(popped_txs(old_chain, n as int, (step + 1) as nat) == done + old_chain[n - (step + 1)].transactions);
            step += 1;
        }
        proof {
            lemma_undo_records(recs0, us0, old_chain, n as int, count as nat);
            let c2 = old_chain.subrange(0, n - count);
            assert forall|h: int| 0 <= h < c2.len() implies (#[trigger] fin.records()[h]).block_hash == block_id_of(c2[h])
                && fin.records()[h].height <= h by {
                assert(fin.records()[h] == recs0[h]);
                assert(c2[h] == old_chain[h]);
            }
        }
        Ok(())
    }
}

/// The transactions of a pool, in order.
pub open spec fn pool_txs(pool: Seq<EntryV>) -> Seq<TxV> {
    pool.map_values(|e: EntryV| e.tx)
}

/// Some transaction of `p` has id `id`.
pub open spec fn txs_have_id(p: Seq<TxV>, id: Seq<u8>) -> bool {
    exists|k: int| 0 <= k < p.len() && tx_id_of(#[trigger] p[k]) == id
}

proof fn lemma_pool_has_id(pool: Seq<EntryV>, id: Seq<u8>)
    ensures
        mempool_has_id(pool, id) == txs_have_id(pool_txs(pool), id),
{
    if mempool_has_id(pool, id) {
        let k = choose|k: int| 0 <= k < pool.len() && tx_id_of((#[trigger] pool[k]).tx) == id;
        assert(pool_txs(pool)[k] == pool[k].tx);
    }
    if txs_have_id(pool_txs(pool), id) {
        let k = choose|k: int| 0 <= k < pool_txs(pool).len() && tx_id_of(#[trigger] pool_txs(pool)[k]) == id;
        assert(pool_txs(pool)[k] == pool[k].tx);
    }
}

/// `p` followed by each transaction of `ts` that is not a coinbase and whose
/// id is not yet there.
pub open spec fn readmit(p: Seq<TxV>, ts: Seq<TxV>) -> Seq<TxV>
    decreases ts.len(),
{
    if ts.len() == 0 {
        p
    } else {
        let q = readmit(p, ts.drop_last());
        if !is_coinbase_tx(ts.last()) && !txs_have_id(q, tx_id_of(ts.last())) {
            q.push(ts.last())
        } else {
            q
        }
    }
}

/// The transactions of blocks `c[n - s..n]`, tip block first, each block's in order.
pub open spec fn popped_txs(c: Seq<BlockV>, n: int, s: nat) -> Seq<TxV>
    decreases s,
{
    if s == 0 {
        Seq::empty()
    } else {
        popped_txs(c, n, (s - 1) as nat) + c[n - s].transactions
    }
}

impl Node {
    /// The tip's id, or the zero hash for an empty chain.
    pub fn tip(&self) -> (r: Hash32)
        ensures
            r@ == tip_hash(self.chain()),
    {
        self.blockchain.get_last_block_hash()
    }

    /// Whether the mempool or the ledger knows the transaction `id`.
    pub fn has_transaction_anywhere(&self, id: &Hash32) -> (r: bool)
        ensures
            r == (mempool_has_id(self.pool(), id@) || self.index().is_confirmed(id@)),
    {
        self.mempool_contains(id) || self.ledger.has_transaction(id)
    }
}


impl Node {
    /// A copy of the chain's block with id `id`, if there is one.
    pub fn find_block(&self, id: &Hash32) -> (r: Option<Block>)
        ensures
            r is None <==> !chain_has_block(self.chain(), id@),
            r matches Some(b) ==> block_id_of(b@) == id@ && self.chain().contains(b@),
    {
        let mut h: usize = 0;
        while h < self.blockchain.chain.len()
            invariant
                h <= self.chain().len(),
                self.chain() == blocks_view(self.blockchain.chain@),
                forall|k: int| 0 <= k < h ==> block_id_of(#[trigger] self.chain()[k]) != id@,
            decreases self.chain().len() - h,
        {
            assert(self.chain()[h as int] == self.blockchain.chain@[h as int]@);
            let bid = self.blockchain.chain[h].header_hash();
            if hash_eq(&bid, id) {
                return Some(self.blockchain.chain[h].duplicate());
            }
            h += 1;
        }
        None
    }

    /// A copy of the transaction with id `id`: from the mempool, else from
    /// the chain.
    pub fn find_transaction(&self, id: &Hash32) -> (r: Option<Transaction>)
        ensures
            r matches Some(t) ==> tx_id_of(t@) == id@,
            r is None ==> !mempool_has_id(self.pool(), id@),
    {
        let mut k: usize = 0;
        while k < self.mempool.len()
            invariant
                k <= self.mempool@.len(),
                forall|m: int| 0 <= m < k ==> tx_id_of((#[trigger] self.pool()[m]).tx) != id@,
            decreases self.mempool@.len() - k,
        {
            assert(self.pool()[k as int] == self.mempool@[k as int]@);
            let other = self.mempool[k].tx.id();
            if hash_eq(&other, id) {
                return Some(self.mempool[k].tx.duplicate());
            }
            k += 1;
        }
        let mut h: usize = 0;
        while h < self.blockchain.chain.len()
            invariant
                h <= self.blockchain.chain@.len(),
            decreases self.blockchain.chain@.len() - h,
        {
            let block = &self.blockchain.chain[h];
            let mut t: usize = 0;
            while t < block.transactions.len()
                invariant
                    t <= block.transactions@.len(),
                decreases block.transactions@.len() - t,
            {
                let other = block.transactions[t].id();
                if hash_eq(&other, id) {
                    return Some(block.transactions[t].duplicate());
                }
                t += 1;
            }
            h += 1;
        }
        None
    }
}

} // verus!
