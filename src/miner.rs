//! Block assembly: a double-spend-free subset of the mempool, ordered by fee
//! per byte, packed under the size limit behind a coinbase, then a nonce
//! search for the proof of work.

use vstd::prelude::*;
use crate::block::{
    Block, DIFFICULTY, MAX_BLOCK_SIZE, block_id_of, block_input_keys, keys_view, no_duplicate_keys,
    txs_merkle_root, txs_view,
};
use crate::hash::{Hash32, has_leading_zero_bits, hash_eq, hash_starts_with_zero_bits};
use crate::mempool::{MempoolEntry, entry_fee};
use crate::ledger::utxos_view;
use crate::transaction::{BLOCK_REWARD, OutputV, Transaction, TxV, input_key, inputs_view, tx_bytes};
use crate::wallet::{Wallet, branch_address};
use crate::block::{BlockV, block_size, header_bytes_of};

verus! {

/// Why no block came out of the miner.
#[derive(Debug, Clone, Copy, PartialEq, Eq)]
pub enum MinerError {
    MiningExhausted,
    IndexExhausted,
    FeeOverflow,
}

/// The input keys of one transaction.
pub open spec fn tx_keys(t: TxV) -> Seq<(Seq<u8>, usize)> {
    t.inputs.map_values(|i| input_key(i))
}

/// Entries kept by the sweep over `txs`, as positions: an entry is kept when
/// it has inputs, its input keys are distinct, and none was claimed by an
/// entry kept before it.
pub open spec fn legit_positions(txs: Seq<TxV>) -> Seq<int>
    decreases txs.len(),
{
    if txs.len() == 0 {
        Seq::empty()
    } else {
        let prev = legit_positions(txs.drop_last());
        let claimed = claimed_keys(txs, prev);
        let keys = tx_keys(txs.last());
        if keys.len() > 0 && no_duplicate_keys(keys) && forall|k: int| 0 <= k < keys.len() ==> !claimed.contains(#[trigger] keys[k]) {
            prev.push(txs.len() - 1)
        } else {
            prev
        }
    }
}

/// Every input key of the entries at `positions`, in order.
pub open spec fn claimed_keys(txs: Seq<TxV>, positions: Seq<int>) -> Seq<(Seq<u8>, usize)>
    decreases positions.len(),
{
    if positions.len() == 0 {
        Seq::empty()
    } else {
        claimed_keys(txs, positions.drop_last()) + tx_keys(txs[positions.last()])
    }
}

/// `order` lists each of `0..keys.len()` once, by key descending, ties by position.
pub open spec fn ordered_by_key(keys: Seq<u64>, order: Seq<usize>) -> bool {
    &&& order.len() == keys.len()
    &&& forall|a: int| 0 <= a < order.len() ==> (#[trigger] order[a]) < keys.len()
    &&& forall|a: int, b: int| 0 <= a < b < order.len() ==> order[a] != order[b]
    &&& forall|a: int, b: int|
        0 <= a < b < order.len() ==> keys[order[a] as int] > keys[order[b] as int] || (keys[order[a] as int]
            == keys[order[b] as int] && order[a] < order[b])
}

/// Stable insertion sort of positions by key, largest first.
pub fn order_by_key(keys: &Vec<u64>) -> (r: Vec<usize>)
    ensures
        ordered_by_key(keys@, r@),
{
    let mut out: Vec<usize> = Vec::new();
    let mut i: usize = 0;
    while i < keys.len()
        invariant
            i <= keys@.len(),
            out@.len() == i,
            forall|a: int| 0 <= a < out@.len() ==> (#[trigger] out@[a]) < i,
            forall|a: int, b: int| 0 <= a < b < out@.len() ==> out@[a] != out@[b],
            forall|a: int, b: int|
                0 <= a < b < out@.len() ==> keys@[out@[a] as int] > keys@[out@[b] as int] || (keys@[out@[a] as int]
                    == keys@[out@[b] as int] && out@[a] < out@[b]),
        decreases keys@.len() - i,
    {
        let key = keys[i];
        let mut p: usize = 0;
        while p < out.len() && keys[out[p]] >= key
            invariant
                p <= out@.len(),
                forall|a: int| 0 <= a < out@.len() ==> (#[trigger] out@[a]) < i,
                i < keys@.len(),
                key == keys@[i as int],
                forall|a: int| 0 <= a < p ==> keys@[(#[trigger] out@[a]) as int] >= key,
            decreases out@.len() - p,
        {
            p += 1;
        }
        let ghost old_out = out@;
        out.insert(p, i);
        assert(out@ == old_out.insert(p as int, i));
        assert forall|a: int, b: int| 0 <= a < b < out@.len() implies keys@[out@[a] as int] > keys@[out@[b] as int]
            || (keys@[out@[a] as int] == keys@[out@[b] as int] && out@[a] < out@[b]) by {
            if b < p {
                assert(out@[a] == old_out[a] && out@[b] == old_out[b]);
            } else if b == p {
                assert(out@[a] == old_out[a]);
            } else if a == p {
                assert(out@[b] == old_out[b - 1]);
                assert(p < old_out.len());
                assert(keys@[old_out[p as int] as int] < key);
                if b - 1 > p {
                    assert(keys@[old_out[p as int] as int] >= keys@[old_out[b - 1] as int]);
                }
            } else if a < p {
                assert(out@[a] == old_out[a] && out@[b] == old_out[b - 1]);
            } else {
                assert(out@[a] == old_out[a - 1] && out@[b] == old_out[b - 1]);
            }
        }
        assert forall|a: int, b: int| 0 <= a < b < out@.len() implies out@[a] != out@[b] by {
            if a < p {
                assert(out@[a] == old_out[a]);
            } else if a > p {
                assert(out@[a] == old_out[a - 1]);
            }
            if b < p {
                assert(out@[b] == old_out[b]);
            } else if b > p {
                assert(out@[b] == old_out[b - 1]);
            }
        }
        assert forall|a: int| 0 <= a < out@.len() implies (#[trigger] out@[a]) < i + 1 by {
            if a < p {
                assert(out@[a] == old_out[a]);
            } else if a > p {
                assert(out@[a] == old_out[a - 1]);
            }
        }
        i += 1;
    }
    out
}

/// Whether `keys` are pairwise distinct and none is in `claimed`.
fn keys_free(keys: &Vec<(Hash32, usize)>, claimed: &Vec<(Hash32, usize)>) -> (r: bool)
    ensures
        r == (no_duplicate_keys(keys_view(keys@)) && forall|k: int|
            0 <= k < keys@.len() ==> !keys_view(claimed@).contains(#[trigger] keys_view(keys@)[k])),
{
    if crate::block::has_duplicate_key(keys) {
        return false;
    }
    let mut k: usize = 0;
    while k < keys.len()
        invariant
            k <= keys@.len(),
            forall|m: int| 0 <= m < k ==> !keys_view(claimed@).contains(#[trigger] keys_view(keys@)[m]),
        decreases keys@.len() - k,
    {
        let mut c: usize = 0;
        while c < claimed.len()
            invariant
                k < keys@.len(),
                c <= claimed@.len(),
                forall|m: int| 0 <= m < c ==> #[trigger] keys_view(claimed@)[m] != keys_view(keys@)[k as int],
            decreases claimed@.len() - c,
        {
            if keys[k].1 == claimed[c].1 && hash_eq(&keys[k].0, &claimed[c].0) {
                assert(keys_view(claimed@)[c as int] == keys_view(keys@)[k as int]);
                return false;
            }
            c += 1;
        }
        k += 1;
    }
    true
}

/// The input keys of one transaction.
pub fn keys_of(tx: &Transaction) -> (r: Vec<(Hash32, usize)>)
    ensures
        keys_view(r@) == tx_keys(tx@),
{
    let mut out: Vec<(Hash32, usize)> = Vec::new();
    let mut j: usize = 0;
    while j < tx.inputs.len()
        invariant
            j <= tx.inputs@.len(),
            out@.len() == j,
            forall|m: int| 0 <= m < j ==> #[trigger] keys_view(out@)[m] == input_key(tx@.inputs[m]),
        decreases tx.inputs@.len() - j,
    {
        assert(tx@.inputs[j as int] == tx.inputs@[j as int]@);
        let ghost prev = out@;
        out.push((tx.inputs[j].prev_tx_id, tx.inputs[j].output_index));
        j += 1;
        assert(keys_view(out@)[j - 1] == input_key(tx@.inputs[j - 1]));
        assert forall|m: int| 0 <= m < j implies #[trigger] keys_view(out@)[m] == input_key(tx@.inputs[m]) by {
            if m < j - 1 {
                assert(out@[m] == prev[m]);
                assert(keys_view(prev)[m] == input_key(tx@.inputs[m]));
            }
        }
    }
    assert(keys_view(out@) =~= tx_keys(tx@));
    out
}

pub open spec fn entries_txs(s: Seq<MempoolEntry>) -> Seq<TxV> {
    s.map_values(|e: MempoolEntry| e.tx@)
}

/// Sweeps the mempool in order, keeping each entry that spends no key an
/// earlier kept entry spends; returns the kept positions.
pub fn chose_transactions(mempool: &Vec<MempoolEntry>) -> (r: Vec<usize>)
    ensures
        r@.len() == legit_positions(entries_txs(mempool@)).len(),
        forall|k: int| 0 <= k < r@.len() ==> r@[k] as int == legit_positions(entries_txs(mempool@))[k],
{
    let ghost txs = entries_txs(mempool@);
    let mut kept: Vec<usize> = Vec::new();
    let mut claimed: Vec<(Hash32, usize)> = Vec::new();
    let mut i: usize = 0;
    while i < mempool.len()
        invariant
            i <= mempool@.len(),
            txs == entries_txs(mempool@),
            kept@.len() == legit_positions(txs.subrange(0, i as int)).len(),
            forall|k: int| 0 <= k < kept@.len() ==> #[trigger] kept@[k] as int == legit_positions(txs.subrange(0, i as int))[k],
            keys_view(claimed@) == claimed_keys(txs.subrange(0, i as int), legit_positions(txs.subrange(0, i as int))),
        decreases mempool@.len() - i,
    {
        let ghost pre = txs.subrange(0, i as int);
        let ghost cur = txs.subrange(0, i + 1 as int);
        assert(cur.drop_last() =~= pre);
        assert(cur.last() == mempool@[i as int].tx@);
        proof {
            lemma_legit_range(pre);
            lemma_claimed_prefix(cur, legit_positions(pre));
        }
        let keys = keys_of(&mempool[i].tx);
        if keys.len() > 0 && keys_free(&keys, &claimed) {
            kept.push(i);
            let mut keys = keys;
            claimed.append(&mut keys);
            assert(keys_view(claimed@) =~= claimed_keys(cur, legit_positions(pre)) + tx_keys(cur.last()));
            assert(legit_positions(cur) == legit_positions(pre).push(i as int));
            assert(legit_positions(cur).drop_last() == legit_positions(pre));
        } else {
            assert(legit_positions(cur) == legit_positions(pre));
        }
        i += 1;
    }
    assert(txs.subrange(0, mempool@.len() as int) =~= txs);
    kept
}

/// Positions below `txs.len() - 1` pick the same transactions in `txs` and
/// in `txs` without its last element.
proof fn lemma_claimed_prefix(txs: Seq<TxV>, positions: Seq<int>)
    requires
        txs.len() > 0,
        forall|k: int| 0 <= k < positions.len() ==> 0 <= #[trigger] positions[k] < txs.len() - 1,
    ensures
        claimed_keys(txs, positions) == claimed_keys(txs.drop_last(), positions),
    decreases positions.len(),
{
    if positions.len() > 0 {
        lemma_claimed_prefix(txs, positions.drop_last());
    }
}


/// The kept positions are positions of the list, in increasing order.
pub proof fn lemma_legit_range(txs: Seq<TxV>)
    ensures
        forall|k: int|
            0 <= k < legit_positions(txs).len() ==> 0 <= #[trigger] legit_positions(txs)[k] < txs.len(),
        forall|a: int, b: int|
            0 <= a < b < legit_positions(txs).len() ==> legit_positions(txs)[a] < legit_positions(txs)[b],
        forall|k: int|
            0 <= k < legit_positions(txs).len() ==> txs[#[trigger] legit_positions(txs)[k]].inputs.len() > 0,
    decreases txs.len(),
{
    if txs.len() > 0 {
        lemma_legit_range(txs.drop_last());
        let prev = legit_positions(txs.drop_last());
        let cur = legit_positions(txs);
        assert(cur == prev || cur == prev.push(txs.len() - 1));
        assert forall|k: int| 0 <= k < cur.len() implies 0 <= #[trigger] cur[k] < txs.len() by {
            if k < prev.len() {
                assert(cur[k] == prev[k]);
            }
        }
        assert forall|a: int, b: int| 0 <= a < b < cur.len() implies cur[a] < cur[b] by {
            assert(cur[a] == prev[a]);
            if b < prev.len() {
                assert(cur[b] == prev[b]);
            }
        }
        assert forall|k: int| 0 <= k < cur.len() implies txs[#[trigger] cur[k]].inputs.len() > 0 by {
            if k < prev.len() {
                assert(cur[k] == prev[k]);
                assert(txs[prev[k]] == txs.drop_last()[prev[k]]);
            } else {
                assert(tx_keys(txs.last()).len() == txs.last().inputs.len());
            }
        }
    }
}


/// The fee an entry pays, counted as zero when it has none.
pub open spec fn fee_or_zero(e: MempoolEntry) -> u64 {
    match entry_fee(utxos_view(e.resolved_inputs@), e.tx@.outputs) {
        Some(f) => f,
        None => 0,
    }
}

/// Fee per byte of canonical size, rounded down (the whole fee for an empty encoding).
pub open spec fn fee_rate(e: MempoolEntry) -> u64 {
    let size = tx_bytes(e.tx@).len();
    if size == 0 {
        fee_or_zero(e)
    } else {
        (fee_or_zero(e) as nat / size) as u64
    }
}

/// The fees of the first `n` entries taken in `order` among the kept positions.
pub open spec fn chosen_fees(mempool: Seq<MempoolEntry>, legit: Seq<int>, order: Seq<usize>, n: int) -> nat
    decreases n,
{
    if n <= 0 {
        0
    } else {
        chosen_fees(mempool, legit, order, n - 1) + fee_or_zero(mempool[legit[order[n - 1] as int]]) as nat
    }
}

/// Fee per byte of each kept entry, in mempool order.
pub open spec fn legit_rates(mempool: Seq<MempoolEntry>) -> Seq<u64> {
    let legit = legit_positions(entries_txs(mempool));
    Seq::new(legit.len(), |k: int| fee_rate(mempool[legit[k]]))
}

/// `b` is the candidate that the miner assembles from `mempool` on top of
/// `prev` at time `date`, paying its coinbase to the receive address `index`
/// of the wallet with master key `master`: the kept entries by fee per byte,
/// as many as fit, behind a coinbase paying the reward and their fees.
pub open spec fn candidate_of(
    mempool: Seq<MempoolEntry>,
    master: crate::hdkey::KeyV,
    index: u32,
    prev: Seq<u8>,
    date: Seq<u8>,
    b: BlockV,
) -> bool {
    let legit = legit_positions(entries_txs(mempool));
    &&& b.header.prev_block_hash == prev
    &&& b.header.nonce == 0
    &&& b.header.timestamp == date
    &&& b.header.merkle_root == txs_merkle_root(b.transactions)
    &&& b.transactions.len() >= 1
    &&& b.transactions[0].inputs.len() == 0
    &&& b.transactions[0].outputs.len() == 1
    &&& b.transactions[0].outputs[0].address == branch_address(
        master,
        0,
        index,
    )
    &&& exists|order: Seq<usize>|
        #[trigger] ordered_by_key(legit_rates(mempool), order) && b.transactions.len() - 1 <= order.len() && (forall|k: int|
            0 <= k < b.transactions.len() - 1 ==> #[trigger] b.transactions[k + 1]
                == mempool[legit[order[k] as int]].tx@) && b.transactions[0].outputs[0].value == BLOCK_REWARD
            + chosen_fees(mempool, legit, order, b.transactions.len() - 1) && (b.transactions.len() - 1 < order.len()
            && header_bytes_of(b.header).len() + tx_bytes(b.transactions[0]).len() <= MAX_BLOCK_SIZE
            ==> block_size(b) + tx_bytes(mempool[legit[order[b.transactions.len() - 1] as int]].tx@).len()
            > MAX_BLOCK_SIZE)
    &&& forall|k: int| 1 <= k < b.transactions.len() ==> (#[trigger] b.transactions[k]).inputs.len() > 0
    &&& header_bytes_of(b.header).len() + tx_bytes(b.transactions[0]).len() <= MAX_BLOCK_SIZE
        ==> block_size(b) <= MAX_BLOCK_SIZE
}

/// The miner: a wallet whose receive addresses collect the coinbase.
pub struct Miner {
    pub wallet: Wallet,
}

/// Fee per byte of an entry.
fn entry_rate(e: &MempoolEntry) -> (r: u64)
    ensures
        r == fee_rate(*e),
{
    let fee: u64 = match e.calculate_fee() {
        Some(f) => f,
        None => 0,
    };
    let size = e.tx.as_bytes().len();
    if size == 0 {
        fee
    } else {
        fee / (size as u64)
    }
}

/// Searches nonces from the block's own upwards for one whose id has
/// `difficulty` leading zero bits, trying at most `max_attempts` ids; only
/// the nonce changes.
pub fn mine_block(block: &mut Block, difficulty: usize, max_attempts: u64) -> (r: Result<(), MinerError>)
    requires
        difficulty <= 256,
    ensures
        r is Ok ==> has_leading_zero_bits(block_id_of(final(block)@), difficulty as nat),
        r is Ok ==> old(block)@.header.nonce <= final(block)@.header.nonce < old(block)@.header.nonce + max_attempts,
        r is Err ==> r == Err::<(), MinerError>(MinerError::MiningExhausted),
        r is Err ==> forall|n: int|
            old(block)@.header.nonce <= n <= u32::MAX && n < old(block)@.header.nonce + max_attempts ==> !has_leading_zero_bits(
                #[trigger] block_id_of(with_nonce(old(block)@, n as u32)),
                difficulty as nat,
            ),
        final(block)@ == with_nonce(old(block)@, final(block)@.header.nonce),
{
    let ghost start = block@.header.nonce;
    let mut attempts: u64 = 0;
    assert(block@ == with_nonce(old(block)@, start));
    while attempts < max_attempts
        invariant
            difficulty <= 256,
            start == old(block)@.header.nonce,
            block@ == with_nonce(old(block)@, block@.header.nonce),
            block@.header.nonce == start + attempts,
            attempts <= max_attempts,
            forall|n: int| start <= n < start + attempts ==> !has_leading_zero_bits(
                #[trigger] block_id_of(with_nonce(old(block)@, n as u32)),
                difficulty as nat,
            ),
        decreases max_attempts - attempts,
    {
        let id = block.header_hash();
        if hash_starts_with_zero_bits(&id, difficulty) {
            return Ok(());
        }
        if block.header.nonce == u32::MAX {
            return Err(MinerError::MiningExhausted);
        }
        block.header.nonce = block.header.nonce + 1;
        attempts += 1;
        assert(block@ =~= with_nonce(old(block)@, block@.header.nonce));
    }
    Err(MinerError::MiningExhausted)
}

/// The block with its nonce replaced.
pub open spec fn with_nonce(b: BlockV, nonce: u32) -> BlockV {
    BlockV { header: crate::block::HeaderV { nonce, ..b.header }, ..b }
}

impl Miner {
    /// A miner whose wallet comes from `seed`.
    pub fn new(seed: &[u8]) -> (r: Miner)
        ensures
            r.wallet.master() == crate::hdkey::key_from_data(seed@),
            r.wallet.next_index() == 0,
    {
        Miner { wallet: Wallet::new(seed) }
    }

    /// Assembles a candidate on top of `previous_hash`: the kept mempool
    /// entries by fee per byte, as many as fit after the header and the
    /// coinbase, behind a coinbase paying the reward and their fees to a
    /// fresh receive address; nonce 0 and the merkle root set.
    pub fn build_block(&mut self, mempool: &Vec<MempoolEntry>, previous_hash: Hash32, date: Vec<u8>) -> (r: Result<Block, MinerError>)
        ensures
            final(self).wallet.master() == old(self).wallet.master(),
            r is Err ==> old(self).wallet.next_index() == u32::MAX && r == Err::<Block, MinerError>(MinerError::IndexExhausted)
                || r == Err::<Block, MinerError>(MinerError::FeeOverflow),
            old(self).wallet.next_index() == u32::MAX ==> r == Err::<Block, MinerError>(MinerError::IndexExhausted),
            r == Err::<Block, MinerError>(MinerError::FeeOverflow) ==> exists|order: Seq<usize>, n: int|
                #[trigger] ordered_by_key(legit_rates(mempool@), order) && 0 <= n <= order.len() && #[trigger] chosen_fees(
                    mempool@,
                    legit_positions(entries_txs(mempool@)),
                    order,
                    n,
                ) > u64::MAX - BLOCK_REWARD,
            r matches Ok(b) ==> candidate_of(mempool@, old(self).wallet.master(), old(self).wallet.next_index(), previous_hash@, date@, b@),
    {
        if self.wallet.current_index_is_last() {
            return Err(MinerError::IndexExhausted);
        }
        let ghost legit_s = legit_positions(entries_txs(mempool@));
        let legit = chose_transactions(mempool);
        proof {
            lemma_legit_range(entries_txs(mempool@));
        }
        let mut rates: Vec<u64> = Vec::new();
        let mut i: usize = 0;
        while i < legit.len()
            invariant
                i <= legit@.len(),
                legit@.len() == legit_s.len(),
                forall|k: int| 0 <= k < legit@.len() ==> #[trigger] legit@[k] as int == legit_s[k],
                forall|k: int| 0 <= k < legit_s.len() ==> 0 <= #[trigger] legit_s[k] < mempool@.len(),
                rates@.len() == i,
                forall|k: int| 0 <= k < i ==> #[trigger] rates@[k] == fee_rate(mempool@[legit_s[k]]),
            decreases legit@.len() - i,
        {
            assert(legit_s[i as int] < mempool@.len());
            rates.push(entry_rate(&mempool[legit[i]]));
            i += 1;
        }
        let ghost keys = legit_rates(mempool@);
        assert(rates@ =~= keys);
        let order = order_by_key(&rates);
        let address = self.wallet.get_receive_addr();
        let placeholder = Transaction::new_coinbase(crate::bytes::copy_bytes(address.as_slice()), 0, crate::bytes::copy_bytes(date.as_slice()));
        let ghost date_v = date@;
        let ghost final_master = self.wallet.master();
        let mut block = Block::new(previous_hash, date);
        let header_len = block.header_bytes().len();
        let coinbase_len = placeholder.as_bytes().len();
        let mut budget: usize = if header_len <= MAX_BLOCK_SIZE && coinbase_len <= MAX_BLOCK_SIZE - header_len {
            MAX_BLOCK_SIZE - header_len - coinbase_len
        } else {
            0
        };
        let mut chosen: Vec<Transaction> = Vec::new();
        let mut fees: u128 = 0;
        let mut used: usize = 0;
        let mut k: usize = 0;
        let mut full = false;
        while k < order.len() && !full
            invariant
                k <= order@.len(),
                full ==> k < order@.len() && tx_bytes(mempool@[legit_s[order@[k as int] as int]].tx@).len() + used > budget,
                ordered_by_key(keys, order@),
                keys.len() == legit_s.len(),
                legit@.len() == legit_s.len(),
                forall|m: int| 0 <= m < legit@.len() ==> #[trigger] legit@[m] as int == legit_s[m],
                forall|m: int| 0 <= m < legit_s.len() ==> 0 <= #[trigger] legit_s[m] < mempool@.len(),
                chosen@.len() == k,
                forall|m: int| 0 <= m < k ==> (#[trigger] chosen@[m])@ == mempool@[legit_s[order@[m] as int]].tx@,
                used <= budget,
                budget <= MAX_BLOCK_SIZE,
                used == crate::block::txs_size(crate::block::txs_view(chosen@)),
                fees <= k * (u64::MAX as nat),
                fees == chosen_fees(mempool@, legit_s, order@, k as int),
                header_len == header_bytes_of(block@.header).len(),
                coinbase_len == tx_bytes(placeholder@).len(),
                header_len + coinbase_len <= MAX_BLOCK_SIZE ==> budget == MAX_BLOCK_SIZE - header_len - coinbase_len,
                block@.header.prev_block_hash == previous_hash@,
                block@.header.nonce == 0,
                block@.header.timestamp == date_v,
                placeholder@.outputs[0].address == address@,
                placeholder@.date == date_v,
                address@ == branch_address(old(self).wallet.master(), 0, old(self).wallet.next_index()),
                final_master == old(self).wallet.master(),
                self.wallet.master() == final_master,
            decreases order@.len() - k, (if full { 0int } else { 1int }),
        {
            let entry = &mempool[legit[order[k]]];
            let size = entry.tx.as_bytes().len();
            if size > budget - used {
                full = true;
                continue;
            }
            let fee: u64 = match entry.calculate_fee() {
                Some(f) => f,
                None => 0,
            };
            proof {
                assert(k * (u64::MAX as nat) + (u64::MAX as nat) == (k + 1) * (u64::MAX as nat)) by (nonlinear_arith);
                assert((k + 1) * (u64::MAX as nat) <= (usize::MAX as nat) * (u64::MAX as nat)) by (nonlinear_arith)
                    requires k + 1 <= usize::MAX;
            }
            assert(fee == fee_or_zero(mempool@[legit_s[order@[k as int] as int]]));
            fees = fees + fee as u128;
            let ghost prev = chosen@;
            chosen.push(entry.tx.duplicate());
            assert(crate::block::txs_view(chosen@).drop_last() =~= crate::block::txs_view(prev));
            used = used + size;
            k += 1;
        }
        if fees > (u64::MAX - BLOCK_REWARD) as u128 {
            assert(ordered_by_key(legit_rates(mempool@), order@) && chosen_fees(mempool@, legit_s, order@, k as int)
                > u64::MAX - BLOCK_REWARD);
            return Err(MinerError::FeeOverflow);
        }
        let coinbase = Transaction::new_coinbase(address, fees as u64, crate::bytes::copy_bytes(block.header.timestamp.as_slice()));
        assert(tx_bytes(coinbase@).len() == tx_bytes(placeholder@).len()) by {
            assert(coinbase@.outputs.len() == 1);
            assert(coinbase@.outputs.drop_last() =~= Seq::<OutputV>::empty());
            assert(placeholder@.outputs.drop_last() =~= Seq::<OutputV>::empty());
            assert(crate::transaction::outputs_bytes(Seq::<OutputV>::empty()) == Seq::<u8>::empty());
            assert(coinbase@.outputs.last() == coinbase@.outputs[0]);
            assert(placeholder@.outputs.last() == placeholder@.outputs[0]);
            assert(crate::transaction::outputs_bytes(coinbase@.outputs) =~= crate::transaction::output_bytes(coinbase@.outputs[0]));
            assert(crate::transaction::outputs_bytes(placeholder@.outputs) =~= crate::transaction::output_bytes(placeholder@.outputs[0]));
            assert(crate::transaction::inputs_bytes(coinbase@.inputs) =~= Seq::<u8>::empty());
            assert(crate::transaction::inputs_bytes(placeholder@.inputs) =~= Seq::<u8>::empty());
        }
        let ghost chosen_v = crate::block::txs_view(chosen@);
        let mut txs: Vec<Transaction> = Vec::new();
        txs.push(coinbase);
        let mut chosen = chosen;
        txs.append(&mut chosen);
        let ghost tv = crate::block::txs_view(txs@);
        assert(tv.drop_first() =~= chosen_v);
        block.transactions = txs;
        block.evaluate_merkle_root();
        proof {
            let bt = block@.transactions;
            assert(bt == tv);
            assert forall|m: int| 0 <= m < bt.len() - 1 implies #[trigger] bt[m + 1] == mempool@[legit_s[order@[m] as int]].tx@ by {
                assert(bt[m + 1] == chosen_v[m]);
            }
            assert forall|k: int| 1 <= k < bt.len() implies (#[trigger] bt[k]).inputs.len() > 0 by {
                let m = k - 1;
                assert(bt[m + 1] == mempool@[legit_s[order@[m] as int]].tx@);
                assert(order@[m] < legit_s.len());
                assert(entries_txs(mempool@)[legit_s[order@[m] as int]] == mempool@[legit_s[order@[m] as int]].tx@);
            }
            lemma_txs_size_first(bt);
            assert(bt.drop_first() == chosen_v);
            assert(header_bytes_of(block@.header).len() == header_len);
            assert(header_bytes_of(block@.header).len() + tx_bytes(bt[0]).len() <= MAX_BLOCK_SIZE ==> block_size(block@) <= MAX_BLOCK_SIZE);
        }
        Ok(block)
    }
}


proof fn lemma_txs_size_first(s: Seq<TxV>)
    requires
        s.len() >= 1,
    ensures
        crate::block::txs_size(s) == tx_bytes(s[0]).len() + crate::block::txs_size(s.drop_first()),
    decreases s.len(),
{
    if s.len() > 1 {
        lemma_txs_size_first(s.drop_last());
        assert(s.drop_last().drop_first() =~= s.drop_first().drop_last());
        assert(s.drop_first().last() == s.last());
    } else {
        assert(s.drop_first() =~= Seq::<TxV>::empty());
        assert(s.drop_last() =~= Seq::<TxV>::empty());
    }
}

} // verus!
