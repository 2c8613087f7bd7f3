//! The ledger index: block headers with heights, confirmed transaction ids,
//! the unspent outputs keyed by `(txid, output_index)`, and the record of
//! which addresses received outputs.

use vstd::prelude::*;
use crate::block::{Block, BlockV, block_id_of, txs_view};
use crate::bytes::{bytes_eq, copy_bytes};
use crate::hash::{Hash32, hash_eq};
use crate::transaction::{
    InputV, OutputV, Transaction, TxInput, TxV, UTXO, UtxoV, input_key, inputs_view, tx_id_of,
};

verus! {

/// Why the ledger refuses to apply or roll back a block.
#[derive(Debug, Clone, Copy, PartialEq, Eq)]
pub enum LedgerError {
    UnknownParent,
    DuplicateOutput,
    UnknownBlock,
    NotTip,
    HeightOverflow,
}

pub open spec fn utxo_key(u: UtxoV) -> (Seq<u8>, usize) {
    (u.tx_id, u.index)
}

pub open spec fn utxos_view(s: Seq<UTXO>) -> Seq<UtxoV> {
    s.map_values(|u: UTXO| u@)
}

/// Some UTXO of `us` has primary key `key`.
pub open spec fn has_key(us: Seq<UtxoV>, key: (Seq<u8>, usize)) -> bool {
    exists|k: int| 0 <= k < us.len() && utxo_key(#[trigger] us[k]) == key
}

/// No two UTXOs share a primary key.
pub open spec fn keys_unique(us: Seq<UtxoV>) -> bool {
    forall|a: int, b: int| 0 <= a < b < us.len() ==> utxo_key(#[trigger] us[a]) != utxo_key(#[trigger] us[b])
}

/// Some input of `inputs` spends `u`.
pub open spec fn spends(inputs: Seq<InputV>, u: UtxoV) -> bool {
    exists|k: int| 0 <= k < inputs.len() && input_key(#[trigger] inputs[k]) == utxo_key(u)
}

/// The UTXOs that `inputs` leave in place, in order.
pub open spec fn keep_unspent(us: Seq<UtxoV>, inputs: Seq<InputV>) -> Seq<UtxoV>
    decreases us.len(),
{
    if us.len() == 0 {
        Seq::empty()
    } else if spends(inputs, us.last()) {
        keep_unspent(us.drop_last(), inputs)
    } else {
        keep_unspent(us.drop_last(), inputs).push(us.last())
    }
}

/// The UTXOs that `inputs` consume, in order.
pub open spec fn spent_by(us: Seq<UtxoV>, inputs: Seq<InputV>) -> Seq<UtxoV>
    decreases us.len(),
{
    if us.len() == 0 {
        Seq::empty()
    } else if spends(inputs, us.last()) {
        spent_by(us.drop_last(), inputs).push(us.last())
    } else {
        spent_by(us.drop_last(), inputs)
    }
}

/// The UTXOs that a transaction's outputs become.
pub open spec fn created_utxos(t: TxV) -> Seq<UtxoV> {
    Seq::new(
        t.outputs.len(),
        |j: int| UtxoV { tx_id: tx_id_of(t), index: j as usize, output: t.outputs[j] },
    )
}

/// None of the transaction's new keys is already taken once its inputs are removed.
pub open spec fn tx_applicable(us: Seq<UtxoV>, t: TxV) -> bool {
    forall|j: int|
        0 <= j < t.outputs.len() ==> !has_key(keep_unspent(us, t.inputs), utxo_key(#[trigger] created_utxos(t)[j]))
}

/// The UTXO set after one transaction: spent outputs removed, new ones appended.
pub open spec fn apply_tx(us: Seq<UtxoV>, t: TxV) -> Seq<UtxoV> {
    keep_unspent(us, t.inputs) + created_utxos(t)
}

/// The UTXO set after a list of transactions, in order.
pub open spec fn apply_txs(us: Seq<UtxoV>, s: Seq<TxV>) -> Seq<UtxoV>
    decreases s.len(),
{
    if s.len() == 0 {
        us
    } else {
        apply_tx(apply_txs(us, s.drop_last()), s.last())
    }
}

/// Every transaction of the list can be applied in turn.
pub open spec fn txs_applicable(us: Seq<UtxoV>, s: Seq<TxV>) -> bool
    decreases s.len(),
{
    if s.len() == 0 {
        true
    } else {
        txs_applicable(us, s.drop_last()) && tx_applicable(apply_txs(us, s.drop_last()), s.last())
    }
}

/// The outputs consumed by a list of transactions, in order.
pub open spec fn spent_by_txs(us: Seq<UtxoV>, s: Seq<TxV>) -> Seq<UtxoV>
    decreases s.len(),
{
    if s.len() == 0 {
        Seq::empty()
    } else {
        spent_by_txs(us, s.drop_last()) + spent_by(apply_txs(us, s.drop_last()), s.last().inputs)
    }
}

pub open spec fn tx_ids_of(s: Seq<TxV>) -> Seq<Seq<u8>> {
    s.map_values(|t: TxV| tx_id_of(t))
}

/// Every output address of a list of transactions, in order.
pub open spec fn output_addresses(s: Seq<TxV>) -> Seq<Seq<u8>>
    decreases s.len(),
{
    if s.len() == 0 {
        Seq::empty()
    } else {
        output_addresses(s.drop_last()) + s.last().outputs.map_values(|o: OutputV| o.address)
    }
}

/// `us` without the UTXOs created by any of the transactions `ids`.
pub open spec fn drop_created(us: Seq<UtxoV>, ids: Seq<Seq<u8>>) -> Seq<UtxoV>
    decreases us.len(),
{
    if us.len() == 0 {
        Seq::empty()
    } else if ids.contains(us.last().tx_id) {
        drop_created(us.drop_last(), ids)
    } else {
        drop_created(us.drop_last(), ids).push(us.last())
    }
}

/// The UTXOs among `us` that pay one of `addrs`, in order.
pub open spec fn utxos_paying(us: Seq<UtxoV>, addrs: Seq<Seq<u8>>) -> Seq<UtxoV>
    decreases us.len(),
{
    if us.len() == 0 {
        Seq::empty()
    } else if addrs.contains(us.last().output.address) {
        utxos_paying(us.drop_last(), addrs).push(us.last())
    } else {
        utxos_paying(us.drop_last(), addrs)
    }
}

/// A stored block header and what is needed to undo the block.
#[derive(Debug)]
pub struct BlockRecord {
    pub block_hash: Hash32,
    pub prev_hash: Hash32,
    pub height: usize,
    pub tx_ids: Vec<Hash32>,
    pub spent: Vec<UTXO>,
    pub addresses: Vec<Vec<u8>>,
}

pub struct RecordV {
    pub block_hash: Seq<u8>,
    pub prev_hash: Seq<u8>,
    pub height: usize,
    pub tx_ids: Seq<Seq<u8>>,
    pub spent: Seq<UtxoV>,
    pub addresses: Seq<Seq<u8>>,
}

impl View for BlockRecord {
    type V = RecordV;

    open spec fn view(&self) -> RecordV {
        RecordV {
            block_hash: self.block_hash@,
            prev_hash: self.prev_hash@,
            height: self.height,
            tx_ids: ids_view(self.tx_ids@),
            spent: utxos_view(self.spent@),
            addresses: addrs_view(self.addresses@),
        }
    }
}

/// The ledger index.
#[derive(Debug)]
pub struct Ledger {
    records: Vec<BlockRecord>,
    utxos: Vec<UTXO>,
}

pub open spec fn ids_view(s: Seq<Hash32>) -> Seq<Seq<u8>> {
    s.map_values(|h: Hash32| h@)
}

pub open spec fn addrs_view(s: Seq<Vec<u8>>) -> Seq<Seq<u8>> {
    s.map_values(|a: Vec<u8>| a@)
}

/// Height of the most recently stored block with id `h`.
pub open spec fn parent_height(recs: Seq<RecordV>, h: Seq<u8>) -> Option<usize>
    decreases recs.len(),
{
    if recs.len() == 0 {
        None
    } else if recs.last().block_hash == h {
        Some(recs.last().height)
    } else {
        parent_height(recs.drop_last(), h)
    }
}

pub open spec fn is_zero(h: Seq<u8>) -> bool {
    forall|i: int| 0 <= i < h.len() ==> h[i] == 0
}

impl Ledger {
    /// The unspent outputs, in storage order.
    pub closed spec fn utxo_set(&self) -> Seq<UtxoV> {
        utxos_view(self.utxos@)
    }

    /// The stored block headers with their undo data, oldest first.
    pub closed spec fn records(&self) -> Seq<RecordV> {
        self.records@.map_values(|r: BlockRecord| r@)
    }

    pub open spec fn block_count(&self) -> nat {
        self.records().len()
    }

    /// No two UTXOs share a primary key.
    pub open spec fn wf(&self) -> bool {
        keys_unique(self.utxo_set())
    }

    /// Some stored block has id `h`.
    pub open spec fn knows_block(&self, h: Seq<u8>) -> bool {
        exists|k: int| 0 <= k < self.block_count() && (#[trigger] self.records()[k]).block_hash == h
    }

    /// Transaction `t` is confirmed by some stored block.
    pub open spec fn is_confirmed(&self, t: Seq<u8>) -> bool {
        exists|k: int| 0 <= k < self.block_count() && (#[trigger] self.records()[k]).tx_ids.contains(t)
    }

    /// Address `a` received an output in some stored block.
    pub open spec fn address_used(&self, a: Seq<u8>) -> bool {
        exists|k: int| 0 <= k < self.block_count() && (#[trigger] self.records()[k]).addresses.contains(a)
    }

    /// An empty ledger.
    pub fn new() -> (r: Ledger)
        ensures
            r.wf(),
            r.utxo_set().len() == 0,
            r.block_count() == 0,
    {
        let r = Ledger { records: Vec::new(), utxos: Vec::new() };
        assert(r.utxo_set() =~= Seq::<UtxoV>::empty());
        assert(r.records() =~= Seq::<RecordV>::empty());
        r
    }
}


/// Whether some input of `inputs` spends `u`.
fn input_spends(inputs: &Vec<TxInput>, u: &UTXO) -> (r: bool)
    ensures
        r == spends(inputs_view(inputs@), u@),
{
    let mut k: usize = 0;
    while k < inputs.len()
        invariant
            k <= inputs@.len(),
            forall|m: int| 0 <= m < k ==> input_key(#[trigger] inputs_view(inputs@)[m]) != utxo_key(u@),
        decreases inputs@.len() - k,
    {
        if inputs[k].output_index == u.index && hash_eq(&inputs[k].prev_tx_id, &u.tx_id) {
            assert(input_key(inputs_view(inputs@)[k as int]) == utxo_key(u@));
            return true;
        }
        k += 1;
    }
    false
}

/// Copies of a list of UTXOs.
pub fn duplicate_utxos(v: &Vec<UTXO>) -> (r: Vec<UTXO>)
    ensures
        utxos_view(r@) == utxos_view(v@),
{
    let mut out: Vec<UTXO> = Vec::new();
    let mut i: usize = 0;
    while i < v.len()
        invariant
            i <= v@.len(),
            out@.len() == i,
            forall|k: int| 0 <= k < i ==> #[trigger] out@[k]@ == v@[k]@,
        decreases v@.len() - i,
    {
        out.push(v[i].duplicate());
        i += 1;
    }
    assert(utxos_view(out@) =~= utxos_view(v@));
    out
}

/// Splits `us` into the UTXOs that `inputs` leave and those they consume.
fn split_spent(us: &Vec<UTXO>, inputs: &Vec<TxInput>) -> (r: (Vec<UTXO>, Vec<UTXO>))
    ensures
        utxos_view(r.0@) == keep_unspent(utxos_view(us@), inputs_view(inputs@)),
        utxos_view(r.1@) == spent_by(utxos_view(us@), inputs_view(inputs@)),
{
    let ghost ins = inputs_view(inputs@);
    let mut kept: Vec<UTXO> = Vec::new();
    let mut spent: Vec<UTXO> = Vec::new();
    let mut i: usize = 0;
    while i < us.len()
        invariant
            i <= us@.len(),
            ins == inputs_view(inputs@),
            utxos_view(kept@) == keep_unspent(utxos_view(us@.subrange(0, i as int)), ins),
            utxos_view(spent@) == spent_by(utxos_view(us@.subrange(0, i as int)), ins),
        decreases us@.len() - i,
    {
        let ghost pre = utxos_view(us@.subrange(0, i as int));
        let ghost cur = utxos_view(us@.subrange(0, i + 1 as int));
        assert(cur.drop_last() =~= pre);
        assert(cur.last() == us@[i as int]@);
        if input_spends(inputs, &us[i]) {
            spent.push(us[i].duplicate());
            assert(utxos_view(spent@) =~= utxos_view(spent@.drop_last()).push(us@[i as int]@));
        } else {
            kept.push(us[i].duplicate());
            assert(utxos_view(kept@) =~= utxos_view(kept@.drop_last()).push(us@[i as int]@));
        }
        i += 1;
    }
    assert(us@.subrange(0, us@.len() as int) =~= us@);
    (kept, spent)
}

/// Position of the UTXO with key `(id, index)`, if there is one.
fn find_key(us: &Vec<UTXO>, id: &Hash32, index: usize) -> (r: Option<usize>)
    ensures
        r is None ==> !has_key(utxos_view(us@), (id@, index)),
        r matches Some(k) ==> k < us@.len() && utxo_key(us@[k as int]@) == (id@, index),
{
    let mut k: usize = 0;
    while k < us.len()
        invariant
            k <= us@.len(),
            forall|m: int| 0 <= m < k ==> utxo_key(#[trigger] utxos_view(us@)[m]) != (id@, index),
        decreases us@.len() - k,
    {
        if us[k].index == index && hash_eq(&us[k].tx_id, id) {
            return Some(k);
        }
        assert(utxos_view(us@)[k as int] == us@[k as int]@);
        k += 1;
    }
    None
}

/// Keeping part of a list with unique keys keeps the keys unique, and every
/// key kept was there before.
proof fn lemma_keep_unspent(us: Seq<UtxoV>, inputs: Seq<InputV>)
    requires
        keys_unique(us),
    ensures
        keys_unique(keep_unspent(us, inputs)),
        forall|key: (Seq<u8>, usize)| has_key(keep_unspent(us, inputs), key) ==> has_key(us, key),
    decreases us.len(),
{
    if us.len() > 0 {
        let init = us.drop_last();
        assert(keys_unique(init)) by {
            assert forall|a: int, b: int| 0 <= a < b < init.len() implies utxo_key(#[trigger] init[a])
                != utxo_key(#[trigger] init[b]) by {
                assert(init[a] == us[a] && init[b] == us[b]);
            }
        }
        lemma_keep_unspent(init, inputs);
        let kept = keep_unspent(init, inputs);
        assert forall|key: (Seq<u8>, usize)| has_key(init, key) implies has_key(us, key) by {
            let k = choose|k: int| 0 <= k < init.len() && utxo_key(#[trigger] init[k]) == key;
            assert(us[k] == init[k]);
        }
        if !spends(inputs, us.last()) {
            let x = us.last();
            let r = kept.push(x);
            assert(!has_key(kept, utxo_key(x))) by {
                if has_key(kept, utxo_key(x)) {
                    assert(has_key(init, utxo_key(x)));
                    let k = choose|k: int| 0 <= k < init.len() && utxo_key(#[trigger] init[k]) == utxo_key(x);
                    assert(us[k] == init[k]);
                    assert(utxo_key(us[k]) != utxo_key(us[us.len() - 1]));
                }
            }
            assert forall|a: int, b: int| 0 <= a < b < r.len() implies utxo_key(#[trigger] r[a])
                != utxo_key(#[trigger] r[b]) by {
                if b == r.len() - 1 {
                    assert(r[a] == kept[a]);
                    if utxo_key(r[a]) == utxo_key(r[b]) {
                        assert(has_key(kept, utxo_key(x)));
                    }
                } else {
                    assert(r[a] == kept[a] && r[b] == kept[b]);
                }
            }
            assert forall|key: (Seq<u8>, usize)| has_key(r, key) implies has_key(us, key) by {
                let k = choose|k: int| 0 <= k < r.len() && utxo_key(#[trigger] r[k]) == key;
                if k == r.len() - 1 {
                    assert(utxo_key(us[us.len() - 1]) == key);
                } else {
                    assert(r[k] == kept[k]);
                    assert(has_key(kept, key));
                }
            }
        }
    }
}

/// Applying a transaction whose new keys are free keeps the keys unique.
proof fn lemma_apply_tx_unique(us: Seq<UtxoV>, t: TxV)
    requires
        keys_unique(us),
        tx_applicable(us, t),
        t.outputs.len() <= usize::MAX,
    ensures
        keys_unique(apply_tx(us, t)),
{
    lemma_keep_unspent(us, t.inputs);
    let kept = keep_unspent(us, t.inputs);
    let c = created_utxos(t);
    let r = apply_tx(us, t);
    assert forall|a: int, b: int| 0 <= a < b < r.len() implies utxo_key(#[trigger] r[a]) != utxo_key(
        #[trigger] r[b],
    ) by {
        if b < kept.len() {
            assert(r[a] == kept[a] && r[b] == kept[b]);
        } else if a < kept.len() {
            let j = b - kept.len();
            assert(r[b] == c[j]);
            assert(r[a] == kept[a]);
            if utxo_key(r[a]) == utxo_key(r[b]) {
                assert(has_key(kept, utxo_key(c[j])));
            }
        } else {
            assert(r[a] == c[a - kept.len()] && r[b] == c[b - kept.len()]);
            assert(c[a - kept.len()].index == (a - kept.len()) as usize);
            assert(c[b - kept.len()].index == (b - kept.len()) as usize);
        }
    }
}

/// Applying, in turn, transactions whose new keys are free keeps every
/// primary key of the UTXO set unique.
pub proof fn lemma_apply_txs_unique(us: Seq<UtxoV>, s: Seq<TxV>)
    requires
        keys_unique(us),
        txs_applicable(us, s),
        forall|k: int| 0 <= k < s.len() ==> (#[trigger] s[k]).outputs.len() <= usize::MAX,
    ensures
        keys_unique(apply_txs(us, s)),
    decreases s.len(),
{
    if s.len() > 0 {
        lemma_apply_txs_unique(us, s.drop_last());
        assert(s.last() == s[s.len() - 1]);
        lemma_apply_tx_unique(apply_txs(us, s.drop_last()), s.last());
    }
}


/// A prefix of an applicable list is applicable.
proof fn lemma_applicable_prefix(us: Seq<UtxoV>, s: Seq<TxV>, k: int)
    requires
        txs_applicable(us, s),
        0 <= k <= s.len(),
    ensures
        txs_applicable(us, s.subrange(0, k)),
    decreases s.len() - k,
{
    if k == s.len() {
        assert(s.subrange(0, k) =~= s);
    } else {
        lemma_applicable_prefix(us, s, k + 1);
        assert(s.subrange(0, k + 1).drop_last() =~= s.subrange(0, k));
    }
}

impl Ledger {
    /// Height of the most recently stored block with id `h`.
    pub fn height_of(&self, h: &Hash32) -> (r: Option<usize>)
        ensures
            r == parent_height(self.records(), h@),
    {
        let mut k: usize = self.records.len();
        assert(self.records().subrange(0, k as int) =~= self.records());
        while k > 0
            invariant
                k <= self.records@.len(),
                parent_height(self.records().subrange(0, k as int), h@) == parent_height(
                    self.records(),
                    h@,
                ),
            decreases k,
        {
            k -= 1;
            let ghost sub = self.records().subrange(0, k + 1 as int);
            assert(sub.drop_last() =~= self.records().subrange(0, k as int));
            assert(sub.last() == self.records@[k as int]@);
            if hash_eq(&self.records[k].block_hash, h) {
                return Some(self.records[k].height);
            }
        }
        None
    }

    /// Applies a block in one step: resolves its height from the parent,
    /// then for each transaction in order removes the outputs its inputs
    /// spend and adds its own outputs. On any failure nothing changes.
    pub fn apply_block(&mut self, block: &Block) -> (r: Result<(), LedgerError>)
        requires
            old(self).wf(),
        ensures
            final(self).wf(),
            r is Err ==> *final(self) == *old(self),
            (r == Err::<(), LedgerError>(LedgerError::UnknownParent)) <==> (!is_zero(
                block@.header.prev_block_hash,
            ) && parent_height(old(self).records(), block@.header.prev_block_hash) is None),
            (r == Err::<(), LedgerError>(LedgerError::HeightOverflow)) <==> (!is_zero(
                block@.header.prev_block_hash,
            ) && parent_height(old(self).records(), block@.header.prev_block_hash) == Some(
                usize::MAX,
            )),
            (r == Err::<(), LedgerError>(LedgerError::DuplicateOutput)) <==> ((is_zero(
                block@.header.prev_block_hash,
            ) || (parent_height(old(self).records(), block@.header.prev_block_hash) matches Some(h)
                && h < usize::MAX)) && !txs_applicable(old(self).utxo_set(), block@.transactions)),
            r is Err ==> r == Err::<(), LedgerError>(LedgerError::UnknownParent) || r == Err::<(), LedgerError>(
                LedgerError::HeightOverflow,
            ) || r == Err::<(), LedgerError>(LedgerError::DuplicateOutput),
            r is Ok ==> final(self).utxo_set() == apply_txs(old(self).utxo_set(), block@.transactions),
            r is Ok ==> final(self).records().drop_last() == old(self).records()
                && final(self).block_count() == old(self).block_count() + 1,
            r is Ok ==> ({
                let rec = final(self).records().last();
                &&& rec.block_hash == block_id_of(block@)
                &&& rec.prev_hash == block@.header.prev_block_hash
                &&& rec.tx_ids == tx_ids_of(block@.transactions)
                &&& rec.addresses == output_addresses(block@.transactions)
                &&& rec.spent == spent_by_txs(old(self).utxo_set(), block@.transactions)
                &&& is_zero(block@.header.prev_block_hash) ==> rec.height == 0
                &&& !is_zero(block@.header.prev_block_hash) ==> parent_height(
                    old(self).records(),
                    block@.header.prev_block_hash,
                ) == Some((rec.height - 1) as usize) && rec.height >= 1
            }),
    {
        let prev = &block.header.prev_block_hash;
        let z: Hash32 = [0u8; 32];
        let prev_zero = hash_eq(prev, &z);
        assert(prev_zero == is_zero(prev@)) by {
            if is_zero(prev@) {
                assert(prev@ =~= z@);
            }
        }
        let height: usize = if prev_zero {
            0
        } else {
            match self.height_of(prev) {
                Some(h) => {
                    if h == usize::MAX {
                        return Err(LedgerError::HeightOverflow);
                    }
                    h + 1
                },
                None => {
                    return Err(LedgerError::UnknownParent);
                },
            }
        };
        let ghost old_us = self.utxo_set();
        let ghost all = txs_view(block.transactions@);
        let txs = &block.transactions;
        let mut utxos = duplicate_utxos(&self.utxos);
        let mut spent: Vec<UTXO> = Vec::new();
        let mut ids: Vec<Hash32> = Vec::new();
        let mut addrs: Vec<Vec<u8>> = Vec::new();
        let mut i: usize = 0;
        assert(all.subrange(0, 0) =~= Seq::<TxV>::empty());
        assert(utxos_view(spent@) =~= Seq::<UtxoV>::empty());
        assert(ids_view(ids@) =~= Seq::<Seq<u8>>::empty());
        assert(addrs_view(addrs@) =~= Seq::<Seq<u8>>::empty());
        while i < txs.len()
            invariant
                *self == *old(self),
                self.wf(),
                prev_zero == is_zero(block@.header.prev_block_hash),
                prev_zero || parent_height(old(self).records(), block@.header.prev_block_hash) == Some(
                    (height - 1) as usize,
                ) && height >= 1,
                prev_zero ==> height == 0,
                i <= txs@.len(),
                all == txs_view(txs@),
                all == block@.transactions,
                old_us == old(self).utxo_set(),
                keys_unique(old_us),
                utxos_view(utxos@) == apply_txs(old_us, all.subrange(0, i as int)),
                txs_applicable(old_us, all.subrange(0, i as int)),
                keys_unique(utxos_view(utxos@)),
                utxos_view(spent@) == spent_by_txs(old_us, all.subrange(0, i as int)),
                ids_view(ids@) == tx_ids_of(all.subrange(0, i as int)),
                addrs_view(addrs@) == output_addresses(all.subrange(0, i as int)),
            decreases txs@.len() - i,
        {
            let tx = &txs[i];
            let ghost pre = all.subrange(0, i as int);
            let ghost cur = all.subrange(0, i + 1 as int);
            assert(cur.drop_last() =~= pre);
            assert(cur.last() == tx@);
            let (kept, removed) = split_spent(&utxos, &tx.inputs);
            let id = tx.id();
            let mut j: usize = 0;
            while j < tx.outputs.len()
                invariant
                    j <= tx.outputs@.len(),
                    *self == *old(self),
                    self.wf(),
                    old_us == old(self).utxo_set(),
                    prev_zero == is_zero(block@.header.prev_block_hash),
                    prev_zero || parent_height(old(self).records(), block@.header.prev_block_hash) == Some(
                    (height - 1) as usize,
                ) && height >= 1,
                prev_zero ==> height == 0,
                    utxos_view(kept@) == keep_unspent(utxos_view(utxos@), tx@.inputs),
                    id@ == tx_id_of(tx@),
                    i < txs@.len(),
                    all == txs_view(txs@),
                    all == block@.transactions,
                    cur == all.subrange(0, i + 1 as int),
                    pre == all.subrange(0, i as int),
                    cur.drop_last() == pre,
                    cur.last() == tx@,
                    utxos_view(utxos@) == apply_txs(old_us, pre),
                    forall|m: int|
                        0 <= m < j ==> !has_key(
                            utxos_view(kept@),
                            utxo_key(#[trigger] created_utxos(tx@)[m]),
                        ),
                decreases tx.outputs@.len() - j,
            {
                if let Some(k) = find_key(&kept, &id, j) {
                    proof {
                        let c = created_utxos(tx@);
                        assert(utxo_key(c[j as int]) == (id@, j));
                        assert(utxos_view(kept@)[k as int] == kept@[k as int]@);
                        assert(has_key(utxos_view(kept@), utxo_key(c[j as int])));
                        assert(!tx_applicable(utxos_view(utxos@), tx@));
                        assert(!txs_applicable(old_us, cur));
                        assert(block@.transactions == all);
                        if txs_applicable(old_us, all) {
                            lemma_applicable_prefix(old_us, all, i + 1);
                            assert(false);
                        }
                    }
                    return Err(LedgerError::DuplicateOutput);
                }
                j += 1;
            }
            assert(tx_applicable(utxos_view(utxos@), tx@));
            proof {
                assert(tx@.outputs.len() == tx.outputs@.len());
                lemma_apply_tx_unique(utxos_view(utxos@), tx@);
            }
            let ghost addrs_before = addrs_view(addrs@);
            let mut next = kept;
            let mut j: usize = 0;
            while j < tx.outputs.len()
                invariant
                    j <= tx.outputs@.len(),
                    id@ == tx_id_of(tx@),
                    tx@.outputs.len() == tx.outputs@.len(),
                    utxos_view(next@) == keep_unspent(utxos_view(utxos@), tx@.inputs) + created_utxos(
                        tx@,
                    ).subrange(0, j as int),
                    addrs_view(addrs@) == addrs_before + tx@.outputs.map_values(
                        |o: OutputV| o.address,
                    ).subrange(0, j as int),
                decreases tx.outputs@.len() - j,
            {
                assert(tx@.outputs[j as int] == tx.outputs@[j as int]@);
                let ghost prev_next = utxos_view(next@);
                let ghost prev_addrs = addrs_view(addrs@);
                next.push(UTXO { tx_id: id, index: j, output: tx.outputs[j].duplicate() });
                addrs.push(copy_bytes(tx.outputs[j].address.as_slice()));
                j += 1;
                assert(utxos_view(next@) =~= prev_next.push(created_utxos(tx@)[j - 1]));
                assert(utxos_view(next@) =~= keep_unspent(utxos_view(utxos@), tx@.inputs) + created_utxos(
                    tx@,
                ).subrange(0, j as int));
                assert(addrs_view(addrs@) =~= prev_addrs.push(tx@.outputs[j - 1].address));
                assert(addrs_view(addrs@) =~= addrs_before + tx@.outputs.map_values(
                    |o: OutputV| o.address,
                ).subrange(0, j as int));
            }
            assert(created_utxos(tx@).subrange(0, tx@.outputs.len() as int) =~= created_utxos(tx@));
            assert(tx@.outputs.map_values(|o: OutputV| o.address).subrange(0, tx@.outputs.len() as int)
                =~= tx@.outputs.map_values(|o: OutputV| o.address));
            let ghost spent_before = utxos_view(spent@);
            let mut removed = removed;
            spent.append(&mut removed);
            assert(utxos_view(spent@) =~= spent_before + spent_by(utxos_view(utxos@), tx@.inputs));
            let ghost ids_before = ids_view(ids@);
            ids.push(id);
            assert(ids_view(ids@) =~= ids_before.push(tx_id_of(tx@)));
            assert(tx_ids_of(cur) =~= tx_ids_of(pre).push(tx_id_of(tx@)));
            utxos = next;
            i += 1;
        }
        assert(all.subrange(0, txs@.len() as int) =~= all);
        let record = BlockRecord {
            block_hash: block.header_hash(),
            prev_hash: block.header.prev_block_hash,
            height,
            tx_ids: ids,
            spent,
            addresses: addrs,
        };
        let ghost old_records = self.records();
        self.utxos = utxos;
        self.records.push(record);
        assert(self.records().drop_last() =~= old_records);
        assert(self.records().last() == record@);
        Ok(())
    }
}


/// Keeping the unspent part leaves no UTXO that an input spends.
proof fn lemma_keep_unspent_not_spent(us: Seq<UtxoV>, inputs: Seq<InputV>)
    ensures
        forall|m: int|
            0 <= m < keep_unspent(us, inputs).len() ==> !spends(inputs, #[trigger] keep_unspent(us, inputs)[m]),
    decreases us.len(),
{
    if us.len() > 0 {
        lemma_keep_unspent_not_spent(us.drop_last(), inputs);
        let prev = keep_unspent(us.drop_last(), inputs);
        let cur = keep_unspent(us, inputs);
        assert forall|m: int| 0 <= m < cur.len() implies !spends(inputs, #[trigger] cur[m]) by {
            if m < prev.len() {
                assert(cur[m] == prev[m]);
            }
        }
    }
}

/// An element that no input spends survives.
proof fn lemma_keep_retains(us: Seq<UtxoV>, inputs: Seq<InputV>, x: UtxoV)
    requires
        us.contains(x),
        !spends(inputs, x),
    ensures
        keep_unspent(us, inputs).contains(x),
    decreases us.len(),
{
    if us.last() == x {
        assert(keep_unspent(us, inputs).last() == x);
        assert(keep_unspent(us, inputs)[keep_unspent(us, inputs).len() - 1] == x);
    } else {
        let k = choose|k: int| 0 <= k < us.len() && us[k] == x;
        assert(us.drop_last()[k] == x);
        lemma_keep_retains(us.drop_last(), inputs, x);
        let kk = keep_unspent(us.drop_last(), inputs);
        let m = choose|m: int| 0 <= m < kk.len() && kk[m] == x;
        if !spends(inputs, us.last()) {
            assert(keep_unspent(us, inputs)[m] == x);
        }
    }
}

/// Applying a transaction makes each of its outputs a UTXO under the key
/// `(tx id, output index)`, paying that output's address.
pub proof fn lemma_outputs_become_utxos(us: Seq<UtxoV>, t: TxV, j: int)
    requires
        0 <= j < t.outputs.len(),
    ensures
        apply_tx(us, t).contains(UtxoV { tx_id: tx_id_of(t), index: j as usize, output: t.outputs[j] }),
{
    let kept = keep_unspent(us, t.inputs);
    assert(apply_tx(us, t)[kept.len() + j] == created_utxos(t)[j]);
}

/// Applying a transaction leaves no UTXO under the key that one of its inputs
/// names, unless that input names the transaction itself.
pub proof fn lemma_inputs_consumed(us: Seq<UtxoV>, t: TxV, k: int)
    requires
        0 <= k < t.inputs.len(),
        t.inputs[k].prev_tx_id != tx_id_of(t),
    ensures
        !has_key(apply_tx(us, t), input_key(t.inputs[k])),
{
    lemma_keep_unspent_not_spent(us, t.inputs);
    let kept = keep_unspent(us, t.inputs);
    let r = apply_tx(us, t);
    if has_key(r, input_key(t.inputs[k])) {
        let m = choose|m: int| 0 <= m < r.len() && utxo_key(#[trigger] r[m]) == input_key(t.inputs[k]);
        if m < kept.len() {
            assert(r[m] == kept[m]);
            assert(spends(t.inputs, kept[m]));
        } else {
            assert(r[m] == created_utxos(t)[m - kept.len()]);
        }
    }
}

/// After a list of transactions is applied, each output of each of them is a
/// UTXO under its key, provided no later transaction of the list spends it.
pub proof fn lemma_block_outputs_become_utxos(us: Seq<UtxoV>, s: Seq<TxV>, p: int, j: int)
    requires
        0 <= p < s.len(),
        0 <= j < s[p].outputs.len(),
        forall|q: int|
            p < q < s.len() ==> !spends(
                (#[trigger] s[q]).inputs,
                UtxoV { tx_id: tx_id_of(s[p]), index: j as usize, output: s[p].outputs[j] },
            ),
    ensures
        apply_txs(us, s).contains(UtxoV { tx_id: tx_id_of(s[p]), index: j as usize, output: s[p].outputs[j] }),
    decreases s.len(),
{
    let x = UtxoV { tx_id: tx_id_of(s[p]), index: j as usize, output: s[p].outputs[j] };
    if p == s.len() - 1 {
        lemma_outputs_become_utxos(apply_txs(us, s.drop_last()), s.last(), j);
    } else {
        let init = s.drop_last();
        assert(init[p] == s[p]);
        assert forall|q: int| p < q < init.len() implies !spends((#[trigger] init[q]).inputs, x) by {
            assert(init[q] == s[q]);
        }
        lemma_block_outputs_become_utxos(us, init, p, j);
        assert(s.last() == s[s.len() - 1]);
        lemma_keep_retains(apply_txs(us, init), s.last().inputs, x);
        let kept = keep_unspent(apply_txs(us, init), s.last().inputs);
        let m = choose|m: int| 0 <= m < kept.len() && kept[m] == x;
        assert(apply_txs(us, s)[m] == x);
    }
}

impl Ledger {
    /// The UTXO with key `(txid, index)`, if there is one.
    pub fn get_utxo(&self, txid: &Hash32, index: usize) -> (r: Option<UTXO>)
        ensures
            r is None <==> !has_key(self.utxo_set(), (txid@, index)),
            r matches Some(u) ==> self.utxo_set().contains(u@) && utxo_key(u@) == (txid@, index),
    {
        match find_key(&self.utxos, txid, index) {
            Some(k) => {
                let u = self.utxos[k].duplicate();
                assert(self.utxo_set()[k as int] == u@);
                Some(u)
            },
            None => None,
        }
    }

    /// The UTXOs with the given keys, in the order of `ids`; keys with no
    /// UTXO are skipped.
    pub fn get_utxos_from_ids(&self, ids: &Vec<(Hash32, usize)>) -> (r: Vec<UTXO>)
        ensures
            r@.len() <= ids@.len(),
            forall|k: int| 0 <= k < r@.len() ==> self.utxo_set().contains(#[trigger] r@[k]@),
            forall|j: int|
                0 <= j < ids@.len() && has_key(self.utxo_set(), (ids@[j].0@, ids@[j].1)) ==> exists|k: int|
                    0 <= k < r@.len() && utxo_key(#[trigger] r@[k]@) == (ids@[j].0@, ids@[j].1),
    {
        let mut out: Vec<UTXO> = Vec::new();
        let mut i: usize = 0;
        while i < ids.len()
            invariant
                i <= ids@.len(),
                out@.len() <= i,
                forall|k: int| 0 <= k < out@.len() ==> self.utxo_set().contains(#[trigger] out@[k]@),
                forall|j: int|
                    0 <= j < i && has_key(self.utxo_set(), (ids@[j].0@, ids@[j].1)) ==> exists|k: int|
                        0 <= k < out@.len() && utxo_key(#[trigger] out@[k]@) == (ids@[j].0@, ids@[j].1),
            decreases ids@.len() - i,
        {
            match self.get_utxo(&ids[i].0, ids[i].1) {
                Some(u) => {
                    let ghost prev = out@;
                    out.push(u);
                    assert forall|j: int|
                        0 <= j <= i && has_key(self.utxo_set(), (ids@[j].0@, ids@[j].1)) implies exists|k: int|
                            0 <= k < out@.len() && utxo_key(#[trigger] out@[k]@) == (ids@[j].0@, ids@[j].1) by {
                        if j < i {
                            let k = choose|k: int| 0 <= k < prev.len() && utxo_key(#[trigger] prev[k]@) == (ids@[j].0@, ids@[j].1);
                            assert(out@[k] == prev[k]);
                        } else {
                            assert(utxo_key(out@[prev.len() as int]@) == (ids@[j].0@, ids@[j].1));
                        }
                    }
                },
                None => {},
            }
            i += 1;
        }
        out
    }

    /// The UTXOs that pay one of `addrs`, in storage order.
    pub fn get_utxos_for_addresses(&self, addrs: &Vec<Vec<u8>>) -> (r: Vec<UTXO>)
        ensures
            utxos_view(r@) == utxos_paying(self.utxo_set(), addrs_view(addrs@)),
    {
        let ghost a = addrs_view(addrs@);
        let mut out: Vec<UTXO> = Vec::new();
        let mut i: usize = 0;
        while i < self.utxos.len()
            invariant
                i <= self.utxos@.len(),
                a == addrs_view(addrs@),
                utxos_view(out@) == utxos_paying(utxos_view(self.utxos@.subrange(0, i as int)), a),
            decreases self.utxos@.len() - i,
        {
            let ghost cur = utxos_view(self.utxos@.subrange(0, i + 1 as int));
            assert(cur.drop_last() =~= utxos_view(self.utxos@.subrange(0, i as int)));
            assert(cur.last() == self.utxos@[i as int]@);
            if contains_bytes(addrs, &self.utxos[i].output.address) {
                out.push(self.utxos[i].duplicate());
                assert(utxos_view(out@) =~= utxos_view(out@.drop_last()).push(self.utxos@[i as int]@));
            }
            i += 1;
        }
        assert(self.utxos@.subrange(0, self.utxos@.len() as int) =~= self.utxos@);
        out
    }

    /// Some stored block confirmed the transaction `txid`.
    pub fn has_transaction(&self, txid: &Hash32) -> (r: bool)
        ensures
            r == self.is_confirmed(txid@),
    {
        let mut k: usize = 0;
        while k < self.records.len()
            invariant
                k <= self.records@.len(),
                forall|m: int| 0 <= m < k ==> !(#[trigger] self.records()[m]).tx_ids.contains(txid@),
            decreases self.records@.len() - k,
        {
            assert(self.records()[k as int] == self.records@[k as int]@);
            if contains_hash(&self.records[k].tx_ids, txid) {
                return true;
            }
            k += 1;
        }
        false
    }

    /// Some address of `addrs` received an output in a stored block.
    pub fn has_any_address_been_used(&self, addrs: &Vec<Vec<u8>>) -> (r: bool)
        ensures
            r == exists|i: int| 0 <= i < addrs@.len() && self.address_used(#[trigger] addrs@[i]@),
    {
        let mut i: usize = 0;
        while i < addrs.len()
            invariant
                i <= addrs@.len(),
                forall|m: int| 0 <= m < i ==> !self.address_used(#[trigger] addrs@[m]@),
            decreases addrs@.len() - i,
        {
            let mut k: usize = 0;
            while k < self.records.len()
                invariant
                    i < addrs@.len(),
                    k <= self.records@.len(),
                    forall|m: int|
                        0 <= m < k ==> !(#[trigger] self.records()[m]).addresses.contains(addrs@[i as int]@),
                decreases self.records@.len() - k,
            {
                assert(self.records()[k as int] == self.records@[k as int]@);
                if contains_bytes(&self.records[k].addresses, &addrs[i]) {
                    return true;
                }
                k += 1;
            }
            i += 1;
        }
        false
    }
}

/// Whether `v` holds the byte string `x`.
pub fn contains_bytes(v: &Vec<Vec<u8>>, x: &Vec<u8>) -> (r: bool)
    ensures
        r == addrs_view(v@).contains(x@),
{
    let mut k: usize = 0;
    while k < v.len()
        invariant
            k <= v@.len(),
            forall|m: int| 0 <= m < k ==> #[trigger] addrs_view(v@)[m] != x@,
        decreases v@.len() - k,
    {
        if bytes_eq(v[k].as_slice(), x.as_slice()) {
            assert(addrs_view(v@)[k as int] == x@);
            return true;
        }
        k += 1;
    }
    false
}

/// Whether `v` holds the digest `x`.
pub fn contains_hash(v: &Vec<Hash32>, x: &Hash32) -> (r: bool)
    ensures
        r == ids_view(v@).contains(x@),
{
    let mut k: usize = 0;
    while k < v.len()
        invariant
            k <= v@.len(),
            forall|m: int| 0 <= m < k ==> #[trigger] ids_view(v@)[m] != x@,
        decreases v@.len() - k,
    {
        if hash_eq(&v[k], x) {
            assert(ids_view(v@)[k as int] == x@);
            return true;
        }
        k += 1;
    }
    false
}


/// Whether two UTXOs of `v` share a key.
fn has_duplicate_utxo_key(v: &Vec<UTXO>) -> (r: bool)
    ensures
        r == !keys_unique(utxos_view(v@)),
{
    let n = v.len();
    let mut a: usize = 0;
    while a < n
        invariant
            n == v@.len(),
            a <= n,
            forall|x: int, y: int|
                0 <= x < a && x < y < n ==> utxo_key(#[trigger] utxos_view(v@)[x]) != utxo_key(
                    #[trigger] utxos_view(v@)[y],
                ),
        decreases n - a,
    {
        let mut b: usize = a + 1;
        while b < n
            invariant
                n == v@.len(),
                a < n,
                a + 1 <= b <= n,
                forall|x: int, y: int|
                    0 <= x < a && x < y < n ==> utxo_key(#[trigger] utxos_view(v@)[x]) != utxo_key(
                        #[trigger] utxos_view(v@)[y],
                    ),
                forall|y: int|
                    a < y < b ==> utxo_key(utxos_view(v@)[a as int]) != utxo_key(
                        #[trigger] utxos_view(v@)[y],
                    ),
            decreases n - b,
        {
            assert(utxos_view(v@)[a as int] == v@[a as int]@);
            assert(utxos_view(v@)[b as int] == v@[b as int]@);
            if v[a].index == v[b].index && hash_eq(&v[a].tx_id, &v[b].tx_id) {
                return true;
            }
            b += 1;
        }
        a += 1;
    }
    false
}

impl Ledger {
    /// Undoes a stored block that no stored block builds on (the most recently
    /// stored one with that id): the outputs its transactions created are
    /// removed, the outputs they spent restored, and its header dropped. On
    /// any failure nothing changes.
    pub fn rollback_block(&mut self, block: &Block) -> (r: Result<(), LedgerError>)
        requires
            old(self).wf(),
        ensures
            final(self).wf(),
            r is Err ==> *final(self) == *old(self),
            match undo_result(old(self).records(), old(self).utxo_set(), block_id_of(block@)) {
                Ok(state) => r is Ok && final(self).records() == state.0 && final(self).utxo_set() == state.1,
                Err(e) => r == Err::<(), LedgerError>(e),
            },
    {
        let id = block.header_hash();
        let mut found: Option<usize> = None;
        let mut k: usize = self.records.len();
        assert(self.records().subrange(0, k as int) =~= self.records());
        while k > 0 && found.is_none()
            invariant
                k <= self.records@.len(),
                found is None ==> last_with_hash(self.records().subrange(0, k as int), id@) == last_with_hash(
                    self.records(),
                    id@,
                ),
                found matches Some(f) ==> f < self.records@.len() && last_with_hash(self.records(), id@) == Some(
                    f as int,
                ),
            decreases k,
        {
            k -= 1;
            let ghost sub = self.records().subrange(0, k + 1 as int);
            assert(sub.drop_last() =~= self.records().subrange(0, k as int));
            assert(sub.last() == self.records@[k as int]@);
            if hash_eq(&self.records[k].block_hash, &id) {
                found = Some(k);
            }
        }
        if found.is_none() {
            assert(self.records().subrange(0, 0) =~= Seq::<RecordV>::empty());
        }
        let pos = match found {
            Some(f) => f,
            None => {
                return Err(LedgerError::UnknownBlock);
            },
        };
        proof {
            lemma_last_with_hash(self.records(), id@);
        }
        let mut k: usize = 0;
        while k < self.records.len()
            invariant
                *self == *old(self),
                self.wf(),
                id@ == block_id_of(block@),
                pos < self.records@.len(),
                last_with_hash(self.records(), id@) == Some(pos as int),
                k <= self.records@.len(),
                forall|m: int| 0 <= m < k ==> (#[trigger] self.records()[m]).prev_hash != id@,
            decreases self.records@.len() - k,
        {
            assert(self.records()[k as int] == self.records@[k as int]@);
            if hash_eq(&self.records[k].prev_hash, &id) {
                assert(has_child(self.records(), id@));
                return Err(LedgerError::NotTip);
            }
            k += 1;
        }
        let ghost rec = self.records()[pos as int];
        assert(rec == self.records@[pos as int]@);
        let ids = &self.records[pos].tx_ids;
        let mut next: Vec<UTXO> = Vec::new();
        let mut i: usize = 0;
        while i < self.utxos.len()
            invariant
                i <= self.utxos@.len(),
                ids_view(ids@) == rec.tx_ids,
                utxos_view(next@) == drop_created(utxos_view(self.utxos@.subrange(0, i as int)), rec.tx_ids),
            decreases self.utxos@.len() - i,
        {
            let ghost cur = utxos_view(self.utxos@.subrange(0, i + 1 as int));
            assert(cur.drop_last() =~= utxos_view(self.utxos@.subrange(0, i as int)));
            assert(cur.last() == self.utxos@[i as int]@);
            if !contains_hash(ids, &self.utxos[i].tx_id) {
                next.push(self.utxos[i].duplicate());
                assert(utxos_view(next@) =~= utxos_view(next@.drop_last()).push(self.utxos@[i as int]@));
            }
            i += 1;
        }
        assert(self.utxos@.subrange(0, self.utxos@.len() as int) =~= self.utxos@);
        let ghost base = utxos_view(next@);
        let restored = duplicate_utxos(&self.records[pos].spent);
        let mut restored = restored;
        next.append(&mut restored);
        assert(utxos_view(next@) =~= base + rec.spent);
        if has_duplicate_utxo_key(&next) {
            return Err(LedgerError::DuplicateOutput);
        }
        let ghost old_records = self.records();
        self.utxos = next;
        let _removed = self.records.remove(pos);
        assert(self.records() =~= old_records.remove(pos as int));
        Ok(())
    }
}


/// Appends copies of the byte strings of `src` to `out`.
pub fn extend_bytes_list(out: &mut Vec<Vec<u8>>, src: &Vec<Vec<u8>>)
    ensures
        addrs_view(final(out)@) == addrs_view(old(out)@) + addrs_view(src@),
{
    let ghost start = addrs_view(out@);
    let mut i: usize = 0;
    while i < src.len()
        invariant
            i <= src@.len(),
            addrs_view(out@) == start + addrs_view(src@).subrange(0, i as int),
        decreases src@.len() - i,
    {
        let ghost prev = out@;
        out.push(copy_bytes(src[i].as_slice()));
        i += 1;
        assert(out@ == prev.push(out@.last()));
        assert(addrs_view(out@) =~= addrs_view(prev).push(src@[i - 1]@));
        assert(addrs_view(out@) =~= start + addrs_view(src@).subrange(0, i as int));
    }
    assert(addrs_view(src@).subrange(0, src@.len() as int) =~= addrs_view(src@));
}


proof fn lemma_keep_unspent_contains(us: Seq<UtxoV>, inputs: Seq<InputV>, x: UtxoV)
    ensures
        keep_unspent(us, inputs).contains(x) <==> (us.contains(x) && !spends(inputs, x)),
    decreases us.len(),
{
    if us.len() > 0 {
        lemma_keep_unspent_contains(us.drop_last(), inputs, x);
        let init = us.drop_last();
        assert(us =~= init.push(us.last()));
        if us.contains(x) && !(init.contains(x)) {
            let k = choose|k: int| 0 <= k < us.len() && us[k] == x;
            if k < us.len() - 1 {
                assert(init[k] == x);
            }
        }
        if init.contains(x) {
            let k = choose|k: int| 0 <= k < init.len() && init[k] == x;
            assert(us[k] == x);
        }
        let prev = keep_unspent(init, inputs);
        if !spends(inputs, us.last()) {
            assert(keep_unspent(us, inputs) == prev.push(us.last()));
            if prev.contains(x) {
                let k = choose|k: int| 0 <= k < prev.len() && prev[k] == x;
                assert(prev.push(us.last())[k] == x);
            }
            if prev.push(us.last()).contains(x) && x != us.last() {
                let k = choose|k: int| 0 <= k < prev.len() + 1 && prev.push(us.last())[k] == x;
                assert(prev[k] == x);
            }
            assert(prev.push(us.last())[prev.len() as int] == us.last());
        }
    }
}

proof fn lemma_spent_by_contains(us: Seq<UtxoV>, inputs: Seq<InputV>, x: UtxoV)
    ensures
        spent_by(us, inputs).contains(x) <==> (us.contains(x) && spends(inputs, x)),
    decreases us.len(),
{
    if us.len() > 0 {
        lemma_spent_by_contains(us.drop_last(), inputs, x);
        let init = us.drop_last();
        if us.contains(x) && !(init.contains(x)) {
            let k = choose|k: int| 0 <= k < us.len() && us[k] == x;
            if k < us.len() - 1 {
                assert(init[k] == x);
            }
        }
        if init.contains(x) {
            let k = choose|k: int| 0 <= k < init.len() && init[k] == x;
            assert(us[k] == x);
        }
        let prev = spent_by(init, inputs);
        if spends(inputs, us.last()) {
            if prev.contains(x) {
                let k = choose|k: int| 0 <= k < prev.len() && prev[k] == x;
                assert(prev.push(us.last())[k] == x);
            }
            if prev.push(us.last()).contains(x) && x != us.last() {
                let k = choose|k: int| 0 <= k < prev.len() + 1 && prev.push(us.last())[k] == x;
                assert(prev[k] == x);
            }
            assert(prev.push(us.last())[prev.len() as int] == us.last());
        }
    }
}

proof fn lemma_drop_created_contains(us: Seq<UtxoV>, ids: Seq<Seq<u8>>, x: UtxoV)
    ensures
        drop_created(us, ids).contains(x) <==> (us.contains(x) && !ids.contains(x.tx_id)),
    decreases us.len(),
{
    if us.len() > 0 {
        lemma_drop_created_contains(us.drop_last(), ids, x);
        let init = us.drop_last();
        if us.contains(x) && !(init.contains(x)) {
            let k = choose|k: int| 0 <= k < us.len() && us[k] == x;
            if k < us.len() - 1 {
                assert(init[k] == x);
            }
        }
        if init.contains(x) {
            let k = choose|k: int| 0 <= k < init.len() && init[k] == x;
            assert(us[k] == x);
        }
        let prev = drop_created(init, ids);
        if !ids.contains(us.last().tx_id) {
            if prev.contains(x) {
                let k = choose|k: int| 0 <= k < prev.len() && prev[k] == x;
                assert(prev.push(us.last())[k] == x);
            }
            if prev.push(us.last()).contains(x) && x != us.last() {
                let k = choose|k: int| 0 <= k < prev.len() + 1 && prev.push(us.last())[k] == x;
                assert(prev[k] == x);
            }
            assert(prev.push(us.last())[prev.len() as int] == us.last());
        }
    }
}

proof fn lemma_created_contains(t: TxV, x: UtxoV)
    ensures
        created_utxos(t).contains(x) ==> x.tx_id == tx_id_of(t),
{
    if created_utxos(t).contains(x) {
        let k = choose|k: int| 0 <= k < created_utxos(t).len() && created_utxos(t)[k] == x;
    }
}

proof fn lemma_concat_contains(a: Seq<UtxoV>, b: Seq<UtxoV>, x: UtxoV)
    ensures
        (a + b).contains(x) <==> (a.contains(x) || b.contains(x)),
{
    if (a + b).contains(x) {
        let k = choose|k: int| 0 <= k < (a + b).len() && (a + b)[k] == x;
        if k >= a.len() {
            assert(b[k - a.len()] == x);
        }
    }
    if a.contains(x) {
        let k = choose|k: int| 0 <= k < a.len() && a[k] == x;
        assert((a + b)[k] == x);
    }
    if b.contains(x) {
        let k = choose|k: int| 0 <= k < b.len() && b[k] == x;
        assert((a + b)[a.len() + k] == x);
    }
}

/// No UTXO of `us` belongs to a transaction of `s`, and every input of `s`
/// names a UTXO of `us`.
pub open spec fn undo_conditions(us: Seq<UtxoV>, s: Seq<TxV>) -> bool {
    &&& forall|k: int| 0 <= k < us.len() ==> !tx_ids_of(s).contains((#[trigger] us[k]).tx_id)
    &&& forall|p: int, j: int|
        0 <= p < s.len() && 0 <= j < s[p].inputs.len() ==> has_key(us, input_key(#[trigger] s[p].inputs[j]))
}

/// Under the undo conditions, an element is in the applied set, or among
/// the spent, exactly when it was in the set before and is spent or not.
proof fn lemma_apply_undo_step(us: Seq<UtxoV>, s: Seq<TxV>, x: UtxoV)
    requires
        undo_conditions(us, s),
    ensures
        us.contains(x) ==> (drop_created(apply_txs(us, s), tx_ids_of(s)).contains(x) || spent_by_txs(us, s).contains(x)),
        drop_created(apply_txs(us, s), tx_ids_of(s)).contains(x) ==> us.contains(x),
        spent_by_txs(us, s).contains(x) ==> us.contains(x),
        apply_txs(us, s).contains(x) && !tx_ids_of(s).contains(x.tx_id) ==> us.contains(x),
        us.contains(x) && !apply_txs(us, s).contains(x) ==> spent_by_txs(us, s).contains(x),
    decreases s.len(),
{
    if s.len() > 0 {
        let init = s.drop_last();
        let t = s.last();
        assert(t == s[s.len() - 1]);
        assert forall|k: int| 0 <= k < us.len() implies !tx_ids_of(init).contains((#[trigger] us[k]).tx_id) by {
            if tx_ids_of(init).contains(us[k].tx_id) {
                let m = choose|m: int| 0 <= m < tx_ids_of(init).len() && tx_ids_of(init)[m] == us[k].tx_id;
                assert(tx_ids_of(s)[m] == us[k].tx_id);
            }
        }
        assert forall|p: int, j: int| 0 <= p < init.len() && 0 <= j < init[p].inputs.len() implies has_key(
            us,
            input_key(#[trigger] init[p].inputs[j]),
        ) by {
            assert(init[p] == s[p]);
        }
        lemma_apply_undo_step(us, init, x);
        let before = apply_txs(us, init);
        let kept = keep_unspent(before, t.inputs);
        lemma_keep_unspent_contains(before, t.inputs, x);
        lemma_spent_by_contains(before, t.inputs, x);
        lemma_concat_contains(kept, created_utxos(t), x);
        lemma_concat_contains(spent_by_txs(us, init), spent_by(before, t.inputs), x);
        lemma_created_contains(t, x);
        assert(tx_ids_of(s) =~= tx_ids_of(init).push(tx_id_of(t)));
        assert(tx_ids_of(s)[s.len() - 1] == tx_id_of(t));
        assert(apply_txs(us, s) == kept + created_utxos(t));
        if created_utxos(t).contains(x) {
            assert(tx_ids_of(s).contains(x.tx_id));
        }
        lemma_drop_created_contains(apply_txs(us, s), tx_ids_of(s), x);
        lemma_drop_created_contains(before, tx_ids_of(init), x);
        if tx_ids_of(init).contains(x.tx_id) {
            let m = choose|m: int| 0 <= m < tx_ids_of(init).len() && tx_ids_of(init)[m] == x.tx_id;
            assert(tx_ids_of(s)[m] == x.tx_id);
        }
        if spent_by(before, t.inputs).contains(x) && !us.contains(x) {
            // x was created inside the list, yet an input of `t` names its key
            let j = choose|j: int| 0 <= j < t.inputs.len() && input_key(#[trigger] t.inputs[j]) == utxo_key(x);
            assert(has_key(us, input_key(s[s.len() - 1].inputs[j])));
            let k = choose|k: int| 0 <= k < us.len() && utxo_key(#[trigger] us[k]) == utxo_key(x);
            assert(!tx_ids_of(s).contains(us[k].tx_id));
            assert(tx_ids_of(init).contains(x.tx_id));
        }
    } else {
        lemma_drop_created_contains(us, tx_ids_of(s), x);
        assert(apply_txs(us, s) == us);
        assert(spent_by_txs(us, s) == Seq::<UtxoV>::empty());
        assert(!tx_ids_of(s).contains(x.tx_id));
    }
}

/// Undoing a list of transactions applied to `us` (dropping every output they
/// created, then restoring every output they spent) gives back exactly the
/// UTXOs of `us`, when no UTXO of `us` belongs to one of them and every input
/// names a UTXO of `us`.
pub proof fn lemma_apply_then_undo(us: Seq<UtxoV>, s: Seq<TxV>)
    requires
        undo_conditions(us, s),
    ensures
        forall|x: UtxoV|
            (drop_created(apply_txs(us, s), tx_ids_of(s)) + spent_by_txs(us, s)).contains(x) <==> us.contains(x),
{
    assert forall|x: UtxoV|
        (drop_created(apply_txs(us, s), tx_ids_of(s)) + spent_by_txs(us, s)).contains(x) <==> us.contains(x) by {
        lemma_apply_undo_step(us, s, x);
        lemma_concat_contains(drop_created(apply_txs(us, s), tx_ids_of(s)), spent_by_txs(us, s), x);
    }
}


/// A UTXO that no transaction of `s[0..p]` spends is still there after them.
proof fn lemma_retained_prefix(us: Seq<UtxoV>, s: Seq<TxV>, x: UtxoV, p: int)
    requires
        0 <= p <= s.len(),
        us.contains(x),
        forall|q: int| 0 <= q < p ==> !spends((#[trigger] s[q]).inputs, x),
    ensures
        apply_txs(us, s.subrange(0, p)).contains(x),
    decreases p,
{
    if p == 0 {
        assert(s.subrange(0, 0) =~= Seq::<TxV>::empty());
    } else {
        lemma_retained_prefix(us, s, x, p - 1);
        let pre = s.subrange(0, p - 1);
        let cur = s.subrange(0, p);
        assert(cur.drop_last() =~= pre);
        assert(cur.last() == s[p - 1]);
        lemma_keep_retains(apply_txs(us, pre), s[p - 1].inputs, x);
        lemma_concat_contains(keep_unspent(apply_txs(us, pre), s[p - 1].inputs), created_utxos(s[p - 1]), x);
    }
}

/// Within a list of transactions applied in turn, an input of transaction
/// `p` that names a UTXO of the starting set, and whose key no earlier input
/// names, finds that UTXO just before `p` is applied, and it is gone just
/// after (unless the input names `p` itself).
pub proof fn lemma_input_existed_then_spent(us: Seq<UtxoV>, s: Seq<TxV>, p: int, j: int)
    requires
        0 <= p < s.len(),
        0 <= j < s[p].inputs.len(),
        has_key(us, input_key(s[p].inputs[j])),
        forall|q: int, i: int|
            0 <= q < p && 0 <= i < s[q].inputs.len() ==> input_key(#[trigger] s[q].inputs[i]) != input_key(
                s[p].inputs[j],
            ),
        s[p].inputs[j].prev_tx_id != tx_id_of(s[p]),
    ensures
        has_key(apply_txs(us, s.subrange(0, p)), input_key(s[p].inputs[j])),
        !has_key(apply_tx(apply_txs(us, s.subrange(0, p)), s[p]), input_key(s[p].inputs[j])),
{
    let key = input_key(s[p].inputs[j]);
    let k = choose|k: int| 0 <= k < us.len() && utxo_key(#[trigger] us[k]) == key;
    let x = us[k];
    assert(us.contains(x));
    assert forall|q: int| 0 <= q < p implies !spends((#[trigger] s[q]).inputs, x) by {
        if spends(s[q].inputs, x) {
            let i = choose|i: int| 0 <= i < s[q].inputs.len() && input_key(#[trigger] s[q].inputs[i]) == utxo_key(x);
        }
    }
    lemma_retained_prefix(us, s, x, p);
    let before = apply_txs(us, s.subrange(0, p));
    let m = choose|m: int| 0 <= m < before.len() && before[m] == x;
    assert(utxo_key(before[m]) == key);
    lemma_inputs_consumed(before, s[p], j);
}


/// Position of the most recently stored record with id `h`.
pub open spec fn last_with_hash(recs: Seq<RecordV>, h: Seq<u8>) -> Option<int>
    decreases recs.len(),
{
    if recs.len() == 0 {
        None
    } else if recs.last().block_hash == h {
        Some(recs.len() - 1)
    } else {
        last_with_hash(recs.drop_last(), h)
    }
}

proof fn lemma_last_with_hash(recs: Seq<RecordV>, h: Seq<u8>)
    ensures
        last_with_hash(recs, h) matches Some(k) ==> 0 <= k < recs.len() && recs[k].block_hash == h,
    decreases recs.len(),
{
    if recs.len() > 0 {
        lemma_last_with_hash(recs.drop_last(), h);
    }
}

/// Some stored record names `h` as its parent.
pub open spec fn has_child(recs: Seq<RecordV>, h: Seq<u8>) -> bool {
    exists|k: int| 0 <= k < recs.len() && (#[trigger] recs[k]).prev_hash == h
}

/// What undoing the block with id `h` gives: the records without it and the
/// UTXO set with its outputs dropped and its spent outputs restored; refused
/// when no record has that id, when a record builds on it, or when the
/// restored set would repeat a key.
pub open spec fn undo_result(recs: Seq<RecordV>, us: Seq<UtxoV>, h: Seq<u8>) -> Result<(Seq<RecordV>, Seq<UtxoV>), LedgerError> {
    match last_with_hash(recs, h) {
        None => Err(LedgerError::UnknownBlock),
        Some(k) => if has_child(recs, h) {
            Err(LedgerError::NotTip)
        } else if !keys_unique(drop_created(us, recs[k].tx_ids) + recs[k].spent) {
            Err(LedgerError::DuplicateOutput)
        } else {
            Ok((recs.remove(k), drop_created(us, recs[k].tx_ids) + recs[k].spent))
        },
    }
}


/// The UTXO of `us` with key `key` (any one, when there is none or several).
pub open spec fn utxo_with_key(us: Seq<UtxoV>, key: (Seq<u8>, usize)) -> UtxoV {
    us[choose|k: int| 0 <= k < us.len() && utxo_key(#[trigger] us[k]) == key]
}

/// With unique keys, the UTXO of a key is the one that holds it.
pub proof fn lemma_utxo_with_key(us: Seq<UtxoV>, u: UtxoV)
    requires
        keys_unique(us),
        us.contains(u),
    ensures
        utxo_with_key(us, utxo_key(u)) == u,
{
    let k = choose|k: int| 0 <= k < us.len() && us[k] == u;
    assert(utxo_key(us[k]) == utxo_key(u));
    let c = choose|c: int| 0 <= c < us.len() && utxo_key(#[trigger] us[c]) == utxo_key(u);
    if c != k {
        if c < k {
            assert(utxo_key(us[c]) != utxo_key(us[k]));
        } else {
            assert(utxo_key(us[k]) != utxo_key(us[c]));
        }
    }
}


/// What undoing blocks `c[n - count..n]`, newest first, gives.
pub open spec fn undo_blocks(
    recs: Seq<RecordV>,
    us: Seq<UtxoV>,
    c: Seq<BlockV>,
    n: int,
    count: nat,
) -> Result<(Seq<RecordV>, Seq<UtxoV>), LedgerError>
    decreases count,
{
    if count == 0 {
        Ok((recs, us))
    } else {
        match undo_blocks(recs, us, c, n, (count - 1) as nat) {
            Err(e) => Err(e),
            Ok(st) => undo_result(st.0, st.1, block_id_of(c[n - count])),
        }
    }
}

/// Once undoing fails, undoing more blocks fails the same way.
pub proof fn lemma_undo_blocks_err(recs: Seq<RecordV>, us: Seq<UtxoV>, c: Seq<BlockV>, n: int, a: nat, b: nat)
    requires
        a <= b,
        undo_blocks(recs, us, c, n, a) is Err,
    ensures
        undo_blocks(recs, us, c, n, b) == undo_blocks(recs, us, c, n, a),
    decreases b - a,
{
    if a < b {
        lemma_undo_blocks_err(recs, us, c, n, a, (b - 1) as nat);
    }
}

impl BlockRecord {
    /// A copy of this record.
    pub fn duplicate(&self) -> (r: BlockRecord)
        ensures
            r@ == self@,
    {
        let mut tx_ids: Vec<Hash32> = Vec::new();
        let mut i: usize = 0;
        while i < self.tx_ids.len()
            invariant
                i <= self.tx_ids@.len(),
                tx_ids@ == self.tx_ids@.subrange(0, i as int),
            decreases self.tx_ids@.len() - i,
        {
            tx_ids.push(self.tx_ids[i]);
            i += 1;
            assert(tx_ids@ =~= self.tx_ids@.subrange(0, i as int));
        }
        assert(self.tx_ids@.subrange(0, self.tx_ids@.len() as int) =~= self.tx_ids@);
        let mut addresses: Vec<Vec<u8>> = Vec::new();
        extend_bytes_list(&mut addresses, &self.addresses);
        assert(addrs_view(addresses@) =~= addrs_view(self.addresses@));
        BlockRecord {
            block_hash: self.block_hash,
            prev_hash: self.prev_hash,
            height: self.height,
            tx_ids,
            spent: duplicate_utxos(&self.spent),
            addresses,
        }
    }
}

impl Ledger {
    /// A copy of this ledger.
    pub fn duplicate(&self) -> (r: Ledger)
        ensures
            r.records() == self.records(),
            r.utxo_set() == self.utxo_set(),
    {
        let mut records: Vec<BlockRecord> = Vec::new();
        let mut i: usize = 0;
        while i < self.records.len()
            invariant
                i <= self.records@.len(),
                records@.len() == i,
                forall|k: int| 0 <= k < i ==> #[trigger] records@[k]@ == self.records@[k]@,
            decreases self.records@.len() - i,
        {
            records.push(self.records[i].duplicate());
            i += 1;
        }
        let r = Ledger { records, utxos: duplicate_utxos(&self.utxos) };
        assert(r.records() =~= self.records());
        r
    }
}


/// Undoing a block just after applying it (its header stored last, with the
/// ids of its transactions and the outputs they spent) succeeds when no
/// stored header builds on it, and gives back the earlier headers and a UTXO
/// set with exactly the members of the set before the block. This holds when
/// the set before had unique keys, the transactions applied in turn, no UTXO
/// of that set belongs to one of them, and every input named one of its UTXOs.
pub proof fn lemma_apply_then_rollback(recs: Seq<RecordV>, rec: RecordV, us: Seq<UtxoV>, s: Seq<TxV>)
    requires
        undo_conditions(us, s),
        keys_unique(us),
        txs_applicable(us, s),
        forall|k: int| 0 <= k < s.len() ==> (#[trigger] s[k]).outputs.len() <= usize::MAX,
        rec.tx_ids == tx_ids_of(s),
        rec.spent == spent_by_txs(us, s),
        !has_child(recs.push(rec), rec.block_hash),
    ensures
        undo_result(recs.push(rec), apply_txs(us, s), rec.block_hash) matches Ok(st) && st.0 == recs
            && forall|x: UtxoV| #[trigger] st.1.contains(x) <==> us.contains(x),
{
    let all = recs.push(rec);
    assert(all.last() == rec);
    assert(last_with_hash(all, rec.block_hash) == Some(recs.len() as int));
    assert(all[recs.len() as int] == rec);
    assert(all.remove(recs.len() as int) =~= recs);
    lemma_apply_then_undo(us, s);
    lemma_undo_keys_unique(us, s);
}

/// Keys equal in a set with unique keys means the same element.
proof fn lemma_same_key_same(us: Seq<UtxoV>, a: UtxoV, b: UtxoV)
    requires
        keys_unique(us),
        us.contains(a),
        us.contains(b),
        utxo_key(a) == utxo_key(b),
    ensures
        a == b,
{
    let i = choose|i: int| 0 <= i < us.len() && us[i] == a;
    let j = choose|j: int| 0 <= j < us.len() && us[j] == b;
    if i < j {
        assert(utxo_key(us[i]) != utxo_key(us[j]));
    } else if j < i {
        assert(utxo_key(us[j]) != utxo_key(us[i]));
    }
}

/// A sequence whose elements lie in a set with unique keys, and which holds
/// no element twice, has unique keys.
proof fn lemma_unique_from_distinct(us: Seq<UtxoV>, xs: Seq<UtxoV>)
    requires
        keys_unique(us),
        forall|k: int| 0 <= k < xs.len() ==> us.contains(#[trigger] xs[k]),
        forall|a: int, b: int| 0 <= a < b < xs.len() ==> xs[a] != xs[b],
    ensures
        keys_unique(xs),
{
    assert forall|a: int, b: int| 0 <= a < b < xs.len() implies utxo_key(#[trigger] xs[a]) != utxo_key(#[trigger] xs[b]) by {
        if utxo_key(xs[a]) == utxo_key(xs[b]) {
            lemma_same_key_same(us, xs[a], xs[b]);
        }
    }
}

/// Elements of `keep`, `spent` and `drop` subsequences hold no element twice
/// when the source holds none twice.
proof fn lemma_filters_distinct(xs: Seq<UtxoV>, inputs: Seq<InputV>, ids: Seq<Seq<u8>>)
    requires
        forall|a: int, b: int| 0 <= a < b < xs.len() ==> xs[a] != xs[b],
    ensures
        forall|a: int, b: int| 0 <= a < b < spent_by(xs, inputs).len() ==> spent_by(xs, inputs)[a] != spent_by(xs, inputs)[b],
        forall|a: int, b: int| 0 <= a < b < drop_created(xs, ids).len() ==> drop_created(xs, ids)[a] != drop_created(xs, ids)[b],
    decreases xs.len(),
{
    if xs.len() > 0 {
        let init = xs.drop_last();
        assert forall|a: int, b: int| 0 <= a < b < init.len() implies init[a] != init[b] by {
            assert(init[a] == xs[a] && init[b] == xs[b]);
        }
        lemma_filters_distinct(init, inputs, ids);
        let x = xs.last();
        assert(!init.contains(x)) by {
            if init.contains(x) {
                let k = choose|k: int| 0 <= k < init.len() && init[k] == x;
                assert(xs[k] == xs[xs.len() - 1]);
            }
        }
        lemma_spent_by_contains(init, inputs, x);
        lemma_drop_created_contains(init, ids, x);
        let sp = spent_by(init, inputs);
        if spends(inputs, x) {
            assert forall|a: int, b: int| 0 <= a < b < sp.push(x).len() implies sp.push(x)[a] != sp.push(x)[b] by {
                if b == sp.len() {
                    assert(sp.contains(sp[a]));
                } else {
                    assert(sp.push(x)[a] == sp[a] && sp.push(x)[b] == sp[b]);
                }
            }
        }
        let dr = drop_created(init, ids);
        if !ids.contains(x.tx_id) {
            assert forall|a: int, b: int| 0 <= a < b < dr.push(x).len() implies dr.push(x)[a] != dr.push(x)[b] by {
                if b == dr.len() {
                    assert(dr.contains(dr[a]));
                } else {
                    assert(dr.push(x)[a] == dr[a] && dr.push(x)[b] == dr[b]);
                }
            }
        }
    }
}

/// An element of the starting set that a transaction of the list spent is
/// not in the set after the list.
proof fn lemma_spent_stays_out(us: Seq<UtxoV>, s: Seq<TxV>, x: UtxoV)
    requires
        undo_conditions(us, s),
        us.contains(x),
        spent_by_txs(us, s).contains(x),
    ensures
        !apply_txs(us, s).contains(x),
    decreases s.len(),
{
    if s.len() > 0 {
        let init = s.drop_last();
        let t = s.last();
        assert(t == s[s.len() - 1]);
        assert forall|k: int| 0 <= k < us.len() implies !tx_ids_of(init).contains((#[trigger] us[k]).tx_id) by {
            if tx_ids_of(init).contains(us[k].tx_id) {
                let m = choose|m: int| 0 <= m < tx_ids_of(init).len() && tx_ids_of(init)[m] == us[k].tx_id;
                assert(tx_ids_of(s)[m] == us[k].tx_id);
            }
        }
        assert forall|p: int, j: int| 0 <= p < init.len() && 0 <= j < init[p].inputs.len() implies has_key(
            us,
            input_key(#[trigger] init[p].inputs[j]),
        ) by {
            assert(init[p] == s[p]);
        }
        let before = apply_txs(us, init);
        lemma_concat_contains(spent_by_txs(us, init), spent_by(before, t.inputs), x);
        lemma_spent_by_contains(before, t.inputs, x);
        lemma_keep_unspent_contains(before, t.inputs, x);
        lemma_concat_contains(keep_unspent(before, t.inputs), created_utxos(t), x);
        lemma_created_contains(t, x);
        let k = choose|k: int| 0 <= k < us.len() && us[k] == x;
        assert(!tx_ids_of(s).contains(x.tx_id));
        assert(tx_ids_of(s)[s.len() - 1] == tx_id_of(t));
        if spent_by_txs(us, init).contains(x) {
            lemma_spent_stays_out(us, init, x);
        }
    }
}

/// The spent outputs of a list hold no element twice.
proof fn lemma_spent_distinct(us: Seq<UtxoV>, s: Seq<TxV>)
    requires
        undo_conditions(us, s),
        keys_unique(us),
        txs_applicable(us, s),
        forall|k: int| 0 <= k < s.len() ==> (#[trigger] s[k]).outputs.len() <= usize::MAX,
    ensures
        forall|a: int, b: int|
            0 <= a < b < spent_by_txs(us, s).len() ==> spent_by_txs(us, s)[a] != spent_by_txs(us, s)[b],
    decreases s.len(),
{
    if s.len() > 0 {
        let init = s.drop_last();
        let t = s.last();
        assert(t == s[s.len() - 1]);
        assert forall|k: int| 0 <= k < us.len() implies !tx_ids_of(init).contains((#[trigger] us[k]).tx_id) by {
            if tx_ids_of(init).contains(us[k].tx_id) {
                let m = choose|m: int| 0 <= m < tx_ids_of(init).len() && tx_ids_of(init)[m] == us[k].tx_id;
                assert(tx_ids_of(s)[m] == us[k].tx_id);
            }
        }
        assert forall|p: int, j: int| 0 <= p < init.len() && 0 <= j < init[p].inputs.len() implies has_key(
            us,
            input_key(#[trigger] init[p].inputs[j]),
        ) by {
            assert(init[p] == s[p]);
        }
        assert forall|k: int| 0 <= k < init.len() implies (#[trigger] init[k]).outputs.len() <= usize::MAX by {
            assert(init[k] == s[k]);
        }
        lemma_spent_distinct(us, init);
        let before = apply_txs(us, init);
        lemma_apply_txs_unique(us, init);
        assert forall|a: int, b: int| 0 <= a < b < before.len() implies before[a] != before[b] by {
            assert(utxo_key(before[a]) != utxo_key(before[b]));
        }
        lemma_filters_distinct(before, t.inputs, Seq::empty());
        let p1 = spent_by_txs(us, init);
        let p2 = spent_by(before, t.inputs);
        let all = p1 + p2;
        assert forall|a: int, b: int| 0 <= a < b < all.len() implies all[a] != all[b] by {
            if a < p1.len() && b >= p1.len() {
                let y = p1[a];
                let z = p2[b - p1.len()];
                assert(all[a] == y && all[b] == z);
                if y == z {
                    assert(p1.contains(y));
                    assert(p2.contains(z));
                    lemma_spent_by_contains(before, t.inputs, z);
                    lemma_apply_undo_step(us, init, y);
                    lemma_spent_stays_out(us, init, y);
                }
            } else if b < p1.len() {
                assert(all[a] == p1[a] && all[b] == p1[b]);
            } else {
                assert(all[a] == p2[a - p1.len()] && all[b] == p2[b - p1.len()]);
            }
        }
    }
}

/// Under the undo conditions, for a list of applicable transactions, the
/// restored set repeats no key.
pub proof fn lemma_undo_keys_unique(us: Seq<UtxoV>, s: Seq<TxV>)
    requires
        undo_conditions(us, s),
        keys_unique(us),
        txs_applicable(us, s),
        forall|k: int| 0 <= k < s.len() ==> (#[trigger] s[k]).outputs.len() <= usize::MAX,
    ensures
        keys_unique(drop_created(apply_txs(us, s), tx_ids_of(s)) + spent_by_txs(us, s)),
{
    let a = apply_txs(us, s);
    let d = drop_created(a, tx_ids_of(s));
    let sp = spent_by_txs(us, s);
    let x = d + sp;
    lemma_apply_txs_unique(us, s);
    assert forall|i: int, j: int| 0 <= i < j < a.len() implies a[i] != a[j] by {
        assert(utxo_key(a[i]) != utxo_key(a[j]));
    }
    lemma_filters_distinct(a, Seq::empty(), tx_ids_of(s));
    lemma_spent_distinct(us, s);
    assert forall|k: int| 0 <= k < x.len() implies us.contains(#[trigger] x[k]) by {
        lemma_apply_undo_step(us, s, x[k]);
        lemma_concat_contains(d, sp, x[k]);
        assert(x.contains(x[k]));
    }
    assert forall|i: int, j: int| 0 <= i < j < x.len() implies x[i] != x[j] by {
        if i < d.len() && j >= d.len() {
            let y = x[i];
            if y == x[j] {
                assert(d.contains(y));
                assert(sp.contains(y));
                assert(sp[j - d.len()] == y);
                lemma_drop_created_contains(a, tx_ids_of(s), y);
                lemma_apply_undo_step(us, s, y);
                lemma_spent_stays_out(us, s, y);
            }
        } else if j < d.len() {
            assert(x[i] == d[i] && x[j] == d[j]);
        } else {
            assert(x[i] == sp[i - d.len()] && x[j] == sp[j - d.len()]);
        }
    }
    lemma_unique_from_distinct(us, x);
}

} // verus!
