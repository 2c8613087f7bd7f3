//! Mempool entries: a transaction with the outputs its inputs resolved to
//! when it was admitted.

use vstd::prelude::*;
use crate::ledger::utxos_view;
use crate::transaction::{OutputV, Transaction, UTXO, UtxoV, outputs_total, outputs_view};

verus! {

/// Sum of the values of a list of UTXOs.
pub open spec fn utxos_total(s: Seq<UtxoV>) -> nat
    decreases s.len(),
{
    if s.len() == 0 {
        0
    } else {
        utxos_total(s.drop_last()) + s.last().output.value as nat
    }
}

proof fn lemma_utxos_total_bound(s: Seq<UtxoV>)
    ensures
        utxos_total(s) <= s.len() * (u64::MAX as nat),
    decreases s.len(),
{
    if s.len() > 0 {
        lemma_utxos_total_bound(s.drop_last());
        assert((s.len() - 1) * (u64::MAX as nat) + (u64::MAX as nat) == s.len() * (u64::MAX as nat))
            by (nonlinear_arith);
    }
}

proof fn lemma_outputs_total_bound(s: Seq<OutputV>)
    ensures
        outputs_total(s) <= s.len() * (u64::MAX as nat),
    decreases s.len(),
{
    if s.len() > 0 {
        lemma_outputs_total_bound(s.drop_last());
        assert((s.len() - 1) * (u64::MAX as nat) + (u64::MAX as nat) == s.len() * (u64::MAX as nat))
            by (nonlinear_arith);
    }
}

/// Sum of the values of a list of UTXOs.
pub fn sum_utxos(v: &Vec<UTXO>) -> (r: u128)
    ensures
        r == utxos_total(utxos_view(v@)),
{
    let mut total: u128 = 0;
    let mut i: usize = 0;
    while i < v.len()
        invariant
            i <= v@.len(),
            total == utxos_total(utxos_view(v@.subrange(0, i as int))),
        decreases v@.len() - i,
    {
        let ghost cur = utxos_view(v@.subrange(0, i + 1 as int));
        assert(cur.drop_last() =~= utxos_view(v@.subrange(0, i as int)));
        assert(cur.last() == v@[i as int]@);
        proof {
            lemma_utxos_total_bound(cur);
            assert(cur.len() * (u64::MAX as nat) <= (usize::MAX as nat) * (u64::MAX as nat))
                by (nonlinear_arith)
                requires
                    cur.len() <= usize::MAX,
            ;
        }
        total = total + v[i].output.value as u128;
        i += 1;
    }
    assert(v@.subrange(0, v@.len() as int) =~= v@);
    total
}

/// Sum of the values of a list of outputs.
pub fn sum_outputs(v: &Vec<crate::transaction::TxOutput>) -> (r: u128)
    ensures
        r == outputs_total(outputs_view(v@)),
{
    let mut total: u128 = 0;
    let mut i: usize = 0;
    while i < v.len()
        invariant
            i <= v@.len(),
            total == outputs_total(outputs_view(v@.subrange(0, i as int))),
        decreases v@.len() - i,
    {
        let ghost cur = outputs_view(v@.subrange(0, i + 1 as int));
        assert(cur.drop_last() =~= outputs_view(v@.subrange(0, i as int)));
        assert(cur.last() == v@[i as int]@);
        proof {
            lemma_outputs_total_bound(cur);
            assert(cur.len() * (u64::MAX as nat) <= (usize::MAX as nat) * (u64::MAX as nat))
                by (nonlinear_arith)
                requires
                    cur.len() <= usize::MAX,
            ;
        }
        total = total + v[i].value as u128;
        i += 1;
    }
    assert(v@.subrange(0, v@.len() as int) =~= v@);
    total
}

/// A transaction waiting for a block, with the UTXOs its inputs resolved to.
#[derive(Debug, Clone)]
pub struct MempoolEntry {
    pub tx: Transaction,
    pub resolved_inputs: Vec<UTXO>,
}

pub struct EntryV {
    pub tx: crate::transaction::TxV,
    pub resolved_inputs: Seq<UtxoV>,
}

impl View for MempoolEntry {
    type V = EntryV;

    open spec fn view(&self) -> EntryV {
        EntryV { tx: self.tx@, resolved_inputs: utxos_view(self.resolved_inputs@) }
    }
}

pub open spec fn entries_view(s: Seq<MempoolEntry>) -> Seq<EntryV> {
    s.map_values(|e: MempoolEntry| e@)
}

/// The fee of an entry: what its resolved inputs hold beyond what it pays out,
/// when that is not negative and fits in 64 bits.
pub open spec fn entry_fee(inputs: Seq<UtxoV>, outputs: Seq<OutputV>) -> Option<u64> {
    if utxos_total(inputs) >= outputs_total(outputs) && utxos_total(inputs) - outputs_total(outputs)
        <= u64::MAX {
        Some((utxos_total(inputs) - outputs_total(outputs)) as u64)
    } else {
        None
    }
}

impl MempoolEntry {
    /// Input total minus output total.
    pub fn calculate_fee(&self) -> (r: Option<u64>)
        ensures
            r == entry_fee(utxos_view(self.resolved_inputs@), self.tx@.outputs),
    {
        let inputs = sum_utxos(&self.resolved_inputs);
        let outputs = sum_outputs(&self.tx.outputs);
        if inputs >= outputs && inputs - outputs <= u64::MAX as u128 {
            Some((inputs - outputs) as u64)
        } else {
            None
        }
    }
}

} // verus!
