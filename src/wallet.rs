//! The HD wallet: receive and change branches under `[111, 0, change, index]`,
//! gap-limit discovery of used addresses against the ledger, coin selection
//! and construction of signed transactions.

use vstd::prelude::*;
use crate::address::validate_address;
use crate::address::decode_spec;
use crate::hdkey::{HDKey, KeyV, derive_path_key, key_address};
use crate::ledger::{Ledger, addrs_view, contains_bytes, utxos_paying, utxos_view};
use crate::mempool::{MempoolEntry, sum_outputs, sum_utxos, utxos_total};
use crate::hash::sha256_of;
use crate::ledger::utxo_key;
use crate::signatures::{ed25519_public_of, ed25519_signature_of};
use crate::transaction::{
    InputV, Transaction, TxInput, TxOutput, UTXO, UtxoV, input_key, message_view, outputs_total,
    outputs_view, tx_bytes, unsigned_tx,
};

verus! {

/// Consecutive unused indices probed before discovery stops.
pub const GAP_LIMIT: u32 = 20;

/// Purpose index at the top of every derivation path.
pub const PURPOSE: u32 = 111;

/// Number of whole gaps that fit in the 32-bit index space.
pub const MAX_GAPS: u32 = 214748364;

/// The key at `index` of branch `change` (0 receive, 1 change).
pub open spec fn branch_key(m: KeyV, change: u32, index: u32) -> KeyV {
    derive_path_key(m, seq![PURPOSE, 0u32, change, index])
}

pub open spec fn branch_address(m: KeyV, change: u32, index: u32) -> Seq<u8> {
    key_address(branch_key(m, change, index))
}

/// Some address of gap `g` of a branch received an output in the ledger.
pub open spec fn gap_used(l: Ledger, m: KeyV, change: u32, g: nat) -> bool {
    exists|i: int|
        0 <= i < GAP_LIMIT && l.address_used(#[trigger] branch_address(m, change, (g * 20 + i) as u32))
}

/// The first gap, from `g` on, with no used address (or the end of the index space).
pub open spec fn first_unused_gap(l: Ledger, m: KeyV, change: u32, g: nat) -> nat
    decreases MAX_GAPS - g,
{
    if g >= MAX_GAPS {
        g
    } else if !gap_used(l, m, change, g) {
        g
    } else {
        first_unused_gap(l, m, change, g + 1)
    }
}

/// The addresses of a branch that discovery finds: every gap before the first unused one.
pub open spec fn known_branch(l: Ledger, m: KeyV, change: u32) -> Seq<Seq<u8>> {
    Seq::new(
        20 * first_unused_gap(l, m, change, 0),
        |i: int| branch_address(m, change, i as u32),
    )
}

/// The wallet's known addresses: the receive branch's, then the change branch's.
pub open spec fn known_addresses(l: Ledger, m: KeyV) -> Seq<Seq<u8>> {
    known_branch(l, m, 0) + known_branch(l, m, 1)
}

/// Sum of the first `k` UTXO values.
pub open spec fn prefix_total(us: Seq<UtxoV>, k: int) -> nat {
    utxos_total(us.subrange(0, k))
}

/// Coin selection: the shortest prefix whose values reach `amount`, if any.
pub open spec fn selection_len(us: Seq<UtxoV>, amount: nat) -> Option<nat> {
    if utxos_total(us) < amount {
        None
    } else {
        Some(choose|k: nat| k <= us.len() && prefix_total(us, k as int) >= amount && forall|j: int|
            0 <= j < k ==> prefix_total(us, j) < amount)
    }
}

/// Result of a gap-limit walk over one branch.
#[derive(Debug)]
pub struct Discovery {
    /// Addresses of every gap that had a used address, in index order.
    pub known: Vec<Vec<u8>>,
    /// Number of addresses derived and looked up.
    pub probed: usize,
}

/// Why a payment cannot be built.
#[derive(Debug, Clone, Copy, PartialEq, Eq)]
pub enum WalletError {
    InvalidOutputAddress,
    AmountOverflow,
    InsufficientFunds,
    AddressNotOwned,
    IndexExhausted,
}

#[derive(Debug, Clone)]
pub struct Wallet {
    master_hdkey: HDKey,
    current_index: u32,
}

proof fn lemma_prefix_total_step(us: Seq<UtxoV>, k: int)
    requires
        0 <= k < us.len(),
    ensures
        prefix_total(us, k + 1) == prefix_total(us, k) + us[k].output.value,
{
    assert(us.subrange(0, k + 1).drop_last() =~= us.subrange(0, k));
}

proof fn lemma_prefix_total_monotone(us: Seq<UtxoV>, a: int, b: int)
    requires
        0 <= a <= b <= us.len(),
    ensures
        prefix_total(us, a) <= prefix_total(us, b),
    decreases b - a,
{
    if a < b {
        lemma_prefix_total_monotone(us, a, b - 1);
        lemma_prefix_total_step(us, b - 1);
    }
}

/// Takes UTXOs in the given order until their values reach `amount`;
/// `None` when all of them together fall short.
pub fn select_coins(utxos: &Vec<UTXO>, amount: u64) -> (r: Option<Vec<UTXO>>)
    ensures
        r is None <==> selection_len(utxos_view(utxos@), amount as nat) is None,
        r matches Some(sel) ==> selection_len(utxos_view(utxos@), amount as nat) == Some(sel@.len())
            && sel@.len() <= utxos@.len()
            && utxos_view(sel@) == utxos_view(utxos@).subrange(0, sel@.len() as int)
            && prefix_total(utxos_view(utxos@), sel@.len() as int) >= amount
            && forall|j: int| 0 <= j < sel@.len() ==> prefix_total(utxos_view(utxos@), j) < amount,
{
    let ghost us = utxos_view(utxos@);
    let mut selected: Vec<UTXO> = Vec::new();
    let mut total: u128 = 0;
    let mut i: usize = 0;
    if amount == 0 {
        assert(us.subrange(0, 0) =~= Seq::<UtxoV>::empty());
        proof {
            lemma_prefix_total_monotone(us, 0, us.len() as int);
            assert(us.subrange(0, us.len() as int) =~= us);
            assert(prefix_total(us, 0) >= 0);
        }
        assert(utxos_view(selected@) =~= us.subrange(0, 0));
        return Some(selected);
    }
    while i < utxos.len()
        invariant
            us == utxos_view(utxos@),
            i <= utxos@.len(),
            total == prefix_total(us, i as int),
            total < amount,
            forall|j: int| 0 <= j <= i ==> prefix_total(us, j) < amount,
            utxos_view(selected@) == us.subrange(0, i as int),
        decreases utxos@.len() - i,
    {
        proof {
            lemma_prefix_total_step(us, i as int);
        }
        assert(us[i as int] == utxos@[i as int]@);
        total = total + utxos[i].output.value as u128;
        selected.push(utxos[i].duplicate());
        i += 1;
        assert(utxos_view(selected@) =~= us.subrange(0, i as int));
        if total >= amount as u128 {
            proof {
                assert(us.subrange(0, us.len() as int) =~= us);
                lemma_prefix_total_monotone(us, i as int, us.len() as int);
                let k = i as nat;
                assert(k <= us.len() && prefix_total(us, k as int) >= amount && forall|j: int|
                    0 <= j < k ==> prefix_total(us, j) < amount);
                let c = choose|c: nat| c <= us.len() && prefix_total(us, c as int) >= amount && forall|j: int|
                    0 <= j < c ==> prefix_total(us, j) < amount;
                if c < k {
                    assert(prefix_total(us, c as int) < amount);
                } else if c > k {
                    assert(prefix_total(us, k as int) < amount);
                }
            }
            return Some(selected);
        }
    }
    assert(us.subrange(0, us.len() as int) =~= us);
    None
}

impl Wallet {
    /// The master key.
    pub closed spec fn master(&self) -> KeyV {
        self.master_hdkey@
    }

    /// The index that the next fresh address will use.
    pub closed spec fn next_index(&self) -> u32 {
        self.current_index
    }

    /// A wallet whose master key comes from `seed`.
    pub fn new(seed: &[u8]) -> (r: Wallet)
        ensures
            r.master() == crate::hdkey::key_from_data(seed@),
            r.next_index() == 0,
    {
        Wallet { master_hdkey: HDKey::new(seed), current_index: 0 }
    }

    /// The key reached from the master key by `path`.
    pub fn derive_path(&self, path: &[u32]) -> (r: HDKey)
        ensures
            r@ == derive_path_key(self.master(), path@),
    {
        self.master_hdkey.derive_path(path)
    }

    /// The key at `index` of branch `change`.
    pub fn branch_key(&self, change: u32, index: u32) -> (r: HDKey)
        ensures
            r@ == branch_key(self.master(), change, index),
    {
        let path: Vec<u32> = vec![PURPOSE, 0u32, change, index];
        assert(path@ =~= seq![PURPOSE, 0u32, change, index]);
        self.master_hdkey.derive_path(path.as_slice())
    }

    /// `n` receive keys from index `offset` (0 when absent) on.
    pub fn generate_n_keys(&self, n: u32, offset: Option<u32>) -> (r: Vec<HDKey>)
        requires
            (match offset {
                Some(o) => o as int,
                None => 0,
            }) + n <= u32::MAX + 1,
        ensures
            r@.len() == n,
            forall|i: int|
                0 <= i < n ==> (#[trigger] r@[i])@ == branch_key(
                    self.master(),
                    0,
                    ((match offset {
                        Some(o) => o as int,
                        None => 0,
                    }) + i) as u32,
                ),
    {
        let start: u32 = match offset {
            Some(o) => o,
            None => 0,
        };
        let mut keys: Vec<HDKey> = Vec::new();
        let mut i: u32 = 0;
        while i < n
            invariant
                i <= n,
                start as int + n <= u32::MAX + 1,
                start == (match offset {
                    Some(o) => o as int,
                    None => 0,
                }),
                keys@.len() == i,
                forall|k: int| 0 <= k < i ==> (#[trigger] keys@[k])@ == branch_key(self.master(), 0, (start + k) as u32),
            decreases n - i,
        {
            keys.push(self.branch_key(0, start + i));
            i += 1;
        }
        keys
    }

    /// The addresses of gap `g` of branch `change`.
    fn gap_addresses(&self, change: u32, g: u32) -> (r: Vec<Vec<u8>>)
        requires
            g < MAX_GAPS,
        ensures
            r@.len() == GAP_LIMIT,
            forall|i: int| 0 <= i < GAP_LIMIT ==> (#[trigger] r@[i])@ == branch_address(self.master(), change, (g * 20 + i) as u32),
    {
        let offset: u32 = g * GAP_LIMIT;
        let mut out: Vec<Vec<u8>> = Vec::new();
        let mut i: u32 = 0;
        while i < GAP_LIMIT
            invariant
                i <= GAP_LIMIT,
                g < MAX_GAPS,
                offset == g * 20,
                out@.len() == i,
                forall|k: int| 0 <= k < i ==> (#[trigger] out@[k])@ == branch_address(self.master(), change, (g * 20 + k) as u32),
            decreases GAP_LIMIT - i,
        {
            let key = self.branch_key(change, offset + i);
            out.push(key.get_address());
            i += 1;
        }
        out
    }

    /// Gap-limit walk over branch `change`: gap after gap of `GAP_LIMIT`
    /// addresses, keeping each gap with a used address, until a gap with none.
    pub fn discover(&self, ledger: &Ledger, change: u32) -> (r: Discovery)
        ensures
            addrs_view(r.known@) == known_branch(*ledger, self.master(), change),
            first_unused_gap(*ledger, self.master(), change, 0) < MAX_GAPS ==> r.probed == r.known@.len() + 20,
            first_unused_gap(*ledger, self.master(), change, 0) >= MAX_GAPS ==> r.probed == r.known@.len(),
    {
        let ghost m = self.master();
        let mut known: Vec<Vec<u8>> = Vec::new();
        let mut g: u32 = 0;
        while g < MAX_GAPS
            invariant
                g <= MAX_GAPS,
                m == self.master(),
                first_unused_gap(*ledger, m, change, 0) == first_unused_gap(*ledger, m, change, g as nat),
                known@.len() == 20 * g,
                forall|i: int| 0 <= i < known@.len() ==> (#[trigger] known@[i])@ == branch_address(m, change, i as u32),
            decreases MAX_GAPS - g,
        {
            let batch = self.gap_addresses(change, g);
            let used = ledger.has_any_address_been_used(&batch);
            assert(used == gap_used(*ledger, m, change, g as nat)) by {
                if used {
                    let i = choose|i: int| 0 <= i < batch@.len() && ledger.address_used(#[trigger] batch@[i]@);
                    assert(ledger.address_used(branch_address(m, change, (g * 20 + i) as u32)));
                }
                if gap_used(*ledger, m, change, g as nat) {
                    let i = choose|i: int| 0 <= i < GAP_LIMIT && ledger.address_used(#[trigger] branch_address(m, change, (g * 20 + i) as u32));
                    assert(batch@[i]@ == branch_address(m, change, (g * 20 + i) as u32));
                }
            }
            if !used {
                assert(first_unused_gap(*ledger, m, change, g as nat) == g);
                assert(addrs_view(known@) =~= known_branch(*ledger, m, change));
                let probed = known.len() + 20;
                return Discovery { known, probed };
            }
            let ghost before = known@;
            let mut k: usize = 0;
            while k < batch.len()
                invariant
                    k <= batch@.len(),
                    batch@.len() == 20,
                    g < MAX_GAPS,
                    before.len() == 20 * g,
                    known@.len() == before.len() + k,
                    forall|i: int| 0 <= i < before.len() ==> #[trigger] known@[i] == before[i],
                    forall|i: int| 0 <= i < k ==> (#[trigger] known@[before.len() + i])@ == batch@[i]@,
                decreases batch@.len() - k,
            {
                known.push(crate::bytes::copy_bytes(batch[k].as_slice()));
                k += 1;
            }
            assert forall|i: int| 0 <= i < known@.len() implies (#[trigger] known@[i])@ == branch_address(m, change, i as u32) by {
                if i >= before.len() {
                    let j = i - before.len();
                    assert(known@[before.len() + j]@ == batch@[j]@);
                    assert(g * 20 + j == i);
                } else {
                    assert(known@[i] == before[i]);
                }
            }
            g += 1;
        }
        assert(addrs_view(known@) =~= known_branch(*ledger, m, change));
        let probed = known.len();
        Discovery { known, probed }
    }
}


/// Every UTXO that `utxos_paying` keeps pays one of the addresses.
proof fn lemma_paying_address(us: Seq<UtxoV>, addrs: Seq<Seq<u8>>)
    ensures
        forall|k: int|
            0 <= k < utxos_paying(us, addrs).len() ==> addrs.contains(
                (#[trigger] utxos_paying(us, addrs)[k]).output.address,
            ),
    decreases us.len(),
{
    if us.len() > 0 {
        lemma_paying_address(us.drop_last(), addrs);
        let prev = utxos_paying(us.drop_last(), addrs);
        let cur = utxos_paying(us, addrs);
        assert forall|k: int| 0 <= k < cur.len() implies addrs.contains((#[trigger] cur[k]).output.address) by {
            if k < prev.len() {
                assert(cur[k] == prev[k]);
            }
        }
    }
}

/// Position of `x` in `v`, if it is there.
fn position_of(v: &Vec<Vec<u8>>, x: &Vec<u8>) -> (r: Option<usize>)
    ensures
        r is None <==> !addrs_view(v@).contains(x@),
        r matches Some(k) ==> k < v@.len() && v@[k as int]@ == x@,
{
    let mut k: usize = 0;
    while k < v.len()
        invariant
            k <= v@.len(),
            forall|m: int| 0 <= m < k ==> #[trigger] addrs_view(v@)[m] != x@,
        decreases v@.len() - k,
    {
        assert(addrs_view(v@)[k as int] == v@[k as int]@);
        if crate::bytes::bytes_eq(v[k].as_slice(), x.as_slice()) {
            return Some(k);
        }
        k += 1;
    }
    None
}

/// Selecting, largest value first, for the total of every UTXO the wallet
/// holds succeeds, and for one unit more fails.
pub proof fn lemma_selection_boundary(us: Seq<UtxoV>, s: Seq<UtxoV>)
    requires
        desc_sorting_of(us, s),
    ensures
        selection_len(s, utxos_total(us)) is Some,
        selection_len(s, utxos_total(us) + 1) is None,
{
}

/// With no address used in the ledger, discovery keeps no address: it probes
/// one gap and stops.
pub proof fn lemma_discovery_without_usage(l: Ledger, m: KeyV, change: u32)
    requires
        forall|a: Seq<u8>| !l.address_used(a),
    ensures
        first_unused_gap(l, m, change, 0) == 0,
        known_branch(l, m, change).len() == 0,
{
    assert(!gap_used(l, m, change, 0));
}

/// What the change output of a payment is, given the change still owed.
pub open spec fn with_change(outputs: Seq<crate::transaction::OutputV>, change: nat, address: Seq<u8>) -> Seq<crate::transaction::OutputV> {
    if change > 0 {
        outputs.push(crate::transaction::OutputV { value: change as u64, address })
    } else {
        outputs
    }
}

impl Wallet {
    /// The receive address at the next index; the index moves on.
    pub fn get_receive_addr(&mut self) -> (r: Vec<u8>)
        requires
            old(self).next_index() < u32::MAX,
        ensures
            r@ == branch_address(old(self).master(), 0, old(self).next_index()),
            final(self).master() == old(self).master(),
            final(self).next_index() == old(self).next_index() + 1,
    {
        let key = self.branch_key(0, self.current_index);
        self.current_index = self.current_index + 1;
        key.get_address()
    }

    /// The change address at the next index; the index moves on.
    pub fn get_change_addr(&mut self) -> (r: Vec<u8>)
        requires
            old(self).next_index() < u32::MAX,
        ensures
            r@ == branch_address(old(self).master(), 1, old(self).next_index()),
            final(self).master() == old(self).master(),
            final(self).next_index() == old(self).next_index() + 1,
    {
        let key = self.branch_key(1, self.current_index);
        self.current_index = self.current_index + 1;
        key.get_address()
    }

    /// The receive index of `address` among the known receive addresses.
    pub fn owns_address(&self, ledger: &Ledger, address: &Vec<u8>) -> (r: Option<u32>)
        ensures
            r is None <==> !known_branch(*ledger, self.master(), 0).contains(address@),
            r matches Some(i) ==> i < known_branch(*ledger, self.master(), 0).len()
                && branch_address(self.master(), 0, i) == address@,
    {
        let d = self.discover(ledger, 0);
        match position_of(&d.known, address) {
            Some(k) => {
                assert(addrs_view(d.known@)[k as int] == d.known@[k as int]@);
                Some(k as u32)
            },
            None => None,
        }
    }

    /// The UTXOs that pay a known address, receive branch first.
    pub fn get_wallet_utxos(&self, ledger: &Ledger) -> (r: Vec<UTXO>)
        ensures
            utxos_view(r@) == utxos_paying(ledger.utxo_set(), known_addresses(*ledger, self.master())),
    {
        let receive = self.discover(ledger, 0);
        let change = self.discover(ledger, 1);
        let mut all = receive.known;
        let mut rest = change.known;
        all.append(&mut rest);
        assert(addrs_view(all@) =~= known_addresses(*ledger, self.master()));
        ledger.get_utxos_for_addresses(&all)
    }

    /// Total value of the wallet's UTXOs.
    pub fn calculate_balance(&self, ledger: &Ledger) -> (r: u128)
        ensures
            r == utxos_total(utxos_paying(ledger.utxo_set(), known_addresses(*ledger, self.master()))),
    {
        let utxos = self.get_wallet_utxos(ledger);
        sum_utxos(&utxos)
    }

    /// Coin selection over the wallet's UTXOs, largest value first.
    pub fn select_utxos(&self, ledger: &Ledger, amount: u64) -> (r: Option<Vec<UTXO>>)
        ensures
            ({
                let us = utxos_paying(ledger.utxo_set(), known_addresses(*ledger, self.master()));
                &&& r is None <==> utxos_total(us) < amount
                &&& r matches Some(sel) ==> exists|s: Seq<UtxoV>|
                    #[trigger] desc_sorting_of(us, s) && selection_len(s, amount as nat) == Some(sel@.len())
                        && utxos_view(sel@) == s.subrange(0, sel@.len() as int)
            }),
    {
        let utxos = self.get_wallet_utxos(ledger);
        let sorted = sort_by_value_desc(utxos);
        let r = select_coins(&sorted, amount);
        proof {
            let s = utxos_view(sorted@);
            assert(desc_sorting_of(utxos_paying(ledger.utxo_set(), known_addresses(*ledger, self.master())), s));
        }
        r
    }
}


/// Every output address is a well-formed address.
pub open spec fn outputs_addresses_valid(outputs: Seq<crate::transaction::OutputV>) -> bool {
    forall|i: int| 0 <= i < outputs.len() ==> (#[trigger] decode_spec(outputs[i].address)) is Ok
}

/// Input `i` carries the key and signature of a wallet key that owns the
/// address of the output it spends.
pub open spec fn input_signed_by_owner(m: KeyV, input: InputV, spent: UtxoV, signed: Seq<u8>) -> bool {
    &&& input_key(input) == utxo_key(spent)
    &&& exists|c: u32, idx: u32|
        #[trigger] branch_address(m, c, idx) == spent.output.address && input.public_key
            == ed25519_public_of(branch_key(m, c, idx).private_key) && input.signature
            == ed25519_signature_of(branch_key(m, c, idx).private_key, sha256_of(signed))
}

impl Wallet {
    /// The key that owns `address`, searched among the known receive
    /// addresses, then the known change addresses.
    fn owning_key(&self, receive: &Vec<Vec<u8>>, change: &Vec<Vec<u8>>, address: &Vec<u8>) -> (r: Option<HDKey>)
        requires
            receive@.len() <= 20 * MAX_GAPS,
            change@.len() <= 20 * MAX_GAPS,
            forall|i: int| 0 <= i < receive@.len() ==> (#[trigger] receive@[i])@ == branch_address(self.master(), 0, i as u32),
            forall|i: int| 0 <= i < change@.len() ==> (#[trigger] change@[i])@ == branch_address(self.master(), 1, i as u32),
        ensures
            r is None ==> !(addrs_view(receive@) + addrs_view(change@)).contains(address@),
            r matches Some(k) ==> exists|c: u32, idx: u32|
                #[trigger] branch_address(self.master(), c, idx) == address@ && k@ == branch_key(self.master(), c, idx),
    {
        match position_of(receive, address) {
            Some(k) => {
                let key = self.branch_key(0, k as u32);
                assert(branch_address(self.master(), 0, k as u32) == address@);
                return Some(key);
            },
            None => {},
        }
        match position_of(change, address) {
            Some(k) => {
                let key = self.branch_key(1, k as u32);
                assert(branch_address(self.master(), 1, k as u32) == address@);
                Some(key)
            },
            None => {
                assert forall|j: int| 0 <= j < (addrs_view(receive@) + addrs_view(change@)).len()
                    implies (addrs_view(receive@) + addrs_view(change@))[j] != address@ by {
                    if j < receive@.len() {
                        assert((addrs_view(receive@) + addrs_view(change@))[j] == addrs_view(receive@)[j]);
                    } else {
                        assert((addrs_view(receive@) + addrs_view(change@))[j] == addrs_view(change@)[j - receive@.len()]);
                    }
                }
                None
            },
        }
    }

    /// Builds a signed payment of `outputs` plus `fee`: checks every output
    /// address, selects UTXOs for the total, pays what is left over to a fresh
    /// change address, then signs each input with the key owning what it spends.
    pub fn send_tx(
        &mut self,
        ledger: &Ledger,
        outputs: Vec<TxOutput>,
        fee: u64,
        message: Option<Vec<u8>>,
        date: Vec<u8>,
    ) -> (r: Result<MempoolEntry, WalletError>)
        ensures
            final(self).master() == old(self).master(),
            (r == Err::<MempoolEntry, WalletError>(WalletError::InvalidOutputAddress))
                <==> !outputs_addresses_valid(outputs_view(outputs@)),
            outputs_addresses_valid(outputs_view(outputs@)) && outputs_total(outputs_view(outputs@)) + fee
                > u64::MAX ==> r == Err::<MempoolEntry, WalletError>(WalletError::AmountOverflow),
            outputs_addresses_valid(outputs_view(outputs@)) && outputs_total(outputs_view(outputs@)) + fee
                <= u64::MAX ==> ((r == Err::<MempoolEntry, WalletError>(WalletError::InsufficientFunds))
                <==> utxos_total(utxos_paying(ledger.utxo_set(), known_addresses(*ledger, old(self).master())))
                < outputs_total(outputs_view(outputs@)) + fee),
            r != Err::<MempoolEntry, WalletError>(WalletError::AddressNotOwned),
            r is Err ==> final(self).next_index() == old(self).next_index(),
            r == Err::<MempoolEntry, WalletError>(WalletError::AmountOverflow) ==> outputs_addresses_valid(
                outputs_view(outputs@),
            ) && outputs_total(outputs_view(outputs@)) + fee > u64::MAX,
            r == Err::<MempoolEntry, WalletError>(WalletError::IndexExhausted) ==> old(self).next_index() == u32::MAX,
            outputs_addresses_valid(outputs_view(outputs@)) && outputs_total(outputs_view(outputs@)) + fee <= u64::MAX
                && utxos_total(utxos_paying(ledger.utxo_set(), known_addresses(*ledger, old(self).master())))
                >= outputs_total(outputs_view(outputs@)) + fee && old(self).next_index() < u32::MAX ==> r is Ok,
            r matches Ok(e) ==> ({
                let us = utxos_paying(ledger.utxo_set(), known_addresses(*ledger, old(self).master()));
                let required = (outputs_total(outputs_view(outputs@)) + fee) as nat;
                let spent = utxos_view(e.resolved_inputs@);
                &&& exists|s: Seq<UtxoV>|
                    #[trigger] desc_sorting_of(us, s) && selection_len(s, required) == Some(spent.len())
                        && spent == s.subrange(0, spent.len() as int)
                &&& e.tx@.outputs == with_change(
                    outputs_view(outputs@),
                    (utxos_total(spent) - required) as nat,
                    branch_address(old(self).master(), 1, old(self).next_index()),
                )
                &&& e.tx@.date == date@
                &&& e.tx@.message == message_view(message)
                &&& e.tx@.inputs.len() == spent.len()
                &&& forall|i: int|
                    0 <= i < e.tx@.inputs.len() ==> crate::transaction::signed_by_some_key(
                        #[trigger] e.tx@.inputs[i],
                        sha256_of(tx_bytes(unsigned_tx(e.tx@))),
                    )
                &&& forall|i: int|
                    0 <= i < spent.len() ==> input_signed_by_owner(
                        old(self).master(),
                        #[trigger] e.tx@.inputs[i],
                        spent[i],
                        tx_bytes(unsigned_tx(e.tx@)),
                    )
            }),
    {
        let mut i: usize = 0;
        while i < outputs.len()
            invariant
                i <= outputs@.len(),
                forall|k: int| 0 <= k < i ==> (#[trigger] decode_spec(outputs_view(outputs@)[k].address)) is Ok,
            decreases outputs@.len() - i,
        {
            assert(outputs_view(outputs@)[i as int] == outputs@[i as int]@);
            if !validate_address(outputs[i].address.as_slice()) {
                assert(!(decode_spec(outputs_view(outputs@)[i as int].address) is Ok));
                return Err(WalletError::InvalidOutputAddress);
            }
            i += 1;
        }
        let total_out = sum_outputs(&outputs);
        if total_out > u64::MAX as u128 {
            return Err(WalletError::AmountOverflow);
        }
        let required: u128 = total_out + fee as u128;
        if required > u64::MAX as u128 {
            return Err(WalletError::AmountOverflow);
        }
        let ghost m = self.master();
        let receive = self.discover(ledger, 0);
        let change_branch = self.discover(ledger, 1);
        let mut all: Vec<Vec<u8>> = Vec::new();
        crate::ledger::extend_bytes_list(&mut all, &receive.known);
        crate::ledger::extend_bytes_list(&mut all, &change_branch.known);
        assert(addrs_view(all@) =~= known_addresses(*ledger, m));
        let unsorted = ledger.get_utxos_for_addresses(&all);
        let utxos = sort_by_value_desc(unsorted);
        let selected = match select_coins(&utxos, required as u64) {
            Some(sel) => sel,
            None => {
                return Err(WalletError::InsufficientFunds);
            },
        };
        let ghost us = utxos_view(utxos@);
        let ghost spent = utxos_view(selected@);
        proof {
            let paying = utxos_paying(ledger.utxo_set(), known_addresses(*ledger, m));
            lemma_paying_address(ledger.utxo_set(), known_addresses(*ledger, m));
            assert(desc_sorting_of(paying, us));
            assert forall|j: int| 0 <= j < spent.len() implies known_addresses(*ledger, m).contains(
                #[trigger] spent[j].output.address,
            ) by {
                assert(spent[j] == us[j]);
                vstd::seq_lib::to_multiset_contains(us, us[j]);
                vstd::seq_lib::to_multiset_contains(paying, us[j]);
                assert(us.contains(us[j]));
                assert(paying.contains(us[j]));
                let k = choose|k: int| 0 <= k < paying.len() && paying[k] == us[j];
                assert(known_addresses(*ledger, m).contains(paying[k].output.address));
            }
        }
        let selected_total = sum_utxos(&selected);
        assert(spent == us.subrange(0, spent.len() as int));
        assert(selected_total == prefix_total(us, spent.len() as int));
        let change_value: u128 = selected_total - required;
        proof {
            let n = spent.len() as int;
            if n > 0 {
                lemma_prefix_total_step(us, n - 1);
                assert(prefix_total(us, n - 1) < required);
                assert(us[n - 1] == selected@[n - 1]@);
            } else {
                assert(us.subrange(0, 0) =~= Seq::<UtxoV>::empty());
            }
        }
        assert(change_value < u64::MAX);
        let mut outputs = outputs;
        let ghost outs0 = outputs_view(outputs@);
        if change_value > 0 {
            if self.current_index == u32::MAX {
                return Err(WalletError::IndexExhausted);
            }
            let change_address = self.get_change_addr();
            outputs.push(TxOutput { value: change_value as u64, address: change_address });
        }
        let ghost outs1 = outputs_view(outputs@);
        assert(outs1 =~= with_change(
            outs0,
            (utxos_total(spent) - required) as nat,
            branch_address(m, 1, old(self).next_index()),
        ));
        let mut placeholders: Vec<TxInput> = Vec::new();
        let mut k: usize = 0;
        while k < selected.len()
            invariant
                k <= selected@.len(),
                placeholders@.len() == k,
                forall|j: int|
                    0 <= j < k ==> (#[trigger] placeholders@[j])@ == crate::transaction::partial_input(
                        placeholders@[j]@,
                    ) && input_key(placeholders@[j]@) == utxo_key(selected@[j]@),
            decreases selected@.len() - k,
        {
            let p = TxInput {
                prev_tx_id: selected[k].tx_id,
                output_index: selected[k].index,
                signature: Vec::new(),
                public_key: Vec::new(),
            };
            assert(p@.signature =~= Seq::<u8>::empty());
            assert(p@.public_key =~= Seq::<u8>::empty());
            placeholders.push(p);
            k += 1;
        }
        let unsigned = Transaction::new(placeholders, outputs, date, message);
        let unsigned_bytes = unsigned.as_bytes();
        let mut signed: Vec<TxInput> = Vec::new();
        let mut k: usize = 0;
        while k < selected.len()
            invariant
                self.master() == m,
                old(self).master() == m,
                outputs_addresses_valid(outs0),
                k <= selected@.len(),
                spent == utxos_view(selected@),
                forall|j: int| 0 <= j < spent.len() ==> known_addresses(*ledger, m).contains(#[trigger] spent[j].output.address),
                spent.len() == unsigned.inputs@.len(),
                forall|j: int|
                    0 <= j < spent.len() ==> (#[trigger] unsigned.inputs@[j])@ == crate::transaction::partial_input(
                        unsigned.inputs@[j]@,
                    ) && input_key(unsigned.inputs@[j]@) == utxo_key(spent[j]),
                addrs_view(receive.known@) == known_branch(*ledger, m, 0),
                addrs_view(change_branch.known@) == known_branch(*ledger, m, 1),
                unsigned_bytes@ == tx_bytes(unsigned@),
                signed@.len() == k,
                forall|j: int|
                    0 <= j < k ==> crate::transaction::partial_input((#[trigger] signed@[j])@)
                        == unsigned.inputs@[j]@ && input_signed_by_owner(m, signed@[j]@, spent[j], unsigned_bytes@),
            decreases selected@.len() - k,
        {
            assert(spent[k as int] == selected@[k as int]@);
            proof {
                lemma_first_unused_bound(*ledger, m, 0, 0);
                lemma_first_unused_bound(*ledger, m, 1, 0);
                assert forall|j: int| 0 <= j < receive.known@.len() implies (#[trigger] receive.known@[j])@
                    == branch_address(m, 0, j as u32) by {
                    assert(addrs_view(receive.known@)[j] == receive.known@[j]@);
                    assert(j < known_branch(*ledger, m, 0).len());
                    assert(known_branch(*ledger, m, 0)[j] == branch_address(m, 0, j as u32));
                }
                assert forall|j: int| 0 <= j < change_branch.known@.len() implies (#[trigger] change_branch.known@[j])@
                    == branch_address(m, 1, j as u32) by {
                    assert(addrs_view(change_branch.known@)[j] == change_branch.known@[j]@);
                    assert(j < known_branch(*ledger, m, 1).len());
                    assert(known_branch(*ledger, m, 1)[j] == branch_address(m, 1, j as u32));
                }
                assert(addrs_view(receive.known@) + addrs_view(change_branch.known@) == known_addresses(*ledger, m));
            }
            let key = match self.owning_key(&receive.known, &change_branch.known, &selected[k].output.address) {
                Some(key) => key,
                None => {
                    assert(known_addresses(*ledger, m).contains(spent[k as int].output.address));
                    assert(false);
                    return Err(WalletError::AddressNotOwned);
                },
            };
            let sig = key.sign(unsigned_bytes.as_slice());
            let pk = key.get_public_key();
            let input = TxInput {
                prev_tx_id: selected[k].tx_id,
                output_index: selected[k].index,
                signature: crate::bytes::copy_bytes(&sig),
                public_key: crate::bytes::copy_bytes(&pk),
            };
            assert(crate::transaction::partial_input(input@) =~= unsigned.inputs@[k as int]@);
            signed.push(input);
            k += 1;
        }
        let tx = Transaction { inputs: signed, outputs: unsigned.outputs, date: unsigned.date, message: unsigned.message };
        assert(unsigned_tx(tx@) =~= unsigned@) by {
            assert(unsigned_tx(tx@).inputs =~= unsigned@.inputs);
        }
        proof {
            assert forall|i: int| 0 <= i < tx@.inputs.len() implies crate::transaction::signed_by_some_key(
                #[trigger] tx@.inputs[i],
                sha256_of(tx_bytes(unsigned_tx(tx@))),
            ) by {
                assert(tx@.inputs[i] == signed@[i]@);
                assert(input_signed_by_owner(m, signed@[i]@, spent[i], unsigned_bytes@));
                let (c, idx) = choose|c: u32, idx: u32|
                    #[trigger] branch_address(m, c, idx) == spent[i].output.address && signed@[i]@.public_key
                        == ed25519_public_of(branch_key(m, c, idx).private_key) && signed@[i]@.signature
                        == ed25519_signature_of(branch_key(m, c, idx).private_key, sha256_of(unsigned_bytes@));
                let sk = branch_key(m, c, idx).private_key;
                assert(sk.len() == 32);
                assert(tx@.inputs[i].signature == ed25519_signature_of(sk, sha256_of(tx_bytes(unsigned_tx(tx@)))));
            }
        }
        Ok(MempoolEntry { tx, resolved_inputs: selected })
    }
}

proof fn lemma_first_unused_bound(l: Ledger, m: KeyV, change: u32, g: nat)
    requires
        g <= MAX_GAPS,
    ensures
        first_unused_gap(l, m, change, g) <= MAX_GAPS,
    decreases MAX_GAPS - g,
{
    if g < MAX_GAPS && gap_used(l, m, change, g) {
        lemma_first_unused_bound(l, m, change, g + 1);
    }
}


impl Wallet {
    /// Whether the next index is the last one a fresh address can use.
    pub fn current_index_is_last(&self) -> (r: bool)
        ensures
            r == (self.next_index() == u32::MAX),
    {
        self.current_index == u32::MAX
    }
}


/// `s` lists the UTXOs of `us`, each as often, by value from largest down.
pub open spec fn desc_sorting_of(us: Seq<UtxoV>, s: Seq<UtxoV>) -> bool {
    &&& s.to_multiset() == us.to_multiset()
    &&& utxos_total(s) == utxos_total(us)
    &&& forall|a: int, b: int| 0 <= a < b < s.len() ==> (#[trigger] s[a]).output.value >= (#[trigger] s[b]).output.value
}

proof fn lemma_total_update(s: Seq<UtxoV>, i: int, x: UtxoV)
    requires
        0 <= i < s.len(),
    ensures
        utxos_total(s.update(i, x)) + s[i].output.value == utxos_total(s) + x.output.value,
    decreases s.len(),
{
    let t = s.update(i, x);
    if i == s.len() - 1 {
        assert(t.drop_last() =~= s.drop_last());
    } else {
        lemma_total_update(s.drop_last(), i, x);
        assert(t.drop_last() =~= s.drop_last().update(i, x));
    }
}

/// The UTXOs by value, largest first (selection sort).
pub fn sort_by_value_desc(v: Vec<UTXO>) -> (r: Vec<UTXO>)
    ensures
        desc_sorting_of(utxos_view(v@), utxos_view(r@)),
{
    let ghost orig = utxos_view(v@);
    let mut v = v;
    let n = v.len();
    let mut i: usize = 0;
    while i < n
        invariant
            n == v@.len(),
            i <= n,
            utxos_view(v@).to_multiset() == orig.to_multiset(),
            utxos_total(utxos_view(v@)) == utxos_total(orig),
            forall|a: int, b: int| 0 <= a < b < i ==> v@[a].output.value >= v@[b].output.value,
            forall|a: int, b: int| 0 <= a < i && i <= b < n ==> v@[a].output.value >= v@[b].output.value,
        decreases n - i,
    {
        let mut m: usize = i;
        let mut j: usize = i + 1;
        while j < n
            invariant
                n == v@.len(),
                i < n,
                i <= m < n,
                i < j <= n,
                forall|b: int| i <= b < j ==> v@[m as int].output.value >= v@[b].output.value,
            decreases n - j,
        {
            if v[j].output.value > v[m].output.value {
                m = j;
            }
            j += 1;
        }
        if m != i {
            let ghost before = utxos_view(v@);
            let a = v[i].duplicate();
            let b = v[m].duplicate();
            v.set(i, b);
            v.set(m, a);
            proof {
                let s1 = before.update(i as int, before[m as int]);
                let s2 = s1.update(m as int, before[i as int]);
                assert(utxos_view(v@) =~= s2);
                vstd::seq_lib::to_multiset_update(before, i as int, before[m as int]);
                vstd::seq_lib::to_multiset_update(s1, m as int, before[i as int]);
                assert(s1[m as int] == before[m as int]);
                broadcast use vstd::multiset::group_multiset_axioms;
                vstd::seq_lib::to_multiset_contains(before, before[i as int]);
                assert(before.contains(before[i as int]));
                assert(before.to_multiset().count(before[i as int]) > 0);
                assert(s2.to_multiset() =~= before.to_multiset());
                lemma_total_update(before, i as int, before[m as int]);
                lemma_total_update(s1, m as int, before[i as int]);
            }
        }
        i += 1;
    }
    proof {
        assert forall|a: int, b: int| 0 <= a < b < utxos_view(v@).len() implies (#[trigger] utxos_view(v@)[a]).output.value
            >= (#[trigger] utxos_view(v@)[b]).output.value by {
            assert(utxos_view(v@)[a] == v@[a]@ && utxos_view(v@)[b] == v@[b]@);
        }
    }
    v
}

} // verus!
