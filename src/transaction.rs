//! Transactions: inputs spending earlier outputs, outputs paying addresses,
//! their canonical byte form, identity and signature validation.

use vstd::prelude::*;
use crate::bytes::{append_be_u64, append_bytes, be_u64, copy_bytes};
use crate::hash::{Hash32, sha256, sha256_of};
use crate::signatures::{ed25519_accepts, ed25519_public_of, ed25519_signature_of, verify_signature};

verus! {

/// Units paid to the miner of a block on top of the fees it collects.
pub const BLOCK_REWARD: u64 = 1_000_000;

/// Reference to an earlier output, with the spender's signature and key.
#[derive(Debug, Clone)]
pub struct TxInput {
    pub prev_tx_id: Hash32,
    pub output_index: usize,
    pub signature: Vec<u8>,
    pub public_key: Vec<u8>,
}

/// A payment of `value` base units to an address (its Base58Check text).
#[derive(Debug, Clone)]
pub struct TxOutput {
    pub value: u64,
    pub address: Vec<u8>,
}

/// An output that has not been spent, keyed by its transaction id and position.
#[derive(Debug, Clone)]
#[allow(non_camel_case_types)]
pub struct UTXO {
    pub tx_id: Hash32,
    pub index: usize,
    pub output: TxOutput,
}

/// A transaction; `date` is its time as `YYYY-MM-DD HH:MM:SS` text.
#[derive(Debug, Clone)]
pub struct Transaction {
    pub inputs: Vec<TxInput>,
    pub outputs: Vec<TxOutput>,
    pub date: Vec<u8>,
    pub message: Option<Vec<u8>>,
}

pub struct InputV {
    pub prev_tx_id: Seq<u8>,
    pub output_index: usize,
    pub signature: Seq<u8>,
    pub public_key: Seq<u8>,
}

pub struct OutputV {
    pub value: u64,
    pub address: Seq<u8>,
}

pub struct UtxoV {
    pub tx_id: Seq<u8>,
    pub index: usize,
    pub output: OutputV,
}

pub struct TxV {
    pub inputs: Seq<InputV>,
    pub outputs: Seq<OutputV>,
    pub date: Seq<u8>,
    pub message: Option<Seq<u8>>,
}

impl View for TxInput {
    type V = InputV;

    open spec fn view(&self) -> InputV {
        InputV {
            prev_tx_id: self.prev_tx_id@,
            output_index: self.output_index,
            signature: self.signature@,
            public_key: self.public_key@,
        }
    }
}

impl View for TxOutput {
    type V = OutputV;

    open spec fn view(&self) -> OutputV {
        OutputV { value: self.value, address: self.address@ }
    }
}

impl View for UTXO {
    type V = UtxoV;

    open spec fn view(&self) -> UtxoV {
        UtxoV { tx_id: self.tx_id@, index: self.index, output: self.output@ }
    }
}

pub open spec fn inputs_view(s: Seq<TxInput>) -> Seq<InputV> {
    s.map_values(|i: TxInput| i@)
}

pub open spec fn outputs_view(s: Seq<TxOutput>) -> Seq<OutputV> {
    s.map_values(|o: TxOutput| o@)
}

pub open spec fn message_view(m: Option<Vec<u8>>) -> Option<Seq<u8>> {
    match m {
        Some(v) => Some(v@),
        None => None,
    }
}

impl View for Transaction {
    type V = TxV;

    open spec fn view(&self) -> TxV {
        TxV {
            inputs: inputs_view(self.inputs@),
            outputs: outputs_view(self.outputs@),
            date: self.date@,
            message: message_view(self.message),
        }
    }
}

/// Canonical bytes of an input.
pub open spec fn input_bytes(i: InputV) -> Seq<u8> {
    i.prev_tx_id + be_u64(i.output_index as u64) + i.signature + i.public_key
}

/// Canonical bytes of an output.
pub open spec fn output_bytes(o: OutputV) -> Seq<u8> {
    be_u64(o.value) + o.address
}

pub open spec fn inputs_bytes(s: Seq<InputV>) -> Seq<u8>
    decreases s.len(),
{
    if s.len() == 0 {
        Seq::empty()
    } else {
        inputs_bytes(s.drop_last()) + input_bytes(s.last())
    }
}

pub open spec fn outputs_bytes(s: Seq<OutputV>) -> Seq<u8>
    decreases s.len(),
{
    if s.len() == 0 {
        Seq::empty()
    } else {
        outputs_bytes(s.drop_last()) + output_bytes(s.last())
    }
}

pub open spec fn message_bytes(m: Option<Seq<u8>>) -> Seq<u8> {
    match m {
        Some(b) => b,
        None => Seq::empty(),
    }
}

/// Canonical bytes of a transaction: inputs, outputs, time text, message.
pub open spec fn tx_bytes(t: TxV) -> Seq<u8> {
    inputs_bytes(t.inputs) + outputs_bytes(t.outputs) + t.date + message_bytes(t.message)
}

/// Identity of a transaction.
pub open spec fn tx_id_of(t: TxV) -> Seq<u8> {
    sha256_of(tx_bytes(t))
}

/// An input with its signature and key blanked.
pub open spec fn partial_input(i: InputV) -> InputV {
    InputV { signature: Seq::empty(), public_key: Seq::empty(), ..i }
}

/// The form that is signed: every input's signature and key blanked.
pub open spec fn unsigned_tx(t: TxV) -> TxV {
    TxV { inputs: t.inputs.map_values(|i: InputV| partial_input(i)), ..t }
}

/// Every input carries a valid signature of the unsigned form under its own key.
pub open spec fn signatures_valid(t: TxV) -> bool {
    forall|k: int|
        0 <= k < t.inputs.len() ==> ed25519_accepts(
            #[trigger] t.inputs[k].public_key,
            sha256_of(tx_bytes(unsigned_tx(t))),
            t.inputs[k].signature,
        )
}

/// The input carries the verifying key and the signature of `digest` of
/// some 32-byte secret key.
pub open spec fn signed_by_some_key(i: InputV, digest: Seq<u8>) -> bool {
    exists|sk: Seq<u8>|
        sk.len() == 32 && i.public_key == ed25519_public_of(sk) && i.signature == #[trigger] ed25519_signature_of(sk, digest)
}

/// The (transaction id, output index) pair that an input spends.
pub open spec fn input_key(i: InputV) -> (Seq<u8>, usize) {
    (i.prev_tx_id, i.output_index)
}

pub open spec fn is_coinbase_tx(t: TxV) -> bool {
    t.inputs.len() == 0
}

/// Sum of the output values.
pub open spec fn outputs_total(s: Seq<OutputV>) -> nat
    decreases s.len(),
{
    if s.len() == 0 {
        0
    } else {
        outputs_total(s.drop_last()) + s.last().value as nat
    }
}

fn copy_message(m: &Option<Vec<u8>>) -> (r: Option<Vec<u8>>)
    ensures
        message_view(r) == message_view(*m),
{
    match m {
        Some(b) => Some(copy_bytes(b.as_slice())),
        None => None,
    }
}

impl TxInput {
    /// The same input with its signature and key blanked.
    pub fn get_partial(&self) -> (r: TxInput)
        ensures
            r@ == partial_input(self@),
    {
        let r = TxInput {
            prev_tx_id: self.prev_tx_id,
            output_index: self.output_index,
            signature: Vec::new(),
            public_key: Vec::new(),
        };
        assert(r@.signature =~= Seq::<u8>::empty());
        assert(r@.public_key =~= Seq::<u8>::empty());
        r
    }

    /// Canonical bytes: previous id, big-endian index, signature, key.
    pub fn as_bytes(&self) -> (r: Vec<u8>)
        ensures
            r@ == input_bytes(self@),
    {
        let mut out: Vec<u8> = Vec::new();
        append_bytes(&mut out, &self.prev_tx_id);
        append_be_u64(&mut out, self.output_index as u64);
        append_bytes(&mut out, self.signature.as_slice());
        append_bytes(&mut out, self.public_key.as_slice());
        assert(out@ =~= input_bytes(self@));
        out
    }

    /// A copy of this input.
    pub fn duplicate(&self) -> (r: TxInput)
        ensures
            r@ == self@,
    {
        TxInput {
            prev_tx_id: self.prev_tx_id,
            output_index: self.output_index,
            signature: copy_bytes(self.signature.as_slice()),
            public_key: copy_bytes(self.public_key.as_slice()),
        }
    }
}

impl TxOutput {
    /// Canonical bytes: big-endian value, then the address text.
    pub fn as_bytes(o: &TxOutput) -> (r: Vec<u8>)
        ensures
            r@ == output_bytes(o@),
    {
        let mut out: Vec<u8> = Vec::new();
        append_be_u64(&mut out, o.value);
        append_bytes(&mut out, o.address.as_slice());
        assert(out@ =~= output_bytes(o@));
        out
    }

    /// A copy of this output.
    pub fn duplicate(&self) -> (r: TxOutput)
        ensures
            r@ == self@,
    {
        TxOutput { value: self.value, address: copy_bytes(self.address.as_slice()) }
    }
}

impl UTXO {
    /// A copy of this unspent output.
    pub fn duplicate(&self) -> (r: UTXO)
        ensures
            r@ == self@,
    {
        UTXO { tx_id: self.tx_id, index: self.index, output: self.output.duplicate() }
    }
}

/// Copies of a list of inputs.
pub fn duplicate_inputs(v: &Vec<TxInput>) -> (r: Vec<TxInput>)
    ensures
        inputs_view(r@) == inputs_view(v@),
{
    let mut out: Vec<TxInput> = Vec::new();
    let mut i: usize = 0;
    while i < v.len()
        invariant
            i <= v@.len(),
            out@.len() == i,
            forall|k: int| 0 <= k < i ==> #[trigger] out@[k]@ == v@[k]@,
        decreases v@.len() - i,
    {
        out.push(v[i].duplicate());
        i += 1;
    }
    assert(inputs_view(out@) =~= inputs_view(v@));
    out
}

/// Copies of a list of outputs.
pub fn duplicate_outputs(v: &Vec<TxOutput>) -> (r: Vec<TxOutput>)
    ensures
        outputs_view(r@) == outputs_view(v@),
{
    let mut out: Vec<TxOutput> = Vec::new();
    let mut i: usize = 0;
    while i < v.len()
        invariant
            i <= v@.len(),
            out@.len() == i,
            forall|k: int| 0 <= k < i ==> #[trigger] out@[k]@ == v@[k]@,
        decreases v@.len() - i,
    {
        out.push(v[i].duplicate());
        i += 1;
    }
    assert(outputs_view(out@) =~= outputs_view(v@));
    out
}

impl Transaction {
    /// A transaction from its parts; `date` is the time text.
    pub fn new(
        inputs: Vec<TxInput>,
        outputs: Vec<TxOutput>,
        date: Vec<u8>,
        message: Option<Vec<u8>>,
    ) -> (r: Transaction)
        ensures
            r.inputs@ == inputs@,
            r.outputs@ == outputs@,
            r.date@ == date@,
            message_view(r.message) == message_view(message),
    {
        Transaction { inputs, outputs, date, message }
    }

    /// The coinbase of a block: no inputs, one output paying the block reward
    /// plus `fees` to `miner_address`.
    pub fn new_coinbase(miner_address: Vec<u8>, fees: u64, date: Vec<u8>) -> (r: Transaction)
        requires
            fees <= u64::MAX - BLOCK_REWARD,
        ensures
            r@.inputs.len() == 0,
            r@.outputs == seq![OutputV { value: (BLOCK_REWARD + fees) as u64, address: miner_address@ }],
            r@.date == date@,
            r@.message == Some(coinbase_message()),
    {
        let mut outputs: Vec<TxOutput> = Vec::new();
        outputs.push(TxOutput { value: BLOCK_REWARD + fees, address: miner_address });
        let r = Transaction { inputs: Vec::new(), outputs, date, message: Some(coinbase_message_bytes()) };
        assert(r@.outputs =~= seq![OutputV { value: (BLOCK_REWARD + fees) as u64, address: miner_address@ }]);
        assert(r@.inputs =~= Seq::<InputV>::empty());
        r
    }

    /// A copy of this transaction.
    pub fn duplicate(&self) -> (r: Transaction)
        ensures
            r@ == self@,
    {
        Transaction {
            inputs: duplicate_inputs(&self.inputs),
            outputs: duplicate_outputs(&self.outputs),
            date: copy_bytes(self.date.as_slice()),
            message: copy_message(&self.message),
        }
    }

    /// A transaction without inputs mints value: it is the coinbase.
    pub fn is_coinbase(&self) -> (r: bool)
        ensures
            r == is_coinbase_tx(self@),
    {
        self.inputs.len() == 0
    }

    /// Canonical bytes.
    pub fn as_bytes(&self) -> (r: Vec<u8>)
        ensures
            r@ == tx_bytes(self@),
    {
        let mut out: Vec<u8> = Vec::new();
        let mut i: usize = 0;
        while i < self.inputs.len()
            invariant
                i <= self.inputs@.len(),
                out@ == inputs_bytes(inputs_view(self.inputs@.subrange(0, i as int))),
            decreases self.inputs@.len() - i,
        {
            let b = self.inputs[i].as_bytes();
            append_bytes(&mut out, b.as_slice());
            i += 1;
            assert(inputs_view(self.inputs@.subrange(0, i as int)).drop_last() =~= inputs_view(
                self.inputs@.subrange(0, i - 1 as int),
            ));
        }
        assert(self.inputs@.subrange(0, self.inputs@.len() as int) =~= self.inputs@);
        let ghost after_inputs = out@;
        let mut j: usize = 0;
        while j < self.outputs.len()
            invariant
                j <= self.outputs@.len(),
                out@ == after_inputs + outputs_bytes(outputs_view(self.outputs@.subrange(0, j as int))),
            decreases self.outputs@.len() - j,
        {
            let b = TxOutput::as_bytes(&self.outputs[j]);
            append_bytes(&mut out, b.as_slice());
            j += 1;
            assert(outputs_view(self.outputs@.subrange(0, j as int)).drop_last() =~= outputs_view(
                self.outputs@.subrange(0, j - 1 as int),
            ));
            assert(out@ =~= after_inputs + outputs_bytes(outputs_view(self.outputs@.subrange(0, j as int))));
        }
        assert(self.outputs@.subrange(0, self.outputs@.len() as int) =~= self.outputs@);
        append_bytes(&mut out, self.date.as_slice());
        match &self.message {
            Some(m) => append_bytes(&mut out, m.as_slice()),
            None => {},
        }
        assert(out@ =~= tx_bytes(self@));
        out
    }

    /// Identity: SHA-256 of the canonical bytes.
    pub fn id(&self) -> (r: Hash32)
        ensures
            r@ == tx_id_of(self@),
    {
        let b = self.as_bytes();
        sha256(b.as_slice())
    }

    /// The form that is signed: every input's signature and key blanked.
    pub fn unsigned(&self) -> (r: Transaction)
        ensures
            r@ == unsigned_tx(self@),
    {
        let mut inputs: Vec<TxInput> = Vec::new();
        let mut i: usize = 0;
        while i < self.inputs.len()
            invariant
                i <= self.inputs@.len(),
                inputs@.len() == i,
                forall|k: int| 0 <= k < i ==> #[trigger] inputs@[k]@ == partial_input(self.inputs@[k]@),
            decreases self.inputs@.len() - i,
        {
            inputs.push(self.inputs[i].get_partial());
            i += 1;
        }
        let r = Transaction {
            inputs,
            outputs: duplicate_outputs(&self.outputs),
            date: copy_bytes(self.date.as_slice()),
            message: copy_message(&self.message),
        };
        assert(r@.inputs =~= unsigned_tx(self@).inputs);
        r
    }

    /// Every input's signature verifies, under the key it carries, against
    /// the unsigned form.
    pub fn validate(&self) -> (r: bool)
        ensures
            r == signatures_valid(self@),
            (forall|k: int|
                0 <= k < self@.inputs.len() ==> #[trigger] signed_by_some_key(self@.inputs[k], sha256_of(tx_bytes(unsigned_tx(self@)))))
                ==> r,
    {
        let partial = self.unsigned();
        let partial_bytes = partial.as_bytes();
        let mut i: usize = 0;
        while i < self.inputs.len()
            invariant
                i <= self.inputs@.len(),
                partial_bytes@ == tx_bytes(unsigned_tx(self@)),
                forall|k: int|
                    0 <= k < i ==> ed25519_accepts(
                        #[trigger] self@.inputs[k].public_key,
                        sha256_of(tx_bytes(unsigned_tx(self@))),
                        self@.inputs[k].signature,
                    ),
            decreases self.inputs@.len() - i,
        {
            let input = &self.inputs[i];
            assert(self@.inputs[i as int] == input@);
            if !verify_signature(input.public_key.as_slice(), partial_bytes.as_slice(), input.signature.as_slice()) {
                proof {
                    if signed_by_some_key(self@.inputs[i as int], sha256_of(tx_bytes(unsigned_tx(self@)))) {
                        let sk = choose|sk: Seq<u8>| sk.len() == 32 && self@.inputs[i as int].public_key == ed25519_public_of(sk)
                            && self@.inputs[i as int].signature == #[trigger] ed25519_signature_of(sk, sha256_of(tx_bytes(unsigned_tx(self@))));
                        assert(ed25519_signature_of(sk, sha256_of(partial_bytes@)) == input.signature@);
                    }
                }
                assert(!ed25519_accepts(
                    self@.inputs[i as int].public_key,
                    sha256_of(tx_bytes(unsigned_tx(self@))),
                    self@.inputs[i as int].signature,
                ));
                return false;
            }
            i += 1;
        }
        true
    }
}

/// The coinbase's message text.
pub open spec fn coinbase_message() -> Seq<u8> {
    seq![67u8, 111, 105, 110, 98, 97, 115, 101, 32, 97, 110, 100, 32, 102, 101, 101, 115]
}

fn coinbase_message_bytes() -> (r: Vec<u8>)
    ensures
        r@ == coinbase_message(),
{
    let r: Vec<u8> = vec![67u8, 111, 105, 110, 98, 97, 115, 101, 32, 97, 110, 100, 32, 102, 101, 101, 115];
    assert(r@ =~= coinbase_message());
    r
}

} // verus!
