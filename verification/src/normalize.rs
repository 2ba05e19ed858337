//! From a block's transactions as they come off the wire to the model that
//! the ledger applies: inputs as references to the outputs they spend,
//! outputs as address and value.
use vstd::prelude::*;
use crate::model::{IndexedTxid, IndexedTxidView, SumTx, SumTxView, Utxo, UtxoView, bytes_of, text_of, tx_views, utxo_views};

verus! {

/// The address that `bitcoin::Address::from_script` finds in an output
/// script on the main network, as text; `None` where it finds none.
pub uninterp spec fn address_of_script(script: Seq<u8>) -> Option<Seq<char>>;

/// The serialised public key that `bitcoin::Script::p2pk_public_key` finds
/// in a pay-to-public-key script; `None` for any other script or an invalid key.
pub uninterp spec fn p2pk_key_of_script(script: Seq<u8>) -> Option<Seq<u8>>;

/// The pay-to-public-key-hash address, on the main network, that
/// `bitcoin::Address::p2pkh` gives for a serialised public key, as text;
/// `None` where the bytes are no public key.
pub uninterp spec fn p2pkh_address_of_key(key: Seq<u8>) -> Option<Seq<char>>;

/// Calls `bitcoin::Address::from_script` on the script with these bytes,
/// for the main network, and renders the address found. The result is
/// taken on trust to be a function of the script's bytes alone.
#[verifier::external_body]
fn script_address(script: &Vec<u8>) -> (r: Option<String>)
    ensures
        text_of(r) == address_of_script(script@),
{
    let found = bitcoin::Address::from_script(
        bitcoin::Script::from_bytes(script),
        bitcoin::Network::Bitcoin,
    );
    match found {
        Ok(address) => Some(address.to_string()),
        Err(_) => None,
    }
}

/// Calls `bitcoin::Script::p2pk_public_key` on the script with these bytes
/// and serialises the key found. The result is taken on trust to be a
/// function of the script's bytes alone.
#[verifier::external_body]
fn p2pk_key(script: &Vec<u8>) -> (r: Option<Vec<u8>>)
    ensures
        bytes_of(r) == p2pk_key_of_script(script@),
{
    match bitcoin::Script::from_bytes(script).p2pk_public_key() {
        Some(key) => Some(key.to_bytes()),
        None => None,
    }
}

/// Calls `bitcoin::Address::p2pkh` for the main network on the public key
/// that `bitcoin::PublicKey::from_slice` reads from these bytes, and renders
/// the address; `None` where it reads no key. The result is taken on trust
/// to be a function of the key's bytes alone.
#[verifier::external_body]
fn p2pkh_address(key: &Vec<u8>) -> (r: Option<String>)
    ensures
        text_of(r) == p2pkh_address_of_key(key@),
{
    match bitcoin::PublicKey::from_slice(key) {
        Ok(k) => Some(bitcoin::Address::p2pkh(k, bitcoin::Network::Bitcoin).to_string()),
        Err(_) => None,
    }
}

/// The address that an output script pays: the one the script encodes, or
/// else the hash address of the key of a pay-to-public-key script.
pub open spec fn address_for(script: Seq<u8>) -> Option<Seq<char>> {
    match address_of_script(script) {
        Some(a) => Some(a),
        None => match p2pk_key_of_script(script) {
            Some(key) => p2pkh_address_of_key(key),
            None => None,
        },
    }
}

/// Decodes the address that an output script pays, if it has one.
pub fn decode_address(script: &Vec<u8>) -> (r: Option<String>)
    ensures
        text_of(r) == address_for(script@),
{
    match script_address(script) {
        Some(a) => Some(a),
        None => match p2pk_key(script) {
            Some(key) => p2pkh_address(&key),
            None => None,
        },
    }
}

/// The output at position `index` with the address decoded from its
/// script: an output without an address is left out of the index.
pub fn output_utxo(index: usize, value: u64, address: Option<String>) -> (r: Option<Utxo>)
    ensures
        match address {
            Some(a) => r is Some && r->Some_0@ == (UtxoView { index, address: a@, value }),
            None => r is None,
        },
{
    match address {
        Some(a) => Some(Utxo { index, address: a, value }),
        None => None,
    }
}

/// An input as it stands in a transaction: the spent output's transaction and position.
#[derive(Debug)]
pub struct RawInput {
    pub txid: String,
    pub vout: u32,
}

/// An output as it stands in a transaction: the script it pays to and its value.
#[derive(Debug)]
pub struct RawOutput {
    pub script: Vec<u8>,
    pub value: u64,
}

/// A transaction as it stands in a block.
#[derive(Debug)]
pub struct RawTx {
    pub is_coinbase: bool,
    pub txid: String,
    pub inputs: Vec<RawInput>,
    pub outputs: Vec<RawOutput>,
}

/// The mathematical value of a [`RawTx`].
pub struct RawTxView {
    pub is_coinbase: bool,
    pub txid: Seq<char>,
    pub inputs: Seq<(Seq<char>, u32)>,
    pub outputs: Seq<(Seq<u8>, u64)>,
}

impl View for RawTx {
    type V = RawTxView;

    open spec fn view(&self) -> RawTxView {
        RawTxView {
            is_coinbase: self.is_coinbase,
            txid: self.txid@,
            inputs: Seq::new(self.inputs@.len(), |i: int| (self.inputs@[i].txid@, self.inputs@[i].vout)),
            outputs: Seq::new(
                self.outputs@.len(),
                |i: int| (self.outputs@[i].script@, self.outputs@[i].value),
            ),
        }
    }
}

/// The references that a transaction's inputs make, one for each, in order.
pub open spec fn normalized_inputs(inputs: Seq<(Seq<char>, u32)>) -> Seq<IndexedTxidView> {
    Seq::new(
        inputs.len(),
        |i: int| IndexedTxidView { index: inputs[i].1 as usize, tx_id: inputs[i].0 },
    )
}

/// The outputs that have an address, in order, each with its position among all outputs.
pub open spec fn normalized_outputs(outputs: Seq<(Seq<u8>, u64)>) -> Seq<UtxoView>
    decreases outputs.len(),
{
    if outputs.len() == 0 {
        Seq::empty()
    } else {
        let earlier = normalized_outputs(outputs.drop_last());
        match address_for(outputs.last().0) {
            Some(a) => earlier.push(
                UtxoView {
                    index: (outputs.len() - 1) as usize,
                    address: a,
                    value: outputs.last().1,
                },
            ),
            None => earlier,
        }
    }
}

/// The normalised form of a transaction.
pub open spec fn normalized(raw: RawTxView) -> SumTxView {
    SumTxView {
        is_coinbase: raw.is_coinbase,
        txid: raw.txid,
        ins: normalized_inputs(raw.inputs),
        outs: normalized_outputs(raw.outputs),
    }
}

/// The normalised forms of a block's transactions, in order.
pub open spec fn normalized_block(txs: Seq<RawTx>) -> Seq<SumTxView> {
    Seq::new(txs.len(), |i: int| normalized(txs[i]@))
}

impl SumTx {
    /// Normalises one transaction: every input becomes a reference to the
    /// output it spends, every output with a decodable address a [`Utxo`];
    /// the others are left out.
    pub fn from_raw(raw: &RawTx) -> (r: SumTx)
        ensures
            r@ == normalized(raw@),
    {
        let mut ins: Vec<IndexedTxid> = Vec::new();
        let mut i: usize = 0;
        while i < raw.inputs.len()
            invariant
                i <= raw.inputs.len(),
                ins@.len() == i,
                forall|j: int| 0 <= j < i ==> (#[trigger] ins@[j])@ == normalized_inputs(raw@.inputs)[j],
            decreases raw.inputs.len() - i,
        {
            ins.push(IndexedTxid { index: raw.inputs[i].vout as usize, tx_id: raw.inputs[i].txid.clone() });
            i += 1;
        }
        let mut outs: Vec<Utxo> = Vec::new();
        let mut k: usize = 0;
        assert(raw@.outputs.subrange(0, 0) =~= Seq::<(Seq<u8>, u64)>::empty());
        assert(utxo_views(outs@) =~= Seq::<UtxoView>::empty());
        while k < raw.outputs.len()
            invariant
                k <= raw.outputs.len(),
                utxo_views(outs@) == normalized_outputs(raw@.outputs.subrange(0, k as int)),
            decreases raw.outputs.len() - k,
        {
            let ghost before = utxo_views(outs@);
            let address = decode_address(&raw.outputs[k].script);
            proof {
                let upto = raw@.outputs.subrange(0, k + 1);
                assert(upto.drop_last() =~= raw@.outputs.subrange(0, k as int));
                assert(upto.last() == raw@.outputs[k as int]);
            }
            match output_utxo(k, raw.outputs[k].value, address) {
                Some(u) => {
                    outs.push(u);
                    assert(utxo_views(outs@) =~= before.push(u@));
                },
                None => {},
            }
            k += 1;
        }
        assert(raw@.outputs.subrange(0, k as int) =~= raw@.outputs);
        let r = SumTx { is_coinbase: raw.is_coinbase, txid: raw.txid.clone(), ins, outs };
        assert(r@.ins =~= normalized_inputs(raw@.inputs));
        r
    }
}

/// Normalises the transactions of one block, in order.
pub fn process_txs(txs: &Vec<RawTx>) -> (r: Vec<SumTx>)
    ensures
        tx_views(r@) == normalized_block(txs@),
{
    let mut r: Vec<SumTx> = Vec::new();
    let mut i: usize = 0;
    while i < txs.len()
        invariant
            i <= txs.len(),
            r@.len() == i,
            forall|j: int| 0 <= j < i ==> (#[trigger] r@[j])@ == normalized(txs@[j]@),
        decreases txs.len() - i,
    {
        r.push(SumTx::from_raw(&txs[i]));
        i += 1;
    }
    assert(tx_views(r@) =~= normalized_block(txs@));
    r
}

} // verus!
