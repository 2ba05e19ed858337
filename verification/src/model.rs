//! The normalised transaction model: outputs created, outputs spent.
use vstd::prelude::*;

verus! {

/// Names one output: the transaction that created it and the output's position there.
#[derive(Debug)]
pub struct IndexedTxid {
    pub index: usize,
    pub tx_id: String,
}

/// The mathematical value of an [`IndexedTxid`].
pub struct IndexedTxidView {
    pub index: usize,
    pub tx_id: Seq<char>,
}

impl View for IndexedTxid {
    type V = IndexedTxidView;

    open spec fn view(&self) -> IndexedTxidView {
        IndexedTxidView { index: self.index, tx_id: self.tx_id@ }
    }
}

/// An unspent output: its position in the creating transaction, the address
/// it pays and its value in the smallest currency unit.
#[derive(Debug)]
pub struct Utxo {
    pub index: usize,
    pub address: String,
    pub value: u64,
}

/// The mathematical value of a [`Utxo`].
pub struct UtxoView {
    pub index: usize,
    pub address: Seq<char>,
    pub value: u64,
}

impl View for Utxo {
    type V = UtxoView;

    open spec fn view(&self) -> UtxoView {
        UtxoView { index: self.index, address: self.address@, value: self.value }
    }
}

/// One transaction of a block, reduced to what the balance index needs.
#[derive(Debug)]
pub struct SumTx {
    pub is_coinbase: bool,
    pub txid: String,
    pub ins: Vec<IndexedTxid>,
    pub outs: Vec<Utxo>,
}

/// The mathematical value of a [`SumTx`].
pub struct SumTxView {
    pub is_coinbase: bool,
    pub txid: Seq<char>,
    pub ins: Seq<IndexedTxidView>,
    pub outs: Seq<UtxoView>,
}

/// The values of a sequence of output references.
pub open spec fn key_views(v: Seq<IndexedTxid>) -> Seq<IndexedTxidView> {
    Seq::new(v.len(), |i: int| v[i]@)
}

/// The values of a sequence of outputs.
pub open spec fn utxo_views(v: Seq<Utxo>) -> Seq<UtxoView> {
    Seq::new(v.len(), |i: int| v[i]@)
}

impl View for SumTx {
    type V = SumTxView;

    open spec fn view(&self) -> SumTxView {
        SumTxView {
            is_coinbase: self.is_coinbase,
            txid: self.txid@,
            ins: key_views(self.ins@),
            outs: utxo_views(self.outs@),
        }
    }
}

/// The values of a block's transactions.
pub open spec fn tx_views(v: Seq<SumTx>) -> Seq<SumTxView> {
    Seq::new(v.len(), |i: int| v[i]@)
}

/// The text of an optional string.
pub open spec fn text_of(o: Option<String>) -> Option<Seq<char>> {
    match o {
        Some(s) => Some(s@),
        None => None,
    }
}

/// The bytes of an optional byte string.
pub open spec fn bytes_of(o: Option<Vec<u8>>) -> Option<Seq<u8>> {
    match o {
        Some(b) => Some(b@),
        None => None,
    }
}

impl IndexedTxid {
    /// A copy with the same value.
    pub fn duplicate(&self) -> (r: IndexedTxid)
        ensures
            r@ == self@,
    {
        IndexedTxid { index: self.index, tx_id: self.tx_id.clone() }
    }

    /// Whether two references name the same output.
    pub fn same(&self, other: &IndexedTxid) -> (r: bool)
        ensures
            r == (self@ == other@),
    {
        self.index == other.index && self.tx_id == other.tx_id
    }
}

impl Utxo {
    /// A copy with the same value.
    pub fn duplicate(&self) -> (r: Utxo)
        ensures
            r@ == self@,
    {
        Utxo { index: self.index, address: self.address.clone(), value: self.value }
    }

    /// The reference under which this output of transaction `tx_id` is spent.
    pub fn key(&self, tx_id: &String) -> (r: IndexedTxid)
        ensures
            r@ == (IndexedTxidView { index: self.index, tx_id: tx_id@ }),
    {
        IndexedTxid { index: self.index, tx_id: tx_id.clone() }
    }
}

} // verus!
