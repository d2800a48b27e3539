//! Blocks and transactions as plain data: what the chain hands over, field for field.

use crate::entry::{keys_of, outpoint_bytes, OutPoint, OutPointValue, OutPointView};
use bitcoin::hashes::Hash as _;
use vstd::prelude::*;

verus! {

/// One input of a transaction.
#[derive(Clone, Debug)]
pub struct TxIn {
    /// The output that the input spends.
    pub previous_output: OutPoint,
    pub script_sig: Vec<u8>,
    pub sequence: u32,
}

/// One output of a transaction.
#[derive(Clone, Debug)]
pub struct TxOut {
    /// Units held by the output.
    pub value: u64,
    pub script_pubkey: Vec<u8>,
}

/// A transaction, without its witnesses.
#[derive(Clone, Debug)]
pub struct Transaction {
    pub version: i32,
    pub lock_time: u32,
    pub input: Vec<TxIn>,
    pub output: Vec<TxOut>,
}

/// A block's transactions, the coinbase first.
#[derive(Clone, Debug)]
pub struct Block {
    pub txdata: Vec<Transaction>,
}

/// What a [`TxIn`] stands for.
pub struct TxInView {
    pub previous_output: OutPointView,
    pub script_sig: Seq<u8>,
    pub sequence: u32,
}

/// What a [`TxOut`] stands for.
pub struct TxOutView {
    pub value: u64,
    pub script_pubkey: Seq<u8>,
}

/// What a [`Transaction`] stands for.
pub struct TransactionView {
    pub version: i32,
    pub lock_time: u32,
    pub input: Seq<TxInView>,
    pub output: Seq<TxOutView>,
}

impl View for TxIn {
    type V = TxInView;

    open spec fn view(&self) -> TxInView {
        TxInView {
            previous_output: self.previous_output@,
            script_sig: self.script_sig@,
            sequence: self.sequence,
        }
    }
}

impl View for TxOut {
    type V = TxOutView;

    open spec fn view(&self) -> TxOutView {
        TxOutView { value: self.value, script_pubkey: self.script_pubkey@ }
    }
}

impl View for Transaction {
    type V = TransactionView;

    open spec fn view(&self) -> TransactionView {
        TransactionView {
            version: self.version,
            lock_time: self.lock_time,
            input: Seq::new(self.input@.len(), |at: int| self.input@[at]@),
            output: Seq::new(self.output@.len(), |at: int| self.output@[at]@),
        }
    }
}

/// The 32 bytes that identify a transaction on the chain: the double SHA-256 of its wire form
/// without witnesses.
pub uninterp spec fn txid_of(transaction: TransactionView) -> Seq<u8>;

/// Calls `bitcoin::Transaction::txid` on the same transaction, built field for field, and
/// hands back the hash's bytes in wire order. The identifier depends on nothing but the version,
/// the inputs, the outputs and the lock time, so it is named by them; the witnesses, which it
/// leaves out, are left empty.
#[verifier::external_body]
fn hash_transaction(tx: &Transaction) -> (id: [u8; 32])
    ensures
        id@ == txid_of(tx@),
{
    let input = tx.input.iter().map(|i| bitcoin::TxIn {
        previous_output: bitcoin::OutPoint::new(bitcoin::Txid::from_byte_array(i.previous_output.txid), i.previous_output.vout),
        script_sig: i.script_sig.clone().into(),
        sequence: bitcoin::Sequence(i.sequence),
        witness: Default::default(),
    }).collect();
    let output = tx.output.iter().map(|o| bitcoin::TxOut { value: o.value, script_pubkey: o.script_pubkey.clone().into() }).collect();
    let lock_time = bitcoin::absolute::LockTime::from_consensus(tx.lock_time);
    bitcoin::Transaction { version: tx.version, lock_time, input, output }.txid().to_byte_array()
}

impl Transaction {
    /// The transaction's identifier.
    pub fn txid(&self) -> (id: [u8; 32])
        ensures
            id@ == txid_of(self@),
    {
        hash_transaction(self)
    }

    /// Every output's index fits in the 32 bits that an output reference has for it.
    pub open spec fn indexable(&self) -> bool {
        self.output@.len() <= u32::MAX
    }
}

/// The stored references of the outputs that the inputs of a transaction spend, in order.
pub open spec fn spent_by(transaction: Transaction) -> Seq<Seq<u8>> {
    Seq::new(
        transaction.input@.len(),
        |at: int| outpoint_bytes(transaction.input@[at].previous_output@),
    )
}

/// The stored references of the outputs that the transactions from `from` on spend, in order.
pub open spec fn lookups(txdata: Seq<Transaction>, from: int) -> Seq<Seq<u8>>
    decreases txdata.len() - from,
{
    if from < 0 || from >= txdata.len() {
        Seq::empty()
    } else {
        spent_by(txdata[from]) + lookups(txdata, from + 1)
    }
}

impl Block {
    /// The stored references of the outputs that the block spends: those of the inputs of all
    /// transactions but the coinbase, in order. They are what indexing the block may ask the
    /// store for.
    pub fn spent_outpoints(&self) -> (outpoints: Vec<OutPointValue>)
        ensures
            keys_of(outpoints@) == lookups(self.txdata@, 1),
    {
        let mut outpoints: Vec<OutPointValue> = Vec::new();
        let mut tx: usize = 1;
        assert(keys_of(outpoints@) + lookups(self.txdata@, 1) =~= lookups(self.txdata@, 1));
        while tx < self.txdata.len()
            invariant
                1 <= tx,
                keys_of(outpoints@) + lookups(self.txdata@, tx as int) == lookups(self.txdata@, 1),
            decreases self.txdata.len() - tx,
        {
            let ghost before = keys_of(outpoints@);
            let ghost here = spent_by(self.txdata@[tx as int]);
            let inputs = &self.txdata[tx].input;
            let mut at: usize = 0;
            assert(keys_of(outpoints@) =~= before + here.take(0));
            while at < inputs.len()
                invariant
                    at <= inputs.len(),
                    tx < self.txdata@.len(),
                    inputs@ == self.txdata@[tx as int].input@,
                    here == spent_by(self.txdata@[tx as int]),
                    keys_of(outpoints@) == before + here.take(at as int),
                decreases inputs.len() - at,
            {
                let outpoint = inputs[at].previous_output.store();
                let ghost so_far = outpoints@;
                outpoints.push(outpoint);
                proof {
                    assert(outpoint@ == here[at as int]);
                    assert(keys_of(outpoints@) =~= keys_of(so_far).push(outpoint@));
                    assert(here.take(at as int + 1) =~= here.take(at as int).push(here[at as int]));
                    assert((before + here.take(at as int)).push(here[at as int]) =~= before
                        + here.take(at as int + 1));
                }
                at = at + 1;
            }
            assert(here.take(at as int) =~= here);
            assert((before + here) + lookups(self.txdata@, tx as int + 1) =~= before + (here
                + lookups(self.txdata@, tx as int + 1)));
            tx = tx + 1;
        }
        assert(keys_of(outpoints@) + Seq::<Seq<u8>>::empty() =~= keys_of(outpoints@));
        outpoints
    }

    /// The block has its coinbase, and every output of every transaction has an index.
    pub open spec fn indexable(&self) -> bool {
        &&& self.txdata@.len() > 0
        &&& forall|at: int| 0 <= at < self.txdata@.len() ==> (#[trigger] self.txdata@[at]).indexable()
    }

    /// Whether the block can be indexed: it has its coinbase, and every output of every
    /// transaction has an index.
    pub fn is_indexable(&self) -> (indexable: bool)
        ensures
            indexable == self.indexable(),
    {
        if self.txdata.len() == 0 {
            return false;
        }
        let mut at: usize = 0;
        while at < self.txdata.len()
            invariant
                at <= self.txdata.len(),
                forall|k: int| 0 <= k < at ==> (#[trigger] self.txdata@[k]).indexable(),
            decreases self.txdata.len() - at,
        {
            if self.txdata[at].output.len() > 0xffff_ffff {
                return false;
            }
            at = at + 1;
        }
        true
    }
}

} // verus!
