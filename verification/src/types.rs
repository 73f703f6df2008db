//! Plain data model: transactions, outputs, anchors and observations.
//!
//! Identities that a real deployment derives from hashing (transaction ids,
//! block hashes, locking scripts) are carried here as plain integers; the
//! unverified shell around the library computes them and converts.

use vstd::prelude::*;

verus! {

/// Reference to a transaction output: the id of the transaction that created
/// it and the output's index within that transaction.
#[derive(Clone, Copy, Debug, PartialEq, Eq, Structural)]
pub struct OutPoint {
    /// Id of the transaction holding the output.
    pub txid: u64,
    /// Index of the output within that transaction.
    pub vout: usize,
}

/// A transaction output: a value in the smallest unit and the id of the
/// script that locks it.
#[derive(Clone, Copy, Debug, PartialEq, Eq, Structural)]
pub struct TxOut {
    /// Amount held by the output.
    pub value: u64,
    /// Identity of the locking script.
    pub script_pubkey: u64,
}

/// A transaction: a content-derived id, the outpoints its inputs spend, and
/// its ordered outputs.
#[derive(Debug)]
pub struct Transaction {
    /// Content-derived identity of the transaction.
    pub txid: u64,
    /// Outpoints spent by the transaction's inputs, in input order.
    pub inputs: Vec<OutPoint>,
    /// Outputs created by the transaction, in output order.
    pub outputs: Vec<TxOut>,
}

/// Mathematical image of a [`Transaction`].
#[verifier::ext_equal]
pub struct TxRepr {
    /// Content-derived identity of the transaction.
    pub txid: u64,
    /// Outpoints spent by the transaction's inputs, in input order.
    pub inputs: Seq<OutPoint>,
    /// Outputs created by the transaction, in output order.
    pub outputs: Seq<TxOut>,
}

impl View for Transaction {
    type V = TxRepr;

    open spec fn view(&self) -> TxRepr {
        TxRepr { txid: self.txid, inputs: self.inputs@, outputs: self.outputs@ }
    }
}

/// Outpoint a coinbase transaction's single input carries: it spends nothing.
pub open spec fn null_outpoint() -> OutPoint {
    OutPoint { txid: 0, vout: usize::MAX }
}

/// A coinbase transaction: its only input spends the null outpoint.
pub open spec fn spec_is_coinbase(t: TxRepr) -> bool {
    t.inputs.len() == 1 && t.inputs[0] == null_outpoint()
}

impl Transaction {
    /// Whether this is a coinbase transaction.
    pub fn is_coin_base(&self) -> (r: bool)
        ensures
            r == spec_is_coinbase(self@),
    {
        self.inputs.len() == 1 && self.inputs[0].txid == 0 && self.inputs[0].vout == usize::MAX
    }
}

/// A block of the chain, named by height and hash.
#[derive(Clone, Copy, Debug, PartialEq, Eq, Structural)]
pub struct BlockId {
    /// Height of the block.
    pub height: u32,
    /// Hash of the block.
    pub hash: u64,
}

/// How a transaction or output was last witnessed: anchored in a block, or
/// seen in the mempool at a timestamp. Becomes authoritative only after the
/// anchor is checked against a chain oracle.
#[derive(Clone, Copy, Debug, PartialEq, Eq, Structural)]
pub enum ObservedIn {
    /// Claimed to be included in the named block.
    Block(BlockId),
    /// Last seen unconfirmed at this timestamp.
    Mempool(u64),
}

/// Confirmation depth a coinbase output needs before it may be spent.
pub const COINBASE_MATURITY: u32 = 100;

/// A fully resolved output: where it sits, who spends it if anyone, and
/// whether it is a block reward.
#[derive(Clone, Copy, Debug)]
pub struct FullTxOut {
    /// The output's outpoint.
    pub outpoint: OutPoint,
    /// The output itself.
    pub txout: TxOut,
    /// Resolved position of the transaction holding it.
    pub chain_position: ObservedIn,
    /// Resolved position and id of the spending transaction, if one resolves.
    pub spent_by: Option<(ObservedIn, u64)>,
    /// Whether the holding transaction is a coinbase.
    pub is_on_coinbase: bool,
}

/// A coinbase output is mature at `tip` once its confirmation height lies
/// the maturity depth below it; anything not coinbase is always mature, and
/// an unconfirmed coinbase never is.
pub open spec fn spec_is_mature(f: FullTxOut, tip: u32) -> bool {
    if f.is_on_coinbase {
        match f.chain_position {
            ObservedIn::Block(b) => b.height + COINBASE_MATURITY <= tip,
            ObservedIn::Mempool(_) => false,
        }
    } else {
        true
    }
}

/// Spendable at `height`: confirmed at or before it, mature by it if
/// coinbase, and not spent by a transaction confirmed at or before it.
pub open spec fn spec_is_spendable_at(f: FullTxOut, height: u32) -> bool {
    match f.chain_position {
        ObservedIn::Mempool(_) => false,
        ObservedIn::Block(b) => b.height <= height && spec_is_mature(f, height) && (match f
            .spent_by {
            None => true,
            Some((ObservedIn::Block(s), _)) => s.height > height,
            Some((ObservedIn::Mempool(_), _)) => true,
        }),
    }
}

impl FullTxOut {
    /// Whether the output is mature at `tip`.
    pub fn is_mature(&self, tip: u32) -> (r: bool)
        ensures
            r == spec_is_mature(*self, tip),
    {
        if self.is_on_coinbase {
            match self.chain_position {
                ObservedIn::Block(b) => (b.height as u64) + (COINBASE_MATURITY as u64) <= (
                tip as u64),
                ObservedIn::Mempool(_) => false,
            }
        } else {
            true
        }
    }

    /// Whether the output is spendable at `height`.
    pub fn is_spendable_at(&self, height: u32) -> (r: bool)
        ensures
            r == spec_is_spendable_at(*self, height),
    {
        match self.chain_position {
            ObservedIn::Mempool(_) => false,
            ObservedIn::Block(b) => b.height <= height && self.is_mature(height) && (match self
                .spent_by {
                None => true,
                Some((ObservedIn::Block(s), _)) => s.height > height,
                Some((ObservedIn::Mempool(_), _)) => true,
            }),
        }
    }
}

/// Derived balances of the owned, unspent outputs.
#[derive(Clone, Copy, Debug, PartialEq, Eq, Structural)]
pub struct Balance {
    /// Confirmed coinbase value still below the maturity depth.
    pub immature: u64,
    /// Unconfirmed value on scripts the caller trusts.
    pub trusted_pending: u64,
    /// Unconfirmed value on scripts the caller does not trust.
    pub untrusted_pending: u64,
    /// Confirmed, mature value.
    pub confirmed: u64,
}

/// Address families a chain source may use when dialing peers.
#[derive(Clone, Copy, Debug, PartialEq, Eq, PartialOrd, Ord)]
pub enum Domains {
    /// Dial over IPv4 only.
    IPv4,
    /// Dial over IPv6 only.
    IPv6,
    /// Dial over both families.
    Both,
}

} // verus!
