//! Immutable transfer records.

use vstd::prelude::*;

use crate::identity::Identity;

verus! {

/// One entry of a holder's history: a mint (`from` absent) or a transfer.
#[derive(Clone, Debug, PartialEq, Eq)]
pub struct Transaction {
    pub from: Option<Identity>,
    pub to: Identity,
    pub amount: u64,
    pub timestamp: u64,
}

/// What a transaction records, with identities as their bytes.
pub ghost struct TxRecord {
    pub from: Option<Seq<u8>>,
    pub to: Seq<u8>,
    pub amount: nat,
    pub timestamp: nat,
}

/// The identity's bytes, if there is one.
pub open spec fn opt_view(o: Option<Identity>) -> Option<Seq<u8>> {
    match o {
        Some(id) => Some(id@),
        None => None,
    }
}

impl View for Transaction {
    type V = TxRecord;

    open spec fn view(&self) -> TxRecord {
        TxRecord {
            from: opt_view(self.from),
            to: self.to@,
            amount: self.amount as nat,
            timestamp: self.timestamp as nat,
        }
    }
}

/// The records of a sequence of transactions, in order.
pub open spec fn records(txs: Seq<Transaction>) -> Seq<TxRecord> {
    txs.map_values(|t: Transaction| t@)
}

impl Transaction {
    /// A copy of this transaction that shares nothing with it.
    pub fn duplicate(&self) -> (r: Transaction)
        ensures
            r@ == self@,
    {
        let from = match &self.from {
            Some(id) => Some(id.duplicate()),
            None => None,
        };
        Transaction { from, to: self.to.duplicate(), amount: self.amount, timestamp: self.timestamp }
    }
}

/// A copy of a history, entry by entry.
pub fn copy_history(txs: &Vec<Transaction>) -> (r: Vec<Transaction>)
    ensures
        records(r@) == records(txs@),
{
    let mut out: Vec<Transaction> = Vec::new();
    let mut i: usize = 0;
    while i < txs.len()
        invariant
            i <= txs@.len(),
            out@.len() == i,
            forall|k: int| 0 <= k < i ==> #[trigger] out@[k]@ == txs@[k]@,
        decreases txs@.len() - i,
    {
        let t = txs[i].duplicate();
        out.push(t);
        i = i + 1;
    }
    assert(records(out@) =~= records(txs@));
    out
}

} // verus!
