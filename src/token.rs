//! A token: its metadata, its balance table and its per-holder history.
//!
//! The balance table and the histories share one list of accounts, one per
//! holder. A holder without an account has a balance of zero and an empty
//! history.

use vstd::prelude::*;

use crate::identity::Identity;
use crate::transaction::{records, Transaction, TxRecord};

verus! {

/// One holder's entry in a token: the balance and the history, oldest first.
pub struct Account {
    pub holder: Identity,
    pub balance: u64,
    pub history: Vec<Transaction>,
}

/// A fungible token and everything the ledger knows of it.
pub struct Token {
    pub name: String,
    pub symbol: String,
    pub image_url: String,
    pub total_supply: u64,
    pub owner: Identity,
    pub accounts: Vec<Account>,
}

/// The balance of `who` in `accts`: zero where it has no account.
pub open spec fn balance_in(accts: Seq<Account>, who: Seq<u8>) -> nat
    decreases accts.len(),
{
    if accts.len() == 0 {
        0
    } else if accts.last().holder@ == who {
        accts.last().balance as nat
    } else {
        balance_in(accts.drop_last(), who)
    }
}

/// The history of `who` in `accts`: empty where it has no account.
pub open spec fn history_in(accts: Seq<Account>, who: Seq<u8>) -> Seq<TxRecord>
    decreases accts.len(),
{
    if accts.len() == 0 {
        Seq::empty()
    } else if accts.last().holder@ == who {
        records(accts.last().history@)
    } else {
        history_in(accts.drop_last(), who)
    }
}

/// The sum of all balances in `accts`.
pub open spec fn sum_of_balances(accts: Seq<Account>) -> nat
    decreases accts.len(),
{
    if accts.len() == 0 {
        0
    } else {
        sum_of_balances(accts.drop_last()) + accts.last().balance as nat
    }
}

/// No two accounts belong to the same holder.
pub open spec fn holders_unique(accts: Seq<Account>) -> bool {
    forall|i: int, j: int|
        0 <= i < j < accts.len() ==> #[trigger] accts[i].holder@ != #[trigger] accts[j].holder@
}

/// How a transfer of `tx` from `from` to `to` extends the history `h` of `who`:
/// one copy for each side of the transfer that `who` is on.
pub open spec fn history_after_transfer(
    h: Seq<TxRecord>,
    who: Seq<u8>,
    from: Seq<u8>,
    to: Seq<u8>,
    tx: TxRecord,
) -> Seq<TxRecord> {
    if who == from && who == to {
        h.push(tx).push(tx)
    } else if who == from || who == to {
        h.push(tx)
    } else {
        h
    }
}

/// How a transfer of `amount` from `from` to `to` changes the balance `b` of `who`.
pub open spec fn balance_after_transfer(
    b: nat,
    who: Seq<u8>,
    from: Seq<u8>,
    to: Seq<u8>,
    amount: nat,
) -> int {
    b - (if who == from { amount } else { 0 }) + (if who == to { amount } else { 0 })
}

/// The record that a transfer writes into both parties' histories.
pub open spec fn transfer_record(from: Seq<u8>, to: Seq<u8>, amount: nat, timestamp: nat) -> TxRecord {
    TxRecord { from: Some(from), to, amount, timestamp }
}

/// The record that minting writes into the owner's history.
pub open spec fn mint_record(owner: Seq<u8>, amount: nat, timestamp: nat) -> TxRecord {
    TxRecord { from: None, to: owner, amount, timestamp }
}

proof fn lemma_account_at(accts: Seq<Account>, i: int)
    requires
        holders_unique(accts),
        0 <= i < accts.len(),
    ensures
        balance_in(accts, accts[i].holder@) == accts[i].balance,
        history_in(accts, accts[i].holder@) == records(accts[i].history@),
    decreases accts.len(),
{
    if i < accts.len() - 1 {
        assert(accts.last().holder@ != accts[i].holder@);
        lemma_account_at(accts.drop_last(), i);
    }
}

proof fn lemma_no_account(accts: Seq<Account>, who: Seq<u8>)
    requires
        forall|i: int| 0 <= i < accts.len() ==> #[trigger] accts[i].holder@ != who,
    ensures
        balance_in(accts, who) == 0,
        history_in(accts, who) == Seq::<TxRecord>::empty(),
    decreases accts.len(),
{
    if accts.len() > 0 {
        assert(accts.last().holder@ != who);
        lemma_no_account(accts.drop_last(), who);
    }
}

proof fn lemma_balance_le_sum(accts: Seq<Account>, i: int)
    requires
        0 <= i < accts.len(),
    ensures
        accts[i].balance <= sum_of_balances(accts),
    decreases accts.len(),
{
    if i < accts.len() - 1 {
        lemma_balance_le_sum(accts.drop_last(), i);
    }
}

proof fn lemma_push(accts: Seq<Account>, a: Account)
    ensures
        sum_of_balances(accts.push(a)) == sum_of_balances(accts) + a.balance,
        forall|who: Seq<u8>| who != a.holder@ ==> balance_in(accts.push(a), who) == balance_in(accts, who),
        forall|who: Seq<u8>| who != a.holder@ ==> history_in(accts.push(a), who) == history_in(accts, who),
{
    assert(accts.push(a).drop_last() =~= accts);
}

proof fn lemma_update(accts: Seq<Account>, i: int, a: Account)
    requires
        holders_unique(accts),
        0 <= i < accts.len(),
        a.holder@ == accts[i].holder@,
    ensures
        holders_unique(accts.update(i, a)),
        sum_of_balances(accts.update(i, a)) == sum_of_balances(accts) - accts[i].balance + a.balance,
        forall|who: Seq<u8>| who != a.holder@ ==> balance_in(accts.update(i, a), who) == balance_in(accts, who),
        forall|who: Seq<u8>| who != a.holder@ ==> history_in(accts.update(i, a), who) == history_in(accts, who),
    decreases accts.len(),
{
    let u = accts.update(i, a);
    assert forall|x: int, y: int| 0 <= x < y < u.len() implies #[trigger] u[x].holder@ != #[trigger] u[y].holder@ by {
        assert(accts[x].holder@ != accts[y].holder@);
    }
    if i == accts.len() - 1 {
        assert(u.drop_last() =~= accts.drop_last());
    } else {
        assert(u.drop_last() =~= accts.drop_last().update(i, a));
        lemma_update(accts.drop_last(), i, a);
    }
    assert forall|who: Seq<u8>| who != a.holder@ implies balance_in(u, who) == balance_in(accts, who)
        && history_in(u, who) == history_in(accts, who) by {
        if i == accts.len() - 1 {
            assert(u.last() == a);
        } else {
            assert(u.last() == accts.last());
            let d = accts.drop_last().update(i, a);
            assert(u.drop_last() == d);
            assert(balance_in(d, who) == balance_in(accts.drop_last(), who));
            assert(history_in(d, who) == history_in(accts.drop_last(), who));
        }
    }
}

impl Token {
    /// Balances are kept per holder, and they add up to the supply.
    pub open spec fn wf(&self) -> bool {
        &&& holders_unique(self.accounts@)
        &&& sum_of_balances(self.accounts@) == self.total_supply
    }

    /// The balance of `who`: zero where it never received funds.
    pub open spec fn balance(&self, who: Seq<u8>) -> nat {
        balance_in(self.accounts@, who)
    }

    /// The history of `who`, oldest first: empty where it has none.
    pub open spec fn history(&self, who: Seq<u8>) -> Seq<TxRecord> {
        history_in(self.accounts@, who)
    }

    /// The sum of the balances of all holders.
    pub open spec fn balance_sum(&self) -> nat {
        sum_of_balances(self.accounts@)
    }

    /// The descriptive fields and the supply are those of `other`.
    pub open spec fn same_metadata(&self, other: &Token) -> bool {
        &&& self.name@ == other.name@
        &&& self.symbol@ == other.symbol@
        &&& self.image_url@ == other.image_url@
        &&& self.total_supply == other.total_supply
        &&& self.owner@ == other.owner@
    }

    /// Creates a token whose whole supply belongs to `owner`, with the mint as
    /// the owner's first history entry.
    pub fn mint(
        owner: Identity,
        name: String,
        symbol: String,
        image_url: String,
        total_supply: u64,
        timestamp: u64,
    ) -> (r: Token)
        ensures
            r.wf(),
            r.name@ == name@,
            r.symbol@ == symbol@,
            r.image_url@ == image_url@,
            r.total_supply == total_supply,
            r.owner@ == owner@,
            forall|who: Seq<u8>| #[trigger] r.balance(who) == if who == owner@ { total_supply as nat } else { 0 },
            forall|who: Seq<u8>|
                #[trigger] r.history(who) == if who == owner@ {
                    seq![mint_record(owner@, total_supply as nat, timestamp as nat)]
                } else {
                    Seq::<TxRecord>::empty()
                },
    {
        let tx = Transaction { from: None, to: owner.duplicate(), amount: total_supply, timestamp };
        let mut history: Vec<Transaction> = Vec::new();
        history.push(tx);
        let account = Account { holder: owner.duplicate(), balance: total_supply, history };
        let mut accounts: Vec<Account> = Vec::new();
        accounts.push(account);
        let r = Token { name, symbol, image_url, total_supply, owner, accounts };
        proof {
            let a = r.accounts@;
            assert(a.drop_last() =~= Seq::<Account>::empty());
            assert(sum_of_balances(a.drop_last()) == 0);
            assert forall|who: Seq<u8>| #[trigger] r.balance(who) == if who == owner@ { total_supply as nat } else { 0 } by {
                assert(balance_in(a.drop_last(), who) == 0);
            }
            assert forall|who: Seq<u8>| who != owner@ implies #[trigger] r.history(who) == Seq::<TxRecord>::empty() by {
                assert(history_in(a.drop_last(), who) == Seq::<TxRecord>::empty());
            }
            assert(records(a[0].history@) =~= seq![mint_record(owner@, total_supply as nat, timestamp as nat)]);
        }
        r
    }

    /// The index of the account of `who`, if it has one.
    fn position(&self, who: &Identity) -> (r: Option<usize>)
        ensures
            match r {
                Some(i) => i < self.accounts@.len() && self.accounts@[i as int].holder@ == who@,
                None => forall|i: int| 0 <= i < self.accounts@.len() ==> #[trigger] self.accounts@[i].holder@ != who@,
            },
    {
        let mut i: usize = 0;
        while i < self.accounts.len()
            invariant
                i <= self.accounts@.len(),
                forall|k: int| 0 <= k < i ==> #[trigger] self.accounts@[k].holder@ != who@,
            decreases self.accounts@.len() - i,
        {
            if self.accounts[i].holder.same_as(who) {
                return Some(i);
            }
            i = i + 1;
        }
        None
    }

    /// The balance of `who`.
    pub fn balance_of(&self, who: &Identity) -> (r: u64)
        requires
            self.wf(),
        ensures
            r == self.balance(who@),
    {
        match self.position(who) {
            Some(i) => {
                proof { lemma_account_at(self.accounts@, i as int); }
                self.accounts[i].balance
            },
            None => {
                proof { lemma_no_account(self.accounts@, who@); }
                0
            },
        }
    }

    /// A copy of the history of `who`, oldest first.
    pub fn transactions_of(&self, who: &Identity) -> (r: Vec<Transaction>)
        requires
            self.wf(),
        ensures
            records(r@) == self.history(who@),
    {
        match self.position(who) {
            Some(i) => {
                proof { lemma_account_at(self.accounts@, i as int); }
                crate::transaction::copy_history(&self.accounts[i].history)
            },
            None => {
                proof { lemma_no_account(self.accounts@, who@); }
                let r: Vec<Transaction> = Vec::new();
                assert(records(r@) =~= Seq::<TxRecord>::empty());
                r
            },
        }
    }

    /// The index of the account of `who`, opening an empty one if it has none.
    fn open_account(&mut self, who: &Identity) -> (r: usize)
        requires
            holders_unique(old(self).accounts@),
        ensures
            holders_unique(final(self).accounts@),
            final(self).balance_sum() == old(self).balance_sum(),
            final(self).same_metadata(old(self)),
            r < final(self).accounts@.len(),
            final(self).accounts@[r as int].holder@ == who@,
            old(self).accounts@.len() <= final(self).accounts@.len(),
            forall|k: int| 0 <= k < old(self).accounts@.len() ==> #[trigger] final(self).accounts@[k] == old(self).accounts@[k],
            forall|w: Seq<u8>| #[trigger] final(self).balance(w) == old(self).balance(w),
            forall|w: Seq<u8>| #[trigger] final(self).history(w) == old(self).history(w),
    {
        match self.position(who) {
            Some(i) => i,
            None => {
                let account = Account { holder: who.duplicate(), balance: 0, history: Vec::new() };
                proof {
                    lemma_push(self.accounts@, account);
                    lemma_no_account(self.accounts@, who@);
                    let p = self.accounts@.push(account);
                    assert forall|x: int, y: int| 0 <= x < y < p.len() implies #[trigger] p[x].holder@ != #[trigger] p[y].holder@ by {
                        if y == p.len() - 1 {
                            assert(self.accounts@[x].holder@ != who@);
                        } else {
                            assert(self.accounts@[x].holder@ != self.accounts@[y].holder@);
                        }
                    }
                    assert(records(account.history@) =~= Seq::<TxRecord>::empty());
                }
                self.accounts.push(account);
                self.accounts.len() - 1
            },
        }
    }

    /// Sets the balance of the account at `i`.
    fn set_balance(&mut self, i: usize, value: u64)
        requires
            holders_unique(old(self).accounts@),
            i < old(self).accounts@.len(),
        ensures
            holders_unique(final(self).accounts@),
            final(self).same_metadata(old(self)),
            final(self).accounts@.len() == old(self).accounts@.len(),
            forall|k: int| 0 <= k < old(self).accounts@.len() ==> #[trigger] final(self).accounts@[k].holder@ == old(self).accounts@[k].holder@,
            final(self).accounts@[i as int].holder@ == old(self).accounts@[i as int].holder@,
            final(self).balance_sum() == old(self).balance_sum() - old(self).accounts@[i as int].balance + value,
            final(self).balance(old(self).accounts@[i as int].holder@) == value,
            forall|w: Seq<u8>| w != old(self).accounts@[i as int].holder@ ==> #[trigger] final(self).balance(w) == old(self).balance(w),
            forall|w: Seq<u8>| #[trigger] final(self).history(w) == old(self).history(w),
    {
        proof {
            let a = self.accounts@[i as int];
            lemma_update(self.accounts@, i as int, Account { balance: value, ..a });
        }
        self.accounts[i].balance = value;
        proof {
            lemma_account_at(self.accounts@, i as int);
            lemma_account_at(old(self).accounts@, i as int);
        }
    }

    /// Appends `tx` to the history of the account at `i`.
    fn append_history(&mut self, i: usize, tx: Transaction)
        requires
            old(self).wf(),
            i < old(self).accounts@.len(),
        ensures
            final(self).wf(),
            final(self).same_metadata(old(self)),
            final(self).accounts@.len() == old(self).accounts@.len(),
            forall|k: int| 0 <= k < old(self).accounts@.len() ==> #[trigger] final(self).accounts@[k].holder@ == old(self).accounts@[k].holder@,
            final(self).accounts@[i as int].holder@ == old(self).accounts@[i as int].holder@,
            final(self).history(old(self).accounts@[i as int].holder@)
                == old(self).history(old(self).accounts@[i as int].holder@).push(tx@),
            forall|w: Seq<u8>| w != old(self).accounts@[i as int].holder@ ==> #[trigger] final(self).history(w) == old(self).history(w),
            forall|w: Seq<u8>| #[trigger] final(self).balance(w) == old(self).balance(w),
    {
        let ghost before = self.accounts@[i as int];
        self.accounts[i].history.push(tx);
        proof {
            let after = self.accounts@[i as int];
            assert(self.accounts@ == old(self).accounts@.update(i as int, after));
            lemma_update(old(self).accounts@, i as int, after);
            lemma_account_at(self.accounts@, i as int);
            lemma_account_at(old(self).accounts@, i as int);
            assert(records(after.history@) =~= records(before.history@).push(tx@));
        }
    }

    /// Moves `amount` from `from` to `to` and records the transfer, stamped
    /// `timestamp`, in both parties' histories (twice in one history when
    /// `from` and `to` are the same holder).
    pub fn transfer(&mut self, from: &Identity, to: &Identity, amount: u64, timestamp: u64)
        requires
            old(self).wf(),
            amount <= old(self).balance(from@),
        ensures
            final(self).wf(),
            final(self).same_metadata(old(self)),
            forall|w: Seq<u8>|
                #[trigger] final(self).balance(w) == balance_after_transfer(
                    old(self).balance(w),
                    w,
                    from@,
                    to@,
                    amount as nat,
                ),
            forall|w: Seq<u8>|
                #[trigger] final(self).history(w) == history_after_transfer(
                    old(self).history(w),
                    w,
                    from@,
                    to@,
                    transfer_record(from@, to@, amount as nat, timestamp as nat),
                ),
    {
        let ghost start = *self;
        let s = self.open_account(from);
        proof {
            lemma_account_at(self.accounts@, s as int);
            assert(self.balance(from@) == start.balance(from@));
        }
        let sender_balance = self.accounts[s].balance;
        self.set_balance(s, sender_balance - amount);
        let ghost debited = *self;
        let r = self.open_account(to);
        proof {
            lemma_balance_le_sum(self.accounts@, r as int);
            lemma_account_at(self.accounts@, r as int);
            assert(self.balance(to@) == debited.balance(to@));
        }
        let receiver_balance = self.accounts[r].balance;
        self.set_balance(r, receiver_balance + amount);
        let tx = Transaction { from: Some(from.duplicate()), to: to.duplicate(), amount, timestamp };
        assert(tx@ == transfer_record(from@, to@, amount as nat, timestamp as nat));
        self.append_history(s, tx.duplicate());
        self.append_history(r, tx);
    }
}

} // verus!
