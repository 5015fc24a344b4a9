//! The ledger: a registry of tokens keyed by symbol.
//!
//! A ledger starts out uninitialized; `init` makes it an empty registry.
//! Before that, `create_token` and `transfer` fail and every read finds
//! nothing. Tokens are listed in the order in which their symbols were first
//! created.

use vstd::prelude::*;

use crate::identity::Identity;
use crate::token::{
    balance_after_transfer, history_after_transfer, mint_record, transfer_record, Token,
};
use crate::transaction::{records, Transaction, TxRecord};

verus! {

/// The registry of tokens, owned by whoever runs the operations on it.
pub struct Ledger {
    tokens: Option<Vec<Token>>,
}

/// The last token in `ts` whose symbol is `sym`.
pub open spec fn token_in(ts: Seq<Token>, sym: Seq<char>) -> Option<Token>
    decreases ts.len(),
{
    if ts.len() == 0 {
        None
    } else if ts.last().symbol@ == sym {
        Some(ts.last())
    } else {
        token_in(ts.drop_last(), sym)
    }
}

/// No two tokens share a symbol.
pub open spec fn symbols_unique(ts: Seq<Token>) -> bool {
    forall|i: int, j: int| 0 <= i < j < ts.len() ==> #[trigger] ts[i].symbol@ != #[trigger] ts[j].symbol@
}

/// The descriptive triple under which a token is listed: name, symbol, image URL.
pub open spec fn listing(t: Token) -> (Seq<char>, Seq<char>, Seq<char>) {
    (t.name@, t.symbol@, t.image_url@)
}

proof fn lemma_token_at(ts: Seq<Token>, i: int)
    requires
        symbols_unique(ts),
        0 <= i < ts.len(),
    ensures
        token_in(ts, ts[i].symbol@) == Some(ts[i]),
    decreases ts.len(),
{
    if i < ts.len() - 1 {
        assert(ts.last().symbol@ != ts[i].symbol@);
        lemma_token_at(ts.drop_last(), i);
    }
}

proof fn lemma_no_token(ts: Seq<Token>, sym: Seq<char>)
    requires
        forall|i: int| 0 <= i < ts.len() ==> #[trigger] ts[i].symbol@ != sym,
    ensures
        token_in(ts, sym) == None::<Token>,
    decreases ts.len(),
{
    if ts.len() > 0 {
        assert(ts.last().symbol@ != sym);
        lemma_no_token(ts.drop_last(), sym);
    }
}

proof fn lemma_token_found(ts: Seq<Token>, sym: Seq<char>)
    requires
        token_in(ts, sym) is Some,
    ensures
        exists|i: int| 0 <= i < ts.len() && #[trigger] ts[i].symbol@ == sym && token_in(ts, sym) == Some(ts[i]),
    decreases ts.len(),
{
    if ts.last().symbol@ != sym {
        lemma_token_found(ts.drop_last(), sym);
        let i = choose|i: int| 0 <= i < ts.drop_last().len() && #[trigger] ts.drop_last()[i].symbol@ == sym
            && token_in(ts.drop_last(), sym) == Some(ts.drop_last()[i]);
        assert(ts[i] == ts.drop_last()[i]);
    } else {
        assert(ts[ts.len() - 1] == ts.last());
    }
}

proof fn lemma_replace_token(ts: Seq<Token>, i: int, t: Token)
    requires
        symbols_unique(ts),
        0 <= i < ts.len(),
        t.symbol@ == ts[i].symbol@,
    ensures
        symbols_unique(ts.update(i, t)),
        token_in(ts.update(i, t), t.symbol@) == Some(t),
        forall|sym: Seq<char>| sym != t.symbol@ ==> token_in(ts.update(i, t), sym) == token_in(ts, sym),
    decreases ts.len(),
{
    let u = ts.update(i, t);
    assert forall|x: int, y: int| 0 <= x < y < u.len() implies #[trigger] u[x].symbol@ != #[trigger] u[y].symbol@ by {
        assert(ts[x].symbol@ != ts[y].symbol@);
    }
    lemma_token_at(u, i);
    if i < ts.len() - 1 {
        let d = ts.drop_last().update(i, t);
        assert(u.drop_last() =~= d);
        lemma_replace_token(ts.drop_last(), i, t);
        assert forall|sym: Seq<char>| sym != t.symbol@ implies token_in(u, sym) == token_in(ts, sym) by {
            assert(u.last() == ts.last());
            assert(token_in(d, sym) == token_in(ts.drop_last(), sym));
        }
    } else {
        assert(u.drop_last() =~= ts.drop_last());
        assert forall|sym: Seq<char>| sym != t.symbol@ implies token_in(u, sym) == token_in(ts, sym) by {
            assert(u.last() == t);
        }
    }
}

proof fn lemma_push_token(ts: Seq<Token>, t: Token)
    requires
        symbols_unique(ts),
        forall|i: int| 0 <= i < ts.len() ==> #[trigger] ts[i].symbol@ != t.symbol@,
    ensures
        symbols_unique(ts.push(t)),
        token_in(ts.push(t), t.symbol@) == Some(t),
        forall|sym: Seq<char>| sym != t.symbol@ ==> token_in(ts.push(t), sym) == token_in(ts, sym),
{
    let p = ts.push(t);
    assert(p.drop_last() =~= ts);
    assert forall|x: int, y: int| 0 <= x < y < p.len() implies #[trigger] p[x].symbol@ != #[trigger] p[y].symbol@ by {
        if y == ts.len() {
            assert(ts[x].symbol@ != t.symbol@);
        } else {
            assert(ts[x].symbol@ != ts[y].symbol@);
        }
    }
}

/// The index of the token whose symbol is `symbol`, if there is one.
fn find(ts: &Vec<Token>, symbol: &String) -> (r: Option<usize>)
    ensures
        match r {
            Some(i) => i < ts@.len() && ts@[i as int].symbol@ == symbol@,
            None => forall|i: int| 0 <= i < ts@.len() ==> #[trigger] ts@[i].symbol@ != symbol@,
        },
{
    let mut i: usize = 0;
    while i < ts.len()
        invariant
            i <= ts@.len(),
            forall|k: int| 0 <= k < i ==> #[trigger] ts@[k].symbol@ != symbol@,
        decreases ts@.len() - i,
    {
        if ts[i].symbol == *symbol {
            return Some(i);
        }
        i = i + 1;
    }
    None
}

impl Ledger {
    /// Symbols are unique and every token keeps its balances summing to its supply.
    pub closed spec fn wf(&self) -> bool {
        match self.tokens {
            None => true,
            Some(v) => symbols_unique(v@) && forall|i: int| 0 <= i < v@.len() ==> (#[trigger] v@[i]).wf(),
        }
    }

    /// Whether `init` has run.
    pub closed spec fn is_initialized(&self) -> bool {
        self.tokens is Some
    }

    /// The token registered under `sym`, if any.
    pub closed spec fn token(&self, sym: Seq<char>) -> Option<Token> {
        match self.tokens {
            None => None,
            Some(v) => token_in(v@, sym),
        }
    }

    /// The registered tokens' listings, in order of first creation.
    pub closed spec fn token_list(&self) -> Seq<(Seq<char>, Seq<char>, Seq<char>)> {
        match self.tokens {
            None => Seq::empty(),
            Some(v) => v@.map_values(|t: Token| listing(t)),
        }
    }

    /// The balance of `who` in the token `sym`: zero where either is unknown.
    pub open spec fn balance(&self, sym: Seq<char>, who: Seq<u8>) -> nat {
        match self.token(sym) {
            Some(t) => t.balance(who),
            None => 0,
        }
    }

    /// The supply of the token `sym`: zero where it is unknown.
    pub open spec fn supply(&self, sym: Seq<char>) -> nat {
        match self.token(sym) {
            Some(t) => t.total_supply as nat,
            None => 0,
        }
    }

    /// The sum of all balances in the token `sym`: zero where it is unknown.
    pub open spec fn balance_sum(&self, sym: Seq<char>) -> nat {
        match self.token(sym) {
            Some(t) => t.balance_sum(),
            None => 0,
        }
    }

    /// The history of `who` in the token `sym`: empty where either is unknown.
    pub open spec fn history(&self, sym: Seq<char>, who: Seq<u8>) -> Seq<TxRecord> {
        match self.token(sym) {
            Some(t) => t.history(who),
            None => Seq::empty(),
        }
    }

    /// A ledger on which `init` has not run yet.
    pub fn new() -> (r: Ledger)
        ensures
            r.wf(),
            !r.is_initialized(),
            forall|sym: Seq<char>| #[trigger] r.token(sym) == None::<Token>,
            r.token_list() == Seq::<(Seq<char>, Seq<char>, Seq<char>)>::empty(),
    {
        Ledger { tokens: None }
    }

    /// Makes this ledger an empty registry. This is a hard reset: every token
    /// registered before, with its balances and history, is gone.
    pub fn init(&mut self)
        ensures
            final(self).wf(),
            final(self).is_initialized(),
            forall|sym: Seq<char>| #[trigger] final(self).token(sym) == None::<Token>,
            final(self).token_list() == Seq::<(Seq<char>, Seq<char>, Seq<char>)>::empty(),
    {
        self.tokens = Some(Vec::new());
        assert(self.token_list() =~= Seq::<(Seq<char>, Seq<char>, Seq<char>)>::empty());
    }

    /// Registers a token under `symbol` whose whole supply belongs to
    /// `token_owner`, with the mint, stamped `timestamp`, as the owner's
    /// first history entry. Returns false, changing nothing, when the ledger
    /// is not initialized.
    ///
    /// A token already registered under `symbol` is replaced, with all its
    /// balances and history: it keeps its place in the listing.
    pub fn create_token(
        &mut self,
        token_owner: Identity,
        name: String,
        symbol: String,
        image_url: String,
        total_supply: u64,
        timestamp: u64,
    ) -> (r: bool)
        requires
            old(self).wf(),
        ensures
            final(self).wf(),
            r == old(self).is_initialized(),
            final(self).is_initialized() == old(self).is_initialized(),
            !r ==> *final(self) == *old(self),
            r ==> final(self).token(symbol@) is Some,
            r ==> final(self).supply(symbol@) == total_supply,
            r ==> forall|who: Seq<u8>|
                #[trigger] final(self).balance(symbol@, who) == if who == token_owner@ {
                    total_supply as nat
                } else {
                    0
                },
            r ==> forall|who: Seq<u8>|
                #[trigger] final(self).history(symbol@, who) == if who == token_owner@ {
                    seq![mint_record(token_owner@, total_supply as nat, timestamp as nat)]
                } else {
                    Seq::<TxRecord>::empty()
                },
            forall|sym: Seq<char>| sym != symbol@ ==> #[trigger] final(self).token(sym) == old(self).token(sym),
            r ==> final(self).token_list() == if old(self).token(symbol@) is Some {
                old(self).token_list().map_values(
                    |e: (Seq<char>, Seq<char>, Seq<char>)|
                        if e.1 == symbol@ {
                            (name@, symbol@, image_url@)
                        } else {
                            e
                        },
                )
            } else {
                old(self).token_list().push((name@, symbol@, image_url@))
            },
    {
        let ghost entry = (name@, symbol@, image_url@);
        match &mut self.tokens {
            None => false,
            Some(v) => {
                let ghost before = v@;
                let found = find(v, &symbol);
                let token = Token::mint(token_owner, name, symbol.clone(), image_url, total_supply, timestamp);
                match found {
                    Some(i) => {
                        proof {
                            lemma_token_at(before, i as int);
                            lemma_replace_token(before, i as int, token);
                        }
                        v.set(i, token);
                        proof {
                            let old_list = before.map_values(|t: Token| listing(t));
                            let want = old_list.map_values(
                                |e: (Seq<char>, Seq<char>, Seq<char>)|
                                    if e.1 == symbol@ {
                                        entry
                                    } else {
                                        e
                                    },
                            );
                            assert forall|k: int| 0 <= k < v@.len() implies #[trigger] listing(v@[k]) == want[k] by {
                                if k != i {
                                    assert(before[k].symbol@ != before[i as int].symbol@);
                                }
                            }
                            assert(v@.map_values(|t: Token| listing(t)) =~= want);
                        }
                    },
                    None => {
                        proof {
                            lemma_no_token(before, symbol@);
                            lemma_push_token(before, token);
                        }
                        v.push(token);
                        proof {
                            assert(v@.map_values(|t: Token| listing(t)) =~= before.map_values(|t: Token| listing(t)).push(entry));
                        }
                    },
                }
                true
            },
        }
    }

    /// Moves `amount` of the token `symbol` from `from` to `to`, and records
    /// the transfer, stamped `timestamp`, in both parties' histories.
    ///
    /// Succeeds exactly when the token exists and `from` holds at least
    /// `amount`; otherwise returns false and changes nothing. Any caller may
    /// name any `from`: no authorization is checked here.
    pub fn transfer(&mut self, symbol: String, to: Identity, from: Identity, amount: u64, timestamp: u64) -> (r: bool)
        requires
            old(self).wf(),
        ensures
            final(self).wf(),
            r == (old(self).token(symbol@) is Some && amount <= old(self).balance(symbol@, from@)),
            !r ==> *final(self) == *old(self),
            r ==> forall|who: Seq<u8>|
                #[trigger] final(self).balance(symbol@, who) == balance_after_transfer(
                    old(self).balance(symbol@, who),
                    who,
                    from@,
                    to@,
                    amount as nat,
                ),
            r ==> forall|who: Seq<u8>|
                #[trigger] final(self).history(symbol@, who) == history_after_transfer(
                    old(self).history(symbol@, who),
                    who,
                    from@,
                    to@,
                    transfer_record(from@, to@, amount as nat, timestamp as nat),
                ),
            final(self).is_initialized() == old(self).is_initialized(),
            forall|sym: Seq<char>| #[trigger] final(self).supply(sym) == old(self).supply(sym),
            forall|sym: Seq<char>| sym != symbol@ ==> #[trigger] final(self).token(sym) == old(self).token(sym),
            forall|sym: Seq<char>| #[trigger] final(self).balance_sum(sym) == old(self).balance_sum(sym),
            final(self).token_list() == old(self).token_list(),
    {
        let r = self.transfer_within(symbol, to, from, amount, timestamp);
        proof {
            assert forall|sym: Seq<char>| #[trigger] self.balance_sum(sym) == old(self).balance_sum(sym) by {
                old(self).lemma_supply_conserved(sym);
                self.lemma_supply_conserved(sym);
            }
        }
        r
    }

    /// The transfer itself; `transfer` adds what it keeps of each token's balance sum.
    fn transfer_within(&mut self, symbol: String, to: Identity, from: Identity, amount: u64, timestamp: u64) -> (r: bool)
        requires
            old(self).wf(),
        ensures
            final(self).wf(),
            r == (old(self).token(symbol@) is Some && amount <= old(self).balance(symbol@, from@)),
            !r ==> *final(self) == *old(self),
            r ==> forall|who: Seq<u8>|
                #[trigger] final(self).balance(symbol@, who) == balance_after_transfer(
                    old(self).balance(symbol@, who),
                    who,
                    from@,
                    to@,
                    amount as nat,
                ),
            r ==> forall|who: Seq<u8>|
                #[trigger] final(self).history(symbol@, who) == history_after_transfer(
                    old(self).history(symbol@, who),
                    who,
                    from@,
                    to@,
                    transfer_record(from@, to@, amount as nat, timestamp as nat),
                ),
            final(self).is_initialized() == old(self).is_initialized(),
            forall|sym: Seq<char>| #[trigger] final(self).supply(sym) == old(self).supply(sym),
            forall|sym: Seq<char>| sym != symbol@ ==> #[trigger] final(self).token(sym) == old(self).token(sym),
            final(self).token_list() == old(self).token_list(),
    {
        match &mut self.tokens {
            None => false,
            Some(v) => {
                let ghost before = v@;
                match find(v, &symbol) {
                    None => {
                        proof { lemma_no_token(before, symbol@); }
                        false
                    },
                    Some(i) => {
                        proof { lemma_token_at(before, i as int); }
                        if v[i].balance_of(&from) < amount {
                            return false;
                        }
                        v[i].transfer(&from, &to, amount, timestamp);
                        proof {
                            let t = v@[i as int];
                            assert(v@ == before.update(i as int, t));
                            lemma_replace_token(before, i as int, t);
                            assert(v@.map_values(|t: Token| listing(t)) =~= before.map_values(|t: Token| listing(t)));
                        }
                        true
                    },
                }
            },
        }
    }

    /// The balance of `user` in the token `symbol`: zero where the token is
    /// unknown or `user` never received any of it.
    pub fn balance_of(&self, symbol: String, user: Identity) -> (r: u64)
        requires
            self.wf(),
        ensures
            r == self.balance(symbol@, user@),
    {
        match &self.tokens {
            None => 0,
            Some(v) => match find(v, &symbol) {
                None => {
                    proof { lemma_no_token(v@, symbol@); }
                    0
                },
                Some(i) => {
                    proof { lemma_token_at(v@, i as int); }
                    v[i].balance_of(&user)
                },
            },
        }
    }

    /// The supply fixed when the token `symbol` was created: zero where it is unknown.
    pub fn total_supply(&self, symbol: String) -> (r: u64)
        requires
            self.wf(),
        ensures
            r == self.supply(symbol@),
    {
        match &self.tokens {
            None => 0,
            Some(v) => match find(v, &symbol) {
                None => {
                    proof { lemma_no_token(v@, symbol@); }
                    0
                },
                Some(i) => {
                    proof { lemma_token_at(v@, i as int); }
                    v[i].total_supply
                },
            },
        }
    }

    /// The name, symbol and image URL of every registered token, in order of
    /// first creation.
    pub fn get_token_list(&self) -> (r: Vec<(String, String, String)>)
        ensures
            r@.map_values(|e: (String, String, String)| (e.0@, e.1@, e.2@)) == self.token_list(),
    {
        let mut out: Vec<(String, String, String)> = Vec::new();
        match &self.tokens {
            None => {
                assert(out@.map_values(|e: (String, String, String)| (e.0@, e.1@, e.2@)) =~= self.token_list());
            },
            Some(v) => {
                let mut i: usize = 0;
                while i < v.len()
                    invariant
                        i <= v@.len(),
                        out@.len() == i,
                        forall|k: int| 0 <= k < i ==> (#[trigger] out@[k]).0@ == v@[k].name@ && out@[k].1@ == v@[k].symbol@
                            && out@[k].2@ == v@[k].image_url@,
                    decreases v@.len() - i,
                {
                    let t = &v[i];
                    out.push((t.name.clone(), t.symbol.clone(), t.image_url.clone()));
                    i = i + 1;
                }
                assert(out@.map_values(|e: (String, String, String)| (e.0@, e.1@, e.2@)) =~= self.token_list());
            },
        }
        out
    }

    /// A copy of the history of `user` in the token `symbol`, oldest first:
    /// empty where the token is unknown or `user` has no entries.
    pub fn get_transactions(&self, symbol: String, user: Identity) -> (r: Vec<Transaction>)
        requires
            self.wf(),
        ensures
            records(r@) == self.history(symbol@, user@),
    {
        match &self.tokens {
            None => {
                let r: Vec<Transaction> = Vec::new();
                assert(records(r@) =~= Seq::<TxRecord>::empty());
                r
            },
            Some(v) => match find(v, &symbol) {
                None => {
                    proof { lemma_no_token(v@, symbol@); }
                    let r: Vec<Transaction> = Vec::new();
                    assert(records(r@) =~= Seq::<TxRecord>::empty());
                    r
                },
                Some(i) => {
                    proof { lemma_token_at(v@, i as int); }
                    v[i].transactions_of(&user)
                },
            },
        }
    }

    /// In a well-formed ledger the balances of every token add up to its
    /// supply. Every operation keeps the ledger well-formed, so this holds
    /// after any sequence of transfers.
    pub proof fn lemma_supply_conserved(&self, sym: Seq<char>)
        requires
            self.wf(),
        ensures
            self.balance_sum(sym) == self.supply(sym),
    {
        if let Some(v) = self.tokens {
            if token_in(v@, sym) is Some {
                lemma_token_found(v@, sym);
                let i = choose|i: int| 0 <= i < v@.len() && #[trigger] v@[i].symbol@ == sym && token_in(v@, sym) == Some(v@[i]);
                assert(v@[i].wf());
            }
        }
    }
}

} // verus!
