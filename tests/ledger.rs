use token_ledger::identity::Identity;
use token_ledger::ledger::Ledger;
use token_ledger::transaction::Transaction;

fn id(b: u8) -> Identity {
    Identity::from_bytes(vec![b, 7, b])
}

fn s(x: &str) -> String {
    x.to_string()
}

fn ready() -> Ledger {
    let mut l = Ledger::new();
    l.init();
    l
}

#[test]
fn mint_credits_owner_with_whole_supply() {
    let mut l = ready();
    assert!(l.create_token(id(1), s("Gold"), s("GLD"), s("img"), 1000, 42));
    assert_eq!(l.balance_of(s("GLD"), id(1)), 1000);
    assert_eq!(l.total_supply(s("GLD")), 1000);
    assert_eq!(l.balance_of(s("GLD"), id(2)), 0);
    let h = l.get_transactions(s("GLD"), id(1));
    assert_eq!(h, vec![Transaction { from: None, to: id(1), amount: 1000, timestamp: 42 }]);
    assert!(l.get_transactions(s("GLD"), id(2)).is_empty());
}

#[test]
fn gold_example() {
    let mut l = ready();
    assert!(l.create_token(id(1), s("Gold"), s("GLD"), s("img"), 1000, 1));
    assert!(l.transfer(s("GLD"), id(2), id(1), 300, 2));
    assert_eq!(l.balance_of(s("GLD"), id(1)), 700);
    assert_eq!(l.balance_of(s("GLD"), id(2)), 300);
    assert_eq!(l.get_transactions(s("GLD"), id(1)).len(), 2);
    assert!(l.get_token_list().contains(&(s("Gold"), s("GLD"), s("img"))));
}

#[test]
fn balances_keep_adding_up_to_supply() {
    let mut l = ready();
    assert!(l.create_token(id(1), s("Silver"), s("SLV"), s("u"), 500, 1));
    assert!(l.transfer(s("SLV"), id(2), id(1), 120, 2));
    assert!(l.transfer(s("SLV"), id(3), id(2), 20, 3));
    assert!(l.transfer(s("SLV"), id(1), id(3), 5, 4));
    assert!(l.transfer(s("SLV"), id(2), id(2), 100, 5));
    let total: u64 = (1..=3).map(|b| l.balance_of(s("SLV"), id(b))).sum();
    assert_eq!(total, 500);
    assert_eq!(l.total_supply(s("SLV")), 500);
    assert_eq!(l.balance_of(s("SLV"), id(1)), 385);
    assert_eq!(l.balance_of(s("SLV"), id(2)), 100);
    assert_eq!(l.balance_of(s("SLV"), id(3)), 15);
}

#[test]
fn transfer_beyond_balance_is_refused_without_change() {
    let mut l = ready();
    assert!(l.create_token(id(1), s("Gold"), s("GLD"), s("img"), 100, 1));
    assert!(!l.transfer(s("GLD"), id(2), id(1), 101, 2));
    assert_eq!(l.balance_of(s("GLD"), id(1)), 100);
    assert_eq!(l.balance_of(s("GLD"), id(2)), 0);
    assert_eq!(l.get_transactions(s("GLD"), id(1)).len(), 1);
    assert!(l.get_transactions(s("GLD"), id(2)).is_empty());
    assert!(!l.transfer(s("GLD"), id(1), id(2), 1, 3));
    assert_eq!(l.balance_of(s("GLD"), id(1)), 100);
}

#[test]
fn transfer_records_one_entry_for_each_party() {
    let mut l = ready();
    assert!(l.create_token(id(1), s("Gold"), s("GLD"), s("img"), 100, 1));
    assert!(l.transfer(s("GLD"), id(2), id(1), 40, 9));
    let tx = Transaction { from: Some(id(1)), to: id(2), amount: 40, timestamp: 9 };
    let a = l.get_transactions(s("GLD"), id(1));
    let b = l.get_transactions(s("GLD"), id(2));
    assert_eq!(a.len(), 2);
    assert_eq!(a[1], tx);
    assert_eq!(b, vec![tx]);
    assert!(l.get_transactions(s("GLD"), id(3)).is_empty());
}

#[test]
fn self_transfer_records_two_entries() {
    let mut l = ready();
    assert!(l.create_token(id(1), s("Gold"), s("GLD"), s("img"), 100, 1));
    assert!(l.transfer(s("GLD"), id(1), id(1), 60, 4));
    assert_eq!(l.balance_of(s("GLD"), id(1)), 100);
    let tx = Transaction { from: Some(id(1)), to: id(1), amount: 60, timestamp: 4 };
    let h = l.get_transactions(s("GLD"), id(1));
    assert_eq!(h.len(), 3);
    assert_eq!(h[1], tx);
    assert_eq!(h[2], tx);
}

#[test]
fn unknown_symbol_reads_nothing() {
    let mut l = ready();
    assert!(l.create_token(id(1), s("Gold"), s("GLD"), s("img"), 100, 1));
    assert_eq!(l.balance_of(s("NOPE"), id(1)), 0);
    assert_eq!(l.total_supply(s("NOPE")), 0);
    assert!(l.get_transactions(s("NOPE"), id(1)).is_empty());
    assert!(!l.transfer(s("NOPE"), id(2), id(1), 0, 2));
    assert_eq!(l.balance_of(s("gld"), id(1)), 0);
}

#[test]
fn uninitialized_ledger_fails_safely() {
    let mut l = Ledger::new();
    assert!(!l.create_token(id(1), s("Gold"), s("GLD"), s("img"), 100, 1));
    assert!(!l.transfer(s("GLD"), id(2), id(1), 0, 2));
    assert_eq!(l.balance_of(s("GLD"), id(1)), 0);
    assert_eq!(l.total_supply(s("GLD")), 0);
    assert!(l.get_transactions(s("GLD"), id(1)).is_empty());
    assert!(l.get_token_list().is_empty());
}

#[test]
fn init_is_a_hard_reset() {
    let mut l = ready();
    assert!(l.create_token(id(1), s("Gold"), s("GLD"), s("img"), 100, 1));
    l.init();
    assert_eq!(l.total_supply(s("GLD")), 0);
    assert_eq!(l.balance_of(s("GLD"), id(1)), 0);
    assert!(l.get_token_list().is_empty());
}

#[test]
fn duplicate_symbol_replaces_token_in_place() {
    let mut l = ready();
    assert!(l.create_token(id(1), s("Gold"), s("GLD"), s("img"), 100, 1));
    assert!(l.create_token(id(2), s("Silver"), s("SLV"), s("s"), 50, 2));
    assert!(l.transfer(s("GLD"), id(3), id(1), 10, 3));
    assert!(l.create_token(id(4), s("New Gold"), s("GLD"), s("img2"), 7, 4));
    assert_eq!(l.balance_of(s("GLD"), id(1)), 0);
    assert_eq!(l.balance_of(s("GLD"), id(3)), 0);
    assert_eq!(l.balance_of(s("GLD"), id(4)), 7);
    assert_eq!(l.total_supply(s("GLD")), 7);
    assert!(l.get_transactions(s("GLD"), id(1)).is_empty());
    assert_eq!(
        l.get_token_list(),
        vec![(s("New Gold"), s("GLD"), s("img2")), (s("Silver"), s("SLV"), s("s"))]
    );
    assert_eq!(l.balance_of(s("SLV"), id(2)), 50);
}

#[test]
fn token_list_keeps_creation_order() {
    let mut l = ready();
    assert!(l.create_token(id(1), s("B"), s("BB"), s("b"), 1, 1));
    assert!(l.create_token(id(1), s("A"), s("AA"), s("a"), 1, 1));
    assert!(l.create_token(id(1), s(""), s(""), s(""), 0, 1));
    assert_eq!(
        l.get_token_list(),
        vec![(s("B"), s("BB"), s("b")), (s("A"), s("AA"), s("a")), (s(""), s(""), s(""))]
    );
}

#[test]
fn zero_transfer_from_stranger_succeeds() {
    let mut l = ready();
    assert!(l.create_token(id(1), s("Gold"), s("GLD"), s("img"), 100, 1));
    assert!(l.transfer(s("GLD"), id(3), id(2), 0, 5));
    assert_eq!(l.balance_of(s("GLD"), id(2)), 0);
    assert_eq!(l.balance_of(s("GLD"), id(3)), 0);
    assert_eq!(l.get_transactions(s("GLD"), id(2)).len(), 1);
    assert_eq!(l.get_transactions(s("GLD"), id(3)).len(), 1);
}

#[test]
fn largest_supply_moves_whole() {
    let mut l = ready();
    assert!(l.create_token(id(1), s("Max"), s("MAX"), s("m"), u64::MAX, 1));
    assert!(l.transfer(s("MAX"), id(2), id(1), u64::MAX, 2));
    assert_eq!(l.balance_of(s("MAX"), id(1)), 0);
    assert_eq!(l.balance_of(s("MAX"), id(2)), u64::MAX);
    assert!(l.transfer(s("MAX"), id(1), id(2), 1, 3));
    assert!(l.transfer(s("MAX"), id(2), id(1), 1, 4));
    assert_eq!(l.balance_of(s("MAX"), id(2)), u64::MAX);
}

#[test]
fn identities_compare_by_bytes() {
    let a = Identity::from_bytes(vec![1, 2, 3]);
    assert!(a.same_as(&Identity::from_bytes(vec![1, 2, 3])));
    assert!(!a.same_as(&Identity::from_bytes(vec![1, 2])));
    assert!(!a.same_as(&Identity::from_bytes(vec![1, 2, 4])));
    assert_eq!(a.duplicate().as_bytes(), &[1, 2, 3]);
}
