use ledger::ledger::{AccountState, ApplyError, Kind, LedgerEntry};

fn desc(s: &str) -> Vec<u8> {
    s.as_bytes().to_vec()
}

fn at() -> Vec<u8> {
    desc("2024-01-01T00:00:00.000000Z")
}

#[test]
fn overdraft_boundary() {
    let mut a = AccountState::recover(-1000, 1000, 1, 0).unwrap();
    assert_eq!(a.apply(-1, Kind::Debit, desc("x"), at()), Err(ApplyError::Rejected));
    assert_eq!(a.balance(), -1000);
    assert_eq!(a.version(), 0);
    let e = a.apply(1, Kind::Credit, desc("x"), at()).unwrap();
    assert_eq!(e.balance_after, -999);
    assert_eq!(a.balance(), -999);
    assert_eq!(a.get(), (-999, 1000));
}

#[test]
fn ten_debits_five_accepted() {
    let mut a = AccountState::recover(500, 0, 1, 0).unwrap();
    let mut ids = Vec::new();
    let mut rejected = 0;
    for _ in 0..10 {
        match a.apply(-100, Kind::Debit, desc("debit"), at()) {
            Ok(e) => ids.push(e.tx_id),
            Err(ApplyError::Rejected) => rejected += 1,
            Err(other) => panic!("unexpected {:?}", other),
        }
    }
    assert_eq!(ids, vec![1, 2, 3, 4, 5]);
    assert_eq!(rejected, 5);
    assert_eq!(a.balance(), 0);
    assert_eq!(a.version(), 5);
    assert_eq!(a.next_tx_id(), 6);
}

#[test]
fn apply_records_the_entry() {
    let mut a = AccountState::new(100);
    let e = a.apply(-30, Kind::Debit, desc("pix"), at()).unwrap();
    assert_eq!(
        e,
        LedgerEntry {
            tx_id: 1,
            delta: -30,
            balance_after: -30,
            occurred_at: at(),
            kind: Kind::Debit,
            description: desc("pix"),
        }
    );
    assert_eq!(a.credit_limit(), 100);
    assert_eq!(a.version(), 1);
}

#[test]
fn balance_never_below_limit() {
    let mut a = AccountState::new(50);
    let deltas = [-20i64, -20, -20, 30, -40, -41, 5];
    for d in deltas {
        let _ = a.apply(d, Kind::Debit, desc("d"), at());
        assert!(a.balance() >= -50);
    }
    assert_eq!(a.balance(), -45);
}

#[test]
fn overflow_is_refused() {
    let mut a = AccountState::recover(i64::MAX - 1, 0, 1, 0).unwrap();
    assert_eq!(a.apply(2, Kind::Credit, desc("c"), at()), Err(ApplyError::Overflow));
    let mut b = AccountState::recover(0, 0, u64::MAX, 0).unwrap();
    assert_eq!(b.apply(1, Kind::Credit, desc("c"), at()), Err(ApplyError::Overflow));
    assert_eq!(b.balance(), 0);
}

#[test]
fn recover_checks_the_invariant() {
    assert!(AccountState::recover(-11, 10, 1, 0).is_none());
    assert!(AccountState::recover(0, -1, 1, 0).is_none());
    assert!(AccountState::recover(0, 0, 0, 0).is_none());
    assert!(AccountState::recover(-10, 10, 7, 6).is_some());
}

#[test]
fn kind_codes() {
    assert_eq!(Kind::Credit.code(), b'c');
    assert_eq!(Kind::Debit.code(), b'd');
    assert_eq!(Kind::from_code(b'd'), Some(Kind::Debit));
    assert_eq!(Kind::from_code(b'x'), None);
}
