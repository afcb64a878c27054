use ledger::batch::{net_adjustment, BatchQueue, PendingWrite, RateMonitor, WriteMode};
use ledger::decimal::{parse_decimal, push_int};
use ledger::ledger::{Kind, LedgerEntry};
use ledger::service::{
    account_index, balance_reply, movement_reply, statement_balance, transaction_request, RequestError,
};

fn w(tx: u64, account: u64, amount: i64) -> PendingWrite {
    PendingWrite {
        tx_id: tx,
        account_id: account,
        amount,
        kind: if amount < 0 { Kind::Debit } else { Kind::Credit },
        description: b"x".to_vec(),
    }
}

#[test]
fn queue_drains_in_order() {
    let mut q = BatchQueue::new();
    q.enqueue(w(1, 1, 10));
    q.enqueue(w(2, 2, -5));
    assert_eq!(q.len(), 2);
    let batch = q.drain();
    assert_eq!(batch, vec![w(1, 1, 10), w(2, 2, -5)]);
    assert_eq!(q.len(), 0);
    q.enqueue(w(3, 1, 1));
    q.requeue(batch);
    assert_eq!(q.drain(), vec![w(1, 1, 10), w(2, 2, -5), w(3, 1, 1)]);
}

#[test]
fn net_adjustment_per_account() {
    let batch = vec![w(1, 1, 10), w(2, 2, -5), w(3, 1, -4), w(4, 1, i64::MAX), w(5, 1, i64::MAX)];
    assert_eq!(net_adjustment(&batch, 2), -5);
    assert_eq!(net_adjustment(&batch, 1), 6 + 2 * (i64::MAX as i128));
    assert_eq!(net_adjustment(&batch, 9), 0);
}

#[test]
fn mode_switches_on_volume() {
    let mut m = RateMonitor::new(3);
    assert_eq!(m.record_request(), WriteMode::Immediate);
    assert_eq!(m.record_request(), WriteMode::Immediate);
    assert_eq!(m.record_request(), WriteMode::Batched);
    assert_eq!(m.end_interval(), WriteMode::Batched);
    assert_eq!(m.record_request(), WriteMode::Batched);
    assert_eq!(m.end_interval(), WriteMode::Immediate);
    assert_eq!(m.mode(), WriteMode::Immediate);
}

#[test]
fn transaction_requests() {
    assert_eq!(transaction_request(1, 5, 100, b"d", b"pix"), Ok((0, -100, Kind::Debit)));
    assert_eq!(transaction_request(5, 5, 100, b"c", b"salario"), Ok((4, 100, Kind::Credit)));
    assert_eq!(transaction_request(6, 5, 100, b"c", b"x"), Err(RequestError::NotFound));
    assert_eq!(transaction_request(0, 5, 100, b"c", b"x"), Err(RequestError::Unprocessable));
    assert_eq!(transaction_request(1, 5, 100, b"x", b"x"), Err(RequestError::Unprocessable));
    assert_eq!(transaction_request(1, 5, 100, b"c", b""), Err(RequestError::Unprocessable));
    assert_eq!(transaction_request(1, 5, 100, b"c", b"12345678901"), Err(RequestError::Unprocessable));
    assert_eq!(transaction_request(1, 5, i32::MIN, b"d", b"x"), Ok((0, 2147483648, Kind::Debit)));
    assert_eq!(account_index(3, 5), Some(2));
}

#[test]
fn replies() {
    assert_eq!(balance_reply(-50, 1000), b"-50,1000".to_vec());
    let e = LedgerEntry {
        tx_id: 9,
        delta: 1,
        balance_after: 7,
        occurred_at: b"T".to_vec(),
        kind: Kind::Credit,
        description: b"a".to_vec(),
    };
    assert_eq!(movement_reply(&e, 100), b"7,100,9,T".to_vec());
    assert_eq!(statement_balance(&vec![e]), Some(7));
    assert_eq!(statement_balance(&Vec::new()), None);
}

#[test]
fn decimal_text() {
    let mut out = Vec::new();
    push_int(&mut out, -1234);
    push_int(&mut out, 0);
    push_int(&mut out, u64::MAX as i128);
    assert_eq!(out, b"-1234018446744073709551615".to_vec());
    assert_eq!(parse_decimal(b"18446744073709551615"), Some(u64::MAX as i128));
    assert_eq!(parse_decimal(b"-0"), Some(0));
    assert_eq!(parse_decimal(b"-"), None);
    assert_eq!(parse_decimal(b"123456789012345678901"), None);
    assert_eq!(parse_decimal(b" 1"), None);
}
