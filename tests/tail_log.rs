use ledger::ledger::{Kind, LedgerEntry};
use ledger::tail_log::{decode_record, AtomicFd};

fn entry(tx: u64, delta: i64, bal: i64) -> LedgerEntry {
    LedgerEntry {
        tx_id: tx,
        delta,
        balance_after: bal,
        occurred_at: b"2024-02-10T12:34:56.123456Z".to_vec(),
        kind: if delta < 0 { Kind::Debit } else { Kind::Credit },
        description: b"descricao".to_vec(),
    }
}

fn log_of(fd: &AtomicFd, entries: &[LedgerEntry]) -> Vec<u8> {
    let mut file = Vec::new();
    for e in entries {
        file.extend(fd.encode_entry(e).unwrap());
    }
    file
}

fn tail_of(fd: &AtomicFd, file: &[u8], max: u64) -> Vec<LedgerEntry> {
    let (start, len) = fd.tail_range(file.len() as u64, max);
    fd.get_logs(&file[start as usize..(start + len) as usize], start)
}

#[test]
fn record_layout() {
    let fd = AtomicFd::new(1, 40);
    let e = LedgerEntry {
        tx_id: 7,
        delta: -15,
        balance_after: 85,
        occurred_at: b"T".to_vec(),
        kind: Kind::Debit,
        description: b"abc".to_vec(),
    };
    let r = fd.encode_entry(&e).unwrap();
    let text = b"7,-15,85,T,d,abc\n";
    assert_eq!(r.len(), 40);
    assert!(r[..40 - text.len()].iter().all(|b| *b == 0));
    assert_eq!(&r[40 - text.len()..], &text[..]);
    assert_eq!(decode_record(&r, 0, r.len()), Some(e));
}

#[test]
fn record_too_wide() {
    let fd = AtomicFd::new(1, 10);
    assert_eq!(fd.encode_entry(&entry(1, 5, 5)), None);
}

#[test]
fn tail_of_ten_records() {
    let fd = AtomicFd::new(3, 72);
    let entries: Vec<LedgerEntry> = (1..=10).map(|i| entry(i, 10, 10 * i as i64)).collect();
    let file = log_of(&fd, &entries);
    assert_eq!(file.len(), 720);
    let mut expected: Vec<LedgerEntry> = (1..=10).map(|i| entry(i, 10, 10 * i as i64)).collect();
    expected.reverse();
    assert_eq!(tail_of(&fd, &file, 10), expected);
    assert_eq!(tail_of(&fd, &file, 20), expected);
}

#[test]
fn tail_takes_the_most_recent() {
    let fd = AtomicFd::new(3, 72);
    let entries: Vec<LedgerEntry> = (1..=6).map(|i| entry(i, -1, -(i as i64))).collect();
    let file = log_of(&fd, &entries);
    let got = tail_of(&fd, &file, 3);
    let ids: Vec<u64> = got.iter().map(|e| e.tx_id).collect();
    assert_eq!(ids, vec![6, 5, 4]);
    assert_eq!(fd.tail_range(file.len() as u64, 3), (216, 216));
}

#[test]
fn tail_of_empty_log() {
    let fd = AtomicFd::new(3, 72);
    assert_eq!(fd.tail_range(0, 10), (0, 0));
    assert!(fd.get_logs(&[], 0).is_empty());
}

#[test]
fn partial_and_malformed_records_are_skipped() {
    let fd = AtomicFd::new(3, 72);
    let entries: Vec<LedgerEntry> = (1..=3).map(|i| entry(i, 1, i as i64)).collect();
    let mut file = log_of(&fd, &entries);
    // the second record loses its newline
    file[72 + 71] = b'x';
    // an append in progress
    file.extend_from_slice(&[0u8; 30]);
    let (start, len) = fd.tail_range(file.len() as u64, 10);
    assert_eq!((start, len), (0, 246));
    let got = fd.get_logs(&file[start as usize..(start + len) as usize], start);
    let ids: Vec<u64> = got.iter().map(|e| e.tx_id).collect();
    assert_eq!(ids, vec![3, 1]);
}

#[test]
fn descriptor_fields() {
    let fd = AtomicFd::new(4, 72);
    assert_eq!(fd.id(), 4);
    assert_eq!(fd.log_size(), 72);
}

#[test]
fn window_starts_at_file_end_minus_max_records() {
    let fd = AtomicFd::new(1, 10);
    assert_eq!(fd.tail_range(25, 1), (15, 10));
    assert_eq!(fd.tail_range(25, 2), (5, 20));
    assert_eq!(fd.tail_range(25, 3), (0, 25));
    assert_eq!(fd.tail_range(30, 2), (10, 20));
}

#[test]
fn records_are_aligned_to_the_file_start() {
    let fd = AtomicFd::new(3, 72);
    let entries: Vec<LedgerEntry> = (1..=3).map(|i| entry(i, 1, i as i64)).collect();
    let mut file = log_of(&fd, &entries);
    file.extend_from_slice(&[0u8; 30]);
    // the last record plus the partial one: the window starts mid-record
    let (start, len) = fd.tail_range(file.len() as u64, 1);
    assert_eq!((start, len), (174, 72));
    assert!(fd.get_logs(&file[174..], start).is_empty());
    let (start, len) = fd.tail_range(file.len() as u64, 2);
    assert_eq!((start, len), (102, 144));
    let ids: Vec<u64> = fd.get_logs(&file[102..], start).iter().map(|e| e.tx_id).collect();
    assert_eq!(ids, vec![3]);
}

#[test]
fn space_padding_and_trailing_blanks() {
    let mut rec = vec![b' '; 10];
    rec.extend_from_slice(b"5,-2,8,T,d,luz  ");
    rec.push(b'\n');
    let e = decode_record(&rec, 0, rec.len()).unwrap();
    assert_eq!((e.tx_id, e.delta, e.balance_after), (5, -2, 8));
    assert_eq!(e.description, b"luz".to_vec());
    assert_eq!(e.kind, Kind::Debit);
}
