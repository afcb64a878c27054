use ledger::ledger::{Kind, Ledger, LedgerError};
use ledger::service::{movement_body, reply_balance, serve_request};
use ledger::wire::{
    create_payload, decode_request, encode_request, get_payload, mutate_payload, read_create_request,
    read_get_request, read_mutate_request, Command,
};

#[test]
fn registry_keeps_accounts_apart() {
    let mut l = Ledger::new(&vec![100, 0]);
    assert_eq!(l.len(), 2);
    let e = l.apply(1, -100, Kind::Debit, b"a".to_vec(), b"t".to_vec()).unwrap();
    assert_eq!((e.tx_id, e.balance_after), (1, -100));
    assert_eq!(l.apply(2, -1, Kind::Debit, b"a".to_vec(), b"t".to_vec()), Err(LedgerError::Rejected));
    assert_eq!(l.apply(3, 1, Kind::Credit, b"a".to_vec(), b"t".to_vec()), Err(LedgerError::UnknownAccount));
    assert_eq!(l.get(1), Some((-100, 100)));
    assert_eq!(l.get(2), Some((0, 0)));
    assert_eq!(l.get(0), None);
    assert_eq!(l.version(1), Some(1));
    assert_eq!(l.version(2), Some(0));
    assert!(l.open_account(3, 5));
    assert!(!l.open_account(5, 5));
    assert!(!l.open_account(4, -1));
    assert_eq!(l.get(3), Some((0, 5)));
}

#[test]
fn request_round_trip() {
    let p = mutate_payload(2, -50, b"d,pix").unwrap();
    let f = encode_request(Command::Mutate, 31, &p).unwrap();
    assert_eq!(decode_request(&f), Some((Command::Mutate, 31, p.clone())));
    assert_eq!(read_mutate_request(&p), Some((2, -50, b"d,pix".to_vec())));
    let mut bad = f.clone();
    bad[0] = b'X';
    assert_eq!(decode_request(&bad), None);
    assert_eq!(decode_request(&f[..40]), None);
    let c = create_payload(4, -250, 72).unwrap();
    assert_eq!(read_create_request(&c), Some((4, -250, 72)));
    assert_eq!(read_get_request(&get_payload(9).unwrap()), Some(9));
    assert_eq!(read_get_request(b"9"), None);
}

#[test]
fn service_serves_commands() {
    let mut l = Ledger::new(&vec![1000]);
    let (reply, entry) = serve_request(&mut l, Command::Get, &get_payload(1).unwrap(), b"t".to_vec());
    assert_eq!((reply, entry), (b"0".to_vec(), None));
    let (reply, entry) = serve_request(&mut l, Command::Mutate, &mutate_payload(1, -1000, b"d,aluguel").unwrap(), b"t1".to_vec());
    assert_eq!(reply, b"-1000".to_vec());
    let e = entry.unwrap();
    assert_eq!((e.tx_id, e.delta, e.kind), (1, -1000, Kind::Debit));
    assert_eq!(e.description, b"aluguel".to_vec());
    let (reply, entry) = serve_request(&mut l, Command::Mutate, &mutate_payload(1, -1, b"d,x").unwrap(), b"t2".to_vec());
    assert_eq!((reply, entry), (Vec::new(), None));
    let (reply, _) = serve_request(&mut l, Command::Mutate, &mutate_payload(1, 1, b"q,x").unwrap(), b"t2".to_vec());
    assert_eq!(reply, Vec::<u8>::new());
    let (reply, _) = serve_request(&mut l, Command::Create, &create_payload(2, -80, 72).unwrap(), b"t".to_vec());
    assert_eq!(reply, b"2".to_vec());
    assert_eq!(l.get(2), Some((0, 80)));
    let (reply, _) = serve_request(&mut l, Command::Create, &create_payload(2, -80, 72).unwrap(), b"t".to_vec());
    assert_eq!(reply, Vec::<u8>::new());
}

#[test]
fn movement_bodies_and_replies() {
    assert_eq!(movement_body(b"c,salario"), Some((Kind::Credit, b"salario".to_vec())));
    assert_eq!(movement_body(b"d,"), Some((Kind::Debit, Vec::new())));
    assert_eq!(movement_body(b"x,a"), None);
    assert_eq!(movement_body(b"c,a,b"), None);
    assert_eq!(movement_body(b"cc,a"), None);
    assert_eq!(reply_balance(b"-70,1000,3,T"), Some(-70));
    assert_eq!(reply_balance(b"512"), Some(512));
    assert_eq!(reply_balance(b""), None);
}
