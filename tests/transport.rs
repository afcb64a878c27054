use ledger::pending::PendingTable;
use ledger::wire::{
    create_payload, decode_response, encode_request, encode_response, get_payload, mutate_payload,
    parse_balance_reply, Command,
};

#[test]
fn request_layout() {
    let payload = get_payload(3).unwrap();
    assert_eq!(payload, b"3       ".to_vec());
    let f = encode_request(Command::Get, 12, &payload).unwrap();
    assert_eq!(f.len(), 9 + 9 + 64);
    assert_eq!(&f[..18], b"GET      12       ");
    assert_eq!(&f[18..26], b"3       ");
    assert!(f[26..].iter().all(|b| *b == 0));
    assert_eq!(encode_request(Command::Get, 1_000_000_000, &payload), None);
    assert_eq!(encode_request(Command::Get, 1, &[1u8; 65]), None);
}

#[test]
fn command_payloads() {
    assert_eq!(create_payload(1, -1000, 72).unwrap(), b"1       -1000     72        ".to_vec());
    assert_eq!(mutate_payload(2, -50, b"d,pix").unwrap(), b"2       -50       d,pix".to_vec());
    assert_eq!(create_payload(123456789, 0, 0), None);
    assert_eq!(Command::Mutate.name(), b"MUTATE".to_vec());
    assert_eq!(Command::Create.name(), b"CREATE".to_vec());
}

#[test]
fn response_round_trip() {
    let f = encode_response(42, b"-999").unwrap();
    assert_eq!(f.len(), 30);
    assert_eq!(&f[..9], b"42       ");
    assert_eq!(decode_response(&f), Some((42, b"-999".to_vec())));
    assert_eq!(decode_response(&f[..29]), None);
    let mut bad = f.clone();
    bad[0] = b'x';
    assert_eq!(decode_response(&bad), None);
}

#[test]
fn balance_replies() {
    assert_eq!(parse_balance_reply(b"-999   "), Some(-999));
    assert_eq!(parse_balance_reply(b"  42\t"), Some(42));
    assert_eq!(parse_balance_reply(b"   "), None);
    assert_eq!(parse_balance_reply(b""), None);
    assert_eq!(parse_balance_reply(b"12a"), None);
}

#[test]
fn response_completes_once() {
    let mut t: PendingTable<&str> = PendingTable::new();
    let a = t.register("first").unwrap();
    let b = t.register("second").unwrap();
    assert_eq!((a, b), (1, 2));
    let f = encode_response(b, b"100").unwrap();
    assert_eq!(t.dispatch(&f), Some(("second", b"100".to_vec())));
    assert_eq!(t.dispatch(&f), None);
    let stray = encode_response(77, b"1").unwrap();
    assert_eq!(t.dispatch(&stray), None);
    assert_eq!(t.complete(a), Some("first"));
    assert_eq!(t.complete(a), None);
}
