//! Framing of the ledger protocol. A request datagram is the command name
//! and the correlation id, each left-justified in a field of nine bytes, then
//! the payload padded with NUL bytes to a fixed width. A response datagram is
//! the correlation id in nine bytes, then the result padded with NUL bytes.
use vstd::prelude::*;
use crate::decimal::{int_text, parse_int, push_int, parse_decimal, lemma_int_text_bytes, lemma_parse_int_text, is_digit};
use crate::tail_log::{is_space, push_all, trim_space_end, trim_space_end_exec};

verus! {

pub const COMMAND_WIDTH: usize = 9;

pub const ID_WIDTH: usize = 9;

pub const REQUEST_PAYLOAD_WIDTH: usize = 64;

pub const RESPONSE_PAYLOAD_WIDTH: usize = 21;

/// Largest correlation id: nine digits.
pub const MAX_CORRELATION_ID: u64 = 999999999;

pub const SPACE: u8 = 32;

/// The commands that the ledger service answers.
#[derive(Clone, Copy, Debug, PartialEq, Eq, Structural)]
pub enum Command {
    Create,
    Mutate,
    Get,
}

pub open spec fn command_name(c: Command) -> Seq<u8> {
    match c {
        Command::Create => seq![67u8, 82u8, 69u8, 65u8, 84u8, 69u8],
        Command::Mutate => seq![77u8, 85u8, 84u8, 65u8, 84u8, 69u8],
        Command::Get => seq![71u8, 69u8, 84u8],
    }
}

/// `s` followed by `fill` bytes up to `width`.
pub open spec fn pad_to(s: Seq<u8>, width: nat, fill: u8) -> Seq<u8> {
    s + Seq::new((width - s.len()) as nat, |i: int| fill)
}

/// `s` without its trailing `fill` bytes.
pub open spec fn trim_end(s: Seq<u8>, fill: u8) -> Seq<u8>
    decreases s.len(),
{
    if s.len() > 0 && s.last() == fill {
        trim_end(s.drop_last(), fill)
    } else {
        s
    }
}

pub open spec fn request_frame(c: Command, id: int, payload: Seq<u8>) -> Seq<u8> {
    pad_to(command_name(c), COMMAND_WIDTH as nat, SPACE) + pad_to(int_text(id), ID_WIDTH as nat, SPACE)
        + pad_to(payload, REQUEST_PAYLOAD_WIDTH as nat, 0u8)
}

pub open spec fn response_frame(id: int, payload: Seq<u8>) -> Seq<u8> {
    pad_to(int_text(id), ID_WIDTH as nat, SPACE) + pad_to(payload, RESPONSE_PAYLOAD_WIDTH as nat, 0u8)
}

/// A payload that a frame of width `width` carries and gives back intact.
pub open spec fn carried(p: Seq<u8>, width: nat) -> bool {
    p.len() <= width && (p.len() == 0 || p.last() != 0u8)
}

/// What a response datagram says: the correlation id and the result.
pub open spec fn decode_response_spec(f: Seq<u8>) -> Option<(int, Seq<u8>)> {
    if f.len() != ID_WIDTH + RESPONSE_PAYLOAD_WIDTH {
        None
    } else {
        match parse_int(trim_end(f.subrange(0, ID_WIDTH as int), SPACE)) {
            Some(id) => if 0 <= id <= MAX_CORRELATION_ID {
                Some((id, trim_end(f.subrange(ID_WIDTH as int, f.len() as int), 0u8)))
            } else {
                None
            },
            None => None,
        }
    }
}

pub proof fn lemma_trim_pad(s: Seq<u8>, width: nat, fill: u8)
    requires
        s.len() <= width,
        s.len() == 0 || s.last() != fill,
    ensures
        trim_end(pad_to(s, width, fill), fill) == s,
    decreases width - s.len(),
{
    let p = pad_to(s, width, fill);
    if width > s.len() {
        assert(p.drop_last() =~= pad_to(s, (width - 1) as nat, fill));
        lemma_trim_pad(s, (width - 1) as nat, fill);
    } else {
        assert(p =~= s);
    }
}

/// A response frame reads back as its correlation id and its result.
pub proof fn lemma_response_round_trip(id: int, payload: Seq<u8>)
    requires
        0 <= id <= MAX_CORRELATION_ID,
        carried(payload, RESPONSE_PAYLOAD_WIDTH as nat),
    ensures
        decode_response_spec(response_frame(id, payload)) == Some((id, payload)),
{
    lemma_int_text_len(id);
    lemma_int_text_bytes(id);
    let t = int_text(id);
    assert(!is_digit(SPACE));
    assert(t.last() != SPACE) by {
        assert(is_digit(t[t.len() - 1]));
    }
    lemma_trim_pad(t, ID_WIDTH as nat, SPACE);
    lemma_trim_pad(payload, RESPONSE_PAYLOAD_WIDTH as nat, 0u8);
    lemma_parse_int_text(id);
    let f = response_frame(id, payload);
    assert(f.subrange(0, ID_WIDTH as int) =~= pad_to(t, ID_WIDTH as nat, SPACE));
    assert(f.subrange(ID_WIDTH as int, f.len() as int) =~= pad_to(
        payload,
        RESPONSE_PAYLOAD_WIDTH as nat,
        0u8,
    ));
}

/// Ids of at most nine digits fit their field.
pub proof fn lemma_int_text_len(id: int)
    requires
        0 <= id <= MAX_CORRELATION_ID,
    ensures
        int_text(id).len() <= ID_WIDTH,
{
    reveal_with_fuel(crate::decimal::pow10, 10);
    assert(crate::decimal::pow10(9) == 1000000000);
    crate::decimal::lemma_nat_digits_len(id as nat, 9);
}

fn push_fill(out: &mut Vec<u8>, n: usize, fill: u8)
    ensures
        final(out)@ == old(out)@ + Seq::new(n as nat, |i: int| fill),
{
    let mut i: usize = 0;
    while i < n
        invariant
            i <= n,
            out@ == old(out)@ + Seq::new(i as nat, |j: int| fill),
        decreases n - i,
    {
        out.push(fill);
        i = i + 1;
        assert(out@ =~= old(out)@ + Seq::new(i as nat, |j: int| fill));
    }
}

/// Appends `s` padded with `fill` to `width` bytes; `false`, with `out`
/// unchanged, where `s` is longer than `width`.
fn push_padded(out: &mut Vec<u8>, s: &[u8], width: usize, fill: u8) -> (r: bool)
    ensures
        r == (s@.len() <= width),
        r ==> final(out)@ == old(out)@ + pad_to(s@, width as nat, fill),
        !r ==> final(out)@ == old(out)@,
{
    if s.len() > width {
        return false;
    }
    push_all(out, s);
    push_fill(out, width - s.len(), fill);
    assert(final(out)@ =~= old(out)@ + pad_to(s@, width as nat, fill)) by {
        assert(out@ =~= old(out)@ + pad_to(s@, width as nat, fill));
    }
    true
}

impl Command {
    pub fn name(&self) -> (r: Vec<u8>)
        ensures
            r@ == command_name(*self),
    {
        let r = match self {
            Command::Create => vec![67u8, 82u8, 69u8, 65u8, 84u8, 69u8],
            Command::Mutate => vec![77u8, 85u8, 84u8, 65u8, 84u8, 69u8],
            Command::Get => vec![71u8, 69u8, 84u8],
        };
        assert(r@ =~= command_name(*self));
        r
    }
}

/// The request datagram for `command` under `correlation_id`; `None` where
/// the id has more than nine digits or the payload is wider than its field.
pub fn encode_request(command: Command, correlation_id: u64, payload: &[u8]) -> (r: Option<Vec<u8>>)
    ensures
        match r {
            Some(f) => f@ == request_frame(command, correlation_id as int, payload@)
                && correlation_id <= MAX_CORRELATION_ID && payload@.len() <= REQUEST_PAYLOAD_WIDTH,
            None => correlation_id > MAX_CORRELATION_ID || payload@.len() > REQUEST_PAYLOAD_WIDTH,
        },
{
    if correlation_id > MAX_CORRELATION_ID || payload.len() > REQUEST_PAYLOAD_WIDTH {
        return None;
    }
    proof {
        lemma_int_text_len(correlation_id as int);
    }
    let mut out: Vec<u8> = Vec::new();
    let name = command.name();
    push_padded(&mut out, name.as_slice(), COMMAND_WIDTH, SPACE);
    let mut id_text: Vec<u8> = Vec::new();
    push_int(&mut id_text, correlation_id as i128);
    push_padded(&mut out, id_text.as_slice(), ID_WIDTH, SPACE);
    push_padded(&mut out, payload, REQUEST_PAYLOAD_WIDTH, 0u8);
    assert(out@ =~= request_frame(command, correlation_id as int, payload@));
    Some(out)
}

/// The response datagram carrying `payload` for `correlation_id`; `None`
/// where the id has more than nine digits or the payload is wider than its field.
pub fn encode_response(correlation_id: u64, payload: &[u8]) -> (r: Option<Vec<u8>>)
    ensures
        match r {
            Some(f) => f@ == response_frame(correlation_id as int, payload@)
                && correlation_id <= MAX_CORRELATION_ID && payload@.len() <= RESPONSE_PAYLOAD_WIDTH,
            None => correlation_id > MAX_CORRELATION_ID || payload@.len() > RESPONSE_PAYLOAD_WIDTH,
        },
{
    if correlation_id > MAX_CORRELATION_ID || payload.len() > RESPONSE_PAYLOAD_WIDTH {
        return None;
    }
    proof {
        lemma_int_text_len(correlation_id as int);
    }
    let mut out: Vec<u8> = Vec::new();
    let mut id_text: Vec<u8> = Vec::new();
    push_int(&mut id_text, correlation_id as i128);
    push_padded(&mut out, id_text.as_slice(), ID_WIDTH, SPACE);
    push_padded(&mut out, payload, RESPONSE_PAYLOAD_WIDTH, 0u8);
    assert(out@ =~= response_frame(correlation_id as int, payload@));
    Some(out)
}

/// `s[from..to]` without its trailing `fill` bytes, as a range end.
fn trimmed_end(s: &[u8], from: usize, to: usize, fill: u8) -> (r: usize)
    requires
        from <= to <= s.len(),
    ensures
        from <= r <= to,
        s@.subrange(from as int, r as int) == trim_end(s@.subrange(from as int, to as int), fill),
{
    let mut e = to;
    while e > from && s[e - 1] == fill
        invariant
            from <= e <= to <= s.len(),
            trim_end(s@.subrange(from as int, e as int), fill) == trim_end(
                s@.subrange(from as int, to as int),
                fill,
            ),
        decreases e,
    {
        assert(s@.subrange(from as int, e as int).drop_last() =~= s@.subrange(
            from as int,
            e - 1,
        ));
        e = e - 1;
    }
    e
}

/// Copies `s[from..to]`.
fn copy_range(s: &[u8], from: usize, to: usize) -> (r: Vec<u8>)
    requires
        from <= to <= s.len(),
    ensures
        r@ == s@.subrange(from as int, to as int),
{
    let mut r: Vec<u8> = Vec::new();
    let mut i = from;
    while i < to
        invariant
            from <= i <= to <= s.len(),
            r@ == s@.subrange(from as int, i as int),
        decreases to - i,
    {
        r.push(s[i]);
        i = i + 1;
        assert(r@ =~= s@.subrange(from as int, i as int));
    }
    r
}

/// Reads a response datagram: its correlation id and its result without the
/// NUL padding. `None` for a datagram of the wrong size or without an id.
pub fn decode_response(frame: &[u8]) -> (r: Option<(u64, Vec<u8>)>)
    ensures
        match r {
            Some((id, p)) => decode_response_spec(frame@) == Some((id as int, p@)),
            None => decode_response_spec(frame@) is None,
        },
{
    if frame.len() != ID_WIDTH + RESPONSE_PAYLOAD_WIDTH {
        return None;
    }
    let id_end = trimmed_end(frame, 0, ID_WIDTH, SPACE);
    let id_text = copy_range(frame, 0, id_end);
    match parse_decimal(id_text.as_slice()) {
        Some(id) => {
            if id < 0 || id > MAX_CORRELATION_ID as i128 {
                return None;
            }
            let p_end = trimmed_end(frame, ID_WIDTH, frame.len(), 0u8);
            let p = copy_range(frame, ID_WIDTH, p_end);
            Some((id as u64, p))
        },
        None => None,
    }
}

pub const ACCOUNT_FIELD_WIDTH: usize = 8;

pub const NUMBER_FIELD_WIDTH: usize = 10;

/// The text of `n` left-justified in `width` bytes.
pub open spec fn number_field(n: int, width: nat) -> Seq<u8> {
    pad_to(int_text(n), width, SPACE)
}

pub open spec fn fits_field(n: int, width: nat) -> bool {
    int_text(n).len() <= width
}

/// Appends the text of `n` left-justified in `width` bytes; `false`, with
/// `out` unchanged, where the text is wider.
fn push_number_field(out: &mut Vec<u8>, n: i128, width: usize) -> (r: bool)
    requires
        -18446744073709551615 <= n <= 18446744073709551615,
    ensures
        r == fits_field(n as int, width as nat),
        r ==> final(out)@ == old(out)@ + number_field(n as int, width as nat),
        !r ==> final(out)@ == old(out)@,
{
    let mut t: Vec<u8> = Vec::new();
    push_int(&mut t, n);
    push_padded(out, t.as_slice(), width, SPACE)
}

/// The payload of a `Create`: account id, minimum balance and record width.
pub fn create_payload(account_id: u64, min_value: i64, log_size: u64) -> (r: Option<Vec<u8>>)
    ensures
        match r {
            Some(p) => p@ == number_field(account_id as int, ACCOUNT_FIELD_WIDTH as nat)
                + number_field(min_value as int, NUMBER_FIELD_WIDTH as nat) + number_field(
                log_size as int,
                NUMBER_FIELD_WIDTH as nat,
            ),
            None => !fits_field(account_id as int, ACCOUNT_FIELD_WIDTH as nat) || !fits_field(
                min_value as int,
                NUMBER_FIELD_WIDTH as nat,
            ) || !fits_field(log_size as int, NUMBER_FIELD_WIDTH as nat),
        },
{
    let mut out: Vec<u8> = Vec::new();
    if !push_number_field(&mut out, account_id as i128, ACCOUNT_FIELD_WIDTH) {
        return None;
    }
    if !push_number_field(&mut out, min_value as i128, NUMBER_FIELD_WIDTH) {
        return None;
    }
    if !push_number_field(&mut out, log_size as i128, NUMBER_FIELD_WIDTH) {
        return None;
    }
    Some(out)
}

/// The text of a `Mutate` payload.
pub open spec fn mutate_payload_spec(account_id: int, value: int, description: Seq<u8>) -> Seq<u8> {
    number_field(account_id, ACCOUNT_FIELD_WIDTH as nat) + number_field(value, NUMBER_FIELD_WIDTH as nat)
        + description
}

/// The payload of a `Mutate`: account id, signed amount, then `description`.
pub fn mutate_payload(account_id: u64, value: i64, description: &[u8]) -> (r: Option<Vec<u8>>)
    ensures
        match r {
            Some(p) => p@ == mutate_payload_spec(account_id as int, value as int, description@),
            None => !fits_field(account_id as int, ACCOUNT_FIELD_WIDTH as nat) || !fits_field(
                value as int,
                NUMBER_FIELD_WIDTH as nat,
            ),
        },
{
    let mut out: Vec<u8> = Vec::new();
    if !push_number_field(&mut out, account_id as i128, ACCOUNT_FIELD_WIDTH) {
        return None;
    }
    if !push_number_field(&mut out, value as i128, NUMBER_FIELD_WIDTH) {
        return None;
    }
    push_all(&mut out, description);
    Some(out)
}

/// The payload of a `Get`: the account id.
pub fn get_payload(account_id: u64) -> (r: Option<Vec<u8>>)
    ensures
        match r {
            Some(p) => p@ == number_field(account_id as int, ACCOUNT_FIELD_WIDTH as nat),
            None => !fits_field(account_id as int, ACCOUNT_FIELD_WIDTH as nat),
        },
{
    let mut out: Vec<u8> = Vec::new();
    if !push_number_field(&mut out, account_id as i128, ACCOUNT_FIELD_WIDTH) {
        return None;
    }
    Some(out)
}

/// The balance that a reply states, read after its trailing spaces are cut.
pub open spec fn balance_reply_spec(p: Seq<u8>) -> Option<int> {
    match parse_int(trim_space_start(trim_space_end(p))) {
        Some(v) => if i64::MIN <= v <= i64::MAX {
            Some(v)
        } else {
            None
        },
        None => None,
    }
}

/// Reads the balance in a reply, whitespace around it cut; `None` for an
/// empty reply (a rejected mutation) or one that holds no integer.
pub fn parse_balance_reply(p: &[u8]) -> (r: Option<i64>)
    ensures
        match r {
            Some(v) => balance_reply_spec(p@) == Some(v as int),
            None => balance_reply_spec(p@) is None,
        },
{
    let t = trim_space_end_exec(p);
    let u = trim_space_start_exec(t.as_slice());
    match parse_decimal(u.as_slice()) {
        Some(v) => if v < i64::MIN as i128 || v > i64::MAX as i128 {
            None
        } else {
            Some(v as i64)
        },
        None => None,
    }
}

/// `s` without its leading whitespace.
pub open spec fn trim_space_start(s: Seq<u8>) -> Seq<u8>
    decreases s.len(),
{
    if s.len() > 0 && is_space(s[0]) {
        trim_space_start(s.drop_first())
    } else {
        s
    }
}

fn trim_space_start_exec(s: &[u8]) -> (r: Vec<u8>)
    ensures
        r@ == trim_space_start(s@),
{
    let mut k: usize = 0;
    assert(s@.subrange(0, s@.len() as int) =~= s@);
    while k < s.len() && (s[k] == 32u8 || (s[k] >= 9u8 && s[k] <= 13u8))
        invariant
            k <= s.len(),
            trim_space_start(s@.subrange(k as int, s@.len() as int)) == trim_space_start(s@),
        decreases s.len() - k,
    {
        assert(s@.subrange(k as int, s@.len() as int).drop_first() =~= s@.subrange(k + 1, s@.len() as int));
        k = k + 1;
    }
    copy_range(s, k, s.len())
}

/// The command whose name is `name`, if any.
pub open spec fn command_of(name: Seq<u8>) -> Option<Command> {
    if name == command_name(Command::Create) {
        Some(Command::Create)
    } else if name == command_name(Command::Mutate) {
        Some(Command::Mutate)
    } else if name == command_name(Command::Get) {
        Some(Command::Get)
    } else {
        None
    }
}

pub open spec fn request_size() -> int {
    COMMAND_WIDTH + ID_WIDTH + REQUEST_PAYLOAD_WIDTH
}

/// What a request datagram says: command, correlation id and payload
/// without its NUL padding.
pub open spec fn decode_request_spec(f: Seq<u8>) -> Option<(Command, int, Seq<u8>)> {
    if f.len() != request_size() {
        None
    } else {
        let c = command_of(trim_end(f.subrange(0, COMMAND_WIDTH as int), SPACE));
        let id = parse_int(trim_end(f.subrange(COMMAND_WIDTH as int, COMMAND_WIDTH + ID_WIDTH), SPACE));
        match (c, id) {
            (Some(c), Some(id)) => if 0 <= id <= MAX_CORRELATION_ID {
                Some((c, id, trim_end(f.subrange(COMMAND_WIDTH + ID_WIDTH, f.len() as int), 0u8)))
            } else {
                None
            },
            _ => None,
        }
    }
}

/// A request frame reads back as its command, its correlation id and its payload.
pub proof fn lemma_request_round_trip(c: Command, id: int, payload: Seq<u8>)
    requires
        0 <= id <= MAX_CORRELATION_ID,
        carried(payload, REQUEST_PAYLOAD_WIDTH as nat),
    ensures
        decode_request_spec(request_frame(c, id, payload)) == Some((c, id, payload)),
{
    lemma_int_text_len(id);
    lemma_int_text_bytes(id);
    let t = int_text(id);
    assert(!is_digit(SPACE));
    assert(t.last() != SPACE) by {
        assert(is_digit(t[t.len() - 1]));
    }
    let name = command_name(c);
    assert(name.last() != SPACE);
    lemma_trim_pad(name, COMMAND_WIDTH as nat, SPACE);
    lemma_trim_pad(t, ID_WIDTH as nat, SPACE);
    lemma_trim_pad(payload, REQUEST_PAYLOAD_WIDTH as nat, 0u8);
    lemma_parse_int_text(id);
    let f = request_frame(c, id, payload);
    assert(f.subrange(0, COMMAND_WIDTH as int) =~= pad_to(name, COMMAND_WIDTH as nat, SPACE));
    assert(f.subrange(COMMAND_WIDTH as int, COMMAND_WIDTH + ID_WIDTH) =~= pad_to(
        t,
        ID_WIDTH as nat,
        SPACE,
    ));
    assert(f.subrange(COMMAND_WIDTH + ID_WIDTH, f.len() as int) =~= pad_to(
        payload,
        REQUEST_PAYLOAD_WIDTH as nat,
        0u8,
    ));
    assert(command_name(Command::Create) != command_name(Command::Mutate)) by {
        assert(command_name(Command::Create)[0] != command_name(Command::Mutate)[0]);
    }
    assert(command_name(Command::Create) != command_name(Command::Get)) by {
        assert(command_name(Command::Create).len() != command_name(Command::Get).len());
    }
    assert(command_name(Command::Mutate) != command_name(Command::Get)) by {
        assert(command_name(Command::Mutate).len() != command_name(Command::Get).len());
    }
}

fn command_from_name(name: &[u8]) -> (r: Option<Command>)
    ensures
        r == command_of(name@),
{
    let create = Command::Create.name();
    let mutate = Command::Mutate.name();
    let get = Command::Get.name();
    if bytes_equal(name, create.as_slice()) {
        Some(Command::Create)
    } else if bytes_equal(name, mutate.as_slice()) {
        Some(Command::Mutate)
    } else if bytes_equal(name, get.as_slice()) {
        Some(Command::Get)
    } else {
        None
    }
}

fn bytes_equal(a: &[u8], b: &[u8]) -> (r: bool)
    ensures
        r == (a@ == b@),
{
    if a.len() != b.len() {
        return false;
    }
    let mut i: usize = 0;
    while i < a.len()
        invariant
            i <= a.len() == b.len(),
            a@.subrange(0, i as int) == b@.subrange(0, i as int),
        decreases a.len() - i,
    {
        if a[i] != b[i] {
            assert(a@[i as int] != b@[i as int]);
            return false;
        }
        i = i + 1;
        assert(a@.subrange(0, i as int) =~= a@.subrange(0, i - 1).push(a@[i - 1]));
        assert(b@.subrange(0, i as int) =~= b@.subrange(0, i - 1).push(b@[i - 1]));
    }
    assert(a@ =~= a@.subrange(0, i as int));
    assert(b@ =~= b@.subrange(0, i as int));
    true
}

/// Reads a request datagram: command, correlation id and payload without
/// its NUL padding. `None` for a datagram of the wrong size, an unknown
/// command or a missing id.
pub fn decode_request(frame: &[u8]) -> (r: Option<(Command, u64, Vec<u8>)>)
    ensures
        match r {
            Some((c, id, p)) => decode_request_spec(frame@) == Some((c, id as int, p@)),
            None => decode_request_spec(frame@) is None,
        },
{
    if frame.len() != COMMAND_WIDTH + ID_WIDTH + REQUEST_PAYLOAD_WIDTH {
        return None;
    }
    let name_end = trimmed_end(frame, 0, COMMAND_WIDTH, SPACE);
    let name = copy_range(frame, 0, name_end);
    let c = command_from_name(name.as_slice());
    let id_end = trimmed_end(frame, COMMAND_WIDTH, COMMAND_WIDTH + ID_WIDTH, SPACE);
    let id_text = copy_range(frame, COMMAND_WIDTH, id_end);
    let id = parse_decimal(id_text.as_slice());
    match (c, id) {
        (Some(c), Some(id)) => {
            if id < 0 || id > MAX_CORRELATION_ID as i128 {
                return None;
            }
            let p_end = trimmed_end(frame, COMMAND_WIDTH + ID_WIDTH, frame.len(), 0u8);
            let p = copy_range(frame, COMMAND_WIDTH + ID_WIDTH, p_end);
            Some((c, id as u64, p))
        },
        _ => None,
    }
}

proof fn lemma_number_field(n: int, width: nat)
    requires
        fits_field(n, width),
        -100_000_000_000_000_000_000 < n < 100_000_000_000_000_000_000,
    ensures
        parse_int(trim_end(number_field(n, width), SPACE)) == Some(n),
{
    lemma_int_text_bytes(n);
    let t = int_text(n);
    assert(!is_digit(SPACE));
    assert(t.last() != SPACE) by {
        assert(is_digit(t[t.len() - 1]) || (t.len() - 1 == 0 && t[0] == 45u8));
    }
    lemma_trim_pad(t, width, SPACE);
    lemma_parse_int_text(n);
}

/// A `Mutate` payload reads back as its account id, amount and rest.
pub proof fn lemma_mutate_payload_round_trip(account_id: int, value: int, rest: Seq<u8>)
    requires
        in_u64(account_id),
        fits_i64(value),
        fits_field(account_id, ACCOUNT_FIELD_WIDTH as nat),
        fits_field(value, NUMBER_FIELD_WIDTH as nat),
    ensures
        mutate_request_spec(mutate_payload_spec(account_id, value, rest)) == Some((account_id, value, rest)),
{
    let a = number_field(account_id, ACCOUNT_FIELD_WIDTH as nat);
    let b = number_field(value, NUMBER_FIELD_WIDTH as nat);
    let p = mutate_payload_spec(account_id, value, rest);
    lemma_number_field(account_id, ACCOUNT_FIELD_WIDTH as nat);
    lemma_number_field(value, NUMBER_FIELD_WIDTH as nat);
    assert(p.subrange(0, ACCOUNT_FIELD_WIDTH as int) =~= a);
    assert(p.subrange(ACCOUNT_FIELD_WIDTH as int, (ACCOUNT_FIELD_WIDTH + NUMBER_FIELD_WIDTH) as int) =~= b);
    assert(p.subrange((ACCOUNT_FIELD_WIDTH + NUMBER_FIELD_WIDTH) as int, p.len() as int) =~= rest);
}

/// The integer in `p[from..to]`, trailing spaces cut.
pub open spec fn field_int(p: Seq<u8>, from: int, to: int) -> Option<int> {
    if 0 <= from <= to <= p.len() {
        parse_int(trim_end(p.subrange(from, to), SPACE))
    } else {
        None
    }
}

fn read_field(p: &[u8], from: usize, to: usize) -> (r: Option<i128>)
    requires
        from <= to <= p.len(),
    ensures
        match r {
            Some(v) => field_int(p@, from as int, to as int) == Some(v as int),
            None => field_int(p@, from as int, to as int) is None,
        },
{
    let end = trimmed_end(p, from, to, SPACE);
    let t = copy_range(p, from, end);
    parse_decimal(t.as_slice())
}

pub open spec fn in_u64(v: int) -> bool {
    0 <= v <= u64::MAX
}

pub open spec fn fits_i64(v: int) -> bool {
    i64::MIN <= v <= i64::MAX
}

/// What a `Get` payload asks for: the account id.
pub open spec fn get_request_spec(p: Seq<u8>) -> Option<int> {
    match field_int(p, 0, ACCOUNT_FIELD_WIDTH as int) {
        Some(id) => if p.len() == ACCOUNT_FIELD_WIDTH && in_u64(id) {
            Some(id)
        } else {
            None
        },
        None => None,
    }
}

/// What a `Create` payload asks for: account id, minimum balance, record width.
pub open spec fn create_request_spec(p: Seq<u8>) -> Option<(int, int, int)> {
    let w = ACCOUNT_FIELD_WIDTH + NUMBER_FIELD_WIDTH;
    match (field_int(p, 0, ACCOUNT_FIELD_WIDTH as int), field_int(p, ACCOUNT_FIELD_WIDTH as int, w), field_int(p, w, w + NUMBER_FIELD_WIDTH)) {
        (Some(id), Some(min), Some(size)) => if p.len() == w + NUMBER_FIELD_WIDTH && in_u64(id) && fits_i64(min) && in_u64(size) {
            Some((id, min, size))
        } else {
            None
        },
        _ => None,
    }
}

/// What a `Mutate` payload asks for: account id, signed amount, and the rest.
pub open spec fn mutate_request_spec(p: Seq<u8>) -> Option<(int, int, Seq<u8>)> {
    let w = ACCOUNT_FIELD_WIDTH + NUMBER_FIELD_WIDTH;
    match (field_int(p, 0, ACCOUNT_FIELD_WIDTH as int), field_int(p, ACCOUNT_FIELD_WIDTH as int, w)) {
        (Some(id), Some(v)) => if in_u64(id) && fits_i64(v) {
            Some((id, v, p.subrange(w as int, p.len() as int)))
        } else {
            None
        },
        _ => None,
    }
}

pub fn read_get_request(p: &[u8]) -> (r: Option<u64>)
    ensures
        match r {
            Some(id) => get_request_spec(p@) == Some(id as int),
            None => get_request_spec(p@) is None,
        },
{
    if p.len() != ACCOUNT_FIELD_WIDTH {
        return None;
    }
    match read_field(p, 0, ACCOUNT_FIELD_WIDTH) {
        Some(id) => if id < 0 || id > u64::MAX as i128 {
            None
        } else {
            Some(id as u64)
        },
        None => None,
    }
}

pub fn read_create_request(p: &[u8]) -> (r: Option<(u64, i64, u64)>)
    ensures
        match r {
            Some((id, min, size)) => create_request_spec(p@) == Some((id as int, min as int, size as int)),
            None => create_request_spec(p@) is None,
        },
{
    let w = ACCOUNT_FIELD_WIDTH + NUMBER_FIELD_WIDTH;
    if p.len() != w + NUMBER_FIELD_WIDTH {
        return None;
    }
    let id = read_field(p, 0, ACCOUNT_FIELD_WIDTH);
    let min = read_field(p, ACCOUNT_FIELD_WIDTH, w);
    let size = read_field(p, w, w + NUMBER_FIELD_WIDTH);
    match (id, min, size) {
        (Some(id), Some(min), Some(size)) => {
            if id < 0 || id > u64::MAX as i128 || min < i64::MIN as i128 || min > i64::MAX as i128
                || size < 0 || size > u64::MAX as i128 {
                None
            } else {
                Some((id as u64, min as i64, size as u64))
            }
        },
        _ => None,
    }
}

pub fn read_mutate_request(p: &[u8]) -> (r: Option<(u64, i64, Vec<u8>)>)
    ensures
        match r {
            Some((id, v, rest)) => mutate_request_spec(p@) == Some((id as int, v as int, rest@)),
            None => mutate_request_spec(p@) is None,
        },
{
    let w = ACCOUNT_FIELD_WIDTH + NUMBER_FIELD_WIDTH;
    if p.len() < w {
        return None;
    }
    let id = read_field(p, 0, ACCOUNT_FIELD_WIDTH);
    let v = read_field(p, ACCOUNT_FIELD_WIDTH, w);
    match (id, v) {
        (Some(id), Some(v)) => {
            if id < 0 || id > u64::MAX as i128 || v < i64::MIN as i128 || v > i64::MAX as i128 {
                None
            } else {
                Some((id as u64, v as i64, copy_range(p, w, p.len())))
            }
        },
        _ => None,
    }
}

} // verus!
