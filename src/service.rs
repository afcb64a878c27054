//! The decisions of the front-end and ledger-service handlers: which
//! requests are taken, with what signed amount, and the text of the replies.
use vstd::prelude::*;
use crate::decimal::{int_text, is_digit, lemma_int_text_bytes, lemma_parse_int_text, parse_decimal, parse_int, push_int};
use crate::ledger::{entry_of, kind_code, slot, step, AccountView, EntryView, Kind, Ledger, LedgerEntry};
use crate::tail_log::{is_space, lemma_split_nonempty, opt_view, push_all, split_commas, split_fields, trim_space_end};
use crate::wire::{
    balance_reply_spec, fits_field, lemma_mutate_payload_round_trip, mutate_payload_spec,
    trim_space_start, ACCOUNT_FIELD_WIDTH, NUMBER_FIELD_WIDTH,
    create_request_spec, get_request_spec, mutate_request_spec, read_create_request,
    read_get_request, read_mutate_request, Command,
};

verus! {

/// Longest description, in bytes.
pub const MAX_DESCRIPTION_LEN: usize = 10;

/// Why a transaction request is refused before it reaches the ledger.
#[derive(Clone, Copy, Debug, PartialEq, Eq, Structural)]
pub enum RequestError {
    /// The id is above every account's id.
    NotFound,
    /// The id is 0, or the kind or the description is not acceptable.
    Unprocessable,
}

/// The index of account `account_id` among `n_accounts` accounts numbered from 1.
pub open spec fn account_index_spec(account_id: int, n_accounts: int) -> Option<int> {
    if 1 <= account_id <= n_accounts {
        Some(account_id - 1)
    } else {
        None
    }
}

pub fn account_index(account_id: u64, n_accounts: usize) -> (r: Option<usize>)
    ensures
        match r {
            Some(i) => account_index_spec(account_id as int, n_accounts as int) == Some(i as int),
            None => account_index_spec(account_id as int, n_accounts as int) is None,
        },
{
    if account_id >= 1 && account_id <= n_accounts as u64 {
        Some((account_id - 1) as usize)
    } else {
        None
    }
}

/// What a transaction request asks of the ledger: the account's index, the
/// amount with the kind folded into its sign, and the kind.
pub open spec fn transaction_spec(
    account_id: int,
    n_accounts: int,
    value: int,
    kind: Seq<u8>,
    description: Seq<u8>,
) -> Result<(int, int, Kind), RequestError> {
    if account_id > n_accounts {
        Err(RequestError::NotFound)
    } else {
    match account_index_spec(account_id, n_accounts) {
        None => Err(RequestError::Unprocessable),
        Some(i) => if description.len() < 1 || description.len() > MAX_DESCRIPTION_LEN {
            Err(RequestError::Unprocessable)
        } else if kind == seq![kind_code(Kind::Debit)] {
            Ok((i, -value, Kind::Debit))
        } else if kind == seq![kind_code(Kind::Credit)] {
            Ok((i, value, Kind::Credit))
        } else {
            Err(RequestError::Unprocessable)
        },
    }
    }
}

/// Checks a transaction request for account `account_id` of `n_accounts`:
/// a description of 1 to 10 bytes and a kind of `d` (debit: the amount is
/// taken) or `c` (credit: it is added).
pub fn transaction_request(
    account_id: u64,
    n_accounts: usize,
    value: i32,
    kind: &[u8],
    description: &[u8],
) -> (r: Result<(usize, i64, Kind), RequestError>)
    ensures
        match r {
            Ok((i, d, k)) => transaction_spec(
                account_id as int,
                n_accounts as int,
                value as int,
                kind@,
                description@,
            ) == Ok::<(int, int, Kind), RequestError>((i as int, d as int, k)),
            Err(e) => transaction_spec(
                account_id as int,
                n_accounts as int,
                value as int,
                kind@,
                description@,
            ) == Err::<(int, int, Kind), RequestError>(e),
        },
{
    if account_id > n_accounts as u64 {
        return Err(RequestError::NotFound);
    }
    let i = match account_index(account_id, n_accounts) {
        Some(i) => i,
        None => return Err(RequestError::Unprocessable),
    };
    if description.len() < 1 || description.len() > MAX_DESCRIPTION_LEN {
        return Err(RequestError::Unprocessable);
    }
    if kind.len() == 1 && kind[0] == 100u8 {
        assert(kind@ =~= seq![kind_code(Kind::Debit)]);
        Ok((i, -(value as i64), Kind::Debit))
    } else if kind.len() == 1 && kind[0] == 99u8 {
        assert(kind@ =~= seq![kind_code(Kind::Credit)]);
        Ok((i, value as i64, Kind::Credit))
    } else {
        assert(kind@ != seq![kind_code(Kind::Debit)] && kind@ != seq![kind_code(Kind::Credit)]) by {
            if kind@ == seq![kind_code(Kind::Debit)] || kind@ == seq![kind_code(Kind::Credit)] {
                assert(kind@.len() == 1);
            }
        }
        Err(RequestError::Unprocessable)
    }
}

/// The balance a statement shows when its latest entries are `entries`
/// (most recent first): the balance after the most recent one; `None` for
/// no entries, where the ledger has to be asked.
pub fn statement_balance(entries: &Vec<LedgerEntry>) -> (r: Option<i64>)
    ensures
        match r {
            Some(b) => entries@.len() > 0 && b == entries@[0].balance_after,
            None => entries@.len() == 0,
        },
{
    if entries.len() > 0 {
        Some(entries[0].balance_after)
    } else {
        None
    }
}

/// The reply to a balance query: `balance,limit`.
pub open spec fn balance_text(balance: int, limit: int) -> Seq<u8> {
    int_text(balance) + seq![44u8] + int_text(limit)
}

/// The reply to an accepted movement: `balance,limit,tx_id,occurred_at`.
pub open spec fn movement_text(e: EntryView, limit: int) -> Seq<u8> {
    int_text(e.balance_after) + seq![44u8] + int_text(limit) + seq![44u8] + int_text(e.tx_id)
        + seq![44u8] + e.occurred_at
}

pub fn balance_reply(balance: i64, limit: i64) -> (r: Vec<u8>)
    ensures
        r@ == balance_text(balance as int, limit as int),
{
    let mut out: Vec<u8> = Vec::new();
    push_int(&mut out, balance as i128);
    out.push(44u8);
    push_int(&mut out, limit as i128);
    assert(out@ =~= balance_text(balance as int, limit as int));
    out
}

pub fn movement_reply(e: &LedgerEntry, limit: i64) -> (r: Vec<u8>)
    ensures
        r@ == movement_text(e@, limit as int),
{
    let mut out: Vec<u8> = Vec::new();
    push_int(&mut out, e.balance_after as i128);
    out.push(44u8);
    push_int(&mut out, limit as i128);
    out.push(44u8);
    push_int(&mut out, e.tx_id as i128);
    out.push(44u8);
    push_all(&mut out, e.occurred_at.as_slice());
    assert(out@ =~= movement_text(e@, limit as int));
    out
}

/// What a movement request's body `kind,description` asks for.
pub open spec fn movement_body_spec(body: Seq<u8>) -> Option<(Kind, Seq<u8>)> {
    let f = split_fields(body);
    if f.len() == 2 && f[0] == seq![kind_code(Kind::Credit)] {
        Some((Kind::Credit, f[1]))
    } else if f.len() == 2 && f[0] == seq![kind_code(Kind::Debit)] {
        Some((Kind::Debit, f[1]))
    } else {
        None
    }
}

/// Reads a movement request's body: a kind code, a comma, the description.
pub fn movement_body(body: &[u8]) -> (r: Option<(Kind, Vec<u8>)>)
    ensures
        match r {
            Some((k, d)) => movement_body_spec(body@) == Some((k, d@)),
            None => movement_body_spec(body@) is None,
        },
{
    let f = split_commas(body, 0, body.len());
    proof {
        assert(body@.subrange(0, body@.len() as int) =~= body@);
    }
    if f.len() != 2 || f[0].len() != 1 {
        proof {
            if f@.len() == 2 {
                assert(f@[0]@ == split_fields(body@)[0]);
            }
        }
        return None;
    }
    let ghost f0 = split_fields(body@)[0];
    assert(f@[0]@ == f0 && f@[1]@ == split_fields(body@)[1]);
    let code = f[0][0];
    assert(f0 == seq![code]);
    let d = f[1].clone();
    if code == 99u8 {
        Some((Kind::Credit, d))
    } else if code == 100u8 {
        Some((Kind::Debit, d))
    } else {
        assert(f0 != seq![kind_code(Kind::Credit)] && f0 != seq![kind_code(Kind::Debit)]) by {
            if f0 == seq![kind_code(Kind::Credit)] {
                assert(f0[0] == 99u8);
            }
            if f0 == seq![kind_code(Kind::Debit)] {
                assert(f0[0] == 100u8);
            }
        }
        None
    }
}

/// The balance at the head of a movement reply: its text before the first
/// comma, read as an integer.
pub open spec fn reply_balance_spec(s: Seq<u8>) -> Option<int> {
    match parse_int(split_fields(s)[0]) {
        Some(v) => if i64::MIN <= v <= i64::MAX {
            Some(v)
        } else {
            None
        },
        None => None,
    }
}

/// Reads the balance from a movement reply; `None` for an empty reply (a
/// rejected movement) or one that does not start with an integer.
pub fn reply_balance(body: &[u8]) -> (r: Option<i64>)
    ensures
        match r {
            Some(v) => reply_balance_spec(body@) == Some(v as int),
            None => reply_balance_spec(body@) is None,
        },
{
    let f = split_commas(body, 0, body.len());
    proof {
        lemma_split_nonempty(body@);
        assert(body@.subrange(0, body@.len() as int) =~= body@);
        assert(f@[0]@ == split_fields(body@)[0]);
    }
    match parse_decimal(f[0].as_slice()) {
        Some(v) => if v < i64::MIN as i128 || v > i64::MAX as i128 {
            None
        } else {
            Some(v as i64)
        },
        None => None,
    }
}

/// What the ledger service does with a request: the accounts after it, the
/// reply payload, and the entry to log when a mutation is accepted. A
/// request it cannot serve gets an empty reply and changes nothing.
pub open spec fn serve_spec(
    l: Seq<AccountView>,
    c: Command,
    p: Seq<u8>,
    occurred_at: Seq<u8>,
) -> (Seq<AccountView>, Seq<u8>, Option<EntryView>) {
    let none = (l, Seq::<u8>::empty(), None::<EntryView>);
    match c {
        Command::Get => match get_request_spec(p) {
            Some(id) => match slot(id, l.len() as int) {
                Some(i) => (l, int_text(l[i].balance), None),
                None => none,
            },
            None => none,
        },
        Command::Create => match create_request_spec(p) {
            Some((id, min, _)) => if id == l.len() + 1 && -i64::MAX <= min <= 0 {
                (
                    l.push(AccountView { balance: 0, credit_limit: -min, next_tx_id: 1, version: 0 }),
                    int_text(id),
                    None,
                )
            } else {
                none
            },
            None => none,
        },
        Command::Mutate => match mutate_request_spec(p) {
            Some((id, v, rest)) => match movement_body_spec(rest) {
                Some((k, d)) => match slot(id, l.len() as int) {
                    Some(i) => match step(l[i], v) {
                        Ok(n) => (
                            l.update(i, n),
                            int_text(n.balance),
                            Some(entry_of(l[i], v, k, d, occurred_at)),
                        ),
                        Err(_) => none,
                    },
                    None => none,
                },
                None => none,
            },
            None => none,
        },
    }
}

/// Serves one request of the ledger protocol on `ledger`: `Get` replies
/// with the balance, `Create` opens the next account and replies with its
/// id, `Mutate` (payload: account, amount, `kind,description`) applies the
/// amount and replies with the new balance, handing back the entry to log.
pub fn serve_request(ledger: &mut Ledger, c: Command, payload: &[u8], occurred_at: Vec<u8>) -> (r: (
    Vec<u8>,
    Option<LedgerEntry>,
))
    requires
        old(ledger).wf(),
    ensures
        final(ledger).wf(),
        (final(ledger)@, r.0@, opt_view(r.1)) == serve_spec(old(ledger)@, c, payload@, occurred_at@),
{
    let mut reply: Vec<u8> = Vec::new();
    match c {
        Command::Get => {
            if let Some(id) = read_get_request(payload) {
                if let Some((balance, _)) = ledger.get(id) {
                    push_int(&mut reply, balance as i128);
                    assert(reply@ =~= int_text(balance as int));
                }
            }
            (reply, None)
        },
        Command::Create => {
            if let Some((id, min, _)) = read_create_request(payload) {
                if min <= 0 && min >= -i64::MAX && ledger.open_account(id, -min) {
                    push_int(&mut reply, id as i128);
                    assert(reply@ =~= int_text(id as int));
                }
            }
            (reply, None)
        },
        Command::Mutate => {
            let (id, v, rest) = match read_mutate_request(payload) {
                Some(m) => m,
                None => return (reply, None),
            };
            let (k, d) = match movement_body(rest.as_slice()) {
                Some(m) => m,
                None => return (reply, None),
            };
            match ledger.apply(id, v, k, d, occurred_at) {
                Ok(e) => {
                    push_int(&mut reply, e.balance_after as i128);
                    assert(reply@ =~= int_text(e.balance_after as int));
                    (reply, Some(e))
                },
                Err(_) => (reply, None),
            }
        },
    }
}

/// A balance reply reads back as the balance it was written from.
pub proof fn lemma_balance_reply_text(b: int)
    requires
        i64::MIN <= b <= i64::MAX,
    ensures
        balance_reply_spec(int_text(b)) == Some(b),
{
    let t = int_text(b);
    lemma_int_text_bytes(b);
    lemma_parse_int_text(b);
    assert(!is_space(t.last())) by {
        assert(is_digit(t[t.len() - 1]) || t[t.len() - 1] == 45u8);
    }
    assert(trim_space_end(t) == t);
    assert(!is_space(t[0])) by {
        assert(is_digit(t[0]) || t[0] == 45u8);
    }
    assert(trim_space_start(t) == t);
}

/// A balance that the ledger service acknowledges for a movement, as the
/// caller reads it back, is the account's new balance and is never below
/// minus its credit limit; a refused movement gives no balance to read.
pub proof fn lemma_acknowledged_balance_within_limit(l: Seq<AccountView>, p: Seq<u8>, occurred_at: Seq<u8>)
    requires
        forall|i: int| 0 <= i < l.len() ==> (#[trigger] l[i]).inv(),
    ensures
        ({
            let (l2, reply, _) = serve_spec(l, Command::Mutate, p, occurred_at);
            balance_reply_spec(reply) matches Some(b) ==> {
                &&& mutate_request_spec(p) is Some
                &&& slot(mutate_request_spec(p).unwrap().0, l.len() as int) is Some
                &&& {
                    let i = slot(mutate_request_spec(p).unwrap().0, l.len() as int).unwrap();
                    b == l2[i].balance && b >= -l[i].credit_limit && l2[i].credit_limit == l[i].credit_limit
                }
            }
        }),
{
    let (l2, reply, _) = serve_spec(l, Command::Mutate, p, occurred_at);
    if reply.len() == 0 {
        assert(parse_int(trim_space_start(trim_space_end(reply))) is None);
    }
    if let Some((id, v, rest)) = mutate_request_spec(p) {
        if let Some((k, d)) = movement_body_spec(rest) {
            if let Some(i) = slot(id, l.len() as int) {
                if let Ok(n) = step(l[i], v) {
                    assert(n.inv());
                    lemma_balance_reply_text(n.balance);
                    assert(l2[i] == n);
                }
            }
        }
    }
}

/// At the overdraft boundary (balance equal to minus the credit limit), a
/// movement of -1 sent over the wire is refused, with no balance in the reply
/// and the accounts unchanged, and a movement of +1 is accepted with the
/// reply reading back one above the boundary.
pub proof fn lemma_overdraft_boundary(
    l: Seq<AccountView>,
    id: int,
    body: Seq<u8>,
    occurred_at: Seq<u8>,
)
    requires
        forall|i: int| 0 <= i < l.len() ==> (#[trigger] l[i]).inv(),
        1 <= id <= l.len(),
        id <= u64::MAX,
        fits_field(id, ACCOUNT_FIELD_WIDTH as nat),
        l[id - 1].balance == -l[id - 1].credit_limit,
        l[id - 1].next_tx_id < u64::MAX,
        l[id - 1].version < u64::MAX,
        movement_body_spec(body) is Some,
    ensures
        ({
            let (l_minus, reply_minus, entry_minus) = serve_spec(l, Command::Mutate, mutate_payload_spec(id, -1, body), occurred_at);
            &&& l_minus == l
            &&& entry_minus is None
            &&& balance_reply_spec(reply_minus) is None
        }),
        ({
            let (l_plus, reply_plus, entry_plus) = serve_spec(l, Command::Mutate, mutate_payload_spec(id, 1, body), occurred_at);
            &&& balance_reply_spec(reply_plus) == Some(-l[id - 1].credit_limit + 1)
            &&& l_plus[id - 1].balance == -l[id - 1].credit_limit + 1
            &&& entry_plus is Some
        }),
{
    assert(fits_field(-1, NUMBER_FIELD_WIDTH as nat)) by {
        reveal_with_fuel(crate::decimal::nat_digits, 2);
    }
    assert(fits_field(1, NUMBER_FIELD_WIDTH as nat)) by {
        reveal_with_fuel(crate::decimal::nat_digits, 2);
    }
    lemma_mutate_payload_round_trip(id, -1, body);
    lemma_mutate_payload_round_trip(id, 1, body);
    assert(l[id - 1].inv());
    assert(parse_int(trim_space_start(trim_space_end(Seq::<u8>::empty()))) is None);
    lemma_balance_reply_text(-l[id - 1].credit_limit + 1);
}

} // verus!
