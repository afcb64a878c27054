//! The tail log: one fixed-width record per accepted mutation, read back from
//! the end of the file so that a statement never scans the whole log.
//!
//! A record is the text `tx_id,delta,balance_after,occurred_at,kind,description`,
//! NUL bytes before it up to the account's record width, and a newline after.
use vstd::prelude::*;
use crate::decimal::{int_text, parse_int, push_int, parse_decimal, is_digit, lemma_int_text_bytes, lemma_parse_int_text};
use crate::ledger::{entry_of, kind_code, step, AccountView, EntryView, Kind, LedgerEntry};

verus! {

pub open spec fn comma() -> Seq<u8> {
    seq![44u8]
}

pub open spec fn nuls(n: nat) -> Seq<u8> {
    Seq::new(n, |i: int| 0u8)
}

/// The text of a record, before its padding and newline.
pub open spec fn record_text(e: EntryView) -> Seq<u8> {
    int_text(e.tx_id) + comma() + int_text(e.delta) + comma() + int_text(e.balance_after) + comma()
        + e.occurred_at + comma() + seq![kind_code(e.kind)] + comma() + e.description
}

/// The `width` bytes of a record: NUL padding, the text, a newline.
pub open spec fn record_bytes(e: EntryView, width: nat) -> Seq<u8> {
    nuls((width - 1 - record_text(e).len()) as nat) + record_text(e) + seq![10u8]
}

/// The record of `e` at `width` bytes, if its text fits.
pub open spec fn encode_spec(e: EntryView, width: nat) -> Option<Seq<u8>> {
    if record_text(e).len() + 1 <= width {
        Some(record_bytes(e, width))
    } else {
        None
    }
}

/// An entry that a log of record width `width` can hold and give back.
pub open spec fn loggable(e: EntryView, width: nat) -> bool {
    &&& 0 <= e.tx_id <= u64::MAX
    &&& i64::MIN <= e.delta <= i64::MAX
    &&& i64::MIN <= e.balance_after <= i64::MAX
    &&& !e.occurred_at.contains(44u8)
    &&& !e.description.contains(44u8)
    &&& (e.description.len() == 0 || !is_space(e.description.last()))
    &&& record_text(e).len() + 1 <= width
}

/// ASCII whitespace: space, tab, line feed, vertical tab, form feed, return.
pub open spec fn is_space(b: u8) -> bool {
    b == 32u8 || (9u8 <= b <= 13u8)
}

/// `s` without its trailing whitespace.
pub open spec fn trim_space_end(s: Seq<u8>) -> Seq<u8>
    decreases s.len(),
{
    if s.len() > 0 && is_space(s.last()) {
        trim_space_end(s.drop_last())
    } else {
        s
    }
}

/// `s` without its leading padding: NUL bytes and spaces.
pub open spec fn strip_nul(s: Seq<u8>) -> Seq<u8>
    decreases s.len(),
{
    if s.len() > 0 && (s[0] == 0u8 || s[0] == 32u8) {
        strip_nul(s.drop_first())
    } else {
        s
    }
}

/// `s` cut at each comma.
pub open spec fn split_fields(s: Seq<u8>) -> Seq<Seq<u8>>
    decreases s.len(),
{
    if s.len() == 0 {
        seq![Seq::empty()]
    } else {
        let prev = split_fields(s.drop_last());
        if s.last() == 44u8 {
            prev.push(Seq::empty())
        } else {
            prev.update(prev.len() - 1, prev.last().push(s.last()))
        }
    }
}

pub open spec fn in_i64(v: int) -> bool {
    i64::MIN <= v <= i64::MAX
}

/// The entry that a record holds; `None` for a malformed record.
pub open spec fn decode_spec(c: Seq<u8>) -> Option<EntryView> {
    if c.len() == 0 || c.last() != 10u8 {
        None
    } else {
        let f = split_fields(strip_nul(c.drop_last()));
        if f.len() != 6 {
            None
        } else {
            match (parse_int(f[0]), parse_int(f[1]), parse_int(f[2])) {
                (Some(tx), Some(d), Some(b)) => {
                    if 0 <= tx <= u64::MAX && in_i64(d) && in_i64(b) && f[4].len() == 1 && (
                    f[4][0] == 99u8 || f[4][0] == 100u8) {
                        Some(
                            EntryView {
                                tx_id: tx,
                                delta: d,
                                balance_after: b,
                                occurred_at: f[3],
                                kind: if f[4][0] == 99u8 {
                                    Kind::Credit
                                } else {
                                    Kind::Debit
                                },
                                description: trim_space_end(f[5]),
                            },
                        )
                    } else {
                        None
                    }
                },
                _ => None,
            }
        }
    }
}

/// The entries of the first `n` records of `w`, in file order, malformed ones left out.
pub open spec fn decode_first(w: Seq<u8>, width: nat, n: nat) -> Seq<EntryView>
    decreases n,
{
    if n == 0 {
        Seq::empty()
    } else {
        let prev = decode_first(w, width, (n - 1) as nat);
        match decode_spec(w.subrange((n - 1) * width, (n * width) as int)) {
            Some(e) => prev.push(e),
            None => prev,
        }
    }
}

/// How many bytes of a window that starts at file offset `start` come
/// before its first record boundary; records start at multiples of `width`.
pub open spec fn lead(start: nat, width: nat, len: nat) -> nat {
    let k = ((width - (start % width) as int) % (width as int)) as nat;
    if k < len {
        k
    } else {
        len
    }
}

/// The entries of the complete records of a window read from file offset
/// `start`, in file order, malformed ones left out.
pub open spec fn decode_window(w: Seq<u8>, width: nat, start: nat) -> Seq<EntryView> {
    let k = lead(start, width, w.len());
    decode_first(w.subrange(k as int, w.len() as int), width, ((w.len() - k) / width as int) as nat)
}

/// The entries of the complete records of a window read from file offset
/// `start`, most recent first.
pub open spec fn tail_spec(w: Seq<u8>, width: nat, start: nat) -> Seq<EntryView> {
    decode_window(w, width, start).reverse()
}

/// Where the window of the last `max` records starts, `file_len - max * width`
/// or the start of a shorter log, and its length, up to the end of the log.
pub open spec fn window_spec(file_len: nat, width: nat, max: nat) -> (nat, nat) {
    let start: nat = if max * width >= file_len {
        0
    } else {
        (file_len - max * width) as nat
    };
    (start, (file_len - start) as nat)
}

/// The log that appending `es` in order leaves.
pub open spec fn log_bytes(es: Seq<EntryView>, width: nat) -> Seq<u8>
    decreases es.len(),
{
    if es.len() == 0 {
        Seq::empty()
    } else {
        log_bytes(es.drop_last(), width) + record_bytes(es.last(), width)
    }
}

pub open spec fn opt_view(o: Option<LedgerEntry>) -> Option<EntryView> {
    match o {
        Some(e) => Some(e@),
        None => None,
    }
}

pub open spec fn entries_view(v: Seq<LedgerEntry>) -> Seq<EntryView> {
    v.map_values(|e: LedgerEntry| e@)
}

pub open spec fn fields_view(v: Seq<Vec<u8>>) -> Seq<Seq<u8>> {
    v.map_values(|f: Vec<u8>| f@)
}

// ----- lemmas on fields

pub proof fn lemma_split_nonempty(s: Seq<u8>)
    ensures
        split_fields(s).len() >= 1,
    decreases s.len(),
{
    if s.len() > 0 {
        lemma_split_nonempty(s.drop_last());
    }
}

proof fn lemma_split_no_comma(s: Seq<u8>)
    requires
        !s.contains(44u8),
    ensures
        split_fields(s) == seq![s],
    decreases s.len(),
{
    if s.len() > 0 {
        let p = s.drop_last();
        assert(!p.contains(44u8)) by {
            if p.contains(44u8) {
                let i = choose|i: int| 0 <= i < p.len() && p[i] == 44u8;
                assert(s[i] == 44u8);
            }
        }
        lemma_split_no_comma(p);
        assert(s[s.len() - 1] != 44u8);
        assert(p.push(s.last()) =~= s);
        assert(seq![p].update(0, p.push(s.last())) =~= seq![s]);
    } else {
        assert(s =~= Seq::<u8>::empty());
    }
}

proof fn lemma_split_concat(a: Seq<u8>, b: Seq<u8>)
    ensures
        split_fields(a + comma() + b) == split_fields(a) + split_fields(b),
    decreases b.len(),
{
    lemma_split_nonempty(a);
    if b.len() == 0 {
        assert((a + comma() + b).drop_last() =~= a);
        assert(split_fields(b) == seq![Seq::<u8>::empty()]);
        assert(split_fields(a).push(Seq::empty()) =~= split_fields(a) + seq![Seq::<u8>::empty()]);
    } else {
        let s = a + comma() + b;
        let bp = b.drop_last();
        assert(s.drop_last() =~= a + comma() + bp);
        lemma_split_concat(a, bp);
        lemma_split_nonempty(bp);
        let pa = split_fields(a);
        let pb = split_fields(bp);
        assert(s.last() == b.last());
        if b.last() == 44u8 {
            assert((pa + pb).push(Seq::empty()) =~= pa + pb.push(Seq::empty()));
        } else {
            let q = pa + pb;
            assert(q.update(q.len() - 1, q.last().push(b.last())) =~= pa + pb.update(
                pb.len() - 1,
                pb.last().push(b.last()),
            ));
        }
    }
}

proof fn lemma_trim_space_end(s: Seq<u8>)
    requires
        s.len() == 0 || !is_space(s.last()),
    ensures
        trim_space_end(s) == s,
{
}

proof fn lemma_strip_nul(n: nat, t: Seq<u8>)
    requires
        t.len() > 0,
        t[0] != 0u8,
        t[0] != 32u8,
    ensures
        strip_nul(nuls(n) + t) == t,
    decreases n,
{
    let s = nuls(n) + t;
    if n > 0 {
        assert(s.drop_first() =~= nuls((n - 1) as nat) + t);
        lemma_strip_nul((n - 1) as nat, t);
    } else {
        assert(s =~= t);
    }
}

proof fn lemma_int_text_no_comma(n: int)
    ensures
        !int_text(n).contains(44u8),
        int_text(n).len() >= 1,
        int_text(n)[0] != 0u8,
        int_text(n)[0] != 32u8,
{
    lemma_int_text_bytes(n);
    if int_text(n).contains(44u8) {
        let i = choose|i: int| 0 <= i < int_text(n).len() && int_text(n)[i] == 44u8;
        assert(is_digit(int_text(n)[i]) || int_text(n)[i] == 45u8);
    }
    assert(is_digit(int_text(n)[0]) || int_text(n)[0] == 45u8);
}

/// A record that `encode_spec` writes reads back as the entry it was made of.
pub proof fn lemma_decode_record(e: EntryView, width: nat)
    requires
        loggable(e, width),
    ensures
        decode_spec(record_bytes(e, width)) == Some(e),
{
    let f0 = int_text(e.tx_id);
    let f1 = int_text(e.delta);
    let f2 = int_text(e.balance_after);
    let f3 = e.occurred_at;
    let f4 = seq![kind_code(e.kind)];
    let f5 = e.description;
    lemma_int_text_no_comma(e.tx_id);
    lemma_int_text_no_comma(e.delta);
    lemma_int_text_no_comma(e.balance_after);
    assert(!f4.contains(44u8)) by {
        if f4.contains(44u8) {
            let i = choose|i: int| 0 <= i < f4.len() && f4[i] == 44u8;
            assert(f4[i] == kind_code(e.kind));
        }
    }
    let t = record_text(e);
    let a1 = f0;
    let a2 = a1 + comma() + f1;
    let a3 = a2 + comma() + f2;
    let a4 = a3 + comma() + f3;
    let a5 = a4 + comma() + f4;
    assert(t == a5 + comma() + f5);
    lemma_split_no_comma(f0);
    lemma_split_no_comma(f1);
    lemma_split_no_comma(f2);
    lemma_split_no_comma(f3);
    lemma_split_no_comma(f4);
    lemma_split_no_comma(f5);
    lemma_split_concat(a1, f1);
    lemma_split_concat(a2, f2);
    lemma_split_concat(a3, f3);
    lemma_split_concat(a4, f4);
    lemma_split_concat(a5, f5);
    assert(split_fields(t) =~= seq![f0, f1, f2, f3, f4, f5]);
    let c = record_bytes(e, width);
    let p = (width - 1 - t.len()) as nat;
    assert(t[0] == f0[0]);
    assert(c.drop_last() =~= nuls(p) + t);
    lemma_strip_nul(p, t);
    lemma_trim_space_end(f5);
    lemma_parse_int_text(e.tx_id);
    lemma_parse_int_text(e.delta);
    lemma_parse_int_text(e.balance_after);
    assert(c.last() == 10u8);
    assert(f4[0] == kind_code(e.kind));
}

proof fn lemma_record_len(e: EntryView, width: nat)
    requires
        record_text(e).len() + 1 <= width,
    ensures
        record_bytes(e, width).len() == width,
{
}

proof fn lemma_log_len(es: Seq<EntryView>, width: nat)
    requires
        forall|i: int| 0 <= i < es.len() ==> loggable(#[trigger] es[i], width),
    ensures
        log_bytes(es, width).len() == es.len() * width,
    decreases es.len(),
{
    if es.len() > 0 {
        lemma_log_len(es.drop_last(), width);
        lemma_record_len(es.last(), width);
        assert((es.len() - 1) * width + width == es.len() * width) by (nonlinear_arith);
    }
}

proof fn lemma_log_concat(a: Seq<EntryView>, b: Seq<EntryView>, width: nat)
    ensures
        log_bytes(a + b, width) == log_bytes(a, width) + log_bytes(b, width),
    decreases b.len(),
{
    if b.len() == 0 {
        assert(a + b =~= a);
        assert(log_bytes(a, width) + log_bytes(b, width) =~= log_bytes(a, width));
    } else {
        assert((a + b).drop_last() =~= a + b.drop_last());
        lemma_log_concat(a, b.drop_last(), width);
        assert(log_bytes(a, width) + log_bytes(b.drop_last(), width) + record_bytes(b.last(), width)
            =~= log_bytes(a, width) + (log_bytes(b.drop_last(), width) + record_bytes(
            b.last(),
            width,
        )));
    }
}

/// `decode_first` reads only the first `n` records.
proof fn lemma_decode_first_prefix(w1: Seq<u8>, w2: Seq<u8>, width: nat, n: nat)
    requires
        n * width <= w1.len(),
        n * width <= w2.len(),
        w1.subrange(0, (n * width) as int) == w2.subrange(0, (n * width) as int),
    ensures
        decode_first(w1, width, n) == decode_first(w2, width, n),
    decreases n,
{
    if n > 0 {
        let lo = (n - 1) * width;
        let hi = (n * width) as int;
        assert(lo <= hi) by (nonlinear_arith)
            requires
                n >= 1,
                lo == (n - 1) * width,
                hi == n * width,
        ;
        assert(w1.subrange(0, lo) =~= w1.subrange(0, hi).subrange(0, lo));
        assert(w2.subrange(0, lo) =~= w2.subrange(0, hi).subrange(0, lo));
        lemma_decode_first_prefix(w1, w2, width, (n - 1) as nat);
        assert(w1.subrange(lo, hi) =~= w1.subrange(0, hi).subrange(lo, hi));
        assert(w2.subrange(lo, hi) =~= w2.subrange(0, hi).subrange(lo, hi));
    }
}

proof fn lemma_decode_log(es: Seq<EntryView>, width: nat)
    requires
        forall|i: int| 0 <= i < es.len() ==> loggable(#[trigger] es[i], width),
    ensures
        decode_first(log_bytes(es, width), width, es.len()) == es,
    decreases es.len(),
{
    if es.len() > 0 {
        let n = es.len();
        let prev = es.drop_last();
        let w = log_bytes(es, width);
        let wp = log_bytes(prev, width);
        lemma_log_len(prev, width);
        lemma_log_len(es, width);
        lemma_record_len(es.last(), width);
        assert(wp.len() == (n - 1) * width);
        assert(w.subrange(0, ((n - 1) as nat * width) as int) =~= wp.subrange(0, ((n - 1) as nat * width) as int));
        lemma_decode_first_prefix(w, wp, width, (n - 1) as nat);
        lemma_decode_log(prev, width);
        assert(wp.subrange(0, wp.len() as int) =~= wp);
        assert(n * width == (n - 1) * width + width) by (nonlinear_arith);
        assert(w.subrange((n - 1) * width, (n * width) as int) =~= record_bytes(es.last(), width));
        lemma_decode_record(es.last(), width);
        assert(prev.push(es.last()) =~= es);
    }
}

/// After appending `es` in order to an empty log, the window of the last
/// `max` records reads back as the last `min(max, es.len())` entries, most
/// recent first; an empty log reads back as nothing.
pub proof fn lemma_tail_returns_recent(es: Seq<EntryView>, width: nat, max: nat)
    requires
        width >= 1,
        forall|i: int| 0 <= i < es.len() ==> loggable(#[trigger] es[i], width),
    ensures
        ({
            let file = log_bytes(es, width);
            let (start, len) = window_spec(file.len(), width, max);
            let m = if max < es.len() { max as int } else { es.len() as int };
            &&& start + len == file.len()
            &&& tail_spec(file.subrange(start as int, (start + len) as int), width, start) == es.subrange(
                es.len() - m,
                es.len() as int,
            ).reverse()
        }),
{
    let n = es.len();
    let file = log_bytes(es, width);
    lemma_log_len(es, width);
    assert(file.len() / width == n) by (nonlinear_arith)
        requires
            file.len() == n * width,
            width >= 1,
    ;
    let (start, len) = window_spec(file.len(), width, max);
    let m: nat = if max < n { max } else { n };
    let a = es.subrange(0, n - m);
    let b = es.subrange(n - m, n as int);
    assert(a + b =~= es);
    lemma_log_concat(a, b, width);
    assert forall|i: int| 0 <= i < a.len() implies loggable(#[trigger] a[i], width) by {
        assert(a[i] == es[i]);
    }
    assert forall|i: int| 0 <= i < b.len() implies loggable(#[trigger] b[i], width) by {
        assert(b[i] == es[n - m + i]);
    }
    lemma_log_len(a, width);
    lemma_log_len(b, width);
    assert((n - m) * width + m * width == n * width) by (nonlinear_arith);
    if max < n {
        assert(max * width < n * width) by (nonlinear_arith)
            requires
                max < n,
                width >= 1,
        ;
        assert(start == (n - m) * width);
    } else {
        assert(max * width >= n * width) by (nonlinear_arith)
            requires
                max >= n,
        ;
        assert(start == 0);
        assert((n - m) * width == 0);
    }
    assert(start == (n - m) * width);
    assert(len == m * width);
    assert(start % width == 0) by {
        vstd::arithmetic::div_mod::lemma_mod_multiples_basic((n - m) as int, width as int);
    }
    vstd::arithmetic::div_mod::lemma_mod_self_0(width as int);
    assert(lead(start, width, len) == 0);
    let w = file.subrange(start as int, (start + len) as int);
    assert(w =~= log_bytes(b, width));
    assert(w.len() / width == m) by (nonlinear_arith)
        requires
            w.len() == m * width,
            width >= 1,
    ;
    assert(w.subrange(0, w.len() as int) =~= w);
    lemma_decode_log(b, width);
}

/// An entry that an accepted mutation records can go to the log when its
/// description and time hold no comma, the description does not end in
/// whitespace, and its text fits the record width.
pub proof fn lemma_applied_entry_loggable(
    s: AccountView,
    delta: int,
    kind: Kind,
    description: Seq<u8>,
    occurred_at: Seq<u8>,
    width: nat,
)
    requires
        s.inv(),
        i64::MIN <= delta <= i64::MAX,
        step(s, delta) is Ok,
        !description.contains(44u8),
        description.len() == 0 || !is_space(description.last()),
        !occurred_at.contains(44u8),
        record_text(entry_of(s, delta, kind, description, occurred_at)).len() + 1 <= width,
    ensures
        loggable(entry_of(s, delta, kind, description, occurred_at), width),
{
}

/// Appends the bytes of `src` to `out`.
pub fn push_all(out: &mut Vec<u8>, src: &[u8])
    ensures
        final(out)@ == old(out)@ + src@,
{
    let mut i: usize = 0;
    while i < src.len()
        invariant
            i <= src.len(),
            out@ == old(out)@ + src@.subrange(0, i as int),
        decreases src.len() - i,
    {
        out.push(src[i]);
        i = i + 1;
        assert(out@ =~= old(out)@ + src@.subrange(0, i as int));
    }
    assert(src@.subrange(0, i as int) =~= src@);
}

/// Cuts `w[from..to]` at each comma.
pub fn split_commas(w: &[u8], from: usize, to: usize) -> (r: Vec<Vec<u8>>)
    requires
        from <= to <= w.len(),
    ensures
        fields_view(r@) == split_fields(w@.subrange(from as int, to as int)),
{
    let mut fields: Vec<Vec<u8>> = Vec::new();
    let mut cur: Vec<u8> = Vec::new();
    let mut i: usize = from;
    assert(w@.subrange(from as int, from as int) =~= Seq::<u8>::empty());
    assert(fields_view(fields@).push(cur@) =~= seq![Seq::<u8>::empty()]);
    while i < to
        invariant
            from <= i <= to <= w.len(),
            fields_view(fields@).push(cur@) == split_fields(w@.subrange(from as int, i as int)),
        decreases to - i,
    {
        let b = w[i];
        let ghost prev = fields_view(fields@).push(cur@);
        assert(w@.subrange(from as int, i + 1).drop_last() =~= w@.subrange(from as int, i as int));
        assert(w@.subrange(from as int, i + 1).last() == b);
        if b == 44u8 {
            fields.push(cur);
            cur = Vec::new();
            assert(fields_view(fields@).push(cur@) =~= prev.push(Seq::empty()));
        } else {
            cur.push(b);
            assert(fields_view(fields@).push(cur@) =~= prev.update(
                prev.len() - 1,
                prev.last().push(b),
            ));
        }
        i = i + 1;
    }
    fields.push(cur);
    assert(fields_view(fields@) =~= split_fields(w@.subrange(from as int, to as int)));
    fields
}

/// `s` without its trailing whitespace.
pub fn trim_space_end_exec(s: &[u8]) -> (r: Vec<u8>)
    ensures
        r@ == trim_space_end(s@),
{
    let mut e = s.len();
    assert(s@.subrange(0, s@.len() as int) =~= s@);
    while e > 0 && (s[e - 1] == 32u8 || (s[e - 1] >= 9u8 && s[e - 1] <= 13u8))
        invariant
            e <= s.len(),
            trim_space_end(s@.subrange(0, e as int)) == trim_space_end(s@),
        decreases e,
    {
        assert(s@.subrange(0, e as int).drop_last() =~= s@.subrange(0, e - 1));
        e = e - 1;
    }
    assert(s@.subrange(0, s@.len() as int) =~= s@);
    let mut r: Vec<u8> = Vec::new();
    let mut i: usize = 0;
    while i < e
        invariant
            i <= e <= s.len(),
            r@ == s@.subrange(0, i as int),
        decreases e - i,
    {
        r.push(s[i]);
        i = i + 1;
        assert(r@ =~= s@.subrange(0, i as int));
    }
    r
}

/// Reads the record `w[start..end]`; `None` where it is malformed.
pub fn decode_record(w: &[u8], start: usize, end: usize) -> (r: Option<LedgerEntry>)
    requires
        start <= end <= w.len(),
    ensures
        opt_view(r) == decode_spec(w@.subrange(start as int, end as int)),
{
    let ghost c = w@.subrange(start as int, end as int);
    if end == start || w[end - 1] != 10u8 {
        return None;
    }
    let body_end = end - 1;
    assert(c.drop_last() =~= w@.subrange(start as int, body_end as int));
    let mut k: usize = start;
    while k < body_end && (w[k] == 0u8 || w[k] == 32u8)
        invariant
            start <= k <= body_end < end <= w.len(),
            strip_nul(w@.subrange(start as int, body_end as int)) == strip_nul(
                w@.subrange(k as int, body_end as int),
            ),
        decreases body_end - k,
    {
        assert(w@.subrange(k as int, body_end as int).drop_first() =~= w@.subrange(
            k + 1,
            body_end as int,
        ));
        k = k + 1;
    }
    assert(strip_nul(w@.subrange(k as int, body_end as int)) == w@.subrange(k as int, body_end as int));
    let f = split_commas(w, k, body_end);
    let ghost fv = fields_view(f@);
    if f.len() != 6 {
        return None;
    }
    assert(fv[0] == f[0]@ && fv[1] == f[1]@ && fv[2] == f[2]@ && fv[3] == f[3]@ && fv[4] == f[4]@
        && fv[5] == f[5]@);
    let tx = parse_decimal(f[0].as_slice());
    let delta = parse_decimal(f[1].as_slice());
    let bal = parse_decimal(f[2].as_slice());
    match (tx, delta, bal) {
        (Some(tx), Some(d), Some(b)) => {
            if tx < 0 || tx > u64::MAX as i128 || d < i64::MIN as i128 || d > i64::MAX as i128 || b
                < i64::MIN as i128 || b > i64::MAX as i128 || f[4].len() != 1 {
                return None;
            }
            let kind = match Kind::from_code(f[4][0]) {
                Some(kind) => kind,
                None => return None,
            };
            let e = LedgerEntry {
                tx_id: tx as u64,
                delta: d as i64,
                balance_after: b as i64,
                occurred_at: f[3].clone(),
                kind,
                description: trim_space_end_exec(f[5].as_slice()),
            };
            Some(e)
        },
        _ => None,
    }
}

/// The log of one account: its id and the fixed width of its records.
#[derive(Clone, Copy, Debug)]
pub struct AtomicFd {
    id: usize,
    log_size: usize,
}

impl AtomicFd {
    /// The record width.
    pub closed spec fn width(&self) -> nat {
        self.log_size as nat
    }

    pub closed spec fn account(&self) -> nat {
        self.id as nat
    }

    pub open spec fn wf(&self) -> bool {
        self.width() >= 1
    }

    /// The log of account `id`, whose records are `log_size` bytes wide.
    pub fn new(id: usize, log_size: usize) -> (r: AtomicFd)
        requires
            log_size >= 1,
        ensures
            r.wf(),
            r.width() == log_size,
            r.account() == id,
    {
        AtomicFd { id, log_size }
    }

    pub fn id(&self) -> (r: usize)
        ensures
            r == self.account(),
    {
        self.id
    }

    pub fn log_size(&self) -> (r: usize)
        ensures
            r == self.width(),
    {
        self.log_size
    }

    /// The record to append for `e`; `None` where its text does not fit the width.
    pub fn encode_entry(&self, e: &LedgerEntry) -> (r: Option<Vec<u8>>)
        requires
            self.wf(),
        ensures
            match r {
                Some(v) => encode_spec(e@, self.width()) == Some(v@),
                None => encode_spec(e@, self.width()) is None,
            },
    {
        let mut t: Vec<u8> = Vec::new();
        push_int(&mut t, e.tx_id as i128);
        t.push(44u8);
        push_int(&mut t, e.delta as i128);
        t.push(44u8);
        push_int(&mut t, e.balance_after as i128);
        t.push(44u8);
        push_all(&mut t, e.occurred_at.as_slice());
        t.push(44u8);
        t.push(e.kind.code());
        t.push(44u8);
        push_all(&mut t, e.description.as_slice());
        assert(t@ =~= record_text(e@));
        if t.len() >= self.log_size {
            return None;
        }
        let pad = self.log_size - 1 - t.len();
        let mut out: Vec<u8> = Vec::new();
        let mut i: usize = 0;
        while i < pad
            invariant
                i <= pad,
                out@ == nuls(i as nat),
            decreases pad - i,
        {
            out.push(0u8);
            i = i + 1;
            assert(out@ =~= nuls(i as nat));
        }
        push_all(&mut out, t.as_slice());
        out.push(10u8);
        assert(out@ =~= record_bytes(e@, self.width()));
        Some(out)
    }

    /// Where to read the last `max` records of a log of `file_len` bytes:
    /// from `file_len - max * width`, or from the start of a shorter log, to
    /// the end. Returns the offset and the length.
    pub fn tail_range(&self, file_len: u64, max: u64) -> (r: (u64, u64))
        requires
            self.wf(),
        ensures
            r.0 == window_spec(file_len as nat, self.width(), max as nat).0,
            r.1 == window_spec(file_len as nat, self.width(), max as nat).1,
            r.0 + r.1 == file_len,
    {
        assert(max as u128 * self.log_size as u128 <= u64::MAX as u128 * u64::MAX as u128) by (nonlinear_arith)
            requires
                max <= u64::MAX,
                self.log_size <= u64::MAX,
        ;
        let span: u128 = max as u128 * self.log_size as u128;
        let start: u64 = if span >= file_len as u128 {
            0
        } else {
            file_len - span as u64
        };
        (start, file_len - start)
    }

    /// The entries of the complete records in `window[k..]`, in file order;
    /// malformed records are skipped.
    fn decode_chunks(&self, window: &[u8], k: usize) -> (r: Vec<LedgerEntry>)
        requires
            self.wf(),
            k <= window.len(),
        ensures
            entries_view(r@) == decode_first(
                window@.subrange(k as int, window@.len() as int),
                self.width(),
                ((window@.len() - k) / self.width() as int) as nat,
            ),
    {
        let width = self.log_size;
        let ghost w = window@.subrange(k as int, window@.len() as int);
        let count = (window.len() - k) / width;
        let mut r: Vec<LedgerEntry> = Vec::new();
        let mut i: usize = 0;
        assert(count * width <= window.len() - k) by (nonlinear_arith)
            requires
                count == (window.len() - k) as int / (width as int),
                width >= 1,
        ;
        while i < count
            invariant
                i <= count,
                k <= window.len(),
                w == window@.subrange(k as int, window@.len() as int),
                width == self.width(),
                width >= 1,
                count == (window@.len() - k) / (self.width() as int),
                count * width <= window.len() - k,
                entries_view(r@) == decode_first(w, width as nat, i as nat),
            decreases count - i,
        {
            assert((i + 1) * width <= count * width) by (nonlinear_arith)
                requires
                    i + 1 <= count,
            ;
            assert(i * width + width == (i + 1) * width) by (nonlinear_arith);
            let start = k + i * width;
            let end = start + width;
            let d = decode_record(window, start, end);
            assert(window@.subrange(start as int, end as int) =~= w.subrange(
                (i * width) as int,
                ((i + 1) * width) as int,
            ));
            let ghost prev = entries_view(r@);
            match d {
                Some(e) => {
                    r.push(e);
                    assert(entries_view(r@) =~= prev.push(e@));
                },
                None => {},
            }
            i = i + 1;
        }
        r
    }

    /// The entries of the complete records in `window`, read from file
    /// offset `start`, most recent first. Records start at multiples of the
    /// width; bytes before the first boundary and a partial record at the
    /// end are left out, and malformed records are skipped.
    pub fn get_logs(&self, window: &[u8], start: u64) -> (r: Vec<LedgerEntry>)
        requires
            self.wf(),
        ensures
            entries_view(r@) == tail_spec(window@, self.width(), start as nat),
    {
        let width = self.log_size as u64;
        let m = start % width;
        let k0: u64 = if m == 0 {
            0
        } else {
            width - m
        };
        let k: usize = if k0 >= window.len() as u64 {
            window.len()
        } else {
            k0 as usize
        };
        proof {
            if m == 0 {
                vstd::arithmetic::div_mod::lemma_mod_self_0(width as int);
            } else {
                vstd::arithmetic::div_mod::lemma_small_mod((width - m) as nat, width as nat);
            }
        }
        assert(k == lead(start as nat, self.width(), window@.len()));
        let mut logs = self.decode_chunks(window, k);
        let ghost fwd = entries_view(logs@);
        let mut r: Vec<LedgerEntry> = Vec::new();
        while logs.len() > 0
            invariant
                fwd.len() == entries_view(logs@).len() + entries_view(r@).len(),
                entries_view(logs@) == fwd.subrange(0, logs@.len() as int),
                entries_view(r@) == fwd.subrange(logs@.len() as int, fwd.len() as int).reverse(),
            decreases logs.len(),
        {
            let ghost before = logs@;
            let e = logs.pop().unwrap();
            let ghost n = logs@.len();
            assert(e == before[n as int]);
            assert(entries_view(before)[n as int] == fwd[n as int]);
            let ghost prev_r = entries_view(r@);
            r.push(e);
            assert(entries_view(r@) =~= prev_r.push(fwd[n as int]));
            assert(entries_view(logs@) =~= fwd.subrange(0, n as int));
            assert(entries_view(r@) =~= fwd.subrange(n as int, fwd.len() as int).reverse());
        }
        assert(entries_view(r@) =~= fwd.reverse());
        r
    }
}

} // verus!
