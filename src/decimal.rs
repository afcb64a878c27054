//! Decimal text of integers, written and read as ASCII bytes.
use vstd::prelude::*;

verus! {

/// Largest number of digits that `parse_decimal` reads.
pub const MAX_DIGITS: usize = 20;

pub open spec fn is_digit(b: u8) -> bool {
    48 <= b <= 57
}

pub open spec fn all_digits(s: Seq<u8>) -> bool {
    forall|i: int| 0 <= i < s.len() ==> is_digit(#[trigger] s[i])
}

/// The shortest decimal digits of `n`.
pub open spec fn nat_digits(n: nat) -> Seq<u8>
    decreases n,
{
    if n < 10 {
        seq![(48 + n) as u8]
    } else {
        nat_digits(n / 10).push((48 + n % 10) as u8)
    }
}

/// The decimal text of `n`: a minus sign before the digits when negative.
pub open spec fn int_text(n: int) -> Seq<u8> {
    if n < 0 {
        seq![45u8] + nat_digits((-n) as nat)
    } else {
        nat_digits(n as nat)
    }
}

/// The value of a string of digits.
pub open spec fn digits_value(s: Seq<u8>) -> nat
    decreases s.len(),
{
    if s.len() == 0 {
        0
    } else {
        digits_value(s.drop_last()) * 10 + (s.last() - 48) as nat
    }
}

/// What `parse_decimal` reads: an optional minus sign, then one to
/// `MAX_DIGITS` digits and nothing else.
pub open spec fn parse_int(s: Seq<u8>) -> Option<int> {
    let neg = s.len() > 0 && s[0] == 45u8;
    let d = if neg { s.drop_first() } else { s };
    if 1 <= d.len() <= MAX_DIGITS && all_digits(d) {
        Some(if neg { -digits_value(d) } else { digits_value(d) as int })
    } else {
        None
    }
}

pub open spec fn pow10(k: nat) -> nat
    decreases k,
{
    if k == 0 {
        1
    } else {
        10 * pow10((k - 1) as nat)
    }
}

pub proof fn lemma_nat_digits(n: nat)
    ensures
        1 <= nat_digits(n).len(),
        all_digits(nat_digits(n)),
        digits_value(nat_digits(n)) == n,
    decreases n,
{
    let s = nat_digits(n);
    if n >= 10 {
        lemma_nat_digits(n / 10);
        assert(s.drop_last() =~= nat_digits(n / 10));
        assert(n / 10 * 10 + n % 10 == n);
        assert(s.last() == 48 + n % 10);
        assert(digits_value(s) == digits_value(nat_digits(n / 10)) * 10 + n % 10);
    } else {
        assert(s.drop_last() =~= Seq::<u8>::empty());
        assert(s.last() == 48 + n);
        assert(digits_value(s) == digits_value(Seq::<u8>::empty()) * 10 + n);
    }
}

pub proof fn lemma_nat_digits_len(n: nat, k: nat)
    requires
        1 <= k,
        n < pow10(k),
    ensures
        nat_digits(n).len() <= k,
    decreases k,
{
    if n >= 10 {
        assert(k >= 2) by {
            if k == 1 {
                reveal_with_fuel(pow10, 2);
            }
        }
        assert(n / 10 < pow10((k - 1) as nat)) by (nonlinear_arith)
            requires
                n < pow10(k),
                pow10(k) == 10 * pow10((k - 1) as nat),
        ;
        lemma_nat_digits_len(n / 10, (k - 1) as nat);
    }
}

pub proof fn lemma_pow10_20()
    ensures
        pow10(20) == 100_000_000_000_000_000_000nat,
{
    reveal_with_fuel(pow10, 21);
}

/// Reading the text of an integer gives it back, for every integer whose
/// magnitude has at most `MAX_DIGITS` digits.
pub proof fn lemma_parse_int_text(n: int)
    requires
        -100_000_000_000_000_000_000 < n < 100_000_000_000_000_000_000,
    ensures
        parse_int(int_text(n)) == Some(n),
{
    let m: nat = if n < 0 { (-n) as nat } else { n as nat };
    lemma_nat_digits(m);
    lemma_pow10_20();
    lemma_nat_digits_len(m, 20);
    let t = int_text(n);
    if n < 0 {
        assert(t.drop_first() =~= nat_digits(m));
        assert(t[0] == 45u8);
    } else {
        assert(is_digit(t[0]));
    }
}

/// The text of an integer holds only digits and a leading minus sign.
pub proof fn lemma_int_text_bytes(n: int)
    ensures
        1 <= int_text(n).len(),
        forall|i: int|
            0 <= i < int_text(n).len() ==> is_digit(#[trigger] int_text(n)[i]) || (i == 0 && n < 0
                && int_text(n)[i] == 45u8),
{
    let m: nat = if n < 0 { (-n) as nat } else { n as nat };
    lemma_nat_digits(m);
    if n < 0 {
        let t = int_text(n);
        assert forall|i: int| 1 <= i < t.len() implies is_digit(#[trigger] t[i]) by {
            assert(t[i] == nat_digits(m)[i - 1]);
        }
    }
}

fn push_digits(out: &mut Vec<u8>, n: u64)
    ensures
        final(out)@ == old(out)@ + nat_digits(n as nat),
    decreases n,
{
    if n >= 10 {
        push_digits(out, n / 10);
    }
    out.push((48 + n % 10) as u8);
    proof {
        if n >= 10 {
            assert(nat_digits(n as nat) == nat_digits((n / 10) as nat).push((48 + n % 10) as u8));
        }
    }
}

/// Appends the decimal text of `n` to `out`.
pub fn push_int(out: &mut Vec<u8>, n: i128)
    requires
        -18446744073709551615 <= n <= 18446744073709551615,
    ensures
        final(out)@ == old(out)@ + int_text(n as int),
{
    if n < 0 {
        out.push(45u8);
        push_digits(out, (-n) as u64);
        proof {
            assert(old(out)@.push(45u8) + nat_digits((-n) as nat) =~= old(out)@ + (seq![45u8]
                + nat_digits((-n) as nat)));
        }
    } else {
        push_digits(out, n as u64);
    }
}

/// Reads a decimal integer: an optional minus sign, then one to `MAX_DIGITS`
/// digits, the whole slice and nothing more.
pub fn parse_decimal(s: &[u8]) -> (r: Option<i128>)
    ensures
        match r {
            Some(v) => parse_int(s@) == Some(v as int),
            None => parse_int(s@) is None,
        },
{
    let neg = s.len() > 0 && s[0] == 45u8;
    let start: usize = if neg { 1 } else { 0 };
    let ghost d = if neg { s@.drop_first() } else { s@ };
    assert(neg == (s@.len() > 0 && s@[0] == 45u8));
    let n = s.len() - start;
    if n < 1 || n > MAX_DIGITS {
        return None;
    }
    let mut acc: u128 = 0;
    let mut i: usize = start;
    while i < s.len()
        invariant
            start <= i <= s.len(),
            s.len() - start <= MAX_DIGITS,
            d =~= s@.subrange(start as int, s.len() as int),
            d == (if s@.len() > 0 && s@[0] == 45u8 { s@.drop_first() } else { s@ }),
            neg == (s@.len() > 0 && s@[0] == 45u8),
            all_digits(d.subrange(0, i - start)),
            acc == digits_value(d.subrange(0, i - start)),
            acc < pow10((i - start) as nat),
        decreases s.len() - i,
    {
        let b = s[i];
        if b < 48 || b > 57 {
            assert(d[i - start] == s@[i as int]);
            assert(!is_digit(d[i - start]));
            assert(!all_digits(d));
            return None;
        }
        proof {
            let p = d.subrange(0, i - start);
            let q = d.subrange(0, i + 1 - start);
            assert(q.drop_last() =~= p);
            assert(pow10((i + 1 - start) as nat) == 10 * pow10((i - start) as nat));
            lemma_pow10_20();
            lemma_pow10_mono((i + 1 - start) as nat, 20);
            assert(acc * 10 + (b - 48) < 10 * pow10((i - start) as nat)) by (nonlinear_arith)
                requires
                    acc < pow10((i - start) as nat),
                    b - 48 < 10,
            ;
        }
        acc = acc * 10 + (b - 48) as u128;
        i = i + 1;
    }
    assert(d.subrange(0, i - start) =~= d);
    proof {
        lemma_pow10_20();
        lemma_pow10_mono((i - start) as nat, 20);
    }
    if neg {
        Some(-(acc as i128))
    } else {
        Some(acc as i128)
    }
}

pub proof fn lemma_pow10_mono(a: nat, b: nat)
    requires
        a <= b,
    ensures
        pow10(a) <= pow10(b),
    decreases b,
{
    if a < b {
        lemma_pow10_mono(a, (b - 1) as nat);
        assert(pow10(b) == 10 * pow10((b - 1) as nat));
    }
}

} // verus!
