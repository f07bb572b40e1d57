//! Decimal rendering and parsing of unsigned 64-bit numbers, the number
//! sublanguage of the persisted format.

use vstd::prelude::*;
use vstd::arithmetic::div_mod::lemma_fundamental_div_mod;

verus! {

/// Whether `c` is a decimal digit.
pub open spec fn is_digit(c: char) -> bool {
    '0' <= c && c <= '9'
}

/// The numeric value of a digit character.
pub open spec fn digit_of(c: char) -> nat {
    (c as nat - '0' as nat) as nat
}

/// The digit character for a value below ten.
pub open spec fn digit_char(d: nat) -> char {
    if d == 0 { '0' }
    else if d == 1 { '1' }
    else if d == 2 { '2' }
    else if d == 3 { '3' }
    else if d == 4 { '4' }
    else if d == 5 { '5' }
    else if d == 6 { '6' }
    else if d == 7 { '7' }
    else if d == 8 { '8' }
    else { '9' }
}

/// The canonical decimal rendering of `n`: most significant digit first,
/// no leading zeros (a lone `0` for zero).
pub open spec fn dec_digits(n: nat) -> Seq<char>
    decreases n,
{
    if n < 10 {
        seq![digit_char(n)]
    } else {
        dec_digits(n / 10) + seq![digit_char(n % 10)]
    }
}

/// The value of a digit string, most significant digit first.
pub open spec fn digits_val(ds: Seq<char>) -> nat
    decreases ds.len(),
{
    if ds.len() == 0 {
        0
    } else {
        digits_val(ds.drop_last()) * 10 + digit_of(ds.last())
    }
}

/// Whether every character of `ds` is a decimal digit.
pub open spec fn all_digits(ds: Seq<char>) -> bool {
    forall|i: int| 0 <= i < ds.len() ==> is_digit(#[trigger] ds[i])
}

/// The length of the leading run of digit characters in `s`.
pub open spec fn digit_run(s: Seq<char>) -> nat
    decreases s.len(),
{
    if s.len() > 0 && is_digit(s[0]) {
        1 + digit_run(s.drop_first())
    } else {
        0
    }
}

/// Parsing a number from the front of `s`: the maximal leading digit run is
/// the number's text; it must be non-empty and its value must fit in `u64`.
/// On success the value and the unconsumed remainder are returned.
pub open spec fn parse_number(s: Seq<char>) -> Option<(u64, Seq<char>)> {
    let k = digit_run(s);
    if k == 0 {
        None
    } else if digits_val(s.take(k as int)) > u64::MAX {
        None
    } else {
        Some((digits_val(s.take(k as int)) as u64, s.skip(k as int)))
    }
}

/// A canonical rendering consists of digits only and is never empty.
pub proof fn lemma_dec_digits_wf(n: nat)
    ensures
        dec_digits(n).len() >= 1,
        all_digits(dec_digits(n)),
    decreases n,
{
    if n >= 10 {
        lemma_dec_digits_wf(n / 10);
        assert forall|i: int| 0 <= i < dec_digits(n).len() implies is_digit(
            #[trigger] dec_digits(n)[i],
        ) by {
            if i < dec_digits(n / 10).len() {
                assert(dec_digits(n)[i] == dec_digits(n / 10)[i]);
            }
        }
    }
}

/// Reading back the canonical rendering of `n` yields `n`.
proof fn lemma_digits_val_of_dec(n: nat)
    ensures
        digits_val(dec_digits(n)) == n,
    decreases n,
{
    if n < 10 {
        assert(dec_digits(n).drop_last() =~= Seq::<char>::empty());
        assert(digits_val(Seq::<char>::empty()) == 0);
        assert(dec_digits(n).last() == digit_char(n));
        assert(digits_val(dec_digits(n)) == digit_of(digit_char(n)));
        assert(digit_of(digit_char(n)) == n);
    } else {
        lemma_digits_val_of_dec(n / 10);
        assert(dec_digits(n).drop_last() =~= dec_digits(n / 10));
        assert(dec_digits(n).last() == digit_char(n % 10));
        assert(digits_val(dec_digits(n)) == (n / 10) * 10 + digit_of(digit_char(n % 10)));
        assert(digit_of(digit_char(n % 10)) == n % 10);
        lemma_fundamental_div_mod(n as int, 10);
        assert((n / 10) * 10 + n % 10 == n);
    }
}

/// The leading digit run never extends past the end of the string.
proof fn lemma_digit_run_le(s: Seq<char>)
    ensures
        digit_run(s) <= s.len(),
    decreases s.len(),
{
    if s.len() > 0 && is_digit(s[0]) {
        lemma_digit_run_le(s.drop_first());
    }
}

/// A digit string's value only grows as digits are appended: every prefix
/// has a value no larger than the whole.
proof fn lemma_digits_val_prefix(ds: Seq<char>, i: int)
    requires
        0 <= i <= ds.len(),
    ensures
        digits_val(ds.take(i)) <= digits_val(ds),
    decreases ds.len() - i,
{
    if i < ds.len() {
        lemma_digits_val_prefix(ds, i + 1);
        assert(ds.take(i + 1).drop_last() =~= ds.take(i));
        assert(ds.take(i + 1).last() == ds[i]);
        assert(digits_val(ds.take(i)) <= digits_val(ds.take(i)) * 10 + digit_of(ds[i]));
    } else {
        assert(ds.take(i) =~= ds);
    }
}

/// A leading run of exactly `k` digits pins `digit_run` to `k`.
proof fn lemma_digit_run_exact(s: Seq<char>, k: int)
    requires
        0 <= k <= s.len(),
        forall|i: int| 0 <= i < k ==> is_digit(#[trigger] s[i]),
        k == s.len() || !is_digit(s[k]),
    ensures
        digit_run(s) == k,
    decreases k,
{
    if k == 0 {
    } else {
        lemma_digit_run_exact(s.drop_first(), k - 1);
    }
}

/// Round trip: the canonical rendering of `n`, followed by anything that does
/// not begin with a digit, parses back to exactly `n` with that remainder.
pub proof fn lemma_parse_number_round_trip(n: u64, rest: Seq<char>)
    requires
        rest.len() == 0 || !is_digit(rest[0]),
    ensures
        parse_number(dec_digits(n as nat) + rest) == Some((n, rest)),
{
    let ds = dec_digits(n as nat);
    let s = ds + rest;
    lemma_dec_digits_wf(n as nat);
    lemma_digits_val_of_dec(n as nat);
    assert forall|i: int| 0 <= i < ds.len() implies is_digit(#[trigger] s[i]) by {
        assert(s[i] == ds[i]);
    }
    lemma_digit_run_exact(s, ds.len() as int);
    assert(s.take(ds.len() as int) =~= ds);
    assert(s.skip(ds.len() as int) =~= rest);
}

/// The digit character for `d`, executable form.
pub fn digit_char_exec(d: u64) -> (c: char)
    requires
        d < 10,
    ensures
        c == digit_char(d as nat),
{
    match d {
        0 => '0',
        1 => '1',
        2 => '2',
        3 => '3',
        4 => '4',
        5 => '5',
        6 => '6',
        7 => '7',
        8 => '8',
        _ => '9',
    }
}

/// Whether `c` is a decimal digit, executable form.
pub fn is_digit_exec(c: char) -> (r: bool)
    ensures
        r == is_digit(c),
{
    '0' <= c && c <= '9'
}

/// The numeric value of a digit character, executable form.
pub fn digit_of_exec(c: char) -> (d: u64)
    requires
        is_digit(c),
    ensures
        d == digit_of(c),
        d < 10,
{
    (c as u32 - '0' as u32) as u64
}

/// Renders `n` in canonical decimal onto the end of `out`.
pub fn push_dec_digits(out: &mut Vec<char>, n: u64)
    ensures
        final(out)@ == old(out)@ + dec_digits(n as nat),
    decreases n,
{
    if n < 10 {
        out.push(digit_char_exec(n));
    } else {
        push_dec_digits(out, n / 10);
        out.push(digit_char_exec(n % 10));
        assert(out@ =~= old(out)@ + dec_digits(n as nat));
    }
}

/// Parses a number from position `i` of `s`, as [`parse_number`] describes on
/// the remaining characters; on success `j` is the first unconsumed position.
pub fn parse_number_at(s: &Vec<char>, i: usize) -> (r: Option<(u64, usize)>)
    requires
        i <= s.len(),
    ensures
        match r {
            Some(p) => {
                &&& i < p.1 <= s@.len()
                &&& parse_number(s@.skip(i as int)) == Some((p.0, s@.skip(p.1 as int)))
            },
            None => parse_number(s@.skip(i as int)) is None,
        },
{
    let ghost t = s@.skip(i as int);
    let mut j: usize = i;
    let mut acc: u64 = 0;
    while j < s.len() && is_digit_exec(s[j])
        invariant
            i <= j <= s.len(),
            t == s@.skip(i as int),
            forall|m: int| i <= m < j ==> is_digit(#[trigger] s@[m]),
            acc == digits_val(s@.subrange(i as int, j as int)),
        decreases s.len() - j,
    {
        let d = digit_of_exec(s[j]);
        let ghost prev = s@.subrange(i as int, j as int);
        let ghost cur = s@.subrange(i as int, j as int + 1);
        proof {
            assert(cur.drop_last() =~= prev);
            assert(cur.last() == s@[j as int]);
        }
        let step = match acc.checked_mul(10) {
            Some(m) => m.checked_add(d),
            None => None,
        };
        match step {
            Some(v) => {
                acc = v;
                j = j + 1;
            },
            None => {
                proof {
                    // The maximal digit run extends at least one character past
                    // `j`, and already up to there the value exceeds `u64`.
                    assert(digits_val(cur) > u64::MAX);
                    let k = digit_run(t) as int;
                    assert forall|m: int| i <= m < j as int + 1 implies is_digit(#[trigger] s@[m]) by {}
                    lemma_run_covers(s@, i as int, j as int + 1);
                    lemma_digit_run_le(t);
                    assert(j as int + 1 - i <= k);
                    assert(t.take(k).len() == k);
                    lemma_digits_val_prefix(t.take(k), j as int + 1 - i);
                    assert(t.take(k).take(j as int + 1 - i) =~= cur);
                }
                return None;
            },
        }
    }
    proof {
        lemma_digit_run_exact(t, j - i);
        assert(t.take(j - i) =~= s@.subrange(i as int, j as int));
        assert(t.skip(j - i) =~= s@.skip(j as int));
    }
    if j == i {
        None
    } else {
        Some((acc, j))
    }
}

/// Every position of a leading all-digit stretch lies within the maximal
/// digit run.
proof fn lemma_run_covers(s: Seq<char>, i: int, e: int)
    requires
        0 <= i <= e <= s.len(),
        forall|m: int| i <= m < e ==> is_digit(#[trigger] s[m]),
    ensures
        e - i <= digit_run(s.skip(i)),
    decreases e - i,
{
    if i < e {
        lemma_run_covers(s, i + 1, e);
        assert(s.skip(i).drop_first() =~= s.skip(i + 1));
        assert(s.skip(i)[0] == s[i]);
    }
}

} // verus!

