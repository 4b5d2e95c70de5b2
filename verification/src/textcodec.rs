//! The readable text profile of the cache serialization: numbers are written
//! in decimal ended by `;`, strings as a decimal character count, `:` and
//! the characters themselves; the structure mirrors the binary profile.
use vstd::prelude::*;

use crate::cache::CacheIndex;
use crate::codec::{cache_model, CacheModel, CACHE_FORMAT_VERSION};
use crate::json::{digit_run_end, digit_run_end_exec, lemma_digit_run};
use crate::parse::{all_digits, digit_val, digits_val, is_digit, lemma_digits_val_monotone};
use crate::vault::SmartVault;

verus! {

/// The character of one decimal digit.
pub open spec fn digit_char(d: int) -> char {
    if d == 0 {
        '0'
    } else if d == 1 {
        '1'
    } else if d == 2 {
        '2'
    } else if d == 3 {
        '3'
    } else if d == 4 {
        '4'
    } else if d == 5 {
        '5'
    } else if d == 6 {
        '6'
    } else if d == 7 {
        '7'
    } else if d == 8 {
        '8'
    } else {
        '9'
    }
}

/// The decimal digits of a number, most significant first.
pub open spec fn digits_of(n: nat) -> Seq<char>
    decreases n,
{
    if n < 10 {
        seq![digit_char(n as int)]
    } else {
        digits_of(n / 10).push(digit_char((n % 10) as int))
    }
}

proof fn lemma_digit_char(d: int)
    requires
        0 <= d <= 9,
    ensures
        is_digit(digit_char(d)),
        digit_val(digit_char(d)) == d,
{
}

proof fn lemma_digits_of(n: nat)
    ensures
        digits_of(n).len() >= 1,
        all_digits(digits_of(n)),
        digits_val(digits_of(n)) == n,
    decreases n,
{
    if n < 10 {
        lemma_digit_char(n as int);
        assert(digits_of(n) == seq![digit_char(n as int)]);
        assert(digits_of(n).drop_last() =~= Seq::<char>::empty());
        assert(digits_val(Seq::<char>::empty()) == 0);
        assert(digits_val(digits_of(n)) == digit_val(digit_char(n as int)));
    } else {
        lemma_digits_of(n / 10);
        lemma_digit_char((n % 10) as int);
        let d = digits_of(n / 10);
        assert(d.push(digit_char((n % 10) as int)).drop_last() =~= d);
        assert(digits_of(n).drop_last() == d);
        assert(digits_of(n).last() == digit_char((n % 10) as int));
        assert(digits_val(digits_of(n)) == digits_val(d) * 10 + digit_val(
            digit_char((n % 10) as int),
        ));
        assert(digit_val(digit_char((n % 10) as int)) == n % 10);
        assert(digits_val(d) == n / 10);
        assert(10 * (n / 10) + (n % 10) == n) by (nonlinear_arith);
        assert(digits_val(digits_of(n)) == n);
    }
}

/// A digit run with a known end has that end.
proof fn lemma_digit_run_fixed(s: Seq<char>, i: int, m: int)
    requires
        0 <= i <= m <= s.len(),
        forall|j: int| i <= j < m ==> is_digit(#[trigger] s[j]),
        m == s.len() || !is_digit(s[m]),
    ensures
        digit_run_end(s, i) == m,
    decreases m - i,
{
    if i < m {
        lemma_digit_run_fixed(s, i + 1, m);
    }
}

/// A decimal number ended by `;`.
pub open spec fn enc_num(n: u64) -> Seq<char> {
    digits_of(n as nat) + seq![';']
}

pub open spec fn dec_num(t: Seq<char>, i: int) -> Option<(u64, int)> {
    let e = digit_run_end(t, i);
    if 0 <= i && i < e && digits_val(t.subrange(i, e)) <= u64::MAX && e < t.len() && t[e] == ';' {
        Some((digits_val(t.subrange(i, e)) as u64, e + 1))
    } else {
        None
    }
}

/// A string: its character count, `:`, then the characters verbatim.
pub open spec fn enc_text_str(cs: Seq<char>) -> Seq<char> {
    digits_of(cs.len()) + seq![':'] + cs
}

pub open spec fn dec_text_str(t: Seq<char>, i: int) -> Option<(Seq<char>, int)> {
    let e = digit_run_end(t, i);
    if 0 <= i && i < e && e < t.len() && t[e] == ':' && e + 1 + digits_val(t.subrange(i, e))
        <= t.len() {
        let len = digits_val(t.subrange(i, e));
        Some((t.subrange(e + 1, e + 1 + len), e + 1 + len))
    } else {
        None
    }
}

/// A slice equal to a concatenation splits into the two parts.
proof fn lemma_split_chars(s: Seq<char>, i: int, a: Seq<char>, b: Seq<char>)
    requires
        0 <= i,
        i + a.len() + b.len() <= s.len(),
        s.subrange(i, i + a.len() + b.len()) == a + b,
    ensures
        s.subrange(i, i + a.len()) == a,
        s.subrange(i + a.len(), i + a.len() + b.len()) == b,
{
    assert forall|k: int| 0 <= k < a.len() implies s.subrange(i, i + a.len() as int)[k]
        == a[k] by {
        assert(s.subrange(i, i + a.len() + b.len())[k] == (a + b)[k]);
    }
    assert(s.subrange(i, i + a.len()) =~= a);
    assert forall|k: int| 0 <= k < b.len() implies s.subrange(
        i + a.len(),
        i + a.len() + b.len(),
    )[k] == b[k] by {
        assert(s.subrange(i, i + a.len() + b.len())[a.len() + k] == (a + b)[a.len() + k]);
        assert((a + b)[a.len() + k] == b[k]);
        assert(s.subrange(i, i + a.len() + b.len())[a.len() + k] == s[i + a.len() + k]);
        assert(s.subrange(i + a.len(), i + a.len() + b.len())[k] == s[i + a.len() + k]);
    }
    assert(s.subrange(i + a.len(), i + a.len() + b.len()) =~= b);
}

proof fn lemma_dec_num_at(t: Seq<char>, i: int, n: u64)
    requires
        0 <= i,
        i + enc_num(n).len() <= t.len(),
        t.subrange(i, i + enc_num(n).len()) == enc_num(n),
    ensures
        dec_num(t, i) == Some((n, i + enc_num(n).len())),
{
    lemma_digits_of(n as nat);
    let d = digits_of(n as nat);
    lemma_split_chars(t, i, d, seq![';']);
    assert forall|j: int| i <= j < i + d.len() implies is_digit(#[trigger] t[j]) by {
        assert(t.subrange(i, i + d.len() as int)[j - i] == d[j - i]);
    }
    assert(t.subrange(i + d.len(), i + d.len() + 1)[0] == ';');
    assert(t[i + d.len()] == ';');
    lemma_digit_run_fixed(t, i, i + d.len());
    assert(t.subrange(i, i + d.len()) =~= d);
}

proof fn lemma_dec_text_str_at(t: Seq<char>, i: int, cs: Seq<char>)
    requires
        0 <= i,
        i + enc_text_str(cs).len() <= t.len(),
        t.subrange(i, i + enc_text_str(cs).len()) == enc_text_str(cs),
    ensures
        dec_text_str(t, i) == Some((cs, i + enc_text_str(cs).len())),
{
    lemma_digits_of(cs.len());
    let d = digits_of(cs.len());
    assert(enc_text_str(cs) =~= d + (seq![':'] + cs));
    lemma_split_chars(t, i, d, seq![':'] + cs);
    lemma_split_chars(t, i + d.len(), seq![':'], cs);
    assert forall|j: int| i <= j < i + d.len() implies is_digit(#[trigger] t[j]) by {
        assert(t.subrange(i, i + d.len() as int)[j - i] == d[j - i]);
    }
    assert(t.subrange(i + d.len(), i + d.len() + 1)[0] == ':');
    assert(t[i + d.len()] == ':');
    lemma_digit_run_fixed(t, i, i + d.len());
    assert(t.subrange(i, i + d.len()) =~= d);
    assert(t.subrange(i + d.len() + 1, i + d.len() + 1 + cs.len()) == cs);
}

fn push_digit(out: &mut Vec<char>, d: u64)
    requires
        d <= 9,
    ensures
        final(out)@ == old(out)@ + seq![digit_char(d as int)],
{
    let c: char = if d == 0 {
        '0'
    } else if d == 1 {
        '1'
    } else if d == 2 {
        '2'
    } else if d == 3 {
        '3'
    } else if d == 4 {
        '4'
    } else if d == 5 {
        '5'
    } else if d == 6 {
        '6'
    } else if d == 7 {
        '7'
    } else if d == 8 {
        '8'
    } else {
        '9'
    };
    out.push(c);
    proof {
        assert(out@ =~= old(out)@ + seq![digit_char(d as int)]);
    }
}

fn push_digits(out: &mut Vec<char>, n: u64)
    ensures
        final(out)@ == old(out)@ + digits_of(n as nat),
    decreases n,
{
    if n < 10 {
        push_digit(out, n);
    } else {
        push_digits(out, n / 10);
        let ghost mid = out@;
        push_digit(out, n % 10);
        proof {
            assert(out@ =~= old(out)@ + digits_of(n as nat));
        }
    }
}

fn push_num(out: &mut Vec<char>, n: u64)
    ensures
        final(out)@ == old(out)@ + enc_num(n),
{
    push_digits(out, n);
    out.push(';');
    proof {
        assert(out@ =~= old(out)@ + enc_num(n));
    }
}

fn push_text_str(out: &mut Vec<char>, cs: &Vec<char>)
    ensures
        final(out)@ == old(out)@ + enc_text_str(cs@),
{
    push_digits(out, cs.len() as u64);
    out.push(':');
    let ghost mid = out@;
    let n = cs.len();
    let mut t: usize = 0;
    while t < n
        invariant
            n == cs@.len(),
            t <= n,
            out@ =~= mid + cs@.subrange(0, t as int),
        decreases n - t,
    {
        out.push(cs[t]);
        proof {
            assert(out@ =~= mid + cs@.subrange(0, t + 1));
        }
        t += 1;
    }
    proof {
        assert(cs@.subrange(0, n as int) =~= cs@);
        assert((cs@.len() as u64) as nat == cs@.len());
        assert(out@ =~= old(out)@ + enc_text_str(cs@));
    }
}

fn read_num(t: &Vec<char>, i: usize) -> (r: Option<(u64, usize)>)
    requires
        i <= t@.len(),
    ensures
        match r {
            Some(p) => dec_num(t@, i as int) == Some((p.0, p.1 as int)) && p.1 <= t@.len(),
            None => dec_num(t@, i as int) == None::<(u64, int)>,
        },
{
    let n = t.len();
    let e = digit_run_end_exec(t, i);
    proof {
        lemma_digit_run(t@, i as int);
    }
    if e == i || e >= n || t[e] != ';' {
        return None;
    }
    let ghost run = t@.subrange(i as int, e as int);
    proof {
        assert forall|j: int| 0 <= j < run.len() implies is_digit(#[trigger] run[j]) by {
            assert(run[j] == t@[i + j]);
        }
    }
    let mut acc: u64 = 0;
    let mut k: usize = i;
    while k < e
        invariant
            i <= k <= e <= t@.len(),
            n == t@.len(),
            e == digit_run_end(t@, i as int),
            e < n && t@[e as int] == ';',
            run == t@.subrange(i as int, e as int),
            all_digits(run),
            acc == digits_val(run.subrange(0, k - i)),
        decreases e - k,
    {
        let c = t[k];
        proof {
            assert(run[k - i] == t@[k as int]);
            assert(is_digit(run[k - i]));
        }
        let d: u64 = ((c as u32) - 48) as u64;
        proof {
            assert(run.subrange(0, k - i + 1).drop_last() =~= run.subrange(0, k - i));
            assert(run.subrange(0, k - i + 1).last() == run[k - i]);
        }
        if acc > (u64::MAX - d) / 10 {
            proof {
                assert(digits_val(run.subrange(0, k - i + 1)) == acc * 10 + d);
                assert(acc * 10 + d > u64::MAX) by (nonlinear_arith)
                    requires
                        acc > (u64::MAX - d) / 10,
                        0 <= d <= 9,
                ;
                lemma_digits_val_monotone(run, k - i + 1);
            }
            return None;
        }
        proof {
            assert(acc * 10 + d <= u64::MAX) by (nonlinear_arith)
                requires
                    acc <= (u64::MAX - d) / 10,
                    0 <= d <= 9,
            ;
        }
        acc = acc * 10 + d;
        k += 1;
    }
    proof {
        assert(run.subrange(0, e - i) =~= run);
    }
    Some((acc, e + 1))
}

fn read_text_str(t: &Vec<char>, i: usize) -> (r: Option<(Vec<char>, usize)>)
    requires
        i <= t@.len(),
    ensures
        match r {
            Some(p) => dec_text_str(t@, i as int) == Some((p.0@, p.1 as int)) && p.1 <= t@.len(),
            None => dec_text_str(t@, i as int) == None::<(Seq<char>, int)>,
        },
{
    let n = t.len();
    let e = digit_run_end_exec(t, i);
    proof {
        lemma_digit_run(t@, i as int);
    }
    if e == i || e >= n || t[e] != ':' {
        return None;
    }
    let ghost run = t@.subrange(i as int, e as int);
    proof {
        assert forall|j: int| 0 <= j < run.len() implies is_digit(#[trigger] run[j]) by {
            assert(run[j] == t@[i + j]);
        }
    }
    // The count, with the same overflow handling as a number.
    let mut acc: u64 = 0;
    let mut k: usize = i;
    while k < e
        invariant
            i <= k <= e <= t@.len(),
            n == t@.len(),
            e == digit_run_end(t@, i as int),
            e < n && t@[e as int] == ':',
            run == t@.subrange(i as int, e as int),
            all_digits(run),
            acc == digits_val(run.subrange(0, k - i)),
        decreases e - k,
    {
        let c = t[k];
        proof {
            assert(run[k - i] == t@[k as int]);
            assert(is_digit(run[k - i]));
        }
        let d: u64 = ((c as u32) - 48) as u64;
        proof {
            assert(run.subrange(0, k - i + 1).drop_last() =~= run.subrange(0, k - i));
            assert(run.subrange(0, k - i + 1).last() == run[k - i]);
        }
        if acc > (u64::MAX - d) / 10 {
            proof {
                assert(digits_val(run.subrange(0, k - i + 1)) == acc * 10 + d);
                assert(acc * 10 + d > u64::MAX) by (nonlinear_arith)
                    requires
                        acc > (u64::MAX - d) / 10,
                        0 <= d <= 9,
                ;
                lemma_digits_val_monotone(run, k - i + 1);
                // A count past u64::MAX cannot fit in the remaining text.
                assert(digits_val(run) > u64::MAX);
                assert(e + 1 + digits_val(t@.subrange(i as int, e as int)) > t@.len());
            }
            return None;
        }
        proof {
            assert(acc * 10 + d <= u64::MAX) by (nonlinear_arith)
                requires
                    acc <= (u64::MAX - d) / 10,
                    0 <= d <= 9,
            ;
        }
        acc = acc * 10 + d;
        k += 1;
    }
    proof {
        assert(run.subrange(0, e - i) =~= run);
    }
    if acc > (n - (e + 1)) as u64 {
        proof {
            assert(e + 1 + digits_val(run) > t@.len());
        }
        return None;
    }
    let len = acc as usize;
    let body = crate::parse::subvec(t, e + 1, e + 1 + len);
    Some((body, e + 1 + len))
}


// ------------------------------------------------------------------
// Entry lists, index and envelope (text profile)
// ------------------------------------------------------------------
pub open spec fn text_time_entry(e: (Seq<char>, u64)) -> Seq<char> {
    enc_text_str(e.0) + enc_num(e.1)
}

pub open spec fn text_time_entries(kv: Seq<(Seq<char>, u64)>) -> Seq<char>
    decreases kv.len(),
{
    if kv.len() == 0 {
        Seq::empty()
    } else {
        text_time_entry(kv.first()) + text_time_entries(kv.drop_first())
    }
}

pub open spec fn dec_text_time_entry(t: Seq<char>, i: int) -> Option<((Seq<char>, u64), int)> {
    match dec_text_str(t, i) {
        Some((cs, j)) => match dec_num(t, j) {
            Some((v, e)) => Some(((cs, v), e)),
            None => None,
        },
        None => None,
    }
}

pub open spec fn dec_text_time_entries(t: Seq<char>, i: int, count: nat) -> Option<
    (Seq<(Seq<char>, u64)>, int),
>
    decreases count,
{
    if count == 0 {
        Some((Seq::empty(), i))
    } else {
        match dec_text_time_entry(t, i) {
            Some((e, j)) => match dec_text_time_entries(t, j, (count - 1) as nat) {
                Some((rest, m)) => Some((seq![e] + rest, m)),
                None => None,
            },
            None => None,
        }
    }
}

pub open spec fn text_pair_time_entry(e: ((Seq<char>, Seq<char>), u64)) -> Seq<char> {
    enc_text_str(e.0.0) + enc_text_str(e.0.1) + enc_num(e.1)
}

pub open spec fn text_pair_time_entries(kv: Seq<((Seq<char>, Seq<char>), u64)>) -> Seq<char>
    decreases kv.len(),
{
    if kv.len() == 0 {
        Seq::empty()
    } else {
        text_pair_time_entry(kv.first()) + text_pair_time_entries(kv.drop_first())
    }
}

pub open spec fn dec_text_pair_time_entry(t: Seq<char>, i: int) -> Option<
    (((Seq<char>, Seq<char>), u64), int),
> {
    match dec_text_str(t, i) {
        Some((a, j)) => match dec_text_str(t, j) {
            Some((b, k)) => match dec_num(t, k) {
                Some((v, e)) => Some((((a, b), v), e)),
                None => None,
            },
            None => None,
        },
        None => None,
    }
}

pub open spec fn dec_text_pair_time_entries(t: Seq<char>, i: int, count: nat) -> Option<
    (Seq<((Seq<char>, Seq<char>), u64)>, int),
>
    decreases count,
{
    if count == 0 {
        Some((Seq::empty(), i))
    } else {
        match dec_text_pair_time_entry(t, i) {
            Some((e, j)) => match dec_text_pair_time_entries(t, j, (count - 1) as nat) {
                Some((rest, m)) => Some((seq![e] + rest, m)),
                None => None,
            },
            None => None,
        }
    }
}

pub open spec fn text_pair_str_entry(e: ((Seq<char>, Seq<char>), Seq<char>)) -> Seq<char> {
    enc_text_str(e.0.0) + enc_text_str(e.0.1) + enc_text_str(e.1)
}

pub open spec fn text_pair_str_entries(kv: Seq<((Seq<char>, Seq<char>), Seq<char>)>) -> Seq<char>
    decreases kv.len(),
{
    if kv.len() == 0 {
        Seq::empty()
    } else {
        text_pair_str_entry(kv.first()) + text_pair_str_entries(kv.drop_first())
    }
}

pub open spec fn dec_text_pair_str_entry(t: Seq<char>, i: int) -> Option<
    (((Seq<char>, Seq<char>), Seq<char>), int),
> {
    match dec_text_str(t, i) {
        Some((a, j)) => match dec_text_str(t, j) {
            Some((b, k)) => match dec_text_str(t, k) {
                Some((v, e)) => Some((((a, b), v), e)),
                None => None,
            },
            None => None,
        },
        None => None,
    }
}

pub open spec fn dec_text_pair_str_entries(t: Seq<char>, i: int, count: nat) -> Option<
    (Seq<((Seq<char>, Seq<char>), Seq<char>)>, int),
>
    decreases count,
{
    if count == 0 {
        Some((Seq::empty(), i))
    } else {
        match dec_text_pair_str_entry(t, i) {
            Some((e, j)) => match dec_text_pair_str_entries(t, j, (count - 1) as nat) {
                Some((rest, m)) => Some((seq![e] + rest, m)),
                None => None,
            },
            None => None,
        }
    }
}

pub open spec fn text_time_map(kv: Seq<(Seq<char>, u64)>) -> Seq<char> {
    enc_num(kv.len() as u64) + text_time_entries(kv)
}

pub open spec fn dec_text_time_map(t: Seq<char>, i: int) -> Option<(Seq<(Seq<char>, u64)>, int)> {
    match dec_num(t, i) {
        Some((count, j)) => dec_text_time_entries(t, j, count as nat),
        None => None,
    }
}

pub open spec fn text_pair_time_map(kv: Seq<((Seq<char>, Seq<char>), u64)>) -> Seq<char> {
    enc_num(kv.len() as u64) + text_pair_time_entries(kv)
}

pub open spec fn dec_text_pair_time_map(t: Seq<char>, i: int) -> Option<
    (Seq<((Seq<char>, Seq<char>), u64)>, int),
> {
    match dec_num(t, i) {
        Some((count, j)) => dec_text_pair_time_entries(t, j, count as nat),
        None => None,
    }
}

pub open spec fn text_pair_str_map(kv: Seq<((Seq<char>, Seq<char>), Seq<char>)>) -> Seq<char> {
    enc_num(kv.len() as u64) + text_pair_str_entries(kv)
}

pub open spec fn dec_text_pair_str_map(t: Seq<char>, i: int) -> Option<
    (Seq<((Seq<char>, Seq<char>), Seq<char>)>, int),
> {
    match dec_num(t, i) {
        Some((count, j)) => dec_text_pair_str_entries(t, j, count as nat),
        None => None,
    }
}

pub open spec fn text_index(m: CacheModel) -> Seq<char> {
    text_time_map(m.embedding) + text_time_map(m.keyword) + text_time_map(m.suggestion)
        + text_pair_time_map(m.ignored) + text_pair_str_map(m.insertion)
}

pub open spec fn dec_text_index(t: Seq<char>, i: int) -> Option<(CacheModel, int)> {
    match dec_text_time_map(t, i) {
        Some((embedding, i1)) => match dec_text_time_map(t, i1) {
            Some((keyword, i2)) => match dec_text_time_map(t, i2) {
                Some((suggestion, i3)) => match dec_text_pair_time_map(t, i3) {
                    Some((ignored, i4)) => match dec_text_pair_str_map(t, i4) {
                        Some((insertion, i5)) => Some(
                            (
                                CacheModel { embedding, keyword, suggestion, ignored, insertion },
                                i5,
                            ),
                        ),
                        None => None,
                    },
                    None => None,
                },
                None => None,
            },
            None => None,
        },
        None => None,
    }
}

/// The text encoding tag.
pub open spec fn text_tag() -> Seq<char> {
    seq!['t', 'e', 'x', 't']
}

pub open spec fn text_envelope(m: CacheModel, version: u32, created_at: u64) -> Seq<char> {
    enc_num(version as u64) + enc_text_str(text_tag()) + enc_num(created_at) + text_index(m)
}

pub open spec fn spec_decode_text_enveloped(t: Seq<char>) -> Option<CacheModel> {
    match dec_num(t, 0) {
        Some((version, i1)) => match dec_text_str(t, i1) {
            Some((fmt, i2)) => match dec_num(t, i2) {
                Some((created, i3)) => match dec_text_index(t, i3) {
                    Some((m, e)) => if e == t.len() {
                        Some(m)
                    } else {
                        None
                    },
                    None => None,
                },
                None => None,
            },
            None => None,
        },
        None => None,
    }
}

/// Decoding a text blob: the enveloped form first, then the bare payload as
/// the legacy fallback.
pub open spec fn spec_decode_cache_text(t: Seq<char>) -> Option<CacheModel> {
    match spec_decode_text_enveloped(t) {
        Some(m) => Some(m),
        None => match dec_text_index(t, 0) {
            Some((m, e)) => if e == t.len() {
                Some(m)
            } else {
                None
            },
            None => None,
        },
    }
}

// ------------------------------------------------------------------
// Round trip of the text profile
// ------------------------------------------------------------------
proof fn lemma_dec_text_time_entry_at(t: Seq<char>, i: int, e: (Seq<char>, u64))
    requires
        0 <= i,
        i + text_time_entry(e).len() <= t.len(),
        t.subrange(i, i + text_time_entry(e).len()) == text_time_entry(e),
    ensures
        dec_text_time_entry(t, i) == Some((e, i + text_time_entry(e).len())),
{
    let l1 = enc_text_str(e.0).len() as int;
    lemma_split_chars(t, i, enc_text_str(e.0), enc_num(e.1));
    lemma_dec_text_str_at(t, i, e.0);
    lemma_dec_num_at(t, i + l1, e.1);
}

proof fn lemma_dec_text_time_entries_at(t: Seq<char>, i: int, kv: Seq<(Seq<char>, u64)>)
    requires
        0 <= i,
        i + text_time_entries(kv).len() <= t.len(),
        t.subrange(i, i + text_time_entries(kv).len()) == text_time_entries(kv),
    ensures
        dec_text_time_entries(t, i, kv.len()) == Some((kv, i + text_time_entries(kv).len())),
    decreases kv.len(),
{
    if kv.len() == 0 {
        assert(kv =~= Seq::<(Seq<char>, u64)>::empty());
    } else {
        let l0 = text_time_entry(kv.first()).len() as int;
        lemma_split_chars(t, i, text_time_entry(kv.first()), text_time_entries(kv.drop_first()));
        lemma_dec_text_time_entry_at(t, i, kv.first());
        lemma_dec_text_time_entries_at(t, i + l0, kv.drop_first());
        assert(seq![kv.first()] + kv.drop_first() =~= kv);
    }
}

proof fn lemma_dec_text_pair_time_entry_at(t: Seq<char>, i: int, e: ((Seq<char>, Seq<char>), u64))
    requires
        0 <= i,
        i + text_pair_time_entry(e).len() <= t.len(),
        t.subrange(i, i + text_pair_time_entry(e).len()) == text_pair_time_entry(e),
    ensures
        dec_text_pair_time_entry(t, i) == Some((e, i + text_pair_time_entry(e).len())),
{
    let l1 = enc_text_str(e.0.0).len() as int;
    let l2 = enc_text_str(e.0.1).len() as int;
    assert(text_pair_time_entry(e) =~= enc_text_str(e.0.0) + (enc_text_str(e.0.1) + enc_num(
        e.1,
    )));
    lemma_split_chars(t, i, enc_text_str(e.0.0), enc_text_str(e.0.1) + enc_num(e.1));
    lemma_dec_text_str_at(t, i, e.0.0);
    lemma_split_chars(t, i + l1, enc_text_str(e.0.1), enc_num(e.1));
    lemma_dec_text_str_at(t, i + l1, e.0.1);
    lemma_dec_num_at(t, i + l1 + l2, e.1);
}

proof fn lemma_dec_text_pair_time_entries_at(
    t: Seq<char>,
    i: int,
    kv: Seq<((Seq<char>, Seq<char>), u64)>,
)
    requires
        0 <= i,
        i + text_pair_time_entries(kv).len() <= t.len(),
        t.subrange(i, i + text_pair_time_entries(kv).len()) == text_pair_time_entries(kv),
    ensures
        dec_text_pair_time_entries(t, i, kv.len()) == Some(
            (kv, i + text_pair_time_entries(kv).len()),
        ),
    decreases kv.len(),
{
    if kv.len() == 0 {
        assert(kv =~= Seq::<((Seq<char>, Seq<char>), u64)>::empty());
    } else {
        let l0 = text_pair_time_entry(kv.first()).len() as int;
        lemma_split_chars(
            t,
            i,
            text_pair_time_entry(kv.first()),
            text_pair_time_entries(kv.drop_first()),
        );
        lemma_dec_text_pair_time_entry_at(t, i, kv.first());
        lemma_dec_text_pair_time_entries_at(t, i + l0, kv.drop_first());
        assert(seq![kv.first()] + kv.drop_first() =~= kv);
    }
}

proof fn lemma_dec_text_pair_str_entry_at(
    t: Seq<char>,
    i: int,
    e: ((Seq<char>, Seq<char>), Seq<char>),
)
    requires
        0 <= i,
        i + text_pair_str_entry(e).len() <= t.len(),
        t.subrange(i, i + text_pair_str_entry(e).len()) == text_pair_str_entry(e),
    ensures
        dec_text_pair_str_entry(t, i) == Some((e, i + text_pair_str_entry(e).len())),
{
    let l1 = enc_text_str(e.0.0).len() as int;
    let l2 = enc_text_str(e.0.1).len() as int;
    assert(text_pair_str_entry(e) =~= enc_text_str(e.0.0) + (enc_text_str(e.0.1) + enc_text_str(
        e.1,
    )));
    lemma_split_chars(t, i, enc_text_str(e.0.0), enc_text_str(e.0.1) + enc_text_str(e.1));
    lemma_dec_text_str_at(t, i, e.0.0);
    lemma_split_chars(t, i + l1, enc_text_str(e.0.1), enc_text_str(e.1));
    lemma_dec_text_str_at(t, i + l1, e.0.1);
    lemma_dec_text_str_at(t, i + l1 + l2, e.1);
}

proof fn lemma_dec_text_pair_str_entries_at(
    t: Seq<char>,
    i: int,
    kv: Seq<((Seq<char>, Seq<char>), Seq<char>)>,
)
    requires
        0 <= i,
        i + text_pair_str_entries(kv).len() <= t.len(),
        t.subrange(i, i + text_pair_str_entries(kv).len()) == text_pair_str_entries(kv),
    ensures
        dec_text_pair_str_entries(t, i, kv.len()) == Some(
            (kv, i + text_pair_str_entries(kv).len()),
        ),
    decreases kv.len(),
{
    if kv.len() == 0 {
        assert(kv =~= Seq::<((Seq<char>, Seq<char>), Seq<char>)>::empty());
    } else {
        let l0 = text_pair_str_entry(kv.first()).len() as int;
        lemma_split_chars(
            t,
            i,
            text_pair_str_entry(kv.first()),
            text_pair_str_entries(kv.drop_first()),
        );
        lemma_dec_text_pair_str_entry_at(t, i, kv.first());
        lemma_dec_text_pair_str_entries_at(t, i + l0, kv.drop_first());
        assert(seq![kv.first()] + kv.drop_first() =~= kv);
    }
}

proof fn lemma_dec_text_time_map_at(t: Seq<char>, i: int, kv: Seq<(Seq<char>, u64)>)
    requires
        0 <= i,
        kv.len() <= u64::MAX,
        i + text_time_map(kv).len() <= t.len(),
        t.subrange(i, i + text_time_map(kv).len()) == text_time_map(kv),
    ensures
        dec_text_time_map(t, i) == Some((kv, i + text_time_map(kv).len())),
{
    let l0 = enc_num(kv.len() as u64).len() as int;
    lemma_split_chars(t, i, enc_num(kv.len() as u64), text_time_entries(kv));
    lemma_dec_num_at(t, i, kv.len() as u64);
    lemma_dec_text_time_entries_at(t, i + l0, kv);
    assert((kv.len() as u64) as nat == kv.len());
}

proof fn lemma_dec_text_pair_time_map_at(t: Seq<char>, i: int, kv: Seq<((Seq<char>, Seq<char>), u64)>)
    requires
        0 <= i,
        kv.len() <= u64::MAX,
        i + text_pair_time_map(kv).len() <= t.len(),
        t.subrange(i, i + text_pair_time_map(kv).len()) == text_pair_time_map(kv),
    ensures
        dec_text_pair_time_map(t, i) == Some((kv, i + text_pair_time_map(kv).len())),
{
    let l0 = enc_num(kv.len() as u64).len() as int;
    lemma_split_chars(t, i, enc_num(kv.len() as u64), text_pair_time_entries(kv));
    lemma_dec_num_at(t, i, kv.len() as u64);
    lemma_dec_text_pair_time_entries_at(t, i + l0, kv);
    assert((kv.len() as u64) as nat == kv.len());
}

proof fn lemma_dec_text_pair_str_map_at(
    t: Seq<char>,
    i: int,
    kv: Seq<((Seq<char>, Seq<char>), Seq<char>)>,
)
    requires
        0 <= i,
        kv.len() <= u64::MAX,
        i + text_pair_str_map(kv).len() <= t.len(),
        t.subrange(i, i + text_pair_str_map(kv).len()) == text_pair_str_map(kv),
    ensures
        dec_text_pair_str_map(t, i) == Some((kv, i + text_pair_str_map(kv).len())),
{
    let l0 = enc_num(kv.len() as u64).len() as int;
    lemma_split_chars(t, i, enc_num(kv.len() as u64), text_pair_str_entries(kv));
    lemma_dec_num_at(t, i, kv.len() as u64);
    lemma_dec_text_pair_str_entries_at(t, i + l0, kv);
    assert((kv.len() as u64) as nat == kv.len());
}

#[verifier::rlimit(100)]
proof fn lemma_dec_text_index_at(t: Seq<char>, i: int, m: CacheModel)
    requires
        0 <= i,
        crate::codec::model_bounded(m),
        i + text_index(m).len() <= t.len(),
        t.subrange(i, i + text_index(m).len()) == text_index(m),
    ensures
        dec_text_index(t, i) == Some((m, i + text_index(m).len())),
{
    let p1 = text_time_map(m.embedding);
    let p2 = text_time_map(m.keyword);
    let p3 = text_time_map(m.suggestion);
    let p4 = text_pair_time_map(m.ignored);
    let p5 = text_pair_str_map(m.insertion);
    assert(text_index(m) =~= p1 + (p2 + (p3 + (p4 + p5))));
    let o1 = i + p1.len() as int;
    lemma_split_chars(t, i, p1, p2 + (p3 + (p4 + p5)));
    lemma_dec_text_time_map_at(t, i, m.embedding);
    let o2 = o1 + p2.len() as int;
    lemma_split_chars(t, o1, p2, p3 + (p4 + p5));
    lemma_dec_text_time_map_at(t, o1, m.keyword);
    let o3 = o2 + p3.len() as int;
    lemma_split_chars(t, o2, p3, p4 + p5);
    lemma_dec_text_time_map_at(t, o2, m.suggestion);
    let o4 = o3 + p4.len() as int;
    lemma_split_chars(t, o3, p4, p5);
    lemma_dec_text_pair_time_map_at(t, o3, m.ignored);
    lemma_dec_text_pair_str_map_at(t, o4, m.insertion);
}

/// Law: the text profile round-trips: decoding what was encoded gives the
/// same logical cache back, whatever version and timestamp the envelope
/// carries.
#[verifier::rlimit(100)]
pub proof fn law_round_trip_text(m: CacheModel, version: u32, created_at: u64)
    requires
        crate::codec::model_bounded(m),
    ensures
        spec_decode_cache_text(text_envelope(m, version, created_at)) == Some(m),
{
    let t = text_envelope(m, version, created_at);
    let p1 = enc_num(version as u64);
    let p2 = enc_text_str(text_tag());
    let p3 = enc_num(created_at);
    let p4 = text_index(m);
    assert(t =~= p1 + (p2 + (p3 + p4)));
    assert(t.subrange(0, t.len() as int) =~= t);
    let o1: int = 0 + p1.len() as int;
    lemma_split_chars(t, 0, p1, p2 + (p3 + p4));
    lemma_dec_num_at(t, 0, version as u64);
    let o2: int = o1 + p2.len() as int;
    lemma_split_chars(t, o1, p2, p3 + p4);
    lemma_dec_text_str_at(t, o1, text_tag());
    let o3: int = o2 + p3.len() as int;
    lemma_split_chars(t, o2, p3, p4);
    lemma_dec_num_at(t, o2, created_at);
    lemma_dec_text_index_at(t, o3, m);
}


// ------------------------------------------------------------------
// Executable text encode / decode
// ------------------------------------------------------------------
proof fn lemma_text_time_entries_push(kv: Seq<(Seq<char>, u64)>, e: (Seq<char>, u64))
    ensures
        text_time_entries(kv.push(e)) == text_time_entries(kv) + text_time_entry(e),
    decreases kv.len(),
{
    if kv.len() == 0 {
        assert(kv.push(e).first() == e);
        assert(kv.push(e).drop_first() =~= Seq::<(Seq<char>, u64)>::empty());
        assert(text_time_entries(kv.push(e)) == text_time_entry(e) + text_time_entries(
            Seq::<(Seq<char>, u64)>::empty(),
        ));
        assert(text_time_entries(kv.push(e)) =~= text_time_entries(kv) + text_time_entry(e));
    } else {
        assert(kv.push(e).drop_first() =~= kv.drop_first().push(e));
        lemma_text_time_entries_push(kv.drop_first(), e);
        assert(text_time_entries(kv.push(e)) =~= text_time_entries(kv) + text_time_entry(e));
    }
}

proof fn lemma_text_pair_time_entries_push(
    kv: Seq<((Seq<char>, Seq<char>), u64)>,
    e: ((Seq<char>, Seq<char>), u64),
)
    ensures
        text_pair_time_entries(kv.push(e)) == text_pair_time_entries(kv) + text_pair_time_entry(
            e,
        ),
    decreases kv.len(),
{
    if kv.len() == 0 {
        assert(kv.push(e).first() == e);
        assert(kv.push(e).drop_first() =~= Seq::<((Seq<char>, Seq<char>), u64)>::empty());
        assert(text_pair_time_entries(kv.push(e)) == text_pair_time_entry(e)
            + text_pair_time_entries(Seq::<((Seq<char>, Seq<char>), u64)>::empty()));
        assert(text_pair_time_entries(kv.push(e)) =~= text_pair_time_entries(kv)
            + text_pair_time_entry(e));
    } else {
        assert(kv.push(e).drop_first() =~= kv.drop_first().push(e));
        lemma_text_pair_time_entries_push(kv.drop_first(), e);
        assert(text_pair_time_entries(kv.push(e)) =~= text_pair_time_entries(kv)
            + text_pair_time_entry(e));
    }
}

proof fn lemma_text_pair_str_entries_push(
    kv: Seq<((Seq<char>, Seq<char>), Seq<char>)>,
    e: ((Seq<char>, Seq<char>), Seq<char>),
)
    ensures
        text_pair_str_entries(kv.push(e)) == text_pair_str_entries(kv) + text_pair_str_entry(e),
    decreases kv.len(),
{
    if kv.len() == 0 {
        assert(kv.push(e).first() == e);
        assert(kv.push(e).drop_first() =~= Seq::<((Seq<char>, Seq<char>), Seq<char>)>::empty());
        assert(text_pair_str_entries(kv.push(e)) == text_pair_str_entry(e)
            + text_pair_str_entries(Seq::<((Seq<char>, Seq<char>), Seq<char>)>::empty()));
        assert(text_pair_str_entries(kv.push(e)) =~= text_pair_str_entries(kv)
            + text_pair_str_entry(e));
    } else {
        assert(kv.push(e).drop_first() =~= kv.drop_first().push(e));
        lemma_text_pair_str_entries_push(kv.drop_first(), e);
        assert(text_pair_str_entries(kv.push(e)) =~= text_pair_str_entries(kv)
            + text_pair_str_entry(e));
    }
}

fn push_text_time_map(out: &mut Vec<char>, m: &crate::kvmap::KeyMap<String, u64>)
    ensures
        final(out)@ == old(out)@ + text_time_map(m.kv()),
{
    let n = m.num_entries();
    push_num(out, n as u64);
    let ghost base = out@;
    let mut t: usize = 0;
    while t < n
        invariant
            n == m.kv().len(),
            t <= n,
            out@ =~= base + text_time_entries(m.kv().subrange(0, t as int)),
        decreases n - t,
    {
        let key_chars = crate::strutil::chars_of(m.key_at(t).as_str());
        push_text_str(out, &key_chars);
        push_num(out, *m.val_at(t));
        proof {
            lemma_text_time_entries_push(m.kv().subrange(0, t as int), m.kv()[t as int]);
            assert(m.kv().subrange(0, t + 1) =~= m.kv().subrange(0, t as int).push(
                m.kv()[t as int],
            ));
            assert(out@ =~= base + text_time_entries(m.kv().subrange(0, t + 1)));
        }
        t += 1;
    }
    proof {
        assert(m.kv().subrange(0, n as int) =~= m.kv());
        assert(out@ =~= old(out)@ + text_time_map(m.kv()));
    }
}

fn push_text_pair_time_map(out: &mut Vec<char>, m: &crate::kvmap::KeyMap<crate::kvmap::PairKey, u64>)
    ensures
        final(out)@ == old(out)@ + text_pair_time_map(m.kv()),
{
    let n = m.num_entries();
    push_num(out, n as u64);
    let ghost base = out@;
    let mut t: usize = 0;
    while t < n
        invariant
            n == m.kv().len(),
            t <= n,
            out@ =~= base + text_pair_time_entries(m.kv().subrange(0, t as int)),
        decreases n - t,
    {
        let key = m.key_at(t);
        let a = crate::strutil::chars_of(key.first.as_str());
        let b = crate::strutil::chars_of(key.second.as_str());
        push_text_str(out, &a);
        push_text_str(out, &b);
        push_num(out, *m.val_at(t));
        proof {
            lemma_text_pair_time_entries_push(m.kv().subrange(0, t as int), m.kv()[t as int]);
            assert(m.kv().subrange(0, t + 1) =~= m.kv().subrange(0, t as int).push(
                m.kv()[t as int],
            ));
            assert(out@ =~= base + text_pair_time_entries(m.kv().subrange(0, t + 1)));
        }
        t += 1;
    }
    proof {
        assert(m.kv().subrange(0, n as int) =~= m.kv());
        assert(out@ =~= old(out)@ + text_pair_time_map(m.kv()));
    }
}

fn push_text_pair_str_map(
    out: &mut Vec<char>,
    m: &crate::kvmap::KeyMap<crate::kvmap::PairKey, String>,
)
    ensures
        final(out)@ == old(out)@ + text_pair_str_map(m.kv()),
{
    let n = m.num_entries();
    push_num(out, n as u64);
    let ghost base = out@;
    let mut t: usize = 0;
    while t < n
        invariant
            n == m.kv().len(),
            t <= n,
            out@ =~= base + text_pair_str_entries(m.kv().subrange(0, t as int)),
        decreases n - t,
    {
        let key = m.key_at(t);
        let a = crate::strutil::chars_of(key.first.as_str());
        let b = crate::strutil::chars_of(key.second.as_str());
        let v = crate::strutil::chars_of(m.val_at(t).as_str());
        push_text_str(out, &a);
        push_text_str(out, &b);
        push_text_str(out, &v);
        proof {
            lemma_text_pair_str_entries_push(m.kv().subrange(0, t as int), m.kv()[t as int]);
            assert(m.kv().subrange(0, t + 1) =~= m.kv().subrange(0, t as int).push(
                m.kv()[t as int],
            ));
            assert(out@ =~= base + text_pair_str_entries(m.kv().subrange(0, t + 1)));
        }
        t += 1;
    }
    proof {
        assert(m.kv().subrange(0, n as int) =~= m.kv());
        assert(out@ =~= old(out)@ + text_pair_str_map(m.kv()));
    }
}

/// Serializes a cache index in the text profile, with envelope.
pub fn encode_cache_text(c: &CacheIndex, created_at: u64) -> (r: String)
    ensures
        r@ == text_envelope(cache_model(*c), CACHE_FORMAT_VERSION, created_at),
{
    let mut out: Vec<char> = Vec::new();
    push_num(&mut out, CACHE_FORMAT_VERSION as u64);
    let tag: Vec<char> = vec!['t', 'e', 'x', 't'];
    proof {
        assert(tag@ =~= text_tag());
    }
    push_text_str(&mut out, &tag);
    push_num(&mut out, created_at);
    push_text_time_map(&mut out, &c.embedding_mtimes);
    push_text_time_map(&mut out, &c.keyword_mtimes);
    push_text_time_map(&mut out, &c.suggestion_mtimes);
    push_text_pair_time_map(&mut out, &c.ignored_suggestions);
    push_text_pair_str_map(&mut out, &c.insertion_cache);
    proof {
        assert(out@ =~= text_envelope(cache_model(*c), CACHE_FORMAT_VERSION, created_at));
    }
    crate::strutil::string_from_chars(&out)
}

fn read_text_time_map(t: &Vec<char>, i: usize) -> (r: Option<
    (crate::kvmap::KeyMap<String, u64>, usize, Ghost<Seq<(Seq<char>, u64)>>),
>)
    requires
        i <= t@.len(),
    ensures
        match r {
            Some(p) => p.1 <= t@.len() && p.0.wf() && dec_text_time_map(t@, i as int) == Some(
                (p.2@, p.1 as int),
            ) && p.0@ == crate::kvmap::seq_to_map(p.2@),
            None => dec_text_time_map(t@, i as int) == None::<(Seq<(Seq<char>, u64)>, int)>,
        },
{
    let (count, j) = match read_num(t, i) {
        Some(p) => p,
        None => {
            return None;
        },
    };
    let mut map = crate::kvmap::KeyMap::<String, u64>::new();
    let ghost consumed: Seq<(Seq<char>, u64)> = Seq::empty();
    let mut pos = j;
    let mut remaining = count;
    loop
        invariant
            i <= t@.len(),
            pos <= t@.len(),
            remaining <= count,
            dec_num(t@, i as int) == Some((count, j as int)),
            map.wf(),
            map@ == crate::kvmap::seq_to_map(consumed),
            match dec_text_time_entries(t@, pos as int, remaining as nat) {
                Some(p) => dec_text_time_entries(t@, j as int, count as nat) == Some(
                    (consumed + p.0, p.1),
                ),
                None => dec_text_time_entries(t@, j as int, count as nat) == None::<
                    (Seq<(Seq<char>, u64)>, int),
                >,
            },
        decreases remaining,
    {
        if remaining == 0 {
            proof {
                assert(consumed + Seq::<(Seq<char>, u64)>::empty() =~= consumed);
            }
            return Some((map, pos, Ghost(consumed)));
        }
        let (key_chars, k1) = match read_text_str(t, pos) {
            Some(p) => p,
            None => {
                return None;
            },
        };
        let (v, k2) = match read_num(t, k1) {
            Some(p) => p,
            None => {
                return None;
            },
        };
        let key = crate::strutil::string_from_chars(&key_chars);
        proof {
            let e = (key_chars@, v);
            assert(consumed.push(e).drop_last() =~= consumed);
            assert(consumed.push(e).last() == e);
            assert(crate::kvmap::seq_to_map(consumed.push(e)) == crate::kvmap::seq_to_map(
                consumed,
            ).insert(e.0, e.1));
            assert forall|rest: Seq<(Seq<char>, u64)>|
                true implies (consumed + (seq![e] + rest)) =~= (consumed.push(e) + rest) by {}
        }
        map.insert(key, v);
        proof {
            consumed = consumed.push((key_chars@, v));
        }
        pos = k2;
        remaining = remaining - 1;
    }
}

fn read_text_pair_time_map(t: &Vec<char>, i: usize) -> (r: Option<
    (
        crate::kvmap::KeyMap<crate::kvmap::PairKey, u64>,
        usize,
        Ghost<Seq<((Seq<char>, Seq<char>), u64)>>,
    ),
>)
    requires
        i <= t@.len(),
    ensures
        match r {
            Some(p) => p.1 <= t@.len() && p.0.wf() && dec_text_pair_time_map(t@, i as int)
                == Some((p.2@, p.1 as int)) && p.0@ == crate::kvmap::seq_to_map(p.2@),
            None => dec_text_pair_time_map(t@, i as int) == None::<
                (Seq<((Seq<char>, Seq<char>), u64)>, int),
            >,
        },
{
    let (count, j) = match read_num(t, i) {
        Some(p) => p,
        None => {
            return None;
        },
    };
    let mut map = crate::kvmap::KeyMap::<crate::kvmap::PairKey, u64>::new();
    let ghost consumed: Seq<((Seq<char>, Seq<char>), u64)> = Seq::empty();
    let mut pos = j;
    let mut remaining = count;
    loop
        invariant
            i <= t@.len(),
            pos <= t@.len(),
            remaining <= count,
            dec_num(t@, i as int) == Some((count, j as int)),
            map.wf(),
            map@ == crate::kvmap::seq_to_map(consumed),
            match dec_text_pair_time_entries(t@, pos as int, remaining as nat) {
                Some(p) => dec_text_pair_time_entries(t@, j as int, count as nat) == Some(
                    (consumed + p.0, p.1),
                ),
                None => dec_text_pair_time_entries(t@, j as int, count as nat) == None::<
                    (Seq<((Seq<char>, Seq<char>), u64)>, int),
                >,
            },
        decreases remaining,
    {
        if remaining == 0 {
            proof {
                assert(consumed + Seq::<((Seq<char>, Seq<char>), u64)>::empty() =~= consumed);
            }
            return Some((map, pos, Ghost(consumed)));
        }
        let (a_chars, k1) = match read_text_str(t, pos) {
            Some(p) => p,
            None => {
                return None;
            },
        };
        let (b_chars, k2) = match read_text_str(t, k1) {
            Some(p) => p,
            None => {
                return None;
            },
        };
        let (v, k3) = match read_num(t, k2) {
            Some(p) => p,
            None => {
                return None;
            },
        };
        let key = crate::kvmap::PairKey {
            first: crate::strutil::string_from_chars(&a_chars),
            second: crate::strutil::string_from_chars(&b_chars),
        };
        proof {
            let e = ((a_chars@, b_chars@), v);
            assert(consumed.push(e).drop_last() =~= consumed);
            assert(consumed.push(e).last() == e);
            assert(crate::kvmap::seq_to_map(consumed.push(e)) == crate::kvmap::seq_to_map(
                consumed,
            ).insert(e.0, e.1));
            assert forall|rest: Seq<((Seq<char>, Seq<char>), u64)>|
                true implies (consumed + (seq![e] + rest)) =~= (consumed.push(e) + rest) by {}
            assert(key@ == e.0);
        }
        map.insert(key, v);
        proof {
            consumed = consumed.push(((a_chars@, b_chars@), v));
        }
        pos = k3;
        remaining = remaining - 1;
    }
}

fn read_text_pair_str_map(t: &Vec<char>, i: usize) -> (r: Option<
    (
        crate::kvmap::KeyMap<crate::kvmap::PairKey, String>,
        usize,
        Ghost<Seq<((Seq<char>, Seq<char>), Seq<char>)>>,
    ),
>)
    requires
        i <= t@.len(),
    ensures
        match r {
            Some(p) => p.1 <= t@.len() && p.0.wf() && dec_text_pair_str_map(t@, i as int)
                == Some((p.2@, p.1 as int)) && p.0@ == crate::kvmap::seq_to_map(p.2@),
            None => dec_text_pair_str_map(t@, i as int) == None::<
                (Seq<((Seq<char>, Seq<char>), Seq<char>)>, int),
            >,
        },
{
    let (count, j) = match read_num(t, i) {
        Some(p) => p,
        None => {
            return None;
        },
    };
    let mut map = crate::kvmap::KeyMap::<crate::kvmap::PairKey, String>::new();
    let ghost consumed: Seq<((Seq<char>, Seq<char>), Seq<char>)> = Seq::empty();
    let mut pos = j;
    let mut remaining = count;
    loop
        invariant
            i <= t@.len(),
            pos <= t@.len(),
            remaining <= count,
            dec_num(t@, i as int) == Some((count, j as int)),
            map.wf(),
            map@ == crate::kvmap::seq_to_map(consumed),
            match dec_text_pair_str_entries(t@, pos as int, remaining as nat) {
                Some(p) => dec_text_pair_str_entries(t@, j as int, count as nat) == Some(
                    (consumed + p.0, p.1),
                ),
                None => dec_text_pair_str_entries(t@, j as int, count as nat) == None::<
                    (Seq<((Seq<char>, Seq<char>), Seq<char>)>, int),
                >,
            },
        decreases remaining,
    {
        if remaining == 0 {
            proof {
                assert(consumed + Seq::<((Seq<char>, Seq<char>), Seq<char>)>::empty()
                    =~= consumed);
            }
            return Some((map, pos, Ghost(consumed)));
        }
        let (a_chars, k1) = match read_text_str(t, pos) {
            Some(p) => p,
            None => {
                return None;
            },
        };
        let (b_chars, k2) = match read_text_str(t, k1) {
            Some(p) => p,
            None => {
                return None;
            },
        };
        let (v_chars, k3) = match read_text_str(t, k2) {
            Some(p) => p,
            None => {
                return None;
            },
        };
        let key = crate::kvmap::PairKey {
            first: crate::strutil::string_from_chars(&a_chars),
            second: crate::strutil::string_from_chars(&b_chars),
        };
        let value = crate::strutil::string_from_chars(&v_chars);
        proof {
            let e = ((a_chars@, b_chars@), v_chars@);
            assert(consumed.push(e).drop_last() =~= consumed);
            assert(consumed.push(e).last() == e);
            assert(crate::kvmap::seq_to_map(consumed.push(e)) == crate::kvmap::seq_to_map(
                consumed,
            ).insert(e.0, e.1));
            assert forall|rest: Seq<((Seq<char>, Seq<char>), Seq<char>)>|
                true implies (consumed + (seq![e] + rest)) =~= (consumed.push(e) + rest) by {}
            assert(key@ == e.0);
            assert(value@ == e.1);
        }
        map.insert(key, value);
        proof {
            consumed = consumed.push(((a_chars@, b_chars@), v_chars@));
        }
        pos = k3;
        remaining = remaining - 1;
    }
}

#[verifier::rlimit(100)]
fn read_text_index(t: &Vec<char>, i: usize) -> (r: Option<(CacheIndex, usize, Ghost<CacheModel>)>)
    requires
        i <= t@.len(),
    ensures
        match r {
            Some(p) => p.1 <= t@.len() && dec_text_index(t@, i as int) == Some(
                (p.2@, p.1 as int),
            ) && crate::codec::decoded_matches(p.0, p.2@),
            None => dec_text_index(t@, i as int) == None::<(CacheModel, int)>,
        },
{
    let (embedding, i1, kv_e) = match read_text_time_map(t, i) {
        Some(p) => p,
        None => {
            return None;
        },
    };
    let (keyword, i2, kv_k) = match read_text_time_map(t, i1) {
        Some(p) => p,
        None => {
            return None;
        },
    };
    let (suggestion, i3, kv_s) = match read_text_time_map(t, i2) {
        Some(p) => p,
        None => {
            return None;
        },
    };
    let (ignored, i4, kv_g) = match read_text_pair_time_map(t, i3) {
        Some(p) => p,
        None => {
            return None;
        },
    };
    let (insertion, i5, kv_i) = match read_text_pair_str_map(t, i4) {
        Some(p) => p,
        None => {
            return None;
        },
    };
    let c = CacheIndex {
        embedding_mtimes: embedding,
        keyword_mtimes: keyword,
        suggestion_mtimes: suggestion,
        ignored_suggestions: ignored,
        insertion_cache: insertion,
    };
    let ghost m = CacheModel {
        embedding: kv_e@,
        keyword: kv_k@,
        suggestion: kv_s@,
        ignored: kv_g@,
        insertion: kv_i@,
    };
    proof {
        assert(dec_text_index(t@, i as int) == Some((m, i5 as int)));
        assert(crate::codec::decoded_matches(c, m));
    }
    Some((c, i5, Ghost(m)))
}

#[verifier::rlimit(100)]
fn try_decode_text_enveloped(t: &Vec<char>) -> (r: Option<(CacheIndex, Ghost<CacheModel>)>)
    ensures
        match r {
            Some(p) => spec_decode_text_enveloped(t@) == Some(p.1@)
                && crate::codec::decoded_matches(p.0, p.1@),
            None => spec_decode_text_enveloped(t@) == None::<CacheModel>,
        },
{
    let n = t.len();
    match read_num(t, 0) {
        Some((_version, i1)) => match read_text_str(t, i1) {
            Some((_fmt, i2)) => match read_num(t, i2) {
                Some((_created, i3)) => match read_text_index(t, i3) {
                    Some((c, e, m)) => if e == n {
                        Some((c, m))
                    } else {
                        None
                    },
                    None => None,
                },
                None => None,
            },
            None => None,
        },
        None => None,
    }
}

/// Deserializes a text blob: the enveloped form first, then the bare
/// payload as the legacy fallback.
#[verifier::rlimit(100)]
pub fn decode_cache_text(text: &str) -> (r: Option<CacheIndex>)
    ensures
        match spec_decode_cache_text(text@) {
            Some(m) => r matches Some(c) && crate::codec::decoded_matches(c, m),
            None => r is None,
        },
{
    let t = crate::strutil::chars_of(text);
    let n = t.len();
    match try_decode_text_enveloped(&t) {
        Some((c, m)) => {
            proof {
                assert(spec_decode_cache_text(text@) == Some(m@));
                assert(crate::codec::decoded_matches(c, m@));
            }
            Some(c)
        },
        None => match read_text_index(&t, 0) {
            Some((c, e, m)) => {
                if e == n {
                    proof {
                        assert(spec_decode_cache_text(text@) == Some(m@));
                        assert(crate::codec::decoded_matches(c, m@));
                    }
                    Some(c)
                } else {
                    None
                }
            },
            None => None,
        },
    }
}

impl SmartVault {
    /// Serializes the whole cache index in the text profile.
    pub fn serialize_cache_index_text(&self, created_at: u64) -> (r: String)
        ensures
            r@ == text_envelope(cache_model(self.cache_index), CACHE_FORMAT_VERSION, created_at),
    {
        encode_cache_text(&self.cache_index, created_at)
    }

    /// Replaces the cache index with one read from a text blob; an
    /// unreadable blob is an error and leaves the session untouched.
    pub fn deserialize_cache_index_text(&mut self, text: &str) -> (r: Result<
        (),
        crate::codec::CacheDecodeError,
    >)
        requires
            old(self).wf(),
        ensures
            final(self).wf(),
            final(self).embeddings == old(self).embeddings,
            final(self).file_contents == old(self).file_contents,
            final(self).keywords == old(self).keywords,
            match spec_decode_cache_text(text@) {
                Some(m) => r is Ok && crate::codec::decoded_matches(final(self).cache_index, m),
                None => r is Err && *final(self) == *old(self),
            },
    {
        match decode_cache_text(text) {
            Some(index) => {
                self.cache_index = index;
                Ok(())
            },
            None => Err(crate::codec::CacheDecodeError::Malformed),
        }
    }
}

} // verus!
