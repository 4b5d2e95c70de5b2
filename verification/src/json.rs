//! Structured fallbacks for the relevance model's reply: an array of
//! `{"index": N, "score": X, "reason": "..."}` records, a single such
//! record, or an object wrapping such an array under a known field name.
//! The grammar is a small fixed subset of object notation: fields in the
//! canonical order, strings without escape handling.
use vstd::prelude::*;

use crate::parse::{
    digits_val, find_first, frac_milli, is_digit, lemma_find_first, matches_at_chars, subvec,
    RankingItem, RankingModel,
};
use crate::strutil::{is_space, is_space_char, string_from_chars};

verus! {

/// First position at or after `i` holding a non-whitespace character.
pub open spec fn skip_ws(s: Seq<char>, i: int) -> int
    decreases s.len() - i,
{
    if 0 <= i && i < s.len() && is_space(s[i]) {
        skip_ws(s, i + 1)
    } else {
        i
    }
}

pub proof fn lemma_skip_ws(s: Seq<char>, i: int)
    requires
        0 <= i <= s.len(),
    ensures
        i <= skip_ws(s, i) <= s.len(),
    decreases s.len() - i,
{
    if i < s.len() && is_space(s[i]) {
        lemma_skip_ws(s, i + 1);
    }
}

fn skip_ws_exec(s: &Vec<char>, i: usize) -> (r: usize)
    requires
        i <= s@.len(),
    ensures
        r == skip_ws(s@, i as int),
        i <= r <= s@.len(),
{
    let n = s.len();
    let mut j = i;
    while j < n && is_space_char(s[j])
        invariant
            i <= j <= n,
            n == s@.len(),
            skip_ws(s@, i as int) == skip_ws(s@, j as int),
        decreases n - j,
    {
        j += 1;
    }
    j
}

/// Position right after a digit run starting at `i`.
pub open spec fn digit_run_end(s: Seq<char>, i: int) -> int
    decreases s.len() - i,
{
    if 0 <= i && i < s.len() && is_digit(s[i]) {
        digit_run_end(s, i + 1)
    } else {
        i
    }
}

pub proof fn lemma_digit_run(s: Seq<char>, i: int)
    requires
        0 <= i <= s.len(),
    ensures
        i <= digit_run_end(s, i) <= s.len(),
        forall|j: int| i <= j < digit_run_end(s, i) ==> is_digit(#[trigger] s[j]),
        digit_run_end(s, i) < s.len() ==> !is_digit(s[digit_run_end(s, i)]),
    decreases s.len() - i,
{
    if i < s.len() && is_digit(s[i]) {
        lemma_digit_run(s, i + 1);
    }
}

pub(crate) fn digit_run_end_exec(s: &Vec<char>, i: usize) -> (r: usize)
    requires
        i <= s@.len(),
    ensures
        r == digit_run_end(s@, i as int),
        i <= r <= s@.len(),
{
    let n = s.len();
    let mut j = i;
    while j < n && '0' <= s[j] && s[j] <= '9'
        invariant
            i <= j <= n,
            n == s@.len(),
            digit_run_end(s@, i as int) == digit_run_end(s@, j as int),
        decreases n - j,
    {
        j += 1;
    }
    j
}

/// Expects the literal `lit` at position `i`.
pub open spec fn expect_lit(s: Seq<char>, i: int, lit: Seq<char>) -> Option<int> {
    if 0 <= i && i + lit.len() <= s.len() && s.subrange(i, i + lit.len()) == lit {
        Some(i + lit.len())
    } else {
        None
    }
}

fn expect_lit_exec(s: &Vec<char>, i: usize, lit: &Vec<char>) -> (r: Option<usize>)
    requires
        i <= s@.len(),
    ensures
        match r {
            Some(j) => expect_lit(s@, i as int, lit@) == Some(j as int) && i <= j <= s@.len(),
            None => expect_lit(s@, i as int, lit@) == None::<int>,
        },
{
    let n = s.len();
    let m = lit.len();
    if m > n - i {
        return None;
    }
    if matches_at_chars(s, lit, i) {
        Some(i + m)
    } else {
        None
    }
}

/// A string token: everything up to the next quote (no escape handling).
pub open spec fn spec_parse_string_at(s: Seq<char>, i: int) -> Option<(Seq<char>, int)> {
    if 0 <= i && i < s.len() && s[i] == '"' {
        match find_first(s.subrange(i + 1, s.len() as int), seq!['"']) {
            Some(k) => Some((s.subrange(i + 1, i + 1 + k), i + k + 2)),
            None => None,
        }
    } else {
        None
    }
}

fn parse_string_at(s: &Vec<char>, i: usize) -> (r: Option<(Vec<char>, usize)>)
    requires
        i <= s@.len(),
    ensures
        match r {
            Some(p) => spec_parse_string_at(s@, i as int) == Some((p.0@, p.1 as int)) && i < p.1
                <= s@.len(),
            None => spec_parse_string_at(s@, i as int) == None::<(Seq<char>, int)>,
        },
{
    let n = s.len();
    if i >= n || s[i] != '"' {
        return None;
    }
    let tail = subvec(s, i + 1, n);
    let quote: Vec<char> = vec!['"'];
    proof {
        assert(quote@ =~= seq!['"']);
        lemma_find_first(tail@, seq!['"']);
    }
    match crate::parse::find_first_chars(&tail, &quote) {
        Some(k) => {
            let body = subvec(&tail, 0, k);
            proof {
                assert(body@ =~= s@.subrange(i + 1, i + 1 + k));
            }
            Some((body, i + k + 2))
        },
        None => None,
    }
}

/// An unsigned integer token of at most nine digits.
pub open spec fn spec_parse_uint_at(s: Seq<char>, i: int) -> Option<(int, int)> {
    let e = digit_run_end(s, i);
    if 0 <= i && i < e && e - i <= 9 {
        Some((digits_val(s.subrange(i, e)), e))
    } else {
        None
    }
}

fn parse_uint_at(s: &Vec<char>, i: usize) -> (r: Option<(u64, usize)>)
    requires
        i <= s@.len(),
    ensures
        match r {
            Some(p) => spec_parse_uint_at(s@, i as int) == Some((p.0 as int, p.1 as int)) && i
                < p.1 <= s@.len() && p.0 <= 999_999_999,
            None => spec_parse_uint_at(s@, i as int) == None::<(int, int)>,
        },
{
    let e = digit_run_end_exec(s, i);
    if e == i || e - i > 9 {
        return None;
    }
    proof {
        lemma_digit_run(s@, i as int);
        assert forall|j: int| 0 <= j < s@.subrange(i as int, e as int).len()
            implies is_digit(#[trigger] s@.subrange(i as int, e as int)[j]) by {
            assert(s@.subrange(i as int, e as int)[j] == s@[i + j]);
        }
    }
    match crate::parse::parse_digit_run_pub(s, i, e) {
        Some(v) => Some((v, e)),
        None => None,
    }
}

/// A number token: optional minus, whole digits, optional dot and fraction
/// digits; either digit group may be missing but not both (`.5` and `8.`
/// are numbers, `.` is not).  The value is in thousandths.
pub open spec fn spec_parse_number_at(s: Seq<char>, i: int) -> Option<(int, int)> {
    if 0 <= i && i < s.len() {
        let neg = s[i] == '-';
        let j = if neg {
            i + 1
        } else {
            i
        };
        let e = digit_run_end(s, j);
        if e - j > 9 {
            None
        } else {
            let whole = digits_val(s.subrange(j, e));
            if e < s.len() && s[e] == '.' {
                let f = digit_run_end(s, e + 1);
                if e == j && f == e + 1 {
                    None
                } else {
                    let m = whole * 1000 + if f > e + 1 {
                        frac_milli(s.subrange(e + 1, f))
                    } else {
                        0int
                    };
                    Some(
                        (
                            if neg {
                                -m
                            } else {
                                m
                            },
                            f,
                        ),
                    )
                }
            } else if e == j {
                None
            } else {
                Some(
                    (
                        if neg {
                            -(whole * 1000)
                        } else {
                            whole * 1000
                        },
                        e,
                    ),
                )
            }
        }
    } else {
        None
    }
}

fn parse_number_at(s: &Vec<char>, i: usize) -> (r: Option<(i64, usize)>)
    requires
        i <= s@.len(),
    ensures
        match r {
            Some(p) => spec_parse_number_at(s@, i as int) == Some((p.0 as int, p.1 as int)) && i
                < p.1 <= s@.len(),
            None => spec_parse_number_at(s@, i as int) == None::<(int, int)>,
        },
{
    let n = s.len();
    if i >= n {
        return None;
    }
    let neg = s[i] == '-';
    let j = if neg {
        i + 1
    } else {
        i
    };
    if j > n {
        return None;
    }
    let e = digit_run_end_exec(s, j);
    if e - j > 9 {
        return None;
    }
    proof {
        lemma_digit_run(s@, j as int);
        assert forall|q: int| 0 <= q < s@.subrange(j as int, e as int).len()
            implies is_digit(#[trigger] s@.subrange(j as int, e as int)[q]) by {
            assert(s@.subrange(j as int, e as int)[q] == s@[j + q]);
        }
    }
    let whole_val: u64 = if e == j {
        proof {
            assert(s@.subrange(j as int, e as int).len() == 0);
            assert(digits_val(s@.subrange(j as int, e as int)) == 0);
        }
        0
    } else {
        match crate::parse::parse_digit_run_pub(s, j, e) {
            Some(v) => v,
            None => {
                proof {
                    assert(false);
                }
                return None;
            },
        }
    };
    let whole_milli: i64 = (whole_val as i64) * 1000;
    proof {
        assert(whole_val == digits_val(s@.subrange(j as int, e as int)));
        assert(whole_val <= 999_999_999);
    }
    if e < n && s[e] == '.' {
        let f = digit_run_end_exec(s, e + 1);
        if e == j && f == e + 1 {
            return None;
        }
        let milli: i64 = if f == e + 1 {
            0
        } else {
            proof {
                lemma_digit_run(s@, e + 1);
                assert(s@.subrange(e + 1, f as int)[0] == s@[e + 1]);
                if f - e - 1 >= 2 {
                    assert(s@.subrange(e + 1, f as int)[1] == s@[e + 2]);
                }
                if f - e - 1 >= 3 {
                    assert(s@.subrange(e + 1, f as int)[2] == s@[e + 3]);
                }
                assert(is_digit(s@[e + 1]));
            }
            let d0: i64 = ((s[e + 1] as u32) - 48) as i64;
            let m: i64 = if e + 2 >= f {
                d0 * 100
            } else {
                let d1: i64 = ((s[e + 2] as u32) - 48) as i64;
                if e + 3 >= f {
                    d0 * 100 + d1 * 10
                } else {
                    let d2: i64 = ((s[e + 3] as u32) - 48) as i64;
                    d0 * 100 + d1 * 10 + d2
                }
            };
            proof {
                assert(m == frac_milli(s@.subrange(e + 1, f as int)));
            }
            m
        };
        let total: i64 = whole_milli + milli;
        Some(
            (
                if neg {
                    -total
                } else {
                    total
                },
                f,
            ),
        )
    } else if e == j {
        None
    } else {
        Some(
            (
                if neg {
                    -whole_milli
                } else {
                    whole_milli
                },
                e,
            ),
        )
    }
}

/// One `{"index": N, "score": X, "reason": "..."}` record, fields in that
/// order.
pub open spec fn spec_parse_obj_at(s: Seq<char>, i: int) -> Option<(RankingModel, int)> {
    let i0 = skip_ws(s, i);
    match expect_lit(s, i0, seq!['{']) {
        Some(i1) => match expect_lit(s, skip_ws(s, i1), seq!['"', 'i', 'n', 'd', 'e', 'x', '"']) {
            Some(i2) => match expect_lit(s, skip_ws(s, i2), seq![':']) {
                Some(i3) => match spec_parse_uint_at(s, skip_ws(s, i3)) {
                    Some((index, i4)) => match expect_lit(s, skip_ws(s, i4), seq![',']) {
                        Some(i5) => match expect_lit(
                            s,
                            skip_ws(s, i5),
                            seq!['"', 's', 'c', 'o', 'r', 'e', '"'],
                        ) {
                            Some(i6) => match expect_lit(s, skip_ws(s, i6), seq![':']) {
                                Some(i7) => match spec_parse_number_at(s, skip_ws(s, i7)) {
                                    Some((score, i8)) => match expect_lit(
                                        s,
                                        skip_ws(s, i8),
                                        seq![','],
                                    ) {
                                        Some(i9) => match expect_lit(
                                            s,
                                            skip_ws(s, i9),
                                            seq!['"', 'r', 'e', 'a', 's', 'o', 'n', '"'],
                                        ) {
                                            Some(i10) => match expect_lit(
                                                s,
                                                skip_ws(s, i10),
                                                seq![':'],
                                            ) {
                                                Some(i11) => match spec_parse_string_at(
                                                    s,
                                                    skip_ws(s, i11),
                                                ) {
                                                    Some((reason, i12)) => match expect_lit(
                                                        s,
                                                        skip_ws(s, i12),
                                                        seq!['}'],
                                                    ) {
                                                        Some(i13) => Some(
                                                            (
                                                                RankingModel {
                                                                    index,
                                                                    score,
                                                                    reason,
                                                                },
                                                                i13,
                                                            ),
                                                        ),
                                                        None => None,
                                                    },
                                                    None => None,
                                                },
                                                None => None,
                                            },
                                            None => None,
                                        },
                                        None => None,
                                    },
                                    None => None,
                                },
                                None => None,
                            },
                            None => None,
                        },
                        None => None,
                    },
                    None => None,
                },
                None => None,
            },
            None => None,
        },
        None => None,
    }
}

/// Parses one record; `Some` also reports that parsing moved forward.
#[verifier::rlimit(100)]
fn parse_obj_at(s: &Vec<char>, i: usize) -> (r: Option<(RankingItem, usize)>)
    requires
        i <= s@.len(),
    ensures
        match r {
            Some(p) => spec_parse_obj_at(s@, i as int) == Some((p.0.deep_view(), p.1 as int)) && i
                < p.1 <= s@.len(),
            None => spec_parse_obj_at(s@, i as int) == None::<(RankingModel, int)>,
        },
{
    let brace_open: Vec<char> = vec!['{'];
    let brace_close: Vec<char> = vec!['}'];
    let colon: Vec<char> = vec![':'];
    let comma: Vec<char> = vec![','];
    let key_index: Vec<char> = vec!['"', 'i', 'n', 'd', 'e', 'x', '"'];
    let key_score: Vec<char> = vec!['"', 's', 'c', 'o', 'r', 'e', '"'];
    let key_reason: Vec<char> = vec!['"', 'r', 'e', 'a', 's', 'o', 'n', '"'];
    proof {
        assert(brace_open@ =~= seq!['{']);
        assert(brace_close@ =~= seq!['}']);
        assert(colon@ =~= seq![':']);
        assert(comma@ =~= seq![',']);
        assert(key_index@ =~= seq!['"', 'i', 'n', 'd', 'e', 'x', '"']);
        assert(key_score@ =~= seq!['"', 's', 'c', 'o', 'r', 'e', '"']);
        assert(key_reason@ =~= seq!['"', 'r', 'e', 'a', 's', 'o', 'n', '"']);
    }
    let i0 = skip_ws_exec(s, i);
    let i1 = match expect_lit_exec(s, i0, &brace_open) {
        Some(v) => v,
        None => {
            return None;
        },
    };
    let i2 = match expect_lit_exec(s, skip_ws_exec(s, i1), &key_index) {
        Some(v) => v,
        None => {
            return None;
        },
    };
    let i3 = match expect_lit_exec(s, skip_ws_exec(s, i2), &colon) {
        Some(v) => v,
        None => {
            return None;
        },
    };
    let (index_val, i4) = match parse_uint_at(s, skip_ws_exec(s, i3)) {
        Some(p) => p,
        None => {
            return None;
        },
    };
    let i5 = match expect_lit_exec(s, skip_ws_exec(s, i4), &comma) {
        Some(v) => v,
        None => {
            return None;
        },
    };
    let i6 = match expect_lit_exec(s, skip_ws_exec(s, i5), &key_score) {
        Some(v) => v,
        None => {
            return None;
        },
    };
    let i7 = match expect_lit_exec(s, skip_ws_exec(s, i6), &colon) {
        Some(v) => v,
        None => {
            return None;
        },
    };
    let (score, i8) = match parse_number_at(s, skip_ws_exec(s, i7)) {
        Some(p) => p,
        None => {
            return None;
        },
    };
    let i9 = match expect_lit_exec(s, skip_ws_exec(s, i8), &comma) {
        Some(v) => v,
        None => {
            return None;
        },
    };
    let i10 = match expect_lit_exec(s, skip_ws_exec(s, i9), &key_reason) {
        Some(v) => v,
        None => {
            return None;
        },
    };
    let i11 = match expect_lit_exec(s, skip_ws_exec(s, i10), &colon) {
        Some(v) => v,
        None => {
            return None;
        },
    };
    let (reason_chars, i12) = match parse_string_at(s, skip_ws_exec(s, i11)) {
        Some(p) => p,
        None => {
            return None;
        },
    };
    let i13 = match expect_lit_exec(s, skip_ws_exec(s, i12), &brace_close) {
        Some(v) => v,
        None => {
            return None;
        },
    };
    let item = RankingItem {
        index: index_val as usize,
        score,
        reason: string_from_chars(&reason_chars),
    };
    Some((item, i13))
}

/// The records after the opening bracket: record (`,` record)* `]`.
pub open spec fn spec_parse_items(s: Seq<char>, i: int, fuel: nat) -> Option<
    (Seq<RankingModel>, int),
>
    decreases fuel,
{
    if fuel == 0 {
        None
    } else {
        match spec_parse_obj_at(s, i) {
            Some((item, j)) => {
                let k = skip_ws(s, j);
                if 0 <= k && k < s.len() && s[k] == ',' {
                    match spec_parse_items(s, k + 1, (fuel - 1) as nat) {
                        Some((rest, m)) => Some((seq![item] + rest, m)),
                        None => None,
                    }
                } else if 0 <= k && k < s.len() && s[k] == ']' {
                    Some((seq![item], k + 1))
                } else {
                    None
                }
            },
            None => None,
        }
    }
}

fn parse_items(s: &Vec<char>, i: usize, fuel: usize) -> (r: Option<(Vec<RankingItem>, usize)>)
    requires
        i <= s@.len(),
    ensures
        match r {
            Some(p) => spec_parse_items(s@, i as int, fuel as nat) == Some(
                (p.0.deep_view(), p.1 as int),
            ) && p.1 <= s@.len(),
            None => spec_parse_items(s@, i as int, fuel as nat) == None::<
                (Seq<RankingModel>, int),
            >,
        },
{
    let n = s.len();
    let mut out: Vec<RankingItem> = Vec::new();
    let mut pos = i;
    let mut fuel_left = fuel;
    proof {
        assert(out.deep_view() =~= Seq::<RankingModel>::empty());
    }
    loop
        invariant
            n == s@.len(),
            pos <= n,
            fuel_left <= fuel,
            out.deep_view().len() >= 0,
            match spec_parse_items(s@, pos as int, fuel_left as nat) {
                Some(p) => spec_parse_items(s@, i as int, fuel as nat) == Some(
                    (out.deep_view() + p.0, p.1),
                ),
                None => spec_parse_items(s@, i as int, fuel as nat) == None::<
                    (Seq<RankingModel>, int),
                >,
            },
        decreases fuel_left,
    {
        if fuel_left == 0 {
            return None;
        }
        let (item, j) = match parse_obj_at(s, pos) {
            Some(p) => p,
            None => {
                return None;
            },
        };
        let k = skip_ws_exec(s, j);
        let ghost pre = out.deep_view();
        if k < n && s[k] == ',' {
            out.push(item);
            proof {
                assert(out.deep_view() =~= pre + seq![item.deep_view()]);
                assert forall|rest: Seq<RankingModel>|
                    true implies (pre + (seq![item.deep_view()] + rest)) =~= (out.deep_view()
                    + rest) by {}
            }
            pos = k + 1;
            fuel_left = fuel_left - 1;
        } else if k < n && s[k] == ']' {
            out.push(item);
            proof {
                assert(out.deep_view() =~= pre + seq![item.deep_view()]);
                assert(pre + seq![item.deep_view()] =~= out.deep_view());
            }
            return Some((out, k + 1));
        } else {
            return None;
        }
    }
}


/// A whole array: `[` record (`,` record)* `]`, or `[]`, possibly padded
/// with whitespace.
pub open spec fn spec_parse_array_at(s: Seq<char>, i: int, fuel: nat) -> Option<
    (Seq<RankingModel>, int),
> {
    let j = skip_ws(s, i);
    match expect_lit(s, j, seq!['[']) {
        Some(j1) => {
            let k = skip_ws(s, j1);
            if 0 <= k && k < s.len() && s[k] == ']' {
                Some((Seq::empty(), k + 1))
            } else {
                spec_parse_items(s, j1, fuel)
            }
        },
        None => None,
    }
}

fn parse_array_at(s: &Vec<char>, i: usize, fuel: usize) -> (r: Option<(Vec<RankingItem>, usize)>)
    requires
        i <= s@.len(),
    ensures
        match r {
            Some(p) => spec_parse_array_at(s@, i as int, fuel as nat) == Some(
                (p.0.deep_view(), p.1 as int),
            ) && p.1 <= s@.len(),
            None => spec_parse_array_at(s@, i as int, fuel as nat) == None::<
                (Seq<RankingModel>, int),
            >,
        },
{
    let bracket: Vec<char> = vec!['['];
    proof {
        assert(bracket@ =~= seq!['[']);
    }
    let j = skip_ws_exec(s, i);
    match expect_lit_exec(s, j, &bracket) {
        Some(j1) => {
            let k = skip_ws_exec(s, j1);
            if k < s.len() && s[k] == ']' {
                let out: Vec<RankingItem> = Vec::new();
                proof {
                    assert(out.deep_view() =~= Seq::<RankingModel>::empty());
                }
                Some((out, k + 1))
            } else {
                parse_items(s, j1, fuel)
            }
        },
        None => None,
    }
}

/// A whole reply that is exactly one array.
pub open spec fn spec_parse_array_whole(s: Seq<char>) -> Option<Seq<RankingModel>> {
    match spec_parse_array_at(s, 0, s.len() as nat) {
        Some((items, e)) => if skip_ws(s, e) == s.len() {
            Some(items)
        } else {
            None
        },
        None => None,
    }
}

pub fn parse_array_whole(s: &Vec<char>) -> (r: Option<Vec<RankingItem>>)
    ensures
        match r {
            Some(items) => spec_parse_array_whole(s@) == Some(items.deep_view()),
            None => spec_parse_array_whole(s@) == None::<Seq<RankingModel>>,
        },
{
    let n = s.len();
    match parse_array_at(s, 0, n) {
        Some((items, e)) => {
            if skip_ws_exec(s, e) == n {
                Some(items)
            } else {
                None
            }
        },
        None => None,
    }
}

/// A whole reply that is exactly one record.
pub open spec fn spec_parse_obj_whole(s: Seq<char>) -> Option<RankingModel> {
    match spec_parse_obj_at(s, 0) {
        Some((item, e)) => if skip_ws(s, e) == s.len() {
            Some(item)
        } else {
            None
        },
        None => None,
    }
}

pub fn parse_obj_whole(s: &Vec<char>) -> (r: Option<RankingItem>)
    ensures
        match r {
            Some(item) => spec_parse_obj_whole(s@) == Some(item.deep_view()),
            None => spec_parse_obj_whole(s@) == None::<RankingModel>,
        },
{
    let n = s.len();
    match parse_obj_at(s, 0) {
        Some((item, e)) => {
            if skip_ws_exec(s, e) == n {
                Some(item)
            } else {
                None
            }
        },
        None => None,
    }
}

/// A whole reply that is one object wrapping an array under `key`.
pub open spec fn spec_parse_wrapped(s: Seq<char>, key: Seq<char>) -> Option<Seq<RankingModel>> {
    let i0 = skip_ws(s, 0);
    match expect_lit(s, i0, seq!['{']) {
        Some(i1) => match expect_lit(s, skip_ws(s, i1), seq!['"'] + key + seq!['"']) {
            Some(i2) => match expect_lit(s, skip_ws(s, i2), seq![':']) {
                Some(i3) => match spec_parse_array_at(s, i3, s.len() as nat) {
                    Some((items, e)) => match expect_lit(s, skip_ws(s, e), seq!['}']) {
                        Some(i4) => if skip_ws(s, i4) == s.len() {
                            Some(items)
                        } else {
                            None
                        },
                        None => None,
                    },
                    None => None,
                },
                None => None,
            },
            None => None,
        },
        None => None,
    }
}

pub fn parse_wrapped(s: &Vec<char>, key: &Vec<char>) -> (r: Option<Vec<RankingItem>>)
    ensures
        match r {
            Some(items) => spec_parse_wrapped(s@, key@) == Some(items.deep_view()),
            None => spec_parse_wrapped(s@, key@) == None::<Seq<RankingModel>>,
        },
{
    let n = s.len();
    let brace_open: Vec<char> = vec!['{'];
    let brace_close: Vec<char> = vec!['}'];
    let colon: Vec<char> = vec![':'];
    proof {
        assert(brace_open@ =~= seq!['{']);
        assert(brace_close@ =~= seq!['}']);
        assert(colon@ =~= seq![':']);
    }
    let mut quoted: Vec<char> = Vec::new();
    quoted.push('"');
    let klen = key.len();
    let mut t: usize = 0;
    while t < klen
        invariant
            klen == key@.len(),
            t <= klen,
            quoted@ =~= seq!['"'] + key@.subrange(0, t as int),
        decreases klen - t,
    {
        quoted.push(key[t]);
        proof {
            assert(quoted@ =~= seq!['"'] + key@.subrange(0, t + 1));
        }
        t += 1;
    }
    quoted.push('"');
    proof {
        assert(key@.subrange(0, klen as int) =~= key@);
        assert(quoted@ =~= seq!['"'] + key@ + seq!['"']);
    }
    let i0 = skip_ws_exec(s, 0);
    let i1 = match expect_lit_exec(s, i0, &brace_open) {
        Some(v) => v,
        None => {
            return None;
        },
    };
    let i2 = match expect_lit_exec(s, skip_ws_exec(s, i1), &quoted) {
        Some(v) => v,
        None => {
            return None;
        },
    };
    let i3 = match expect_lit_exec(s, skip_ws_exec(s, i2), &colon) {
        Some(v) => v,
        None => {
            return None;
        },
    };
    let (items, e) = match parse_array_at(s, i3, n) {
        Some(p) => p,
        None => {
            return None;
        },
    };
    let i4 = match expect_lit_exec(s, skip_ws_exec(s, e), &brace_close) {
        Some(v) => v,
        None => {
            return None;
        },
    };
    if skip_ws_exec(s, i4) == n {
        Some(items)
    } else {
        None
    }
}

/// Last position of `c` in `s`.
pub open spec fn find_last_char(s: Seq<char>, c: char) -> Option<int>
    decreases s.len(),
{
    if s.len() == 0 {
        None
    } else if s.last() == c {
        Some(s.len() - 1)
    } else {
        find_last_char(s.drop_last(), c)
    }
}

proof fn lemma_find_last_char(s: Seq<char>, c: char)
    ensures
        match find_last_char(s, c) {
            Some(i) => 0 <= i < s.len() && s[i] == c && forall|j: int| i < j < s.len()
                ==> s[j] != c,
            None => forall|j: int| 0 <= j < s.len() ==> s[j] != c,
        },
    decreases s.len(),
{
    if s.len() > 0 && s.last() != c {
        lemma_find_last_char(s.drop_last(), c);
        assert(forall|j: int| 0 <= j < s.len() - 1 ==> s.drop_last()[j] == s[j]);
    }
}

fn find_last_char_exec(s: &Vec<char>, c: char) -> (r: Option<usize>)
    ensures
        match r {
            Some(i) => find_last_char(s@, c) == Some(i as int) && i < s@.len(),
            None => find_last_char(s@, c) == None::<int>,
        },
{
    proof {
        lemma_find_last_char(s@, c);
    }
    let n = s.len();
    let mut i: usize = n;
    while i > 0
        invariant
            n == s@.len(),
            i <= n,
            forall|j: int| i <= j < n ==> s@[j] != c,
            match find_last_char(s@, c) {
                Some(x) => 0 <= x < s@.len() && s@[x] == c && forall|j: int| x < j < s@.len()
                    ==> s@[j] != c,
                None => forall|j: int| 0 <= j < s@.len() ==> s@[j] != c,
            },
        decreases i,
    {
        if s[i - 1] == c {
            proof {
                match find_last_char(s@, c) {
                    Some(x) => {
                        assert(!(x < i - 1));
                        assert(!(i - 1 < x));
                    },
                    None => {
                        assert(false);
                    },
                }
            }
            return Some(i - 1);
        }
        i -= 1;
    }
    proof {
        assert(find_last_char(s@, c) is None);
    }
    None
}

/// The bracketed slice a structured reply is looked for in: from the first
/// `open` to the last `close`, or the whole text when no such pair exists.
pub open spec fn spec_extract_delimited(s: Seq<char>, open: char, close: char) -> Seq<char> {
    match find_first(s, seq![open]) {
        Some(i) => match find_last_char(s, close) {
            Some(j) => if i < j {
                s.subrange(i, j + 1)
            } else {
                s
            },
            None => s,
        },
        None => s,
    }
}

pub fn extract_delimited(s: &Vec<char>, open: char, close: char) -> (r: Vec<char>)
    ensures
        r@ == spec_extract_delimited(s@, open, close),
{
    let n = s.len();
    let opener: Vec<char> = vec![open];
    proof {
        assert(opener@ =~= seq![open]);
        lemma_find_first(s@, seq![open]);
    }
    match crate::parse::find_first_chars(s, &opener) {
        Some(i) => match find_last_char_exec(s, close) {
            Some(j) => {
                if i < j {
                    subvec(s, i, j + 1)
                } else {
                    subvec(s, 0, s.len())
                }
            },
            None => subvec(s, 0, s.len()),
        },
        None => subvec(s, 0, s.len()),
    }
}

} // verus!
