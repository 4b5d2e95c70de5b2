//! Parsers for the external relevance model's reply: a line-oriented natural
//! language form first, then structured fallbacks.  The grammar below is the
//! library's exchange schema; every parser is written against it.
use vstd::prelude::*;

use crate::strutil::{occurs_at, spec_trim, string_from_chars, trim_chars};

verus! {

/// A parsed ranking: the 1-based candidate position, a fixed-point score
/// (thousandths), and a free-text reason.
pub struct RankingItem {
    pub index: usize,
    pub score: i64,
    pub reason: String,
}

/// The mathematical content of a ranking.
pub struct RankingModel {
    pub index: int,
    pub score: int,
    pub reason: Seq<char>,
}

impl DeepView for RankingItem {
    type V = RankingModel;

    open spec fn deep_view(&self) -> RankingModel {
        RankingModel {
            index: self.index as int,
            score: self.score as int,
            reason: self.reason@,
        }
    }
}

/// Position of the first occurrence of `p` in `s`.
pub open spec fn find_first(s: Seq<char>, p: Seq<char>) -> Option<int>
    decreases s.len(),
{
    if occurs_at(s, p, 0) {
        Some(0int)
    } else if s.len() == 0 {
        None
    } else {
        match find_first(s.drop_first(), p) {
            Some(i) => Some(i + 1),
            None => None,
        }
    }
}

/// `find_first` names the least occurrence.
pub proof fn lemma_find_first(s: Seq<char>, p: Seq<char>)
    ensures
        match find_first(s, p) {
            Some(i) => occurs_at(s, p, i) && forall|j: int| 0 <= j < i ==> !occurs_at(s, p, j),
            None => forall|j: int| !occurs_at(s, p, j),
        },
    decreases s.len(),
{
    if occurs_at(s, p, 0) {
    } else if s.len() == 0 {
        assert forall|j: int| !occurs_at(s, p, j) by {}
    } else {
        lemma_find_first(s.drop_first(), p);
        assert forall|j: int| 1 <= j && occurs_at(s, p, j) implies occurs_at(
            s.drop_first(),
            p,
            j - 1,
        ) by {
            assert(s.drop_first().subrange(j - 1, j - 1 + p.len()) =~= s.subrange(
                j,
                j + p.len(),
            ));
        }
        assert forall|j: int| 0 <= j && occurs_at(s.drop_first(), p, j) implies occurs_at(
            s,
            p,
            j + 1,
        ) by {
            assert(s.subrange(j + 1, j + 1 + p.len()) =~= s.drop_first().subrange(
                j,
                j + p.len(),
            ));
        }
    }
}

/// Scans for the first occurrence of `p` in `s`.
pub fn find_first_chars(s: &Vec<char>, p: &Vec<char>) -> (r: Option<usize>)
    ensures
        match r {
            Some(i) => find_first(s@, p@) == Some(i as int),
            None => find_first(s@, p@) == None::<int>,
        },
{
    proof {
        lemma_find_first(s@, p@);
    }
    let n = s.len();
    let m = p.len();
    if m > n {
        proof {
            assert(forall|j: int| !occurs_at(s@, p@, j));
        }
        return None;
    }
    let mut i: usize = 0;
    loop
        invariant
            n == s@.len(),
            m == p@.len(),
            m <= n,
            i <= n - m,
            forall|k: int| 0 <= k < i ==> !occurs_at(s@, p@, k),
            match find_first(s@, p@) {
                Some(x) => occurs_at(s@, p@, x) && forall|j: int| 0 <= j < x ==> !occurs_at(
                    s@,
                    p@,
                    j,
                ),
                None => forall|j: int| !occurs_at(s@, p@, j),
            },
        decreases n - m - i,
    {
        if matches_at_chars(s, p, i) {
            proof {
                assert(occurs_at(s@, p@, i as int));
                match find_first(s@, p@) {
                    Some(x) => {
                        assert(!(x < i));
                        assert(!(i < x));
                    },
                    None => {
                        assert(false);
                    },
                }
            }
            return Some(i);
        }
        if i == n - m {
            proof {
                assert forall|k: int| !occurs_at(s@, p@, k) by {
                    if 0 <= k && k + m <= n {
                        assert(!occurs_at(s@, p@, k));
                    }
                }
                assert(find_first(s@, p@) is None);
            }
            return None;
        }
        i += 1;
    }
}

/// `p` occurs in `s` exactly at `i`.
pub(crate) fn matches_at_chars(s: &Vec<char>, p: &Vec<char>, i: usize) -> (r: bool)
    requires
        i + p@.len() <= s@.len(),
    ensures
        r == occurs_at(s@, p@, i as int),
{
    let n = s.len();
    let m = p.len();
    let mut j: usize = 0;
    while j < m
        invariant
            n == s@.len(),
            m == p@.len(),
            i + m <= n,
            j <= m,
            forall|k: int| 0 <= k < j ==> s@[i + k] == p@[k],
        decreases m - j,
    {
        if s[i + j] != p[j] {
            proof {
                assert(s@.subrange(i as int, i + p@.len())[j as int] != p@[j as int]);
            }
            return false;
        }
        j += 1;
    }
    proof {
        assert(s@.subrange(i as int, i + p@.len()) =~= p@);
    }
    true
}

/// ASCII-case-insensitive character equality.
pub open spec fn ci_char_eq(a: char, b: char) -> bool {
    ||| a == b
    ||| ('A' <= a && a <= 'Z' && (b as u32) == (a as u32) + 32)
    ||| ('A' <= b && b <= 'Z' && (a as u32) == (b as u32) + 32)
}

/// ASCII-case-insensitive prefix.
pub open spec fn ci_prefix(s: Seq<char>, p: Seq<char>) -> bool {
    p.len() <= s.len() && forall|k: int| 0 <= k < p.len() ==> ci_char_eq(s[k], #[trigger] p[k])
}

fn ci_char_eq_exec(a: char, b: char) -> (r: bool)
    ensures
        r == ci_char_eq(a, b),
{
    a == b || ('A' <= a && a <= 'Z' && (b as u32) == (a as u32) + 32) || ('A' <= b && b <= 'Z' && (
    a as u32) == (b as u32) + 32)
}

fn ci_prefix_chars(s: &Vec<char>, p: &Vec<char>) -> (r: bool)
    ensures
        r == ci_prefix(s@, p@),
{
    let m = p.len();
    if m > s.len() {
        return false;
    }
    let mut k: usize = 0;
    while k < m
        invariant
            m == p@.len(),
            m <= s@.len(),
            k <= m,
            forall|j: int| 0 <= j < k ==> ci_char_eq(s@[j], #[trigger] p@[j]),
        decreases m - k,
    {
        if !ci_char_eq_exec(s[k], p[k]) {
            return false;
        }
        k += 1;
    }
    true
}

/// Decimal digit test and value.
pub open spec fn is_digit(c: char) -> bool {
    '0' <= c && c <= '9'
}

pub open spec fn digit_val(c: char) -> int {
    (c as u32) - 48
}

/// The number written by a digit string.
pub open spec fn digits_val(s: Seq<char>) -> int
    decreases s.len(),
{
    if s.len() == 0 {
        0
    } else {
        digits_val(s.drop_last()) * 10 + digit_val(s.last())
    }
}

pub open spec fn all_digits(s: Seq<char>) -> bool {
    forall|i: int| 0 <= i < s.len() ==> is_digit(#[trigger] s[i])
}

/// A longer digit string never writes a smaller number.
pub(crate) proof fn lemma_digits_val_monotone(s: Seq<char>, i: int)
    requires
        all_digits(s),
        0 <= i <= s.len(),
    ensures
        digits_val(s) >= digits_val(s.subrange(0, i)),
        digits_val(s) >= 0,
    decreases s.len(),
{
    if s.len() == 0 {
        assert(s.subrange(0, i) =~= s);
    } else {
        assert(all_digits(s.drop_last()));
        lemma_digits_val_monotone(s.drop_last(), if i <= s.len() - 1 {
            i
        } else {
            s.len() - 1
        });
        assert(digit_val(s.last()) >= 0);
        assert(digits_val(s.drop_last()) * 10 >= digits_val(s.drop_last())) by (nonlinear_arith)
            requires
                digits_val(s.drop_last()) >= 0,
        ;
        if i <= s.len() - 1 {
            assert(s.drop_last().subrange(0, i) =~= s.subrange(0, i));
        } else {
            assert(s.subrange(0, i) =~= s);
        }
    }
}

/// The candidate position written in an index field, digits only once `#`
/// and `*` decorations are dropped; absent or too large numbers give
/// nothing.
pub open spec fn strip_marks(s: Seq<char>) -> Seq<char>
    decreases s.len(),
{
    if s.len() == 0 {
        s
    } else {
        let rest = strip_marks(s.drop_last());
        if s.last() == '#' || s.last() == '*' {
            rest
        } else {
            rest.push(s.last())
        }
    }
}

pub open spec fn spec_parse_index(s: Seq<char>) -> Option<int> {
    let t = spec_trim(strip_marks(s));
    if t.len() > 0 && all_digits(t) && digits_val(t) <= usize::MAX {
        Some(digits_val(t))
    } else {
        None
    }
}

fn strip_marks_exec(s: &Vec<char>) -> (r: Vec<char>)
    ensures
        r@ == strip_marks(s@),
{
    let n = s.len();
    let mut out: Vec<char> = Vec::new();
    let mut i: usize = 0;
    while i < n
        invariant
            n == s@.len(),
            i <= n,
            out@ =~= strip_marks(s@.subrange(0, i as int)),
        decreases n - i,
    {
        proof {
            assert(s@.subrange(0, i + 1).drop_last() =~= s@.subrange(0, i as int));
            assert(s@.subrange(0, i + 1).last() == s@[i as int]);
        }
        let c = s[i];
        if c != '#' && c != '*' {
            out.push(c);
        }
        proof {
            assert(out@ =~= strip_marks(s@.subrange(0, i + 1)));
        }
        i += 1;
    }
    proof {
        assert(s@.subrange(0, n as int) =~= s@);
    }
    out
}

/// Parses a (possibly decorated) candidate position.
pub fn parse_index(s: &Vec<char>) -> (r: Option<usize>)
    ensures
        match r {
            Some(v) => spec_parse_index(s@) == Some(v as int),
            None => spec_parse_index(s@) == None::<int>,
        },
{
    let stripped = strip_marks_exec(s);
    let t = trim_chars(&stripped);
    let n = t.len();
    if n == 0 {
        return None;
    }
    let mut acc: usize = 0;
    let mut i: usize = 0;
    while i < n
        invariant
            n == t@.len(),
            t@ == spec_trim(strip_marks(s@)),
            i <= n,
            all_digits(t@.subrange(0, i as int)),
            acc == digits_val(t@.subrange(0, i as int)),
        decreases n - i,
    {
        let c = t[i];
        if !('0' <= c && c <= '9') {
            proof {
                assert(!all_digits(t@));
            }
            return None;
        }
        let d: usize = ((c as u32) - 48) as usize;
        proof {
            assert(t@.subrange(0, i + 1).drop_last() =~= t@.subrange(0, i as int));
            assert(t@.subrange(0, i + 1).last() == t@[i as int]);
        }
        if acc > (usize::MAX - d) / 10 {
            proof {
                assert(digits_val(t@.subrange(0, i + 1)) == acc * 10 + d);
                assert(acc * 10 + d > usize::MAX) by (nonlinear_arith)
                    requires
                        acc > (usize::MAX - d) / 10,
                        0 <= d <= 9,
                ;
                if all_digits(t@) {
                    lemma_digits_val_monotone(t@, i + 1);
                }
            }
            return None;
        }
        proof {
            assert(acc * 10 + d <= usize::MAX) by (nonlinear_arith)
                requires
                    acc <= (usize::MAX - d) / 10,
                    0 <= d <= 9,
            ;
        }
        acc = acc * 10 + d;
        i += 1;
    }
    proof {
        assert(t@.subrange(0, n as int) =~= t@);
    }
    Some(acc)
}

/// A score literal: optional minus sign, a whole part of at most nine
/// digits, and an optional fraction; either part may be missing but not
/// both (`.5` and `8.` are numbers, `.` is not).  The value is in
/// thousandths, the fraction cut after three digits.
pub open spec fn spec_parse_score(s: Seq<char>) -> Option<int> {
    let t = spec_trim(strip_marks(s));
    let negative = t.len() > 0 && t.first() == '-';
    let body = if negative {
        t.drop_first()
    } else {
        t
    };
    match find_first(body, seq!['.']) {
        Some(dot) => {
            let whole = body.subrange(0, dot);
            let frac = body.subrange(dot + 1, body.len() as int);
            if whole.len() <= 9 && all_digits(whole) && all_digits(frac) && (whole.len() > 0
                || frac.len() > 0) {
                let magnitude = digits_val(whole) * 1000 + if frac.len() > 0 {
                    frac_milli(frac)
                } else {
                    0int
                };
                Some(
                    if negative {
                        -magnitude
                    } else {
                        magnitude
                    },
                )
            } else {
                None
            }
        },
        None => {
            if body.len() > 0 && body.len() <= 9 && all_digits(body) {
                let magnitude = digits_val(body) * 1000;
                Some(
                    if negative {
                        -magnitude
                    } else {
                        magnitude
                    },
                )
            } else {
                None
            }
        },
    }
}

/// The fraction digits' contribution in thousandths (first three digits).
pub open spec fn frac_milli(frac: Seq<char>) -> int {
    if frac.len() == 1 {
        digit_val(frac[0]) * 100
    } else if frac.len() == 2 {
        digit_val(frac[0]) * 100 + digit_val(frac[1]) * 10
    } else {
        digit_val(frac[0]) * 100 + digit_val(frac[1]) * 10 + digit_val(frac[2])
    }
}

/// Parses a score literal into thousandths.
pub fn parse_score(s: &Vec<char>) -> (r: Option<i64>)
    ensures
        match r {
            Some(v) => spec_parse_score(s@) == Some(v as int),
            None => spec_parse_score(s@) == None::<int>,
        },
{
    let stripped = strip_marks_exec(s);
    let t = trim_chars(&stripped);
    let negative = t.len() > 0 && t[0] == '-';
    let start: usize = if negative {
        1
    } else {
        0
    };
    let ghost body = if negative {
        t@.drop_first()
    } else {
        t@
    };
    proof {
        assert(body =~= t@.subrange(start as int, t@.len() as int));
    }
    let n = t.len();
    // Find the dot, parse the whole part.
    let whole_end: usize = match find_dot(&t, start) {
        Some(i) => i,
        None => n,
    };
    proof {
        lemma_find_first(body, seq!['.']);
        if whole_end < n {
            assert(occurs_at(body, seq!['.'], whole_end - start)) by {
                assert(body.subrange(whole_end - start, whole_end - start + 1) =~= seq!['.']);
            }
            assert forall|j: int| 0 <= j < whole_end - start implies !occurs_at(
                body,
                seq!['.'],
                j,
            ) by {
                assert(body.subrange(j, j + 1) =~= seq![body[j]]);
                assert(body[j] == t@[start + j]);
                if body.subrange(j, j + 1) == seq!['.'] {
                    assert(seq![body[j]][0] == body[j]);
                }
            }
            assert(find_first(body, seq!['.']) == Some(whole_end - start as int));
        } else {
            assert forall|j: int| !occurs_at(body, seq!['.'], j) by {
                if 0 <= j && j + 1 <= body.len() {
                    assert(body.subrange(j, j + 1) =~= seq![body[j]]);
                    assert(body[j] == t@[start + j]);
                    if body.subrange(j, j + 1) == seq!['.'] {
                        assert(seq![body[j]][0] == body[j]);
                    }
                }
            }
            assert(find_first(body, seq!['.']) == None::<int>);
        }
    }
    let ghost whole = if whole_end < n {
        body.subrange(0, whole_end - start as int)
    } else {
        body
    };
    let whole_len = whole_end - start;
    if whole_len > 9 {
        proof {
            assert(whole.len() == whole_end - start);
        }
        return None;
    }
    if whole_end == n {
        // No dot: the whole body must be digits.
        if whole_len == 0 {
            return None;
        }
        let whole_val = match parse_digit_run(&t, start, whole_end, Ghost(whole)) {
            Some(v) => v,
            None => {
                return None;
            },
        };
        let magnitude_whole: i64 = (whole_val as i64) * 1000;
        proof {
            assert(whole_val <= 999_999_999);
        }
        let v: i64 = if negative {
            -magnitude_whole
        } else {
            magnitude_whole
        };
        return Some(v);
    }
    // A dot is present; the whole part may be empty.
    let whole_val: u64 = if whole_len == 0 {
        proof {
            assert(whole.len() == 0);
            assert(digits_val(whole) == 0);
        }
        0
    } else {
        match parse_digit_run(&t, start, whole_end, Ghost(whole)) {
            Some(v) => v,
            None => {
                return None;
            },
        }
    };
    let magnitude_whole: i64 = (whole_val as i64) * 1000;
    proof {
        assert(whole_val <= 999_999_999);
        assert(whole_val == digits_val(whole));
    }
    let frac_start = whole_end + 1;
    let ghost frac = body.subrange(whole_end - start + 1, body.len() as int);
    proof {
        assert(frac =~= t@.subrange(frac_start as int, n as int));
    }
    if frac_start >= n {
        // An empty fraction: the whole part alone carries the value.
        proof {
            assert(frac.len() == 0);
        }
        if whole_len == 0 {
            return None;
        }
        let v: i64 = if negative {
            -magnitude_whole
        } else {
            magnitude_whole
        };
        return Some(v);
    }
    // All fraction characters must be digits.
    let mut k: usize = frac_start;
    while k < n
        invariant
            n == t@.len(),
            frac_start <= k <= n,
            frac_start >= 1,
            t@ == spec_trim(strip_marks(s@)),
            negative == (t@.len() > 0 && t@.first() == '-'),
            start == if negative { 1int } else { 0int },
            body == if negative { t@.drop_first() } else { t@ },
            find_first(body, seq!['.']) == Some(frac_start - 1 - start as int),
            frac == t@.subrange(frac_start as int, n as int),
            frac == body.subrange(frac_start - start as int, body.len() as int),
            forall|j: int| frac_start <= j < k ==> is_digit(#[trigger] t@[j]),
        decreases n - k,
    {
        let c = t[k];
        if !('0' <= c && c <= '9') {
            proof {
                assert(!is_digit(t@[k as int]));
                assert(frac[k - frac_start] == t@[k as int]);
                assert(!all_digits(frac));
            }
            return None;
        }
        k += 1;
    }
    proof {
        assert forall|j: int| 0 <= j < frac.len() implies is_digit(#[trigger] frac[j]) by {
            assert(frac[j] == t@[frac_start + j]);
        }
    }
    let d0: i64 = ((t[frac_start] as u32) - 48) as i64;
    let milli: i64 = if frac_start + 1 >= n {
        d0 * 100
    } else {
        let d1: i64 = ((t[frac_start + 1] as u32) - 48) as i64;
        if frac_start + 2 >= n {
            d0 * 100 + d1 * 10
        } else {
            let d2: i64 = ((t[frac_start + 2] as u32) - 48) as i64;
            d0 * 100 + d1 * 10 + d2
        }
    };
    proof {
        assert(frac[0] == t@[frac_start as int]);
        if frac.len() >= 2 {
            assert(frac[1] == t@[frac_start + 1]);
        }
        if frac.len() >= 3 {
            assert(frac[2] == t@[frac_start + 2]);
        }
        assert(milli == frac_milli(frac));
    }
    let magnitude: i64 = magnitude_whole + milli;
    let v: i64 = if negative {
        -magnitude
    } else {
        magnitude
    };
    Some(v)
}

/// Ten to the `n`.
pub open spec fn pow10(n: nat) -> int
    decreases n,
{
    if n == 0 {
        1
    } else {
        10 * pow10((n - 1) as nat)
    }
}

proof fn lemma_pow10_pos(n: nat)
    ensures
        pow10(n) >= 1,
    decreases n,
{
    if n > 0 {
        lemma_pow10_pos((n - 1) as nat);
    }
}

proof fn lemma_pow10_monotone(a: nat, b: nat)
    requires
        a <= b,
    ensures
        pow10(a) <= pow10(b),
        pow10(a) >= 1,
    decreases b,
{
    lemma_pow10_pos(a);
    if a < b {
        lemma_pow10_monotone(a, (b - 1) as nat);
        lemma_pow10_pos((b - 1) as nat);
    }
}

/// Locates the first `.` at or after `from`.
fn find_dot(t: &Vec<char>, from: usize) -> (r: Option<usize>)
    requires
        from <= t@.len(),
    ensures
        match r {
            Some(i) => from <= i < t@.len() && t@[i as int] == '.' && forall|j: int|
                from <= j < i ==> t@[j] != '.',
            None => forall|j: int| from <= j < t@.len() ==> t@[j] != '.',
        },
{
    let n = t.len();
    let mut i: usize = from;
    while i < n
        invariant
            n == t@.len(),
            from <= i <= n,
            forall|j: int| from <= j < i ==> t@[j] != '.',
        decreases n - i,
    {
        if t[i] == '.' {
            return Some(i);
        }
        i += 1;
    }
    None
}

/// Parses the digit run `t[from..to]` (at most nine digits).
pub(crate) fn parse_digit_run_pub(t: &Vec<char>, from: usize, to: usize) -> (r: Option<u64>)
    requires
        from <= to <= t@.len(),
        to - from <= 9,
    ensures
        match r {
            Some(v) => all_digits(t@.subrange(from as int, to as int)) && v == digits_val(
                t@.subrange(from as int, to as int),
            ) && v <= 999_999_999,
            None => !all_digits(t@.subrange(from as int, to as int)),
        },
{
    parse_digit_run(t, from, to, Ghost(t@.subrange(from as int, to as int)))
}

/// Parses the digit run `t[from..to]`, known to be at most nine digits.
fn parse_digit_run(t: &Vec<char>, from: usize, to: usize, s: Ghost<Seq<char>>) -> (r: Option<
    u64,
>)
    requires
        from <= to <= t@.len(),
        s@ =~= t@.subrange(from as int, to as int),
        to - from <= 9,
    ensures
        match r {
            Some(v) => all_digits(s@) && v == digits_val(s@) && v <= 999_999_999,
            None => !all_digits(s@),
        },
{
    let mut acc: u64 = 0;
    let mut i: usize = from;
    while i < to
        invariant
            from <= i <= to <= t@.len(),
            to - from <= 9,
            s@ =~= t@.subrange(from as int, to as int),
            all_digits(s@.subrange(0, i - from)),
            acc == digits_val(s@.subrange(0, i - from)),
            acc < pow10((i - from) as nat),
        decreases to - i,
    {
        let c = t[i];
        if !('0' <= c && c <= '9') {
            proof {
                assert(s@[i - from] == t@[i as int]);
                assert(!all_digits(s@));
            }
            return None;
        }
        let d: u64 = ((c as u32) - 48) as u64;
        proof {
            assert(s@.subrange(0, i - from + 1).drop_last() =~= s@.subrange(0, i - from));
            assert(s@.subrange(0, i - from + 1).last() == s@[i - from]);
            assert(s@[i - from] == t@[i as int]);
            lemma_pow10_monotone((i - from) as nat, 8);
            assert(pow10(8) == 100_000_000) by {
                reveal_with_fuel(pow10, 9);
            }
            assert(acc * 10 + d < pow10((i - from + 1) as nat)) by (nonlinear_arith)
                requires
                    acc < pow10((i - from) as nat),
                    0 <= d <= 9,
                    pow10((i - from + 1) as nat) == 10 * pow10((i - from) as nat),
            ;
        }
        acc = acc * 10 + d;
        i += 1;
    }
    proof {
        assert(s@.subrange(0, to - from) =~= s@);
        lemma_pow10_monotone((to - from) as nat, 9);
        assert(pow10(9) == 1_000_000_000) by {
            reveal_with_fuel(pow10, 10);
        }
    }
    Some(acc)
}


/// Copies `v[from..to]`.
pub fn subvec(v: &Vec<char>, from: usize, to: usize) -> (r: Vec<char>)
    requires
        from <= to <= v@.len(),
    ensures
        r@ == v@.subrange(from as int, to as int),
{
    let mut out: Vec<char> = Vec::new();
    let mut i: usize = from;
    while i < to
        invariant
            from <= i <= to <= v@.len(),
            out@ =~= v@.subrange(from as int, i as int),
        decreases to - i,
    {
        out.push(v[i]);
        proof {
            assert(out@ =~= v@.subrange(from as int, i + 1));
        }
        i += 1;
    }
    proof {
        assert(out@ =~= v@.subrange(from as int, to as int));
    }
    out
}

/// The score and reason of one ranking line, read from everything after the
/// index: the first ` - ` (or bare `-`, or `:`) splits score from reason; a
/// lone score gets a standing reason.
pub open spec fn spec_parse_score_reason(rest: Seq<char>, ix: int) -> Option<RankingModel> {
    let c = spec_trim(rest);
    match find_first(c, seq![' ', '-', ' ']) {
        Some(k) => spec_finish_line(c.subrange(0, k), c.subrange(k + 3, c.len() as int), ix),
        None => match find_first(c, seq!['-']) {
            Some(k) => spec_finish_line(c.subrange(0, k), c.subrange(k + 1, c.len() as int), ix),
            None => match find_first(c, seq![':']) {
                Some(k) => spec_finish_line(
                    c.subrange(0, k),
                    c.subrange(k + 1, c.len() as int),
                    ix,
                ),
                None => spec_finish_line(c, seq!['R', 'e', 'l', 'e', 'v', 'a', 'n', 't'], ix),
            },
        },
    }
}

pub open spec fn spec_finish_line(score_str: Seq<char>, reason: Seq<char>, ix: int) -> Option<
    RankingModel,
> {
    match spec_parse_score(score_str) {
        Some(score) => Some(RankingModel { index: ix, score, reason: spec_trim(reason) }),
        None => None,
    }
}

/// One line of the natural-language ranking format:
/// `<label> <N>: <score> - <reason>` with label `Document`, `Doc` or
/// `Source` (case-insensitive), or the bare `<N>. <score> - <reason>` form.
pub open spec fn spec_parse_line(line: Seq<char>) -> Option<RankingModel> {
    let t = spec_trim(line);
    if ci_prefix(t, seq!['d', 'o', 'c', 'u', 'm', 'e', 'n', 't', ' ']) {
        spec_parse_after_label(t.subrange(9, t.len() as int))
    } else if ci_prefix(t, seq!['d', 'o', 'c', ' ']) {
        spec_parse_after_label(t.subrange(4, t.len() as int))
    } else if ci_prefix(t, seq!['s', 'o', 'u', 'r', 'c', 'e', ' ']) {
        spec_parse_after_label(t.subrange(7, t.len() as int))
    } else {
        match find_first(t, seq!['.']) {
            Some(d) => match spec_parse_index(t.subrange(0, d)) {
                Some(ix) => spec_parse_score_reason(t.subrange(d + 1, t.len() as int), ix),
                None => None,
            },
            None => None,
        }
    }
}

pub open spec fn spec_parse_after_label(a: Seq<char>) -> Option<RankingModel> {
    match find_first(a, seq![':']) {
        Some(c) => match spec_parse_index(a.subrange(0, c)) {
            Some(ix) => spec_parse_score_reason(a.subrange(c + 1, a.len() as int), ix),
            None => None,
        },
        None => None,
    }
}

/// The rankings read from every parsable line of the reply, in order.
pub open spec fn spec_line_rankings(s: Seq<char>) -> Seq<RankingModel>
    decreases s.len(),
    via spec_line_rankings_decreases
{
    match find_first(s, seq!['\n']) {
        Some(i) => maybe_ranking(spec_parse_line(s.subrange(0, i))) + spec_line_rankings(
            s.subrange(i + 1, s.len() as int),
        ),
        None => maybe_ranking(spec_parse_line(s)),
    }
}

#[via_fn]
proof fn spec_line_rankings_decreases(s: Seq<char>) {
    lemma_find_first(s, seq!['\n']);
}

pub open spec fn maybe_ranking(o: Option<RankingModel>) -> Seq<RankingModel> {
    match o {
        Some(r) => seq![r],
        None => Seq::empty(),
    }
}

/// `find_first` of a one-character needle never lands past the character.
proof fn lemma_find_first_len(s: Seq<char>, p: Seq<char>)
    ensures
        match find_first(s, p) {
            Some(i) => 0 <= i && i + p.len() <= s.len(),
            None => true,
        },
{
    lemma_find_first(s, p);
}

fn exec_parse_score_reason(rest: &Vec<char>, ix: usize) -> (r: Option<RankingItem>)
    ensures
        match r {
            Some(item) => spec_parse_score_reason(rest@, ix as int) == Some(item.deep_view()),
            None => spec_parse_score_reason(rest@, ix as int) == None::<RankingModel>,
        },
{
    let c = trim_chars(rest);
    let dash3: Vec<char> = vec![' ', '-', ' '];
    let dash: Vec<char> = vec!['-'];
    let colon: Vec<char> = vec![':'];
    proof {
        assert(dash3@ =~= seq![' ', '-', ' ']);
        assert(dash@ =~= seq!['-']);
        assert(colon@ =~= seq![':']);
        lemma_find_first_len(c@, seq![' ', '-', ' ']);
        lemma_find_first_len(c@, seq!['-']);
        lemma_find_first_len(c@, seq![':']);
    }
    let clen = c.len();
    let (score_str, reason): (Vec<char>, Vec<char>) = match find_first_chars(&c, &dash3) {
        Some(k) => (subvec(&c, 0, k), subvec(&c, k + 3, clen)),
        None => match find_first_chars(&c, &dash) {
            Some(k) => (subvec(&c, 0, k), subvec(&c, k + 1, clen)),
            None => match find_first_chars(&c, &colon) {
                Some(k) => (subvec(&c, 0, k), subvec(&c, k + 1, clen)),
                None => {
                    let standing: Vec<char> = vec!['R', 'e', 'l', 'e', 'v', 'a', 'n', 't'];
                    proof {
                        assert(standing@ =~= seq!['R', 'e', 'l', 'e', 'v', 'a', 'n', 't']);
                    }
                    (subvec(&c, 0, clen), standing)
                },
            },
        },
    };
    proof {
        assert(c@.subrange(0, c@.len() as int) =~= c@);
    }
    match parse_score(&score_str) {
        Some(score) => {
            let reason_trimmed = trim_chars(&reason);
            Some(RankingItem { index: ix, score, reason: string_from_chars(&reason_trimmed) })
        },
        None => None,
    }
}

/// Parses one reply line.
pub fn parse_line(line: &Vec<char>) -> (r: Option<RankingItem>)
    ensures
        match r {
            Some(item) => spec_parse_line(line@) == Some(item.deep_view()),
            None => spec_parse_line(line@) == None::<RankingModel>,
        },
{
    let t = trim_chars(line);
    let label_document: Vec<char> = vec!['d', 'o', 'c', 'u', 'm', 'e', 'n', 't', ' '];
    let label_doc: Vec<char> = vec!['d', 'o', 'c', ' '];
    let label_source: Vec<char> = vec!['s', 'o', 'u', 'r', 'c', 'e', ' '];
    proof {
        assert(label_document@ =~= seq!['d', 'o', 'c', 'u', 'm', 'e', 'n', 't', ' ']);
        assert(label_doc@ =~= seq!['d', 'o', 'c', ' ']);
        assert(label_source@ =~= seq!['s', 'o', 'u', 'r', 'c', 'e', ' ']);
    }
    if ci_prefix_chars(&t, &label_document) {
        let a = subvec(&t, 9, t.len());
        exec_parse_after_label(&a)
    } else if ci_prefix_chars(&t, &label_doc) {
        let a = subvec(&t, 4, t.len());
        exec_parse_after_label(&a)
    } else if ci_prefix_chars(&t, &label_source) {
        let a = subvec(&t, 7, t.len());
        exec_parse_after_label(&a)
    } else {
        let dot: Vec<char> = vec!['.'];
        proof {
            assert(dot@ =~= seq!['.']);
            lemma_find_first_len(t@, seq!['.']);
        }
        match find_first_chars(&t, &dot) {
            Some(d) => {
                let head = subvec(&t, 0, d);
                match parse_index(&head) {
                    Some(ix) => {
                        let rest = subvec(&t, d + 1, t.len());
                        exec_parse_score_reason(&rest, ix)
                    },
                    None => None,
                }
            },
            None => None,
        }
    }
}

#[verifier::rlimit(50)]
fn exec_parse_after_label(a: &Vec<char>) -> (r: Option<RankingItem>)
    ensures
        match r {
            Some(item) => spec_parse_after_label(a@) == Some(item.deep_view()),
            None => spec_parse_after_label(a@) == None::<RankingModel>,
        },
{
    let colon: Vec<char> = vec![':'];
    proof {
        assert(colon@ =~= seq![':']);
        lemma_find_first_len(a@, seq![':']);
    }
    match find_first_chars(a, &colon) {
        Some(c) => {
            let alen = a.len();
            proof {
                assert(c + 1 <= a@.len());
            }
            let head = subvec(a, 0, c);
            match parse_index(&head) {
                Some(ix) => {
                    let rest = subvec(a, c + 1, alen);
                    exec_parse_score_reason(&rest, ix)
                },
                None => None,
            }
        },
        None => None,
    }
}

/// Reads a ranking from every line that parses; unparsable lines are
/// skipped.
#[verifier::rlimit(100)]
pub fn parse_line_rankings(text: &Vec<char>) -> (r: Vec<RankingItem>)
    ensures
        r.deep_view() == spec_line_rankings(text@),
{
    let newline: Vec<char> = vec!['\n'];
    proof {
        assert(newline@ =~= seq!['\n']);
    }
    let n = text.len();
    let mut out: Vec<RankingItem> = Vec::new();
    let mut pos: usize = 0;
    proof {
        assert(text@.subrange(0, n as int) =~= text@);
        assert(out.deep_view() =~= Seq::<RankingModel>::empty());
        assert(Seq::<RankingModel>::empty() + spec_line_rankings(text@) =~= spec_line_rankings(
            text@,
        ));
    }
    loop
        invariant
            newline@ == seq!['\n'],
            n == text@.len(),
            pos <= n,
            spec_line_rankings(text@) =~= out.deep_view() + spec_line_rankings(
                text@.subrange(pos as int, n as int),
            ),
        decreases n - pos,
    {
        let ghost rest = text@.subrange(pos as int, n as int);
        let tail = subvec(text, pos, n);
        proof {
            lemma_find_first_len(rest, seq!['\n']);
        }
        match find_first_chars(&tail, &newline) {
            Some(i) => {
                let line = subvec(&tail, 0, i);
                let ghost pre = out.deep_view();
                match parse_line(&line) {
                    Some(item) => {
                        out.push(item);
                        proof {
                            assert(out.deep_view() =~= pre + seq![item.deep_view()]);
                        }
                    },
                    None => {},
                }
                proof {
                    assert(rest.subrange(0, i as int) =~= line@);
                    assert(rest.subrange(i + 1, rest.len() as int) =~= text@.subrange(
                        pos + i + 1,
                        n as int,
                    ));
                    assert(out.deep_view() + spec_line_rankings(
                        text@.subrange(pos + i + 1, n as int),
                    ) =~= pre + maybe_ranking(spec_parse_line(line@)) + spec_line_rankings(
                        text@.subrange(pos + i + 1, n as int),
                    ));
                }
                pos = pos + i + 1;
            },
            None => {
                let ghost pre = out.deep_view();
                match parse_line(&tail) {
                    Some(item) => {
                        out.push(item);
                        proof {
                            assert(out.deep_view() =~= pre + seq![item.deep_view()]);
                        }
                    },
                    None => {},
                }
                proof {
                    assert(out.deep_view() =~= spec_line_rankings(text@));
                }
                return out;
            },
        }
    }
}

} // verus!
