//! Verified text utilities for the similarity engine: substring and
//! whole-word search, whitespace trimming, title extraction and context
//! assembly.  Unicode case folding and character classification come from
//! the standard library through trusted wrappers.
use vstd::prelude::*;

verus! {

/// The Unicode lowercasing of a character sequence, as `str::to_lowercase`
/// computes it.
pub uninterp spec fn lower_of(s: Seq<char>) -> Seq<char>;

/// Relies on str::to_lowercase: the result depends on the characters alone.
#[verifier::external_body]
pub fn to_lowercase(s: &str) -> (r: String)
    ensures
        r@ == lower_of(s@),
{
    s.to_lowercase()
}

/// Whether a character counts as alphanumeric, as `char::is_alphanumeric`
/// classifies it.
pub uninterp spec fn alnum_char(c: char) -> bool;

/// Relies on char::is_alphanumeric: a fixed classification per character.
#[verifier::external_body]
pub fn is_alphanumeric_char(c: char) -> (r: bool)
    ensures
        r == alnum_char(c),
{
    c.is_alphanumeric()
}

/// Relies on String::push: appends exactly the one character.
#[verifier::external_body]
pub fn push_char(s: &mut String, c: char)
    ensures
        final(s)@ == old(s)@ + seq![c],
{
    s.push(c);
}

/// A word character for whole-word matching: alphanumeric or underscore.
pub open spec fn word_char(c: char) -> bool {
    alnum_char(c) || c == '_'
}

/// The whitespace characters recognized when splitting a title into words
/// (the Unicode white-space set).
pub open spec fn is_space(c: char) -> bool {
    ||| c == ' '
    ||| c == '\t'
    ||| c == '\n'
    ||| c == '\r'
    ||| c == '\u{B}'
    ||| c == '\u{C}'
    ||| c == '\u{85}'
    ||| c == '\u{A0}'
    ||| c == '\u{1680}'
    ||| ('\u{2000}' <= c && c <= '\u{200A}')
    ||| c == '\u{2028}'
    ||| c == '\u{2029}'
    ||| c == '\u{202F}'
    ||| c == '\u{205F}'
    ||| c == '\u{3000}'
}

pub fn is_space_char(c: char) -> (r: bool)
    ensures
        r == is_space(c),
{
    c == ' ' || c == '\t' || c == '\n' || c == '\r' || c == '\u{B}' || c == '\u{C}' || c
        == '\u{85}' || c == '\u{A0}' || c == '\u{1680}' || ('\u{2000}' <= c && c <= '\u{200A}')
        || c == '\u{2028}' || c == '\u{2029}' || c == '\u{202F}' || c == '\u{205F}' || c
        == '\u{3000}'
}

/// `needle` occurs in `hay` starting at position `i`.
pub open spec fn occurs_at(hay: Seq<char>, needle: Seq<char>, i: int) -> bool {
    0 <= i && i + needle.len() <= hay.len() && hay.subrange(i, i + needle.len()) == needle
}

/// Plain substring containment (the empty needle is everywhere).
pub open spec fn contains_seq(hay: Seq<char>, needle: Seq<char>) -> bool {
    exists|i: int| occurs_at(hay, needle, i)
}

/// `word` occurs at `i` as a whole word: no word character touches it on
/// either side.
pub open spec fn word_occurs_at(hay: Seq<char>, word: Seq<char>, i: int) -> bool {
    &&& occurs_at(hay, word, i)
    &&& (i == 0 || !word_char(hay[i - 1]))
    &&& (i + word.len() == hay.len() || !word_char(hay[i + word.len()]))
}

/// Whole-word containment, the analogue of a word-boundary pattern search.
pub open spec fn contains_word(hay: Seq<char>, word: Seq<char>) -> bool {
    exists|i: int| word_occurs_at(hay, word, i)
}

/// The characters of a string, in order.
pub fn chars_of(s: &str) -> (r: Vec<char>)
    ensures
        r@ == s@,
{
    let n = s.unicode_len();
    let mut out: Vec<char> = Vec::new();
    let mut i: usize = 0;
    while i < n
        invariant
            n == s@.len(),
            i <= n,
            out@ =~= s@.subrange(0, i as int),
        decreases n - i,
    {
        let c = s.get_char(i);
        out.push(c);
        proof {
            assert(out@ =~= s@.subrange(0, i + 1));
        }
        i += 1;
    }
    proof {
        assert(s@.subrange(0, n as int) =~= s@);
    }
    out
}

/// Builds a string back from a character vector.
pub fn string_from_chars(v: &Vec<char>) -> (r: String)
    ensures
        r@ == v@,
{
    let mut out = String::new();
    let n = v.len();
    let mut i: usize = 0;
    while i < n
        invariant
            n == v@.len(),
            i <= n,
            out@ =~= v@.subrange(0, i as int),
        decreases n - i,
    {
        push_char(&mut out, v[i]);
        proof {
            assert(out@ =~= v@.subrange(0, i + 1));
        }
        i += 1;
    }
    proof {
        assert(v@.subrange(0, n as int) =~= v@);
    }
    out
}

/// `needle` occurs in `hay` exactly at position `i`.
fn matches_at(hay: &Vec<char>, needle: &Vec<char>, i: usize) -> (r: bool)
    requires
        i + needle@.len() <= hay@.len(),
    ensures
        r == (hay@.subrange(i as int, i + needle@.len()) == needle@),
{
    let n = hay.len();
    let m = needle.len();
    let mut j: usize = 0;
    while j < m
        invariant
            n == hay@.len(),
            m == needle@.len(),
            i + m <= n,
            j <= m,
            forall|k: int| 0 <= k < j ==> hay@[i + k] == needle@[k],
        decreases m - j,
    {
        if hay[i + j] != needle[j] {
            proof {
                assert(hay@.subrange(i as int, i + needle@.len())[j as int] != needle@[j as int]);
            }
            return false;
        }
        j += 1;
    }
    proof {
        assert(hay@.subrange(i as int, i + needle@.len()) =~= needle@);
    }
    true
}

/// Substring search.
pub fn contains_chars(hay: &Vec<char>, needle: &Vec<char>) -> (r: bool)
    ensures
        r == contains_seq(hay@, needle@),
{
    let n = hay.len();
    let m = needle.len();
    if m > n {
        proof {
            assert(forall|i: int| !occurs_at(hay@, needle@, i));
        }
        return false;
    }
    let mut i: usize = 0;
    loop
        invariant
            n == hay@.len(),
            m == needle@.len(),
            m <= n,
            i <= n - m,
            forall|k: int| 0 <= k < i ==> !occurs_at(hay@, needle@, k),
        decreases n - m - i,
    {
        if matches_at(hay, needle, i) {
            proof {
                assert(occurs_at(hay@, needle@, i as int));
            }
            return true;
        }
        if i == n - m {
            proof {
                assert forall|k: int| !occurs_at(hay@, needle@, k) by {
                    if 0 <= k && k + m <= n {
                        assert(!occurs_at(hay@, needle@, k));
                    }
                }
            }
            return false;
        }
        i += 1;
    }
}

/// Whole-word search: an occurrence with no word character on either side.
pub fn contains_word_chars(hay: &Vec<char>, word: &Vec<char>) -> (r: bool)
    ensures
        r == contains_word(hay@, word@),
{
    let n = hay.len();
    let m = word.len();
    if m > n {
        proof {
            assert(forall|i: int| !word_occurs_at(hay@, word@, i));
        }
        return false;
    }
    let mut i: usize = 0;
    loop
        invariant
            n == hay@.len(),
            m == word@.len(),
            m <= n,
            i <= n - m,
            forall|k: int| 0 <= k < i ==> !word_occurs_at(hay@, word@, k),
        decreases n - m - i,
    {
        if matches_at(hay, word, i) {
            let left_ok = if i == 0 {
                true
            } else {
                let c = hay[i - 1];
                !(is_alphanumeric_char(c) || c == '_')
            };
            let right_ok = if i + m == n {
                true
            } else {
                let c = hay[i + m];
                !(is_alphanumeric_char(c) || c == '_')
            };
            if left_ok && right_ok {
                proof {
                    assert(word_occurs_at(hay@, word@, i as int));
                }
                return true;
            }
        }
        proof {
            assert(!word_occurs_at(hay@, word@, i as int));
        }
        if i == n - m {
            proof {
                assert forall|k: int| !word_occurs_at(hay@, word@, k) by {
                    if 0 <= k && k + m <= n {
                        assert(!word_occurs_at(hay@, word@, k));
                    }
                }
            }
            return false;
        }
        i += 1;
    }
}

/// Leading whitespace removed.
pub open spec fn trim_front(s: Seq<char>) -> Seq<char>
    decreases s.len(),
{
    if s.len() > 0 && is_space(s.first()) {
        trim_front(s.drop_first())
    } else {
        s
    }
}

/// Trailing whitespace removed.
pub open spec fn trim_back(s: Seq<char>) -> Seq<char>
    decreases s.len(),
{
    if s.len() > 0 && is_space(s.last()) {
        trim_back(s.drop_last())
    } else {
        s
    }
}

/// Both ends trimmed.
pub open spec fn spec_trim(s: Seq<char>) -> Seq<char> {
    trim_back(trim_front(s))
}

/// A title is a single word when, once trimmed, it is nonempty and holds no
/// whitespace.
pub open spec fn single_word(s: Seq<char>) -> bool {
    &&& spec_trim(s).len() > 0
    &&& forall|i: int| 0 <= i < spec_trim(s).len() ==> !is_space(#[trigger] spec_trim(s)[i])
}

/// Trims whitespace from both ends of a character vector.
pub fn trim_chars(s: &Vec<char>) -> (r: Vec<char>)
    ensures
        r@ == spec_trim(s@),
{
    let n = s.len();
    proof {
        assert(s@.subrange(0, n as int) =~= s@);
    }
    let mut start: usize = 0;
    while start < n && is_space_char(s[start])
        invariant
            n == s@.len(),
            start <= n,
            trim_front(s@) == trim_front(s@.subrange(start as int, n as int)),
        decreases n - start,
    {
        proof {
            assert(s@.subrange(start as int, n as int).drop_first() =~= s@.subrange(
                start + 1,
                n as int,
            ));
        }
        start += 1;
    }
    proof {
        if start < n {
            assert(trim_front(s@.subrange(start as int, n as int)) == s@.subrange(
                start as int,
                n as int,
            ));
        } else {
            assert(s@.subrange(start as int, n as int) =~= Seq::<char>::empty());
        }
    }
    let mut end: usize = n;
    while end > start && is_space_char(s[end - 1])
        invariant
            n == s@.len(),
            start <= end <= n,
            trim_front(s@) == trim_front(s@.subrange(start as int, n as int)),
            trim_front(s@.subrange(start as int, n as int)) == s@.subrange(start as int, n as int),
            trim_back(s@.subrange(start as int, n as int)) == trim_back(
                s@.subrange(start as int, end as int),
            ),
        decreases end,
    {
        proof {
            assert(s@.subrange(start as int, end as int).drop_last() =~= s@.subrange(
                start as int,
                end - 1,
            ));
        }
        end -= 1;
    }
    proof {
        if end > start {
            assert(trim_back(s@.subrange(start as int, end as int)) == s@.subrange(
                start as int,
                end as int,
            ));
        } else {
            assert(s@.subrange(start as int, end as int) =~= Seq::<char>::empty());
            assert(trim_back(s@.subrange(start as int, end as int)) == s@.subrange(
                start as int,
                end as int,
            ));
        }
    }
    let mut out: Vec<char> = Vec::new();
    let mut i: usize = start;
    while i < end
        invariant
            start <= i <= end <= n,
            n == s@.len(),
            out@ =~= s@.subrange(start as int, i as int),
        decreases end - i,
    {
        out.push(s[i]);
        proof {
            assert(out@ =~= s@.subrange(start as int, i + 1));
        }
        i += 1;
    }
    proof {
        assert(out@ =~= s@.subrange(start as int, end as int));
    }
    out
}

/// Whether a (lowercased) title consists of exactly one word.
pub fn is_single_word(s: &Vec<char>) -> (r: bool)
    ensures
        r == single_word(s@),
{
    let t = trim_chars(s);
    let n = t.len();
    if n == 0 {
        return false;
    }
    let mut i: usize = 0;
    while i < n
        invariant
            n == t@.len(),
            t@ == spec_trim(s@),
            i <= n,
            forall|j: int| 0 <= j < i ==> !is_space(#[trigger] t@[j]),
        decreases n - i,
    {
        if is_space_char(t[i]) {
            return false;
        }
        i += 1;
    }
    true
}

/// The last `/`-separated segment of a path (the whole path when it holds no
/// slash; empty when the path ends in a slash).
pub open spec fn last_segment(s: Seq<char>) -> Seq<char>
    decreases s.len(),
{
    if s.len() == 0 {
        s
    } else if s.last() == '/' {
        Seq::empty()
    } else {
        last_segment(s.drop_last()).push(s.last())
    }
}

/// Every trailing `.md` extension removed.
pub open spec fn strip_md(s: Seq<char>) -> Seq<char>
    decreases s.len(),
{
    if s.len() >= 3 && s.subrange(s.len() - 3, s.len() as int) == seq!['.', 'm', 'd'] {
        strip_md(s.subrange(0, s.len() - 3))
    } else {
        s
    }
}

/// A note's title: the file name of its path, extension stripped.
pub open spec fn spec_title_of(path: Seq<char>) -> Seq<char> {
    strip_md(last_segment(path))
}

/// Extracts a note title from its path.
pub fn extract_title_from_path(path: &Vec<char>) -> (r: Vec<char>)
    ensures
        r@ == spec_title_of(path@),
{
    let n = path.len();
    // The last segment is everything after the final slash.
    let mut seg_start: usize = 0;
    let mut i: usize = 0;
    while i < n
        invariant
            n == path@.len(),
            i <= n,
            seg_start <= i,
            seg_start > 0 ==> path@[seg_start - 1] == '/',
            forall|j: int| seg_start <= j < i ==> path@[j] != '/',
        decreases n - i,
    {
        if path[i] == '/' {
            seg_start = i + 1;
        }
        i += 1;
    }
    proof {
        lemma_last_segment(path@, seg_start as int);
    }
    let mut seg: Vec<char> = Vec::new();
    let mut k: usize = seg_start;
    while k < n
        invariant
            n == path@.len(),
            seg_start <= k <= n,
            seg@ =~= path@.subrange(seg_start as int, k as int),
        decreases n - k,
    {
        seg.push(path[k]);
        proof {
            assert(seg@ =~= path@.subrange(seg_start as int, k + 1));
        }
        k += 1;
    }
    proof {
        assert(seg@ =~= path@.subrange(seg_start as int, n as int));
    }
    // Strip every trailing ".md".
    loop
        invariant
            strip_md(seg@) == spec_title_of(path@),
        decreases seg@.len(),
    {
        let m = seg.len();
        if m >= 3 && seg[m - 3] == '.' && seg[m - 2] == 'm' && seg[m - 1] == 'd' {
            proof {
                assert(seg@.subrange(m - 3, m as int) =~= seq!['.', 'm', 'd']);
            }
            let ghost pre = seg@;
            seg.pop();
            seg.pop();
            seg.pop();
            proof {
                assert(seg@ =~= pre.subrange(0, m - 3));
            }
        } else {
            proof {
                if m >= 3 {
                    assert(seg@.subrange(m - 3, m as int) != seq!['.', 'm', 'd']) by {
                        if seg@.subrange(m - 3, m as int) == seq!['.', 'm', 'd'] {
                            assert(seg@[m - 3] == '.' && seg@[m - 2] == 'm' && seg@[m - 1] == 'd');
                        }
                    }
                }
                assert(strip_md(seg@) == seg@);
            }
            return seg;
        }
    }
}

/// Relates the scan for the final slash to the recursive definition of the
/// last path segment.
proof fn lemma_last_segment(s: Seq<char>, start: int)
    requires
        0 <= start <= s.len(),
        start > 0 ==> s[start - 1] == '/',
        forall|j: int| start <= j < s.len() ==> s[j] != '/',
    ensures
        last_segment(s) == s.subrange(start, s.len() as int),
    decreases s.len(),
{
    if s.len() == 0 {
        assert(s.subrange(0, 0) =~= s);
    } else if s.last() == '/' {
        assert(start == s.len());
        assert(s.subrange(start, s.len() as int) =~= Seq::<char>::empty());
    } else {
        assert(start < s.len());
        lemma_last_segment(s.drop_last(), start);
        assert(last_segment(s) == last_segment(s.drop_last()).push(s.last()));
        assert(s.drop_last().subrange(start, s.len() - 1).push(s.last()) =~= s.subrange(
            start,
            s.len() as int,
        ));
    }
}

/// The first five lines of a document, joined by single spaces: the per-line
/// scan of the context extractor.  `left` is how many lines may still be
/// consumed.
pub open spec fn first_lines_joined(s: Seq<char>, left: nat) -> Seq<char>
    decreases s.len(),
{
    if s.len() == 0 {
        s
    } else if s.first() == '\n' {
        if left <= 1 || s.len() == 1 {
            Seq::empty()
        } else {
            seq![' '] + first_lines_joined(s.drop_first(), (left - 1) as nat)
        }
    } else if s.first() == '\r' && s.len() >= 2 && s[1] == '\n' {
        first_lines_joined(s.drop_first(), left)
    } else {
        seq![s.first()] + first_lines_joined(s.drop_first(), left)
    }
}

/// The context attached to a suggestion: the first five lines joined by
/// spaces, cut to `max_chars` characters with a trailing ellipsis when cut.
pub open spec fn spec_context_of(content: Seq<char>, max_chars: int) -> Seq<char> {
    let joined = first_lines_joined(content, 5);
    if joined.len() <= max_chars {
        joined
    } else {
        joined.subrange(0, max_chars) + seq!['.', '.', '.']
    }
}

/// Joins the first five lines of `content` with spaces.
fn join_first_lines(content: &Vec<char>) -> (r: Vec<char>)
    ensures
        r@ == first_lines_joined(content@, 5),
{
    let n = content.len();
    proof {
        assert(content@.subrange(0, n as int) =~= content@);
        assert(Seq::<char>::empty() + first_lines_joined(content@, 5) =~= first_lines_joined(
            content@,
            5,
        ));
    }
    let mut out: Vec<char> = Vec::new();
    let mut left: usize = 5;
    let mut i: usize = 0;
    while i < n
        invariant
            n == content@.len(),
            i <= n,
            1 <= left <= 5,
            first_lines_joined(content@, 5) == out@ + first_lines_joined(
                content@.subrange(i as int, n as int),
                left as nat,
            ),
        decreases n - i,
    {
        let ghost rest = content@.subrange(i as int, n as int);
        proof {
            assert(rest.len() > 0);
            assert(rest.first() == content@[i as int]);
            assert(rest.drop_first() =~= content@.subrange(i + 1, n as int));
            if rest.len() >= 2 {
                assert(rest[1] == content@[i + 1]);
            }
        }
        let c = content[i];
        if c == '\n' {
            if left <= 1 || i + 1 == n {
                proof {
                    assert(first_lines_joined(rest, left as nat) =~= Seq::<char>::empty());
                    assert(out@ + Seq::<char>::empty() =~= out@);
                }
                return out;
            }
            out.push(' ');
            left -= 1;
            proof {
                assert(out@ =~= out@.drop_last() + seq![' ']);
                assert(out@.drop_last() + (seq![' '] + first_lines_joined(
                    rest.drop_first(),
                    left as nat,
                )) =~= out@ + first_lines_joined(rest.drop_first(), left as nat));
            }
        } else if c == '\r' && i + 1 < n && content[i + 1] == '\n' {
            // dropped: the following newline carries the line break
        } else {
            out.push(c);
            proof {
                assert(out@ =~= out@.drop_last() + seq![c]);
                assert(out@.drop_last() + (seq![c] + first_lines_joined(
                    rest.drop_first(),
                    left as nat,
                )) =~= out@ + first_lines_joined(rest.drop_first(), left as nat));
            }
        }
        i += 1;
    }
    proof {
        assert(content@.subrange(n as int, n as int) =~= Seq::<char>::empty());
        assert(out@ + Seq::<char>::empty() =~= out@);
    }
    out
}

/// Builds the context string of a candidate document.
pub fn extract_context(content: &Vec<char>, max_chars: usize) -> (r: Vec<char>)
    ensures
        r@ == spec_context_of(content@, max_chars as int),
{
    let mut joined = join_first_lines(content);
    if joined.len() <= max_chars {
        joined
    } else {
        let ghost full = joined@;
        joined.truncate(max_chars);
        proof {
            assert(joined@ =~= full.subrange(0, max_chars as int));
        }
        joined.push('.');
        joined.push('.');
        joined.push('.');
        proof {
            assert(joined@ =~= full.subrange(0, max_chars as int) + seq!['.', '.', '.']);
        }
        joined
    }
}

/// Character-sequence equality.
pub fn chars_eq(a: &Vec<char>, b: &Vec<char>) -> (r: bool)
    ensures
        r == (a@ == b@),
{
    let n = a.len();
    if n != b.len() {
        return false;
    }
    let mut i: usize = 0;
    while i < n
        invariant
            n == a@.len(),
            n == b@.len(),
            i <= n,
            forall|j: int| 0 <= j < i ==> a@[j] == b@[j],
        decreases n - i,
    {
        if a[i] != b[i] {
            return false;
        }
        i += 1;
    }
    proof {
        assert(a@ =~= b@);
    }
    true
}

} // verus!
