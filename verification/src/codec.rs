//! Versioned (de)serialization of the cache index.  Two profiles round-trip
//! the same logical structure: a compact binary profile and a readable text
//! profile.  Readers accept payloads written without the envelope as a
//! legacy fallback.
use vstd::prelude::*;

use crate::cache::CacheIndex;
use crate::vault::SmartVault;

verus! {

/// The cache format version this crate writes.
pub const CACHE_FORMAT_VERSION: u32 = 1;

/// Envelope of a persisted cache blob.
pub struct CacheHeader {
    pub version: u32,
    /// Encoding tag: `binary` or `text`.
    pub format: String,
    /// Epoch milliseconds at the time of writing, supplied by the caller.
    pub created_at: u64,
}

/// A payload wrapped with its envelope.
pub struct VersionedCache<T> {
    pub header: CacheHeader,
    pub data: T,
}

impl<T> VersionedCache<T> {
    /// Wraps a payload.  The tag `binary` selects the compact binary
    /// profile; any other tag, `text` among them, selects the readable text
    /// profile, which is the default for unrecognized tags.
    pub fn new(data: T, format: &str, created_at: u64) -> (r: VersionedCache<T>)
        ensures
            r.data == data,
            r.header.version == CACHE_FORMAT_VERSION,
            r.header.created_at == created_at,
            r.header.format@ == if format@ =~= seq!['b', 'i', 'n', 'a', 'r', 'y'] {
                seq!['b', 'i', 'n', 'a', 'r', 'y']
            } else {
                seq!['t', 'e', 'x', 't']
            },
    {
        let tag: Vec<char> = vec!['b', 'i', 'n', 'a', 'r', 'y'];
        proof {
            assert(tag@ =~= seq!['b', 'i', 'n', 'a', 'r', 'y']);
        }
        let given = crate::strutil::chars_of(format);
        let header = if crate::strutil::chars_eq(&given, &tag) {
            let f: Vec<char> = vec!['b', 'i', 'n', 'a', 'r', 'y'];
            proof {
                assert(f@ =~= seq!['b', 'i', 'n', 'a', 'r', 'y']);
            }
            CacheHeader {
                version: CACHE_FORMAT_VERSION,
                format: crate::strutil::string_from_chars(&f),
                created_at,
            }
        } else {
            let f: Vec<char> = vec!['t', 'e', 'x', 't'];
            proof {
                assert(f@ =~= seq!['t', 'e', 'x', 't']);
            }
            CacheHeader {
                version: CACHE_FORMAT_VERSION,
                format: crate::strutil::string_from_chars(&f),
                created_at,
            }
        };
        VersionedCache { header, data }
    }
}

/// The logical content of a cache index: its five entry sequences.
pub struct CacheModel {
    pub embedding: Seq<(Seq<char>, u64)>,
    pub keyword: Seq<(Seq<char>, u64)>,
    pub suggestion: Seq<(Seq<char>, u64)>,
    pub ignored: Seq<((Seq<char>, Seq<char>), u64)>,
    pub insertion: Seq<((Seq<char>, Seq<char>), Seq<char>)>,
}

/// The model a cache index stores.
pub open spec fn cache_model(c: CacheIndex) -> CacheModel {
    CacheModel {
        embedding: c.embedding_mtimes.kv(),
        keyword: c.keyword_mtimes.kv(),
        suggestion: c.suggestion_mtimes.kv(),
        ignored: c.ignored_suggestions.kv(),
        insertion: c.insertion_cache.kv(),
    }
}

/// Every length in the model fits the length fields of the wire format (an
/// index that was ever held in memory satisfies this trivially).
pub open spec fn model_bounded(m: CacheModel) -> bool {
    &&& m.embedding.len() <= u64::MAX
    &&& m.keyword.len() <= u64::MAX
    &&& m.suggestion.len() <= u64::MAX
    &&& m.ignored.len() <= u64::MAX
    &&& m.insertion.len() <= u64::MAX
    &&& (forall|i: int| 0 <= i < m.embedding.len() ==> (#[trigger] m.embedding[i]).0.len()
        <= u64::MAX)
    &&& (forall|i: int| 0 <= i < m.keyword.len() ==> (#[trigger] m.keyword[i]).0.len()
        <= u64::MAX)
    &&& (forall|i: int| 0 <= i < m.suggestion.len() ==> (#[trigger] m.suggestion[i]).0.len()
        <= u64::MAX)
    &&& (forall|i: int| 0 <= i < m.ignored.len() ==> (#[trigger] m.ignored[i]).0.0.len()
        <= u64::MAX && m.ignored[i].0.1.len() <= u64::MAX)
    &&& (forall|i: int| 0 <= i < m.insertion.len() ==> (#[trigger] m.insertion[i]).0.0.len()
        <= u64::MAX && m.insertion[i].0.1.len() <= u64::MAX && m.insertion[i].1.len()
        <= u64::MAX)
}

// ------------------------------------------------------------------
// Binary primitives
// ------------------------------------------------------------------
/// Eight big-endian bytes.
pub open spec fn enc_u64(n: u64) -> Seq<u8> {
    seq![
        (n >> 56) as u8,
        (n >> 48) as u8,
        (n >> 40) as u8,
        (n >> 32) as u8,
        (n >> 24) as u8,
        (n >> 16) as u8,
        (n >> 8) as u8,
        n as u8,
    ]
}

pub open spec fn combine8(
    b0: u8,
    b1: u8,
    b2: u8,
    b3: u8,
    b4: u8,
    b5: u8,
    b6: u8,
    b7: u8,
) -> u64 {
    ((b0 as u64) << 56) | ((b1 as u64) << 48) | ((b2 as u64) << 40) | ((b3 as u64) << 32) | ((
    b4 as u64) << 24) | ((b5 as u64) << 16) | ((b6 as u64) << 8) | (b7 as u64)
}

pub open spec fn dec_u64(s: Seq<u8>, i: int) -> Option<(u64, int)> {
    if 0 <= i && i + 8 <= s.len() {
        Some(
            (
                combine8(s[i], s[i + 1], s[i + 2], s[i + 3], s[i + 4], s[i + 5], s[i + 6], s[i
                    + 7]),
                i + 8,
            ),
        )
    } else {
        None
    }
}

/// Recombining the eight bytes of a number gives the number back.
pub proof fn lemma_u64_round(n: u64)
    ensures
        combine8(
            (n >> 56) as u8,
            (n >> 48) as u8,
            (n >> 40) as u8,
            (n >> 32) as u8,
            (n >> 24) as u8,
            (n >> 16) as u8,
            (n >> 8) as u8,
            n as u8,
        ) == n,
{
    assert((((n >> 56) as u8 as u64) << 56) | (((n >> 48) as u8 as u64) << 48) | (((n
        >> 40) as u8 as u64) << 40) | (((n >> 32) as u8 as u64) << 32) | (((n
        >> 24) as u8 as u64) << 24) | (((n >> 16) as u8 as u64) << 16) | (((n
        >> 8) as u8 as u64) << 8) | ((n as u8) as u64) == n) by (bit_vector);
}

pub proof fn lemma_dec_u64_at(s: Seq<u8>, i: int, n: u64)
    requires
        0 <= i,
        i + 8 <= s.len(),
        s.subrange(i, i + 8) == enc_u64(n),
    ensures
        dec_u64(s, i) == Some((n, i + 8)),
{
    assert(s[i] == enc_u64(n)[0]);
    assert(s[i + 1] == enc_u64(n)[1]);
    assert(s[i + 2] == enc_u64(n)[2]);
    assert(s[i + 3] == enc_u64(n)[3]);
    assert(s[i + 4] == enc_u64(n)[4]);
    assert(s[i + 5] == enc_u64(n)[5]);
    assert(s[i + 6] == enc_u64(n)[6]);
    assert(s[i + 7] == enc_u64(n)[7]);
    lemma_u64_round(n);
}

pub(crate) fn push_u64(out: &mut Vec<u8>, n: u64)
    ensures
        final(out)@ == old(out)@ + enc_u64(n),
{
    out.push((n >> 56) as u8);
    out.push((n >> 48) as u8);
    out.push((n >> 40) as u8);
    out.push((n >> 32) as u8);
    out.push((n >> 24) as u8);
    out.push((n >> 16) as u8);
    out.push((n >> 8) as u8);
    out.push(n as u8);
    proof {
        assert(out@ =~= old(out)@ + enc_u64(n));
    }
}

pub(crate) fn read_u64(s: &[u8], i: usize) -> (r: Option<(u64, usize)>)
    requires
        i <= s@.len(),
    ensures
        match r {
            Some(p) => dec_u64(s@, i as int) == Some((p.0, p.1 as int)) && p.1 <= s@.len(),
            None => dec_u64(s@, i as int) == None::<(u64, int)>,
        },
{
    let n = s.len();
    if n - i < 8 {
        return None;
    }
    let v = combine8_exec(
        s[i],
        s[i + 1],
        s[i + 2],
        s[i + 3],
        s[i + 4],
        s[i + 5],
        s[i + 6],
        s[i + 7],
    );
    Some((v, i + 8))
}

fn combine8_exec(b0: u8, b1: u8, b2: u8, b3: u8, b4: u8, b5: u8, b6: u8, b7: u8) -> (r: u64)
    ensures
        r == combine8(b0, b1, b2, b3, b4, b5, b6, b7),
{
    ((b0 as u64) << 56) | ((b1 as u64) << 48) | ((b2 as u64) << 40) | ((b3 as u64) << 32) | ((
    b4 as u64) << 24) | ((b5 as u64) << 16) | ((b6 as u64) << 8) | (b7 as u64)
}

/// A character as four big-endian bytes of its code point.
pub open spec fn enc_char(c: char) -> Seq<u8> {
    seq![
        ((c as u32) >> 24) as u8,
        ((c as u32) >> 16) as u8,
        ((c as u32) >> 8) as u8,
        (c as u32) as u8,
    ]
}

pub open spec fn combine4(b0: u8, b1: u8, b2: u8, b3: u8) -> u32 {
    ((b0 as u32) << 24) | ((b1 as u32) << 16) | ((b2 as u32) << 8) | (b3 as u32)
}

pub open spec fn dec_char(s: Seq<u8>, i: int) -> Option<(char, int)> {
    if 0 <= i && i + 4 <= s.len() {
        let v = combine4(s[i], s[i + 1], s[i + 2], s[i + 3]);
        if vstd::utf8::is_scalar(v) {
            Some((v as char, i + 4))
        } else {
            None
        }
    } else {
        None
    }
}

pub proof fn lemma_u32_round(v: u32)
    ensures
        combine4((v >> 24) as u8, (v >> 16) as u8, (v >> 8) as u8, v as u8) == v,
{
    assert((((v >> 24) as u8 as u32) << 24) | (((v >> 16) as u8 as u32) << 16) | (((v
        >> 8) as u8 as u32) << 8) | ((v as u8) as u32) == v) by (bit_vector);
}

pub proof fn lemma_dec_char_at(s: Seq<u8>, i: int, c: char)
    requires
        0 <= i,
        i + 4 <= s.len(),
        s.subrange(i, i + 4) == enc_char(c),
    ensures
        dec_char(s, i) == Some((c, i + 4)),
{
    assert(s[i] == enc_char(c)[0]);
    assert(s[i + 1] == enc_char(c)[1]);
    assert(s[i + 2] == enc_char(c)[2]);
    assert(s[i + 3] == enc_char(c)[3]);
    lemma_u32_round(c as u32);
    vstd::utf8::char_is_scalar(c);
    vstd::utf8::char_u32_cast(c, c as u32);
    assert(vstd::utf8::is_scalar(c as u32));
}

/// Relies on char::from_u32: gives back the character of a scalar value and
/// nothing for a value outside the scalar range.
#[verifier::external_body]
fn char_of_u32(v: u32) -> (r: Option<char>)
    ensures
        match r {
            Some(c) => (c as u32) == v,
            None => !vstd::utf8::is_scalar(v),
        },
{
    char::from_u32(v)
}

fn push_char_bytes(out: &mut Vec<u8>, c: char)
    ensures
        final(out)@ == old(out)@ + enc_char(c),
{
    let v = c as u32;
    out.push((v >> 24) as u8);
    out.push((v >> 16) as u8);
    out.push((v >> 8) as u8);
    out.push(v as u8);
    proof {
        assert(out@ =~= old(out)@ + enc_char(c));
    }
}

fn read_char(s: &[u8], i: usize) -> (r: Option<(char, usize)>)
    requires
        i <= s@.len(),
    ensures
        match r {
            Some(p) => dec_char(s@, i as int) == Some((p.0, p.1 as int)) && p.1 <= s@.len(),
            None => dec_char(s@, i as int) == None::<(char, int)>,
        },
{
    let n = s.len();
    if n - i < 4 {
        return None;
    }
    let v = ((s[i] as u32) << 24) | ((s[i + 1] as u32) << 16) | ((s[i + 2] as u32) << 8) | (s[i
        + 3] as u32);
    match char_of_u32(v) {
        Some(c) => {
            proof {
                vstd::utf8::char_is_scalar(c);
                vstd::utf8::char_u32_cast(c, v);
                assert(vstd::utf8::is_scalar(v));
                assert((v as char) == c);
            }
            Some((c, i + 4))
        },
        None => None,
    }
}

/// A string: character count, then each character's code point.
pub open spec fn enc_chars(cs: Seq<char>) -> Seq<u8>
    decreases cs.len(),
{
    if cs.len() == 0 {
        Seq::empty()
    } else {
        enc_char(cs.first()) + enc_chars(cs.drop_first())
    }
}

pub open spec fn enc_str(cs: Seq<char>) -> Seq<u8> {
    enc_u64(cs.len() as u64) + enc_chars(cs)
}

pub open spec fn dec_chars(s: Seq<u8>, i: int, count: nat) -> Option<(Seq<char>, int)>
    decreases count,
{
    if count == 0 {
        Some((Seq::empty(), i))
    } else {
        match dec_char(s, i) {
            Some((c, j)) => match dec_chars(s, j, (count - 1) as nat) {
                Some((rest, e)) => Some((seq![c] + rest, e)),
                None => None,
            },
            None => None,
        }
    }
}

pub open spec fn dec_str(s: Seq<u8>, i: int) -> Option<(Seq<char>, int)> {
    match dec_u64(s, i) {
        Some((len, j)) => dec_chars(s, j, len as nat),
        None => None,
    }
}

/// Splitting an encoded character list after its first character.
proof fn lemma_enc_chars_len(cs: Seq<char>)
    ensures
        enc_chars(cs).len() == 4 * cs.len(),
    decreases cs.len(),
{
    if cs.len() > 0 {
        lemma_enc_chars_len(cs.drop_first());
    }
}

pub proof fn lemma_dec_chars_at(s: Seq<u8>, i: int, cs: Seq<char>)
    requires
        0 <= i,
        i + 4 * cs.len() <= s.len(),
        s.subrange(i, i + 4 * cs.len()) == enc_chars(cs),
    ensures
        dec_chars(s, i, cs.len()) == Some((cs, i + 4 * cs.len())),
    decreases cs.len(),
{
    lemma_enc_chars_len(cs);
    if cs.len() > 0 {
        lemma_enc_chars_len(cs.drop_first());
        assert(s.subrange(i, i + 4) =~= enc_chars(cs).subrange(0, 4));
        assert(enc_chars(cs).subrange(0, 4) =~= enc_char(cs.first()));
        lemma_dec_char_at(s, i, cs.first());
        assert(s.subrange(i + 4, i + 4 + 4 * cs.drop_first().len()) =~= enc_chars(cs).subrange(
            4,
            enc_chars(cs).len() as int,
        ));
        assert(enc_chars(cs).subrange(4, enc_chars(cs).len() as int) =~= enc_chars(
            cs.drop_first(),
        ));
        lemma_dec_chars_at(s, i + 4, cs.drop_first());
        assert(seq![cs.first()] + cs.drop_first() =~= cs);
    } else {
        assert(dec_chars(s, i, 0) == Some((Seq::<char>::empty(), i)));
        assert(cs =~= Seq::<char>::empty());
    }
}

pub proof fn lemma_dec_str_at(s: Seq<u8>, i: int, cs: Seq<char>)
    requires
        0 <= i,
        cs.len() <= u64::MAX,
        i + enc_str(cs).len() <= s.len(),
        s.subrange(i, i + enc_str(cs).len()) == enc_str(cs),
    ensures
        dec_str(s, i) == Some((cs, i + enc_str(cs).len())),
{
    lemma_enc_chars_len(cs);
    assert(s.subrange(i, i + 8) =~= enc_str(cs).subrange(0, 8));
    assert(enc_str(cs).subrange(0, 8) =~= enc_u64(cs.len() as u64));
    lemma_dec_u64_at(s, i, cs.len() as u64);
    assert(s.subrange(i + 8, i + 8 + 4 * cs.len()) =~= enc_str(cs).subrange(
        8,
        enc_str(cs).len() as int,
    ));
    assert(enc_str(cs).subrange(8, enc_str(cs).len() as int) =~= enc_chars(cs));
    lemma_dec_chars_at(s, i + 8, cs);
    assert((cs.len() as u64) as nat == cs.len());
}

pub(crate) fn push_str(out: &mut Vec<u8>, cs: &Vec<char>)
    ensures
        final(out)@ == old(out)@ + enc_str(cs@),
{
    let n = cs.len();
    push_u64(out, n as u64);
    let ghost base = out@;
    let mut t: usize = 0;
    while t < n
        invariant
            n == cs@.len(),
            t <= n,
            out@ =~= base + enc_chars(cs@.subrange(0, t as int)),
        decreases n - t,
    {
        push_char_bytes(out, cs[t]);
        proof {
            lemma_enc_chars_push(cs@.subrange(0, t as int), cs@[t as int]);
            assert(cs@.subrange(0, t + 1) =~= cs@.subrange(0, t as int).push(cs@[t as int]));
        }
        t += 1;
    }
    proof {
        assert(cs@.subrange(0, n as int) =~= cs@);
        assert((n as u64) as nat == cs@.len());
    }
}

/// Appending one character extends the encoding at the back.
proof fn lemma_enc_chars_push(cs: Seq<char>, c: char)
    ensures
        enc_chars(cs.push(c)) == enc_chars(cs) + enc_char(c),
    decreases cs.len(),
{
    if cs.len() == 0 {
        assert(cs.push(c).first() == c);
        assert(cs.push(c).drop_first() =~= Seq::<char>::empty());
        assert(enc_chars(cs.push(c)) == enc_char(c) + enc_chars(Seq::<char>::empty()));
        assert(enc_char(c) + Seq::<u8>::empty() =~= enc_char(c));
        assert(enc_chars(cs) + enc_char(c) =~= enc_char(c));
    } else {
        assert(cs.push(c).drop_first() =~= cs.drop_first().push(c));
        lemma_enc_chars_push(cs.drop_first(), c);
        assert(enc_chars(cs.push(c)) =~= enc_chars(cs) + enc_char(c));
    }
}

pub(crate) fn read_str(s: &[u8], i: usize) -> (r: Option<(Vec<char>, usize)>)
    requires
        i <= s@.len(),
    ensures
        match r {
            Some(p) => dec_str(s@, i as int) == Some((p.0@, p.1 as int)) && p.1 <= s@.len(),
            None => dec_str(s@, i as int) == None::<(Seq<char>, int)>,
        },
{
    let (len, j) = match read_u64(s, i) {
        Some(p) => p,
        None => {
            return None;
        },
    };
    let mut out: Vec<char> = Vec::new();
    let mut pos = j;
    let mut remaining = len;
    proof {
        assert(out@ =~= Seq::<char>::empty());
        assert(Seq::<char>::empty() + out@ =~= out@);
    }
    loop
        invariant
            i <= s@.len(),
            j <= s@.len(),
            pos <= s@.len(),
            remaining <= len,
            dec_u64(s@, i as int) == Some((len, j as int)),
            match dec_chars(s@, pos as int, remaining as nat) {
                Some(p) => dec_chars(s@, j as int, len as nat) == Some(
                    (out@ + p.0, p.1),
                ),
                None => dec_chars(s@, j as int, len as nat) == None::<(Seq<char>, int)>,
            },
        decreases remaining,
    {
        if remaining == 0 {
            proof {
                assert(out@ + Seq::<char>::empty() =~= out@);
            }
            return Some((out, pos));
        }
        match read_char(s, pos) {
            Some((c, next)) => {
                let ghost pre = out@;
                out.push(c);
                proof {
                    assert(out@ =~= pre.push(c));
                    assert forall|rest: Seq<char>|
                        true implies (pre + (seq![c] + rest)) =~= (out@ + rest) by {}
                }
                pos = next;
                remaining = remaining - 1;
            },
            None => {
                return None;
            },
        }
    }
}


/// Four big-endian bytes (the version field).
pub open spec fn enc_u32(v: u32) -> Seq<u8> {
    seq![(v >> 24) as u8, (v >> 16) as u8, (v >> 8) as u8, v as u8]
}

pub open spec fn dec_u32(s: Seq<u8>, i: int) -> Option<(u32, int)> {
    if 0 <= i && i + 4 <= s.len() {
        Some((combine4(s[i], s[i + 1], s[i + 2], s[i + 3]), i + 4))
    } else {
        None
    }
}

pub proof fn lemma_dec_u32_at(s: Seq<u8>, i: int, v: u32)
    requires
        0 <= i,
        i + 4 <= s.len(),
        s.subrange(i, i + 4) == enc_u32(v),
    ensures
        dec_u32(s, i) == Some((v, i + 4)),
{
    assert(s[i] == enc_u32(v)[0]);
    assert(s[i + 1] == enc_u32(v)[1]);
    assert(s[i + 2] == enc_u32(v)[2]);
    assert(s[i + 3] == enc_u32(v)[3]);
    lemma_u32_round(v);
}

pub(crate) fn push_u32(out: &mut Vec<u8>, v: u32)
    ensures
        final(out)@ == old(out)@ + enc_u32(v),
{
    out.push((v >> 24) as u8);
    out.push((v >> 16) as u8);
    out.push((v >> 8) as u8);
    out.push(v as u8);
    proof {
        assert(out@ =~= old(out)@ + enc_u32(v));
    }
}

pub(crate) fn read_u32(s: &[u8], i: usize) -> (r: Option<(u32, usize)>)
    requires
        i <= s@.len(),
    ensures
        match r {
            Some(p) => dec_u32(s@, i as int) == Some((p.0, p.1 as int)) && p.1 <= s@.len(),
            None => dec_u32(s@, i as int) == None::<(u32, int)>,
        },
{
    let n = s.len();
    if n - i < 4 {
        return None;
    }
    let v = ((s[i] as u32) << 24) | ((s[i + 1] as u32) << 16) | ((s[i + 2] as u32) << 8) | (s[i
        + 3] as u32);
    Some((v, i + 4))
}

// ------------------------------------------------------------------
// Entry lists
// ------------------------------------------------------------------
/// A path -> time entry.
pub open spec fn enc_time_entry(e: (Seq<char>, u64)) -> Seq<u8> {
    enc_str(e.0) + enc_u64(e.1)
}

pub open spec fn enc_time_entries(kv: Seq<(Seq<char>, u64)>) -> Seq<u8>
    decreases kv.len(),
{
    if kv.len() == 0 {
        Seq::empty()
    } else {
        enc_time_entry(kv.first()) + enc_time_entries(kv.drop_first())
    }
}

pub open spec fn dec_time_entry(s: Seq<u8>, i: int) -> Option<((Seq<char>, u64), int)> {
    match dec_str(s, i) {
        Some((cs, j)) => match dec_u64(s, j) {
            Some((v, e)) => Some(((cs, v), e)),
            None => None,
        },
        None => None,
    }
}

pub open spec fn dec_time_entries(s: Seq<u8>, i: int, count: nat) -> Option<
    (Seq<(Seq<char>, u64)>, int),
>
    decreases count,
{
    if count == 0 {
        Some((Seq::empty(), i))
    } else {
        match dec_time_entry(s, i) {
            Some((e, j)) => match dec_time_entries(s, j, (count - 1) as nat) {
                Some((rest, m)) => Some((seq![e] + rest, m)),
                None => None,
            },
            None => None,
        }
    }
}

/// A (pair key) -> time entry.
pub open spec fn enc_pair_time_entry(e: ((Seq<char>, Seq<char>), u64)) -> Seq<u8> {
    enc_str(e.0.0) + enc_str(e.0.1) + enc_u64(e.1)
}

pub open spec fn enc_pair_time_entries(kv: Seq<((Seq<char>, Seq<char>), u64)>) -> Seq<u8>
    decreases kv.len(),
{
    if kv.len() == 0 {
        Seq::empty()
    } else {
        enc_pair_time_entry(kv.first()) + enc_pair_time_entries(kv.drop_first())
    }
}

pub open spec fn dec_pair_time_entry(s: Seq<u8>, i: int) -> Option<
    (((Seq<char>, Seq<char>), u64), int),
> {
    match dec_str(s, i) {
        Some((a, j)) => match dec_str(s, j) {
            Some((b, k)) => match dec_u64(s, k) {
                Some((v, e)) => Some((((a, b), v), e)),
                None => None,
            },
            None => None,
        },
        None => None,
    }
}

pub open spec fn dec_pair_time_entries(s: Seq<u8>, i: int, count: nat) -> Option<
    (Seq<((Seq<char>, Seq<char>), u64)>, int),
>
    decreases count,
{
    if count == 0 {
        Some((Seq::empty(), i))
    } else {
        match dec_pair_time_entry(s, i) {
            Some((e, j)) => match dec_pair_time_entries(s, j, (count - 1) as nat) {
                Some((rest, m)) => Some((seq![e] + rest, m)),
                None => None,
            },
            None => None,
        }
    }
}

/// A (pair key) -> string entry.
pub open spec fn enc_pair_str_entry(e: ((Seq<char>, Seq<char>), Seq<char>)) -> Seq<u8> {
    enc_str(e.0.0) + enc_str(e.0.1) + enc_str(e.1)
}

pub open spec fn enc_pair_str_entries(kv: Seq<((Seq<char>, Seq<char>), Seq<char>)>) -> Seq<u8>
    decreases kv.len(),
{
    if kv.len() == 0 {
        Seq::empty()
    } else {
        enc_pair_str_entry(kv.first()) + enc_pair_str_entries(kv.drop_first())
    }
}

pub open spec fn dec_pair_str_entry(s: Seq<u8>, i: int) -> Option<
    (((Seq<char>, Seq<char>), Seq<char>), int),
> {
    match dec_str(s, i) {
        Some((a, j)) => match dec_str(s, j) {
            Some((b, k)) => match dec_str(s, k) {
                Some((v, e)) => Some((((a, b), v), e)),
                None => None,
            },
            None => None,
        },
        None => None,
    }
}

pub open spec fn dec_pair_str_entries(s: Seq<u8>, i: int, count: nat) -> Option<
    (Seq<((Seq<char>, Seq<char>), Seq<char>)>, int),
>
    decreases count,
{
    if count == 0 {
        Some((Seq::empty(), i))
    } else {
        match dec_pair_str_entry(s, i) {
            Some((e, j)) => match dec_pair_str_entries(s, j, (count - 1) as nat) {
                Some((rest, m)) => Some((seq![e] + rest, m)),
                None => None,
            },
            None => None,
        }
    }
}

// ------------------------------------------------------------------
// The whole index and its envelope
// ------------------------------------------------------------------
pub open spec fn enc_time_map(kv: Seq<(Seq<char>, u64)>) -> Seq<u8> {
    enc_u64(kv.len() as u64) + enc_time_entries(kv)
}

pub open spec fn dec_time_map(s: Seq<u8>, i: int) -> Option<(Seq<(Seq<char>, u64)>, int)> {
    match dec_u64(s, i) {
        Some((count, j)) => dec_time_entries(s, j, count as nat),
        None => None,
    }
}

pub open spec fn enc_pair_time_map(kv: Seq<((Seq<char>, Seq<char>), u64)>) -> Seq<u8> {
    enc_u64(kv.len() as u64) + enc_pair_time_entries(kv)
}

pub open spec fn dec_pair_time_map(s: Seq<u8>, i: int) -> Option<
    (Seq<((Seq<char>, Seq<char>), u64)>, int),
> {
    match dec_u64(s, i) {
        Some((count, j)) => dec_pair_time_entries(s, j, count as nat),
        None => None,
    }
}

pub open spec fn enc_pair_str_map(kv: Seq<((Seq<char>, Seq<char>), Seq<char>)>) -> Seq<u8> {
    enc_u64(kv.len() as u64) + enc_pair_str_entries(kv)
}

pub open spec fn dec_pair_str_map(s: Seq<u8>, i: int) -> Option<
    (Seq<((Seq<char>, Seq<char>), Seq<char>)>, int),
> {
    match dec_u64(s, i) {
        Some((count, j)) => dec_pair_str_entries(s, j, count as nat),
        None => None,
    }
}

pub open spec fn enc_index(m: CacheModel) -> Seq<u8> {
    enc_time_map(m.embedding) + enc_time_map(m.keyword) + enc_time_map(m.suggestion)
        + enc_pair_time_map(m.ignored) + enc_pair_str_map(m.insertion)
}

pub open spec fn dec_index(s: Seq<u8>, i: int) -> Option<(CacheModel, int)> {
    match dec_time_map(s, i) {
        Some((embedding, i1)) => match dec_time_map(s, i1) {
            Some((keyword, i2)) => match dec_time_map(s, i2) {
                Some((suggestion, i3)) => match dec_pair_time_map(s, i3) {
                    Some((ignored, i4)) => match dec_pair_str_map(s, i4) {
                        Some((insertion, i5)) => Some(
                            (
                                CacheModel { embedding, keyword, suggestion, ignored, insertion },
                                i5,
                            ),
                        ),
                        None => None,
                    },
                    None => None,
                },
                None => None,
            },
            None => None,
        },
        None => None,
    }
}

/// The binary encoding tag.
pub open spec fn binary_tag() -> Seq<char> {
    seq!['b', 'i', 'n', 'a', 'r', 'y']
}

pub open spec fn enc_envelope(m: CacheModel, version: u32, created_at: u64) -> Seq<u8> {
    enc_u32(version) + enc_str(binary_tag()) + enc_u64(created_at) + enc_index(m)
}

/// Decoding a persisted blob: the enveloped form first, then the bare
/// payload as the legacy fallback; either way the whole input must be
/// consumed.
pub open spec fn spec_decode_enveloped(s: Seq<u8>) -> Option<CacheModel> {
    match dec_u32(s, 0) {
        Some((version, i1)) => match dec_str(s, i1) {
            Some((fmt, i2)) => match dec_u64(s, i2) {
                Some((created, i3)) => match dec_index(s, i3) {
                    Some((m, e)) => if e == s.len() {
                        Some(m)
                    } else {
                        None
                    },
                    None => None,
                },
                None => None,
            },
            None => None,
        },
        None => None,
    }
}

pub open spec fn spec_decode_cache_binary(s: Seq<u8>) -> Option<CacheModel> {
    match spec_decode_enveloped(s) {
        Some(m) => Some(m),
        None => match dec_index(s, 0) {
            Some((m, e)) => if e == s.len() {
                Some(m)
            } else {
                None
            },
            None => None,
        },
    }
}


// ------------------------------------------------------------------
// Round trip of the binary profile
// ------------------------------------------------------------------
/// A slice equal to a concatenation splits into the two parts.
pub(crate) proof fn lemma_subrange_split(s: Seq<u8>, i: int, a: Seq<u8>, b: Seq<u8>)
    requires
        0 <= i,
        i + a.len() + b.len() <= s.len(),
        s.subrange(i, i + a.len() + b.len()) == a + b,
    ensures
        s.subrange(i, i + a.len()) == a,
        s.subrange(i + a.len(), i + a.len() + b.len()) == b,
{
    assert forall|k: int| 0 <= k < a.len() implies s.subrange(i, i + a.len() as int)[k]
        == a[k] by {
        assert(s.subrange(i, i + a.len() + b.len())[k] == (a + b)[k]);
    }
    assert(s.subrange(i, i + a.len()) =~= a);
    assert forall|k: int| 0 <= k < b.len() implies s.subrange(
        i + a.len(),
        i + a.len() + b.len(),
    )[k] == b[k] by {
        assert(s.subrange(i, i + a.len() + b.len())[a.len() + k] == (a + b)[a.len() + k]);
        assert((a + b)[a.len() + k] == b[k]);
        assert(s.subrange(i, i + a.len() + b.len())[a.len() + k] == s[i + a.len() + k]);
        assert(s.subrange(i + a.len(), i + a.len() + b.len())[k] == s[i + a.len() + k]);
    }
    assert(s.subrange(i + a.len(), i + a.len() + b.len()) =~= b);
}

proof fn lemma_dec_time_entry_at(s: Seq<u8>, i: int, e: (Seq<char>, u64))
    requires
        0 <= i,
        e.0.len() <= u64::MAX,
        i + enc_time_entry(e).len() <= s.len(),
        s.subrange(i, i + enc_time_entry(e).len()) == enc_time_entry(e),
    ensures
        dec_time_entry(s, i) == Some((e, i + enc_time_entry(e).len())),
{
    let l1 = enc_str(e.0).len() as int;
    lemma_subrange_split(s, i, enc_str(e.0), enc_u64(e.1));
    lemma_dec_str_at(s, i, e.0);
    lemma_dec_u64_at(s, i + l1, e.1);
}

proof fn lemma_dec_time_entries_at(s: Seq<u8>, i: int, kv: Seq<(Seq<char>, u64)>)
    requires
        0 <= i,
        forall|t: int| 0 <= t < kv.len() ==> (#[trigger] kv[t]).0.len() <= u64::MAX,
        i + enc_time_entries(kv).len() <= s.len(),
        s.subrange(i, i + enc_time_entries(kv).len()) == enc_time_entries(kv),
    ensures
        dec_time_entries(s, i, kv.len()) == Some((kv, i + enc_time_entries(kv).len())),
    decreases kv.len(),
{
    if kv.len() == 0 {
        assert(kv =~= Seq::<(Seq<char>, u64)>::empty());
    } else {
        let l0 = enc_time_entry(kv.first()).len() as int;
        lemma_subrange_split(s, i, enc_time_entry(kv.first()), enc_time_entries(kv.drop_first()));
        lemma_dec_time_entry_at(s, i, kv.first());
        lemma_dec_time_entries_at(s, i + l0, kv.drop_first());
        assert(seq![kv.first()] + kv.drop_first() =~= kv);
    }
}

proof fn lemma_dec_pair_time_entry_at(s: Seq<u8>, i: int, e: ((Seq<char>, Seq<char>), u64))
    requires
        0 <= i,
        e.0.0.len() <= u64::MAX,
        e.0.1.len() <= u64::MAX,
        i + enc_pair_time_entry(e).len() <= s.len(),
        s.subrange(i, i + enc_pair_time_entry(e).len()) == enc_pair_time_entry(e),
    ensures
        dec_pair_time_entry(s, i) == Some((e, i + enc_pair_time_entry(e).len())),
{
    let l1 = enc_str(e.0.0).len() as int;
    let l2 = enc_str(e.0.1).len() as int;
    assert(enc_pair_time_entry(e) =~= enc_str(e.0.0) + (enc_str(e.0.1) + enc_u64(e.1)));
    lemma_subrange_split(s, i, enc_str(e.0.0), enc_str(e.0.1) + enc_u64(e.1));
    lemma_dec_str_at(s, i, e.0.0);
    lemma_subrange_split(s, i + l1, enc_str(e.0.1), enc_u64(e.1));
    lemma_dec_str_at(s, i + l1, e.0.1);
    lemma_dec_u64_at(s, i + l1 + l2, e.1);
}

proof fn lemma_dec_pair_time_entries_at(s: Seq<u8>, i: int, kv: Seq<((Seq<char>, Seq<char>), u64)>)
    requires
        0 <= i,
        forall|t: int| 0 <= t < kv.len() ==> (#[trigger] kv[t]).0.0.len() <= u64::MAX
            && kv[t].0.1.len() <= u64::MAX,
        i + enc_pair_time_entries(kv).len() <= s.len(),
        s.subrange(i, i + enc_pair_time_entries(kv).len()) == enc_pair_time_entries(kv),
    ensures
        dec_pair_time_entries(s, i, kv.len()) == Some(
            (kv, i + enc_pair_time_entries(kv).len()),
        ),
    decreases kv.len(),
{
    if kv.len() == 0 {
        assert(kv =~= Seq::<((Seq<char>, Seq<char>), u64)>::empty());
    } else {
        let l0 = enc_pair_time_entry(kv.first()).len() as int;
        lemma_subrange_split(
            s,
            i,
            enc_pair_time_entry(kv.first()),
            enc_pair_time_entries(kv.drop_first()),
        );
        lemma_dec_pair_time_entry_at(s, i, kv.first());
        lemma_dec_pair_time_entries_at(s, i + l0, kv.drop_first());
        assert(seq![kv.first()] + kv.drop_first() =~= kv);
    }
}

proof fn lemma_dec_pair_str_entry_at(s: Seq<u8>, i: int, e: ((Seq<char>, Seq<char>), Seq<char>))
    requires
        0 <= i,
        e.0.0.len() <= u64::MAX,
        e.0.1.len() <= u64::MAX,
        e.1.len() <= u64::MAX,
        i + enc_pair_str_entry(e).len() <= s.len(),
        s.subrange(i, i + enc_pair_str_entry(e).len()) == enc_pair_str_entry(e),
    ensures
        dec_pair_str_entry(s, i) == Some((e, i + enc_pair_str_entry(e).len())),
{
    let l1 = enc_str(e.0.0).len() as int;
    let l2 = enc_str(e.0.1).len() as int;
    assert(enc_pair_str_entry(e) =~= enc_str(e.0.0) + (enc_str(e.0.1) + enc_str(e.1)));
    lemma_subrange_split(s, i, enc_str(e.0.0), enc_str(e.0.1) + enc_str(e.1));
    lemma_dec_str_at(s, i, e.0.0);
    lemma_subrange_split(s, i + l1, enc_str(e.0.1), enc_str(e.1));
    lemma_dec_str_at(s, i + l1, e.0.1);
    lemma_dec_str_at(s, i + l1 + l2, e.1);
}

proof fn lemma_dec_pair_str_entries_at(
    s: Seq<u8>,
    i: int,
    kv: Seq<((Seq<char>, Seq<char>), Seq<char>)>,
)
    requires
        0 <= i,
        forall|t: int| 0 <= t < kv.len() ==> (#[trigger] kv[t]).0.0.len() <= u64::MAX
            && kv[t].0.1.len() <= u64::MAX && kv[t].1.len() <= u64::MAX,
        i + enc_pair_str_entries(kv).len() <= s.len(),
        s.subrange(i, i + enc_pair_str_entries(kv).len()) == enc_pair_str_entries(kv),
    ensures
        dec_pair_str_entries(s, i, kv.len()) == Some((kv, i + enc_pair_str_entries(kv).len())),
    decreases kv.len(),
{
    if kv.len() == 0 {
        assert(kv =~= Seq::<((Seq<char>, Seq<char>), Seq<char>)>::empty());
    } else {
        let l0 = enc_pair_str_entry(kv.first()).len() as int;
        lemma_subrange_split(
            s,
            i,
            enc_pair_str_entry(kv.first()),
            enc_pair_str_entries(kv.drop_first()),
        );
        lemma_dec_pair_str_entry_at(s, i, kv.first());
        lemma_dec_pair_str_entries_at(s, i + l0, kv.drop_first());
        assert(seq![kv.first()] + kv.drop_first() =~= kv);
    }
}

proof fn lemma_dec_time_map_at(s: Seq<u8>, i: int, kv: Seq<(Seq<char>, u64)>)
    requires
        0 <= i,
        kv.len() <= u64::MAX,
        forall|t: int| 0 <= t < kv.len() ==> (#[trigger] kv[t]).0.len() <= u64::MAX,
        i + enc_time_map(kv).len() <= s.len(),
        s.subrange(i, i + enc_time_map(kv).len()) == enc_time_map(kv),
    ensures
        dec_time_map(s, i) == Some((kv, i + enc_time_map(kv).len())),
{
    lemma_subrange_split(s, i, enc_u64(kv.len() as u64), enc_time_entries(kv));
    lemma_dec_u64_at(s, i, kv.len() as u64);
    lemma_dec_time_entries_at(s, i + 8, kv);
    assert((kv.len() as u64) as nat == kv.len());
}

proof fn lemma_dec_pair_time_map_at(s: Seq<u8>, i: int, kv: Seq<((Seq<char>, Seq<char>), u64)>)
    requires
        0 <= i,
        kv.len() <= u64::MAX,
        forall|t: int| 0 <= t < kv.len() ==> (#[trigger] kv[t]).0.0.len() <= u64::MAX
            && kv[t].0.1.len() <= u64::MAX,
        i + enc_pair_time_map(kv).len() <= s.len(),
        s.subrange(i, i + enc_pair_time_map(kv).len()) == enc_pair_time_map(kv),
    ensures
        dec_pair_time_map(s, i) == Some((kv, i + enc_pair_time_map(kv).len())),
{
    lemma_subrange_split(s, i, enc_u64(kv.len() as u64), enc_pair_time_entries(kv));
    lemma_dec_u64_at(s, i, kv.len() as u64);
    lemma_dec_pair_time_entries_at(s, i + 8, kv);
    assert((kv.len() as u64) as nat == kv.len());
}

proof fn lemma_dec_pair_str_map_at(s: Seq<u8>, i: int, kv: Seq<((Seq<char>, Seq<char>), Seq<char>)>)
    requires
        0 <= i,
        kv.len() <= u64::MAX,
        forall|t: int| 0 <= t < kv.len() ==> (#[trigger] kv[t]).0.0.len() <= u64::MAX
            && kv[t].0.1.len() <= u64::MAX && kv[t].1.len() <= u64::MAX,
        i + enc_pair_str_map(kv).len() <= s.len(),
        s.subrange(i, i + enc_pair_str_map(kv).len()) == enc_pair_str_map(kv),
    ensures
        dec_pair_str_map(s, i) == Some((kv, i + enc_pair_str_map(kv).len())),
{
    lemma_subrange_split(s, i, enc_u64(kv.len() as u64), enc_pair_str_entries(kv));
    lemma_dec_u64_at(s, i, kv.len() as u64);
    lemma_dec_pair_str_entries_at(s, i + 8, kv);
    assert((kv.len() as u64) as nat == kv.len());
}

#[verifier::rlimit(100)]
proof fn lemma_dec_index_at(s: Seq<u8>, i: int, m: CacheModel)
    requires
        0 <= i,
        model_bounded(m),
        i + enc_index(m).len() <= s.len(),
        s.subrange(i, i + enc_index(m).len()) == enc_index(m),
    ensures
        dec_index(s, i) == Some((m, i + enc_index(m).len())),
{
    let p1 = enc_time_map(m.embedding);
    let p2 = enc_time_map(m.keyword);
    let p3 = enc_time_map(m.suggestion);
    let p4 = enc_pair_time_map(m.ignored);
    let p5 = enc_pair_str_map(m.insertion);
    assert(enc_index(m) =~= p1 + (p2 + (p3 + (p4 + p5))));
    let o1 = i + p1.len() as int;
    lemma_subrange_split(s, i, p1, p2 + (p3 + (p4 + p5)));
    lemma_dec_time_map_at(s, i, m.embedding);
    let o2 = o1 + p2.len() as int;
    lemma_subrange_split(s, o1, p2, p3 + (p4 + p5));
    lemma_dec_time_map_at(s, o1, m.keyword);
    let o3 = o2 + p3.len() as int;
    lemma_subrange_split(s, o2, p3, p4 + p5);
    lemma_dec_time_map_at(s, o2, m.suggestion);
    let o4 = o3 + p4.len() as int;
    lemma_subrange_split(s, o3, p4, p5);
    lemma_dec_pair_time_map_at(s, o3, m.ignored);
    lemma_dec_pair_str_map_at(s, o4, m.insertion);
}

/// Law: the binary profile round-trips: decoding what was encoded gives the
/// same logical cache back, whatever version and timestamp the envelope
/// carries.
#[verifier::rlimit(100)]
pub proof fn law_round_trip_binary(m: CacheModel, version: u32, created_at: u64)
    requires
        model_bounded(m),
    ensures
        spec_decode_cache_binary(enc_envelope(m, version, created_at)) == Some(m),
{
    let s = enc_envelope(m, version, created_at);
    let p1 = enc_u32(version);
    let p2 = enc_str(binary_tag());
    let p3 = enc_u64(created_at);
    let p4 = enc_index(m);
    assert(s =~= p1 + (p2 + (p3 + p4)));
    assert(s.subrange(0, s.len() as int) =~= s);
    let o1: int = 0 + p1.len() as int;
    lemma_subrange_split(s, 0, p1, p2 + (p3 + p4));
    lemma_dec_u32_at(s, 0, version);
    let o2: int = o1 + p2.len() as int;
    lemma_subrange_split(s, o1, p2, p3 + p4);
    lemma_dec_str_at(s, o1, binary_tag());
    let o3: int = o2 + p3.len() as int;
    lemma_subrange_split(s, o2, p3, p4);
    lemma_dec_u64_at(s, o2, created_at);
    lemma_dec_index_at(s, o3, m);
}


// ------------------------------------------------------------------
// Executable binary encode / decode
// ------------------------------------------------------------------
proof fn lemma_enc_time_entries_push(kv: Seq<(Seq<char>, u64)>, e: (Seq<char>, u64))
    ensures
        enc_time_entries(kv.push(e)) == enc_time_entries(kv) + enc_time_entry(e),
    decreases kv.len(),
{
    if kv.len() == 0 {
        assert(kv.push(e).first() == e);
        assert(kv.push(e).drop_first() =~= Seq::<(Seq<char>, u64)>::empty());
        assert(enc_time_entries(kv.push(e)) == enc_time_entry(e) + enc_time_entries(
            Seq::<(Seq<char>, u64)>::empty(),
        ));
        assert(enc_time_entries(kv.push(e)) =~= enc_time_entries(kv) + enc_time_entry(e));
    } else {
        assert(kv.push(e).drop_first() =~= kv.drop_first().push(e));
        lemma_enc_time_entries_push(kv.drop_first(), e);
        assert(enc_time_entries(kv.push(e)) =~= enc_time_entries(kv) + enc_time_entry(e));
    }
}

proof fn lemma_enc_pair_time_entries_push(
    kv: Seq<((Seq<char>, Seq<char>), u64)>,
    e: ((Seq<char>, Seq<char>), u64),
)
    ensures
        enc_pair_time_entries(kv.push(e)) == enc_pair_time_entries(kv) + enc_pair_time_entry(e),
    decreases kv.len(),
{
    if kv.len() == 0 {
        assert(kv.push(e).first() == e);
        assert(kv.push(e).drop_first() =~= Seq::<((Seq<char>, Seq<char>), u64)>::empty());
        assert(enc_pair_time_entries(kv.push(e)) == enc_pair_time_entry(e)
            + enc_pair_time_entries(Seq::<((Seq<char>, Seq<char>), u64)>::empty()));
        assert(enc_pair_time_entries(kv.push(e)) =~= enc_pair_time_entries(kv)
            + enc_pair_time_entry(e));
    } else {
        assert(kv.push(e).drop_first() =~= kv.drop_first().push(e));
        lemma_enc_pair_time_entries_push(kv.drop_first(), e);
        assert(enc_pair_time_entries(kv.push(e)) =~= enc_pair_time_entries(kv)
            + enc_pair_time_entry(e));
    }
}

proof fn lemma_enc_pair_str_entries_push(
    kv: Seq<((Seq<char>, Seq<char>), Seq<char>)>,
    e: ((Seq<char>, Seq<char>), Seq<char>),
)
    ensures
        enc_pair_str_entries(kv.push(e)) == enc_pair_str_entries(kv) + enc_pair_str_entry(e),
    decreases kv.len(),
{
    if kv.len() == 0 {
        assert(kv.push(e).first() == e);
        assert(kv.push(e).drop_first() =~= Seq::<((Seq<char>, Seq<char>), Seq<char>)>::empty());
        assert(enc_pair_str_entries(kv.push(e)) == enc_pair_str_entry(e) + enc_pair_str_entries(
            Seq::<((Seq<char>, Seq<char>), Seq<char>)>::empty(),
        ));
        assert(enc_pair_str_entries(kv.push(e)) =~= enc_pair_str_entries(kv)
            + enc_pair_str_entry(e));
    } else {
        assert(kv.push(e).drop_first() =~= kv.drop_first().push(e));
        lemma_enc_pair_str_entries_push(kv.drop_first(), e);
        assert(enc_pair_str_entries(kv.push(e)) =~= enc_pair_str_entries(kv)
            + enc_pair_str_entry(e));
    }
}

fn push_time_map(out: &mut Vec<u8>, m: &crate::kvmap::KeyMap<String, u64>)
    ensures
        final(out)@ == old(out)@ + enc_time_map(m.kv()),
{
    let n = m.num_entries();
    push_u64(out, n as u64);
    let ghost base = out@;
    let mut t: usize = 0;
    while t < n
        invariant
            n == m.kv().len(),
            t <= n,
            out@ =~= base + enc_time_entries(m.kv().subrange(0, t as int)),
        decreases n - t,
    {
        let key_chars = crate::strutil::chars_of(m.key_at(t).as_str());
        push_str(out, &key_chars);
        push_u64(out, *m.val_at(t));
        proof {
            lemma_enc_time_entries_push(m.kv().subrange(0, t as int), m.kv()[t as int]);
            assert(m.kv().subrange(0, t + 1) =~= m.kv().subrange(0, t as int).push(
                m.kv()[t as int],
            ));
            assert(out@ =~= base + enc_time_entries(m.kv().subrange(0, t + 1)));
        }
        t += 1;
    }
    proof {
        assert(m.kv().subrange(0, n as int) =~= m.kv());
        assert(out@ =~= old(out)@ + enc_time_map(m.kv()));
    }
}

fn push_pair_time_map(out: &mut Vec<u8>, m: &crate::kvmap::KeyMap<crate::kvmap::PairKey, u64>)
    ensures
        final(out)@ == old(out)@ + enc_pair_time_map(m.kv()),
{
    let n = m.num_entries();
    push_u64(out, n as u64);
    let ghost base = out@;
    let mut t: usize = 0;
    while t < n
        invariant
            n == m.kv().len(),
            t <= n,
            out@ =~= base + enc_pair_time_entries(m.kv().subrange(0, t as int)),
        decreases n - t,
    {
        let key = m.key_at(t);
        let a = crate::strutil::chars_of(key.first.as_str());
        let b = crate::strutil::chars_of(key.second.as_str());
        push_str(out, &a);
        push_str(out, &b);
        push_u64(out, *m.val_at(t));
        proof {
            lemma_enc_pair_time_entries_push(m.kv().subrange(0, t as int), m.kv()[t as int]);
            assert(m.kv().subrange(0, t + 1) =~= m.kv().subrange(0, t as int).push(
                m.kv()[t as int],
            ));
            assert(out@ =~= base + enc_pair_time_entries(m.kv().subrange(0, t + 1)));
        }
        t += 1;
    }
    proof {
        assert(m.kv().subrange(0, n as int) =~= m.kv());
        assert(out@ =~= old(out)@ + enc_pair_time_map(m.kv()));
    }
}

fn push_pair_str_map(out: &mut Vec<u8>, m: &crate::kvmap::KeyMap<crate::kvmap::PairKey, String>)
    ensures
        final(out)@ == old(out)@ + enc_pair_str_map(m.kv()),
{
    let n = m.num_entries();
    push_u64(out, n as u64);
    let ghost base = out@;
    let mut t: usize = 0;
    while t < n
        invariant
            n == m.kv().len(),
            t <= n,
            out@ =~= base + enc_pair_str_entries(m.kv().subrange(0, t as int)),
        decreases n - t,
    {
        let key = m.key_at(t);
        let a = crate::strutil::chars_of(key.first.as_str());
        let b = crate::strutil::chars_of(key.second.as_str());
        let v = crate::strutil::chars_of(m.val_at(t).as_str());
        push_str(out, &a);
        push_str(out, &b);
        push_str(out, &v);
        proof {
            lemma_enc_pair_str_entries_push(m.kv().subrange(0, t as int), m.kv()[t as int]);
            assert(m.kv().subrange(0, t + 1) =~= m.kv().subrange(0, t as int).push(
                m.kv()[t as int],
            ));
            assert(out@ =~= base + enc_pair_str_entries(m.kv().subrange(0, t + 1)));
        }
        t += 1;
    }
    proof {
        assert(m.kv().subrange(0, n as int) =~= m.kv());
        assert(out@ =~= old(out)@ + enc_pair_str_map(m.kv()));
    }
}

/// Serializes a cache index in the binary profile, with envelope.
pub fn encode_cache_binary(c: &CacheIndex, created_at: u64) -> (r: Vec<u8>)
    ensures
        r@ == enc_envelope(cache_model(*c), CACHE_FORMAT_VERSION, created_at),
{
    let mut out: Vec<u8> = Vec::new();
    push_u32(&mut out, CACHE_FORMAT_VERSION);
    let tag: Vec<char> = vec!['b', 'i', 'n', 'a', 'r', 'y'];
    proof {
        assert(tag@ =~= binary_tag());
    }
    push_str(&mut out, &tag);
    push_u64(&mut out, created_at);
    push_time_map(&mut out, &c.embedding_mtimes);
    push_time_map(&mut out, &c.keyword_mtimes);
    push_time_map(&mut out, &c.suggestion_mtimes);
    push_pair_time_map(&mut out, &c.ignored_suggestions);
    push_pair_str_map(&mut out, &c.insertion_cache);
    proof {
        assert(out@ =~= enc_envelope(cache_model(*c), CACHE_FORMAT_VERSION, created_at));
    }
    out
}

fn read_time_map(s: &[u8], i: usize) -> (r: Option<
    (crate::kvmap::KeyMap<String, u64>, usize, Ghost<Seq<(Seq<char>, u64)>>),
>)
    requires
        i <= s@.len(),
    ensures
        match r {
            Some(p) => p.1 <= s@.len() && p.0.wf() && dec_time_map(s@, i as int) == Some(
                (p.2@, p.1 as int),
            ) && p.0@ == crate::kvmap::seq_to_map(p.2@),
            None => dec_time_map(s@, i as int) == None::<(Seq<(Seq<char>, u64)>, int)>,
        },
{
    let (count, j) = match read_u64(s, i) {
        Some(p) => p,
        None => {
            return None;
        },
    };
    let mut map = crate::kvmap::KeyMap::<String, u64>::new();
    let ghost consumed: Seq<(Seq<char>, u64)> = Seq::empty();
    let mut pos = j;
    let mut remaining = count;
    proof {
        assert(consumed + Seq::<(Seq<char>, u64)>::empty() =~= consumed);
    }
    loop
        invariant
            i <= s@.len(),
            pos <= s@.len(),
            remaining <= count,
            dec_u64(s@, i as int) == Some((count, j as int)),
            map.wf(),
            map@ == crate::kvmap::seq_to_map(consumed),
            match dec_time_entries(s@, pos as int, remaining as nat) {
                Some(p) => dec_time_entries(s@, j as int, count as nat) == Some(
                    (consumed + p.0, p.1),
                ),
                None => dec_time_entries(s@, j as int, count as nat) == None::<
                    (Seq<(Seq<char>, u64)>, int),
                >,
            },
        decreases remaining,
    {
        if remaining == 0 {
            proof {
                assert(consumed + Seq::<(Seq<char>, u64)>::empty() =~= consumed);
            }
            return Some((map, pos, Ghost(consumed)));
        }
        let (key_chars, k1) = match read_str(s, pos) {
            Some(p) => p,
            None => {
                return None;
            },
        };
        let (v, k2) = match read_u64(s, k1) {
            Some(p) => p,
            None => {
                return None;
            },
        };
        let key = crate::strutil::string_from_chars(&key_chars);
        proof {
            let e = (key_chars@, v);
            assert(consumed.push(e).drop_last() =~= consumed);
            assert(consumed.push(e).last() == e);
            assert(crate::kvmap::seq_to_map(consumed.push(e)) == crate::kvmap::seq_to_map(
                consumed,
            ).insert(e.0, e.1));
            assert forall|rest: Seq<(Seq<char>, u64)>|
                true implies (consumed + (seq![e] + rest)) =~= (consumed.push(e) + rest) by {}
        }
        map.insert(key, v);
        proof {
            consumed = consumed.push((key_chars@, v));
        }
        pos = k2;
        remaining = remaining - 1;
    }
}

fn read_pair_time_map(s: &[u8], i: usize) -> (r: Option<
    (
        crate::kvmap::KeyMap<crate::kvmap::PairKey, u64>,
        usize,
        Ghost<Seq<((Seq<char>, Seq<char>), u64)>>,
    ),
>)
    requires
        i <= s@.len(),
    ensures
        match r {
            Some(p) => p.1 <= s@.len() && p.0.wf() && dec_pair_time_map(s@, i as int) == Some(
                (p.2@, p.1 as int),
            ) && p.0@ == crate::kvmap::seq_to_map(p.2@),
            None => dec_pair_time_map(s@, i as int) == None::<
                (Seq<((Seq<char>, Seq<char>), u64)>, int),
            >,
        },
{
    let (count, j) = match read_u64(s, i) {
        Some(p) => p,
        None => {
            return None;
        },
    };
    let mut map = crate::kvmap::KeyMap::<crate::kvmap::PairKey, u64>::new();
    let ghost consumed: Seq<((Seq<char>, Seq<char>), u64)> = Seq::empty();
    let mut pos = j;
    let mut remaining = count;
    loop
        invariant
            i <= s@.len(),
            pos <= s@.len(),
            remaining <= count,
            dec_u64(s@, i as int) == Some((count, j as int)),
            map.wf(),
            map@ == crate::kvmap::seq_to_map(consumed),
            match dec_pair_time_entries(s@, pos as int, remaining as nat) {
                Some(p) => dec_pair_time_entries(s@, j as int, count as nat) == Some(
                    (consumed + p.0, p.1),
                ),
                None => dec_pair_time_entries(s@, j as int, count as nat) == None::<
                    (Seq<((Seq<char>, Seq<char>), u64)>, int),
                >,
            },
        decreases remaining,
    {
        if remaining == 0 {
            proof {
                assert(consumed + Seq::<((Seq<char>, Seq<char>), u64)>::empty() =~= consumed);
            }
            return Some((map, pos, Ghost(consumed)));
        }
        let (a_chars, k1) = match read_str(s, pos) {
            Some(p) => p,
            None => {
                return None;
            },
        };
        let (b_chars, k2) = match read_str(s, k1) {
            Some(p) => p,
            None => {
                return None;
            },
        };
        let (v, k3) = match read_u64(s, k2) {
            Some(p) => p,
            None => {
                return None;
            },
        };
        let key = crate::kvmap::PairKey {
            first: crate::strutil::string_from_chars(&a_chars),
            second: crate::strutil::string_from_chars(&b_chars),
        };
        proof {
            let e = ((a_chars@, b_chars@), v);
            assert(consumed.push(e).drop_last() =~= consumed);
            assert(consumed.push(e).last() == e);
            assert(crate::kvmap::seq_to_map(consumed.push(e)) == crate::kvmap::seq_to_map(
                consumed,
            ).insert(e.0, e.1));
            assert forall|rest: Seq<((Seq<char>, Seq<char>), u64)>|
                true implies (consumed + (seq![e] + rest)) =~= (consumed.push(e) + rest) by {}
            assert(key@ == e.0);
        }
        map.insert(key, v);
        proof {
            consumed = consumed.push(((a_chars@, b_chars@), v));
        }
        pos = k3;
        remaining = remaining - 1;
    }
}

fn read_pair_str_map(s: &[u8], i: usize) -> (r: Option<
    (
        crate::kvmap::KeyMap<crate::kvmap::PairKey, String>,
        usize,
        Ghost<Seq<((Seq<char>, Seq<char>), Seq<char>)>>,
    ),
>)
    requires
        i <= s@.len(),
    ensures
        match r {
            Some(p) => p.1 <= s@.len() && p.0.wf() && dec_pair_str_map(s@, i as int) == Some(
                (p.2@, p.1 as int),
            ) && p.0@ == crate::kvmap::seq_to_map(p.2@),
            None => dec_pair_str_map(s@, i as int) == None::<
                (Seq<((Seq<char>, Seq<char>), Seq<char>)>, int),
            >,
        },
{
    let (count, j) = match read_u64(s, i) {
        Some(p) => p,
        None => {
            return None;
        },
    };
    let mut map = crate::kvmap::KeyMap::<crate::kvmap::PairKey, String>::new();
    let ghost consumed: Seq<((Seq<char>, Seq<char>), Seq<char>)> = Seq::empty();
    let mut pos = j;
    let mut remaining = count;
    loop
        invariant
            i <= s@.len(),
            pos <= s@.len(),
            remaining <= count,
            dec_u64(s@, i as int) == Some((count, j as int)),
            map.wf(),
            map@ == crate::kvmap::seq_to_map(consumed),
            match dec_pair_str_entries(s@, pos as int, remaining as nat) {
                Some(p) => dec_pair_str_entries(s@, j as int, count as nat) == Some(
                    (consumed + p.0, p.1),
                ),
                None => dec_pair_str_entries(s@, j as int, count as nat) == None::<
                    (Seq<((Seq<char>, Seq<char>), Seq<char>)>, int),
                >,
            },
        decreases remaining,
    {
        if remaining == 0 {
            proof {
                assert(consumed + Seq::<((Seq<char>, Seq<char>), Seq<char>)>::empty()
                    =~= consumed);
            }
            return Some((map, pos, Ghost(consumed)));
        }
        let (a_chars, k1) = match read_str(s, pos) {
            Some(p) => p,
            None => {
                return None;
            },
        };
        let (b_chars, k2) = match read_str(s, k1) {
            Some(p) => p,
            None => {
                return None;
            },
        };
        let (v_chars, k3) = match read_str(s, k2) {
            Some(p) => p,
            None => {
                return None;
            },
        };
        let key = crate::kvmap::PairKey {
            first: crate::strutil::string_from_chars(&a_chars),
            second: crate::strutil::string_from_chars(&b_chars),
        };
        let value = crate::strutil::string_from_chars(&v_chars);
        proof {
            let e = ((a_chars@, b_chars@), v_chars@);
            assert(consumed.push(e).drop_last() =~= consumed);
            assert(consumed.push(e).last() == e);
            assert(crate::kvmap::seq_to_map(consumed.push(e)) == crate::kvmap::seq_to_map(
                consumed,
            ).insert(e.0, e.1));
            assert forall|rest: Seq<((Seq<char>, Seq<char>), Seq<char>)>|
                true implies (consumed + (seq![e] + rest)) =~= (consumed.push(e) + rest) by {}
            assert(key@ == e.0);
            assert(value@ == e.1);
        }
        map.insert(key, value);
        proof {
            consumed = consumed.push(((a_chars@, b_chars@), v_chars@));
        }
        pos = k3;
        remaining = remaining - 1;
    }
}

/// A decoded cache matches the decoded model: its maps are exactly the
/// entry sequences' maps.
pub open spec fn decoded_matches(c: CacheIndex, m: CacheModel) -> bool {
    &&& c.wf()
    &&& c.embedding_mtimes@ == crate::kvmap::seq_to_map(m.embedding)
    &&& c.keyword_mtimes@ == crate::kvmap::seq_to_map(m.keyword)
    &&& c.suggestion_mtimes@ == crate::kvmap::seq_to_map(m.suggestion)
    &&& c.ignored_suggestions@ == crate::kvmap::seq_to_map(m.ignored)
    &&& c.insertion_cache@ == crate::kvmap::seq_to_map(m.insertion)
}

#[verifier::rlimit(100)]
fn read_index(s: &[u8], i: usize) -> (r: Option<(CacheIndex, usize, Ghost<CacheModel>)>)
    requires
        i <= s@.len(),
    ensures
        match r {
            Some(p) => p.1 <= s@.len() && dec_index(s@, i as int) == Some(
                (p.2@, p.1 as int),
            ) && decoded_matches(p.0, p.2@),
            None => dec_index(s@, i as int) == None::<(CacheModel, int)>,
        },
{
    let (embedding, i1, kv_e) = match read_time_map(s, i) {
        Some(p) => p,
        None => {
            return None;
        },
    };
    let (keyword, i2, kv_k) = match read_time_map(s, i1) {
        Some(p) => p,
        None => {
            return None;
        },
    };
    let (suggestion, i3, kv_s) = match read_time_map(s, i2) {
        Some(p) => p,
        None => {
            return None;
        },
    };
    let (ignored, i4, kv_g) = match read_pair_time_map(s, i3) {
        Some(p) => p,
        None => {
            return None;
        },
    };
    let (insertion, i5, kv_i) = match read_pair_str_map(s, i4) {
        Some(p) => p,
        None => {
            return None;
        },
    };
    let c = CacheIndex {
        embedding_mtimes: embedding,
        keyword_mtimes: keyword,
        suggestion_mtimes: suggestion,
        ignored_suggestions: ignored,
        insertion_cache: insertion,
    };
    let ghost m = CacheModel {
        embedding: kv_e@,
        keyword: kv_k@,
        suggestion: kv_s@,
        ignored: kv_g@,
        insertion: kv_i@,
    };
    proof {
        assert(dec_index(s@, i as int) == Some((m, i5 as int)));
        assert(decoded_matches(c, m));
    }
    Some((c, i5, Ghost(m)))
}

/// Deserializes a binary blob: the enveloped form first, then the bare
/// payload as the legacy fallback.
#[verifier::rlimit(100)]
fn try_decode_enveloped(s: &[u8]) -> (r: Option<(CacheIndex, Ghost<CacheModel>)>)
    ensures
        match r {
            Some(p) => spec_decode_enveloped(s@) == Some(p.1@) && decoded_matches(p.0, p.1@),
            None => spec_decode_enveloped(s@) == None::<CacheModel>,
        },
{
    let n = s.len();
    match read_u32(s, 0) {
        Some((_version, i1)) => match read_str(s, i1) {
            Some((_fmt, i2)) => match read_u64(s, i2) {
                Some((_created, i3)) => match read_index(s, i3) {
                    Some((c, e, m)) => if e == n {
                        Some((c, m))
                    } else {
                        None
                    },
                    None => None,
                },
                None => None,
            },
            None => None,
        },
        None => None,
    }
}

/// Deserializes a binary blob: the enveloped form first, then the bare
/// payload as the legacy fallback.
#[verifier::rlimit(100)]
pub fn decode_cache_binary(s: &[u8]) -> (r: Option<CacheIndex>)
    ensures
        match spec_decode_cache_binary(s@) {
            Some(m) => r matches Some(c) && decoded_matches(c, m),
            None => r is None,
        },
{
    let n = s.len();
    match try_decode_enveloped(s) {
        Some((c, m)) => {
            proof {
                assert(spec_decode_cache_binary(s@) == Some(m@));
                assert(decoded_matches(c, m@));
            }
            Some(c)
        },
        None => match read_index(s, 0) {
            Some((c, e, m)) => {
                if e == n {
                    proof {
                        assert(spec_decode_cache_binary(s@) == Some(m@));
                        assert(decoded_matches(c, m@));
                    }
                    Some(c)
                } else {
                    None
                }
            },
            None => None,
        },
    }
}


/// Why loading a persisted cache failed.
#[derive(Debug, PartialEq, Eq, Structural, Clone, Copy)]
pub enum CacheDecodeError {
    /// Neither the enveloped form nor the legacy bare payload could be read.
    Malformed,
}

impl SmartVault {
    /// Serializes the whole cache index (binary profile, with envelope).
    pub fn serialize_cache_index(&self, created_at: u64) -> (r: Vec<u8>)
        ensures
            r@ == enc_envelope(cache_model(self.cache_index), CACHE_FORMAT_VERSION, created_at),
    {
        encode_cache_binary(&self.cache_index, created_at)
    }

    /// Replaces the cache index with a deserialized one; a blob that neither
    /// profile nor the legacy fallback can read is an error and leaves the
    /// session untouched.
    pub fn deserialize_cache_index(&mut self, data: &[u8]) -> (r: Result<(), CacheDecodeError>)
        requires
            old(self).wf(),
        ensures
            final(self).wf(),
            final(self).embeddings == old(self).embeddings,
            final(self).file_contents == old(self).file_contents,
            final(self).keywords == old(self).keywords,
            match spec_decode_cache_binary(data@) {
                Some(m) => r is Ok && decoded_matches(final(self).cache_index, m),
                None => r is Err && *final(self) == *old(self),
            },
    {
        match decode_cache_binary(data) {
            Some(index) => {
                self.cache_index = index;
                Ok(())
            },
            None => Err(CacheDecodeError::Malformed),
        }
    }
}

} // verus!
