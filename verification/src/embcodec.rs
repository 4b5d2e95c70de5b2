//! Persistence of the embedding store (binary profile, with envelope):
//! path -> fixed-point vector entries, components as the two's-complement
//! bytes of their integers.  A loaded vector must satisfy the similarity
//! engine's bounds, so decoding validates them and readers accept bare
//! payloads written without the envelope as a legacy fallback.
use vstd::prelude::*;

use crate::codec::{
    binary_tag, dec_str, dec_u32, dec_u64, enc_str, enc_u32, enc_u64, lemma_dec_str_at,
    lemma_dec_u32_at, lemma_dec_u64_at, lemma_subrange_split, push_str, push_u32, push_u64,
    read_str, read_u32, read_u64, CacheDecodeError, CACHE_FORMAT_VERSION,
};
use crate::kvmap::{seq_to_map, KeyMap};
use crate::vault::{vec_bounded, SmartVault, MAX_COMPONENT, MAX_DIM};

verus! {

/// One fixed-point component, as the eight bytes of its two's-complement
/// bit pattern.
pub open spec fn enc_i64(x: i64) -> Seq<u8> {
    enc_u64(x as u64)
}

pub open spec fn dec_i64(s: Seq<u8>, i: int) -> Option<(i64, int)> {
    match dec_u64(s, i) {
        Some((v, j)) => Some((v as i64, j)),
        None => None,
    }
}

proof fn lemma_dec_i64_at(s: Seq<u8>, i: int, x: i64)
    requires
        0 <= i,
        i + 8 <= s.len(),
        s.subrange(i, i + 8) == enc_i64(x),
    ensures
        dec_i64(s, i) == Some((x, i + 8)),
{
    lemma_dec_u64_at(s, i, x as u64);
    assert(((x as u64) as i64) == x) by (bit_vector);
}

/// The components of a vector, in order.
pub open spec fn enc_components(v: Seq<i64>) -> Seq<u8>
    decreases v.len(),
{
    if v.len() == 0 {
        Seq::empty()
    } else {
        enc_i64(v.first()) + enc_components(v.drop_first())
    }
}

pub open spec fn dec_components(s: Seq<u8>, i: int, count: nat) -> Option<(Seq<i64>, int)>
    decreases count,
{
    if count == 0 {
        Some((Seq::empty(), i))
    } else {
        match dec_i64(s, i) {
            Some((x, j)) => match dec_components(s, j, (count - 1) as nat) {
                Some((rest, e)) => Some((seq![x] + rest, e)),
                None => None,
            },
            None => None,
        }
    }
}

/// A vector: component count, then the components; only a vector the
/// similarity engine can score is accepted.
pub open spec fn enc_vector(v: Seq<i64>) -> Seq<u8> {
    enc_u64(v.len() as u64) + enc_components(v)
}

pub open spec fn dec_vector(s: Seq<u8>, i: int) -> Option<(Seq<i64>, int)> {
    match dec_u64(s, i) {
        Some((count, j)) => match dec_components(s, j, count as nat) {
            Some((v, e)) => if vec_bounded(v) {
                Some((v, e))
            } else {
                None
            },
            None => None,
        },
        None => None,
    }
}

proof fn lemma_enc_components_len(v: Seq<i64>)
    ensures
        enc_components(v).len() == 8 * v.len(),
    decreases v.len(),
{
    if v.len() > 0 {
        lemma_enc_components_len(v.drop_first());
    }
}

proof fn lemma_dec_components_at(s: Seq<u8>, i: int, v: Seq<i64>)
    requires
        0 <= i,
        i + 8 * v.len() <= s.len(),
        s.subrange(i, i + 8 * v.len()) == enc_components(v),
    ensures
        dec_components(s, i, v.len()) == Some((v, i + 8 * v.len())),
    decreases v.len(),
{
    lemma_enc_components_len(v);
    if v.len() > 0 {
        lemma_enc_components_len(v.drop_first());
        lemma_subrange_split(s, i, enc_i64(v.first()), enc_components(v.drop_first()));
        lemma_dec_i64_at(s, i, v.first());
        lemma_dec_components_at(s, i + 8, v.drop_first());
        assert(seq![v.first()] + v.drop_first() =~= v);
    } else {
        assert(v =~= Seq::<i64>::empty());
    }
}

proof fn lemma_dec_vector_at(s: Seq<u8>, i: int, v: Seq<i64>)
    requires
        0 <= i,
        vec_bounded(v),
        i + enc_vector(v).len() <= s.len(),
        s.subrange(i, i + enc_vector(v).len()) == enc_vector(v),
    ensures
        dec_vector(s, i) == Some((v, i + enc_vector(v).len())),
{
    lemma_enc_components_len(v);
    lemma_subrange_split(s, i, enc_u64(v.len() as u64), enc_components(v));
    lemma_dec_u64_at(s, i, v.len() as u64);
    lemma_dec_components_at(s, i + 8, v);
    assert((v.len() as u64) as nat == v.len());
}

/// A store entry: the path, then its vector.
pub open spec fn enc_emb_entry(e: (Seq<char>, Seq<i64>)) -> Seq<u8> {
    enc_str(e.0) + enc_vector(e.1)
}

pub open spec fn enc_emb_entries(kv: Seq<(Seq<char>, Seq<i64>)>) -> Seq<u8>
    decreases kv.len(),
{
    if kv.len() == 0 {
        Seq::empty()
    } else {
        enc_emb_entry(kv.first()) + enc_emb_entries(kv.drop_first())
    }
}

pub open spec fn dec_emb_entry(s: Seq<u8>, i: int) -> Option<((Seq<char>, Seq<i64>), int)> {
    match dec_str(s, i) {
        Some((cs, j)) => match dec_vector(s, j) {
            Some((v, e)) => Some(((cs, v), e)),
            None => None,
        },
        None => None,
    }
}

pub open spec fn dec_emb_entries(s: Seq<u8>, i: int, count: nat) -> Option<
    (Seq<(Seq<char>, Seq<i64>)>, int),
>
    decreases count,
{
    if count == 0 {
        Some((Seq::empty(), i))
    } else {
        match dec_emb_entry(s, i) {
            Some((e, j)) => match dec_emb_entries(s, j, (count - 1) as nat) {
                Some((rest, m)) => Some((seq![e] + rest, m)),
                None => None,
            },
            None => None,
        }
    }
}

/// The whole store: entry count, then the entries.
pub open spec fn enc_emb_map(kv: Seq<(Seq<char>, Seq<i64>)>) -> Seq<u8> {
    enc_u64(kv.len() as u64) + enc_emb_entries(kv)
}

pub open spec fn dec_emb_map(s: Seq<u8>, i: int) -> Option<(Seq<(Seq<char>, Seq<i64>)>, int)> {
    match dec_u64(s, i) {
        Some((count, j)) => dec_emb_entries(s, j, count as nat),
        None => None,
    }
}

pub open spec fn enc_emb_envelope(
    kv: Seq<(Seq<char>, Seq<i64>)>,
    version: u32,
    created_at: u64,
) -> Seq<u8> {
    enc_u32(version) + enc_str(binary_tag()) + enc_u64(created_at) + enc_emb_map(kv)
}

pub open spec fn spec_decode_emb_enveloped(s: Seq<u8>) -> Option<Seq<(Seq<char>, Seq<i64>)>> {
    match dec_u32(s, 0) {
        Some((version, i1)) => match dec_str(s, i1) {
            Some((fmt, i2)) => match dec_u64(s, i2) {
                Some((created, i3)) => match dec_emb_map(s, i3) {
                    Some((kv, e)) => if e == s.len() {
                        Some(kv)
                    } else {
                        None
                    },
                    None => None,
                },
                None => None,
            },
            None => None,
        },
        None => None,
    }
}

/// Decoding a persisted store: the enveloped form first, then the bare
/// payload as the legacy fallback.
pub open spec fn spec_decode_emb_binary(s: Seq<u8>) -> Option<Seq<(Seq<char>, Seq<i64>)>> {
    match spec_decode_emb_enveloped(s) {
        Some(kv) => Some(kv),
        None => match dec_emb_map(s, 0) {
            Some((kv, e)) => if e == s.len() {
                Some(kv)
            } else {
                None
            },
            None => None,
        },
    }
}

/// Every length of the store fits the wire format's length fields, and
/// every vector is one the similarity engine accepts (an in-memory store
/// satisfies this trivially).
pub open spec fn emb_model_bounded(kv: Seq<(Seq<char>, Seq<i64>)>) -> bool {
    &&& kv.len() <= u64::MAX
    &&& (forall|i: int| 0 <= i < kv.len() ==> (#[trigger] kv[i]).0.len() <= u64::MAX)
    &&& (forall|i: int| 0 <= i < kv.len() ==> vec_bounded((#[trigger] kv[i]).1))
}

proof fn lemma_dec_emb_entry_at(s: Seq<u8>, i: int, e: (Seq<char>, Seq<i64>))
    requires
        0 <= i,
        e.0.len() <= u64::MAX,
        vec_bounded(e.1),
        i + enc_emb_entry(e).len() <= s.len(),
        s.subrange(i, i + enc_emb_entry(e).len()) == enc_emb_entry(e),
    ensures
        dec_emb_entry(s, i) == Some((e, i + enc_emb_entry(e).len())),
{
    let l1 = enc_str(e.0).len() as int;
    lemma_subrange_split(s, i, enc_str(e.0), enc_vector(e.1));
    lemma_dec_str_at(s, i, e.0);
    lemma_dec_vector_at(s, i + l1, e.1);
}

proof fn lemma_dec_emb_entries_at(s: Seq<u8>, i: int, kv: Seq<(Seq<char>, Seq<i64>)>)
    requires
        0 <= i,
        emb_model_bounded(kv),
        i + enc_emb_entries(kv).len() <= s.len(),
        s.subrange(i, i + enc_emb_entries(kv).len()) == enc_emb_entries(kv),
    ensures
        dec_emb_entries(s, i, kv.len()) == Some((kv, i + enc_emb_entries(kv).len())),
    decreases kv.len(),
{
    if kv.len() == 0 {
        assert(kv =~= Seq::<(Seq<char>, Seq<i64>)>::empty());
    } else {
        let l0 = enc_emb_entry(kv.first()).len() as int;
        lemma_subrange_split(s, i, enc_emb_entry(kv.first()), enc_emb_entries(kv.drop_first()));
        lemma_dec_emb_entry_at(s, i, kv.first());
        assert(emb_model_bounded(kv.drop_first())) by {
            assert(forall|t: int| 0 <= t < kv.drop_first().len()
                ==> #[trigger] kv.drop_first()[t] == kv[t + 1]);
        }
        lemma_dec_emb_entries_at(s, i + l0, kv.drop_first());
        assert(seq![kv.first()] + kv.drop_first() =~= kv);
    }
}

proof fn lemma_dec_emb_map_at(s: Seq<u8>, i: int, kv: Seq<(Seq<char>, Seq<i64>)>)
    requires
        0 <= i,
        emb_model_bounded(kv),
        i + enc_emb_map(kv).len() <= s.len(),
        s.subrange(i, i + enc_emb_map(kv).len()) == enc_emb_map(kv),
    ensures
        dec_emb_map(s, i) == Some((kv, i + enc_emb_map(kv).len())),
{
    lemma_subrange_split(s, i, enc_u64(kv.len() as u64), enc_emb_entries(kv));
    lemma_dec_u64_at(s, i, kv.len() as u64);
    lemma_dec_emb_entries_at(s, i + 8, kv);
    assert((kv.len() as u64) as nat == kv.len());
}

/// Law: the embedding-store encoding loses nothing: decoding what was
/// encoded gives the same entries back, whatever version and timestamp the
/// envelope carries.
#[verifier::rlimit(100)]
pub proof fn law_round_trip_embeddings(kv: Seq<(Seq<char>, Seq<i64>)>, version: u32, created_at: u64)
    requires
        emb_model_bounded(kv),
    ensures
        spec_decode_emb_binary(enc_emb_envelope(kv, version, created_at)) == Some(kv),
{
    let s = enc_emb_envelope(kv, version, created_at);
    let p1 = enc_u32(version);
    let p2 = enc_str(binary_tag());
    let p3 = enc_u64(created_at);
    let p4 = enc_emb_map(kv);
    assert(s =~= p1 + (p2 + (p3 + p4)));
    assert(s.subrange(0, s.len() as int) =~= s);
    let o1: int = 0 + p1.len() as int;
    lemma_subrange_split(s, 0, p1, p2 + (p3 + p4));
    lemma_dec_u32_at(s, 0, version);
    let o2: int = o1 + p2.len() as int;
    lemma_subrange_split(s, o1, p2, p3 + p4);
    lemma_dec_str_at(s, o1, binary_tag());
    let o3: int = o2 + p3.len() as int;
    lemma_subrange_split(s, o2, p3, p4);
    lemma_dec_u64_at(s, o2, created_at);
    lemma_dec_emb_map_at(s, o3, kv);
}

fn push_vector(out: &mut Vec<u8>, v: &Vec<i64>)
    ensures
        final(out)@ == old(out)@ + enc_vector(v.deep_view()),
{
    let n = v.len();
    push_u64(out, n as u64);
    let ghost base = out@;
    let mut t: usize = 0;
    while t < n
        invariant
            n == v@.len(),
            t <= n,
            out@ =~= base + enc_components(v.deep_view().subrange(0, t as int)),
        decreases n - t,
    {
        push_u64(out, v[t] as u64);
        proof {
            lemma_enc_components_push(v.deep_view().subrange(0, t as int), v.deep_view()[t as int]);
            assert(v.deep_view().subrange(0, t + 1) =~= v.deep_view().subrange(0, t as int).push(
                v.deep_view()[t as int],
            ));
            assert(out@ =~= base + enc_components(v.deep_view().subrange(0, t + 1)));
        }
        t += 1;
    }
    proof {
        assert(v.deep_view().subrange(0, n as int) =~= v.deep_view());
        assert((n as u64) as nat == v.deep_view().len());
        assert(out@ =~= old(out)@ + enc_vector(v.deep_view()));
    }
}

proof fn lemma_enc_components_push(v: Seq<i64>, x: i64)
    ensures
        enc_components(v.push(x)) == enc_components(v) + enc_i64(x),
    decreases v.len(),
{
    if v.len() == 0 {
        assert(v.push(x).first() == x);
        assert(v.push(x).drop_first() =~= Seq::<i64>::empty());
        assert(enc_components(v.push(x)) == enc_i64(x) + enc_components(Seq::<i64>::empty()));
        assert(enc_components(v.push(x)) =~= enc_components(v) + enc_i64(x));
    } else {
        assert(v.push(x).drop_first() =~= v.drop_first().push(x));
        lemma_enc_components_push(v.drop_first(), x);
        assert(enc_components(v.push(x)) =~= enc_components(v) + enc_i64(x));
    }
}

proof fn lemma_enc_emb_entries_push(kv: Seq<(Seq<char>, Seq<i64>)>, e: (Seq<char>, Seq<i64>))
    ensures
        enc_emb_entries(kv.push(e)) == enc_emb_entries(kv) + enc_emb_entry(e),
    decreases kv.len(),
{
    if kv.len() == 0 {
        assert(kv.push(e).first() == e);
        assert(kv.push(e).drop_first() =~= Seq::<(Seq<char>, Seq<i64>)>::empty());
        assert(enc_emb_entries(kv.push(e)) == enc_emb_entry(e) + enc_emb_entries(
            Seq::<(Seq<char>, Seq<i64>)>::empty(),
        ));
        assert(enc_emb_entries(kv.push(e)) =~= enc_emb_entries(kv) + enc_emb_entry(e));
    } else {
        assert(kv.push(e).drop_first() =~= kv.drop_first().push(e));
        lemma_enc_emb_entries_push(kv.drop_first(), e);
        assert(enc_emb_entries(kv.push(e)) =~= enc_emb_entries(kv) + enc_emb_entry(e));
    }
}

/// Serializes an embedding store in the binary profile, with envelope.
pub fn encode_embeddings_binary(m: &KeyMap<String, Vec<i64>>, created_at: u64) -> (r: Vec<u8>)
    ensures
        r@ == enc_emb_envelope(m.kv(), CACHE_FORMAT_VERSION, created_at),
{
    let mut out: Vec<u8> = Vec::new();
    push_u32(&mut out, CACHE_FORMAT_VERSION);
    let tag: Vec<char> = vec!['b', 'i', 'n', 'a', 'r', 'y'];
    proof {
        assert(tag@ =~= binary_tag());
    }
    push_str(&mut out, &tag);
    push_u64(&mut out, created_at);
    let n = m.num_entries();
    push_u64(&mut out, n as u64);
    let ghost base = out@;
    let mut t: usize = 0;
    while t < n
        invariant
            n == m.kv().len(),
            t <= n,
            out@ =~= base + enc_emb_entries(m.kv().subrange(0, t as int)),
        decreases n - t,
    {
        let key_chars = crate::strutil::chars_of(m.key_at(t).as_str());
        push_str(&mut out, &key_chars);
        push_vector(&mut out, m.val_at(t));
        proof {
            lemma_enc_emb_entries_push(m.kv().subrange(0, t as int), m.kv()[t as int]);
            assert(m.kv().subrange(0, t + 1) =~= m.kv().subrange(0, t as int).push(
                m.kv()[t as int],
            ));
            assert(out@ =~= base + enc_emb_entries(m.kv().subrange(0, t + 1)));
        }
        t += 1;
    }
    proof {
        assert(m.kv().subrange(0, n as int) =~= m.kv());
        assert((n as u64) as nat == m.kv().len());
        assert(out@ =~= enc_emb_envelope(m.kv(), CACHE_FORMAT_VERSION, created_at));
    }
    out
}

fn read_vector(s: &[u8], i: usize) -> (r: Option<(Vec<i64>, usize)>)
    requires
        i <= s@.len(),
    ensures
        match r {
            Some(p) => dec_vector(s@, i as int) == Some((p.0.deep_view(), p.1 as int)) && p.1
                <= s@.len() && vec_bounded(p.0.deep_view()),
            None => dec_vector(s@, i as int) == None::<(Seq<i64>, int)>,
        },
{
    let (count, j) = match read_u64(s, i) {
        Some(p) => p,
        None => {
            return None;
        },
    };
    let mut out: Vec<i64> = Vec::new();
    let mut pos = j;
    let mut remaining = count;
    proof {
        assert(out.deep_view() =~= Seq::<i64>::empty());
        assert(Seq::<i64>::empty() + out.deep_view() =~= out.deep_view());
    }
    loop
        invariant
            i <= s@.len(),
            j <= s@.len(),
            pos <= s@.len(),
            remaining <= count,
            dec_u64(s@, i as int) == Some((count, j as int)),
            match dec_components(s@, pos as int, remaining as nat) {
                Some(p) => dec_components(s@, j as int, count as nat) == Some(
                    (out.deep_view() + p.0, p.1),
                ),
                None => dec_components(s@, j as int, count as nat) == None::<(Seq<i64>, int)>,
            },
        decreases remaining,
    {
        if remaining == 0 {
            proof {
                assert(out.deep_view() + Seq::<i64>::empty() =~= out.deep_view());
                assert(dec_components(s@, j as int, count as nat) == Some(
                    (out.deep_view(), pos as int),
                ));
            }
            // The wire holds any integers; only a bounded vector may enter
            // the store.
            if out.len() > MAX_DIM {
                proof {
                    assert(!vec_bounded(out.deep_view()));
                }
                return None;
            }
            let total = out.len();
            let mut k: usize = 0;
            while k < total
                invariant
                    i <= s@.len(),
                    pos <= s@.len(),
                    total == out.deep_view().len(),
                    total <= MAX_DIM,
                    k <= total,
                    dec_u64(s@, i as int) == Some((count, j as int)),
                    dec_components(s@, j as int, count as nat) == Some(
                        (out.deep_view(), pos as int),
                    ),
                    forall|q: int| 0 <= q < k ==> -MAX_COMPONENT
                        <= #[trigger] out.deep_view()[q] <= MAX_COMPONENT,
                decreases total - k,
            {
                let x = out[k];
                if x < -MAX_COMPONENT || x > MAX_COMPONENT {
                    proof {
                        assert(out.deep_view()[k as int] == x);
                        assert(!vec_bounded(out.deep_view()));
                    }
                    return None;
                }
                proof {
                    assert(out.deep_view()[k as int] == x);
                }
                k += 1;
            }
            proof {
                assert(vec_bounded(out.deep_view()));
            }
            return Some((out, pos));
        }
        match read_u64(s, pos) {
            Some((bits, next)) => {
                let x: i64 = #[verifier::truncate] (bits as i64);
                let ghost pre = out.deep_view();
                proof {
                    assert(((x as u64) as i64) == x && (bits as i64) as u64 == bits)
                        by (bit_vector);
                    assert(dec_i64(s@, pos as int) == Some((x, next as int)));
                }
                out.push(x);
                proof {
                    assert(out.deep_view() =~= pre.push(x));
                    assert forall|rest: Seq<i64>|
                        true implies (pre + (seq![x] + rest)) =~= (out.deep_view() + rest) by {}
                }
                pos = next;
                remaining = remaining - 1;
            },
            None => {
                return None;
            },
        }
    }
}

fn read_emb_map(s: &[u8], i: usize) -> (r: Option<
    (KeyMap<String, Vec<i64>>, usize, Ghost<Seq<(Seq<char>, Seq<i64>)>>),
>)
    requires
        i <= s@.len(),
    ensures
        match r {
            Some(p) => p.1 <= s@.len() && p.0.wf() && dec_emb_map(s@, i as int) == Some(
                (p.2@, p.1 as int),
            ) && p.0@ == seq_to_map(p.2@) && (forall|q: Seq<char>| p.0@.contains_key(q)
                ==> vec_bounded(#[trigger] p.0@[q])),
            None => dec_emb_map(s@, i as int) == None::<(Seq<(Seq<char>, Seq<i64>)>, int)>,
        },
{
    let (count, j) = match read_u64(s, i) {
        Some(p) => p,
        None => {
            return None;
        },
    };
    let mut map = KeyMap::<String, Vec<i64>>::new();
    let ghost consumed: Seq<(Seq<char>, Seq<i64>)> = Seq::empty();
    let mut pos = j;
    let mut remaining = count;
    loop
        invariant
            i <= s@.len(),
            pos <= s@.len(),
            remaining <= count,
            dec_u64(s@, i as int) == Some((count, j as int)),
            map.wf(),
            map@ == seq_to_map(consumed),
            forall|q: Seq<char>| map@.contains_key(q) ==> vec_bounded(#[trigger] map@[q]),
            match dec_emb_entries(s@, pos as int, remaining as nat) {
                Some(p) => dec_emb_entries(s@, j as int, count as nat) == Some(
                    (consumed + p.0, p.1),
                ),
                None => dec_emb_entries(s@, j as int, count as nat) == None::<
                    (Seq<(Seq<char>, Seq<i64>)>, int),
                >,
            },
        decreases remaining,
    {
        if remaining == 0 {
            proof {
                assert(consumed + Seq::<(Seq<char>, Seq<i64>)>::empty() =~= consumed);
            }
            return Some((map, pos, Ghost(consumed)));
        }
        let (key_chars, k1) = match read_str(s, pos) {
            Some(p) => p,
            None => {
                return None;
            },
        };
        let (vector, k2) = match read_vector(s, k1) {
            Some(p) => p,
            None => {
                return None;
            },
        };
        let key = crate::strutil::string_from_chars(&key_chars);
        proof {
            let e = (key_chars@, vector.deep_view());
            assert(consumed.push(e).drop_last() =~= consumed);
            assert(consumed.push(e).last() == e);
            assert(seq_to_map(consumed.push(e)) == seq_to_map(consumed).insert(e.0, e.1));
            assert forall|rest: Seq<(Seq<char>, Seq<i64>)>|
                true implies (consumed + (seq![e] + rest)) =~= (consumed.push(e) + rest) by {}
        }
        let ghost v_model = vector.deep_view();
        map.insert(key, vector);
        proof {
            consumed = consumed.push((key_chars@, v_model));
        }
        pos = k2;
        remaining = remaining - 1;
    }
}

#[verifier::rlimit(100)]
fn try_decode_emb_enveloped(s: &[u8]) -> (r: Option<
    (KeyMap<String, Vec<i64>>, Ghost<Seq<(Seq<char>, Seq<i64>)>>),
>)
    ensures
        match r {
            Some(p) => spec_decode_emb_enveloped(s@) == Some(p.1@) && p.0.wf() && p.0@
                == seq_to_map(p.1@) && (forall|q: Seq<char>| p.0@.contains_key(q)
                ==> vec_bounded(#[trigger] p.0@[q])),
            None => spec_decode_emb_enveloped(s@) == None::<Seq<(Seq<char>, Seq<i64>)>>,
        },
{
    let n = s.len();
    match read_u32(s, 0) {
        Some((_version, i1)) => match read_str(s, i1) {
            Some((_fmt, i2)) => match read_u64(s, i2) {
                Some((_created, i3)) => match read_emb_map(s, i3) {
                    Some((m, e, kv)) => if e == n {
                        Some((m, kv))
                    } else {
                        None
                    },
                    None => None,
                },
                None => None,
            },
            None => None,
        },
        None => None,
    }
}

/// Deserializes an embedding-store blob: the enveloped form first, then the
/// bare payload as the legacy fallback.
#[verifier::rlimit(100)]
pub fn decode_embeddings_binary(s: &[u8]) -> (r: Option<KeyMap<String, Vec<i64>>>)
    ensures
        match spec_decode_emb_binary(s@) {
            Some(kv) => r matches Some(m) && m.wf() && m@ == seq_to_map(kv) && (forall|
                q: Seq<char>,
            | m@.contains_key(q) ==> vec_bounded(#[trigger] m@[q])),
            None => r is None,
        },
{
    let n = s.len();
    match try_decode_emb_enveloped(s) {
        Some((m, kv)) => {
            proof {
                assert(spec_decode_emb_binary(s@) == Some(kv@));
            }
            Some(m)
        },
        None => match read_emb_map(s, 0) {
            Some((m, e, kv)) => {
                if e == n {
                    proof {
                        assert(spec_decode_emb_binary(s@) == Some(kv@));
                    }
                    Some(m)
                } else {
                    None
                }
            },
            None => None,
        },
    }
}

impl SmartVault {
    /// Serializes the whole embedding store (binary profile, with
    /// envelope).
    pub fn serialize_embeddings_binary(&self, created_at: u64) -> (r: Vec<u8>)
        ensures
            r@ == enc_emb_envelope(self.embeddings.kv(), CACHE_FORMAT_VERSION, created_at),
    {
        encode_embeddings_binary(&self.embeddings, created_at)
    }

    /// Replaces the embedding store with a deserialized one; a blob that
    /// neither the enveloped form nor the legacy fallback can read is an
    /// error and leaves the session untouched.
    pub fn deserialize_embeddings_binary(&mut self, data: &[u8]) -> (r: Result<
        (),
        CacheDecodeError,
    >)
        requires
            old(self).wf(),
        ensures
            final(self).wf(),
            final(self).file_contents == old(self).file_contents,
            final(self).keywords == old(self).keywords,
            final(self).cache_index == old(self).cache_index,
            match spec_decode_emb_binary(data@) {
                Some(kv) => r is Ok && final(self).embeddings@ == seq_to_map(kv),
                None => r is Err && *final(self) == *old(self),
            },
    {
        match decode_embeddings_binary(data) {
            Some(store) => {
                self.embeddings = store;
                Ok(())
            },
            None => Err(CacheDecodeError::Malformed),
        }
    }
}

} // verus!
