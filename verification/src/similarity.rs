//! Fixed-point cosine similarity.  Scores are integers scaled by `SCALE`
//! (1000 stands for 1.0); embedding components are integers bounded by
//! `MAX_COMPONENT` so that every intermediate product fits in machine
//! integers.
use vstd::prelude::*;

use crate::vault::{vec_bounded, MAX_COMPONENT, MAX_DIM};
use crate::SCALE;

verus! {

/// Dot product of two equally long integer vectors.
pub open spec fn spec_dot(a: Seq<i64>, b: Seq<i64>) -> int
    decreases a.len(),
{
    if a.len() == 0 || b.len() == 0 {
        0
    } else {
        spec_dot(a.drop_last(), b.drop_last()) + a.last() * b.last()
    }
}

/// Integer square root: the largest `r` with `r * r <= n`.
pub open spec fn spec_isqrt(n: nat) -> nat
    decreases n,
{
    if n == 0 {
        0
    } else {
        let r = spec_isqrt((n - 1) as nat);
        if (r + 1) * (r + 1) <= n {
            r + 1
        } else {
            r
        }
    }
}

pub proof fn lemma_isqrt_bounds(n: nat)
    ensures
        spec_isqrt(n) * spec_isqrt(n) <= n,
        n < (spec_isqrt(n) + 1) * (spec_isqrt(n) + 1),
    decreases n,
{
    if n == 0 {
        assert(spec_isqrt(n) == 0);
        assert((0 + 1) * (0 + 1) == 1) by (nonlinear_arith);
    } else {
        lemma_isqrt_bounds((n - 1) as nat);
        let r = spec_isqrt((n - 1) as nat);
        if (r + 1) * (r + 1) <= n {
            assert(spec_isqrt(n) == r + 1);
            assert(spec_isqrt(n) * spec_isqrt(n) <= n);
            assert(n < (r + 2) * (r + 2)) by (nonlinear_arith)
                requires
                    (n - 1) < (r + 1) * (r + 1),
            ;
            assert((spec_isqrt(n) + 1) * (spec_isqrt(n) + 1) == (r + 2) * (r + 2))
                by (nonlinear_arith)
                requires
                    spec_isqrt(n) == r + 1,
            ;
        } else {
            assert(spec_isqrt(n) == r);
            assert(spec_isqrt(n) * spec_isqrt(n) <= n);
            assert(n < (spec_isqrt(n) + 1) * (spec_isqrt(n) + 1));
        }
    }
}

pub proof fn lemma_isqrt_unique(n: nat, r: nat)
    requires
        r * r <= n,
        n < (r + 1) * (r + 1),
    ensures
        r == spec_isqrt(n),
{
    lemma_isqrt_bounds(n);
    let s = spec_isqrt(n);
    if r < s {
        assert(false) by (nonlinear_arith)
            requires
                r < s,
                s * s <= n,
                n < (r + 1) * (r + 1),
        ;
    }
    if s < r {
        assert(false) by (nonlinear_arith)
            requires
                s < r,
                r * r <= n,
                n < (s + 1) * (s + 1),
        ;
    }
}

/// The square root of a perfect square is exact.
pub proof fn lemma_isqrt_square(n: nat)
    ensures
        spec_isqrt(n * n) == n,
{
    assert(n * n < (n + 1) * (n + 1)) by (nonlinear_arith);
    lemma_isqrt_unique(n * n, n);
}

/// A vector's dot product with itself is never negative.
pub proof fn lemma_dot_self_nonneg(a: Seq<i64>)
    ensures
        spec_dot(a, a) >= 0,
    decreases a.len(),
{
    if a.len() > 0 {
        lemma_dot_self_nonneg(a.drop_last());
        assert(a.last() * a.last() >= 0) by (nonlinear_arith);
    }
}

/// Componentwise bounds give a linear bound on the dot product.
pub proof fn lemma_dot_bound(a: Seq<i64>, b: Seq<i64>)
    requires
        a.len() == b.len(),
        forall|i: int| 0 <= i < a.len() ==> -MAX_COMPONENT <= #[trigger] a[i] <= MAX_COMPONENT,
        forall|i: int| 0 <= i < b.len() ==> -MAX_COMPONENT <= #[trigger] b[i] <= MAX_COMPONENT,
    ensures
        -(a.len() * MAX_COMPONENT * MAX_COMPONENT) <= spec_dot(a, b) <= a.len() * MAX_COMPONENT
            * MAX_COMPONENT,
    decreases a.len(),
{
    if a.len() > 0 {
        lemma_dot_bound(a.drop_last(), b.drop_last());
        assert(-(MAX_COMPONENT * MAX_COMPONENT) <= a.last() * b.last() <= MAX_COMPONENT
            * MAX_COMPONENT) by (nonlinear_arith)
            requires
                -MAX_COMPONENT <= a.last() <= MAX_COMPONENT,
                -MAX_COMPONENT <= b.last() <= MAX_COMPONENT,
        ;
        assert((a.len() - 1) * MAX_COMPONENT * MAX_COMPONENT + MAX_COMPONENT * MAX_COMPONENT
            == a.len() * MAX_COMPONENT * MAX_COMPONENT) by (nonlinear_arith);
    }
}

/// Cauchy-Schwarz over integer vectors: the dot product squared never
/// exceeds the product of the squared norms.
pub proof fn lemma_cauchy_schwarz(a: Seq<i64>, b: Seq<i64>)
    requires
        a.len() == b.len(),
    ensures
        spec_dot(a, b) * spec_dot(a, b) <= spec_dot(a, a) * spec_dot(b, b),
    decreases a.len(),
{
    if a.len() == 0 {
    } else {
        let a0 = a.drop_last();
        let b0 = b.drop_last();
        lemma_cauchy_schwarz(a0, b0);
        lemma_dot_self_nonneg(a0);
        lemma_dot_self_nonneg(b0);
        let d = spec_dot(a0, b0);
        let na = spec_dot(a0, a0);
        let nb = spec_dot(b0, b0);
        let x = a.last() as int;
        let y = b.last() as int;
        let u = na * (y * y);
        let v = nb * (x * x);
        assert(u * v >= (d * x * y) * (d * x * y)) by (nonlinear_arith)
            requires
                d * d <= na * nb,
                u == na * (y * y),
                v == nb * (x * x),
                na >= 0,
                nb >= 0,
        ;
        assert(u >= 0) by (nonlinear_arith)
            requires
                na >= 0,
                u == na * (y * y),
        ;
        assert(v >= 0) by (nonlinear_arith)
            requires
                nb >= 0,
                v == nb * (x * x),
        ;
        assert((u + v) * (u + v) >= 4 * (u * v)) by (nonlinear_arith);
        assert(u + v >= 2 * (d * x * y)) by (nonlinear_arith)
            requires
                (u + v) * (u + v) >= 4 * ((d * x * y) * (d * x * y)),
                u >= 0,
                v >= 0,
        ;
        assert((d + x * y) * (d + x * y) == d * d + 2 * (d * x * y) + (x * y) * (x * y))
            by (nonlinear_arith);
        assert((na + x * x) * (nb + y * y) == na * nb + u + v + (x * y) * (x * y))
            by (nonlinear_arith)
            requires
                u == na * (y * y),
                v == nb * (x * x),
        ;
        assert((d + x * y) * (d + x * y) <= (na + x * x) * (nb + y * y));
        assert(spec_dot(a, b) == d + x * y);
        assert(spec_dot(a, a) == na + x * x);
        assert(spec_dot(b, b) == nb + y * y);
    }
}

/// Cosine similarity in fixed point: `spec_dot(a, b) * SCALE` divided by the
/// (rounded-down) square root of the squared-norm product; zero for
/// mismatched lengths or a zero-norm side.
pub open spec fn spec_cosine(a: Seq<i64>, b: Seq<i64>) -> int {
    if a.len() != b.len() {
        0
    } else {
        let na = spec_dot(a, a);
        let nb = spec_dot(b, b);
        if na == 0 || nb == 0 {
            0
        } else {
            let m = spec_isqrt((na * nb) as nat) as int;
            let d = spec_dot(a, b);
            if d >= 0 {
                (d * SCALE) / m
            } else {
                -(((-d) * SCALE) / m)
            }
        }
    }
}

/// Integer square root of a `u128`.
fn isqrt(n: u128) -> (r: u128)
    ensures
        r == spec_isqrt(n as nat),
{
    let mut lo: u128 = 0;
    let mut hi: u128 = 0xFFFF_FFFF_FFFF_FFFF;
    proof {
        assert((hi + 1) * (hi + 1) > n) by (nonlinear_arith)
            requires
                hi == 0xFFFF_FFFF_FFFF_FFFFu128,
                n <= u128::MAX,
        ;
    }
    while lo < hi
        invariant
            lo <= hi <= 0xFFFF_FFFF_FFFF_FFFF,
            lo * lo <= n,
            (hi + 1) * (hi + 1) > n,
        decreases hi - lo,
    {
        let mid = lo + (hi - lo + 1) / 2;
        proof {
            assert(lo < mid <= hi);
            assert(mid * mid <= 0xFFFF_FFFF_FFFF_FFFFu128 * 0xFFFF_FFFF_FFFF_FFFFu128)
                by (nonlinear_arith)
                requires
                    mid <= 0xFFFF_FFFF_FFFF_FFFFu128,
            ;
        }
        if mid * mid <= n {
            lo = mid;
        } else {
            hi = mid - 1;
        }
    }
    proof {
        lemma_isqrt_unique(n as nat, lo as nat);
    }
    lo
}

/// Cosine similarity of two fixed-point vectors.  Degenerate inputs
/// (mismatched lengths, a zero-norm side) give 0 rather than an error; the
/// result always lies between `-SCALE` and `SCALE`.
pub fn cosine_similarity(a: &Vec<i64>, b: &Vec<i64>) -> (r: i64)
    requires
        vec_bounded(a.deep_view()),
        vec_bounded(b.deep_view()),
    ensures
        r == spec_cosine(a.deep_view(), b.deep_view()),
        -SCALE <= r <= SCALE,
{
    let ghost av = a.deep_view();
    let ghost bv = b.deep_view();
    let n = a.len();
    if n != b.len() {
        return 0;
    }
    proof {
        assert(av.len() == bv.len());
    }
    let mut dot: i128 = 0;
    let mut na: i128 = 0;
    let mut nb: i128 = 0;
    let mut i: usize = 0;
    while i < n
        invariant
            n == av.len(),
            n == bv.len(),
            av == a.deep_view(),
            bv == b.deep_view(),
            vec_bounded(av),
            vec_bounded(bv),
            i <= n,
            dot == spec_dot(av.subrange(0, i as int), bv.subrange(0, i as int)),
            na == spec_dot(av.subrange(0, i as int), av.subrange(0, i as int)),
            nb == spec_dot(bv.subrange(0, i as int), bv.subrange(0, i as int)),
            -(i * MAX_COMPONENT * MAX_COMPONENT) <= dot <= i * MAX_COMPONENT * MAX_COMPONENT,
            0 <= na <= i * MAX_COMPONENT * MAX_COMPONENT,
            0 <= nb <= i * MAX_COMPONENT * MAX_COMPONENT,
        decreases n - i,
    {
        let x = a[i];
        let y = b[i];
        proof {
            assert(av[i as int] == x && bv[i as int] == y);
            assert(-MAX_COMPONENT <= x <= MAX_COMPONENT);
            assert(-MAX_COMPONENT <= y <= MAX_COMPONENT);
            assert(av.subrange(0, i + 1).drop_last() =~= av.subrange(0, i as int));
            assert(bv.subrange(0, i + 1).drop_last() =~= bv.subrange(0, i as int));
            assert(av.subrange(0, i + 1).last() == x);
            assert(bv.subrange(0, i + 1).last() == y);
            assert(-(MAX_COMPONENT * MAX_COMPONENT) <= (x as int) * (y as int) <= MAX_COMPONENT
                * MAX_COMPONENT) by (nonlinear_arith)
                requires
                    -MAX_COMPONENT <= x <= MAX_COMPONENT,
                    -MAX_COMPONENT <= y <= MAX_COMPONENT,
            ;
            assert(0 <= (x as int) * (x as int) <= MAX_COMPONENT * MAX_COMPONENT)
                by (nonlinear_arith)
                requires
                    -MAX_COMPONENT <= x <= MAX_COMPONENT,
            ;
            assert(0 <= (y as int) * (y as int) <= MAX_COMPONENT * MAX_COMPONENT)
                by (nonlinear_arith)
                requires
                    -MAX_COMPONENT <= y <= MAX_COMPONENT,
            ;
            assert((i + 1) * MAX_COMPONENT * MAX_COMPONENT == i * MAX_COMPONENT * MAX_COMPONENT
                + MAX_COMPONENT * MAX_COMPONENT) by (nonlinear_arith);
            assert(n * MAX_COMPONENT * MAX_COMPONENT <= MAX_DIM as int * MAX_COMPONENT
                * MAX_COMPONENT) by (nonlinear_arith)
                requires
                    0 <= n <= MAX_DIM,
            ;
            assert((i + 1) * MAX_COMPONENT * MAX_COMPONENT <= n * MAX_COMPONENT * MAX_COMPONENT)
                by (nonlinear_arith)
                requires
                    i + 1 <= n,
            ;
        }
        dot = dot + (x as i128) * (y as i128);
        na = na + (x as i128) * (x as i128);
        nb = nb + (y as i128) * (y as i128);
        i += 1;
    }
    proof {
        assert(av.subrange(0, n as int) =~= av);
        assert(bv.subrange(0, n as int) =~= bv);
    }
    if na == 0 || nb == 0 {
        return 0;
    }
    proof {
        assert(na * nb <= (MAX_DIM * MAX_COMPONENT * MAX_COMPONENT) * (MAX_DIM * MAX_COMPONENT
            * MAX_COMPONENT)) by (nonlinear_arith)
            requires
                0 <= na <= MAX_DIM * MAX_COMPONENT * MAX_COMPONENT,
                0 <= nb <= MAX_DIM * MAX_COMPONENT * MAX_COMPONENT,
        ;
        assert((MAX_DIM as int * MAX_COMPONENT as int * MAX_COMPONENT as int) * (MAX_DIM as int
            * MAX_COMPONENT as int * MAX_COMPONENT as int) < u128::MAX) by (nonlinear_arith);
        assert(na * nb >= 1) by (nonlinear_arith)
            requires
                na >= 1,
                nb >= 1,
        ;
    }
    let prod: u128 = (na as u128) * (nb as u128);
    let m: u128 = isqrt(prod);
    proof {
        lemma_isqrt_bounds(prod as nat);
        assert(m >= 1) by (nonlinear_arith)
            requires
                m as nat == spec_isqrt(prod as nat),
                (m as int + 1) * (m as int + 1) > prod,
                prod >= 1,
        ;
        lemma_cauchy_schwarz(av, bv);
        // |dot| <= m, because dot^2 <= na * nb < (m + 1)^2.
        assert(-(m as int) <= dot <= m as int) by (nonlinear_arith)
            requires
                dot * dot <= prod,
                prod < (m as int + 1) * (m as int + 1),
                m >= 0,
        ;
    }
    let magnitude = if dot >= 0 {
        dot as u128
    } else {
        (-dot) as u128
    };
    let q: u128 = (magnitude * (SCALE as u128)) / m;
    proof {
        assert(magnitude * (SCALE as u128) <= m * (SCALE as u128)) by (nonlinear_arith)
            requires
                magnitude <= m,
        ;
        vstd::arithmetic::div_mod::lemma_div_is_ordered(
            (magnitude * (SCALE as u128)) as int,
            (m * (SCALE as u128)) as int,
            m as int,
        );
        vstd::arithmetic::div_mod::lemma_div_multiples_vanish(SCALE as int, m as int);
        assert(q <= SCALE);
    }
    if dot >= 0 {
        q as i64
    } else {
        proof {
            assert(-(((-(dot as int)) * SCALE) / (m as int)) == -(q as int));
        }
        -(q as i64)
    }
}

/// Cosine similarity is symmetric in its two arguments.
pub proof fn law_cosine_symmetric(a: Seq<i64>, b: Seq<i64>)
    ensures
        spec_cosine(a, b) == spec_cosine(b, a),
{
    lemma_dot_symmetric(a, b);
}

proof fn lemma_dot_symmetric(a: Seq<i64>, b: Seq<i64>)
    ensures
        spec_dot(a, b) == spec_dot(b, a),
    decreases a.len(),
{
    if a.len() > 0 && b.len() > 0 {
        lemma_dot_symmetric(a.drop_last(), b.drop_last());
    }
}

/// A non-degenerate vector compared with itself scores exactly `SCALE`
/// (that is, 1.0); and the degenerate cases (mismatched lengths, a zero
/// norm, the empty vector) score exactly 0.
pub proof fn law_cosine_self(a: Seq<i64>)
    requires
        spec_dot(a, a) != 0,
    ensures
        spec_cosine(a, a) == SCALE,
{
    lemma_dot_self_nonneg(a);
    let na = spec_dot(a, a);
    lemma_isqrt_square(na as nat);
    assert(spec_isqrt((na * na) as nat) == na);
    vstd::arithmetic::div_mod::lemma_div_multiples_vanish(SCALE as int, na);
    assert((na * SCALE) / na == SCALE) by {
        assert(na * SCALE == SCALE * na) by (nonlinear_arith);
    }
}

/// Degenerate inputs score zero: mismatched lengths or a zero norm (the
/// empty vector among them).
pub proof fn law_cosine_degenerate(a: Seq<i64>, b: Seq<i64>)
    ensures
        a.len() != b.len() ==> spec_cosine(a, b) == 0,
        spec_dot(a, a) == 0 ==> spec_cosine(a, b) == 0,
        spec_dot(b, b) == 0 ==> spec_cosine(a, b) == 0,
        a.len() == 0 ==> spec_cosine(a, b) == 0,
{
}

} // verus!
