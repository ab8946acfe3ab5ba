//! Exact cosine similarity over fixed-point embeddings.
//!
//! An embedding component is a signed 16-bit fixed-point number. Cosine
//! similarity does not depend on the scale of either vector, so the value
//! `dot(a, b) / (|a| * |b|)` is held exactly as a numerator and the radicand
//! under the square root of its denominator, and every comparison is decided
//! in integer arithmetic.
use vstd::prelude::*;

verus! {

/// Longest embedding whose similarities are computed exactly in 128 bits.
pub const MAX_DIMENSION: usize = 4096;

/// Thresholds are written in millionths: `800_000` stands for `0.8`.
pub const THRESHOLD_SCALE: i64 = 1_000_000;

/// Sum of `a[i] * b[i]` over the first `n` positions.
pub open spec fn dot_prefix(a: Seq<i16>, b: Seq<i16>, n: nat) -> int
    decreases n,
{
    if n == 0 {
        0
    } else {
        dot_prefix(a, b, (n - 1) as nat) + a[n - 1] * b[n - 1]
    }
}

/// The dot product of two vectors of equal length.
pub open spec fn dot(a: Seq<i16>, b: Seq<i16>) -> int {
    dot_prefix(a, b, a.len())
}

/// The squared Euclidean norm.
pub open spec fn norm_sq(a: Seq<i16>) -> int {
    dot(a, a)
}

/// Whether `n1 / sqrt(r1) > n2 / sqrt(r2)`, for positive `r1` and `r2`.
pub open spec fn root_ratio_gt(n1: int, r1: int, n2: int, r2: int) -> bool {
    if n1 >= 0 && n2 < 0 {
        true
    } else if n1 < 0 && n2 >= 0 {
        false
    } else if n1 >= 0 {
        n1 * n1 * r2 > n2 * n2 * r1
    } else {
        n1 * n1 * r2 < n2 * n2 * r1
    }
}

/// Cosine similarity as `(numerator, radicand)`, standing for
/// `numerator / sqrt(radicand)`. A zero vector has similarity 0 with
/// everything.
pub open spec fn cosine(a: Seq<i16>, b: Seq<i16>) -> (int, int) {
    if norm_sq(a) == 0 || norm_sq(b) == 0 {
        (0, 1)
    } else {
        (dot(a, b), norm_sq(a) * norm_sq(b))
    }
}

/// Whether similarity `s` is greater than similarity `t`.
pub open spec fn similarity_gt(s: (int, int), t: (int, int)) -> bool {
    root_ratio_gt(s.0, s.1, t.0, t.1)
}

/// Whether similarity `s` is greater than `ppm / 1_000_000`.
pub open spec fn similarity_exceeds(s: (int, int), ppm: int) -> bool {
    root_ratio_gt(s.0, s.1, ppm, THRESHOLD_SCALE * THRESHOLD_SCALE)
}

/// Whether similarity `s` is exactly `num / den`.
pub open spec fn similarity_is(s: (int, int), num: int, den: int) -> bool {
    &&& s.0 * num >= 0
    &&& s.0 * s.0 * (den * den) == num * num * s.1
}

/// Bound on the square of a numerator and on a radicand under which a
/// similarity is compared with a threshold without overflow.
pub const EXACT_BOUND: u128 = 0x40_0000_0000_0000_0000_0000;

/// Cosine similarity held exactly: `numerator / sqrt(radicand)`.
#[derive(Clone, Copy, Debug, PartialEq, Eq, Structural)]
pub struct Similarity {
    pub numerator: i64,
    pub radicand: u128,
}

impl Similarity {
    pub open spec fn view(self) -> (int, int) {
        (self.numerator as int, self.radicand as int)
    }

    /// Whether this similarity is greater than `threshold_ppm / 1_000_000`.
    pub fn exceeds(&self, threshold_ppm: i64) -> (r: bool)
        requires
            self.radicand >= 1,
            self.numerator * self.numerator <= EXACT_BOUND,
            self.radicand <= EXACT_BOUND,
            -THRESHOLD_SCALE <= threshold_ppm <= THRESHOLD_SCALE,
        ensures
            r == similarity_exceeds(self@, threshold_ppm as int),
    {
        proof {
            assert(threshold_ppm * threshold_ppm <= THRESHOLD_SCALE * THRESHOLD_SCALE) by (nonlinear_arith)
                requires -THRESHOLD_SCALE <= threshold_ppm <= THRESHOLD_SCALE;
            let n = self.numerator as int;
            let p = self.radicand as int;
            let t = threshold_ppm as int;
            assert(n * n * (THRESHOLD_SCALE * THRESHOLD_SCALE) <= u128::MAX) by (nonlinear_arith)
                requires n * n <= EXACT_BOUND;
            assert(t * t * p <= u128::MAX) by (nonlinear_arith)
                requires t * t <= THRESHOLD_SCALE * THRESHOLD_SCALE, 0 <= p <= EXACT_BOUND;
        }
        root_ratio_gt_exec(
            self.numerator as i128,
            self.radicand,
            threshold_ppm as i128,
            (THRESHOLD_SCALE * THRESHOLD_SCALE) as u128,
        )
    }
}

proof fn lemma_product_bound(x: i16, y: i16)
    ensures
        -0x4000_0000 <= x * y <= 0x4000_0000,
{
    assert(-0x4000_0000 <= x * y <= 0x4000_0000) by (nonlinear_arith)
        requires -32768 <= x <= 32767, -32768 <= y <= 32767;
}

proof fn lemma_dot_prefix_bound(a: Seq<i16>, b: Seq<i16>, n: nat)
    requires
        n <= a.len(),
        n <= b.len(),
    ensures
        -0x4000_0000 * n <= dot_prefix(a, b, n) <= 0x4000_0000 * n,
    decreases n,
{
    if n > 0 {
        lemma_dot_prefix_bound(a, b, (n - 1) as nat);
        lemma_product_bound(a[n - 1], b[n - 1]);
    }
}

proof fn lemma_norm_nonneg(a: Seq<i16>, n: nat)
    requires
        n <= a.len(),
    ensures
        dot_prefix(a, a, n) >= 0,
    decreases n,
{
    if n > 0 {
        lemma_norm_nonneg(a, (n - 1) as nat);
        let x = a[n - 1];
        assert(x * x >= 0) by (nonlinear_arith);
    }
}

/// The dot product of two vectors of equal length, at most `MAX_DIMENSION`.
pub fn dot_product(a: &[i16], b: &[i16]) -> (r: i64)
    requires
        a.len() == b.len(),
        a.len() <= MAX_DIMENSION,
    ensures
        r == dot(a@, b@),
        -0x400_0000_0000 <= r <= 0x400_0000_0000,
{
    let mut acc: i64 = 0;
    let mut i: usize = 0;
    while i < a.len()
        invariant
            a.len() == b.len(),
            a.len() <= MAX_DIMENSION,
            i <= a.len(),
            acc == dot_prefix(a@, b@, i as nat),
        decreases a.len() - i,
    {
        proof {
            lemma_dot_prefix_bound(a@, b@, i as nat);
            lemma_product_bound(a@[i as int], b@[i as int]);
        }
        acc = acc + (a[i] as i64) * (b[i] as i64);
        i = i + 1;
    }
    proof {
        lemma_dot_prefix_bound(a@, b@, a@.len());
    }
    acc
}

/// Decides `n1 / sqrt(r1) > n2 / sqrt(r2)` in 128-bit arithmetic.
fn root_ratio_gt_exec(n1: i128, r1: u128, n2: i128, r2: u128) -> (r: bool)
    requires
        r1 >= 1,
        r2 >= 1,
        n1 * n1 * r2 <= u128::MAX,
        n2 * n2 * r1 <= u128::MAX,
        -i128::MAX <= n1,
        -i128::MAX <= n2,
    ensures
        r == root_ratio_gt(n1 as int, r1 as int, n2 as int, r2 as int),
{
    let m1: u128 = if n1 >= 0 { n1 as u128 } else { (-n1) as u128 };
    let m2: u128 = if n2 >= 0 { n2 as u128 } else { (-n2) as u128 };
    proof {
        assert(m1 * m1 == n1 * n1) by (nonlinear_arith)
            requires m1 == n1 || m1 == -n1;
        assert(m2 * m2 == n2 * n2) by (nonlinear_arith)
            requires m2 == n2 || m2 == -n2;
        assert(m1 * m1 <= m1 * m1 * r2) by (nonlinear_arith)
            requires r2 >= 1;
        assert(m2 * m2 <= m2 * m2 * r1) by (nonlinear_arith)
            requires r1 >= 1;
    }
    let lhs: u128 = m1 * m1 * r2;
    let rhs: u128 = m2 * m2 * r1;
    if n1 >= 0 && n2 < 0 {
        true
    } else if n1 < 0 && n2 >= 0 {
        false
    } else if n1 >= 0 {
        lhs > rhs
    } else {
        lhs < rhs
    }
}

/// Cosine similarity of two vectors of equal length, at most `MAX_DIMENSION`;
/// 0 where either vector is zero.
pub fn cosine_similarity(a: &[i16], b: &[i16]) -> (r: Similarity)
    requires
        a.len() == b.len(),
        a.len() <= MAX_DIMENSION,
    ensures
        r@ == cosine(a@, b@),
        r.radicand >= 1,
        r.numerator * r.numerator <= EXACT_BOUND,
        r.radicand <= EXACT_BOUND,
{
    let na = dot_product(a, a);
    let nb = dot_product(b, b);
    proof {
        lemma_norm_nonneg(a@, a@.len());
        lemma_norm_nonneg(b@, b@.len());
    }
    if na == 0 || nb == 0 {
        return Similarity { numerator: 0, radicand: 1 };
    }
    let d = dot_product(a, b);
    proof {
        assert(d * d <= EXACT_BOUND) by (nonlinear_arith)
            requires -0x400_0000_0000 <= d <= 0x400_0000_0000;
        assert(1 <= na * nb <= EXACT_BOUND) by (nonlinear_arith)
            requires 1 <= na <= 0x400_0000_0000, 1 <= nb <= 0x400_0000_0000;
    }
    Similarity { numerator: d, radicand: (na as u128) * (nb as u128) }
}

/// `root_ratio_gt` does not change when both radicands are scaled by one
/// positive factor, nor at all when either numerator is zero.
proof fn lemma_root_ratio_rescale(n1: int, r1: int, n2: int, r2: int, q1: int, q2: int, c: int)
    requires
        r1 > 0,
        r2 > 0,
        q1 > 0,
        q2 > 0,
        c > 0,
        n1 == 0 || n2 == 0 || (q1 == c * r1 && q2 == c * r2),
    ensures
        root_ratio_gt(n1, q1, n2, q2) == root_ratio_gt(n1, r1, n2, r2),
{
    if n1 == 0 || n2 == 0 {
        assert(n1 * n1 * r2 > 0 <==> n1 != 0) by (nonlinear_arith)
            requires r2 > 0;
        assert(n1 * n1 * q2 > 0 <==> n1 != 0) by (nonlinear_arith)
            requires q2 > 0;
        assert(n2 * n2 * r1 > 0 <==> n2 != 0) by (nonlinear_arith)
            requires r1 > 0;
        assert(n2 * n2 * q1 > 0 <==> n2 != 0) by (nonlinear_arith)
            requires q1 > 0;
        assert(n1 * n1 * r2 >= 0 && n1 * n1 * q2 >= 0) by (nonlinear_arith)
            requires r2 > 0, q2 > 0;
        assert(n2 * n2 * r1 >= 0 && n2 * n2 * q1 >= 0) by (nonlinear_arith)
            requires r1 > 0, q1 > 0;
    } else {
        let x = n1 * n1 * r2;
        let y = n2 * n2 * r1;
        assert(n1 * n1 * q2 == c * x) by (nonlinear_arith)
            requires q2 == c * r2, x == n1 * n1 * r2;
        assert(n2 * n2 * q1 == c * y) by (nonlinear_arith)
            requires q1 == c * r1, y == n2 * n2 * r1;
        assert(c * x > c * y <==> x > y) by (nonlinear_arith)
            requires c > 0;
        assert(c * x < c * y <==> x < y) by (nonlinear_arith)
            requires c > 0;
    }
}

/// Whether `a` is more similar to `query` than `b` is. All three vectors
/// have one length, at most `MAX_DIMENSION`.
pub fn more_similar(query: &[i16], a: &[i16], b: &[i16]) -> (r: bool)
    requires
        a.len() == query.len(),
        b.len() == query.len(),
        query.len() <= MAX_DIMENSION,
    ensures
        r == similarity_gt(cosine(query@, a@), cosine(query@, b@)),
{
    let nq = dot_product(query, query);
    let na = dot_product(a, a);
    let nb = dot_product(b, b);
    proof {
        lemma_norm_nonneg(query@, query@.len());
        lemma_norm_nonneg(a@, a@.len());
        lemma_norm_nonneg(b@, b@.len());
    }
    if nq == 0 {
        return false;
    }
    let (n1, r1): (i64, i64) = if na == 0 { (0, 1) } else { (dot_product(query, a), na) };
    let (n2, r2): (i64, i64) = if nb == 0 { (0, 1) } else { (dot_product(query, b), nb) };
    proof {
        let sa = cosine(query@, a@);
        let sb = cosine(query@, b@);
        assert(na > 0 ==> nq * na > 0) by (nonlinear_arith)
            requires nq > 0;
        assert(nb > 0 ==> nq * nb > 0) by (nonlinear_arith)
            requires nq > 0;
        lemma_root_ratio_rescale(n1 as int, r1 as int, n2 as int, r2 as int, sa.1, sb.1, nq as int);
        assert(n1 * n1 * r2 <= u128::MAX) by (nonlinear_arith)
            requires -0x400_0000_0000 <= n1 <= 0x400_0000_0000, 1 <= r2 <= 0x400_0000_0000;
        assert(n2 * n2 * r1 <= u128::MAX) by (nonlinear_arith)
            requires -0x400_0000_0000 <= n2 <= 0x400_0000_0000, 1 <= r1 <= 0x400_0000_0000;
    }
    root_ratio_gt_exec(n1 as i128, r1 as u128, n2 as i128, r2 as u128)
}

proof fn lemma_dot_prefix_negated(a: Seq<i16>, b: Seq<i16>, n: nat)
    requires
        n <= a.len(),
        n <= b.len(),
        forall|i: int| 0 <= i < n ==> #[trigger] b[i] == -a[i],
    ensures
        dot_prefix(a, b, n) == -dot_prefix(a, a, n),
        dot_prefix(b, b, n) == dot_prefix(a, a, n),
    decreases n,
{
    if n > 0 {
        lemma_dot_prefix_negated(a, b, (n - 1) as nat);
        let x = a[n - 1] as int;
        assert(b[n - 1] == -x);
        assert(x * (-x) == -(x * x)) by (nonlinear_arith);
        assert((-x) * (-x) == x * x) by (nonlinear_arith);
    }
}

/// Every nonzero vector has similarity exactly 1 with itself.
pub proof fn lemma_self_similarity(a: Seq<i16>)
    requires
        norm_sq(a) > 0,
    ensures
        similarity_is(cosine(a, a), 1, 1),
{
    let n = norm_sq(a);
    assert(n * n * (1 * 1) == 1 * 1 * (n * n)) by (nonlinear_arith);
}

/// A nonzero vector and its negation have similarity exactly -1.
pub proof fn lemma_opposite_similarity(a: Seq<i16>, b: Seq<i16>)
    requires
        norm_sq(a) > 0,
        b.len() == a.len(),
        forall|i: int| 0 <= i < a.len() ==> #[trigger] b[i] == -a[i],
    ensures
        similarity_is(cosine(a, b), -1, 1),
{
    lemma_dot_prefix_negated(a, b, a.len());
    let n = norm_sq(a);
    assert(dot(a, b) == -n);
    assert(norm_sq(b) == n);
    assert((-n) * (-1) >= 0) by (nonlinear_arith)
        requires n > 0;
    assert((-n) * (-n) * (1 * 1) == (-1) * (-1) * (n * n)) by (nonlinear_arith);
}

proof fn lemma_scaled_chain(a: int, b: int, c: int, r1: int, r2: int, r3: int)
    requires
        r1 > 0,
        r2 > 0,
        r3 > 0,
        a * r2 > b * r1,
        b * r3 > c * r2,
    ensures
        a * r3 > c * r1,
{
    assert(a * r2 * r3 > b * r1 * r3) by (nonlinear_arith)
        requires a * r2 > b * r1, r3 > 0;
    assert(b * r3 * r1 > c * r2 * r1) by (nonlinear_arith)
        requires b * r3 > c * r2, r1 > 0;
    assert(a * r3 * r2 > c * r1 * r2) by (nonlinear_arith)
        requires a * r2 * r3 > b * r1 * r3, b * r3 * r1 > c * r2 * r1;
    assert(a * r3 > c * r1) by (nonlinear_arith)
        requires a * r3 * r2 > c * r1 * r2, r2 > 0;
}

/// The order of similarities is transitive.
pub proof fn lemma_similarity_gt_transitive(s: (int, int), t: (int, int), u: (int, int))
    requires
        s.1 > 0,
        t.1 > 0,
        u.1 > 0,
        similarity_gt(s, t),
        similarity_gt(t, u),
    ensures
        similarity_gt(s, u),
{
    let (n1, r1) = s;
    let (n2, r2) = t;
    let (n3, r3) = u;
    if n1 >= 0 && n2 >= 0 && n3 >= 0 {
        lemma_scaled_chain(n1 * n1, n2 * n2, n3 * n3, r1, r2, r3);
    } else if n1 < 0 && n2 < 0 && n3 < 0 {
        lemma_scaled_chain(n3 * n3, n2 * n2, n1 * n1, r3, r2, r1);
    }
}

/// A squared norm is never negative.
pub proof fn lemma_norm_sq_nonneg(a: Seq<i16>)
    ensures
        norm_sq(a) >= 0,
{
    lemma_norm_nonneg(a, a.len());
}

proof fn lemma_scaled_chain_mixed(a: int, b: int, c: int, r1: int, r2: int, r3: int)
    requires
        r1 > 0,
        r2 > 0,
        r3 > 0,
        (a * r2 >= b * r1 && b * r3 > c * r2) || (a * r2 > b * r1 && b * r3 >= c * r2),
    ensures
        a * r3 > c * r1,
{
    if a * r2 >= b * r1 && b * r3 > c * r2 {
        assert(a * r2 * r3 >= b * r1 * r3) by (nonlinear_arith)
            requires a * r2 >= b * r1, r3 > 0;
        assert(b * r3 * r1 > c * r2 * r1) by (nonlinear_arith)
            requires b * r3 > c * r2, r1 > 0;
    } else {
        assert(a * r2 * r3 > b * r1 * r3) by (nonlinear_arith)
            requires a * r2 > b * r1, r3 > 0;
        assert(b * r3 * r1 >= c * r2 * r1) by (nonlinear_arith)
            requires b * r3 >= c * r2, r1 > 0;
    }
    assert(a * r3 * r2 > c * r1 * r2) by (nonlinear_arith)
        requires
            (a * r2 * r3 >= b * r1 * r3 && b * r3 * r1 > c * r2 * r1) || (a * r2 * r3 > b * r1 * r3 && b
                * r3 * r1 >= c * r2 * r1);
    assert(a * r3 > c * r1) by (nonlinear_arith)
        requires a * r3 * r2 > c * r1 * r2, r2 > 0;
}

/// A similarity at least `t` is greater than whatever `t` is greater than.
pub proof fn lemma_similarity_ge_gt(s: (int, int), t: (int, int), u: (int, int))
    requires
        s.1 > 0,
        t.1 > 0,
        u.1 > 0,
        !similarity_gt(t, s),
        similarity_gt(t, u),
    ensures
        similarity_gt(s, u),
{
    let (n1, r1) = s;
    let (n2, r2) = t;
    let (n3, r3) = u;
    if n1 >= 0 && n2 >= 0 && n3 >= 0 {
        lemma_scaled_chain_mixed(n1 * n1, n2 * n2, n3 * n3, r1, r2, r3);
    } else if n1 < 0 && n2 < 0 && n3 < 0 {
        lemma_scaled_chain_mixed(n3 * n3, n2 * n2, n1 * n1, r3, r2, r1);
    }
}

/// A similarity greater than `t` is greater than whatever is at most `t`.
pub proof fn lemma_similarity_gt_ge(s: (int, int), t: (int, int), u: (int, int))
    requires
        s.1 > 0,
        t.1 > 0,
        u.1 > 0,
        similarity_gt(s, t),
        !similarity_gt(u, t),
    ensures
        similarity_gt(s, u),
{
    let (n1, r1) = s;
    let (n2, r2) = t;
    let (n3, r3) = u;
    if n1 >= 0 && n2 >= 0 && n3 >= 0 {
        lemma_scaled_chain_mixed(n1 * n1, n2 * n2, n3 * n3, r1, r2, r3);
    } else if n1 < 0 && n2 < 0 && n3 < 0 {
        lemma_scaled_chain_mixed(n3 * n3, n2 * n2, n1 * n1, r3, r2, r1);
    }
}

} // verus!
