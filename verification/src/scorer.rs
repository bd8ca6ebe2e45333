//! Distance scoring: which vector in a batch matches a query best.
//!
//! Two metrics are supported, squared Euclidean distance (lower is
//! better) and dot-product similarity (higher is better).  Scores are
//! exact integers, so they are totally ordered and every comparison is
//! decided; ties are broken towards the lowest index.

use vstd::prelude::*;

use crate::SearchError;

verus! {

/// How two vectors are compared.
#[derive(Clone, Copy, Debug, PartialEq, Eq, Structural)]
pub enum Metric {
    /// Squared Euclidean distance; a lower score is better.  Ordering
    /// agrees with plain Euclidean distance, whose square root is
    /// monotone and never computed here.
    SquaredEuclidean,
    /// Dot-product similarity; a higher score is better.
    DotProduct,
}

/// The views of a sequence of vectors.
pub open spec fn views(vs: Seq<Vec<i32>>) -> Seq<Seq<i32>> {
    vs.map_values(|v: Vec<i32>| v@)
}

pub open spec fn sq_diff(x: int, y: int) -> int {
    (x - y) * (x - y)
}

/// Squared Euclidean distance of two equal-length vectors.
pub open spec fn sq_dist(a: Seq<i32>, b: Seq<i32>) -> int
    decreases a.len(),
{
    if a.len() == 0 {
        0
    } else {
        sq_dist(a.drop_last(), b.drop_last()) + sq_diff(a.last() as int, b.last() as int)
    }
}

/// Dot product of two equal-length vectors.
pub open spec fn dot(a: Seq<i32>, b: Seq<i32>) -> int
    decreases a.len(),
{
    if a.len() == 0 {
        0
    } else {
        dot(a.drop_last(), b.drop_last()) + (a.last() as int) * (b.last() as int)
    }
}

/// The score of `a` against the query `q` under `m`.
pub open spec fn score(m: Metric, a: Seq<i32>, q: Seq<i32>) -> int {
    match m {
        Metric::SquaredEuclidean => sq_dist(a, q),
        Metric::DotProduct => dot(a, q),
    }
}

/// Whether score `s1` is strictly better than score `s2` under `m`.
pub open spec fn beats(m: Metric, s1: int, s2: int) -> bool {
    match m {
        Metric::SquaredEuclidean => s1 < s2,
        Metric::DotProduct => s1 > s2,
    }
}

/// The largest possible squared difference of two components.
pub open spec fn max_sq_diff() -> int {
    0xFFFF_FFFE_0000_0001
}

/// The largest possible magnitude of a component product.
pub open spec fn max_abs_prod() -> int {
    0x4000_0000_0000_0000
}

proof fn lemma_sq_diff_bounds(x: int, y: int)
    requires
        -0x8000_0000 <= x <= 0x7fff_ffff,
        -0x8000_0000 <= y <= 0x7fff_ffff,
    ensures
        0 <= sq_diff(x, y) <= max_sq_diff(),
{
    let d = x - y;
    assert(0 <= d * d <= 0xFFFF_FFFE_0000_0001) by (nonlinear_arith)
        requires
            -0xffff_ffff <= d <= 0xffff_ffff,
    ;
}

proof fn lemma_prod_bounds(x: int, y: int)
    requires
        -0x8000_0000 <= x <= 0x7fff_ffff,
        -0x8000_0000 <= y <= 0x7fff_ffff,
    ensures
        -max_abs_prod() <= x * y <= max_abs_prod(),
{
    assert(-0x4000_0000_0000_0000 <= x * y <= 0x4000_0000_0000_0000) by (nonlinear_arith)
        requires
            -0x8000_0000 <= x <= 0x7fff_ffff && -0x8000_0000 <= y <= 0x7fff_ffff,
    ;
}

pub proof fn lemma_sq_dist_bounds(a: Seq<i32>, b: Seq<i32>)
    requires
        a.len() == b.len(),
    ensures
        0 <= sq_dist(a, b) <= a.len() * max_sq_diff(),
    decreases a.len(),
{
    if a.len() == 0 {
    } else {
        lemma_sq_dist_bounds(a.drop_last(), b.drop_last());
        lemma_sq_diff_bounds(a.last() as int, b.last() as int);
        assert((a.len() - 1) * max_sq_diff() + max_sq_diff() == a.len() * max_sq_diff())
            by (nonlinear_arith);
    }
}

pub proof fn lemma_dot_bounds(a: Seq<i32>, b: Seq<i32>)
    requires
        a.len() == b.len(),
    ensures
        -(a.len() * max_abs_prod()) <= dot(a, b) <= a.len() * max_abs_prod(),
    decreases a.len(),
{
    if a.len() == 0 {
    } else {
        lemma_dot_bounds(a.drop_last(), b.drop_last());
        lemma_prod_bounds(a.last() as int, b.last() as int);
        assert((a.len() - 1) * max_abs_prod() + max_abs_prod() == a.len() * max_abs_prod())
            by (nonlinear_arith);
    }
}

proof fn lemma_mul_le(n: int, cap: int, m: int)
    requires
        0 <= n <= cap,
        0 <= m,
    ensures
        n * m <= cap * m,
{
    assert(n * m <= cap * m) by (nonlinear_arith)
        requires
            0 <= n <= cap && 0 <= m,
    ;
}

/// The squared Euclidean distance of two equal-length vectors, exactly.
pub fn score_squared_euclidean(a: &Vec<i32>, q: &Vec<i32>) -> (r: u128)
    requires
        a@.len() == q@.len(),
    ensures
        r == sq_dist(a@, q@),
{
    let n = a.len();
    let mut acc: u128 = 0;
    let mut k: usize = 0;
    while k < n
        invariant
            k <= n,
            n == a@.len() == q@.len(),
            acc == sq_dist(a@.take(k as int), q@.take(k as int)),
        decreases n - k,
    {
        proof {
            lemma_sq_dist_bounds(a@.take(k as int), q@.take(k as int));
            lemma_mul_le(k as int, 0xffff_ffff_ffff_ffff, max_sq_diff());
            assert(0xffff_ffff_ffff_ffff * max_sq_diff() + max_sq_diff()
                <= 0xffff_ffff_ffff_ffff_ffff_ffff_ffff_ffff) by (nonlinear_arith);
        }
        let d: i64 = (a[k] as i64) - (q[k] as i64);
        proof {
            let di = d as int;
            assert(0 <= di * di <= 0xFFFF_FFFE_0000_0001) by (nonlinear_arith)
                requires
                    -0xffff_ffff <= di <= 0xffff_ffff,
            ;
        }
        let p: i128 = (d as i128) * (d as i128);
        acc = acc + (p as u128);
        proof {
            assert(a@.take(k + 1).drop_last() =~= a@.take(k as int));
            assert(q@.take(k + 1).drop_last() =~= q@.take(k as int));
        }
        k = k + 1;
    }
    proof {
        assert(a@.take(n as int) =~= a@);
        assert(q@.take(n as int) =~= q@);
    }
    acc
}

/// The dot product of two equal-length vectors, exactly.
pub fn score_dot(a: &Vec<i32>, q: &Vec<i32>) -> (r: i128)
    requires
        a@.len() == q@.len(),
    ensures
        r == dot(a@, q@),
{
    let n = a.len();
    let mut acc: i128 = 0;
    let mut k: usize = 0;
    while k < n
        invariant
            k <= n,
            n == a@.len() == q@.len(),
            acc == dot(a@.take(k as int), q@.take(k as int)),
        decreases n - k,
    {
        proof {
            lemma_dot_bounds(a@.take(k as int), q@.take(k as int));
            lemma_mul_le(k as int, 0xffff_ffff_ffff_ffff, max_abs_prod());
            assert(0xffff_ffff_ffff_ffff * max_abs_prod() + max_abs_prod()
                <= 0x7fff_ffff_ffff_ffff_ffff_ffff_ffff_ffff) by (nonlinear_arith);
            lemma_prod_bounds(a@[k as int] as int, q@[k as int] as int);
        }
        let p: i64 = (a[k] as i64) * (q[k] as i64);
        acc = acc + (p as i128);
        proof {
            assert(a@.take(k + 1).drop_last() =~= a@.take(k as int));
            assert(q@.take(k + 1).drop_last() =~= q@.take(k as int));
        }
        k = k + 1;
    }
    proof {
        assert(a@.take(n as int) =~= a@);
        assert(q@.take(n as int) =~= q@);
    }
    acc
}

fn best_range_euclid(samples: &Vec<Vec<i32>>, query: &Vec<i32>, start: usize, end: usize) -> (r:
    usize)
    requires
        start < end <= samples@.len(),
        forall|k: int| start <= k < end ==> (#[trigger] samples@[k])@.len() == query@.len(),
    ensures
        start <= r < end,
        forall|k: int|
            start <= k < end ==> sq_dist(samples@[r as int]@, query@) <= #[trigger] sq_dist(
                samples@[k]@,
                query@,
            ),
        forall|k: int|
            start <= k < r ==> sq_dist(samples@[r as int]@, query@) < #[trigger] sq_dist(
                samples@[k]@,
                query@,
            ),
{
    let mut best: usize = start;
    let mut best_score: u128 = score_squared_euclidean(&samples[start], query);
    let mut k: usize = start + 1;
    while k < end
        invariant
            start <= best < k <= end <= samples@.len(),
            forall|j: int| start <= j < end ==> (#[trigger] samples@[j])@.len() == query@.len(),
            best_score == sq_dist(samples@[best as int]@, query@),
            forall|j: int|
                start <= j < k ==> best_score <= #[trigger] sq_dist(samples@[j]@, query@),
            forall|j: int|
                start <= j < best ==> best_score < #[trigger] sq_dist(samples@[j]@, query@),
        decreases end - k,
    {
        let s = score_squared_euclidean(&samples[k], query);
        if s < best_score {
            best = k;
            best_score = s;
        }
        k = k + 1;
    }
    best
}

fn best_range_dot(samples: &Vec<Vec<i32>>, query: &Vec<i32>, start: usize, end: usize) -> (r:
    usize)
    requires
        start < end <= samples@.len(),
        forall|k: int| start <= k < end ==> (#[trigger] samples@[k])@.len() == query@.len(),
    ensures
        start <= r < end,
        forall|k: int|
            start <= k < end ==> dot(samples@[r as int]@, query@) >= #[trigger] dot(
                samples@[k]@,
                query@,
            ),
        forall|k: int|
            start <= k < r ==> dot(samples@[r as int]@, query@) > #[trigger] dot(
                samples@[k]@,
                query@,
            ),
{
    let mut best: usize = start;
    let mut best_score: i128 = score_dot(&samples[start], query);
    let mut k: usize = start + 1;
    while k < end
        invariant
            start <= best < k <= end <= samples@.len(),
            forall|j: int| start <= j < end ==> (#[trigger] samples@[j])@.len() == query@.len(),
            best_score == dot(samples@[best as int]@, query@),
            forall|j: int| start <= j < k ==> best_score >= #[trigger] dot(samples@[j]@, query@),
            forall|j: int| start <= j < best ==> best_score > #[trigger] dot(samples@[j]@, query@),
        decreases end - k,
    {
        let s = score_dot(&samples[k], query);
        if s > best_score {
            best = k;
            best_score = s;
        }
        k = k + 1;
    }
    best
}

/// The winner of the slice `[start, end)`: the lowest index whose score
/// is optimal within the slice.
pub fn best_in_range(samples: &Vec<Vec<i32>>, query: &Vec<i32>, metric: Metric, start: usize, end:
    usize) -> (r: usize)
    requires
        start < end <= samples@.len(),
        forall|k: int| start <= k < end ==> (#[trigger] samples@[k])@.len() == query@.len(),
    ensures
        start <= r < end,
        forall|k: int|
            start <= k < end ==> !beats(
                metric,
                #[trigger] score(metric, samples@[k]@, query@),
                score(metric, samples@[r as int]@, query@),
            ),
        forall|k: int|
            start <= k < r ==> beats(
                metric,
                score(metric, samples@[r as int]@, query@),
                #[trigger] score(metric, samples@[k]@, query@),
            ),
{
    match metric {
        Metric::SquaredEuclidean => best_range_euclid(samples, query, start, end),
        Metric::DotProduct => best_range_dot(samples, query, start, end),
    }
}

/// The winner among the first `n` vectors: scanned left to right, a
/// later vector takes over only with a strictly better score, so the
/// lowest optimal index wins.
pub open spec fn best_in_prefix(m: Metric, vs: Seq<Seq<i32>>, q: Seq<i32>, n: int) -> int
    decreases n,
{
    if n <= 1 {
        0
    } else {
        let b = best_in_prefix(m, vs, q, n - 1);
        if beats(m, score(m, vs[n - 1], q), score(m, vs[b], q)) {
            n - 1
        } else {
            b
        }
    }
}

/// The index `best_index` reports: the lowest index with an optimal
/// score over the whole set.
pub open spec fn best_index(m: Metric, vs: Seq<Seq<i32>>, q: Seq<i32>) -> int {
    best_in_prefix(m, vs, q, vs.len() as int)
}

/// `best_in_prefix` indeed names the lowest optimal index.
pub proof fn lemma_best_in_prefix_props(m: Metric, vs: Seq<Seq<i32>>, q: Seq<i32>, n: int)
    requires
        1 <= n <= vs.len(),
    ensures
        0 <= best_in_prefix(m, vs, q, n) < n,
        forall|k: int|
            0 <= k < n ==> !beats(
                m,
                #[trigger] score(m, vs[k], q),
                score(m, vs[best_in_prefix(m, vs, q, n)], q),
            ),
        forall|k: int|
            0 <= k < best_in_prefix(m, vs, q, n) ==> beats(
                m,
                score(m, vs[best_in_prefix(m, vs, q, n)], q),
                #[trigger] score(m, vs[k], q),
            ),
    decreases n,
{
    if n > 1 {
        lemma_best_in_prefix_props(m, vs, q, n - 1);
    }
}

/// Only one index is both optimal and lowest, so any two selections
/// that satisfy `best_index`'s characterisation agree.
pub proof fn lemma_best_unique(m: Metric, vs: Seq<Seq<i32>>, q: Seq<i32>, i: int, j: int)
    requires
        0 <= i < vs.len(),
        0 <= j < vs.len(),
        forall|k: int| 0 <= k < vs.len() ==> !beats(m, #[trigger] score(m, vs[k], q), score(m, vs[i], q)),
        forall|k: int| 0 <= k < i ==> beats(m, score(m, vs[i], q), #[trigger] score(m, vs[k], q)),
        forall|k: int| 0 <= k < vs.len() ==> !beats(m, #[trigger] score(m, vs[k], q), score(m, vs[j], q)),
        forall|k: int| 0 <= k < j ==> beats(m, score(m, vs[j], q), #[trigger] score(m, vs[k], q)),
    ensures
        i == j,
{
    if i < j {
        assert(beats(m, score(m, vs[j], q), score(m, vs[i], q)));
        assert(!beats(m, score(m, vs[j], q), score(m, vs[i], q)));
    } else if j < i {
        assert(beats(m, score(m, vs[i], q), score(m, vs[j], q)));
        assert(!beats(m, score(m, vs[i], q), score(m, vs[j], q)));
    }
}

/// Finds the first sample whose dimension differs from the query's.
pub(crate) fn check_dims(samples: &Vec<Vec<i32>>, query: &Vec<i32>) -> (r: Option<usize>)
    ensures
        match r {
            None => forall|k: int|
                0 <= k < samples@.len() ==> (#[trigger] samples@[k])@.len() == query@.len(),
            Some(i) => i < samples@.len() && samples@[i as int]@.len() != query@.len()
                && forall|k: int|
                0 <= k < i ==> (#[trigger] samples@[k])@.len() == query@.len(),
        },
{
    let mut k: usize = 0;
    while k < samples.len()
        invariant
            k <= samples@.len(),
            forall|j: int| 0 <= j < k ==> (#[trigger] samples@[j])@.len() == query@.len(),
        decreases samples@.len() - k,
    {
        if samples[k].len() != query.len() {
            return Some(k);
        }
        k = k + 1;
    }
    None
}

/// The best-matching sample: the lowest index in `[0, N)` whose score
/// against the query is optimal under the metric.  Fails with
/// `EmptyInput` on an empty set and with `DimensionMismatch` naming the
/// first sample whose dimension differs from the query's; succeeds on
/// every other input.
pub fn compute_best_sample(samples: &Vec<Vec<i32>>, query: &Vec<i32>, metric: Metric) -> (r:
    Result<usize, SearchError>)
    ensures
        match r {
            Ok(i) => {
                &&& samples@.len() > 0
                &&& forall|k: int|
                    0 <= k < samples@.len() ==> (#[trigger] samples@[k])@.len() == query@.len()
                &&& 0 <= i < samples@.len()
                &&& i == best_index(metric, views(samples@), query@)
                &&& forall|k: int|
                    0 <= k < samples@.len() ==> !beats(
                        metric,
                        #[trigger] score(metric, samples@[k]@, query@),
                        score(metric, samples@[i as int]@, query@),
                    )
                &&& forall|k: int|
                    0 <= k < i ==> beats(
                        metric,
                        score(metric, samples@[i as int]@, query@),
                        #[trigger] score(metric, samples@[k]@, query@),
                    )
            },
            Err(SearchError::EmptyInput) => samples@.len() == 0,
            Err(SearchError::DimensionMismatch { index }) => {
                &&& samples@.len() > 0
                &&& index < samples@.len()
                &&& samples@[index as int]@.len() != query@.len()
                &&& forall|k: int|
                    0 <= k < index ==> (#[trigger] samples@[k])@.len() == query@.len()
            },
        },
{
    if samples.len() == 0 {
        return Err(SearchError::EmptyInput);
    }
    match check_dims(samples, query) {
        Some(index) => Err(SearchError::DimensionMismatch { index }),
        None => {
            let r = best_in_range(samples, query, metric, 0, samples.len());
            proof {
                let vs = views(samples@);
                lemma_best_in_prefix_props(metric, vs, query@, vs.len() as int);
                lemma_best_unique(metric, vs, query@, r as int, best_index(metric, vs, query@));
            }
            Ok(r)
        },
    }
}

} // verus!
