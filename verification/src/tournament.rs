//! Tournament reduction: a large sample set is narrowed to one winner
//! by repeated rounds of bounded chunks.
//!
//! Each round cuts the working set into contiguous chunks of at most
//! `batch_size` vectors, keeps each chunk's winner, and repeats while
//! the working set is larger than one chunk.  A translation table of
//! original positions is carried along explicitly, so the reported
//! winner index refers to the original sample set, and local-winner
//! propagation provably preserves the global optimum.

use vstd::arithmetic::div_mod::{
    lemma_div_is_ordered,
    lemma_fundamental_div_mod,
    lemma_fundamental_div_mod_converse,
    lemma_remainder_lower,
    lemma_remainder_upper,
};
use vstd::arithmetic::power::pow;
use vstd::prelude::*;

use crate::scorer::{
    beats,
    best_in_range,
    best_index,
    lemma_best_in_prefix_props,
    lemma_best_unique,
    score,
    views,
    Metric,
};
use crate::SearchError;

verus! {

/// How many chunks of size at most `b` cover `n` items (`n >= 1`).
pub open spec fn num_chunks(n: int, b: int) -> int {
    (n - 1) / b + 1
}

/// Where chunk `c` ends: one past its last item.
pub open spec fn chunk_hi(c: int, b: int, n: int) -> int {
    if c * b + b <= n {
        c * b + b
    } else {
        n
    }
}

/// One round's winners are sound: one winner per chunk, each the lowest
/// optimal index within its own chunk.
pub open spec fn winners_sound(m: Metric, vs: Seq<Seq<i32>>, q: Seq<i32>, b: int, ws: Seq<usize>)
    -> bool {
    &&& forall|c: int| 0 <= c < ws.len() ==> c * b <= #[trigger] ws[c] < chunk_hi(c, b, vs.len() as int)
    &&& forall|c: int, k: int|
        #![trigger ws[c], vs[k]]
        0 <= c < ws.len() && c * b <= k < chunk_hi(c, b, vs.len() as int) ==> !beats(
            m,
            score(m, vs[k], q),
            score(m, vs[ws[c] as int], q),
        )
    &&& forall|c: int, k: int|
        #![trigger ws[c], vs[k]]
        0 <= c < ws.len() && c * b <= k < ws[c] ==> beats(
            m,
            score(m, vs[ws[c] as int], q),
            score(m, vs[k], q),
        )
}

/// Keeping each chunk's local winner keeps the global winner: the best
/// of the winners is the chunk winner that is the best of the whole
/// working set, so one round of reduction loses nothing.
pub proof fn lemma_round_preserves_best(
    m: Metric,
    vs: Seq<Seq<i32>>,
    q: Seq<i32>,
    b: int,
    ws: Seq<usize>,
    nvs: Seq<Seq<i32>>,
)
    requires
        b >= 1,
        vs.len() >= 1,
        forall|k: int| 0 <= k < vs.len() ==> (#[trigger] vs[k]).len() == q.len(),
        ws.len() == num_chunks(vs.len() as int, b),
        winners_sound(m, vs, q, b, ws),
        nvs.len() == ws.len(),
        forall|c: int| 0 <= c < ws.len() ==> #[trigger] nvs[c] == vs[ws[c] as int],
    ensures
        0 <= best_index(m, nvs, q) < ws.len(),
        ws[best_index(m, nvs, q)] == best_index(m, vs, q),
{
    let n = vs.len() as int;
    let g = best_index(m, vs, q);
    lemma_best_in_prefix_props(m, vs, q, n);
    let cs = g / b;
    lemma_fundamental_div_mod(g, b);
    lemma_remainder_upper(g, b);
    lemma_remainder_lower(g, b);
    assert(cs * b <= g < cs * b + b);
    lemma_div_is_ordered(g, n - 1, b);
    assert(cs <= (n - 1) / b);
    assert(0 <= cs < ws.len());
    assert(cs * b <= g < chunk_hi(cs, b, n));
    // The winner of chunk `cs` is `g` itself.
    let w = ws[cs] as int;
    assert(!beats(m, score(m, vs[g], q), score(m, vs[w], q)));
    assert(!beats(m, score(m, vs[w], q), score(m, vs[g], q)));
    assert(score(m, vs[w], q) == score(m, vs[g], q));
    if w < g {
        assert(beats(m, score(m, vs[g], q), score(m, vs[w], q)));
        assert(false);
    }
    if g < w {
        assert(beats(m, score(m, vs[w], q), score(m, vs[g], q)));
        assert(false);
    }
    assert(w == g);
    // The best among the winners sits at position `cs`.
    let l = best_index(m, nvs, q);
    lemma_best_in_prefix_props(m, nvs, q, nvs.len() as int);
    assert(!beats(m, score(m, nvs[cs], q), score(m, nvs[l], q)));
    assert(ws[l] < n);
    assert(nvs[l] == vs[ws[l] as int]);
    assert(!beats(m, score(m, nvs[l], q), score(m, nvs[cs], q)));
    assert(score(m, nvs[l], q) == score(m, nvs[cs], q));
    if l < cs {
        assert(ws[l] < chunk_hi(l, b, n));
        assert(l * b + b == (l + 1) * b) by (nonlinear_arith);
        assert((l + 1) * b <= cs * b) by (nonlinear_arith)
            requires
                l + 1 <= cs && b >= 1,
        ;
        assert(ws[l] < g);
        assert(beats(m, score(m, vs[g], q), score(m, vs[ws[l] as int], q)));
        assert(false);
    }
    if cs < l {
        assert(beats(m, score(m, nvs[l], q), score(m, nvs[cs], q)));
        assert(false);
    }
    assert(l == cs);
}

/// One reduction round over a validated working set: the winner of each
/// contiguous chunk of at most `batch_size` vectors, in chunk order.
fn round_winners(samples: &Vec<Vec<i32>>, query: &Vec<i32>, metric: Metric, batch_size: usize) -> (
    ws: Vec<usize>)
    requires
        batch_size >= 1,
        samples@.len() >= 1,
        forall|k: int| 0 <= k < samples@.len() ==> (#[trigger] samples@[k])@.len() == query@.len(),
    ensures
        ws@.len() == num_chunks(samples@.len() as int, batch_size as int),
        winners_sound(metric, views(samples@), query@, batch_size as int, ws@),
{
    let n = samples.len();
    let b = batch_size;
    let ghost vs = views(samples@);
    let mut ws: Vec<usize> = Vec::new();
    let mut start: usize = 0;
    proof {
        assert(ws@.len() == 0);
        assert(0int * (b as int) == 0) by (nonlinear_arith);
    }
    while start < n
        invariant
            1 <= b,
            1 <= n == samples@.len(),
            vs == views(samples@),
            forall|k: int| 0 <= k < samples@.len() ==> (#[trigger] samples@[k])@.len()
                == query@.len(),
            start <= n,
            if start < n {
                start as int == ws@.len() * (b as int)
            } else {
                ws@.len() == num_chunks(n as int, b as int)
            },
            winners_sound(metric, vs, query@, b as int, ws@),
        decreases n - start,
    {
        let ghost c = ws@.len() as int;
        let end = if n - start < b {
            n
        } else {
            start + b
        };
        proof {
            assert(c * b + b == (start + b) as int) by (nonlinear_arith)
                requires
                    start as int == c * (b as int) && b >= 1,
            ;
            assert(end as int == chunk_hi(c, b as int, n as int));
        }
        let w = best_in_range(samples, query, metric, start, end);
        ws.push(w);
        proof {
            assert forall|j: int| 0 <= j < samples@.len() implies vs[j] == samples@[j]@ by {}
            assert(winners_sound(metric, vs, query@, b as int, ws@)) by {
                assert(forall|i: int| 0 <= i < c ==> ws@[i] == #[trigger] ws@.drop_last()[i]);
                assert(ws@[c] == w);
            }
            if end == n {
                // The round is complete: `c + 1` chunks cover `n` items.
                lemma_fundamental_div_mod_converse(
                    n - 1,
                    b as int,
                    c,
                    n - 1 - c * (b as int),
                );
            } else {
                assert((c + 1) * (b as int) == c * (b as int) + b) by (nonlinear_arith);
            }
        }
        start = end;
    }
    ws
}

/// One reduction round, validated: the absolute index of each chunk's
/// winner within `samples`, or why the input was rejected.  Succeeds on
/// every non-empty, dimension-consistent input.
pub fn tournament_round(samples: &Vec<Vec<i32>>, query: &Vec<i32>, metric: Metric, batch_size:
    usize) -> (r: Result<Vec<usize>, SearchError>)
    requires
        batch_size >= 1,
    ensures
        match r {
            Ok(ws) => {
                &&& samples@.len() > 0
                &&& forall|k: int|
                    0 <= k < samples@.len() ==> (#[trigger] samples@[k])@.len() == query@.len()
                &&& ws@.len() == num_chunks(samples@.len() as int, batch_size as int)
                &&& winners_sound(metric, views(samples@), query@, batch_size as int, ws@)
            },
            Err(SearchError::EmptyInput) => samples@.len() == 0,
            Err(SearchError::DimensionMismatch { index }) => {
                &&& samples@.len() > 0
                &&& index < samples@.len()
                &&& samples@[index as int]@.len() != query@.len()
                &&& forall|k: int|
                    0 <= k < index ==> (#[trigger] samples@[k])@.len() == query@.len()
            },
        },
{
    if samples.len() == 0 {
        return Err(SearchError::EmptyInput);
    }
    match crate::scorer::check_dims(samples, query) {
        Some(index) => Err(SearchError::DimensionMismatch { index }),
        None => Ok(round_winners(samples, query, metric, batch_size)),
    }
}

/// Tournament search for the best-matching sample.
///
/// Chunks the working set, keeps each chunk's winner, and repeats while
/// more than `batch_size` vectors survive; a final scan over the
/// survivors picks the winner.  A translation table carried through the
/// rounds maps every survivor back to its original position, so the
/// returned index refers to the original sample set and always equals
/// the brute-force optimum that `compute_best_sample` reports; the
/// returned vector is that sample.  `batch_size` must be at least two
/// when the set is larger than one chunk, or no round could shrink it.
pub fn iterative_similarity_search(
    samples: Vec<Vec<i32>>,
    query: Vec<i32>,
    batch_size: usize,
    metric: Metric,
) -> (r: Result<(usize, Vec<i32>), SearchError>)
    requires
        batch_size >= 1,
        batch_size >= 2 || samples@.len() <= batch_size,
    ensures
        match r {
            Ok(gw) => {
                &&& samples@.len() > 0
                &&& forall|k: int|
                    0 <= k < samples@.len() ==> (#[trigger] samples@[k])@.len() == query@.len()
                &&& gw.0 < samples@.len()
                &&& gw.0 == best_index(metric, views(samples@), query@)
                &&& gw.1@ == samples@[gw.0 as int]@
                &&& forall|k: int|
                    0 <= k < samples@.len() ==> !beats(
                        metric,
                        #[trigger] score(metric, samples@[k]@, query@),
                        score(metric, gw.1@, query@),
                    )
                &&& forall|k: int|
                    0 <= k < gw.0 ==> beats(
                        metric,
                        score(metric, gw.1@, query@),
                        #[trigger] score(metric, samples@[k]@, query@),
                    )
            },
            Err(SearchError::EmptyInput) => samples@.len() == 0,
            Err(SearchError::DimensionMismatch { index }) => {
                &&& samples@.len() > 0
                &&& index < samples@.len()
                &&& samples@[index as int]@.len() != query@.len()
                &&& forall|k: int|
                    0 <= k < index ==> (#[trigger] samples@[k])@.len() == query@.len()
            },
        },
{
    let ghost on = samples@.len() as int;
    let ghost ovs = views(samples@);
    if samples.len() == 0 {
        return Err(SearchError::EmptyInput);
    }
    match crate::scorer::check_dims(&samples, &query) {
        Some(index) => {
            return Err(SearchError::DimensionMismatch { index });
        },
        None => {},
    }
    let mut cur = samples;
    let mut idxs: Vec<usize> = Vec::new();
    let n0 = cur.len();
    let mut k: usize = 0;
    while k < n0
        invariant
            k <= n0,
            idxs@.len() == k,
            forall|j: int| 0 <= j < k ==> #[trigger] idxs@[j] == j,
        decreases n0 - k,
    {
        idxs.push(k);
        k = k + 1;
    }
    proof {
        assert(views(cur@) == ovs);
        lemma_best_in_prefix_props(metric, ovs, query@, on);
        assert(idxs@[best_index(metric, ovs, query@)] == best_index(metric, ovs, query@));
        assert forall|j: int| 0 <= j < cur@.len() implies (#[trigger] cur@[j])@
            == ovs[idxs@[j] as int] by {
            assert(idxs@[j] == j);
            assert(ovs[j] == cur@[j]@);
        }
    }
    while cur.len() > batch_size
        invariant
            batch_size >= 1,
            batch_size >= 2 || cur@.len() <= batch_size,
            1 <= cur@.len(),
            idxs@.len() == cur@.len(),
            on == ovs.len(),
            1 <= on,
            forall|j: int| 0 <= j < on ==> (#[trigger] ovs[j]).len() == query@.len(),
            forall|j: int| 0 <= j < cur@.len() ==> #[trigger] idxs@[j] < on,
            forall|j: int| 0 <= j < cur@.len() ==> (#[trigger] cur@[j])@ == ovs[idxs@[j] as int],
            forall|j1: int, j2: int|
                #![trigger idxs@[j1], idxs@[j2]]
                0 <= j1 < j2 < cur@.len() ==> idxs@[j1] < idxs@[j2],
            0 <= best_index(metric, views(cur@), query@) < cur@.len(),
            idxs@[best_index(metric, views(cur@), query@)] == best_index(metric, ovs, query@),
        decreases cur@.len(),
    {
        let b = batch_size;
        let ghost cvs = views(cur@);
        proof {
            assert forall|j: int| 0 <= j < cur@.len() implies (#[trigger] cur@[j])@.len()
                == query@.len() by {
                assert(cur@[j]@ == ovs[idxs@[j] as int]);
            }
        }
        let ws = round_winners(&cur, &query, metric, b);
        let mut next: Vec<Vec<i32>> = Vec::new();
        let mut nidxs: Vec<usize> = Vec::new();
        let mut c: usize = 0;
        while c < ws.len()
            invariant
                c <= ws@.len(),
                next@.len() == c,
                nidxs@.len() == c,
                idxs@.len() == cur@.len(),
                cvs == views(cur@),
                cvs.len() == cur@.len() >= 1,
                b >= 1,
                ws@.len() == num_chunks(cur@.len() as int, b as int),
                winners_sound(metric, cvs, query@, b as int, ws@),
                forall|j: int| 0 <= j < c ==> (#[trigger] next@[j])@ == cur@[ws@[j] as int]@,
                forall|j: int| 0 <= j < c ==> #[trigger] nidxs@[j] == idxs@[ws@[j] as int],
            decreases ws@.len() - c,
        {
            proof {
                assert(c * (b as int) <= ws@[c as int] < chunk_hi(
                    c as int,
                    b as int,
                    cvs.len() as int,
                ));
            }
            let wi = ws[c];
            next.push(cur[wi].clone());
            nidxs.push(idxs[wi]);
            proof {
                assert(next@[c as int]@ =~= cur@[wi as int]@);
            }
            c = c + 1;
        }
        proof {
            let nvs = views(next@);
            assert forall|j: int| 0 <= j < ws@.len() implies #[trigger] nvs[j] == cvs[ws@[j] as int]
                by {
                assert(next@[j]@ == cur@[ws@[j] as int]@);
            }
            assert forall|j: int| 0 <= j < cvs.len() implies (#[trigger] cvs[j]).len()
                == query@.len() by {
                assert(cvs[j] == cur@[j]@);
            }
            lemma_round_preserves_best(metric, cvs, query@, b as int, ws@, nvs);
            assert forall|j1: int, j2: int|
                #![trigger ws@[j1], ws@[j2]]
                0 <= j1 < j2 < ws@.len() implies ws@[j1] < ws@[j2] by {
                assert(ws@[j1] < chunk_hi(j1, b as int, cvs.len() as int));
                assert(j1 * (b as int) + b == (j1 + 1) * (b as int)) by (nonlinear_arith);
                assert((j1 + 1) * (b as int) <= j2 * (b as int)) by (nonlinear_arith)
                    requires
                        j1 + 1 <= j2 && b >= 1,
                ;
                assert(j2 * (b as int) <= ws@[j2]);
            }
            let l = best_index(metric, nvs, query@);
            assert(nidxs@[l] == idxs@[ws@[l] as int]);
            assert(nidxs@[l] == best_index(metric, ovs, query@));
            // One round strictly shrinks a working set larger than one chunk.
            let n = cur@.len() as int;
            assert(b >= 2);
            vstd::arithmetic::div_mod::lemma_div_is_ordered_by_denominator(n - 1, 2, b as int);
            vstd::arithmetic::div_mod::lemma_div_is_strictly_smaller(n - 1, 2);
            assert(num_chunks(n, b as int) < n);
        }
        cur = next;
        idxs = nidxs;
    }
    proof {
        assert forall|j: int| 0 <= j < cur@.len() implies (#[trigger] cur@[j])@.len()
            == query@.len() by {
            assert(cur@[j]@ == ovs[idxs@[j] as int]);
        }
    }
    let li = best_in_range(&cur, &query, metric, 0, cur.len());
    let g = idxs[li];
    let w = cur[li].clone();
    proof {
        let cvs = views(cur@);
        lemma_best_in_prefix_props(metric, cvs, query@, cvs.len() as int);
        lemma_best_unique(metric, cvs, query@, li as int, best_index(metric, cvs, query@));
        assert(w@ =~= cur@[li as int]@);
        assert(g == best_index(metric, ovs, query@));
        lemma_best_in_prefix_props(metric, ovs, query@, on);
        assert(w@ == ovs[g as int]);
        assert forall|j: int| 0 <= j < on implies ovs[j] == (#[trigger] samples@[j])@ by {}
    }
    Ok((g, w))
}

/// How many scoring rounds a reduction of `n` samples with chunks of
/// size `b` performs: one while the set fits one chunk, else one more
/// than the reduction of the `ceil(n / b)` survivors takes.  (With
/// `b == 1` a larger set could never shrink; that configuration is not
/// meaningful and is mapped to zero.)
pub open spec fn round_count(n: int, b: int) -> int
    decreases n,
    when n >= 0
    via round_count_decreases
{
    if n <= b {
        1
    } else if b <= 1 {
        0
    } else {
        1 + round_count((n - 1) / b + 1, b)
    }
}

#[via_fn]
proof fn round_count_decreases(n: int, b: int) {
    if n > b && b >= 2 {
        vstd::arithmetic::div_mod::lemma_div_is_ordered_by_denominator(n - 1, 2, b);
        vstd::arithmetic::div_mod::lemma_div_is_strictly_smaller(n - 1, 2);
    }
}

/// The number of rounds `iterative_similarity_search` performs on `n`
/// samples with the given batch size.
pub fn tournament_round_count(n: usize, batch_size: usize) -> (r: usize)
    requires
        1 <= n,
        1 <= batch_size,
        batch_size >= 2 || n <= batch_size,
    ensures
        r as int == round_count(n as int, batch_size as int),
{
    let mut r: usize = 1;
    let mut m: usize = n;
    while m > batch_size
        invariant
            1 <= m <= n,
            1 <= r,
            batch_size >= 2 || m <= batch_size,
            r as int <= n - m + 1,
            round_count(n as int, batch_size as int) == r - 1 + round_count(
                m as int,
                batch_size as int,
            ),
        decreases m,
    {
        proof {
            vstd::arithmetic::div_mod::lemma_div_is_ordered_by_denominator(
                m - 1,
                2,
                batch_size as int,
            );
            vstd::arithmetic::div_mod::lemma_div_is_strictly_smaller(m - 1, 2);
        }
        m = (m - 1) / batch_size + 1;
        r = r + 1;
    }
    r
}

/// At least one scoring round always runs.
pub proof fn lemma_round_count_at_least_one(n: int, b: int)
    requires
        1 <= n,
        2 <= b,
    ensures
        round_count(n, b) >= 1,
    decreases n,
{
    if n > b {
        vstd::arithmetic::div_mod::lemma_div_is_ordered_by_denominator(n - 1, 2, b);
        vstd::arithmetic::div_mod::lemma_div_is_strictly_smaller(n - 1, 2);
        vstd::arithmetic::div_mod::lemma_div_pos_is_pos(n - 1, b);
        lemma_round_count_at_least_one((n - 1) / b + 1, b);
    }
}

/// The round count is the base-`b` ceiling logarithm: for `n` beyond
/// one chunk, `b^(r-1) < n <= b^r`; one round suffices for `n <= b`.
pub proof fn lemma_round_count_is_log_ceil(n: int, b: int)
    requires
        2 <= b,
        b < n,
    ensures
        pow(b, (round_count(n, b) - 1) as nat) < n,
        n <= pow(b, round_count(n, b) as nat),
    decreases n,
{
    let m = (n - 1) / b + 1;
    vstd::arithmetic::div_mod::lemma_div_is_ordered_by_denominator(n - 1, 2, b);
    vstd::arithmetic::div_mod::lemma_div_is_strictly_smaller(n - 1, 2);
    vstd::arithmetic::div_mod::lemma_fundamental_div_mod(n - 1, b);
    vstd::arithmetic::div_mod::lemma_remainder_lower(n - 1, b);
    vstd::arithmetic::div_mod::lemma_remainder_upper(n - 1, b);
    vstd::arithmetic::div_mod::lemma_div_is_ordered(b, n - 1, b);
    assert(b / b == 1) by {
        vstd::arithmetic::div_mod::lemma_div_by_self(b);
    }
    assert(m >= 2);
    let r = round_count(n, b);
    assert(round_count(n, b) == 1 + round_count(m, b));
    if m <= b {
        assert(round_count(m, b) == 1);
        assert(r == 2);
        assert(pow(b, 1nat) == b) by {
            vstd::arithmetic::power::lemma_pow1(b);
        }
        assert(pow(b, 2nat) == pow(b, 1nat) * pow(b, 1nat)) by {
            vstd::arithmetic::power::lemma_pow_adds(b, 1nat, 1nat);
        }
        // n - 1 <= b * (m - 1) + (b - 1) <= b * b - 1
        assert(b * ((n - 1) / b) <= b * (b - 1)) by (nonlinear_arith)
            requires
                (n - 1) / b <= b - 1 && b >= 2,
        ;
        assert(b * (b - 1) + (b - 1) == b * b - 1) by (nonlinear_arith);
    } else {
        lemma_round_count_is_log_ceil(m, b);
        lemma_round_count_at_least_one(m, b);
        let r1 = round_count(m, b);
        assert(r == 1 + r1);
        assert(r1 >= 1);
        // n <= b * m <= b * pow(b, r1) == pow(b, r1 + 1)
        assert(n <= b * m) by (nonlinear_arith)
            requires
                n - 1 == b * ((n - 1) / b) + (n - 1) % b && 0 <= (n - 1) % b < b && m == (n - 1)
                    / b + 1,
        ;
        assert(b * pow(b, r1 as nat) == pow(b, (r1 + 1) as nat)) by {
            vstd::arithmetic::power::lemma_pow1(b);
            vstd::arithmetic::power::lemma_pow_adds(b, 1nat, r1 as nat);
        }
        vstd::arithmetic::mul::lemma_mul_inequality(m, pow(b, r1 as nat), b);
        assert(m * b <= pow(b, r1 as nat) * b);
        assert(m * b == b * m && pow(b, r1 as nat) * b == b * pow(b, r1 as nat))
            by (nonlinear_arith);
        // pow(b, r1) < n: the previous round's set already exceeded it
        assert(b * pow(b, (r1 - 1) as nat) <= b * ((n - 1) / b)) by (nonlinear_arith)
            requires
                pow(b, (r1 - 1) as nat) <= (n - 1) / b && b >= 2,
        ;
        assert(b * ((n - 1) / b) <= n - 1);
        assert(b * pow(b, (r1 - 1) as nat) == pow(b, r1 as nat)) by {
            vstd::arithmetic::power::lemma_pow1(b);
            vstd::arithmetic::power::lemma_pow_adds(b, 1nat, (r1 - 1) as nat);
        }
    }
}

/// The reduction is deterministic: any two outcomes that meet the
/// observable contract — a winner index whose score no sample beats,
/// every earlier sample scoring strictly worse, and the winning vector
/// taken at that index — are one and the same.
pub proof fn lemma_reduction_deterministic(
    m: Metric,
    vs: Seq<Seq<i32>>,
    q: Seq<i32>,
    g1: usize,
    w1: Seq<i32>,
    g2: usize,
    w2: Seq<i32>,
)
    requires
        g1 < vs.len(),
        w1 == vs[g1 as int],
        forall|k: int|
            0 <= k < vs.len() ==> !beats(m, #[trigger] score(m, vs[k], q), score(m, vs[g1 as int], q)),
        forall|k: int|
            0 <= k < g1 ==> beats(m, score(m, vs[g1 as int], q), #[trigger] score(m, vs[k], q)),
        g2 < vs.len(),
        w2 == vs[g2 as int],
        forall|k: int|
            0 <= k < vs.len() ==> !beats(m, #[trigger] score(m, vs[k], q), score(m, vs[g2 as int], q)),
        forall|k: int|
            0 <= k < g2 ==> beats(m, score(m, vs[g2 as int], q), #[trigger] score(m, vs[k], q)),
    ensures
        g1 == g2,
        w1 == w2,
{
    lemma_best_unique(m, vs, q, g1 as int, g2 as int);
}

} // verus!
