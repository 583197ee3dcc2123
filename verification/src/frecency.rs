//! The frecency score: how often a note was visited, weighed by how long ago.
//!
//! A note visited `count` times, last `d` days ago, scores
//! `count * 100 / (d + 1)` points, where `d` may be a fraction of a day. The
//! library counts the score in millionths of a point, rounded down, so that
//! it stays within the integers.

use vstd::prelude::*;

verus! {

/// The seconds that have passed at `now` since `last`; none if `last` lies
/// ahead.
pub open spec fn elapsed_seconds(now: i64, last: i64) -> int {
    if now - last > 0 {
        now - last
    } else {
        0
    }
}

/// The score in millionths of a point, rounded down: with `e` seconds
/// elapsed, `count * 100 / (e / 86400 + 1)` points are
/// `count * 8_640_000_000_000 / (e + 86400)` millionths. A note that was
/// never visited scores nothing.
pub open spec fn frecency_micros(count: i64, last: Option<i64>, now: i64) -> int {
    match last {
        Some(at) => (count * 8_640_000_000_000) / (elapsed_seconds(now, at) + 86_400),
        None => 0,
    }
}

/// The score of a note at the moment of a visit: a hundred points for each
/// visit so far.
pub proof fn lemma_score_at_visit(count: i64, now: i64)
    requires
        count >= 0,
    ensures
        frecency_micros(count, Some(now), now) == count * 100_000_000,
{
    assert((count * 8_640_000_000_000) / 86_400 == count * 100_000_000) by (nonlinear_arith)
        requires
            count >= 0,
    ;
}

/// More time elapsed never gives a higher score.
pub proof fn lemma_score_fades(count: i64, last: i64, sooner: i64, later: i64)
    requires
        count >= 0,
        sooner <= later,
    ensures
        frecency_micros(count, Some(last), later) <= frecency_micros(count, Some(last), sooner),
        0 <= frecency_micros(count, Some(last), later),
{
    let n = count * 8_640_000_000_000;
    let small = elapsed_seconds(sooner, last) + 86_400;
    let large = elapsed_seconds(later, last) + 86_400;
    assert(n / large <= n / small && 0 <= n / large) by (nonlinear_arith)
        requires
            n >= 0,
            0 < small <= large,
    ;
}

/// The frecency score of a note visited `access_count` times, last at
/// `last_accessed_at`, as it stands at `now`, in millionths of a point.
pub fn calculate_frecency_score(access_count: i64, last_accessed_at: Option<i64>, now: i64) -> (score:
    i128)
    requires
        access_count >= 0,
    ensures
        score == frecency_micros(access_count, last_accessed_at, now),
        0 <= score <= access_count * 100_000_000,
{
    match last_accessed_at {
        Some(at) => {
            let gap: i128 = now as i128 - at as i128;
            let elapsed: i128 = if gap > 0 {
                gap
            } else {
                0
            };
            let weight: i128 = access_count as i128 * 8_640_000_000_000;
            let span: i128 = elapsed + 86_400;
            proof {
                assert(0 <= weight / span <= access_count * 100_000_000) by (nonlinear_arith)
                    requires
                        weight == access_count * 8_640_000_000_000,
                        access_count >= 0,
                        span >= 86_400,
                ;
            }
            weight / span
        },
        None => 0,
    }
}

} // verus!
