//! Specificity scoring: orders routes from most to least specific.
//!
//! A static segment contributes 10 points plus a 2-point static bonus, a
//! dynamic segment 5, a catch-all 1, an optional catch-all 0; the root route
//! (no segments) has the fixed score 100.

use vstd::prelude::*;
use crate::segments::segs_view;
use crate::types::{ParsedSegment, SegView, SegmentType};

verus! {

/// The most segments one route may score; keeps the score within `i32`.
pub const MAX_SCORED_SEGMENTS: usize = 100_000_000;

/// Points of one segment, its static bonus folded in.
pub open spec fn seg_points(t: SegmentType) -> int {
    match t {
        SegmentType::Static => 12,
        SegmentType::Dynamic => 5,
        SegmentType::CatchAll => 1,
        SegmentType::OptionalCatchAll => 0,
    }
}

/// Sum of the points of a segment-kind sequence.
pub open spec fn points_sum(ks: Seq<SegmentType>) -> int
    decreases ks.len(),
{
    if ks.len() == 0 {
        0
    } else {
        seg_points(ks[0]) + points_sum(ks.drop_first())
    }
}

/// The specificity score of a route with the given segment kinds: the fixed
/// root score for an empty sequence, otherwise the sum of segment points.
pub open spec fn spec_score(ks: Seq<SegmentType>) -> int {
    if ks.len() == 0 {
        100
    } else {
        points_sum(ks)
    }
}

/// The kinds of a segment sequence.
pub open spec fn kinds_of(segs: Seq<SegView>) -> Seq<SegmentType> {
    segs.map_values(|s: SegView| s.segment_type)
}

pub proof fn lemma_points_sum_push(ks: Seq<SegmentType>, t: SegmentType)
    ensures
        points_sum(ks.push(t)) == points_sum(ks) + seg_points(t),
    decreases ks.len(),
{
    if ks.len() == 0 {
        assert(ks.push(t).drop_first() =~= Seq::<SegmentType>::empty());
        assert(points_sum(Seq::<SegmentType>::empty()) == 0);
    } else {
        assert(ks.push(t).drop_first() =~= ks.drop_first().push(t));
        lemma_points_sum_push(ks.drop_first(), t);
        assert(ks.push(t)[0] == ks[0]);
    }
}

pub proof fn lemma_points_sum_update(ks: Seq<SegmentType>, i: int, t: SegmentType)
    requires
        0 <= i < ks.len(),
    ensures
        points_sum(ks.update(i, t)) == points_sum(ks) - seg_points(ks[i]) + seg_points(t),
    decreases ks.len(),
{
    if i == 0 {
        assert(ks.update(0, t).drop_first() =~= ks.drop_first());
        assert(ks.update(0, t)[0] == t);
    } else {
        assert(ks.update(i, t).drop_first() =~= ks.drop_first().update(i - 1, t));
        lemma_points_sum_update(ks.drop_first(), i - 1, t);
        assert(ks.update(i, t)[0] == ks[0]);
        assert(ks.drop_first()[i - 1] == ks[i]);
    }
}

/// Scoring is monotonic in segment specificity: replacing a dynamic segment
/// by a static one, in an otherwise identical route, strictly increases the
/// score.
pub proof fn lemma_score_static_over_dynamic(ks: Seq<SegmentType>, i: int)
    requires
        0 <= i < ks.len(),
        ks[i] == SegmentType::Dynamic,
    ensures
        spec_score(ks.update(i, SegmentType::Static)) > spec_score(ks),
{
    lemma_points_sum_update(ks, i, SegmentType::Static);
}

/// Replacing a catch-all segment by an optional catch-all, in an otherwise
/// identical route, strictly decreases the score.
pub proof fn lemma_score_catchall_over_optional(ks: Seq<SegmentType>, i: int)
    requires
        0 <= i < ks.len(),
        ks[i] == SegmentType::CatchAll,
    ensures
        spec_score(ks.update(i, SegmentType::OptionalCatchAll)) < spec_score(ks),
{
    lemma_points_sum_update(ks, i, SegmentType::OptionalCatchAll);
}

/// Compute the specificity score of a classified segment sequence.
pub fn calculate_route_score(segments: &Vec<ParsedSegment>) -> (r: i32)
    requires
        segments@.len() <= MAX_SCORED_SEGMENTS,
    ensures
        r as int == spec_score(kinds_of(segs_view(segments@))),
{
    let ghost ks = kinds_of(segs_view(segments@));
    if segments.len() == 0 {
        return 100;
    }
    let n: usize = segments.len();
    let mut score: i32 = 0;
    let mut statics: i32 = 0;
    let mut i: usize = 0;
    while i < n
        invariant
            n == segments@.len() <= MAX_SCORED_SEGMENTS,
            ks == kinds_of(segs_view(segments@)),
            i <= n,
            0 <= statics as int <= i as int,
            0 <= score as int <= 10 * i as int,
            score as int + 2 * statics as int == points_sum(ks.take(i as int)),
        decreases n - i,
    {
        proof {
            assert(segs_view(segments@)[i as int] == segments@[i as int]@);
            assert(ks[i as int] == segs_view(segments@)[i as int].segment_type);
            lemma_points_sum_push(ks.take(i as int), ks[i as int]);
            assert(ks.take(i as int).push(ks[i as int]) =~= ks.take(i + 1));
        }
        match segments[i].segment_type {
            SegmentType::Static => {
                score = score + 10;
                statics = statics + 1;
            },
            SegmentType::Dynamic => {
                score = score + 5;
            },
            SegmentType::CatchAll => {
                score = score + 1;
            },
            SegmentType::OptionalCatchAll => {},
        }
        i = i + 1;
    }
    proof {
        assert(ks.take(n as int) =~= ks);
    }
    score + statics * 2
}

} // verus!
