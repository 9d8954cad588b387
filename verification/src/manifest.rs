//! Manifest building: one route record per page file, sorted by descending
//! specificity score with discovery order kept among equal scores.

use vstd::prelude::*;
use crate::pattern::{route_path_to_regex_pattern, spec_compile_route};
use crate::score::{calculate_route_score, kinds_of, spec_score};
use crate::segments::{
    file_path_to_route_path, parse_route_segments, segs_view, spec_parse_route_segments,
    spec_route_path,
};
use crate::types::{RecordView, RouteManifest, RouteRecord, SegView, records_view};

verus! {

/// The longest page file path a manifest accepts; keeps every derived
/// score within `i32`.
pub const MAX_PAGE_PATH: usize = 10_000_000;

/// The parameter names of a segment sequence, in capture order.
pub open spec fn names_of(segs: Seq<SegView>) -> Seq<Seq<char>>
    decreases segs.len(),
{
    if segs.len() == 0 {
        Seq::empty()
    } else {
        (match segs[0].param_name {
            Some(n) => seq![n],
            None => Seq::<Seq<char>>::empty(),
        }) + names_of(segs.drop_first())
    }
}

pub proof fn lemma_names_of_push(segs: Seq<SegView>, x: SegView)
    ensures
        names_of(segs.push(x)) == names_of(segs) + (match x.param_name {
            Some(n) => seq![n],
            None => Seq::<Seq<char>>::empty(),
        }),
    decreases segs.len(),
{
    let tail = match x.param_name {
        Some(n) => seq![n],
        None => Seq::<Seq<char>>::empty(),
    };
    if segs.len() == 0 {
        assert(segs.push(x).drop_first() =~= Seq::<SegView>::empty());
        assert(names_of(Seq::<SegView>::empty()) =~= Seq::<Seq<char>>::empty());
        assert(segs.push(x)[0] == x);
        assert(names_of(segs.push(x)) =~= tail);
        assert(names_of(segs) + tail =~= tail);
    } else {
        assert(segs.push(x).drop_first() =~= segs.drop_first().push(x));
        lemma_names_of_push(segs.drop_first(), x);
        assert(segs.push(x)[0] == segs[0]);
        let head = match segs[0].param_name {
            Some(n) => seq![n],
            None => Seq::<Seq<char>>::empty(),
        };
        assert(head + (names_of(segs.drop_first()) + tail) =~= (head + names_of(
            segs.drop_first(),
        )) + tail);
    }
}

/// The record derived for one page file: its route path, matcher source,
/// parameter names, score, and the file it came from.
pub open spec fn spec_record_for(file: Seq<char>, root: Seq<char>) -> RecordView {
    let path = spec_route_path(file, root);
    let segs = spec_parse_route_segments(path);
    RecordView {
        path,
        regex: spec_compile_route(path),
        param_names: names_of(segs),
        score: spec_score(kinds_of(segs)),
        file_path: file,
    }
}

/// Derive, classify, score and compile one page file into its route record.
pub fn build_route_record(file_path: &str, pages_dir: &str) -> (r: RouteRecord)
    requires
        file_path@.len() <= MAX_PAGE_PATH,
    ensures
        r@ == spec_record_for(file_path@, pages_dir@),
{
    let route_path = file_path_to_route_path(file_path, pages_dir);
    let segments = parse_route_segments(route_path.as_str());
    let ghost segs = segs_view(segments@);
    let n: usize = segments.len();
    let mut param_names: Vec<String> = Vec::new();
    let mut i: usize = 0;
    while i < n
        invariant
            n == segments@.len(),
            segs == segs_view(segments@),
            i <= n,
            param_names@.map_values(|s: String| s@) == names_of(segs.take(i as int)),
        decreases n - i,
    {
        proof {
            assert(segs[i as int] == segments@[i as int]@);
            lemma_names_of_push(segs.take(i as int), segs[i as int]);
            assert(segs.take(i as int).push(segs[i as int]) =~= segs.take(i + 1));
        }
        match &segments[i].param_name {
            Some(name) => {
                param_names.push(name.clone());
                proof {
                    assert(param_names@.map_values(|s: String| s@) =~= param_names@.drop_last(
                    ).map_values(|s: String| s@) + seq![param_names@.last()@]);
                }
            },
            None => {
                proof {
                    assert(names_of(segs.take(i + 1)) =~= names_of(segs.take(i as int)));
                }
            },
        }
        i = i + 1;
    }
    proof {
        assert(segs.take(n as int) =~= segs);
    }
    let score = calculate_route_score(&segments);
    let regex = route_path_to_regex_pattern(route_path.as_str());
    let source = file_path.to_owned();
    let r = RouteRecord { path: route_path, regex, param_names, score, file_path: source };
    proof {
        assert(r@ =~= spec_record_for(file_path@, pages_dir@));
    }
    r
}

/// Position at which a record of score `sc` is inserted: after every record
/// scoring at least `sc`, before the first scoring less.
pub open spec fn ins_pos(rs: Seq<RecordView>, sc: int) -> int
    decreases rs.len(),
{
    if rs.len() == 0 {
        0
    } else if rs[0].score < sc {
        0
    } else {
        1 + ins_pos(rs.drop_first(), sc)
    }
}

pub proof fn lemma_ins_pos(rs: Seq<RecordView>, sc: int)
    ensures
        0 <= ins_pos(rs, sc) <= rs.len(),
        forall|j: int| 0 <= j < ins_pos(rs, sc) ==> rs[j].score >= sc,
        ins_pos(rs, sc) < rs.len() ==> rs[ins_pos(rs, sc)].score < sc,
    decreases rs.len(),
{
    if rs.len() != 0 && rs[0].score >= sc {
        lemma_ins_pos(rs.drop_first(), sc);
        assert forall|j: int| 0 <= j < ins_pos(rs, sc) implies rs[j].score >= sc by {
            if j >= 1 {
                assert(rs[j] == rs.drop_first()[j - 1]);
            }
        }
    }
}

pub proof fn lemma_ins_pos_is(rs: Seq<RecordView>, sc: int, p: int)
    requires
        0 <= p <= rs.len(),
        forall|j: int| 0 <= j < p ==> rs[j].score >= sc,
        p < rs.len() ==> rs[p].score < sc,
    ensures
        ins_pos(rs, sc) == p,
    decreases rs.len(),
{
    if rs.len() != 0 && rs[0].score >= sc {
        assert(forall|j: int| 0 <= j < p - 1 ==> rs.drop_first()[j].score >= sc);
        lemma_ins_pos_is(rs.drop_first(), sc, p - 1);
    }
}

/// The list with `x` inserted at its stable position.
pub open spec fn spec_insert_record(rs: Seq<RecordView>, x: RecordView) -> Seq<RecordView> {
    let p = ins_pos(rs, x.score);
    rs.take(p) + seq![x] + rs.skip(p)
}

/// The records sorted by descending score: each record, in discovery order,
/// inserted after every earlier record scoring at least as much.
pub open spec fn spec_sort_records(rs: Seq<RecordView>) -> Seq<RecordView>
    decreases rs.len(),
{
    if rs.len() == 0 {
        Seq::empty()
    } else {
        spec_insert_record(spec_sort_records(rs.drop_last()), rs.last())
    }
}

/// Scores never increase along the list.
pub open spec fn sorted_desc(rs: Seq<RecordView>) -> bool {
    forall|i: int, j: int| 0 <= i <= j < rs.len() ==> rs[i].score >= rs[j].score
}

pub proof fn lemma_insert_keeps_sorted(rs: Seq<RecordView>, x: RecordView)
    requires
        sorted_desc(rs),
    ensures
        sorted_desc(spec_insert_record(rs, x)),
        spec_insert_record(rs, x).len() == rs.len() + 1,
{
    let p = ins_pos(rs, x.score);
    lemma_ins_pos(rs, x.score);
    let out = spec_insert_record(rs, x);
    assert forall|i: int, j: int| 0 <= i <= j < out.len() implies out[i].score >= out[j].score by {
        assert(forall|k: int| 0 <= k < p ==> out[k] == rs[k]);
        assert(out[p] == x);
        assert(forall|k: int| p < k < out.len() ==> out[k] == rs[k - 1]);
        if i < p && j > p {
            assert(rs[i].score >= rs[p].score);
        }
        if i == p && j > p {
            assert(rs[j - 1].score <= rs[p].score);
        }
    }
}

/// Manifest ordering: sorting keeps every record and never puts a
/// lower-scoring record before a higher-scoring one, so any two routes with
/// different scores stand in descending-score order.
pub proof fn lemma_sort_records_sorted(rs: Seq<RecordView>)
    ensures
        sorted_desc(spec_sort_records(rs)),
        spec_sort_records(rs).len() == rs.len(),
    decreases rs.len(),
{
    if rs.len() != 0 {
        lemma_sort_records_sorted(rs.drop_last());
        lemma_insert_keeps_sorted(spec_sort_records(rs.drop_last()), rs.last());
    }
}

/// The records of one score, as a predicate.
pub open spec fn score_is(s: int) -> spec_fn(RecordView) -> bool {
    |r: RecordView| r.score == s
}

pub proof fn lemma_insert_filter(rs: Seq<RecordView>, x: RecordView, s: int)
    requires
        sorted_desc(rs),
    ensures
        x.score == s ==> spec_insert_record(rs, x).filter(score_is(s)) == rs.filter(
            score_is(s),
        ).push(x),
        x.score != s ==> spec_insert_record(rs, x).filter(score_is(s)) == rs.filter(score_is(s)),
{
    let p = ins_pos(rs, x.score);
    lemma_ins_pos(rs, x.score);
    let pred = score_is(s);
    let a = rs.take(p);
    let b = rs.skip(p);
    Seq::filter_distributes_over_add(a, seq![x], pred);
    Seq::filter_distributes_over_add(a + seq![x], b, pred);
    Seq::filter_distributes_over_add(a, b, pred);
    assert(rs =~= a + b);
    assert(spec_insert_record(rs, x).filter(pred) == a.filter(pred) + seq![x].filter(pred)
        + b.filter(pred));
    reveal(Seq::filter);
    assert(seq![x].drop_last() =~= Seq::<RecordView>::empty());
    assert(Seq::<RecordView>::empty().filter(pred) =~= Seq::<RecordView>::empty());
    if pred(x) {
        assert(seq![x].filter(pred) =~= seq![x]);
    } else {
        assert(seq![x].filter(pred) =~= Seq::<RecordView>::empty());
    }
    if x.score == s {
        // Everything after the insertion point scores strictly less than
        // `x`, so the suffix holds no record of this score.
        assert forall|k: int| 0 <= k < b.len() implies !pred(b[k]) by {
            assert(b[k] == rs[p + k]);
            assert(rs[p].score < x.score);
            assert(rs[p + k].score <= rs[p].score);
        }
        assert(b.all(|r: RecordView| !pred(r)));
        b.lemma_all_neg_filter_empty(pred);
        assert(b.filter(pred) =~= Seq::<RecordView>::empty());
        assert(spec_insert_record(rs, x).filter(pred) =~= rs.filter(pred).push(x));
    } else {
        assert(spec_insert_record(rs, x).filter(pred) =~= rs.filter(pred));
    }
}

/// Ties keep discovery order: for every score, the records of that score
/// stand in the sorted list exactly as they stand in the input.
pub proof fn lemma_sort_records_stable(rs: Seq<RecordView>, s: int)
    ensures
        spec_sort_records(rs).filter(score_is(s)) == rs.filter(score_is(s)),
    decreases rs.len(),
{
    let pred = score_is(s);
    if rs.len() == 0 {
        assert(rs.filter(pred) =~= spec_sort_records(rs).filter(pred));
    } else {
        lemma_sort_records_stable(rs.drop_last(), s);
        lemma_sort_records_sorted(rs.drop_last());
        lemma_insert_filter(spec_sort_records(rs.drop_last()), rs.last(), s);
        reveal(Seq::filter);
    }
}

/// Sort records by descending score, keeping discovery order among equal
/// scores.
fn sort_records_desc(records: Vec<RouteRecord>) -> (r: Vec<RouteRecord>)
    ensures
        records_view(r@) == spec_sort_records(records_view(records@)),
{
    let ghost rv = records_view(records@);
    let mut input = records;
    let mut out: Vec<RouteRecord> = Vec::new();
    let ghost mut i: int = 0;
    proof {
        assert(rv.skip(0) =~= rv);
        assert(records_view(out@) =~= spec_sort_records(rv.take(0)));
    }
    while input.len() > 0
        invariant
            0 <= i <= rv.len(),
            records_view(input@) == rv.skip(i as int),
            records_view(out@) == spec_sort_records(rv.take(i as int)),
        decreases input.len(),
    {
        let ghost pre = records_view(input@);
        let rec = input.remove(0);
        proof {
            assert(pre.len() == rv.skip(i).len());
            assert(pre.len() >= 1);
            assert(i < rv.len());
            assert(pre.drop_first() =~= records_view(input@));
            assert(rv.skip(i)[0] == rec@);
            assert(rv.skip(i).drop_first() =~= rv.skip(i + 1));
        }
        let m: usize = out.len();
        let mut p: usize = 0;
        while p < m && out[p].score >= rec.score
            invariant
                m == out@.len(),
                p <= m,
                forall|j: int| 0 <= j < p ==> records_view(out@)[j].score >= rec@.score,
            decreases m - p,
        {
            proof {
                assert(records_view(out@)[p as int] == out@[p as int]@);
            }
            p = p + 1;
        }
        proof {
            if p < m {
                assert(records_view(out@)[p as int] == out@[p as int]@);
            }
            lemma_ins_pos_is(records_view(out@), rec@.score, p as int);
        }
        let ghost outv = records_view(out@);
        out.insert(p, rec);
        proof {
            assert(records_view(out@) =~= outv.take(p as int) + seq![rv.skip(i)[0]]
                + outv.skip(p as int));
            assert(rv.take(i + 1).drop_last() =~= rv.take(i));
            assert(rv.take(i + 1).last() == rv[i]);
            assert(rv[i] == rv.skip(i)[0]);
            assert(records_view(out@) == spec_sort_records(rv.take(i + 1)));
            i = i + 1;
        }
    }
    proof {
        assert(records_view(input@).len() == input@.len());
        assert(rv.skip(i).len() == 0);
        assert(rv.take(i) =~= rv);
    }
    out
}

/// Build the priority-ordered route records for a list of discovered page
/// files: one record per file, in descending score order, ties keeping the
/// given discovery order.
pub fn generate_route_manifest(pages: &Vec<String>, pages_dir: &str) -> (r: Vec<RouteRecord>)
    requires
        forall|i: int| 0 <= i < pages@.len() ==> pages@[i]@.len() <= MAX_PAGE_PATH,
    ensures
        records_view(r@) == spec_sort_records(
            pages@.map_values(|p: String| spec_record_for(p@, pages_dir@)),
        ),
{
    let ghost mapped = pages@.map_values(|p: String| spec_record_for(p@, pages_dir@));
    let n: usize = pages.len();
    let mut defs: Vec<RouteRecord> = Vec::new();
    let mut i: usize = 0;
    while i < n
        invariant
            n == pages@.len(),
            mapped == pages@.map_values(|p: String| spec_record_for(p@, pages_dir@)),
            forall|t: int| 0 <= t < pages@.len() ==> pages@[t]@.len() <= MAX_PAGE_PATH,
            i <= n,
            records_view(defs@) == mapped.take(i as int),
        decreases n - i,
    {
        let rec = build_route_record(pages[i].as_str(), pages_dir);
        let ghost dv = records_view(defs@);
        let ghost recv = rec@;
        defs.push(rec);
        proof {
            assert(mapped[i as int] == spec_record_for(pages@[i as int]@, pages_dir@));
            assert(records_view(defs@) =~= dv.push(recv));
            assert(mapped.take(i + 1) =~= mapped.take(i as int).push(mapped[i as int]));
        }
        i = i + 1;
    }
    proof {
        assert(mapped.take(n as int) =~= mapped);
    }
    sort_records_desc(defs)
}

impl RouteManifest {
    /// Assemble a manifest from sorted records and a generation timestamp.
    pub fn new(routes: Vec<RouteRecord>, generated_at: i64) -> (m: RouteManifest)
        ensures
            m@.routes == records_view(routes@),
            m@.generated_at == generated_at as int,
    {
        RouteManifest { routes, generated_at }
    }
}

} // verus!
