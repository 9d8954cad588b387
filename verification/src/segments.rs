//! Segment classification and route-path derivation.
//!
//! A route path is a `/`-joined sequence of notation segments: `:name` for a
//! dynamic segment, `*name` for a catch-all, `*name?` for an optional
//! catch-all, and literal text for a static segment. Route paths are derived
//! from `/`-separated page file paths using the bracket conventions
//! `[name]`, `[...name]` and `[[...name]]`, with `index` segments dropped.

use vstd::prelude::*;
use crate::text::{
    chars_to_string, chars_eq, join_with, lemma_join_with_len, lemma_split_on_lens,
    lemma_split_on_no_sep, lemma_split_join, lemma_sum_lens_nonneg, lemma_sum_lens_pointwise, lemma_sum_lens_skip,
    split_chars_from, split_on, str_to_chars, subvec, sum_lens, vecs_view,
};
use crate::types::{ParsedSegment, SegView, SegmentType};

verus! {

/// The characters of the literal segment name `index`.
pub open spec fn index_chars() -> Seq<char> {
    seq!['i', 'n', 'd', 'e', 'x']
}

/// Classification of one notation segment: its kind and parameter name.
pub open spec fn classify_notation(seg: Seq<char>) -> (SegmentType, Option<Seq<char>>) {
    if seg.len() >= 2 && seg[0] == '*' && seg[seg.len() - 1] == '?' {
        (SegmentType::OptionalCatchAll, Some(seg.subrange(1, seg.len() - 1)))
    } else if seg.len() >= 1 && seg[0] == '*' {
        (SegmentType::CatchAll, Some(seg.subrange(1, seg.len() as int)))
    } else if seg.len() >= 1 && seg[0] == ':' {
        (SegmentType::Dynamic, Some(seg.subrange(1, seg.len() as int)))
    } else {
        (SegmentType::Static, None)
    }
}

/// The parsed form of one non-empty notation segment.
pub open spec fn parsed_of(seg: Seq<char>) -> SegView {
    SegView {
        segment_type: classify_notation(seg).0,
        param_name: classify_notation(seg).1,
        raw: seg,
    }
}

/// Parse a sequence of notation segments, skipping empty ones.
pub open spec fn parsed_of_pieces(pieces: Seq<Seq<char>>) -> Seq<SegView>
    decreases pieces.len(),
{
    if pieces.len() == 0 {
        Seq::empty()
    } else if pieces[0].len() == 0 {
        parsed_of_pieces(pieces.drop_first())
    } else {
        seq![parsed_of(pieces[0])] + parsed_of_pieces(pieces.drop_first())
    }
}

pub proof fn lemma_parsed_of_pieces_push(p: Seq<Seq<char>>, x: Seq<char>)
    ensures
        parsed_of_pieces(p.push(x)) == parsed_of_pieces(p) + (if x.len() == 0 {
            Seq::<SegView>::empty()
        } else {
            seq![parsed_of(x)]
        }),
    decreases p.len(),
{
    let tail = if x.len() == 0 {
        Seq::<SegView>::empty()
    } else {
        seq![parsed_of(x)]
    };
    if p.len() == 0 {
        assert(p.push(x)[0] == x);
        assert(p.push(x).drop_first() =~= Seq::<Seq<char>>::empty());
        assert(parsed_of_pieces(Seq::<Seq<char>>::empty()) =~= Seq::<SegView>::empty());
        assert(parsed_of_pieces(p.push(x)) =~= tail);
        assert(parsed_of_pieces(p) + tail =~= tail);
    } else {
        assert(p.push(x).drop_first() =~= p.drop_first().push(x));
        lemma_parsed_of_pieces_push(p.drop_first(), x);
        assert(p.push(x)[0] == p[0]);
        if p[0].len() == 0 {
        } else {
            assert(seq![parsed_of(p[0])] + (parsed_of_pieces(p.drop_first()) + tail) =~= (seq![
                parsed_of(p[0]),
            ] + parsed_of_pieces(p.drop_first())) + tail);
        }
    }
}

pub proof fn lemma_parsed_of_pieces_len(p: Seq<Seq<char>>)
    ensures
        parsed_of_pieces(p).len() <= p.len(),
    decreases p.len(),
{
    if p.len() != 0 {
        lemma_parsed_of_pieces_len(p.drop_first());
    }
}

/// The segment sequence denoted by a route path: empty for the root route
/// `/`, otherwise the parse of each non-empty `/`-separated piece after the
/// leading `/`.
pub open spec fn spec_parse_route_segments(path: Seq<char>) -> Seq<SegView> {
    if path == seq!['/'] {
        Seq::<SegView>::empty()
    } else {
        parsed_of_pieces(split_on(path.skip(1), '/'))
    }
}

/// View of a vector of parsed segments.
pub open spec fn segs_view(v: Seq<ParsedSegment>) -> Seq<SegView> {
    v.map_values(|s: ParsedSegment| s@)
}

/// Parse one non-empty notation segment.
fn classify_piece(piece: &Vec<char>) -> (r: ParsedSegment)
    ensures
        r@ == parsed_of(piece@),
{
    let n: usize = piece.len();
    let raw = chars_to_string(piece);
    if n >= 2 && piece[0] == '*' && piece[n - 1] == '?' {
        let name = chars_to_string(&subvec(piece, 1, n - 1));
        ParsedSegment {
            segment_type: SegmentType::OptionalCatchAll,
            param_name: Some(name),
            raw,
        }
    } else if n >= 1 && piece[0] == '*' {
        let name = chars_to_string(&subvec(piece, 1, n));
        ParsedSegment { segment_type: SegmentType::CatchAll, param_name: Some(name), raw }
    } else if n >= 1 && piece[0] == ':' {
        let name = chars_to_string(&subvec(piece, 1, n));
        ParsedSegment { segment_type: SegmentType::Dynamic, param_name: Some(name), raw }
    } else {
        ParsedSegment { segment_type: SegmentType::Static, param_name: None, raw }
    }
}

/// Split a route path into its classified segments, in order.
///
/// The root route `/` has no segments; otherwise each non-empty
/// `/`-separated piece after the leading `/` is classified by its notation.
pub fn parse_route_segments(route_path: &str) -> (r: Vec<ParsedSegment>)
    requires
        route_path@.len() >= 1,
        route_path@[0] == '/',
    ensures
        segs_view(r@) == spec_parse_route_segments(route_path@),
        r@.len() <= route_path@.len(),
{
    let chars = str_to_chars(route_path);
    if chars.len() == 1 {
        proof {
            assert(route_path@ =~= seq!['/']);
        }
        Vec::new()
    } else {
        let pieces = split_chars_from(&chars, '/', 1);
        let n: usize = pieces.len();
        let mut r: Vec<ParsedSegment> = Vec::new();
        let mut i: usize = 0;
        while i < n
            invariant
                n == pieces@.len(),
                i <= n,
                segs_view(r@) == parsed_of_pieces(vecs_view(pieces@).take(i as int)),
                r@.len() <= i,
            decreases n - i,
        {
            proof {
                lemma_parsed_of_pieces_push(
                    vecs_view(pieces@).take(i as int),
                    vecs_view(pieces@)[i as int],
                );
                assert(vecs_view(pieces@).take(i as int).push(vecs_view(pieces@)[i as int])
                    =~= vecs_view(pieces@).take(i + 1));
            }
            if pieces[i].len() > 0 {
                let seg = classify_piece(&pieces[i]);
                r.push(seg);
                proof {
                    assert(segs_view(r@) =~= segs_view(r@.drop_last()) + seq![r@.last()@]);
                }
            }
            i = i + 1;
        }
        proof {
            assert(vecs_view(pieces@).take(n as int) =~= vecs_view(pieces@));
            assert(route_path@.len() >= 2 ==> route_path@ != seq!['/']);
            lemma_parsed_of_pieces_len(vecs_view(pieces@));
            lemma_split_on_lens(route_path@.skip(1), '/');
        }
        r
    }
}

/// Path components dropped while splitting a file path: empty pieces and
/// the current-directory marker.
pub open spec fn is_skipped_comp(c: Seq<char>) -> bool {
    c.len() == 0 || c == seq!['.']
}

/// The retained components of a split file path.
pub open spec fn kept_comps(pieces: Seq<Seq<char>>) -> Seq<Seq<char>>
    decreases pieces.len(),
{
    if pieces.len() == 0 {
        Seq::empty()
    } else if is_skipped_comp(pieces[0]) {
        kept_comps(pieces.drop_first())
    } else {
        seq![pieces[0]] + kept_comps(pieces.drop_first())
    }
}

pub proof fn lemma_kept_comps_lens(pieces: Seq<Seq<char>>)
    ensures
        kept_comps(pieces).len() <= pieces.len(),
        sum_lens(kept_comps(pieces)) <= sum_lens(pieces),
        forall|i: int| 0 <= i < kept_comps(pieces).len() ==> kept_comps(pieces)[i].len() >= 1,
    decreases pieces.len(),
{
    lemma_sum_lens_nonneg(pieces);
    if pieces.len() != 0 {
        lemma_kept_comps_lens(pieces.drop_first());
        if !is_skipped_comp(pieces[0]) {
            let rest = kept_comps(pieces.drop_first());
            assert((seq![pieces[0]] + rest).drop_first() =~= rest);
            assert(sum_lens(seq![pieces[0]] + rest) == pieces[0].len() + sum_lens(rest));
        }
    }
}

/// Index of the last `.` of `c` at a position `>= 1`, or `0` if there is
/// none; a leading `.` does not begin an extension.
pub open spec fn rfind_dot(c: Seq<char>) -> int
    decreases c.len(),
{
    if c.len() <= 1 {
        0
    } else if c[c.len() - 1] == '.' {
        c.len() - 1
    } else {
        rfind_dot(c.drop_last())
    }
}

pub proof fn lemma_rfind_dot_bounds(c: Seq<char>)
    ensures
        0 <= rfind_dot(c),
        rfind_dot(c) < c.len() || rfind_dot(c) == 0,
    decreases c.len(),
{
    if c.len() > 1 && c[c.len() - 1] != '.' {
        lemma_rfind_dot_bounds(c.drop_last());
    }
}

pub proof fn lemma_rfind_dot_found(c: Seq<char>, i: int)
    requires
        1 <= i < c.len(),
        c[i] == '.',
        forall|t: int| i < t < c.len() ==> c[t] != '.',
    ensures
        rfind_dot(c) == i,
    decreases c.len(),
{
    if c.len() - 1 > i {
        assert(forall|t: int| i < t < c.drop_last().len() ==> c.drop_last()[t] != '.');
        assert(c.drop_last()[i] == c[i]);
        lemma_rfind_dot_found(c.drop_last(), i);
    }
}

pub proof fn lemma_rfind_dot_none(c: Seq<char>)
    requires
        forall|t: int| 1 <= t < c.len() ==> c[t] != '.',
    ensures
        rfind_dot(c) == 0,
    decreases c.len(),
{
    if c.len() > 1 {
        assert(c[c.len() - 1] != '.');
        assert(forall|t: int| 1 <= t < c.drop_last().len() ==> c.drop_last()[t] == c[t]);
        lemma_rfind_dot_none(c.drop_last());
    }
}

/// The component with its file extension removed: everything before the
/// last `.` at a position `>= 1`; a name whose only `.` leads is kept whole.
pub open spec fn strip_ext(c: Seq<char>) -> Seq<char> {
    if rfind_dot(c) >= 1 {
        c.take(rfind_dot(c))
    } else {
        c
    }
}

/// The bracket-rewrite of one file-path component into route notation:
/// `[[...name]]` to `*name?`, `[...name]` to `*name`, `[name]` to `:name`,
/// anything else kept literally.
pub open spec fn rewrite_comp(c: Seq<char>) -> Seq<char> {
    if c.len() >= 7 && c.subrange(0, 5) == seq!['[', '[', '.', '.', '.'] && c.subrange(
        c.len() - 2,
        c.len() as int,
    ) == seq![']', ']'] {
        seq!['*'] + c.subrange(5, c.len() - 2) + seq!['?']
    } else if c.len() >= 5 && c.subrange(0, 4) == seq!['[', '.', '.', '.'] && c[c.len() - 1]
        == ']' {
        seq!['*'] + c.subrange(4, c.len() - 1)
    } else if c.len() >= 2 && c[0] == '[' && c[c.len() - 1] == ']' {
        seq![':'] + c.subrange(1, c.len() - 1)
    } else {
        c
    }
}

pub proof fn lemma_rewrite_comp_len(c: Seq<char>)
    ensures
        rewrite_comp(c).len() <= c.len(),
{
}

/// The notation segments of the retained components: `index` components are
/// dropped, the rest bracket-rewritten.
pub open spec fn route_segs_of_comps(comps: Seq<Seq<char>>) -> Seq<Seq<char>>
    decreases comps.len(),
{
    if comps.len() == 0 {
        Seq::empty()
    } else if comps[0] == index_chars() {
        route_segs_of_comps(comps.drop_first())
    } else {
        seq![rewrite_comp(comps[0])] + route_segs_of_comps(comps.drop_first())
    }
}

pub proof fn lemma_route_segs_lens(comps: Seq<Seq<char>>)
    ensures
        route_segs_of_comps(comps).len() <= comps.len(),
        sum_lens(route_segs_of_comps(comps)) <= sum_lens(comps),
    decreases comps.len(),
{
    lemma_sum_lens_nonneg(comps);
    if comps.len() != 0 {
        lemma_route_segs_lens(comps.drop_first());
        if comps[0] != index_chars() {
            let rest = route_segs_of_comps(comps.drop_first());
            lemma_rewrite_comp_len(comps[0]);
            assert((seq![rewrite_comp(comps[0])] + rest).drop_first() =~= rest);
            assert(sum_lens(seq![rewrite_comp(comps[0])] + rest) == rewrite_comp(comps[0]).len()
                + sum_lens(rest));
        }
    }
}

/// The retained components of a `/`-separated path.
pub open spec fn comps_of(path: Seq<char>) -> Seq<Seq<char>> {
    kept_comps(split_on(path, '/'))
}

/// The components of the file path relative to the pages root: the root's
/// components are removed where they are a prefix, otherwise the file path
/// stands as it is.
pub open spec fn rel_comps(fc: Seq<Seq<char>>, rc: Seq<Seq<char>>) -> Seq<Seq<char>> {
    if rc.len() <= fc.len() && fc.subrange(0, rc.len() as int) == rc {
        fc.skip(rc.len() as int)
    } else {
        fc
    }
}

/// The components a route is derived from: relative to the root, with the
/// extension stripped from the final component.
pub open spec fn derived_comps(file: Seq<char>, root: Seq<char>) -> Seq<Seq<char>> {
    let r = rel_comps(comps_of(file), comps_of(root));
    if r.len() == 0 {
        r
    } else {
        r.update(r.len() - 1, strip_ext(r.last()))
    }
}

/// The canonical route path derived from a file path and a pages root:
/// the notation segments joined with `/` behind a leading `/`; an empty
/// segment list yields the root route `/`.
pub open spec fn spec_route_path(file: Seq<char>, root: Seq<char>) -> Seq<char> {
    seq!['/'] + join_with(route_segs_of_comps(derived_comps(file, root)), '/')
}

pub proof fn lemma_join_with_push(p: Seq<Seq<char>>, x: Seq<char>, sep: char)
    ensures
        join_with(p.push(x), sep) == if p.len() == 0 {
            x
        } else {
            join_with(p, sep) + seq![sep] + x
        },
    decreases p.len(),
{
    if p.len() == 0 {
        assert(p.push(x)[0] == x);
        assert(join_with(p.push(x), sep) =~= x);
    } else if p.len() == 1 {
        assert(p.push(x).drop_first() =~= seq![x]);
        assert(join_with(seq![x], sep) == x);
        assert(join_with(p.push(x), sep) =~= p[0] + seq![sep] + x);
    } else {
        assert(p.push(x).drop_first() =~= p.drop_first().push(x));
        lemma_join_with_push(p.drop_first(), x, sep);
        assert(p.push(x)[0] == p[0]);
        assert(p[0] + seq![sep] + (join_with(p.drop_first(), sep) + seq![sep] + x) =~= (p[0]
            + seq![sep] + join_with(p.drop_first(), sep)) + seq![sep] + x);
    }
}

/// Drop the skipped components of a split path, in order.
fn kept_comps_exec(v: Vec<Vec<char>>) -> (r: Vec<Vec<char>>)
    ensures
        vecs_view(r@) == kept_comps(vecs_view(v@)),
{
    let ghost orig = vecs_view(v@);
    let mut v = v;
    let mut r: Vec<Vec<char>> = Vec::new();
    while v.len() > 0
        invariant
            kept_comps(orig) == vecs_view(r@) + kept_comps(vecs_view(v@)),
        decreases v.len(),
    {
        let ghost pre = vecs_view(v@);
        let c = v.remove(0);
        proof {
            assert(pre.drop_first() =~= vecs_view(v@));
        }
        let n: usize = c.len();
        let skip_it = n == 0 || (n == 1 && c[0] == '.');
        proof {
            if n == 1 {
                if c@[0] == '.' {
                    assert(c@ =~= seq!['.']);
                } else {
                    assert(c@ != seq!['.']);
                }
            }
        }
        if !skip_it {
            r.push(c);
            proof {
                assert(vecs_view(r@) =~= vecs_view(r@.drop_last()) + seq![r@.last()@]);
                assert(vecs_view(r@.drop_last()) + (seq![r@.last()@] + kept_comps(vecs_view(v@)))
                    =~= (vecs_view(r@.drop_last()) + seq![r@.last()@]) + kept_comps(
                    vecs_view(v@),
                ));
            }
        }
    }
    proof {
        assert(kept_comps(vecs_view(v@)) =~= Seq::<Seq<char>>::empty());
        assert(vecs_view(r@) + Seq::<Seq<char>>::empty() =~= vecs_view(r@));
    }
    r
}

/// Remove the file extension from one component.
fn strip_ext_exec(c: Vec<char>) -> (r: Vec<char>)
    ensures
        r@ == strip_ext(c@),
{
    let n: usize = c.len();
    let mut j: usize = n;
    while j > 1 && c[j - 1] != '.'
        invariant
            j <= n == c@.len(),
            n > 0 ==> j >= 1,
            forall|t: int| j <= t < n ==> c@[t] != '.',
        decreases j,
    {
        j = j - 1;
    }
    if j > 1 {
        proof {
            lemma_rfind_dot_found(c@, j - 1);
        }
        let mut c = c;
        c.truncate(j - 1);
        c
    } else {
        proof {
            lemma_rfind_dot_none(c@);
        }
        c
    }
}

/// Rewrite one component into route notation.
fn rewrite_comp_exec(c: &Vec<char>) -> (r: Vec<char>)
    ensures
        r@ == rewrite_comp(c@),
{
    let n: usize = c.len();
    if n >= 7 && c[0] == '[' && c[1] == '[' && c[2] == '.' && c[3] == '.' && c[4] == '.' && c[n
        - 2] == ']' && c[n - 1] == ']' {
        proof {
            assert(c@.subrange(0, 5) =~= seq!['[', '[', '.', '.', '.']);
            assert(c@.subrange(c@.len() - 2, c@.len() as int) =~= seq![']', ']']);
        }
        let mut out: Vec<char> = Vec::new();
        out.push('*');
        let mut mid = subvec(c, 5, n - 2);
        out.append(&mut mid);
        out.push('?');
        proof {
            assert(out@ =~= seq!['*'] + c@.subrange(5, c@.len() - 2) + seq!['?']);
        }
        out
    } else if n >= 5 && c[0] == '[' && c[1] == '.' && c[2] == '.' && c[3] == '.' && c[n - 1]
        == ']' {
        proof {
            assert(c@.subrange(0, 4) =~= seq!['[', '.', '.', '.']);
            if c@.len() >= 7 && c@.subrange(0, 5) == seq!['[', '[', '.', '.', '.'] {
                assert(c@.subrange(0, 5)[1] == '[');
            }
        }
        let mut out: Vec<char> = Vec::new();
        out.push('*');
        let mut mid = subvec(c, 4, n - 1);
        out.append(&mut mid);
        proof {
            assert(out@ =~= seq!['*'] + c@.subrange(4, c@.len() - 1));
        }
        out
    } else if n >= 2 && c[0] == '[' && c[n - 1] == ']' {
        proof {
            if c@.len() >= 7 && c@.subrange(0, 5) == seq!['[', '[', '.', '.', '.'] {
                assert(c@.subrange(0, 5)[1] == '[');
            }
            if c@.len() >= 5 && c@.subrange(0, 4) == seq!['[', '.', '.', '.'] {
                assert(c@.subrange(0, 4)[1] == '.');
            }
        }
        let mut out: Vec<char> = Vec::new();
        out.push(':');
        let mut mid = subvec(c, 1, n - 1);
        out.append(&mut mid);
        proof {
            assert(out@ =~= seq![':'] + c@.subrange(1, c@.len() - 1));
        }
        out
    } else {
        proof {
            if c@.len() >= 7 && c@.subrange(0, 5) == seq!['[', '[', '.', '.', '.'] && c@.subrange(
                c@.len() - 2,
                c@.len() as int,
            ) == seq![']', ']'] {
                assert(c@.subrange(0, 5)[0] == '[');
                assert(c@.subrange(0, 5)[1] == '[');
                assert(c@.subrange(0, 5)[2] == '.');
                assert(c@.subrange(0, 5)[3] == '.');
                assert(c@.subrange(0, 5)[4] == '.');
                assert(c@.subrange(c@.len() - 2, c@.len() as int)[0] == ']');
                assert(c@.subrange(c@.len() - 2, c@.len() as int)[1] == ']');
            }
            if c@.len() >= 5 && c@.subrange(0, 4) == seq!['[', '.', '.', '.'] && c@[c@.len() - 1]
                == ']' {
                assert(c@.subrange(0, 4)[0] == '[');
                assert(c@.subrange(0, 4)[1] == '.');
                assert(c@.subrange(0, 4)[2] == '.');
                assert(c@.subrange(0, 4)[3] == '.');
            }
        }
        subvec(c, 0, n)
    }
}

/// Derive the canonical route path for a page file.
///
/// The file path is taken relative to the pages root (component-wise, on
/// `/` separators), the extension of the final component is stripped,
/// `index` components are dropped, bracket components are rewritten to
/// route notation, and the segments are joined with `/` behind a leading
/// `/`. An empty segment list yields the root route `/`.
pub fn file_path_to_route_path(file_path: &str, pages_dir: &str) -> (r: String)
    ensures
        r@ == spec_route_path(file_path@, pages_dir@),
        r@.len() >= 1,
        r@[0] == '/',
        r@.len() <= 2 * file_path@.len() + 2,
{
    let fchars = str_to_chars(file_path);
    let rchars = str_to_chars(pages_dir);
    proof {
        assert(fchars@.skip(0) =~= fchars@);
        assert(rchars@.skip(0) =~= rchars@);
    }
    let fsplit = split_chars_from(&fchars, '/', 0);
    let rsplit = split_chars_from(&rchars, '/', 0);
    let mut fcomps = kept_comps_exec(fsplit);
    let rcomps = kept_comps_exec(rsplit);
    let ghost fc0 = vecs_view(fcomps@);
    proof {
        assert(fc0 == comps_of(file_path@));
        assert(vecs_view(rcomps@) == comps_of(pages_dir@));
    }

    // Strip the root prefix component-wise.
    let k: usize = rcomps.len();
    let mut is_prefix = k <= fcomps.len();
    let mut i: usize = 0;
    while i < k
        invariant
            k == rcomps@.len(),
            i <= k,
            is_prefix ==> k <= fcomps@.len() && forall|j: int|
                0 <= j < i ==> vecs_view(fcomps@)[j] == vecs_view(rcomps@)[j],
            !is_prefix ==> rel_comps(vecs_view(fcomps@), vecs_view(rcomps@))
                == vecs_view(fcomps@),
        decreases k - i,
    {
        if is_prefix && !chars_eq(&fcomps[i], &rcomps[i]) {
            proof {
                assert(vecs_view(fcomps@)[i as int] == fcomps@[i as int]@);
                assert(vecs_view(rcomps@)[i as int] == rcomps@[i as int]@);
                if vecs_view(fcomps@).subrange(0, k as int) == vecs_view(rcomps@) {
                    assert(vecs_view(fcomps@).subrange(0, k as int)[i as int] == vecs_view(
                        fcomps@,
                    )[i as int]);
                    assert(false);
                }
            }
            is_prefix = false;
        }
        i = i + 1;
    }
    let mut rel: Vec<Vec<char>> = if is_prefix {
        proof {
            assert(vecs_view(fcomps@).subrange(0, k as int) =~= vecs_view(rcomps@));
        }
        let tail = fcomps.split_off(k);
        proof {
            assert(vecs_view(tail@) =~= rel_comps(fc0, vecs_view(rcomps@)));
        }
        tail
    } else {
        fcomps
    };
    let ghost rel0 = vecs_view(rel@);

    // Strip the extension of the final component.
    if rel.len() > 0 {
        let last = rel.pop().unwrap();
        let stripped = strip_ext_exec(last);
        rel.push(stripped);
        proof {
            assert(vecs_view(rel@) =~= rel0.update(rel0.len() - 1, strip_ext(rel0.last())));
        }
    }
    let ghost dcomps = vecs_view(rel@);

    // Drop `index` components and rewrite the rest.
    let mut segs: Vec<Vec<char>> = Vec::new();
    while rel.len() > 0
        invariant
            route_segs_of_comps(dcomps) == vecs_view(segs@) + route_segs_of_comps(
                vecs_view(rel@),
            ),
        decreases rel.len(),
    {
        let ghost pre = vecs_view(rel@);
        let c = rel.remove(0);
        proof {
            assert(pre.drop_first() =~= vecs_view(rel@));
        }
        let n: usize = c.len();
        let is_index = n == 5 && c[0] == 'i' && c[1] == 'n' && c[2] == 'd' && c[3] == 'e'
            && c[4] == 'x';
        proof {
            if is_index {
                assert(c@ =~= index_chars());
            } else if c@.len() == 5 {
                assert(c@ != index_chars());
            }
        }
        if !is_index {
            let seg = rewrite_comp_exec(&c);
            segs.push(seg);
            proof {
                assert(vecs_view(segs@) =~= vecs_view(segs@.drop_last()) + seq![
                    segs@.last()@,
                ]);
                assert(vecs_view(segs@.drop_last()) + (seq![segs@.last()@]
                    + route_segs_of_comps(vecs_view(rel@))) =~= (vecs_view(segs@.drop_last())
                    + seq![segs@.last()@]) + route_segs_of_comps(vecs_view(rel@)));
            }
        }
    }
    proof {
        assert(route_segs_of_comps(vecs_view(rel@)) =~= Seq::<Seq<char>>::empty());
        assert(vecs_view(segs@) + Seq::<Seq<char>>::empty() =~= vecs_view(segs@));
    }

    // Join the segments behind a leading separator.
    let m: usize = segs.len();
    let mut out: Vec<char> = Vec::new();
    out.push('/');
    let mut i: usize = 0;
    while i < m
        invariant
            m == segs@.len(),
            i <= m,
            out@ == seq!['/'] + join_with(vecs_view(segs@).take(i as int), '/'),
        decreases m - i,
    {
        proof {
            lemma_join_with_push(vecs_view(segs@).take(i as int), vecs_view(segs@)[i as int], '/');
            assert(vecs_view(segs@).take(i as int).push(vecs_view(segs@)[i as int])
                =~= vecs_view(segs@).take(i + 1));
        }
        if i > 0 {
            out.push('/');
        }
        let mut piece = subvec(&segs[i], 0, segs[i].len());
        out.append(&mut piece);
        proof {
            if i == 0 {
                assert(join_with(vecs_view(segs@).take(0), '/') =~= Seq::<char>::empty());
                assert(out@ =~= seq!['/'] + join_with(vecs_view(segs@).take(1), '/'));
            } else {
                assert(out@ =~= seq!['/'] + join_with(vecs_view(segs@).take(i + 1), '/'));
            }
        }
        i = i + 1;
    }
    proof {
        assert(vecs_view(segs@).take(m as int) =~= vecs_view(segs@));
        // Length bound: the derivation never more than doubles the input.
        lemma_split_on_lens(file_path@, '/');
        lemma_kept_comps_lens(split_on(file_path@, '/'));
        lemma_sum_lens_nonneg(split_on(file_path@, '/'));
        if rel_comps(comps_of(file_path@), comps_of(pages_dir@)) == comps_of(file_path@) {
        } else {
            lemma_sum_lens_skip(comps_of(file_path@), comps_of(pages_dir@).len() as int);
        }
        let rl = rel_comps(comps_of(file_path@), comps_of(pages_dir@));
        lemma_sum_lens_skip(comps_of(file_path@), 0);
        if rl.len() > 0 {
            lemma_rfind_dot_bounds(rl.last());
            lemma_sum_lens_pointwise(dcomps, rl);
        }
        lemma_route_segs_lens(dcomps);
        lemma_join_with_len(vecs_view(segs@), '/');
    }
    chars_to_string(&out)
}

/// Parsed segments carry non-empty raw text, free of the separator, when
/// the pieces they came from are.
pub proof fn lemma_parsed_pieces_raws(p: Seq<Seq<char>>)
    requires
        forall|k: int, j: int| 0 <= k < p.len() && 0 <= j < p[k].len() ==> p[k][j] != '/',
    ensures
        forall|t: int|
            0 <= t < parsed_of_pieces(p).len() ==> parsed_of_pieces(p)[t].raw.len() >= 1 && (
            forall|j: int|
                0 <= j < parsed_of_pieces(p)[t].raw.len() ==> parsed_of_pieces(p)[t].raw[j]
                    != '/'),
    decreases p.len(),
{
    if p.len() != 0 {
        assert(forall|k: int, j: int|
            0 <= k < p.drop_first().len() && 0 <= j < p.drop_first()[k].len()
                ==> p.drop_first()[k][j] != '/');
        lemma_parsed_pieces_raws(p.drop_first());
        if p[0].len() != 0 {
            let whole = seq![parsed_of(p[0])] + parsed_of_pieces(p.drop_first());
            assert(forall|t: int| 1 <= t < whole.len() ==> whole[t] == parsed_of_pieces(
                p.drop_first(),
            )[t - 1]);
            assert(whole[0].raw == p[0]);
        }
    }
}

/// The segment kind a file-path component denotes by its bracket form.
pub open spec fn bracket_kind(c: Seq<char>) -> SegmentType {
    if c.len() >= 7 && c.subrange(0, 5) == seq!['[', '[', '.', '.', '.'] && c.subrange(
        c.len() - 2,
        c.len() as int,
    ) == seq![']', ']'] {
        SegmentType::OptionalCatchAll
    } else if c.len() >= 5 && c.subrange(0, 4) == seq!['[', '.', '.', '.'] && c[c.len() - 1]
        == ']' {
        SegmentType::CatchAll
    } else if c.len() >= 2 && c[0] == '[' && c[c.len() - 1] == ']' {
        SegmentType::Dynamic
    } else {
        SegmentType::Static
    }
}

/// The parameter name a file-path component's bracket form declares.
pub open spec fn bracket_name(c: Seq<char>) -> Option<Seq<char>> {
    match bracket_kind(c) {
        SegmentType::OptionalCatchAll => Some(c.subrange(5, c.len() - 2)),
        SegmentType::CatchAll => Some(c.subrange(4, c.len() - 1)),
        SegmentType::Dynamic => Some(c.subrange(1, c.len() - 1)),
        SegmentType::Static => None,
    }
}

/// Re-parsing the rewritten notation of one component reflects its bracket
/// form exactly: the same kind and the same parameter name come back.
///
/// A catch-all whose name ends in `?` and a static component opening with
/// `*` or `:` would re-parse as other kinds; those components stand outside
/// this law.
pub proof fn lemma_reparse_segment(c: Seq<char>)
    requires
        bracket_kind(c) == SegmentType::CatchAll ==> (c.len() == 5 || c[c.len() - 2] != '?'),
        bracket_kind(c) == SegmentType::Static && c.len() >= 1 ==> (c[0] != '*' && c[0] != ':'),
    ensures
        parsed_of(rewrite_comp(c)).segment_type == bracket_kind(c),
        parsed_of(rewrite_comp(c)).param_name == bracket_name(c),
        parsed_of(rewrite_comp(c)).raw == rewrite_comp(c),
{
    let r = rewrite_comp(c);
    match bracket_kind(c) {
        SegmentType::OptionalCatchAll => {
            assert(r == seq!['*'] + c.subrange(5, c.len() - 2) + seq!['?']);
            assert(r[0] == '*');
            assert(r[r.len() - 1] == '?');
            assert(r.subrange(1, r.len() - 1) =~= c.subrange(5, c.len() - 2));
        },
        SegmentType::CatchAll => {
            assert(r == seq!['*'] + c.subrange(4, c.len() - 1));
            assert(r[0] == '*');
            if c.len() > 5 {
                assert(r[r.len() - 1] == c.subrange(4, c.len() - 1)[c.len() - 6]);
                assert(r[r.len() - 1] == c[c.len() - 2]);
            }
            assert(r.len() < 2 || r[r.len() - 1] != '?');
            assert(r.subrange(1, r.len() as int) =~= c.subrange(4, c.len() - 1));
        },
        SegmentType::Dynamic => {
            assert(r == seq![':'] + c.subrange(1, c.len() - 1));
            assert(r[0] == ':');
            assert(r.subrange(1, r.len() as int) =~= c.subrange(1, c.len() - 1));
        },
        SegmentType::Static => {
            assert(r == c);
        },
    }
}

/// With every piece non-empty, parsing pieces is classifying each in turn.
pub proof fn lemma_parsed_of_pieces_all_nonempty(p: Seq<Seq<char>>)
    requires
        forall|k: int| 0 <= k < p.len() ==> p[k].len() >= 1,
    ensures
        parsed_of_pieces(p) == p.map_values(|s: Seq<char>| parsed_of(s)),
    decreases p.len(),
{
    if p.len() == 0 {
        assert(parsed_of_pieces(p) =~= p.map_values(|s: Seq<char>| parsed_of(s)));
    } else {
        lemma_parsed_of_pieces_all_nonempty(p.drop_first());
        assert(parsed_of_pieces(p) =~= p.map_values(|s: Seq<char>| parsed_of(s)));
    }
}

/// The notation segments of well-formed components are non-empty and free
/// of separators.
pub proof fn lemma_route_segs_wf(comps: Seq<Seq<char>>)
    requires
        forall|k: int| 0 <= k < comps.len() ==> comps[k].len() >= 1,
        forall|k: int, j: int|
            0 <= k < comps.len() && 0 <= j < comps[k].len() ==> comps[k][j] != '/',
    ensures
        forall|t: int|
            0 <= t < route_segs_of_comps(comps).len() ==> route_segs_of_comps(comps)[t].len() >= 1,
        forall|t: int, j: int|
            0 <= t < route_segs_of_comps(comps).len() && 0 <= j < route_segs_of_comps(
                comps,
            )[t].len() ==> route_segs_of_comps(comps)[t][j] != '/',
    decreases comps.len(),
{
    if comps.len() != 0 {
        assert(forall|k: int, j: int|
            0 <= k < comps.drop_first().len() && 0 <= j < comps.drop_first()[k].len()
                ==> comps.drop_first()[k][j] != '/');
        lemma_route_segs_wf(comps.drop_first());
        if comps[0] != index_chars() {
            let r = rewrite_comp(comps[0]);
            assert(r.len() >= 1);
            assert(forall|j: int| 0 <= j < r.len() ==> r[j] != '/');
            let whole = seq![r] + route_segs_of_comps(comps.drop_first());
            assert(forall|t: int| 1 <= t < whole.len() ==> whole[t] == route_segs_of_comps(
                comps.drop_first(),
            )[t - 1]);
        }
    }
}

/// The retained components of well-formed pieces keep their properties.
pub proof fn lemma_kept_no_sep(pieces: Seq<Seq<char>>, sep: char)
    requires
        forall|k: int, j: int|
            0 <= k < pieces.len() && 0 <= j < pieces[k].len() ==> pieces[k][j] != sep,
    ensures
        forall|k: int, j: int|
            0 <= k < kept_comps(pieces).len() && 0 <= j < kept_comps(pieces)[k].len()
                ==> kept_comps(pieces)[k][j] != sep,
    decreases pieces.len(),
{
    if pieces.len() != 0 {
        assert(forall|k: int, j: int|
            0 <= k < pieces.drop_first().len() && 0 <= j < pieces.drop_first()[k].len()
                ==> pieces.drop_first()[k][j] != sep);
        lemma_kept_no_sep(pieces.drop_first(), sep);
        if !is_skipped_comp(pieces[0]) {
            let whole = seq![pieces[0]] + kept_comps(pieces.drop_first());
            assert(forall|k: int| 1 <= k < whole.len() ==> whole[k] == kept_comps(
                pieces.drop_first(),
            )[k - 1]);
        }
    }
}

/// Deriving a route path and re-parsing it yields exactly the classified
/// rewrite of each derived component, in order: nothing is lost, added or
/// reordered on the way through the notation.
pub proof fn lemma_derive_then_reparse(file: Seq<char>, root: Seq<char>)
    ensures
        spec_parse_route_segments(spec_route_path(file, root)) == route_segs_of_comps(
            derived_comps(file, root),
        ).map_values(|s: Seq<char>| parsed_of(s)),
{
    let dcomps = derived_comps(file, root);
    let segs = route_segs_of_comps(dcomps);
    let path = spec_route_path(file, root);

    // The derived components are non-empty and free of separators.
    lemma_split_on_no_sep(file, '/');
    lemma_kept_comps_lens(split_on(file, '/'));
    lemma_kept_no_sep(split_on(file, '/'), '/');
    let fc = comps_of(file);
    let rl = rel_comps(fc, comps_of(root));
    assert(forall|k: int| 0 <= k < rl.len() ==> rl[k].len() >= 1 && (forall|j: int|
        0 <= j < rl[k].len() ==> rl[k][j] != '/'));
    assert forall|k: int| 0 <= k < dcomps.len() implies dcomps[k].len() >= 1 && (forall|j: int|
        0 <= j < dcomps[k].len() ==> dcomps[k][j] != '/') by {
        if rl.len() > 0 && k == dcomps.len() - 1 {
            lemma_rfind_dot_bounds(rl.last());
            if rfind_dot(rl.last()) >= 1 {
                assert(dcomps[k] == rl.last().take(rfind_dot(rl.last())));
                assert(forall|j: int| 0 <= j < dcomps[k].len() ==> dcomps[k][j] == rl.last()[j]);
            }
        }
    }
    lemma_route_segs_wf(dcomps);

    if segs.len() == 0 {
        assert(path =~= seq!['/']);
        assert(spec_parse_route_segments(path) =~= segs.map_values(
            |s: Seq<char>| parsed_of(s),
        ));
    } else {
        assert(join_with(segs, '/').len() >= 1);
        assert(path[0] == '/');
        assert(path.len() >= 2);
        assert(path != seq!['/']);
        assert(path.skip(1) =~= join_with(segs, '/'));
        lemma_split_join(segs, '/');
        lemma_parsed_of_pieces_all_nonempty(segs);
    }
}

/// Dropping `index` segments is idempotent: a trailing `index` component
/// contributes nothing, so `index/index` and `index` derive the same route
/// path as the directory containing them.
pub proof fn lemma_index_segment_dropped(comps: Seq<Seq<char>>)
    ensures
        route_segs_of_comps(comps.push(index_chars())) == route_segs_of_comps(comps),
    decreases comps.len(),
{
    if comps.len() == 0 {
        assert(comps.push(index_chars())[0] == index_chars());
        assert(comps.push(index_chars()).drop_first() =~= Seq::<Seq<char>>::empty());
        assert(route_segs_of_comps(Seq::<Seq<char>>::empty()) =~= Seq::<Seq<char>>::empty());
        assert(route_segs_of_comps(comps.push(index_chars())) =~= route_segs_of_comps(comps));
    } else {
        assert(comps.push(index_chars()).drop_first() =~= comps.drop_first().push(index_chars()));
        lemma_index_segment_dropped(comps.drop_first());
        assert(comps.push(index_chars())[0] == comps[0]);
    }
}

} // verus!
