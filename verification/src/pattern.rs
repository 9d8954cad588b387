//! Pattern compilation: a route path is compiled into a matcher source
//! string, anchored at both ends, with one capture group per non-static
//! segment and an optional trailing separator.
//!
//! The compiled grammar is fixed: `^\/$` for the root route, otherwise `^`,
//! one part per segment, then `\/?$`. A static segment compiles to `\/`
//! followed by its escaped literal text; a dynamic segment to `\/([^/]+)`;
//! a catch-all to `\/(.+)`; an optional catch-all to `(?:\/(.*))?`.

use vstd::prelude::*;
use crate::segments::{parse_route_segments, segs_view, spec_parse_route_segments};
use crate::text::{chars_to_string, split_on, str_to_chars};
use crate::types::{SegView, SegmentType};

verus! {

/// The characters that are significant in the matcher syntax and are
/// escaped in a compiled static segment.
pub open spec fn is_meta(c: char) -> bool {
    c == '\\' || c == '.' || c == '+' || c == '*' || c == '?' || c == '(' || c == ')' || c == '|'
        || c == '[' || c == ']' || c == '{' || c == '}' || c == '^' || c == '$' || c == '#'
        || c == '&' || c == '-' || c == '~'
}

/// The text with a `\` inserted before every meta character.
pub open spec fn spec_escape(s: Seq<char>) -> Seq<char>
    decreases s.len(),
{
    if s.len() == 0 {
        Seq::empty()
    } else {
        (if is_meta(s[0]) {
            seq!['\\', s[0]]
        } else {
            seq![s[0]]
        }) + spec_escape(s.drop_first())
    }
}

/// Relies on `regex::escape`: it returns its input with a `\` inserted
/// before every character that is meaningful in a regular expression, and
/// changes nothing else.
#[verifier::external_body]
fn regex_escape_chars(seg: &Vec<char>) -> (r: Vec<char>)
    ensures
        r@ == spec_escape(seg@),
{
    let s: String = seg.iter().collect();
    regex::escape(&s).chars().collect()
}

/// The matcher source of the root route: exactly one separator.
pub open spec fn root_pattern() -> Seq<char> {
    seq!['^', '\\', '/', '$']
}

/// The part compiled for an optional catch-all segment.
pub open spec fn opt_part() -> Seq<char> {
    seq!['(', '?', ':', '\\', '/', '(', '.', '*', ')', ')', '?']
}

/// The part compiled for a catch-all segment.
pub open spec fn catch_part() -> Seq<char> {
    seq!['\\', '/', '(', '.', '+', ')']
}

/// The part compiled for a dynamic segment.
pub open spec fn dyn_part() -> Seq<char> {
    seq!['\\', '/', '(', '[', '^', '/', ']', '+', ')']
}

/// The trailer of every non-root pattern: an optional separator, then the
/// end of the path.
pub open spec fn tail_part() -> Seq<char> {
    seq!['\\', '/', '?', '$']
}

/// The part compiled for one segment.
pub open spec fn part_of_view(sv: SegView) -> Seq<char> {
    match sv.segment_type {
        SegmentType::OptionalCatchAll => opt_part(),
        SegmentType::CatchAll => catch_part(),
        SegmentType::Dynamic => dyn_part(),
        SegmentType::Static => seq!['\\', '/'] + spec_escape(sv.raw),
    }
}

/// The concatenated parts of a segment sequence.
pub open spec fn parts_of_segs(segs: Seq<SegView>) -> Seq<char>
    decreases segs.len(),
{
    if segs.len() == 0 {
        Seq::empty()
    } else {
        part_of_view(segs[0]) + parts_of_segs(segs.drop_first())
    }
}

pub proof fn lemma_parts_of_segs_push(segs: Seq<SegView>, x: SegView)
    ensures
        parts_of_segs(segs.push(x)) == parts_of_segs(segs) + part_of_view(x),
    decreases segs.len(),
{
    if segs.len() == 0 {
        assert(segs.push(x).drop_first() =~= Seq::<SegView>::empty());
        assert(parts_of_segs(Seq::<SegView>::empty()) =~= Seq::<char>::empty());
        assert(segs.push(x)[0] == x);
        assert(parts_of_segs(segs.push(x)) =~= part_of_view(x));
        assert(parts_of_segs(segs) + part_of_view(x) =~= part_of_view(x));
    } else {
        assert(segs.push(x).drop_first() =~= segs.drop_first().push(x));
        lemma_parts_of_segs_push(segs.drop_first(), x);
        assert(segs.push(x)[0] == segs[0]);
        assert(part_of_view(segs[0]) + (parts_of_segs(segs.drop_first()) + part_of_view(x)) =~= (
        part_of_view(segs[0]) + parts_of_segs(segs.drop_first())) + part_of_view(x));
    }
}

/// The matcher source compiled for a route path.
pub open spec fn spec_compile_route(path: Seq<char>) -> Seq<char> {
    if path == seq!['/'] {
        root_pattern()
    } else {
        seq!['^'] + parts_of_segs(spec_parse_route_segments(path)) + tail_part()
    }
}

/// Compile a route path into its matcher source.
#[verifier::rlimit(50)]
pub fn route_path_to_regex_pattern(route_path: &str) -> (r: String)
    requires
        route_path@.len() >= 1,
        route_path@[0] == '/',
    ensures
        r@ == spec_compile_route(route_path@),
{
    let chars = str_to_chars(route_path);
    if chars.len() == 1 {
        proof {
            assert(route_path@ =~= seq!['/']);
        }
        let mut out: Vec<char> = Vec::new();
        out.push('^');
        out.push('\\');
        out.push('/');
        out.push('$');
        proof {
            assert(out@ =~= root_pattern());
        }
        chars_to_string(&out)
    } else {
        let segments = parse_route_segments(route_path);
        let ghost segs = segs_view(segments@);
        let n: usize = segments.len();
        let mut out: Vec<char> = Vec::new();
        out.push('^');
        let mut i: usize = 0;
        while i < n
            invariant
                n == segments@.len(),
                segs == segs_view(segments@),
                i <= n,
                out@ == seq!['^'] + parts_of_segs(segs.take(i as int)),
            decreases n - i,
        {
            proof {
                assert(segs[i as int] == segments@[i as int]@);
                lemma_parts_of_segs_push(segs.take(i as int), segs[i as int]);
                assert(segs.take(i as int).push(segs[i as int]) =~= segs.take(i + 1));
            }
            match segments[i].segment_type {
                SegmentType::OptionalCatchAll => {
                    out.push('(');
                    out.push('?');
                    out.push(':');
                    out.push('\\');
                    out.push('/');
                    out.push('(');
                    out.push('.');
                    out.push('*');
                    out.push(')');
                    out.push(')');
                    out.push('?');
                    proof {
                        assert(out@ =~= seq!['^'] + parts_of_segs(segs.take(i as int))
                            + opt_part());
                    }
                },
                SegmentType::CatchAll => {
                    out.push('\\');
                    out.push('/');
                    out.push('(');
                    out.push('.');
                    out.push('+');
                    out.push(')');
                    proof {
                        assert(out@ =~= seq!['^'] + parts_of_segs(segs.take(i as int))
                            + catch_part());
                    }
                },
                SegmentType::Dynamic => {
                    out.push('\\');
                    out.push('/');
                    out.push('(');
                    out.push('[');
                    out.push('^');
                    out.push('/');
                    out.push(']');
                    out.push('+');
                    out.push(')');
                    proof {
                        assert(out@ =~= seq!['^'] + parts_of_segs(segs.take(i as int))
                            + dyn_part());
                    }
                },
                SegmentType::Static => {
                    out.push('\\');
                    out.push('/');
                    let raw_chars = str_to_chars(segments[i].raw.as_str());
                    let mut esc = regex_escape_chars(&raw_chars);
                    out.append(&mut esc);
                    proof {
                        assert(out@ =~= seq!['^'] + parts_of_segs(segs.take(i as int)) + (seq![
                            '\\',
                            '/',
                        ] + spec_escape(segs[i as int].raw)));
                    }
                },
            }
            i = i + 1;
        }
        out.push('\\');
        out.push('/');
        out.push('?');
        out.push('$');
        proof {
            assert(segs.take(n as int) =~= segs);
            assert(route_path@.len() >= 2 ==> route_path@ != seq!['/']);
            assert(out@ =~= seq!['^'] + parts_of_segs(segs) + tail_part());
        }
        chars_to_string(&out)
    }
}

/// One matching operation of a parsed pattern: a literal static segment,
/// or one of the three capturing segment forms.
#[derive(Clone, Debug)]
pub enum MatchOp {
    Literal(Vec<char>),
    Dynamic,
    CatchAll,
    OptionalCatchAll,
}

/// Mathematical view of a `MatchOp`.
pub enum OpView {
    Literal(Seq<char>),
    Dynamic,
    CatchAll,
    OptionalCatchAll,
}

impl View for MatchOp {
    type V = OpView;

    open spec fn view(&self) -> OpView {
        match self {
            MatchOp::Literal(l) => OpView::Literal(l@),
            MatchOp::Dynamic => OpView::Dynamic,
            MatchOp::CatchAll => OpView::CatchAll,
            MatchOp::OptionalCatchAll => OpView::OptionalCatchAll,
        }
    }
}

/// A parsed matcher source: the root pattern, or one operation per segment.
#[derive(Clone, Debug)]
pub enum CompiledPattern {
    Root,
    Segments(Vec<MatchOp>),
}

/// Mathematical view of a `CompiledPattern`.
pub enum PatView {
    Root,
    Segments(Seq<OpView>),
}

impl View for CompiledPattern {
    type V = PatView;

    open spec fn view(&self) -> PatView {
        match self {
            CompiledPattern::Root => PatView::Root,
            CompiledPattern::Segments(ops) => PatView::Segments(
                ops@.map_values(|o: MatchOp| o@),
            ),
        }
    }
}

/// View of a vector of operations.
pub open spec fn ops_view(v: Seq<MatchOp>) -> Seq<OpView> {
    v.map_values(|o: MatchOp| o@)
}

/// Scan the literal text of a static part: unescape `\x` pairs until the
/// next part (`(` or `\/`) or the end; a trailing lone `\` is malformed.
pub open spec fn spec_scan_literal(m: Seq<char>) -> Option<(Seq<char>, Seq<char>)>
    decreases m.len(),
{
    if m.len() == 0 {
        Some((Seq::empty(), m))
    } else if m[0] == '(' {
        Some((Seq::empty(), m))
    } else if m[0] == '\\' {
        if m.len() == 1 {
            None
        } else if m[1] == '/' {
            Some((Seq::empty(), m))
        } else {
            match spec_scan_literal(m.skip(2)) {
                Some(p) => Some((seq![m[1]] + p.0, p.1)),
                None => None,
            }
        }
    } else {
        match spec_scan_literal(m.skip(1)) {
            Some(p) => Some((seq![m[0]] + p.0, p.1)),
            None => None,
        }
    }
}

pub proof fn lemma_scan_literal_len(m: Seq<char>)
    ensures
        spec_scan_literal(m) matches Some(p) ==> p.0.len() + p.1.len() <= m.len(),
    decreases m.len(),
{
    if m.len() == 0 || m[0] == '(' {
    } else if m[0] == '\\' {
        if m.len() > 1 && m[1] != '/' {
            lemma_scan_literal_len(m.skip(2));
        }
    } else {
        lemma_scan_literal_len(m.skip(1));
    }
}

#[via_fn]
proof fn spec_parse_ops_dec(m: Seq<char>) {
    lemma_scan_literal_len(m.skip(2));
}

/// Parse the part region of a matcher source into operations; `None` where
/// the text is not a concatenation of compiled parts.
pub open spec fn spec_parse_ops(m: Seq<char>) -> Option<Seq<OpView>>
    decreases m.len(),
    via spec_parse_ops_dec
{
    if m.len() == 0 {
        Some(Seq::empty())
    } else if m.len() >= 11 && m.subrange(0, 11) == opt_part() {
        match spec_parse_ops(m.skip(11)) {
            Some(ops) => Some(seq![OpView::OptionalCatchAll] + ops),
            None => None,
        }
    } else if m.len() >= 6 && m.subrange(0, 6) == catch_part() {
        match spec_parse_ops(m.skip(6)) {
            Some(ops) => Some(seq![OpView::CatchAll] + ops),
            None => None,
        }
    } else if m.len() >= 9 && m.subrange(0, 9) == dyn_part() {
        match spec_parse_ops(m.skip(9)) {
            Some(ops) => Some(seq![OpView::Dynamic] + ops),
            None => None,
        }
    } else if m.len() >= 2 && m[0] == '\\' && m[1] == '/' {
        match spec_scan_literal(m.skip(2)) {
            Some(p) => if p.0.len() == 0 {
                None
            } else {
                match spec_parse_ops(p.1) {
                    Some(ops) => Some(seq![OpView::Literal(p.0)] + ops),
                    None => None,
                }
            },
            None => None,
        }
    } else {
        None
    }
}

/// Parse a matcher source: the root pattern, or `^`, parts, `\/?$`.
pub open spec fn spec_parse_pattern(p: Seq<char>) -> Option<PatView> {
    if p == root_pattern() {
        Some(PatView::Root)
    } else if p.len() >= 5 && p[0] == '^' && p.subrange(p.len() - 4, p.len() as int)
        == tail_part() {
        match spec_parse_ops(p.subrange(1, p.len() - 4)) {
            Some(ops) => Some(PatView::Segments(ops)),
            None => None,
        }
    } else {
        None
    }
}

/// The operation denoted by one segment.
pub open spec fn op_of_seg(sv: SegView) -> OpView {
    match sv.segment_type {
        SegmentType::Static => OpView::Literal(sv.raw),
        SegmentType::Dynamic => OpView::Dynamic,
        SegmentType::CatchAll => OpView::CatchAll,
        SegmentType::OptionalCatchAll => OpView::OptionalCatchAll,
    }
}

/// The operations denoted by a segment sequence.
pub open spec fn ops_of_segs(segs: Seq<SegView>) -> Seq<OpView> {
    segs.map_values(|sv: SegView| op_of_seg(sv))
}

pub proof fn lemma_escape_first(s: Seq<char>)
    requires
        s.len() >= 1,
    ensures
        spec_escape(s).len() >= 1,
        spec_escape(s)[0] == '\\' || (spec_escape(s)[0] == s[0] && !is_meta(s[0])),
{
}

/// Scanning an escaped literal followed by the next part gives the literal
/// back and leaves the next part untouched.
pub proof fn lemma_scan_escape(raw: Seq<char>, rest: Seq<char>)
    requires
        forall|j: int| 0 <= j < raw.len() ==> raw[j] != '/',
        rest.len() == 0 || rest[0] == '(' || (rest.len() >= 2 && rest[0] == '\\' && rest[1]
            == '/'),
    ensures
        spec_scan_literal(spec_escape(raw) + rest) == Some((raw, rest)),
    decreases raw.len(),
{
    let m = spec_escape(raw) + rest;
    if raw.len() == 0 {
        assert(m =~= rest);
        if rest.len() == 0 {
        } else if rest[0] == '(' {
        } else {
            assert(spec_scan_literal(m) == Some((Seq::<char>::empty(), m)));
        }
        assert(spec_scan_literal(m) == Some((raw, rest)));
    } else {
        let c = raw[0];
        assert(forall|j: int| 0 <= j < raw.drop_first().len() ==> raw.drop_first()[j] != '/');
        lemma_scan_escape(raw.drop_first(), rest);
        if is_meta(c) {
            assert(spec_escape(raw) == seq!['\\', c] + spec_escape(raw.drop_first()));
            assert(m[0] == '\\');
            assert(m[1] == c);
            assert(c != '/');
            assert(m.len() >= 2);
            assert(m.skip(2) =~= spec_escape(raw.drop_first()) + rest);
            assert(seq![m[1]] + raw.drop_first() =~= raw);
        } else {
            assert(spec_escape(raw) == seq![c] + spec_escape(raw.drop_first()));
            assert(m[0] == c);
            assert(c != '(' && c != '\\');
            assert(m.skip(1) =~= spec_escape(raw.drop_first()) + rest);
            assert(seq![m[0]] + raw.drop_first() =~= raw);
        }
    }
}

/// Every non-empty part region begins with `(` or with `\/`.
pub proof fn lemma_parts_shape(segs: Seq<SegView>)
    ensures
        parts_of_segs(segs).len() == 0 || parts_of_segs(segs)[0] == '(' || (parts_of_segs(
            segs,
        ).len() >= 2 && parts_of_segs(segs)[0] == '\\' && parts_of_segs(segs)[1] == '/'),
{
    if segs.len() != 0 {
        let m = parts_of_segs(segs);
        assert(m == part_of_view(segs[0]) + parts_of_segs(segs.drop_first()));
        match segs[0].segment_type {
            SegmentType::OptionalCatchAll => {
                assert(m[0] == opt_part()[0]);
            },
            SegmentType::CatchAll => {
                assert(m[0] == catch_part()[0]);
                assert(m[1] == catch_part()[1]);
            },
            SegmentType::Dynamic => {
                assert(m[0] == dyn_part()[0]);
                assert(m[1] == dyn_part()[1]);
            },
            SegmentType::Static => {
                assert(m[0] == (seq!['\\', '/'] + spec_escape(segs[0].raw))[0]);
                assert(m[1] == (seq!['\\', '/'] + spec_escape(segs[0].raw))[1]);
            },
        }
    }
}

/// Parsing the compiled parts of a segment sequence gives one operation per
/// segment, in order.
pub proof fn lemma_parse_ops_round_trip(segs: Seq<SegView>)
    requires
        forall|i: int|
            0 <= i < segs.len() && segs[i].segment_type == SegmentType::Static ==> segs[i].raw.len()
                >= 1 && (forall|j: int| 0 <= j < segs[i].raw.len() ==> segs[i].raw[j] != '/'),
    ensures
        spec_parse_ops(parts_of_segs(segs)) == Some(ops_of_segs(segs)),
    decreases segs.len(),
{
    if segs.len() == 0 {
        assert(parts_of_segs(segs).len() == 0);
        assert(ops_of_segs(segs) =~= Seq::<OpView>::empty());
    } else {
        let m = parts_of_segs(segs);
        let tailp = parts_of_segs(segs.drop_first());
        assert(m == part_of_view(segs[0]) + tailp);
        assert(forall|i: int|
            0 <= i < segs.drop_first().len() && segs.drop_first()[i].segment_type
                == SegmentType::Static ==> segs.drop_first()[i] == segs[i + 1]);
        lemma_parse_ops_round_trip(segs.drop_first());
        assert(ops_of_segs(segs) =~= seq![op_of_seg(segs[0])] + ops_of_segs(segs.drop_first()));
        match segs[0].segment_type {
            SegmentType::OptionalCatchAll => {
                assert(m.len() >= 11);
                assert(m.subrange(0, 11) =~= opt_part());
                assert(m.skip(11) =~= tailp);
            },
            SegmentType::CatchAll => {
                assert(m[0] == catch_part()[0]);
                if m.len() >= 11 && m.subrange(0, 11) == opt_part() {
                    assert(m.subrange(0, 11)[0] == m[0]);
                    assert(false);
                }
                assert(m.len() >= 6);
                assert(m.subrange(0, 6) =~= catch_part());
                assert(m.skip(6) =~= tailp);
            },
            SegmentType::Dynamic => {
                assert(m[0] == dyn_part()[0]);
                assert(m[3] == dyn_part()[3]);
                if m.len() >= 11 && m.subrange(0, 11) == opt_part() {
                    assert(m.subrange(0, 11)[0] == m[0]);
                    assert(false);
                }
                if m.len() >= 6 && m.subrange(0, 6) == catch_part() {
                    assert(m.subrange(0, 6)[3] == m[3]);
                    assert(false);
                }
                assert(m.len() >= 9);
                assert(m.subrange(0, 9) =~= dyn_part());
                assert(m.skip(9) =~= tailp);
            },
            SegmentType::Static => {
                let raw = segs[0].raw;
                let esc = spec_escape(raw);
                lemma_escape_first(raw);
                assert(part_of_view(segs[0]) == seq!['\\', '/'] + esc);
                assert(m[0] == '\\');
                assert(m[1] == '/');
                assert(m[2] == esc[0]);
                assert(m[2] != '(');
                if m.len() >= 11 && m.subrange(0, 11) == opt_part() {
                    assert(m.subrange(0, 11)[0] == m[0]);
                    assert(false);
                }
                if m.len() >= 6 && m.subrange(0, 6) == catch_part() {
                    assert(m.subrange(0, 6)[2] == m[2]);
                    assert(false);
                }
                if m.len() >= 9 && m.subrange(0, 9) == dyn_part() {
                    assert(m.subrange(0, 9)[2] == m[2]);
                    assert(false);
                }
                assert(m.len() >= 2);
                lemma_parts_shape(segs.drop_first());
                lemma_scan_escape(raw, tailp);
                assert(m.skip(2) =~= esc + tailp);
                assert(spec_scan_literal(m.skip(2)) == Some((raw, tailp)));
                assert(raw.len() >= 1);
            },
        }
    }
}

/// The pattern a route path denotes: the root marker for `/`, otherwise one
/// operation per parsed segment.
pub open spec fn pat_of_route(path: Seq<char>) -> PatView {
    if path == seq!['/'] {
        PatView::Root
    } else {
        PatView::Segments(ops_of_segs(spec_parse_route_segments(path)))
    }
}

/// Compilation round trip: parsing the matcher source compiled for a route
/// path yields exactly the route's own pattern, one operation per segment.
pub proof fn lemma_compile_parse_round_trip(path: Seq<char>)
    requires
        path.len() >= 1,
        path[0] == '/',
    ensures
        spec_parse_pattern(spec_compile_route(path)) == Some(pat_of_route(path)),
{
    if path == seq!['/'] {
    } else {
        let segs = spec_parse_route_segments(path);
        crate::text::lemma_split_on_no_sep(path.skip(1), '/');
        crate::segments::lemma_parsed_pieces_raws(split_on(path.skip(1), '/'));
        let p = spec_compile_route(path);
        let parts = parts_of_segs(segs);
        assert(p == seq!['^'] + parts + tail_part());
        assert(p.len() == 5 + parts.len());
        assert(p != root_pattern());
        assert(p[0] == '^');
        assert(p.subrange(p.len() - 4, p.len() as int) =~= tail_part());
        assert(p.subrange(1, p.len() - 4) =~= parts);
        lemma_parse_ops_round_trip(segs);
    }
}

/// Scan the literal text of a static part, from `pos` up to `end`.
fn scan_literal_exec(chars: &Vec<char>, pos: usize, end: usize) -> (r: Option<(Vec<char>, usize)>)
    requires
        pos <= end <= chars@.len(),
    ensures
        match r {
            Some(p) => {
                &&& pos <= p.1 <= end
                &&& p.1 - pos >= p.0@.len()
                &&& spec_scan_literal(chars@.subrange(pos as int, end as int)) == Some(
                    (p.0@, chars@.subrange(p.1 as int, end as int)),
                )
            },
            None => spec_scan_literal(chars@.subrange(pos as int, end as int)) is None,
        },
    decreases end - pos,
{
    let ghost m = chars@.subrange(pos as int, end as int);
    if pos == end {
        proof {
            assert(m.len() == 0);
        }
        Some((Vec::new(), pos))
    } else if chars[pos] == '(' {
        Some((Vec::new(), pos))
    } else if chars[pos] == '\\' {
        if pos + 1 == end {
            proof {
                assert(m.len() == 1);
            }
            None
        } else if chars[pos + 1] == '/' {
            Some((Vec::new(), pos))
        } else {
            let c = chars[pos + 1];
            match scan_literal_exec(chars, pos + 2, end) {
                Some(p) => {
                    let (lit, rest) = p;
                    let mut out: Vec<char> = Vec::new();
                    out.push(c);
                    let mut lit = lit;
                    out.append(&mut lit);
                    proof {
                        assert(m.skip(2) =~= chars@.subrange(pos + 2, end as int));
                        assert(out@ =~= seq![m[1]] + spec_scan_literal(m.skip(2)).unwrap().0);
                    }
                    Some((out, rest))
                },
                None => {
                    proof {
                        assert(m.skip(2) =~= chars@.subrange(pos + 2, end as int));
                    }
                    None
                },
            }
        }
    } else {
        let c = chars[pos];
        match scan_literal_exec(chars, pos + 1, end) {
            Some(p) => {
                let (lit, rest) = p;
                let mut out: Vec<char> = Vec::new();
                out.push(c);
                let mut lit = lit;
                out.append(&mut lit);
                proof {
                    assert(m.skip(1) =~= chars@.subrange(pos + 1, end as int));
                    assert(out@ =~= seq![m[0]] + spec_scan_literal(m.skip(1)).unwrap().0);
                }
                Some((out, rest))
            },
            None => {
                proof {
                    assert(m.skip(1) =~= chars@.subrange(pos + 1, end as int));
                }
                None
            },
        }
    }
}

/// Parse the part region `chars[pos..end]` into operations.
fn parse_ops_exec(chars: &Vec<char>, pos: usize, end: usize) -> (r: Option<Vec<MatchOp>>)
    requires
        pos <= end <= chars@.len(),
    ensures
        match r {
            Some(ops) => spec_parse_ops(chars@.subrange(pos as int, end as int)) == Some(
                ops_view(ops@),
            ),
            None => spec_parse_ops(chars@.subrange(pos as int, end as int)) is None,
        },
    decreases end - pos,
{
    let ghost m = chars@.subrange(pos as int, end as int);
    proof {
        assert(forall|k: int| 0 <= k < m.len() ==> m[k] == chars@[pos + k]);
    }
    if pos == end {
        proof {
            assert(m.len() == 0);
            assert(ops_view(Seq::<MatchOp>::empty()) =~= Seq::<OpView>::empty());
        }
        return Some(Vec::new());
    }
    if chars[pos] == '(' {
        // Only an optional catch-all part may begin here.
        if end - pos >= 11 && chars[pos + 1] == '?' && chars[pos + 2] == ':' && chars[pos + 3]
            == '\\' && chars[pos + 4] == '/' && chars[pos + 5] == '(' && chars[pos + 6] == '.'
            && chars[pos + 7] == '*' && chars[pos + 8] == ')' && chars[pos + 9] == ')' && chars[pos
            + 10] == '?' {
            proof {
                assert(m.subrange(0, 11) =~= opt_part());
                assert(m.skip(11) =~= chars@.subrange(pos + 11, end as int));
            }
            match parse_ops_exec(chars, pos + 11, end) {
                Some(mut ops) => {
                    ops.insert(0, MatchOp::OptionalCatchAll);
                    proof {
                        assert(ops_view(ops@) =~= seq![OpView::OptionalCatchAll] + ops_view(
                            ops@.drop_first(),
                        ));
                    }
                    Some(ops)
                },
                None => None,
            }
        } else {
            proof {
                if m.len() >= 11 && m.subrange(0, 11) == opt_part() {
                    assert forall|k: int| 0 <= k < 11 implies m[k] == opt_part()[k] by {
                        assert(m.subrange(0, 11)[k] == m[k]);
                    }
                    assert(false);
                }
            }
            None
        }
    } else if chars[pos] == '\\' && pos + 1 < end && chars[pos + 1] == '/' {
        proof {
            if m.len() >= 11 && m.subrange(0, 11) == opt_part() {
                assert(m.subrange(0, 11)[0] == m[0]);
                assert(false);
            }
        }
        if end - pos >= 6 && chars[pos + 2] == '(' && chars[pos + 3] == '.' && chars[pos + 4]
            == '+' && chars[pos + 5] == ')' {
            proof {
                assert(m.subrange(0, 6) =~= catch_part());
                assert(m.skip(6) =~= chars@.subrange(pos + 6, end as int));
            }
            match parse_ops_exec(chars, pos + 6, end) {
                Some(mut ops) => {
                    ops.insert(0, MatchOp::CatchAll);
                    proof {
                        assert(ops_view(ops@) =~= seq![OpView::CatchAll] + ops_view(
                            ops@.drop_first(),
                        ));
                    }
                    Some(ops)
                },
                None => None,
            }
        } else if end - pos >= 9 && chars[pos + 2] == '(' && chars[pos + 3] == '[' && chars[pos
            + 4] == '^' && chars[pos + 5] == '/' && chars[pos + 6] == ']' && chars[pos + 7] == '+'
            && chars[pos + 8] == ')' {
            proof {
                if m.len() >= 6 && m.subrange(0, 6) == catch_part() {
                    assert forall|k: int| 0 <= k < 6 implies m[k] == catch_part()[k] by {
                        assert(m.subrange(0, 6)[k] == m[k]);
                    }
                    assert(false);
                }
                assert(m.subrange(0, 9) =~= dyn_part());
                assert(m.skip(9) =~= chars@.subrange(pos + 9, end as int));
            }
            match parse_ops_exec(chars, pos + 9, end) {
                Some(mut ops) => {
                    ops.insert(0, MatchOp::Dynamic);
                    proof {
                        assert(ops_view(ops@) =~= seq![OpView::Dynamic] + ops_view(
                            ops@.drop_first(),
                        ));
                    }
                    Some(ops)
                },
                None => None,
            }
        } else {
            // A static part: a separator, then a non-empty literal.
            proof {
                if m.len() >= 6 && m.subrange(0, 6) == catch_part() {
                    assert forall|k: int| 0 <= k < 6 implies m[k] == catch_part()[k] by {
                        assert(m.subrange(0, 6)[k] == m[k]);
                    }
                    assert(false);
                }
                if m.len() >= 9 && m.subrange(0, 9) == dyn_part() {
                    assert forall|k: int| 0 <= k < 9 implies m[k] == dyn_part()[k] by {
                        assert(m.subrange(0, 9)[k] == m[k]);
                    }
                    assert(false);
                }
                assert(m.skip(2) =~= chars@.subrange(pos + 2, end as int));
            }
            match scan_literal_exec(chars, pos + 2, end) {
                Some(p) => {
                    let (lit, rest) = p;
                    if lit.len() == 0 {
                        None
                    } else {
                        let ghost litv = lit@;
                        match parse_ops_exec(chars, rest, end) {
                            Some(mut ops) => {
                                ops.insert(0, MatchOp::Literal(lit));
                                proof {
                                    assert(ops_view(ops@) =~= seq![OpView::Literal(litv)]
                                        + ops_view(ops@.drop_first()));
                                }
                                Some(ops)
                            },
                            None => None,
                        }
                    }
                },
                None => None,
            }
        }
    } else {
        proof {
            if m.len() >= 11 && m.subrange(0, 11) == opt_part() {
                assert(m.subrange(0, 11)[0] == m[0]);
                assert(false);
            }
            if m.len() >= 6 && m.subrange(0, 6) == catch_part() {
                assert(m.subrange(0, 6)[0] == m[0]);
                assert(m.subrange(0, 6)[1] == m[1]);
                assert(false);
            }
            if m.len() >= 9 && m.subrange(0, 9) == dyn_part() {
                assert(m.subrange(0, 9)[0] == m[0]);
                assert(m.subrange(0, 9)[1] == m[1]);
                assert(false);
            }
        }
        None
    }
}

/// Parse a stored matcher source; `None` where it is not in the compiled
/// grammar.
pub fn parse_pattern(pattern: &str) -> (r: Option<CompiledPattern>)
    ensures
        match r {
            Some(p) => spec_parse_pattern(pattern@) == Some(p@),
            None => spec_parse_pattern(pattern@) is None,
        },
{
    let chars = str_to_chars(pattern);
    let n: usize = chars.len();
    if n == 4 && chars[0] == '^' && chars[1] == '\\' && chars[2] == '/' && chars[3] == '$' {
        proof {
            assert(pattern@ =~= root_pattern());
        }
        return Some(CompiledPattern::Root);
    }
    proof {
        if pattern@ == root_pattern() {
            assert(pattern@[0] == '^' && pattern@[1] == '\\' && pattern@[2] == '/' && pattern@[3]
                == '$');
            assert(false);
        }
    }
    if n >= 5 && chars[0] == '^' && chars[n - 4] == '\\' && chars[n - 3] == '/' && chars[n - 2]
        == '?' && chars[n - 1] == '$' {
        proof {
            assert(pattern@.subrange(n - 4, n as int) =~= tail_part());
        }
        match parse_ops_exec(&chars, 1, n - 4) {
            Some(ops) => Some(CompiledPattern::Segments(ops)),
            None => None,
        }
    } else {
        proof {
            if pattern@.len() >= 5 && pattern@[0] == '^' && pattern@.subrange(
                pattern@.len() - 4,
                pattern@.len() as int,
            ) == tail_part() {
                let t = pattern@.subrange(pattern@.len() - 4, pattern@.len() as int);
                assert(t[0] == pattern@[pattern@.len() - 4]);
                assert(t[1] == pattern@[pattern@.len() - 3]);
                assert(t[2] == pattern@[pattern@.len() - 2]);
                assert(t[3] == pattern@[pattern@.len() - 1]);
                assert(false);
            }
        }
        None
    }
}

} // verus!
