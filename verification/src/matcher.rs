//! Matching a parsed pattern against a request pathname.
//!
//! A pattern matches segment by segment: a literal consumes a separator and
//! its exact text; a dynamic segment consumes a separator and one or more
//! non-separator characters; a catch-all consumes a separator and everything
//! to the end of the path; an optional catch-all does the same or nothing at
//! all. At the end an optional trailing separator is allowed. Each capturing
//! segment binds one capture, in order; an optional catch-all that consumed
//! nothing binds none.

use vstd::prelude::*;
use crate::pattern::{CompiledPattern, MatchOp, OpView, PatView, lemma_compile_parse_round_trip,
    op_of_seg, ops_of_segs, ops_view, pat_of_route, spec_compile_route, spec_parse_pattern};
use crate::text::{chars_to_string, find_char_from, find_sep, split_on, subvec};
use crate::segments::spec_parse_route_segments;
use crate::types::{SegView, SegmentType};

verus! {

/// View of a capture list.
pub open spec fn caps_view(v: Seq<Option<String>>) -> Seq<Option<Seq<char>>> {
    v.map_values(
        |o: Option<String>|
            match o {
                Some(s) => Some(s@),
                None => None,
            },
    )
}

/// Match operations against the remaining path text; `Some` holds one
/// capture entry per capturing operation, in order.
pub open spec fn match_ops(ops: Seq<OpView>, rem: Seq<char>) -> Option<Seq<Option<Seq<char>>>>
    decreases ops.len(),
{
    if ops.len() == 0 {
        if rem.len() == 0 || rem == seq!['/'] {
            Some(Seq::empty())
        } else {
            None
        }
    } else {
        match ops[0] {
            OpView::Literal(lit) => {
                if rem.len() >= 1 + lit.len() && rem[0] == '/' && rem.subrange(1, 1 + lit.len() as int)
                    == lit {
                    match_ops(ops.drop_first(), rem.skip(1 + lit.len() as int))
                } else {
                    None
                }
            },
            OpView::Dynamic => {
                if rem.len() >= 2 && rem[0] == '/' && rem[1] != '/' {
                    let k = find_sep(rem.skip(1), '/');
                    match match_ops(ops.drop_first(), rem.skip(1 + k)) {
                        Some(caps) => Some(seq![Some(rem.subrange(1, 1 + k))] + caps),
                        None => None,
                    }
                } else {
                    None
                }
            },
            OpView::CatchAll => {
                if rem.len() >= 2 && rem[0] == '/' {
                    match match_ops(ops.drop_first(), Seq::empty()) {
                        Some(caps) => Some(seq![Some(rem.skip(1))] + caps),
                        None => None,
                    }
                } else {
                    None
                }
            },
            OpView::OptionalCatchAll => {
                if rem.len() == 0 || rem == seq!['/'] {
                    match match_ops(ops.drop_first(), rem) {
                        Some(caps) => Some(seq![Option::<Seq<char>>::None] + caps),
                        None => None,
                    }
                } else if rem[0] == '/' {
                    match match_ops(ops.drop_first(), Seq::empty()) {
                        Some(caps) => Some(seq![Some(rem.skip(1))] + caps),
                        None => None,
                    }
                } else {
                    None
                }
            },
        }
    }
}

/// Match a parsed pattern against a pathname: the root pattern matches
/// exactly the single separator; a segment pattern matches by its
/// operations.
pub open spec fn spec_match(pat: PatView, path: Seq<char>) -> Option<Seq<Option<Seq<char>>>> {
    match pat {
        PatView::Root => if path == seq!['/'] {
            Some(Seq::<Option<Seq<char>>>::empty())
        } else {
            None
        },
        PatView::Segments(ops) => match_ops(ops, path),
    }
}

/// Every operation is a literal.
pub open spec fn all_literals(ops: Seq<OpView>) -> bool {
    forall|i: int| 0 <= i < ops.len() ==> ops[i] is Literal
}

/// The only path a sequence of literal operations accepts: a separator
/// before each literal.
pub open spec fn statics_path(ops: Seq<OpView>) -> Seq<char>
    decreases ops.len(),
{
    if ops.len() == 0 {
        Seq::empty()
    } else {
        match ops[0] {
            OpView::Literal(l) => seq!['/'] + l + statics_path(ops.drop_first()),
            _ => Seq::empty(),
        }
    }
}

/// Literal operations match exactly their own path, with or without one
/// trailing separator, and nothing else.
pub proof fn lemma_match_statics(ops: Seq<OpView>, rem: Seq<char>)
    requires
        all_literals(ops),
        forall|i: int|
            0 <= i < ops.len() ==> (ops[i]->Literal_0).len() >= 1 && (forall|j: int|
                0 <= j < (ops[i]->Literal_0).len() ==> (ops[i]->Literal_0)[j] != '/'),
    ensures
        match_ops(ops, rem) is Some <==> (rem == statics_path(ops) || rem == statics_path(
            ops,
        ).push('/')),
    decreases ops.len(),
{
    let sp = statics_path(ops);
    if ops.len() == 0 {
        assert(sp =~= Seq::<char>::empty());
        assert(Seq::<char>::empty().push('/') =~= seq!['/']);
        if rem.len() == 0 {
            assert(rem =~= Seq::<char>::empty());
        }
        assert(match_ops(ops, rem) is Some <==> (rem == sp || rem == sp.push('/')));
    } else {
        let l = ops[0]->Literal_0;
        let ll = l.len() as int;
        assert(ops[0] == OpView::Literal(l));
        assert(forall|i: int|
            0 <= i < ops.drop_first().len() ==> ops.drop_first()[i] == ops[i + 1]);
        lemma_match_statics(ops.drop_first(), rem.skip(1 + ll));
        let sp2 = statics_path(ops.drop_first());
        assert(sp == seq!['/'] + l + sp2);
        if rem.len() >= 1 + ll && rem[0] == '/' && rem.subrange(1, 1 + ll) == l {
            // The head literal consumes its separator and text; the rest
            // decides, and the remainder reassembles to the full path.
            assert(match_ops(ops, rem) == match_ops(ops.drop_first(), rem.skip(1 + ll)));
            if match_ops(ops, rem) is Some {
                assert(rem =~= seq!['/'] + rem.subrange(1, 1 + ll) + rem.skip(1 + ll));
                if rem.skip(1 + ll) == sp2 {
                    assert(rem =~= sp);
                } else {
                    assert(rem.skip(1 + ll) == sp2.push('/'));
                    assert(rem =~= sp.push('/'));
                }
            }
            if rem == sp {
                assert(rem.skip(1 + ll) =~= sp2);
            }
            if rem == sp.push('/') {
                assert(rem.skip(1 + ll) =~= sp2.push('/'));
            }
            assert(match_ops(ops, rem) is Some <==> (rem == sp || rem == sp.push('/')));
        } else {
            assert(match_ops(ops, rem) is None);
            // A path equal to the literals' own path always satisfies the
            // head literal's conditions.
            assert(sp.len() == 1 + ll + sp2.len());
            if rem == sp {
                assert(rem.len() == 1 + ll + sp2.len());
                assert(rem[0] == sp[0]);
                assert(sp[0] == (seq!['/'] + l)[0]);
                assert forall|j: int| 0 <= j < ll implies rem.subrange(1, 1 + ll)[j] == l[j] by {
                    assert(rem[1 + j] == sp[1 + j]);
                    assert(sp[1 + j] == (seq!['/'] + l)[1 + j]);
                }
                assert(rem.subrange(1, 1 + ll) =~= l);
                assert(false);
            }
            if rem == sp.push('/') {
                assert(rem.len() == 1 + ll + sp2.len() + 1);
                assert(rem[0] == sp[0]);
                assert(sp[0] == (seq!['/'] + l)[0]);
                assert forall|j: int| 0 <= j < ll implies rem.subrange(1, 1 + ll)[j] == l[j] by {
                    assert(rem[1 + j] == sp[1 + j]);
                    assert(sp[1 + j] == (seq!['/'] + l)[1 + j]);
                }
                assert(rem.subrange(1, 1 + ll) =~= l);
                assert(false);
            }
            assert(!(rem == sp || rem == sp.push('/')));
            assert(match_ops(ops, rem) is Some <==> (rem == sp || rem == sp.push('/')));
        }
    }
}

/// The raw notation texts of a segment sequence.
pub open spec fn raws_of(segs: Seq<SegView>) -> Seq<Seq<char>> {
    segs.map_values(|sv: SegView| sv.raw)
}

pub proof fn lemma_statics_join(segs: Seq<SegView>)
    requires
        segs.len() >= 1,
        forall|i: int| 0 <= i < segs.len() ==> segs[i].segment_type == SegmentType::Static,
    ensures
        statics_path(ops_of_segs(segs)) == seq!['/'] + crate::text::join_with(
            raws_of(segs),
            '/',
        ),
    decreases segs.len(),
{
    let ops = ops_of_segs(segs);
    assert(ops[0] == op_of_seg(segs[0]));
    assert(ops.drop_first() =~= ops_of_segs(segs.drop_first()));
    let raws = raws_of(segs);
    assert(raws[0] == segs[0].raw);
    assert(raws.drop_first() =~= raws_of(segs.drop_first()));
    if segs.len() == 1 {
        assert(statics_path(ops.drop_first()) =~= Seq::<char>::empty());
        assert(statics_path(ops) =~= seq!['/'] + segs[0].raw);
        assert(crate::text::join_with(raws, '/') == segs[0].raw);
    } else {
        lemma_statics_join(segs.drop_first());
        assert(statics_path(ops) == seq!['/'] + segs[0].raw + statics_path(ops.drop_first()));
        assert(crate::text::join_with(raws, '/') == segs[0].raw + seq!['/']
            + crate::text::join_with(raws.drop_first(), '/'));
        assert(seq!['/'] + segs[0].raw + (seq!['/'] + crate::text::join_with(
            raws.drop_first(),
            '/',
        )) =~= seq!['/'] + (segs[0].raw + seq!['/'] + crate::text::join_with(
            raws.drop_first(),
            '/',
        )));
    }
}

/// A route path of static segments alone compiles to a pattern that
/// matches exactly the path itself, with or without a trailing separator,
/// and no other string; the root route's pattern matches exactly the root
/// path. Stated over canonical route paths: a leading separator, no empty
/// segment.
pub proof fn lemma_static_route_matches_exactly(path: Seq<char>, target: Seq<char>)
    requires
        path.len() >= 1,
        path[0] == '/',
        forall|k: int|
            0 <= k < split_on(path.skip(1), '/').len() ==> split_on(path.skip(1), '/')[k].len()
                >= 1,
        forall|i: int|
            0 <= i < spec_parse_route_segments(path).len() ==> spec_parse_route_segments(
                path,
            )[i].segment_type == SegmentType::Static,
    ensures
        spec_parse_pattern(spec_compile_route(path)) == Some(pat_of_route(path)),
        path == seq!['/'] ==> (spec_match(pat_of_route(path), target) is Some <==> target
            == path),
        path != seq!['/'] ==> (spec_match(pat_of_route(path), target) is Some <==> (target == path
            || target == path.push('/'))),
{
    lemma_compile_parse_round_trip(path);
    if path == seq!['/'] {
    } else {
        let pieces = split_on(path.skip(1), '/');
        let segs = spec_parse_route_segments(path);
        crate::text::lemma_split_on_no_sep(path.skip(1), '/');
        crate::segments::lemma_parsed_of_pieces_all_nonempty(pieces);
        crate::segments::lemma_parsed_pieces_raws(pieces);
        let ops = ops_of_segs(segs);
        assert(segs.len() == pieces.len());
        assert(segs.len() >= 1);
        assert forall|i: int| 0 <= i < ops.len() implies ops[i] is Literal && (
        ops[i]->Literal_0).len() >= 1 && (forall|j: int|
            0 <= j < (ops[i]->Literal_0).len() ==> (ops[i]->Literal_0)[j] != '/') by {
            assert(ops[i] == op_of_seg(segs[i]));
        }
        lemma_match_statics(ops, target);
        lemma_statics_join(segs);
        assert forall|k: int| 0 <= k < raws_of(segs).len() implies raws_of(segs)[k]
            == pieces[k] by {
            assert(segs[k] == crate::segments::parsed_of(pieces[k]));
        }
        assert(raws_of(segs) =~= pieces);
        crate::text::lemma_join_split(path.skip(1), '/');
        assert(statics_path(ops) =~= seq!['/'] + path.skip(1));
        assert(statics_path(ops) =~= path);
    }
}

fn match_ops_exec(ops: &Vec<MatchOp>, oi: usize, path: &Vec<char>, pos: usize) -> (r: Option<
    Vec<Option<String>>,
>)
    requires
        oi <= ops@.len(),
        pos <= path@.len(),
    ensures
        match r {
            Some(caps) => match_ops(ops_view(ops@).skip(oi as int), path@.skip(pos as int))
                == Some(caps_view(caps@)),
            None => match_ops(ops_view(ops@).skip(oi as int), path@.skip(pos as int)) is None,
        },
    decreases ops@.len() - oi,
{
    let ghost opsr = ops_view(ops@).skip(oi as int);
    let ghost rem = path@.skip(pos as int);
    let n: usize = path.len();
    proof {
        assert(forall|k: int| 0 <= k < rem.len() ==> rem[k] == path@[pos + k]);
        if oi < ops@.len() {
            assert(opsr[0] == ops_view(ops@)[oi as int]);
            assert(ops_view(ops@)[oi as int] == ops@[oi as int]@);
        }
    }
    if oi == ops.len() {
        proof {
            assert(opsr.len() == 0);
        }
        if pos == n {
            proof {
                assert(rem.len() == 0);
                assert(caps_view(Seq::<Option<String>>::empty()) =~= Seq::<
                    Option<Seq<char>>,
                >::empty());
            }
            Some(Vec::new())
        } else if n - pos == 1 && path[pos] == '/' {
            proof {
                assert(rem =~= seq!['/']);
                assert(caps_view(Seq::<Option<String>>::empty()) =~= Seq::<
                    Option<Seq<char>>,
                >::empty());
            }
            Some(Vec::new())
        } else {
            proof {
                assert(rem.len() >= 1);
                if rem == seq!['/'] {
                    assert(rem[0] == '/');
                    assert(false);
                }
            }
            None
        }
    } else {
        match &ops[oi] {
            MatchOp::Literal(lit) => {
                let ll: usize = lit.len();
                if n - pos > ll && path[pos] == '/' {
                    let mut same = true;
                    let mut j: usize = 0;
                    while j < ll
                        invariant
                            ll == lit@.len(),
                            pos + 1 + ll <= n == path@.len(),
                            rem == path@.skip(pos as int),
                            rem.len() == n - pos,
                            j <= ll,
                            same ==> forall|t: int| 0 <= t < j ==> path@[pos + 1 + t] == lit@[t],
                            !same ==> rem.subrange(1, 1 + ll as int) != lit@,
                        decreases ll - j,
                    {
                        if path[pos + 1 + j] != lit[j] {
                            proof {
                                assert(rem.subrange(1, 1 + ll as int)[j as int] == rem[1 + j]);
                                assert(rem[1 + j] == path@[pos + 1 + j]);
                            }
                            same = false;
                        }
                        j = j + 1;
                    }
                    if same {
                        proof {
                            assert(rem.subrange(1, 1 + ll as int) =~= lit@);
                            assert(rem.skip(1 + ll as int) =~= path@.skip(pos + 1 + ll));
                            assert(opsr.drop_first() =~= ops_view(ops@).skip(oi + 1));
                        }
                        match_ops_exec(ops, oi + 1, path, pos + 1 + ll)
                    } else {
                        None
                    }
                } else {
                    None
                }
            },
            MatchOp::Dynamic => {
                if n - pos >= 2 && path[pos] == '/' && path[pos + 1] != '/' {
                    let e = find_char_from(path, '/', pos + 1);
                    proof {
                        assert(rem.skip(1) =~= path@.skip(pos + 1));
                        assert(rem.skip(1 + (e - (pos + 1))) =~= path@.skip(e as int));
                        assert(opsr.drop_first() =~= ops_view(ops@).skip(oi + 1));
                    }
                    let cap = chars_to_string(&subvec(path, pos + 1, e));
                    proof {
                        assert(rem.subrange(1, 1 + (e - (pos + 1))) =~= path@.subrange(
                            pos + 1,
                            e as int,
                        ));
                    }
                    match match_ops_exec(ops, oi + 1, path, e) {
                        Some(caps) => {
                            let mut caps = caps;
                            caps.insert(0, Some(cap));
                            proof {
                                assert(caps_view(caps@) =~= seq![
                                    Some(rem.subrange(1, 1 + find_sep(rem.skip(1), '/'))),
                                ] + caps_view(caps@.drop_first()));
                            }
                            Some(caps)
                        },
                        None => None,
                    }
                } else {
                    None
                }
            },
            MatchOp::CatchAll => {
                if n - pos >= 2 && path[pos] == '/' {
                    let cap = chars_to_string(&subvec(path, pos + 1, n));
                    proof {
                        assert(path@.skip(n as int) =~= Seq::<char>::empty());
                        assert(rem.skip(1) =~= path@.subrange(pos + 1, n as int));
                        assert(opsr.drop_first() =~= ops_view(ops@).skip(oi + 1));
                    }
                    match match_ops_exec(ops, oi + 1, path, n) {
                        Some(caps) => {
                            let mut caps = caps;
                            caps.insert(0, Some(cap));
                            proof {
                                assert(caps_view(caps@) =~= seq![Some(rem.skip(1))] + caps_view(
                                    caps@.drop_first(),
                                ));
                            }
                            Some(caps)
                        },
                        None => None,
                    }
                } else {
                    None
                }
            },
            MatchOp::OptionalCatchAll => {
                if pos == n || (n - pos == 1 && path[pos] == '/') {
                    proof {
                        if pos < n {
                            assert(rem =~= seq!['/']);
                        } else {
                            assert(rem.len() == 0);
                        }
                        assert(opsr.drop_first() =~= ops_view(ops@).skip(oi + 1));
                    }
                    match match_ops_exec(ops, oi + 1, path, pos) {
                        Some(caps) => {
                            let mut caps = caps;
                            caps.insert(0, None);
                            proof {
                                assert(caps_view(caps@) =~= seq![Option::<Seq<char>>::None]
                                    + caps_view(caps@.drop_first()));
                            }
                            Some(caps)
                        },
                        None => None,
                    }
                } else if path[pos] == '/' {
                    proof {
                        assert(rem.len() >= 2);
                        if rem == seq!['/'] {
                            assert(false);
                        }
                        assert(path@.skip(n as int) =~= Seq::<char>::empty());
                        assert(rem.skip(1) =~= path@.subrange(pos + 1, n as int));
                        assert(opsr.drop_first() =~= ops_view(ops@).skip(oi + 1));
                    }
                    let cap = chars_to_string(&subvec(path, pos + 1, n));
                    match match_ops_exec(ops, oi + 1, path, n) {
                        Some(caps) => {
                            let mut caps = caps;
                            caps.insert(0, Some(cap));
                            proof {
                                assert(caps_view(caps@) =~= seq![Some(rem.skip(1))] + caps_view(
                                    caps@.drop_first(),
                                ));
                            }
                            Some(caps)
                        },
                        None => None,
                    }
                } else {
                    proof {
                        assert(rem.len() >= 1);
                        if rem == seq!['/'] {
                            assert(rem[0] == '/');
                            assert(false);
                        }
                    }
                    None
                }
            },
        }
    }
}

/// Match a parsed pattern against a pathname, returning the captures of
/// each capturing segment in order.
pub fn match_pattern(pat: &CompiledPattern, path: &Vec<char>) -> (r: Option<Vec<Option<String>>>)
    ensures
        match r {
            Some(caps) => spec_match(pat@, path@) == Some(caps_view(caps@)),
            None => spec_match(pat@, path@) is None,
        },
{
    match pat {
        CompiledPattern::Root => {
            if path.len() == 1 && path[0] == '/' {
                proof {
                    assert(path@ =~= seq!['/']);
                    assert(caps_view(Seq::<Option<String>>::empty()) =~= Seq::<
                        Option<Seq<char>>,
                    >::empty());
                }
                Some(Vec::new())
            } else {
                proof {
                    if path@ == seq!['/'] {
                        assert(path@.len() == 1 && path@[0] == '/');
                        assert(false);
                    }
                }
                None
            }
        },
        CompiledPattern::Segments(ops) => {
            proof {
                assert(ops_view(ops@).skip(0) =~= ops_view(ops@));
                assert(path@.skip(0) =~= path@);
            }
            match_ops_exec(ops, 0, path, 0)
        },
    }
}

} // verus!
