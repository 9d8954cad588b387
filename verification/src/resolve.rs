//! Resolution: find the first route of a manifest whose pattern matches a
//! request target, and bind its path parameters and query values.
//!
//! The target is split at the first `?` into pathname and query string. The
//! query string is split on `&`; each pair is split at its first `=`, a pair
//! with no `=` yields an empty value, a pair with an empty key is dropped,
//! and on duplicate keys the last occurrence wins. Routes are scanned in
//! stored order; a stored pattern outside the compiled grammar aborts the
//! resolution with an error.

use vstd::prelude::*;
use crate::matcher::{caps_view, match_pattern, spec_match};
use crate::pattern::{parse_pattern, spec_parse_pattern};
use crate::text::{chars_to_string, find_char_from, find_sep, split_chars_from, split_on,
    str_to_chars, subvec, vecs_view};
use crate::types::{PatternError, RecordView, RouteRecord, RouteState, StateView, records_view};

verus! {

/// View of an association list of strings.
pub open spec fn pairs_view(v: Seq<(String, String)>) -> Seq<(Seq<char>, Seq<char>)> {
    v.map_values(|p: (String, String)| (p.0@, p.1@))
}

/// Index of the first entry with key `k`, or the length if there is none.
pub open spec fn find_key(m: Seq<(Seq<char>, Seq<char>)>, k: Seq<char>) -> int
    decreases m.len(),
{
    if m.len() == 0 {
        0
    } else if m[0].0 == k {
        0
    } else {
        1 + find_key(m.drop_first(), k)
    }
}

pub proof fn lemma_find_key_is(m: Seq<(Seq<char>, Seq<char>)>, k: Seq<char>, i: int)
    requires
        0 <= i <= m.len(),
        forall|j: int| 0 <= j < i ==> m[j].0 != k,
        i < m.len() ==> m[i].0 == k,
    ensures
        find_key(m, k) == i,
    decreases m.len(),
{
    if m.len() != 0 && m[0].0 != k {
        assert(forall|j: int| 0 <= j < i - 1 ==> m.drop_first()[j].0 != k);
        lemma_find_key_is(m.drop_first(), k, i - 1);
    }
}

/// The association list with `k` bound to `v`: the first entry with key `k`
/// is replaced, or the pair appended where the key is new.
pub open spec fn upsert(
    m: Seq<(Seq<char>, Seq<char>)>,
    k: Seq<char>,
    v: Seq<char>,
) -> Seq<(Seq<char>, Seq<char>)> {
    if find_key(m, k) < m.len() {
        m.update(find_key(m, k), (k, v))
    } else {
        m.push((k, v))
    }
}

/// One query pair folded into the mapping: split at the first `=`, a
/// missing `=` yields an empty value, an empty key is dropped.
pub open spec fn add_query_pair(
    m: Seq<(Seq<char>, Seq<char>)>,
    p: Seq<char>,
) -> Seq<(Seq<char>, Seq<char>)> {
    let i = find_sep(p, '=');
    let k = p.take(i);
    let v = if i < p.len() {
        p.skip(i + 1)
    } else {
        Seq::<char>::empty()
    };
    if k.len() == 0 {
        m
    } else {
        upsert(m, k, v)
    }
}

pub open spec fn fold_query(
    pairs: Seq<Seq<char>>,
    acc: Seq<(Seq<char>, Seq<char>)>,
) -> Seq<(Seq<char>, Seq<char>)>
    decreases pairs.len(),
{
    if pairs.len() == 0 {
        acc
    } else {
        fold_query(pairs.drop_first(), add_query_pair(acc, pairs[0]))
    }
}

/// The key-to-value mapping of a query string; later occurrences of a key
/// override earlier ones, and an empty string holds no pairs.
pub open spec fn spec_parse_query(q: Seq<char>) -> Seq<(Seq<char>, Seq<char>)> {
    if q.len() == 0 {
        Seq::empty()
    } else {
        fold_query(split_on(q, '&'), Seq::empty())
    }
}

/// Bind `k` to `v` in the list, replacing the first entry with that key or
/// appending the pair where the key is new.
fn upsert_exec(m: &mut Vec<(String, String)>, k: String, v: String)
    ensures
        pairs_view(final(m)@) == upsert(pairs_view(old(m)@), k@, v@),
{
    let n: usize = m.len();
    let mut j: usize = 0;
    while j < n
        invariant
            m@ == old(m)@,
            n == m@.len(),
            j <= n,
            forall|t: int| 0 <= t < j ==> pairs_view(m@)[t].0 != k@,
        decreases n - j,
    {
        if m[j].0 == k {
            proof {
                lemma_find_key_is(pairs_view(m@), k@, j as int);
            }
            let ghost pre = pairs_view(m@);
            m.remove(j);
            m.insert(j, (k, v));
            proof {
                assert(pairs_view(m@) =~= upsert(pre, k@, v@));
            }
            return ;
        }
        proof {
            assert(pairs_view(m@)[j as int] == (m@[j as int].0@, m@[j as int].1@));
        }
        j = j + 1;
    }
    proof {
        lemma_find_key_is(pairs_view(m@), k@, n as int);
    }
    let ghost pre = pairs_view(m@);
    m.push((k, v));
    proof {
        assert(pairs_view(m@) =~= pre.push((k@, v@)));
    }
}

/// Parse a query string into its key-to-value mapping.
pub fn parse_query_string(query: &str) -> (r: Vec<(String, String)>)
    ensures
        pairs_view(r@) == spec_parse_query(query@),
{
    let chars = str_to_chars(query);
    let mut acc: Vec<(String, String)> = Vec::new();
    if chars.len() == 0 {
        proof {
            assert(pairs_view(acc@) =~= Seq::<(Seq<char>, Seq<char>)>::empty());
        }
        return acc;
    }
    proof {
        assert(chars@.skip(0) =~= chars@);
    }
    let pieces = split_chars_from(&chars, '&', 0);
    proof {
        assert(vecs_view(pieces@).skip(0) =~= vecs_view(pieces@));
        assert(pairs_view(acc@) =~= Seq::<(Seq<char>, Seq<char>)>::empty());
        assert(vecs_view(pieces@) == split_on(query@, '&'));
    }
    let n: usize = pieces.len();
    let mut i: usize = 0;
    while i < n
        invariant
            n == pieces@.len(),
            i <= n,
            spec_parse_query(query@) == fold_query(
                vecs_view(pieces@).skip(i as int),
                pairs_view(acc@),
            ),
        decreases n - i,
    {
        proof {
            assert(vecs_view(pieces@).skip(i as int).drop_first() =~= vecs_view(pieces@).skip(
                i + 1,
            ));
            assert(vecs_view(pieces@).skip(i as int)[0] == pieces@[i as int]@);
        }
        let piece = &pieces[i];
        let pn: usize = piece.len();
        let eq = find_char_from(piece, '=', 0);
        proof {
            assert(piece@.skip(0) =~= piece@);
        }
        let key = subvec(piece, 0, eq);
        proof {
            assert(key@ =~= piece@.take(eq as int));
        }
        if key.len() > 0 {
            let val = if eq < pn {
                subvec(piece, eq + 1, pn)
            } else {
                Vec::new()
            };
            proof {
                if eq < pn {
                    assert(val@ =~= piece@.skip(eq + 1));
                } else {
                    assert(val@ =~= Seq::<char>::empty());
                }
            }
            let ks = chars_to_string(&key);
            let vs = chars_to_string(&val);
            upsert_exec(&mut acc, ks, vs);
        }
        i = i + 1;
    }
    proof {
        assert(vecs_view(pieces@).skip(n as int) =~= Seq::<Seq<char>>::empty());
    }
    acc
}

/// The path parameters bound by a match: capture entries paired with the
/// route's parameter names by position; an absent capture binds nothing.
pub open spec fn bind_params(
    names: Seq<Seq<char>>,
    caps: Seq<Option<Seq<char>>>,
    acc: Seq<(Seq<char>, Seq<char>)>,
) -> Seq<(Seq<char>, Seq<char>)>
    decreases names.len(),
{
    if names.len() == 0 || caps.len() == 0 {
        acc
    } else {
        let acc2 = match caps[0] {
            Some(v) => upsert(acc, names[0], v),
            None => acc,
        };
        bind_params(names.drop_first(), caps.drop_first(), acc2)
    }
}

/// The first route whose pattern matches the pathname, with its captures;
/// a stored pattern outside the grammar is an error.
pub open spec fn scan_routes(routes: Seq<RecordView>, pathname: Seq<char>) -> Result<
    Option<(RecordView, Seq<Option<Seq<char>>>)>,
    Seq<char>,
>
    decreases routes.len(),
{
    if routes.len() == 0 {
        Ok(None)
    } else {
        match spec_parse_pattern(routes[0].regex) {
            None => Err(routes[0].regex),
            Some(pat) => match spec_match(pat, pathname) {
                Some(caps) => Ok(Some((routes[0], caps))),
                None => scan_routes(routes.drop_first(), pathname),
            },
        }
    }
}

/// The outcome of resolving a target against a route list: the state for
/// the first matching route, `None` where no route matches, or the first
/// malformed stored pattern.
pub open spec fn spec_resolve(routes: Seq<RecordView>, target: Seq<char>) -> Result<
    Option<StateView>,
    Seq<char>,
> {
    let qi = find_sep(target, '?');
    let pathname = target.take(qi);
    let qs = if qi < target.len() {
        target.skip(qi + 1)
    } else {
        Seq::<char>::empty()
    };
    match scan_routes(routes, pathname) {
        Err(p) => Err(p),
        Ok(None) => Ok(None),
        Ok(Some(rc)) => Ok(
            Some(
                StateView {
                    path: pathname,
                    params: bind_params(rc.0.param_names, rc.1, Seq::empty()),
                    query: spec_parse_query(qs),
                    matched: Some(rc.0),
                },
            ),
        ),
    }
}

/// Resolution is deterministic: the outcome is a function of the manifest's
/// routes and the target alone, so resolving the same target against the
/// same routes twice gives the same matched route, parameters and query.
pub proof fn lemma_resolution_deterministic(
    routes: Seq<RecordView>,
    target: Seq<char>,
    r1: Result<Option<StateView>, Seq<char>>,
    r2: Result<Option<StateView>, Seq<char>>,
)
    requires
        r1 == spec_resolve(routes, target),
        r2 == spec_resolve(routes, target),
    ensures
        r1 == r2,
{
}

/// Copy of a route record.
fn clone_record(r: &RouteRecord) -> (c: RouteRecord)
    ensures
        c@ == r@,
{
    let n: usize = r.param_names.len();
    let mut names: Vec<String> = Vec::new();
    let mut j: usize = 0;
    while j < n
        invariant
            n == r.param_names@.len(),
            j <= n,
            names@.len() == j,
            forall|t: int| 0 <= t < j ==> names@[t]@ == r.param_names@[t]@,
        decreases n - j,
    {
        names.push(r.param_names[j].clone());
        j = j + 1;
    }
    let c = RouteRecord {
        path: r.path.clone(),
        regex: r.regex.clone(),
        param_names: names,
        score: r.score,
        file_path: r.file_path.clone(),
    };
    proof {
        assert(c@.param_names =~= r@.param_names);
        assert(c@ =~= r@);
    }
    c
}

/// Resolve a request target against a priority-ordered route list.
///
/// Returns the state for the first (highest-priority) matching route,
/// `Ok(None)` where no route matches, and an error naming the first stored
/// pattern that is not in the compiled grammar.
pub fn resolve_route(target: &str, routes: &Vec<RouteRecord>) -> (r: Result<
    Option<RouteState>,
    PatternError,
>)
    ensures
        match r {
            Ok(Some(st)) => spec_resolve(records_view(routes@), target@) == Ok::<
                Option<StateView>,
                Seq<char>,
            >(Some(st@)),
            Ok(None) => spec_resolve(records_view(routes@), target@) == Ok::<
                Option<StateView>,
                Seq<char>,
            >(None),
            Err(e) => spec_resolve(records_view(routes@), target@) == Err::<
                Option<StateView>,
                Seq<char>,
            >(e@),
        },
{
    let chars = str_to_chars(target);
    proof {
        assert(chars@.skip(0) =~= chars@);
    }
    let qi = find_char_from(&chars, '?', 0);
    let pathname_chars = subvec(&chars, 0, qi);
    proof {
        assert(pathname_chars@ =~= target@.take(qi as int));
    }
    let query_string = if qi < chars.len() {
        let qv = subvec(&chars, qi + 1, chars.len());
        proof {
            assert(qv@ =~= target@.skip(qi + 1));
        }
        chars_to_string(&qv)
    } else {
        String::new()
    };
    let query = parse_query_string(query_string.as_str());
    let ghost pathname = target@.take(qi as int);

    proof {
        assert(records_view(routes@).skip(0) =~= records_view(routes@));
    }
    let n: usize = routes.len();
    let mut i: usize = 0;
    while i < n
        invariant
            n == routes@.len(),
            i <= n,
            query_string@.len() == 0 ==> pairs_view(query@) == spec_parse_query(
                query_string@,
            ),
            pairs_view(query@) == spec_parse_query(
                if find_sep(target@, '?') < target@.len() {
                    target@.skip(find_sep(target@, '?') + 1)
                } else {
                    Seq::<char>::empty()
                },
            ),
            pathname == target@.take(find_sep(target@, '?')),
            pathname_chars@ == pathname,
            qi == find_sep(target@, '?'),
            scan_routes(records_view(routes@), pathname) == scan_routes(
                records_view(routes@).skip(i as int),
                pathname,
            ),
        decreases n - i,
    {
        proof {
            assert(records_view(routes@).skip(i as int)[0] == routes@[i as int]@);
            assert(records_view(routes@).skip(i as int).drop_first() =~= records_view(
                routes@,
            ).skip(i + 1));
        }
        match parse_pattern(routes[i].regex.as_str()) {
            None => {
                return Err(PatternError { pattern: routes[i].regex.clone() });
            },
            Some(pat) => {
                match match_pattern(&pat, &pathname_chars) {
                    Some(caps) => {
                        let ghost capsv = caps_view(caps@);
                        let names = &routes[i].param_names;
                        let nn: usize = names.len();
                        let cn: usize = caps.len();
                        let bound = if nn < cn {
                            nn
                        } else {
                            cn
                        };
                        let ghost namesv = routes@[i as int]@.param_names;
                        let mut params: Vec<(String, String)> = Vec::new();
                        proof {
                            assert(pairs_view(params@) =~= Seq::<(Seq<char>, Seq<char>)>::empty());
                            assert(namesv.skip(0) =~= namesv);
                            assert(capsv.skip(0) =~= capsv);
                        }
                        let mut j: usize = 0;
                        while j < bound
                            invariant
                                bound <= nn == names@.len(),
                                bound <= cn == caps@.len(),
                                namesv == names@.map_values(|s: String| s@),
                                capsv == caps_view(caps@),
                                nn == namesv.len(),
                                cn == capsv.len(),
                                bound == if nn < cn {
                                    nn as int
                                } else {
                                    cn as int
                                },
                                j <= bound,
                                bind_params(namesv, capsv, Seq::empty()) == bind_params(
                                    namesv.skip(j as int),
                                    capsv.skip(j as int),
                                    pairs_view(params@),
                                ),
                            decreases bound - j,
                        {
                            proof {
                                assert(namesv.skip(j as int)[0] == names@[j as int]@);
                                assert(capsv.skip(j as int)[0] == caps_view(caps@)[j as int]);
                                assert(namesv.skip(j as int).drop_first() =~= namesv.skip(j + 1));
                                assert(capsv.skip(j as int).drop_first() =~= capsv.skip(j + 1));
                            }
                            match &caps[j] {
                                Some(v) => {
                                    upsert_exec(&mut params, names[j].clone(), v.clone());
                                },
                                None => {},
                            }
                            j = j + 1;
                        }
                        proof {
                            if nn < cn {
                                assert(namesv.skip(bound as int).len() == 0);
                            } else {
                                assert(capsv.skip(bound as int).len() == 0);
                            }
                            assert(bind_params(
                                namesv.skip(bound as int),
                                capsv.skip(bound as int),
                                pairs_view(params@),
                            ) == pairs_view(params@));
                        }
                        let state = RouteState {
                            path: chars_to_string(&pathname_chars),
                            params,
                            query,
                            matched: Some(clone_record(&routes[i])),
                        };
                        proof {
                            assert(state@ =~= StateView {
                                path: pathname,
                                params: bind_params(namesv, capsv, Seq::empty()),
                                query: spec_parse_query(
                                    if find_sep(target@, '?') < target@.len() {
                                        target@.skip(find_sep(target@, '?') + 1)
                                    } else {
                                        Seq::<char>::empty()
                                    },
                                ),
                                matched: Some(routes@[i as int]@),
                            });
                        }
                        return Ok(Some(state));
                    },
                    None => {},
                }
            },
        }
        i = i + 1;
    }
    proof {
        assert(records_view(routes@).skip(n as int).len() == 0);
    }
    Ok(None)
}

} // verus!

