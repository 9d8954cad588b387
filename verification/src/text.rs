//! Character-sequence utilities shared by the route model: finding a
//! separator, splitting on it, joining with it, and length bookkeeping.

use vstd::prelude::*;

verus! {

/// Index of the first occurrence of `sep` in `s`, or `s.len()` if absent.
pub open spec fn find_sep(s: Seq<char>, sep: char) -> int
    decreases s.len(),
{
    if s.len() == 0 {
        0
    } else if s[0] == sep {
        0
    } else {
        1 + find_sep(s.drop_first(), sep)
    }
}

pub proof fn lemma_find_sep(s: Seq<char>, sep: char)
    ensures
        0 <= find_sep(s, sep) <= s.len(),
        forall|j: int| 0 <= j < find_sep(s, sep) ==> s[j] != sep,
        find_sep(s, sep) < s.len() ==> s[find_sep(s, sep)] == sep,
    decreases s.len(),
{
    if s.len() != 0 && s[0] != sep {
        lemma_find_sep(s.drop_first(), sep);
        assert forall|j: int| 0 <= j < find_sep(s, sep) implies s[j] != sep by {
            if j >= 1 {
                assert(s[j] == s.drop_first()[j - 1]);
            }
        }
    }
}

/// `find_sep` is the unique index with nothing equal to `sep` before it and
/// `sep` (or the end) at it.
pub proof fn lemma_find_sep_is(s: Seq<char>, sep: char, i: int)
    requires
        0 <= i <= s.len(),
        forall|j: int| 0 <= j < i ==> s[j] != sep,
        i < s.len() ==> s[i] == sep,
    ensures
        find_sep(s, sep) == i,
    decreases s.len(),
{
    if s.len() != 0 && s[0] != sep {
        assert(forall|j: int| 0 <= j < i - 1 ==> s.drop_first()[j] != sep);
        lemma_find_sep_is(s.drop_first(), sep, i - 1);
    }
}

#[via_fn]
proof fn split_on_decreases(s: Seq<char>, sep: char) {
    lemma_find_sep(s, sep);
}

/// The pieces of `s` between occurrences of `sep`; always at least one piece.
pub open spec fn split_on(s: Seq<char>, sep: char) -> Seq<Seq<char>>
    decreases s.len(),
    via split_on_decreases
{
    let i = find_sep(s, sep);
    if i == s.len() {
        seq![s]
    } else {
        seq![s.take(i)] + split_on(s.skip(i + 1), sep)
    }
}

/// Total length of a sequence of pieces.
pub open spec fn sum_lens(pieces: Seq<Seq<char>>) -> int
    decreases pieces.len(),
{
    if pieces.len() == 0 {
        0
    } else {
        pieces[0].len() + sum_lens(pieces.drop_first())
    }
}

pub proof fn lemma_sum_lens_nonneg(pieces: Seq<Seq<char>>)
    ensures
        sum_lens(pieces) >= 0,
    decreases pieces.len(),
{
    if pieces.len() != 0 {
        lemma_sum_lens_nonneg(pieces.drop_first());
    }
}

pub proof fn lemma_sum_lens_skip(pieces: Seq<Seq<char>>, k: int)
    requires
        0 <= k <= pieces.len(),
    ensures
        sum_lens(pieces.skip(k)) <= sum_lens(pieces),
        pieces.skip(k).len() <= pieces.len(),
    decreases k,
{
    if k == 0 {
        assert(pieces.skip(0) =~= pieces);
    } else {
        lemma_sum_lens_skip(pieces.drop_first(), k - 1);
        assert(pieces.drop_first().skip(k - 1) =~= pieces.skip(k));
    }
}

/// Pointwise shorter pieces give a smaller total.
pub proof fn lemma_sum_lens_pointwise(a: Seq<Seq<char>>, b: Seq<Seq<char>>)
    requires
        a.len() == b.len(),
        forall|i: int| 0 <= i < a.len() ==> a[i].len() <= b[i].len(),
    ensures
        sum_lens(a) <= sum_lens(b),
    decreases a.len(),
{
    if a.len() != 0 {
        lemma_sum_lens_pointwise(a.drop_first(), b.drop_first());
    }
}

/// Splitting removes exactly the separators: piece lengths plus separator
/// count give back the string's length, and the piece count is bounded.
pub proof fn lemma_split_on_lens(s: Seq<char>, sep: char)
    ensures
        1 <= split_on(s, sep).len() <= s.len() + 1,
        sum_lens(split_on(s, sep)) == s.len() - (split_on(s, sep).len() - 1),
    decreases s.len(),
{
    lemma_find_sep(s, sep);
    let i = find_sep(s, sep);
    if i == s.len() {
        assert(split_on(s, sep) =~= seq![s]);
        assert(seq![s].drop_first() =~= Seq::<Seq<char>>::empty());
        assert(sum_lens(seq![s]) == s.len() + sum_lens(Seq::<Seq<char>>::empty()));
    } else {
        lemma_split_on_lens(s.skip(i + 1), sep);
        let rest = split_on(s.skip(i + 1), sep);
        assert(split_on(s, sep) == seq![s.take(i)] + rest);
        assert((seq![s.take(i)] + rest).drop_first() =~= rest);
        assert(sum_lens(seq![s.take(i)] + rest) == s.take(i).len() + sum_lens(rest));
    }
}

/// No piece of a split contains the separator.
pub proof fn lemma_split_on_no_sep(s: Seq<char>, sep: char)
    ensures
        forall|k: int, j: int|
            0 <= k < split_on(s, sep).len() && 0 <= j < split_on(s, sep)[k].len()
                ==> split_on(s, sep)[k][j] != sep,
    decreases s.len(),
{
    lemma_find_sep(s, sep);
    let i = find_sep(s, sep);
    if i == s.len() {
        assert forall|k: int, j: int|
            0 <= k < split_on(s, sep).len() && 0 <= j < split_on(s, sep)[k].len()
                implies split_on(s, sep)[k][j] != sep by {
            assert(split_on(s, sep)[k] == s);
        }
    } else {
        lemma_split_on_no_sep(s.skip(i + 1), sep);
        let rest = split_on(s.skip(i + 1), sep);
        assert forall|k: int, j: int|
            0 <= k < split_on(s, sep).len() && 0 <= j < split_on(s, sep)[k].len()
                implies split_on(s, sep)[k][j] != sep by {
            if k == 0 {
                assert(split_on(s, sep)[0] == s.take(i));
                assert(s.take(i)[j] == s[j]);
            } else {
                assert(split_on(s, sep)[k] == rest[k - 1]);
            }
        }
    }
}

/// Pieces joined with `sep` between consecutive pieces.
pub open spec fn join_with(pieces: Seq<Seq<char>>, sep: char) -> Seq<char>
    decreases pieces.len(),
{
    if pieces.len() == 0 {
        Seq::empty()
    } else if pieces.len() == 1 {
        pieces[0]
    } else {
        pieces[0] + seq![sep] + join_with(pieces.drop_first(), sep)
    }
}

pub proof fn lemma_join_with_len(pieces: Seq<Seq<char>>, sep: char)
    ensures
        join_with(pieces, sep).len() <= sum_lens(pieces) + pieces.len(),
    decreases pieces.len(),
{
    lemma_sum_lens_nonneg(pieces);
    if pieces.len() == 1 {
        assert(pieces.drop_first() =~= Seq::<Seq<char>>::empty());
        assert(sum_lens(Seq::<Seq<char>>::empty()) == 0);
        assert(sum_lens(pieces) == pieces[0].len());
    } else if pieces.len() > 1 {
        lemma_join_with_len(pieces.drop_first(), sep);
        assert(join_with(pieces, sep).len() == pieces[0].len() + 1 + join_with(
            pieces.drop_first(),
            sep,
        ).len());
        assert(sum_lens(pieces) == pieces[0].len() + sum_lens(pieces.drop_first()));
    }
}

/// Joining the pieces of a split gives the string back.
pub proof fn lemma_join_split(s: Seq<char>, sep: char)
    ensures
        join_with(split_on(s, sep), sep) == s,
    decreases s.len(),
{
    lemma_find_sep(s, sep);
    let i = find_sep(s, sep);
    if i == s.len() {
        assert(join_with(seq![s], sep) == s);
    } else {
        lemma_join_split(s.skip(i + 1), sep);
        let rest = split_on(s.skip(i + 1), sep);
        assert(rest.len() >= 1);
        let whole = seq![s.take(i)] + rest;
        assert(whole[0] == s.take(i));
        assert(whole.drop_first() =~= rest);
        assert(join_with(whole, sep) == s.take(i) + seq![sep] + join_with(rest, sep));
        assert(s.take(i) + seq![sep] + s.skip(i + 1) =~= s);
    }
}

/// Splitting a join gives the pieces back, provided there is at least one
/// piece and no piece contains the separator.
pub proof fn lemma_split_join(p: Seq<Seq<char>>, sep: char)
    requires
        p.len() >= 1,
        forall|k: int, j: int| 0 <= k < p.len() && 0 <= j < p[k].len() ==> p[k][j] != sep,
    ensures
        split_on(join_with(p, sep), sep) == p,
    decreases p.len(),
{
    let s = join_with(p, sep);
    if p.len() == 1 {
        assert(forall|j: int| 0 <= j < s.len() ==> s[j] != sep);
        lemma_find_sep_is(s, sep, s.len() as int);
        assert(split_on(s, sep) =~= seq![s]);
        assert(seq![s] =~= p);
    } else {
        assert(s == p[0] + seq![sep] + join_with(p.drop_first(), sep));
        assert forall|j: int| 0 <= j < p[0].len() implies s[j] != sep by {
            assert(s[j] == p[0][j]);
        }
        assert(s[p[0].len() as int] == sep);
        lemma_find_sep_is(s, sep, p[0].len() as int);
        assert(forall|k: int, j: int|
            0 <= k < p.drop_first().len() && 0 <= j < p.drop_first()[k].len()
                ==> p.drop_first()[k][j] != sep);
        lemma_split_join(p.drop_first(), sep);
        assert(s.take(p[0].len() as int) =~= p[0]);
        assert(s.skip(p[0].len() as int + 1) =~= join_with(p.drop_first(), sep));
        assert(split_on(s, sep) == seq![p[0]] + split_on(s.skip(p[0].len() as int + 1), sep));
        assert(seq![p[0]] + p.drop_first() =~= p);
    }
}

/// The characters of a `&str`, as a vector.
pub fn str_to_chars(s: &str) -> (r: Vec<char>)
    ensures
        r@ == s@,
{
    let n: usize = s.unicode_len();
    let mut r: Vec<char> = Vec::new();
    let mut i: usize = 0;
    while i < n
        invariant
            n == s@.len(),
            i <= n,
            r@ == s@.take(i as int),
        decreases n - i,
    {
        r.push(s.get_char(i));
        assert(r@ =~= s@.take(i + 1));
        i = i + 1;
    }
    assert(r@ =~= s@);
    r
}

/// Relies on std's `String: FromIterator<char>`: collecting characters
/// yields the string whose characters are exactly the collected ones.
#[verifier::external_body]
pub(crate) fn chars_to_string(v: &Vec<char>) -> (r: String)
    ensures
        r@ == v@,
{
    v.iter().collect()
}

/// Copy of `s[from..to]`.
pub fn subvec(s: &Vec<char>, from: usize, to: usize) -> (r: Vec<char>)
    requires
        from <= to <= s@.len(),
    ensures
        r@ == s@.subrange(from as int, to as int),
{
    let mut r: Vec<char> = Vec::new();
    let mut i: usize = from;
    while i < to
        invariant
            from <= i <= to <= s@.len(),
            r@ == s@.subrange(from as int, i as int),
        decreases to - i,
    {
        r.push(s[i]);
        assert(r@ =~= s@.subrange(from as int, i + 1));
        i = i + 1;
    }
    r
}

/// First index `>= from` holding `sep`, or the length if there is none;
/// equivalently, `from + find_sep` of the remainder.
pub fn find_char_from(s: &Vec<char>, sep: char, from: usize) -> (i: usize)
    requires
        from <= s@.len(),
    ensures
        from <= i <= s@.len(),
        i - from == find_sep(s@.skip(from as int), sep),
        forall|j: int| from <= j < i ==> s@[j] != sep,
        i < s@.len() ==> s@[i as int] == sep,
{
    let n: usize = s.len();
    let mut i: usize = from;
    while i < n && s[i] != sep
        invariant
            from <= i <= n == s@.len(),
            forall|j: int| from <= j < i ==> s@[j] != sep,
        decreases n - i,
    {
        i = i + 1;
    }
    proof {
        let rem = s@.skip(from as int);
        assert(forall|j: int|
            0 <= j < i - from ==> rem[j] == s@[j + from] && s@[j + from] != sep);
        lemma_find_sep_is(rem, sep, i - from);
    }
    i
}

/// Character-for-character equality of two vectors.
pub fn chars_eq(a: &Vec<char>, b: &Vec<char>) -> (r: bool)
    ensures
        r == (a@ == b@),
{
    if a.len() != b.len() {
        return false;
    }
    let n: usize = a.len();
    let mut i: usize = 0;
    while i < n
        invariant
            n == a@.len() == b@.len(),
            i <= n,
            forall|j: int| 0 <= j < i ==> a@[j] == b@[j],
        decreases n - i,
    {
        if a[i] != b[i] {
            return false;
        }
        i = i + 1;
    }
    proof {
        assert(a@ =~= b@);
    }
    true
}

/// View of a vector of character vectors as a sequence of sequences.
pub open spec fn vecs_view(r: Seq<Vec<char>>) -> Seq<Seq<char>> {
    r.map_values(|v: Vec<char>| v@)
}

/// The pieces of `s[from..]` between occurrences of `sep`.
pub fn split_chars_from(s: &Vec<char>, sep: char, from: usize) -> (r: Vec<Vec<char>>)
    requires
        from <= s@.len(),
    ensures
        vecs_view(r@) == split_on(s@.skip(from as int), sep),
    decreases s@.len() - from,
{
    let n: usize = s.len();
    let i: usize = find_char_from(s, sep, from);
    if i == n {
        let piece = subvec(s, from, n);
        let mut r: Vec<Vec<char>> = Vec::new();
        r.push(piece);
        proof {
            assert(s@.skip(from as int) =~= s@.subrange(from as int, n as int));
            assert(vecs_view(r@) =~= seq![s@.skip(from as int)]);
        }
        r
    } else {
        let piece = subvec(s, from, i);
        let mut r = split_chars_from(s, sep, i + 1);
        r.insert(0, piece);
        proof {
            let rem = s@.skip(from as int);
            let k = find_sep(rem, sep);
            assert(k == i - from);
            assert(rem.take(k) =~= s@.subrange(from as int, i as int));
            assert(rem.skip(k + 1) =~= s@.skip(i + 1));
            assert(vecs_view(r@) =~= seq![rem.take(k)] + split_on(rem.skip(k + 1), sep));
        }
        r
    }
}

} // verus!
