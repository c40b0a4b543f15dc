//! Byte-string utilities: substring search, replacement, trimming.
//!
//! All document text and data-context text in this library is handled as
//! UTF-8 byte strings (`Vec<u8>`); every delimiter the engine cares about
//! is a single ASCII byte, so byte-level scanning never splits a
//! multi-byte character.
use vstd::prelude::*;

use crate::numeric::copy_bytes;

verus! {

/// True when `pat` occurs in `hay` starting exactly at index `i`.
pub open spec fn matches_at(hay: Seq<u8>, pat: Seq<u8>, i: int) -> bool {
    &&& 0 <= i
    &&& i + pat.len() <= hay.len()
    &&& hay.subrange(i, i + pat.len() as int) == pat
}

/// The least index at or after `from` where `pat` occurs in `hay`.
/// An empty pattern is never found.
pub open spec fn spec_find_from(hay: Seq<u8>, pat: Seq<u8>, from: int) -> Option<int>
    decreases hay.len() - from,
{
    if from < 0 || pat.len() == 0 || from + pat.len() > hay.len() {
        None
    } else if matches_at(hay, pat, from) {
        Some(from)
    } else {
        spec_find_from(hay, pat, from + 1)
    }
}

/// A position left of every match can be skipped without changing the result.
proof fn lemma_find_from_skip(hay: Seq<u8>, pat: Seq<u8>, from: int, i: int)
    requires
        0 <= from <= i,
        forall|j: int| from <= j < i ==> !matches_at(hay, pat, j),
    ensures
        spec_find_from(hay, pat, from) == spec_find_from(hay, pat, i),
    decreases i - from,
{
    if from < i {
        assert(!matches_at(hay, pat, from));
        lemma_find_from_skip(hay, pat, from + 1, i);
    }
}

/// What a found index means: the pattern matches there and nowhere
/// earlier.
pub proof fn lemma_find_is_match(hay: Seq<u8>, pat: Seq<u8>, from: int, i: int)
    requires
        spec_find_from(hay, pat, from) == Some(i),
    ensures
        from <= i,
        matches_at(hay, pat, i),
        forall|j: int| from <= j < i ==> !matches_at(hay, pat, j),
    decreases hay.len() - from,
{
    if !(from < 0 || pat.len() == 0 || from + pat.len() > hay.len()) && !matches_at(
        hay,
        pat,
        from,
    ) {
        lemma_find_is_match(hay, pat, from + 1, i);
    }
}

/// Compares `pat` against the bytes of `hay` starting at `i`.
pub fn match_at(hay: &Vec<u8>, pat: &Vec<u8>, i: usize) -> (r: bool)
    requires
        i + pat@.len() <= hay@.len(),
    ensures
        r == matches_at(hay@, pat@, i as int),
{
    let n = hay.len();
    let mut j: usize = 0;
    while j < pat.len()
        invariant
            i + pat@.len() <= hay@.len(),
            n == hay@.len(),
            j <= pat@.len(),
            forall|k: int| 0 <= k < j ==> hay@[i + k] == pat@[k],
        decreases pat@.len() - j,
    {
        if hay[i + j] != pat[j] {
            proof {
                assert(hay@.subrange(i as int, i + pat@.len())[j as int] == hay@[i + j]);
            }
            return false;
        }
        j += 1;
    }
    proof {
        assert(hay@.subrange(i as int, i + pat@.len()) =~= pat@);
    }
    true
}

/// Finds the leftmost occurrence of `pat` in `hay` at or after `from`.
pub fn find_sub_from(hay: &Vec<u8>, pat: &Vec<u8>, from: usize) -> (r: Option<usize>)
    ensures
        match r {
            Some(i) => spec_find_from(hay@, pat@, from as int) == Some(i as int),
            None => spec_find_from(hay@, pat@, from as int) is None,
        },
{
    if pat.len() == 0 {
        return None;
    }
    if pat.len() > hay.len() || from > hay.len() - pat.len() {
        proof {
            if from + pat@.len() <= hay@.len() {
                lemma_find_from_skip(hay@, pat@, from as int, from as int);
            }
        }
        return None;
    }
    let mut i: usize = from;
    while i <= hay.len() - pat.len()
        invariant
            from <= i,
            pat@.len() >= 1,
            pat@.len() <= hay@.len(),
            i <= hay@.len() - pat@.len() + 1,
            forall|j: int| from <= j < i ==> !matches_at(hay@, pat@, j),
        decreases hay@.len() - i,
    {
        if match_at(hay, pat, i) {
            proof {
                lemma_find_from_skip(hay@, pat@, from as int, i as int);
            }
            return Some(i);
        }
        i += 1;
    }
    proof {
        lemma_find_from_skip(hay@, pat@, from as int, i as int);
    }
    None
}

/// True when `pat` occurs anywhere in `hay`.
pub open spec fn spec_contains_sub(hay: Seq<u8>, pat: Seq<u8>) -> bool {
    spec_find_from(hay, pat, 0) is Some
}

/// Whether `pat` occurs anywhere in `hay`.
pub fn contains_sub(hay: &Vec<u8>, pat: &Vec<u8>) -> (r: bool)
    ensures
        r == spec_contains_sub(hay@, pat@),
{
    find_sub_from(hay, pat, 0).is_some()
}

/// Byte-for-byte equality of two byte strings.
pub fn bytes_eq(a: &Vec<u8>, b: &Vec<u8>) -> (r: bool)
    ensures
        r == (a@ == b@),
{
    if a.len() != b.len() {
        proof {
            assert(a@.len() != b@.len());
        }
        return false;
    }
    let mut j: usize = 0;
    while j < a.len()
        invariant
            a@.len() == b@.len(),
            j <= a@.len(),
            forall|k: int| 0 <= k < j ==> a@[k] == b@[k],
        decreases a@.len() - j,
    {
        if a[j] != b[j] {
            return false;
        }
        j += 1;
    }
    proof {
        assert(a@ =~= b@);
    }
    true
}

/// The UTF-8 bytes of an ASCII character sequence.
pub open spec fn ascii_bytes(s: Seq<char>) -> Seq<u8> {
    s.map_values(|c: char| c as u8)
}

/// The bytes of an ASCII string constant.
pub fn lit_bytes(s: &str) -> (r: Vec<u8>)
    requires
        s.is_ascii(),
    ensures
        r@ == ascii_bytes(s@),
{
    let v = s.as_bytes_vec();
    proof {
        vstd::string::is_ascii_spec_bytes(s);
        assert(v@ =~= ascii_bytes(s@));
    }
    v
}

/// True when `s` begins with `pat`.
pub open spec fn spec_starts_with(s: Seq<u8>, pat: Seq<u8>) -> bool {
    matches_at(s, pat, 0)
}

/// Whether `s` begins with `pat`.
pub fn starts_with(s: &Vec<u8>, pat: &Vec<u8>) -> (r: bool)
    ensures
        r == spec_starts_with(s@, pat@),
{
    if pat.len() > s.len() {
        return false;
    }
    match_at(s, pat, 0)
}

/// Copies the byte range `[from, to)` of `v`.
pub fn copy_range(v: &Vec<u8>, from: usize, to: usize) -> (r: Vec<u8>)
    requires
        from <= to <= v@.len(),
    ensures
        r@ == v@.subrange(from as int, to as int),
{
    let mut r: Vec<u8> = Vec::new();
    let mut i: usize = from;
    while i < to
        invariant
            from <= i <= to <= v@.len(),
            r@ =~= v@.subrange(from as int, i as int),
        decreases to - i,
    {
        r.push(v[i]);
        proof {
            assert(r@ =~= v@.subrange(from as int, (i + 1) as int));
        }
        i += 1;
    }
    proof {
        assert(r@ =~= v@.subrange(from as int, to as int));
    }
    r
}

/// `h` with every non-overlapping occurrence of `pat` replaced by
/// `rep`, scanning from the left. An empty pattern replaces nothing.
pub open spec fn spec_replace_all(h: Seq<u8>, pat: Seq<u8>, rep: Seq<u8>) -> Seq<u8>
    decreases h.len(),
{
    if pat.len() == 0 || h.len() < pat.len() {
        h
    } else if h.subrange(0, pat.len() as int) == pat {
        rep + spec_replace_all(h.skip(pat.len() as int), pat, rep)
    } else {
        seq![h[0]] + spec_replace_all(h.skip(1), pat, rep)
    }
}

/// Replaces every non-overlapping occurrence of `pat` in `h` by `rep`.
pub fn replace_all(h: &Vec<u8>, pat: &Vec<u8>, rep: &Vec<u8>) -> (r: Vec<u8>)
    ensures
        r@ == spec_replace_all(h@, pat@, rep@),
{
    let mut out: Vec<u8> = Vec::new();
    if pat.len() == 0 {
        return copy_bytes(h);
    }
    let mut i: usize = 0;
    proof {
        assert(h@.skip(0) =~= h@);
    }
    let n = h.len();
    while i < n
        invariant
            i <= h@.len(),
            n == h@.len(),
            pat@.len() >= 1,
            spec_replace_all(h@, pat@, rep@) == out@ + spec_replace_all(
                h@.skip(i as int),
                pat@,
                rep@,
            ),
        decreases h@.len() - i,
    {
        let ghost rest = h@.skip(i as int);
        if pat.len() <= n - i && match_at(h, pat, i) {
            out.extend_from_slice(rep.as_slice());
            proof {
                crate::numeric::byte_copy_exact(out@);
                assert(rest.subrange(0, pat@.len() as int) =~= h@.subrange(
                    i as int,
                    i + pat@.len(),
                ));
                assert(rest.skip(pat@.len() as int) =~= h@.skip(i + pat@.len()));
            }
            i += pat.len();
        } else {
            out.push(h[i]);
            proof {
                if i + pat@.len() <= h@.len() {
                    assert(rest.subrange(0, pat@.len() as int) =~= h@.subrange(
                        i as int,
                        i + pat@.len(),
                    ));
                }
                assert(rest[0] == h@[i as int]);
                assert(rest.skip(1) =~= h@.skip(i + 1));
            }
            i += 1;
        }
    }
    proof {
        assert(h@.skip(i as int) =~= Seq::<u8>::empty());
        assert(spec_replace_all(Seq::<u8>::empty(), pat@, rep@) == Seq::<u8>::empty());
        assert(out@ =~= out@ + spec_replace_all(h@.skip(i as int), pat@, rep@));
    }
    out
}

/// A dotted path: the segments joined by single points.
pub open spec fn spec_join_dotted(path: Seq<Seq<u8>>) -> Seq<u8>
    decreases path.len(),
{
    if path.len() == 0 {
        Seq::<u8>::empty()
    } else if path.len() == 1 {
        path[0]
    } else {
        path[0] + seq![46u8] + spec_join_dotted(path.subrange(1, path.len() as int))
    }
}

/// Joins the segments of a path with points.
pub fn join_dotted(path: &Vec<Vec<u8>>) -> (r: Vec<u8>)
    ensures
        r@ == spec_join_dotted(crate::value::path_view(path@)),
{
    let mut out: Vec<u8> = Vec::new();
    let ghost pv = crate::value::path_view(path@);
    let mut i: usize = 0;
    while i < path.len()
        invariant
            i <= path@.len(),
            pv == crate::value::path_view(path@),
            pv.len() == path@.len(),
            i == 0 ==> out@ == Seq::<u8>::empty(),
            i >= 1 ==> out@ + spec_join_rest(pv.skip(i as int)) == spec_join_dotted(pv),
        decreases path@.len() - i,
    {
        if i > 0 {
            out.push(46);
        }
        out.extend_from_slice(path[i].as_slice());
        proof {
            crate::numeric::byte_copy_exact(out@);
            assert(pv[i as int] == path@[i as int]@);
            if i == 0 {
                assert(out@ =~= pv[0]);
                lemma_join_unfold(pv);
            } else {
                lemma_join_rest_unfold(pv.skip(i as int));
                assert(pv.skip(i as int).subrange(1, pv.skip(i as int).len() as int) =~= pv.skip(
                    (i + 1) as int,
                ));
                assert(pv.skip(i as int)[0] == pv[i as int]);
            }
        }
        i += 1;
    }
    proof {
        if path@.len() == 0 {
            assert(out@ =~= spec_join_dotted(pv));
        } else {
            assert(pv.skip(i as int) =~= Seq::<Seq<u8>>::empty());
            assert(spec_join_rest(Seq::<Seq<u8>>::empty()) == Seq::<u8>::empty());
            assert(out@ =~= out@ + spec_join_rest(pv.skip(i as int)));
        }
    }
    out
}

/// The tail of a dotted path: each segment preceded by a point.
pub open spec fn spec_join_rest(path: Seq<Seq<u8>>) -> Seq<u8>
    decreases path.len(),
{
    if path.len() == 0 {
        Seq::<u8>::empty()
    } else {
        seq![46u8] + path[0] + spec_join_rest(path.subrange(1, path.len() as int))
    }
}

proof fn lemma_join_unfold(path: Seq<Seq<u8>>)
    requires
        path.len() >= 1,
    ensures
        spec_join_dotted(path) == path[0] + spec_join_rest(path.subrange(1, path.len() as int)),
    decreases path.len(),
{
    if path.len() == 1 {
        assert(path.subrange(1, path.len() as int) =~= Seq::<Seq<u8>>::empty());
        assert(spec_join_rest(Seq::<Seq<u8>>::empty()) == Seq::<u8>::empty());
        assert(path[0] + Seq::<u8>::empty() =~= path[0]);
    } else {
        let tail = path.subrange(1, path.len() as int);
        lemma_join_unfold(tail);
        lemma_join_rest_unfold(tail);
        assert(spec_join_dotted(path) == path[0] + seq![46u8] + spec_join_dotted(tail));
        assert(path[0] + seq![46u8] + (tail[0] + spec_join_rest(
            tail.subrange(1, tail.len() as int),
        )) =~= path[0] + (seq![46u8] + tail[0] + spec_join_rest(
            tail.subrange(1, tail.len() as int),
        )));
    }
}

proof fn lemma_join_rest_unfold(path: Seq<Seq<u8>>)
    requires
        path.len() >= 1,
    ensures
        spec_join_rest(path) == seq![46u8] + path[0] + spec_join_rest(
            path.subrange(1, path.len() as int),
        ),
{
}

/// An ASCII whitespace byte: space, tab, or one of the line-break
/// controls.
pub open spec fn is_ws(b: u8) -> bool {
    b == 32 || 9 <= b <= 13
}

/// `s` without leading whitespace.
pub open spec fn spec_trim_front(s: Seq<u8>) -> Seq<u8>
    decreases s.len(),
{
    if s.len() > 0 && is_ws(s[0]) {
        spec_trim_front(s.skip(1))
    } else {
        s
    }
}

/// `s` without trailing whitespace.
pub open spec fn spec_trim_back(s: Seq<u8>) -> Seq<u8>
    decreases s.len(),
{
    if s.len() > 0 && is_ws(s.last()) {
        spec_trim_back(s.drop_last())
    } else {
        s
    }
}

/// `s` without leading and trailing whitespace.
pub open spec fn spec_trim(s: Seq<u8>) -> Seq<u8> {
    spec_trim_back(spec_trim_front(s))
}

proof fn lemma_trim_front_skip(s: Seq<u8>, i: int)
    requires
        0 <= i <= s.len(),
        forall|j: int| 0 <= j < i ==> is_ws(#[trigger] s[j]),
    ensures
        spec_trim_front(s) == spec_trim_front(s.skip(i)),
    decreases i,
{
    if i > 0 {
        assert(is_ws(s[0]));
        assert(spec_trim_front(s) == spec_trim_front(s.skip(1)));
        assert forall|j: int| 0 <= j < i - 1 implies is_ws(#[trigger] s.skip(1)[j]) by {
            assert(s.skip(1)[j] == s[j + 1]);
        }
        lemma_trim_front_skip(s.skip(1), i - 1);
        assert(s.skip(1).skip(i - 1) =~= s.skip(i));
    } else {
        assert(s.skip(0) =~= s);
    }
}

proof fn lemma_trim_back_take(s: Seq<u8>, i: int)
    requires
        0 <= i <= s.len(),
        forall|j: int| i <= j < s.len() ==> is_ws(#[trigger] s[j]),
    ensures
        spec_trim_back(s) == spec_trim_back(s.take(i)),
    decreases s.len() - i,
{
    if i < s.len() {
        assert(is_ws(s.last()));
        assert(spec_trim_back(s) == spec_trim_back(s.drop_last()));
        assert(s.drop_last() =~= s.take(s.len() - 1));
        assert forall|j: int| i <= j < s.take(s.len() - 1).len()
            implies is_ws(#[trigger] s.take(s.len() - 1)[j]) by {
            assert(s.take(s.len() - 1)[j] == s[j]);
        }
        lemma_trim_back_take(s.take(s.len() - 1), i);
        assert(s.take(s.len() - 1).take(i) =~= s.take(i));
    } else {
        assert(s.take(i) =~= s);
    }
}

/// Removes leading and trailing ASCII whitespace.
pub fn trim(v: &Vec<u8>) -> (r: Vec<u8>)
    ensures
        r@ == spec_trim(v@),
{
    let mut a: usize = 0;
    while a < v.len() && (v[a] == 32 || (9 <= v[a] && v[a] <= 13))
        invariant
            a <= v@.len(),
            forall|j: int| 0 <= j < a ==> is_ws(#[trigger] v@[j]),
        decreases v@.len() - a,
    {
        a += 1;
    }
    let mut b: usize = v.len();
    while b > a && (v[b - 1] == 32 || (9 <= v[b - 1] && v[b - 1] <= 13))
        invariant
            a <= b <= v@.len(),
            forall|j: int| 0 <= j < a ==> is_ws(#[trigger] v@[j]),
            forall|j: int| b <= j < v@.len() ==> is_ws(#[trigger] v@[j]),
        decreases b,
    {
        b -= 1;
    }
    let r = copy_range(v, a, b);
    proof {
        let t = v@.skip(a as int);
        lemma_trim_front_skip(v@, a as int);
        if a < v@.len() {
            assert(!is_ws(t[0]));
        }
        assert(spec_trim_front(v@) == t);
        lemma_trim_back_take(t, b - a);
        if b > a {
            assert(t.take(b - a).last() == v@[b - 1]);
            assert(!is_ws(t.take(b - a).last()));
        }
        assert(spec_trim_back(t.take(b - a)) == t.take(b - a));
        assert(r@ =~= t.take(b - a));
    }
    r
}

} // verus!
