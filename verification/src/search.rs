//! Occurrences of a pattern in a text, and the search for the first one.
//!
//! A text is searched as the sequence of its bytes, and a position is the
//! number of bytes before it.
use vstd::prelude::*;

verus! {

/// `pat` stands in `s` at position `i`.
pub open spec fn occurs_at(s: Seq<u8>, pat: Seq<u8>, i: int) -> bool {
    0 <= i && i + pat.len() <= s.len() && s.subrange(i, i + pat.len()) == pat
}

/// `pat` stands somewhere in `s`.
pub open spec fn occurs(s: Seq<u8>, pat: Seq<u8>) -> bool {
    exists|i: int| occurs_at(s, pat, i)
}

/// The first position at or after `from` at which `pat` stands in `s`.
pub open spec fn first_match_from(s: Seq<u8>, pat: Seq<u8>, from: int) -> Option<int>
    decreases s.len() - from + 1,
{
    if from < 0 || from + pat.len() > s.len() {
        None
    } else if s.subrange(from, from + pat.len()) == pat {
        Some(from)
    } else {
        first_match_from(s, pat, from + 1)
    }
}

/// The first position at which `pat` stands in `s`. The empty pattern
/// stands at position 0 of every text.
pub open spec fn first_match(s: Seq<u8>, pat: Seq<u8>) -> Option<int> {
    first_match_from(s, pat, 0)
}

/// What a search from `from` finds is an occurrence, and no occurrence lies
/// between `from` and it; where it finds nothing, none lies at or after `from`.
pub proof fn lemma_first_match_from(s: Seq<u8>, pat: Seq<u8>, from: int)
    requires
        0 <= from,
    ensures
        match first_match_from(s, pat, from) {
            Some(i) => from <= i && occurs_at(s, pat, i) && forall|j: int|
                from <= j < i ==> !occurs_at(s, pat, j),
            None => forall|j: int| from <= j ==> !occurs_at(s, pat, j),
        },
    decreases s.len() - from + 1,
{
    if from + pat.len() <= s.len() && s.subrange(from, from + pat.len()) != pat {
        lemma_first_match_from(s, pat, from + 1);
    }
}

/// The first match is the least position at which the pattern stands.
pub proof fn lemma_first_match(s: Seq<u8>, pat: Seq<u8>)
    ensures
        match first_match(s, pat) {
            Some(i) => occurs_at(s, pat, i) && forall|j: int| 0 <= j < i ==> !occurs_at(s, pat, j),
            None => forall|j: int| !occurs_at(s, pat, j),
        },
        first_match(s, pat) is Some <==> occurs(s, pat),
{
    lemma_first_match_from(s, pat, 0);
}

/// An occurrence with none before it is the first match.
pub proof fn lemma_first_match_is(s: Seq<u8>, pat: Seq<u8>, i: int)
    requires
        occurs_at(s, pat, i),
        forall|j: int| 0 <= j < i ==> !occurs_at(s, pat, j),
    ensures
        first_match(s, pat) == Some(i),
{
    lemma_first_match(s, pat);
}

/// The first byte of `pat` stands nowhere else in it, so that no two
/// occurrences of `pat` overlap.
pub open spec fn head_only(pat: Seq<u8>) -> bool {
    pat.len() > 0 && forall|k: int| 1 <= k < pat.len() ==> #[trigger] pat[k] != pat[0]
}

/// An occurrence in a text of two parts lies in the first part, or in the
/// second, or begins in the first and goes on in the second.
pub proof fn lemma_occurs_in_concat(x: Seq<u8>, y: Seq<u8>, pat: Seq<u8>, j: int)
    requires
        occurs_at(x + y, pat, j),
    ensures
        j + pat.len() <= x.len() ==> occurs_at(x, pat, j),
        j >= x.len() ==> occurs_at(y, pat, j - x.len()),
        j < x.len() < j + pat.len() ==> y.len() > 0 && y[0] == pat[x.len() - j],
{
    let whole = x + y;
    let found = whole.subrange(j, j + pat.len());
    if j + pat.len() <= x.len() {
        assert(x.subrange(j, j + pat.len()) =~= found);
    }
    if j >= x.len() {
        assert(y.subrange(j - x.len(), j - x.len() + pat.len()) =~= found);
    }
}

/// An occurrence in one of two parts is an occurrence in the whole.
pub proof fn lemma_occurs_in_part(x: Seq<u8>, y: Seq<u8>, pat: Seq<u8>, j: int)
    ensures
        occurs_at(x, pat, j) ==> occurs_at(x + y, pat, j),
        occurs_at(y, pat, j) ==> occurs_at(x + y, pat, x.len() + j),
{
    if occurs_at(x, pat, j) {
        assert((x + y).subrange(j, j + pat.len()) =~= x.subrange(j, j + pat.len()));
    }
    if occurs_at(y, pat, j) {
        assert((x + y).subrange(x.len() + j, x.len() + j + pat.len()) =~= y.subrange(
            j,
            j + pat.len(),
        ));
    }
}

/// A pattern that does not stand in a text stands in no part of it.
pub proof fn lemma_absent_from_part(s: Seq<u8>, pat: Seq<u8>, from: int, to: int)
    requires
        0 <= from <= to <= s.len(),
        !occurs(s, pat),
    ensures
        !occurs(s.subrange(from, to), pat),
{
    let part = s.subrange(from, to);
    assert forall|j: int| !occurs_at(part, pat, j) by {
        if occurs_at(part, pat, j) {
            assert(s.subrange(from + j, from + j + pat.len()) =~= part.subrange(
                j,
                j + pat.len(),
            ));
            assert(occurs_at(s, pat, from + j));
        }
    }
}

/// A pattern whose first byte stands nowhere else in it, and which stands in
/// neither of two parts, does not stand in the whole if the second part
/// begins with that byte or is empty.
pub proof fn lemma_absent_from_concat(x: Seq<u8>, y: Seq<u8>, pat: Seq<u8>)
    requires
        head_only(pat),
        !occurs(x, pat),
        !occurs(y, pat),
        y.len() > 0 ==> y[0] == pat[0],
    ensures
        !occurs(x + y, pat),
{
    assert forall|j: int| !occurs_at(x + y, pat, j) by {
        if occurs_at(x + y, pat, j) {
            lemma_occurs_in_concat(x, y, pat, j);
        }
    }
}

/// A pattern whose first byte stands nowhere else in it, and which does not
/// stand in `x`, is first found in `x + y` where `y` begins, if `y` begins
/// with it.
pub proof fn lemma_first_match_after(x: Seq<u8>, y: Seq<u8>, pat: Seq<u8>)
    requires
        head_only(pat),
        !occurs(x, pat),
        occurs_at(y, pat, 0),
    ensures
        first_match(x + y, pat) == Some(x.len() as int),
{
    lemma_occurs_in_part(x, y, pat, 0);
    assert forall|j: int| 0 <= j < x.len() implies !occurs_at(x + y, pat, j) by {
        if occurs_at(x + y, pat, j) {
            lemma_occurs_in_concat(x, y, pat, j);
        }
    }
    lemma_first_match_is(x + y, pat, x.len() as int);
}

/// Whether `pat` stands in `s` at position `i`.
pub fn matches_at(s: &[u8], pat: &[u8], i: usize) -> (r: bool)
    ensures
        r == occurs_at(s@, pat@, i as int),
{
    let n = s.len();
    let m = pat.len();
    if i > n || m > n - i {
        return false;
    }
    let mut k: usize = 0;
    while k < m
        invariant
            k <= m,
            m == pat@.len(),
            n == s@.len(),
            i + m <= n,
            forall|j: int| 0 <= j < k ==> s@[i + j] == pat@[j],
        decreases m - k,
    {
        if s[i + k] != pat[k] {
            return false;
        }
        k += 1;
    }
    assert(s@.subrange(i as int, i + m) =~= pat@);
    true
}

/// Whether two texts are the same.
pub fn same(a: &[u8], b: &[u8]) -> (r: bool)
    ensures
        r == (a@ == b@),
{
    assert(a@.subrange(0, a@.len() as int) =~= a@);
    a.len() == b.len() && matches_at(a, b, 0)
}

/// The first position at which `pat` stands in `s`, if it stands there at all.
pub fn find(s: &[u8], pat: &[u8]) -> (r: Option<usize>)
    ensures
        match r {
            Some(i) => first_match(s@, pat@) == Some(i as int) && occurs_at(s@, pat@, i as int)
                && forall|j: int| 0 <= j < i ==> !occurs_at(s@, pat@, j),
            None => first_match(s@, pat@) is None && !occurs(s@, pat@),
        },
{
    let n = s.len();
    let m = pat.len();
    if m > n {
        return None;
    }
    let last = n - m;
    let mut i: usize = 0;
    loop
        invariant
            m == pat@.len(),
            n == s@.len(),
            last == n - m,
            i <= last,
            first_match(s@, pat@) == first_match_from(s@, pat@, i as int),
        decreases last - i,
    {
        proof {
            lemma_first_match(s@, pat@);
        }
        if matches_at(s, pat, i) {
            return Some(i);
        }
        if i == last {
            assert(first_match_from(s@, pat@, i + 1) is None);
            return None;
        }
        i += 1;
    }
}

/// Whether `pat` stands somewhere in `s`.
pub fn contains(s: &[u8], pat: &[u8]) -> (r: bool)
    ensures
        r == occurs(s@, pat@),
{
    find(s, pat).is_some()
}

} // verus!
