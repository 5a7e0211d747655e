//! Text as UTF-8: where a text may be cut, and how cut parts are put together.
//!
//! A `&str` or `String` is searched and cut by the positions of its bytes.
//! It can be cut where a character begins, at a boundary; the lemmas here
//! show that the places where this library cuts are boundaries.
use crate::search::occurs_at;
use vstd::prelude::*;
use vstd::string::*;
use vstd::utf8::*;

verus! {

/// The UTF-8 form of two texts in a row is the two forms in a row.
pub proof fn lemma_encode_concat(x: Seq<char>, y: Seq<char>)
    ensures
        encode_utf8(x + y) == encode_utf8(x) + encode_utf8(y),
    decreases x.len(),
{
    if x.len() > 0 {
        lemma_encode_concat(x.drop_first(), y);
        assert((x + y).drop_first() =~= x.drop_first() + y);
    }
}

/// After the character that begins at a boundary comes a boundary.
pub proof fn lemma_boundary_after_scalar(b: Seq<u8>, i: int)
    requires
        valid_utf8(b),
        is_char_boundary(b, i),
        0 <= i < b.len(),
    ensures
        i + length_of_first_scalar(b.skip(i)) <= b.len(),
        is_char_boundary(b, i + length_of_first_scalar(b.skip(i))),
        valid_utf8(b.skip(i)),
        valid_utf8(b.skip(i + length_of_first_scalar(b.skip(i)))),
{
    let t = b.skip(i);
    valid_utf8_split(b, i);
    let k = length_of_first_scalar(t);
    let rest = pop_first_scalar(t);
    assert(valid_utf8(rest));
    assert(rest =~= b.skip(i + k));
    if i + k < b.len() {
        is_char_boundary_iff_is_leading_byte(b, i + k);
    } else {
        is_char_boundary_start_end_of_seq(b);
    }
}

/// Where a text holds another at a boundary, the other ends at a boundary.
pub proof fn lemma_boundary_after_match(b: Seq<u8>, pat: Seq<u8>, i: int)
    requires
        valid_utf8(b),
        valid_utf8(pat),
        is_char_boundary(b, i),
        occurs_at(b, pat, i),
    ensures
        is_char_boundary(b, i + pat.len()),
    decreases pat.len(),
{
    if pat.len() > 0 {
        let k = length_of_first_scalar(pat);
        lemma_boundary_after_scalar(b, i);
        let rest = pop_first_scalar(pat);
        assert(b.subrange(i + k, i + k + rest.len()) =~= b.subrange(i, i + pat.len()).subrange(
            k,
            pat.len() as int,
        ));
        lemma_boundary_after_match(b, rest, i + k);
    }
}

/// Where a text that is not empty stands in another, it begins and ends at
/// boundaries.
pub proof fn lemma_match_boundaries(b: Seq<u8>, pat: Seq<u8>, i: int)
    requires
        valid_utf8(b),
        valid_utf8(pat),
        pat.len() > 0,
        occurs_at(b, pat, i),
    ensures
        is_char_boundary(b, i),
        is_char_boundary(b, i + pat.len()),
{
    is_char_boundary_iff_is_leading_byte(b, i);
    lemma_boundary_after_match(b, pat, i);
}

/// A byte below 128 is a character of its own: boundaries lie before and
/// after it.
pub proof fn lemma_boundaries_at_ascii(b: Seq<u8>, i: int)
    requires
        valid_utf8(b),
        0 <= i < b.len(),
        b[i] < 0x80,
    ensures
        is_char_boundary(b, i),
        is_char_boundary(b, i + 1),
{
    is_char_boundary_iff_not_is_continuation_byte(b, i);
    lemma_boundary_after_scalar(b, i);
}

/// The two ends of a text are boundaries.
pub proof fn lemma_boundaries_at_ends(b: Seq<u8>)
    requires
        valid_utf8(b),
    ensures
        is_char_boundary(b, 0),
        is_char_boundary(b, b.len() as int),
{
    is_char_boundary_start_end_of_seq(b);
}

/// A boundary of a text is a boundary of each beginning of the text that
/// reaches to a boundary at or after it.
pub proof fn lemma_boundary_in_prefix(b: Seq<u8>, from: int, to: int)
    requires
        valid_utf8(b),
        0 <= from <= to <= b.len(),
        is_char_boundary(b, from),
        is_char_boundary(b, to),
    ensures
        valid_utf8(b.take(to)),
        is_char_boundary(b.take(to), from),
{
    valid_utf8_split(b, to);
    let head = b.take(to);
    if from < to {
        is_char_boundary_iff_not_is_continuation_byte(b, from);
        is_char_boundary_iff_not_is_continuation_byte(head, from);
    } else {
        is_char_boundary_start_end_of_seq(head);
    }
}

/// A boundary of a text at or after another boundary is a boundary of the
/// end of the text that begins at the other.
pub proof fn lemma_boundary_in_suffix(b: Seq<u8>, from: int, to: int)
    requires
        valid_utf8(b),
        0 <= from <= to <= b.len(),
        is_char_boundary(b, from),
        is_char_boundary(b, to),
    ensures
        valid_utf8(b.skip(from)),
        is_char_boundary(b.skip(from), to - from),
{
    valid_utf8_split(b, from);
    let tail = b.skip(from);
    if to < b.len() {
        is_char_boundary_iff_not_is_continuation_byte(b, to);
        is_char_boundary_iff_not_is_continuation_byte(tail, to - from);
    } else {
        is_char_boundary_start_end_of_seq(tail);
    }
}

/// Two texts with the same UTF-8 form are the same: what is said of the
/// bytes of a text is said of the text.
pub proof fn law_same_bytes_same_text(x: Seq<char>, y: Seq<char>)
    requires
        encode_utf8(x) == encode_utf8(y),
    ensures
        x == y,
{
    encode_utf8_decode_utf8(x);
    encode_utf8_decode_utf8(y);
}

/// Adds `more` at the end of `out`.
pub fn push_text(out: &mut String, more: &str)
    ensures
        encode_utf8(final(out)@) == encode_utf8(old(out)@) + more.spec_bytes(),
{
    proof {
        lemma_encode_concat(out@, more@);
    }
    out.append(more);
}

/// A text of its own that holds what `s` holds.
pub fn owned(s: &str) -> (r: String)
    ensures
        encode_utf8(r@) == s.spec_bytes(),
{
    s.to_owned()
}

/// The part of `s` from byte `from` up to byte `to`.
pub fn part<'a>(s: &'a str, from: usize, to: usize) -> (r: &'a str)
    requires
        from <= to <= s.spec_bytes().len(),
        is_char_boundary(s.spec_bytes(), from as int),
        is_char_boundary(s.spec_bytes(), to as int),
    ensures
        r.spec_bytes() == s.spec_bytes().subrange(from as int, to as int),
{
    proof {
        encode_utf8_valid_utf8(s@);
        lemma_boundary_in_prefix(s.spec_bytes(), from as int, to as int);
    }
    let (head, _) = s.split_at(to);
    let (_, r) = head.split_at(from);
    r
}

} // verus!
