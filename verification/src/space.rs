//! White space in UTF-8 text, and its removal from both ends of a text.
use crate::text::{lemma_boundaries_at_ends, lemma_boundary_after_scalar, part};
use vstd::prelude::*;
use vstd::string::*;
use vstd::utf8::*;

verus! {

/// `w` is one character that Unicode lists as White_Space, in UTF-8:
/// U+0009 to U+000D, U+0020, U+0085, U+00A0, U+1680, U+2000 to U+200A,
/// U+2028, U+2029, U+202F, U+205F or U+3000.
pub open spec fn is_space(w: Seq<u8>) -> bool {
    ||| w.len() == 1 && (0x09 <= w[0] <= 0x0d || w[0] == 0x20)
    ||| w.len() == 2 && w[0] == 0xc2 && (w[1] == 0x85 || w[1] == 0xa0)
    ||| w.len() == 3 && w[0] == 0xe1 && w[1] == 0x9a && w[2] == 0x80
    ||| w.len() == 3 && w[0] == 0xe2 && w[1] == 0x80 && (0x80 <= w[2] <= 0x8a || w[2] == 0xa8
        || w[2] == 0xa9 || w[2] == 0xaf)
    ||| w.len() == 3 && w[0] == 0xe2 && w[1] == 0x81 && w[2] == 0x9f
    ||| w.len() == 3 && w[0] == 0xe3 && w[1] == 0x80 && w[2] == 0x80
}

/// Unicode lists `c` as White_Space.
pub open spec fn is_white_space(c: char) -> bool {
    let n = c as u32;
    ||| 0x09 <= n <= 0x0d
    ||| n == 0x20
    ||| n == 0x85
    ||| n == 0xa0
    ||| n == 0x1680
    ||| 0x2000 <= n <= 0x200a
    ||| n == 0x2028
    ||| n == 0x2029
    ||| n == 0x202f
    ||| n == 0x205f
    ||| n == 0x3000
}

/// The length of the white space character that `s` begins with, or 0.
pub open spec fn leading_space(s: Seq<u8>) -> int {
    if s.len() >= 1 && is_space(s.take(1)) {
        1
    } else if s.len() >= 2 && is_space(s.take(2)) {
        2
    } else if s.len() >= 3 && is_space(s.take(3)) {
        3
    } else {
        0
    }
}

/// The length of the white space character that `s` ends with, or 0.
pub open spec fn trailing_space(s: Seq<u8>) -> int {
    if s.len() >= 1 && is_space(s.skip(s.len() - 1)) {
        1
    } else if s.len() >= 2 && is_space(s.skip(s.len() - 2)) {
        2
    } else if s.len() >= 3 && is_space(s.skip(s.len() - 3)) {
        3
    } else {
        0
    }
}

/// `s` without the white space that it begins with.
pub open spec fn trimmed_start(s: Seq<u8>) -> Seq<u8>
    decreases s.len(),
{
    if leading_space(s) == 0 {
        s
    } else {
        trimmed_start(s.skip(leading_space(s)))
    }
}

/// `s` without the white space that it ends with.
pub open spec fn trimmed_end(s: Seq<u8>) -> Seq<u8>
    decreases s.len(),
{
    if trailing_space(s) == 0 {
        s
    } else {
        trimmed_end(s.take(s.len() - trailing_space(s)))
    }
}

/// `s` without the white space at its two ends.
pub open spec fn trimmed(s: Seq<u8>) -> Seq<u8> {
    trimmed_end(trimmed_start(s))
}

/// The number that three bytes of a character stand for.
spec fn three_bytes(b0: u8, b1: u8, b2: u8) -> u32 {
    (((b0 & 0x0f) as u32) << 12) | (((b1 & 0x3f) as u32) << 6) | ((b2 & 0x3f) as u32)
}

/// A character below 128 is its own byte.
proof fn lemma_one_byte(n: u32)
    by (bit_vector)
    requires
        n <= 0x7f,
    ensures
        ((n & 0x7f) as u8) as u32 == n,
{
}

/// Of the characters of two bytes, U+0085 and U+00A0 alone have the bytes
/// of white space.
proof fn lemma_spaces_of_two_bytes(n: u32)
    by (bit_vector)
    requires
        0x80 <= n <= 0x7ff,
    ensures
        (0xc0u8 | ((n >> 6) & 0x1f) as u8) == 0xc2u8 && (0x80u8 | (n & 0x3f) as u8) == 0x85u8
            <==> n == 0x85,
        (0xc0u8 | ((n >> 6) & 0x1f) as u8) == 0xc2u8 && (0x80u8 | (n & 0x3f) as u8) == 0xa0u8
            <==> n == 0xa0,
{
}

/// The three bytes of a character lie in the ranges of a first byte and of
/// two further bytes, and give the character back.
proof fn lemma_three_bytes(n: u32)
    by (bit_vector)
    requires
        0x800 <= n <= 0xffff,
    ensures
        0xe0u8 <= (0xe0u8 | ((n >> 12) & 0x0f) as u8) <= 0xefu8,
        0x80u8 <= (0x80u8 | ((n >> 6) & 0x3f) as u8) <= 0xbfu8,
        0x80u8 <= (0x80u8 | (n & 0x3f) as u8) <= 0xbfu8,
        n == ((((0xe0u8 | ((n >> 12) & 0x0f) as u8) & 0x0f) as u32) << 12)
            | ((((0x80u8 | ((n >> 6) & 0x3f) as u8) & 0x3f) as u32) << 6)
            | (((0x80u8 | (n & 0x3f) as u8) & 0x3f) as u32),
{
}

/// Which bytes stand for which of the white space characters of three bytes.
proof fn lemma_number_of_three_bytes(b0: u8, b1: u8, b2: u8)
    by (bit_vector)
    requires
        0xe0 <= b0 <= 0xef,
        0x80 <= b1 <= 0xbf,
        0x80 <= b2 <= 0xbf,
    ensures
        ((((b0 & 0x0f) as u32) << 12) | (((b1 & 0x3f) as u32) << 6) | ((b2 & 0x3f) as u32))
            == 0x1680 <==> b0 == 0xe1 && b1 == 0x9a && b2 == 0x80,
        0x2000 <= ((((b0 & 0x0f) as u32) << 12) | (((b1 & 0x3f) as u32) << 6) | ((b2 & 0x3f)
            as u32)) <= 0x200a <==> b0 == 0xe2 && b1 == 0x80 && 0x80 <= b2 <= 0x8a,
        ((((b0 & 0x0f) as u32) << 12) | (((b1 & 0x3f) as u32) << 6) | ((b2 & 0x3f) as u32))
            == 0x2028 <==> b0 == 0xe2 && b1 == 0x80 && b2 == 0xa8,
        ((((b0 & 0x0f) as u32) << 12) | (((b1 & 0x3f) as u32) << 6) | ((b2 & 0x3f) as u32))
            == 0x2029 <==> b0 == 0xe2 && b1 == 0x80 && b2 == 0xa9,
        ((((b0 & 0x0f) as u32) << 12) | (((b1 & 0x3f) as u32) << 6) | ((b2 & 0x3f) as u32))
            == 0x202f <==> b0 == 0xe2 && b1 == 0x80 && b2 == 0xaf,
        ((((b0 & 0x0f) as u32) << 12) | (((b1 & 0x3f) as u32) << 6) | ((b2 & 0x3f) as u32))
            == 0x205f <==> b0 == 0xe2 && b1 == 0x81 && b2 == 0x9f,
        ((((b0 & 0x0f) as u32) << 12) | (((b1 & 0x3f) as u32) << 6) | ((b2 & 0x3f) as u32))
            == 0x3000 <==> b0 == 0xe3 && b1 == 0x80 && b2 == 0x80,
{
}

/// The white space characters of three bytes, by the numbers that their
/// bytes stand for.
proof fn lemma_spaces_of_three_bytes(b0: u8, b1: u8, b2: u8)
    requires
        0xe0 <= b0 <= 0xef,
        0x80 <= b1 <= 0xbf,
        0x80 <= b2 <= 0xbf,
    ensures
        ({
            let n = three_bytes(b0, b1, b2);
            is_space(seq![b0, b1, b2]) == (n == 0x1680 || 0x2000 <= n <= 0x200a || n == 0x2028 || n
                == 0x2029 || n == 0x202f || n == 0x205f || n == 0x3000)
        }),
{
    lemma_number_of_three_bytes(b0, b1, b2);
}

/// The UTF-8 form of a character is white space exactly if the character
/// is listed as White_Space.
pub proof fn law_space_is_white_space(c: char)
    ensures
        is_space(encode_utf8(seq![c])) == is_white_space(c),
{
    let n = c as u32;
    assert(encode_utf8(seq![c]) =~= encode_scalar(n)) by {
        reveal_with_fuel(encode_utf8, 2);
    }
    char_is_scalar(c);
    if has_width_1_encoding(n) {
        lemma_one_byte(n);
    } else if has_width_2_encoding(n) {
        lemma_spaces_of_two_bytes(n);
    } else if has_width_3_encoding(n) {
        lemma_three_bytes(n);
        lemma_spaces_of_three_bytes(
            leading_byte_width_3(n),
            second_last_continuation_byte(n),
            last_continuation_byte(n),
        );
    }
}

/// What is left of a text without the white space at its beginning does not
/// begin with white space, and is the end of the text.
pub proof fn lemma_trimmed_start(s: Seq<u8>)
    ensures
        leading_space(trimmed_start(s)) == 0,
        trimmed_start(s).len() <= s.len(),
        trimmed_start(s) == s.skip(s.len() - trimmed_start(s).len()),
    decreases s.len(),
{
    if leading_space(s) != 0 {
        lemma_trimmed_start(s.skip(leading_space(s)));
    }
}

/// What is left of a text without the white space at its end does not end
/// with white space, and is the beginning of the text.
pub proof fn lemma_trimmed_end(s: Seq<u8>)
    ensures
        trailing_space(trimmed_end(s)) == 0,
        trimmed_end(s).len() <= s.len(),
        trimmed_end(s) == s.take(trimmed_end(s).len() as int),
    decreases s.len(),
{
    if trailing_space(s) != 0 {
        lemma_trimmed_end(s.take(s.len() - trailing_space(s)));
    }
}

/// A text that is trimmed has no white space left at its ends: to trim it
/// again changes nothing.
pub proof fn lemma_trimmed_twice(s: Seq<u8>)
    ensures
        leading_space(trimmed(s)) == 0,
        trailing_space(trimmed(s)) == 0,
        trimmed(trimmed(s)) == trimmed(s),
{
    let y = trimmed_start(s);
    lemma_trimmed_start(s);
    lemma_trimmed_end(y);
}

/// White space begins with a byte that begins a character, and is one
/// character: after white space at a boundary comes a boundary, and white
/// space before any place begins at a boundary.
proof fn lemma_space_boundaries(b: Seq<u8>, at: int)
    requires
        valid_utf8(b),
        0 <= at <= b.len(),
    ensures
        is_char_boundary(b, at) && leading_space(b.skip(at)) > 0 ==> is_char_boundary(
            b,
            at + leading_space(b.skip(at)),
        ),
        trailing_space(b.take(at)) > 0 ==> is_char_boundary(b, at - trailing_space(b.take(at))),
{
    let t = b.skip(at);
    let k = leading_space(t);
    if is_char_boundary(b, at) && k > 0 {
        lemma_boundary_after_scalar(b, at);
    }
    let u = b.take(at);
    let j = trailing_space(u);
    if j > 0 {
        is_char_boundary_iff_not_is_continuation_byte(b, at - j);
    }
}

/// Whether three bytes are a white space character of three bytes.
fn wide_space(b0: u8, b1: u8, b2: u8) -> (r: bool)
    ensures
        r == is_space(seq![b0, b1, b2]),
{
    (b0 == 0xe1 && b1 == 0x9a && b2 == 0x80) || (b0 == 0xe2 && b1 == 0x80 && ((0x80 <= b2 && b2
        <= 0x8a) || b2 == 0xa8 || b2 == 0xa9 || b2 == 0xaf)) || (b0 == 0xe2 && b1 == 0x81 && b2
        == 0x9f) || (b0 == 0xe3 && b1 == 0x80 && b2 == 0x80)
}

/// The length of the white space character that stands in `s` at `at`, or 0.
fn space_at(s: &[u8], at: usize) -> (k: usize)
    requires
        at <= s@.len(),
    ensures
        k == leading_space(s@.skip(at as int)),
{
    let n = s.len() - at;
    if n == 0 {
        return 0;
    }
    let b0 = s[at];
    if (0x09 <= b0 && b0 <= 0x0d) || b0 == 0x20 {
        return 1;
    }
    if n < 2 {
        return 0;
    }
    let b1 = s[at + 1];
    if b0 == 0xc2 && (b1 == 0x85 || b1 == 0xa0) {
        return 2;
    }
    if n < 3 {
        return 0;
    }
    let b2 = s[at + 2];
    if wide_space(b0, b1, b2) {
        3
    } else {
        0
    }
}

/// The length of the white space character that ends in `s` just before `end`, or 0.
fn space_before(s: &[u8], end: usize) -> (k: usize)
    requires
        end <= s@.len(),
    ensures
        k == trailing_space(s@.take(end as int)),
{
    if end == 0 {
        return 0;
    }
    let b2 = s[end - 1];
    if (0x09 <= b2 && b2 <= 0x0d) || b2 == 0x20 {
        return 1;
    }
    if end < 2 {
        return 0;
    }
    let b1 = s[end - 2];
    if b1 == 0xc2 && (b2 == 0x85 || b2 == 0xa0) {
        return 2;
    }
    if end < 3 {
        return 0;
    }
    let b0 = s[end - 3];
    if wide_space(b0, b1, b2) {
        3
    } else {
        0
    }
}

/// The part of `s` that is left when the white space at both ends is taken
/// away. It has no white space at its ends.
pub fn trim(s: &str) -> (r: &str)
    ensures
        r.spec_bytes() == trimmed(s.spec_bytes()),
        leading_space(r.spec_bytes()) == 0,
        trailing_space(r.spec_bytes()) == 0,
{
    proof {
        lemma_trimmed_twice(s.spec_bytes());
    }
    let bytes = s.as_bytes();
    let n = bytes.len();
    let mut a: usize = 0;
    proof {
        encode_utf8_valid_utf8(s@);
        lemma_boundaries_at_ends(bytes@);
    }
    assert(bytes@.skip(0) =~= bytes@);
    loop
        invariant_except_break
            a <= n,
            n == bytes@.len(),
            valid_utf8(bytes@),
            is_char_boundary(bytes@, a as int),
            trimmed_start(bytes@) == trimmed_start(bytes@.skip(a as int)),
        ensures
            a <= n,
            n == bytes@.len(),
            valid_utf8(bytes@),
            is_char_boundary(bytes@, a as int),
            trimmed_start(bytes@) == bytes@.skip(a as int),
        decreases n - a,
    {
        let k = space_at(bytes, a);
        if k == 0 {
            break ;
        }
        proof {
            lemma_space_boundaries(bytes@, a as int);
        }
        assert(bytes@.skip(a as int).skip(k as int) =~= bytes@.skip(a + k));
        a += k;
    }
    let mut b: usize = n;
    loop
        invariant_except_break
            a <= b <= n,
            n == bytes@.len(),
            valid_utf8(bytes@),
            is_char_boundary(bytes@, b as int),
            trimmed(bytes@) == trimmed_end(bytes@.subrange(a as int, b as int)),
        ensures
            a <= b <= n,
            is_char_boundary(bytes@, b as int),
            trimmed(bytes@) == bytes@.subrange(a as int, b as int),
        decreases b - a,
    {
        let ghost t = bytes@.subrange(a as int, b as int);
        let k = space_before(bytes, b);
        proof {
            lemma_space_boundaries(bytes@, b as int);
        }
        if k == 0 || k > b - a {
            break ;
        }
        assert(t.take(t.len() - k) =~= bytes@.subrange(a as int, b - k));
        b -= k;
    }
    part(s, a, b)
}

/// Whether `s` holds nothing but white space.
pub fn is_blank(s: &str) -> (r: bool)
    ensures
        r == (trimmed(s.spec_bytes()).len() == 0),
{
    trim(s).as_bytes().len() == 0
}

} // verus!
