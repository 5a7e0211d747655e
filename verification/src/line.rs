//! A text of several lines kept on one line of the store, and read back.
use crate::rewrite::{lemma_replaced_without, replace_all, replaced};
use crate::search::{first_match, lemma_first_match, lemma_first_match_is, occurs, occurs_at};
use crate::space::{leading_space, lemma_trimmed_twice, trailing_space, trim, trimmed};
use crate::text::owned;
use vstd::prelude::*;
use vstd::string::*;
use vstd::utf8::{encode_utf8, is_ascii_chars_encode_utf8};

verus! {

/// What stands for a line break in a stored quote.
pub const NEWLINE_REPLACEMENT: &'static str = ";;";

/// The byte of a line break.
pub const LINE_BREAK: u8 = 10;

/// The byte of a carriage return.
pub const RETURN: u8 = 13;

/// A line break, as a text.
pub open spec fn line_break() -> Seq<u8> {
    "\n".spec_bytes()
}

/// `;` before a line break: where a text holds this, the marks that stand
/// for its line breaks cannot be told from the `;` before them.
pub open spec fn semicolon_break() -> Seq<u8> {
    seq![59u8, LINE_BREAK]
}

/// `text` on one line: without the white space at its ends, and with every
/// line break replaced.
pub open spec fn encoded_line(text: Seq<u8>) -> Seq<u8> {
    replaced(trimmed(text), line_break(), NEWLINE_REPLACEMENT.spec_bytes())
}

/// The text that a stored line stands for: with line breaks again, and
/// without white space at its ends.
pub open spec fn decoded_line(line: Seq<u8>) -> Seq<u8> {
    trimmed(replaced(line, NEWLINE_REPLACEMENT.spec_bytes(), line_break()))
}

/// The line break and what stands for it, byte by byte.
pub proof fn lemma_line_marks()
    ensures
        line_break() =~= seq![LINE_BREAK],
        NEWLINE_REPLACEMENT.spec_bytes() =~= seq![59u8, 59u8],
{
    reveal_strlit("\n");
    reveal_strlit(";;");
    is_ascii_chars_encode_utf8("\n"@);
    is_ascii_chars_encode_utf8(";;"@);
}

/// A text that does not begin with white space does not begin with it
/// when its line breaks are replaced.
proof fn lemma_marked_leading(t: Seq<u8>)
    requires
        leading_space(t) == 0,
    ensures
        leading_space(replaced(t, line_break(), NEWLINE_REPLACEMENT.spec_bytes())) == 0,
{
    lemma_line_marks();
    lemma_first_match(t, line_break());
}

/// A text that does not end with white space does not end with it when its
/// line breaks are replaced.
proof fn lemma_marked_trailing(t: Seq<u8>)
    requires
        trailing_space(t) == 0,
    ensures
        trailing_space(replaced(t, line_break(), NEWLINE_REPLACEMENT.spec_bytes())) == 0,
    decreases t.len(),
{
    lemma_line_marks();
    lemma_first_match(t, line_break());
    if let Some(i) = first_match(t, line_break()) {
        let rest = t.skip(i + 1);
        lemma_marked_trailing(rest);
    }
}

/// A text on one line has no white space at its ends. It holds no line break
/// and does not end with a carriage return: it can stand on a line of its
/// own, and is read back as it is.
pub proof fn lemma_encoded_line(text: Seq<u8>)
    ensures
        leading_space(encoded_line(text)) == 0,
        trailing_space(encoded_line(text)) == 0,
        !encoded_line(text).contains(LINE_BREAK),
        encoded_line(text).len() > 0 ==> encoded_line(text).last() != RETURN,
{
    let inner = trimmed(text);
    lemma_line_marks();
    lemma_replaced_without(inner, LINE_BREAK, NEWLINE_REPLACEMENT.spec_bytes());
    lemma_trimmed_twice(text);
    lemma_marked_leading(inner);
    lemma_marked_trailing(inner);
}

/// A text that holds neither the mark of a line break nor `;` before a line
/// break gets its line breaks back when the marks that were put for them
/// are replaced by line breaks.
pub proof fn law_line_breaks_return(text: Seq<u8>)
    requires
        !occurs(text, NEWLINE_REPLACEMENT.spec_bytes()),
        !occurs(text, semicolon_break()),
    ensures
        replaced(
            replaced(text, line_break(), NEWLINE_REPLACEMENT.spec_bytes()),
            NEWLINE_REPLACEMENT.spec_bytes(),
            line_break(),
        ) == text,
    decreases text.len(),
{
    let brk = line_break();
    let mark = NEWLINE_REPLACEMENT.spec_bytes();
    lemma_line_marks();
    lemma_first_match(text, brk);
    lemma_first_match(text, mark);
    match first_match(text, brk) {
        None => {},
        Some(i) => {
            let rest = text.skip(i + 1);
            let tail = replaced(rest, brk, mark);
            let line = replaced(text, brk, mark);
            assert forall|j: int| !occurs_at(rest, mark, j) by {
                if occurs_at(rest, mark, j) {
                    assert(text.subrange(i + 1 + j, i + 1 + j + 2) =~= rest.subrange(j, j + 2));
                    assert(occurs_at(text, mark, i + 1 + j));
                }
            }
            assert forall|j: int| !occurs_at(rest, semicolon_break(), j) by {
                if occurs_at(rest, semicolon_break(), j) {
                    assert(text.subrange(i + 1 + j, i + 1 + j + 2) =~= rest.subrange(j, j + 2));
                    assert(occurs_at(text, semicolon_break(), i + 1 + j));
                }
            }
            law_line_breaks_return(rest);
            assert(text.subrange(i, i + 1)[0] == LINE_BREAK);
            assert(line.subrange(i, i + 2) =~= mark);
            assert forall|j: int| 0 <= j < i implies !occurs_at(line, mark, j) by {
                if occurs_at(line, mark, j) {
                    if j + 1 < i {
                        assert(text.subrange(j, j + 2) =~= mark);
                        assert(occurs_at(text, mark, j));
                    } else {
                        assert(text.subrange(j, j + 2) =~= semicolon_break());
                        assert(occurs_at(text, semicolon_break(), j));
                    }
                }
            }
            lemma_first_match_is(line, mark, i);
            assert(line.skip(i + 2) =~= tail);
        },
    }
}

/// A line that is read back gives the text that was put on it, without the
/// white space at its ends, if that text holds neither the mark of a line
/// break nor `;` before a line break.
pub proof fn law_line_round_trip(text: Seq<u8>)
    requires
        !occurs(trimmed(text), NEWLINE_REPLACEMENT.spec_bytes()),
        !occurs(trimmed(text), semicolon_break()),
    ensures
        decoded_line(encoded_line(text)) == trimmed(text),
{
    law_line_breaks_return(trimmed(text));
    lemma_trimmed_twice(text);
}

/// Puts `text` on one line. The result has no white space at its ends,
/// holds no line break and does not end with a carriage return.
pub fn encode_line(text: &str) -> (r: String)
    ensures
        encode_utf8(r@) == encoded_line(text.spec_bytes()),
        leading_space(encode_utf8(r@)) == 0,
        trailing_space(encode_utf8(r@)) == 0,
        !encode_utf8(r@).contains(LINE_BREAK),
        encode_utf8(r@).len() > 0 ==> encode_utf8(r@).last() != RETURN,
{
    proof {
        lemma_encoded_line(text.spec_bytes());
    }
    replace_all(trim(text), "\n", NEWLINE_REPLACEMENT)
}

/// Reads a stored line back as a text of several lines.
pub fn decode_line(line: &str) -> (r: String)
    ensures
        encode_utf8(r@) == decoded_line(line.spec_bytes()),
{
    let broken = replace_all(line, NEWLINE_REPLACEMENT, "\n");
    owned(trim(broken.as_str()))
}

} // verus!
