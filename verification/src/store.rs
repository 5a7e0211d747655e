//! The flat store: one record on each line, a date and the quote of that date.
use crate::line::{LINE_BREAK, RETURN};
use crate::search::{find, first_match, lemma_first_match, lemma_first_match_is, occurs_at, same};
use crate::text::{lemma_boundaries_at_ascii, lemma_boundaries_at_ends, owned, part, push_text};
use vstd::prelude::*;
use vstd::string::*;
use vstd::utf8::{
    encode_utf8, encode_utf8_valid_utf8, is_ascii_chars_encode_utf8, is_char_boundary, valid_utf8,
};

verus! {

/// What a record holds in place of a quote when the page of its date had none.
pub const NO_QUOTE: &'static str = "<NO QUOTE>";

/// The byte that parts the date of a record from its quote.
pub const FIELD_BREAK: u8 = 32;

/// A record of the store.
#[derive(Clone, Debug, PartialEq, Eq)]
pub struct Quote {
    /// The date of the issue, as the archive page gives it: year, month and
    /// day, `2021-06-02`.
    pub date: String,
    /// The quote of the issue on one line, or the mark of a page without one.
    pub text: String,
}

/// What a record holds, as UTF-8.
pub struct Record {
    pub date: Seq<u8>,
    pub text: Seq<u8>,
}

impl View for Quote {
    type V = Record;

    open spec fn view(&self) -> Record {
        Record { date: encode_utf8(self.date@), text: encode_utf8(self.text@) }
    }
}

/// A line of the store that is no record: it has no field break.
#[derive(Clone, Copy, Debug, PartialEq, Eq, Structural)]
pub struct MalformedRecord {
    /// The number of the line, from 0.
    pub line: usize,
}

/// What the store says of a date.
#[derive(Clone, Copy, Debug, PartialEq, Eq, Structural)]
pub enum Lookup {
    /// No record has the date.
    Unknown,
    /// The first record of the date holds the mark of a page without a quote.
    NoQuote,
    /// The first record of the date is the one of this number, from 0, and
    /// holds a quote.
    Found(usize),
}

/// What each of `quotes` holds.
pub open spec fn records(quotes: Seq<Quote>) -> Seq<Record> {
    Seq::new(quotes.len(), |i: int| quotes[i]@)
}

/// What each of `list` holds, as UTF-8.
pub open spec fn texts(list: Seq<String>) -> Seq<Seq<u8>> {
    Seq::new(list.len(), |i: int| encode_utf8(list[i]@))
}

/// `line` without the carriage return that it ends with, if it does.
pub open spec fn without_return(line: Seq<u8>) -> Seq<u8> {
    if line.len() > 0 && line.last() == RETURN {
        line.drop_last()
    } else {
        line
    }
}

/// The lines of `text`. A line ends with a line break, or with a carriage
/// return and a line break, which are no part of it. What follows the last
/// line break is a line too, as it stands, unless it is empty.
pub open spec fn lines_of(text: Seq<u8>) -> Seq<Seq<u8>>
    decreases text.len(),
{
    if text.len() == 0 {
        Seq::empty()
    } else {
        match first_match(text, seq![LINE_BREAK]) {
            None => seq![text],
            Some(i) => {
                proof {
                    lemma_first_match(text, seq![LINE_BREAK]);
                }
                seq![without_return(text.take(i))] + lines_of(text.skip(i + 1))
            },
        }
    }
}

/// The date of a line: what stands before its first field break, or all of
/// it where it has none.
pub open spec fn date_of(line: Seq<u8>) -> Seq<u8> {
    match first_match(line, seq![FIELD_BREAK]) {
        None => line,
        Some(i) => line.take(i),
    }
}

/// The record on a line: the date before the first field break, the quote
/// after it.
pub open spec fn record_of(line: Seq<u8>) -> Option<Record> {
    match first_match(line, seq![FIELD_BREAK]) {
        None => None,
        Some(i) => Some(Record { date: line.take(i), text: line.skip(i + 1) }),
    }
}

/// The records on `lines`, or the first line that is none.
pub open spec fn records_of(lines: Seq<Seq<u8>>) -> Result<Seq<Record>, MalformedRecord>
    decreases lines.len(),
{
    if lines.len() == 0 {
        Ok(Seq::empty())
    } else {
        match records_of(lines.drop_last()) {
            Err(e) => Err(e),
            Ok(before) => match record_of(lines.last()) {
                None => Err(MalformedRecord { line: (lines.len() - 1) as usize }),
                Some(r) => Ok(before.push(r)),
            },
        }
    }
}

/// The line that stores `text` under `date`.
pub open spec fn record_line_of(date: Seq<u8>, text: Seq<u8>) -> Seq<u8> {
    date + seq![FIELD_BREAK] + text + seq![LINE_BREAK]
}

/// The number of the first of `list` that has the date, if one has it.
pub open spec fn first_of_date(list: Seq<Record>, date: Seq<u8>) -> Option<int>
    decreases list.len(),
{
    if list.len() == 0 {
        None
    } else if list[0].date == date {
        Some(0)
    } else {
        match first_of_date(list.drop_first(), date) {
            None => None,
            Some(k) => Some(k + 1),
        }
    }
}

/// What `list` says of `date`.
pub open spec fn lookup_of(list: Seq<Record>, date: Seq<u8>) -> Lookup {
    match first_of_date(list, date) {
        None => Lookup::Unknown,
        Some(k) => if list[k].text == NO_QUOTE.spec_bytes() {
            Lookup::NoQuote
        } else {
            Lookup::Found(k as usize)
        },
    }
}

/// The field break and the line break, as texts.
pub proof fn lemma_breaks()
    ensures
        " ".spec_bytes() =~= seq![FIELD_BREAK],
        "\n".spec_bytes() =~= seq![LINE_BREAK],
{
    reveal_strlit(" ");
    reveal_strlit("\n");
    is_ascii_chars_encode_utf8(" "@);
    is_ascii_chars_encode_utf8("\n"@);
}

/// The lines of a text of two parts are those of the first part and those
/// of the second, if the first part ends with a line break or is empty.
pub proof fn lemma_lines_of_concat(a: Seq<u8>, b: Seq<u8>)
    requires
        a.len() == 0 || a.last() == LINE_BREAK,
    ensures
        lines_of(a + b) == lines_of(a) + lines_of(b),
    decreases a.len(),
{
    let brk = seq![LINE_BREAK];
    if a.len() > 0 {
        assert(a.subrange(a.len() - 1, a.len() as int) =~= brk);
        assert(occurs_at(a, brk, a.len() - 1));
        lemma_first_match(a, brk);
        let i = first_match(a, brk).unwrap();
        assert((a + b).subrange(i, i + 1) =~= a.subrange(i, i + 1));
        assert forall|j: int| 0 <= j < i implies !occurs_at(a + b, brk, j) by {
            if occurs_at(a + b, brk, j) {
                assert(a.subrange(j, j + 1) =~= (a + b).subrange(j, j + 1));
                assert(occurs_at(a, brk, j));
            }
        }
        lemma_first_match_is(a + b, brk, i);
        let rest = a.skip(i + 1);
        lemma_lines_of_concat(rest, b);
        assert((a + b).take(i) =~= a.take(i));
        assert((a + b).skip(i + 1) =~= rest + b);
    }
}

/// A text without a line break, and not ending with a carriage return,
/// is the one line of the text that a line break is added to.
pub proof fn lemma_one_line(line: Seq<u8>)
    requires
        !line.contains(LINE_BREAK),
        line.len() > 0 ==> line.last() != RETURN,
    ensures
        lines_of(line + seq![LINE_BREAK]) == seq![line],
{
    let brk = seq![LINE_BREAK];
    let whole = line + brk;
    let n = line.len() as int;
    assert(whole.subrange(n, n + 1) =~= brk);
    assert forall|j: int| 0 <= j < line.len() implies !occurs_at(whole, brk, j) by {
        if occurs_at(whole, brk, j) {
            assert(whole.subrange(j, j + 1)[0] == line[j]);
        }
    }
    lemma_first_match_is(whole, brk, n);
    assert(whole.take(n) =~= line);
    assert(lines_of(whole.skip(n + 1)) =~= Seq::<Seq<u8>>::empty());
}

/// A record that is added to a store of whole lines is a line of its own
/// after the lines of the store, and holds its date and its quote, if the
/// date holds no field break, neither of them holds a line break, and the
/// quote does not end with a carriage return.
pub proof fn lemma_added_line(stored: Seq<u8>, date: Seq<u8>, text: Seq<u8>)
    requires
        stored.len() == 0 || stored.last() == LINE_BREAK,
        !date.contains(FIELD_BREAK),
        !date.contains(LINE_BREAK),
        !text.contains(LINE_BREAK),
        text.len() > 0 ==> text.last() != RETURN,
    ensures
        lines_of(stored + record_line_of(date, text)) == lines_of(stored).push(
            date + seq![FIELD_BREAK] + text,
        ),
        record_of(date + seq![FIELD_BREAK] + text) == Some(Record { date, text }),
        date_of(date + seq![FIELD_BREAK] + text) == date,
{
    let brk = seq![FIELD_BREAK];
    let line = date + brk + text;
    assert(!line.contains(LINE_BREAK)) by {
        if line.contains(LINE_BREAK) {
            let k = choose|k: int| 0 <= k < line.len() && line[k] == LINE_BREAK;
        }
    }
    lemma_one_line(line);
    lemma_lines_of_concat(stored, line + seq![LINE_BREAK]);
    // The date ends at the first field break of the line.
    let n = date.len() as int;
    assert(line.subrange(n, n + 1) =~= brk);
    assert forall|j: int| 0 <= j < date.len() implies !occurs_at(line, brk, j) by {
        if occurs_at(line, brk, j) {
            assert(line.subrange(j, j + 1)[0] == date[j]);
        }
    }
    lemma_first_match_is(line, brk, n);
    assert(line.take(n) =~= date);
    assert(line.skip(n + 1) =~= text);
}

/// Where the records of the first lines fail at a line, those of all the
/// lines fail there too.
pub proof fn lemma_records_fail(lines: Seq<Seq<u8>>, k: int)
    requires
        0 <= k < lines.len(),
        records_of(lines.take(k + 1)) is Err,
    ensures
        records_of(lines) == records_of(lines.take(k + 1)),
    decreases lines.len(),
{
    if lines.len() == k + 1 {
        assert(lines.take(k + 1) =~= lines);
    } else {
        assert(lines.drop_last().take(k + 1) =~= lines.take(k + 1));
        lemma_records_fail(lines.drop_last(), k);
    }
}

/// The first record of a date is a record of that date in the list, and no
/// record before it has the date.
pub proof fn lemma_first_of_date(list: Seq<Record>, date: Seq<u8>)
    ensures
        match first_of_date(list, date) {
            Some(k) => 0 <= k < list.len() && list[k].date == date && forall|j: int|
                0 <= j < k ==> (#[trigger] list[j]).date != date,
            None => forall|j: int| 0 <= j < list.len() ==> (#[trigger] list[j]).date != date,
        },
    decreases list.len(),
{
    if list.len() > 0 && list[0].date != date {
        let rest = list.drop_first();
        lemma_first_of_date(rest, date);
        match first_of_date(rest, date) {
            Some(k) => {
                assert forall|j: int| 0 <= j < k + 1 implies (#[trigger] list[j]).date != date by {
                    if j > 0 {
                        assert(rest[j - 1] == list[j]);
                    }
                }
            },
            None => {
                assert forall|j: int| 0 <= j < list.len() implies (#[trigger] list[j]).date
                    != date by {
                    if j > 0 {
                        assert(rest[j - 1] == list[j]);
                    }
                }
            },
        }
    }
}

/// A record that is added to a store of whole lines is read back after the
/// records that the store held, with its date and its quote as they were
/// written, if the date holds no field break, neither of them holds a line
/// break, and the quote does not end with a carriage return.
pub proof fn law_added_record_reads_back(stored: Seq<u8>, date: Seq<u8>, text: Seq<u8>)
    requires
        stored.len() == 0 || stored.last() == LINE_BREAK,
        !date.contains(FIELD_BREAK),
        !date.contains(LINE_BREAK),
        !text.contains(LINE_BREAK),
        text.len() > 0 ==> text.last() != RETURN,
    ensures
        records_of(lines_of(stored + record_line_of(date, text))) == match records_of(
            lines_of(stored),
        ) {
            Ok(before) => Ok::<Seq<Record>, MalformedRecord>(before.push(Record { date, text })),
            Err(e) => Err(e),
        },
{
    let line = date + seq![FIELD_BREAK] + text;
    lemma_added_line(stored, date, text);
    let all = lines_of(stored).push(line);
    assert(all.drop_last() =~= lines_of(stored));
}

/// A record that is written and read back has its date and its quote as
/// they were written, if the date holds no field break, neither of them
/// holds a line break, and the quote does not end with a carriage return.
pub proof fn law_record_round_trip(date: Seq<u8>, text: Seq<u8>)
    requires
        !date.contains(FIELD_BREAK),
        !date.contains(LINE_BREAK),
        !text.contains(LINE_BREAK),
        text.len() > 0 ==> text.last() != RETURN,
    ensures
        records_of(lines_of(record_line_of(date, text))) == Ok::<Seq<Record>, MalformedRecord>(
            seq![Record { date, text }],
        ),
{
    let none = Seq::<u8>::empty();
    law_added_record_reads_back(none, date, text);
}

/// Splits `text` into its lines.
pub fn lines(text: &str) -> (r: Vec<String>)
    ensures
        texts(r@) == lines_of(text.spec_bytes()),
{
    let bytes = text.as_bytes();
    let n = bytes.len();
    let mut out: Vec<String> = Vec::new();
    let mut pos: usize = 0;
    let brk: [u8; 1] = [LINE_BREAK];
    assert(bytes@.skip(0) =~= bytes@);
    proof {
        encode_utf8_valid_utf8(text@);
        lemma_boundaries_at_ends(bytes@);
    }
    while pos < n
        invariant
            bytes@ == text.spec_bytes(),
            n == bytes@.len(),
            pos <= n,
            brk@ == seq![LINE_BREAK],
            valid_utf8(bytes@),
            is_char_boundary(bytes@, pos as int),
            is_char_boundary(bytes@, n as int),
            texts(out@) + lines_of(bytes@.skip(pos as int)) == lines_of(bytes@),
        decreases n - pos,
    {
        let rest = &bytes[pos..n];
        match find(rest, brk.as_slice()) {
            None => {
                out.push(owned(part(text, pos, n)));
                pos = n;
            },
            Some(i) => {
                assert(rest@.subrange(i as int, i + 1)[0] == bytes@[pos + i]);
                proof {
                    lemma_boundaries_at_ascii(bytes@, pos + i);
                }
                let end = if i > 0 && rest[i - 1] == RETURN {
                    proof {
                        lemma_boundaries_at_ascii(bytes@, pos + i - 1);
                    }
                    pos + i - 1
                } else {
                    pos + i
                };
                out.push(owned(part(text, pos, end)));
                assert(bytes@.subrange(pos as int, end as int) =~= without_return(
                    rest@.take(i as int),
                ));
                assert(rest@.skip(i + 1) =~= bytes@.skip(pos + i + 1));
                pos = pos + i + 1;
            },
        }
    }
    out
}

/// Reads the records of the store whose contents are `stored`.
pub fn get_quotes(stored: &str) -> (r: Result<Vec<Quote>, MalformedRecord>)
    ensures
        match r {
            Ok(quotes) => records_of(lines_of(stored.spec_bytes())) == Ok::<
                Seq<Record>,
                MalformedRecord,
            >(records(quotes@)),
            Err(e) => records_of(lines_of(stored.spec_bytes())) == Err::<
                Seq<Record>,
                MalformedRecord,
            >(e),
        },
{
    let all = lines(stored);
    let ghost lines = lines_of(stored.spec_bytes());
    let mut out: Vec<Quote> = Vec::new();
    let brk: [u8; 1] = [FIELD_BREAK];
    let mut k: usize = 0;
    assert(records(out@) =~= Seq::<Record>::empty());
    while k < all.len()
        invariant
            k <= all.len(),
            texts(all@) == lines,
            lines == lines_of(stored.spec_bytes()),
            brk@ == seq![FIELD_BREAK],
            records_of(lines.take(k as int)) == Ok::<Seq<Record>, MalformedRecord>(records(out@)),
        decreases all.len() - k,
    {
        let line = all[k].as_str();
        let bytes = line.as_bytes();
        let len = bytes.len();
        proof {
            encode_utf8_valid_utf8(line@);
            lemma_boundaries_at_ends(bytes@);
            assert(lines.take(k + 1).drop_last() =~= lines.take(k as int));
        }
        let ghost before = records(out@);
        match find(bytes, brk.as_slice()) {
            None => {
                proof {
                    lemma_records_fail(lines, k as int);
                }
                return Err(MalformedRecord { line: k });
            },
            Some(i) => {
                assert(bytes@.subrange(i as int, i + 1)[0] == bytes@[i as int]);
                proof {
                    lemma_boundaries_at_ascii(bytes@, i as int);
                }
                let date = owned(part(line, 0, i));
                let text = owned(part(line, i + 1, len));
                out.push(Quote { date, text });
                assert(records(out@) =~= before.push(record_of(bytes@).unwrap()));
            },
        }
        k += 1;
    }
    assert(lines.take(k as int) =~= lines);
    Ok(out)
}

/// The line that stores `quote` under `date`, or the mark of a page without
/// a quote where `quote` is `None`.
pub fn record_line(date: &str, quote: Option<&str>) -> (r: String)
    ensures
        encode_utf8(r@) == record_line_of(
            date.spec_bytes(),
            match quote {
                Some(q) => q.spec_bytes(),
                None => NO_QUOTE.spec_bytes(),
            },
        ),
{
    proof {
        lemma_breaks();
    }
    let mut out = owned(date);
    push_text(&mut out, " ");
    match quote {
        Some(q) => push_text(&mut out, q),
        None => push_text(&mut out, NO_QUOTE),
    }
    push_text(&mut out, "\n");
    out
}

/// Looks `date` up in `quotes`: the first record of the date counts.
pub fn lookup(quotes: &[Quote], date: &str) -> (r: Lookup)
    ensures
        r == lookup_of(records(quotes@), date.spec_bytes()),
        r is Unknown <==> forall|j: int|
            0 <= j < quotes@.len() ==> (#[trigger] quotes@[j])@.date != date.spec_bytes(),
        r matches Lookup::Found(k) ==> k < quotes@.len() && quotes@[k as int]@.date
            == date.spec_bytes() && quotes@[k as int]@.text != NO_QUOTE.spec_bytes(),
{
    let ghost list = records(quotes@);
    proof {
        lemma_first_of_date(list, date.spec_bytes());
        if first_of_date(list, date.spec_bytes()) is None {
            assert forall|j: int| 0 <= j < quotes@.len() implies (#[trigger] quotes@[j])@.date
                != date.spec_bytes() by {
                assert(list[j] == quotes@[j]@);
            }
        } else {
            let k = first_of_date(list, date.spec_bytes()).unwrap();
        }
    }
    let mut k: usize = 0;
    assert(list.skip(0) =~= list);
    while k < quotes.len()
        invariant
            k <= quotes.len(),
            list == records(quotes@),
            match first_of_date(list.skip(k as int), date.spec_bytes()) {
                None => first_of_date(list, date.spec_bytes()) is None,
                Some(j) => first_of_date(list, date.spec_bytes()) == Some(k + j),
            },
        decreases quotes.len() - k,
    {
        let ghost rest = list.skip(k as int);
        assert(rest.drop_first() =~= list.skip(k + 1));
        if same(quotes[k].date.as_str().as_bytes(), date.as_bytes()) {
            return if same(quotes[k].text.as_str().as_bytes(), NO_QUOTE.as_bytes()) {
                Lookup::NoQuote
            } else {
                Lookup::Found(k)
            };
        }
        k += 1;
    }
    Lookup::Unknown
}

/// The record that a random number picks: the one whose number is what is
/// left of `random` when it is divided by the number of records, unless it
/// holds the mark of a page without a quote. `None` then, and where there
/// is no record.
pub fn pick(quotes: &[Quote], random: usize) -> (r: Option<usize>)
    ensures
        r == if quotes@.len() > 0 && quotes@[random as int % quotes@.len() as int]@.text
            != NO_QUOTE.spec_bytes() {
            Some((random as int % quotes@.len() as int) as usize)
        } else {
            None
        },
{
    let n = quotes.len();
    if n == 0 {
        return None;
    }
    let k = random % n;
    if same(quotes[k].text.as_str().as_bytes(), NO_QUOTE.as_bytes()) {
        None
    } else {
        Some(k)
    }
}

} // verus!
