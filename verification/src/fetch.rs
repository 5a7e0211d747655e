//! The issues that the store does not hold yet, and what is added to the
//! store for each.
use crate::entity::decoded;
use crate::error::MalformedMarkup;
use crate::index::{get_new_twir_urls, index_of, issues, Issue, MalformedIndex, TwirUrl};
use crate::line::{lemma_encoded_line, LINE_BREAK, RETURN};
use crate::normalize::plain_text;
use crate::quote::{get_qotw, quote_markup_of, quote_of};
use crate::search::{find, same};
use crate::store::{
    date_of, law_added_record_reads_back, lemma_added_line, lines, lines_of, record_line,
    record_line_of, records_of, texts, MalformedRecord, Record, FIELD_BREAK, NO_QUOTE,
};
use crate::text::{lemma_boundaries_at_ascii, lemma_boundaries_at_ends, owned, part};
use vstd::prelude::*;
use vstd::string::*;
use vstd::utf8::{encode_utf8, encode_utf8_valid_utf8, is_ascii_chars_encode_utf8};

verus! {

/// The date is one of the dates of the lines of `stored`.
pub open spec fn recorded(stored: Seq<u8>, date: Seq<u8>) -> bool {
    exists|k: int|
        0 <= k < lines_of(stored).len() && date_of(#[trigger] lines_of(stored)[k]) == date
}

/// The issues of `list` whose date the store does not hold, the last of the
/// list first.
pub open spec fn missing(stored: Seq<u8>, list: Seq<Issue>) -> Seq<Issue>
    decreases list.len(),
{
    if list.len() == 0 {
        Seq::empty()
    } else if recorded(stored, list.last().date) {
        missing(stored, list.drop_last())
    } else {
        seq![list.last()] + missing(stored, list.drop_last())
    }
}

/// What stands in the store for a page of address `url`: its quote, or the
/// mark of a page without one.
pub open spec fn stored_for(page: Seq<u8>, url: Seq<u8>) -> Result<Seq<u8>, MalformedMarkup> {
    match quote_of(page, url) {
        Ok(Some(q)) => Ok(q),
        Ok(None) => Ok(NO_QUOTE.spec_bytes()),
        Err(e) => Err(e),
    }
}

/// The missing issues are the issues of the list whose date the store does
/// not hold, all of them and no others.
pub proof fn lemma_missing(stored: Seq<u8>, list: Seq<Issue>)
    ensures
        missing(stored, list).len() <= list.len(),
        forall|k: int|
            0 <= k < missing(stored, list).len() ==> list.contains(
                #[trigger] missing(stored, list)[k],
            ) && !recorded(stored, missing(stored, list)[k].date),
        forall|i: int|
            0 <= i < list.len() && !recorded(stored, (#[trigger] list[i]).date) ==> missing(
                stored,
                list,
            ).contains(list[i]),
    decreases list.len(),
{
    if list.len() > 0 {
        let last = list.last();
        let before = list.drop_last();
        let found = missing(stored, list);
        let rest = missing(stored, before);
        // What is missing from the list is the last issue, if the store lacks
        // it, and then what is missing from the issues before it.
        let shift: int = if recorded(stored, last.date) {
            0
        } else {
            1
        };
        lemma_missing(stored, before);
        assert forall|k: int| 0 <= k < found.len() implies list.contains(#[trigger] found[k])
            && !recorded(stored, found[k].date) by {
            if k < shift {
                assert(list[list.len() - 1] == found[k]);
            } else {
                let at = choose|i: int| 0 <= i < before.len() && before[i] == rest[k - shift];
                assert(list[at] == found[k]);
            }
        }
        assert forall|i: int|
            0 <= i < list.len() && !recorded(
                stored,
                (#[trigger] list[i]).date,
            ) implies found.contains(list[i]) by {
            if i == list.len() - 1 {
                assert(found[0] == list[i]);
            } else {
                let at = choose|k: int| 0 <= k < rest.len() && rest[k] == before[i];
                assert(found[at + shift] == list[i]);
            }
        }
    }
}

/// What is stored for a page holds no line break and does not end with a
/// carriage return.
pub proof fn lemma_stored_for(page: Seq<u8>, url: Seq<u8>)
    ensures
        stored_for(page, url) matches Ok(text) ==> !text.contains(LINE_BREAK) && (text.len() > 0
            ==> text.last() != RETURN),
{
    match quote_of(page, url) {
        Ok(Some(q)) => {
            let plain = plain_text(quote_markup_of(page, url).unwrap().unwrap()).unwrap();
            lemma_encoded_line(decoded(plain));
        },
        Ok(None) => {
            reveal_strlit("<NO QUOTE>");
            is_ascii_chars_encode_utf8(NO_QUOTE@);
            let mark = NO_QUOTE.spec_bytes();
            assert forall|k: int| 0 <= k < mark.len() implies mark[k] != LINE_BREAK by {}
        },
        Err(_) => {},
    }
}

/// An issue whose record has been added to a store of whole lines is
/// missing no more: the store holds its date.
pub proof fn law_added_record_is_recorded(stored: Seq<u8>, date: Seq<u8>, text: Seq<u8>)
    requires
        stored.len() == 0 || stored.last() == LINE_BREAK,
        !date.contains(FIELD_BREAK),
        !date.contains(LINE_BREAK),
        !text.contains(LINE_BREAK),
        text.len() > 0 ==> text.last() != RETURN,
    ensures
        recorded(stored + record_line_of(date, text), date),
{
    lemma_added_line(stored, date, text);
    let all = lines_of(stored + record_line_of(date, text));
    assert(date_of(all[all.len() - 1]) == date);
}

/// What is added to a store of whole lines for an issue is read back after
/// the records that the store held, the date of the issue with what is
/// stored for its page, and the issue is missing no more, if its date holds
/// no field break and no line break.
pub proof fn law_next_record_reads_back(stored: Seq<u8>, issue: Issue, page: Seq<u8>)
    requires
        stored.len() == 0 || stored.last() == LINE_BREAK,
        !issue.date.contains(FIELD_BREAK),
        !issue.date.contains(LINE_BREAK),
        stored_for(page, issue.url) is Ok,
    ensures
        ({
            let text = stored_for(page, issue.url).unwrap();
            let after = stored + record_line_of(issue.date, text);
            &&& records_of(lines_of(after)) == match records_of(lines_of(stored)) {
                Ok(before) => Ok::<Seq<Record>, MalformedRecord>(
                    before.push(Record { date: issue.date, text }),
                ),
                Err(e) => Err(e),
            }
            &&& recorded(after, issue.date)
        }),
{
    let text = stored_for(page, issue.url).unwrap();
    lemma_stored_for(page, issue.url);
    law_added_record_reads_back(stored, issue.date, text);
    law_added_record_is_recorded(stored, issue.date, text);
}

/// Whether one of `dates` is `date`.
fn holds(dates: &Vec<String>, date: &str) -> (r: bool)
    ensures
        r == exists|k: int|
            0 <= k < dates@.len() && encode_utf8((#[trigger] dates@[k])@) == date.spec_bytes(),
{
    let mut k: usize = 0;
    while k < dates.len()
        invariant
            k <= dates.len(),
            forall|j: int|
                0 <= j < k ==> encode_utf8((#[trigger] dates@[j])@) != date.spec_bytes(),
        decreases dates.len() - k,
    {
        if same(dates[k].as_str().as_bytes(), date.as_bytes()) {
            return true;
        }
        k += 1;
    }
    false
}

/// The dates of the lines of `stored`.
pub fn stored_dates(stored: &str) -> (r: Vec<String>)
    ensures
        r@.len() == lines_of(stored.spec_bytes()).len(),
        forall|k: int|
            0 <= k < r@.len() ==> encode_utf8((#[trigger] r@[k])@) == date_of(
                lines_of(stored.spec_bytes())[k],
            ),
{
    let all = lines(stored);
    let mut out: Vec<String> = Vec::new();
    let brk: [u8; 1] = [FIELD_BREAK];
    let mut k: usize = 0;
    while k < all.len()
        invariant
            k <= all.len(),
            out@.len() == k,
            texts(all@) == lines_of(stored.spec_bytes()),
            brk@ == seq![FIELD_BREAK],
            forall|j: int|
                0 <= j < k ==> encode_utf8((#[trigger] out@[j])@) == date_of(
                    lines_of(stored.spec_bytes())[j],
                ),
        decreases all.len() - k,
    {
        let line = all[k].as_str();
        let bytes = line.as_bytes();
        let len = bytes.len();
        proof {
            encode_utf8_valid_utf8(line@);
            lemma_boundaries_at_ends(bytes@);
        }
        let end = match find(bytes, brk.as_slice()) {
            None => len,
            Some(i) => {
                assert(bytes@.subrange(i as int, i + 1)[0] == bytes@[i as int]);
                proof {
                    lemma_boundaries_at_ascii(bytes@, i as int);
                }
                i
            },
        };
        let date = owned(part(line, 0, end));
        out.push(date);
        k += 1;
    }
    out
}

/// Lists the issues that are to be fetched: those of the archive page whose
/// date the store does not hold, the last of the page first. The page lists
/// the newest issue first, so the oldest is fetched first. `None` for an
/// empty page.
pub fn fetch_missing_quotes(stored: &str, page: &str) -> (r: Result<
    Option<Vec<TwirUrl>>,
    MalformedIndex,
>)
    ensures
        match r {
            Ok(Some(list)) => index_of(page.spec_bytes()) matches Ok(Some(all)) && issues(list@)
                == missing(stored.spec_bytes(), all) && forall|k: int|
                0 <= k < list@.len() ==> all.contains((#[trigger] list@[k])@) && !recorded(
                    stored.spec_bytes(),
                    list@[k]@.date,
                ),
            Ok(None) => index_of(page.spec_bytes()) == Ok::<Option<Seq<Issue>>, MalformedIndex>(
                None,
            ),
            Err(e) => index_of(page.spec_bytes()) == Err::<Option<Seq<Issue>>, MalformedIndex>(e),
        },
{
    let dates = stored_dates(stored);
    let all = match get_new_twir_urls(page) {
        Err(e) => { return Err(e); },
        Ok(None) => { return Ok(None); },
        Ok(Some(all)) => all,
    };
    let ghost store = stored.spec_bytes();
    let ghost listed = issues(all@);
    let mut out: Vec<TwirUrl> = Vec::new();
    let mut k: usize = all.len();
    assert(listed.take(k as int) =~= listed);
    while k > 0
        invariant
            k <= all.len(),
            listed == issues(all@),
            store == stored.spec_bytes(),
            dates@.len() == lines_of(store).len(),
            forall|j: int|
                0 <= j < dates@.len() ==> encode_utf8((#[trigger] dates@[j])@) == date_of(
                    lines_of(store)[j],
                ),
            issues(out@) + missing(store, listed.take(k as int)) == missing(store, listed),
        decreases k,
    {
        k -= 1;
        let issue = &all[k];
        let ghost head = listed.take(k + 1);
        assert(head.drop_last() =~= listed.take(k as int));
        let known = holds(&dates, issue.date.as_str());
        proof {
            if known {
                let j = choose|j: int|
                    0 <= j < dates@.len() && encode_utf8((#[trigger] dates@[j])@) == issue@.date;
            } else {
                assert forall|j: int| 0 <= j < lines_of(store).len() implies date_of(
                    #[trigger] lines_of(store)[j],
                ) != issue@.date by {
                    assert(encode_utf8(dates@[j]@) == date_of(lines_of(store)[j]));
                }
            }
        }
        if !known {
            out.push(TwirUrl { url: issue.url.clone(), date: issue.date.clone() });
        }
    }
    proof {
        lemma_missing(store, listed);
        assert forall|k: int| 0 <= k < out@.len() implies listed.contains((#[trigger] out@[k])@)
            && !recorded(store, out@[k]@.date) by {
            assert(issues(out@)[k] == out@[k]@);
        }
    }
    Ok(Some(out))
}

/// The line to add to the store for `issue`, whose page is `page`: its date
/// with the quote of the page, or with the mark of a page without one.
pub fn next_record(issue: &TwirUrl, page: &str) -> (r: Result<String, MalformedMarkup>)
    ensures
        match r {
            Ok(line) => stored_for(page.spec_bytes(), issue@.url) matches Ok(text) && encode_utf8(
                line@,
            ) == record_line_of(issue@.date, text),
            Err(e) => stored_for(page.spec_bytes(), issue@.url) == Err::<Seq<u8>, MalformedMarkup>(
                e,
            ),
        },
{
    match get_qotw(page, issue.url.as_str()) {
        Err(e) => Err(e),
        Ok(None) => Ok(record_line(issue.date.as_str(), None)),
        Ok(Some(q)) => Ok(record_line(issue.date.as_str(), Some(q.as_str()))),
    }
}

} // verus!
