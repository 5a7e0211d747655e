//! The archive page, which lists the issues of the blog.
use crate::search::{find, first_match, lemma_first_match};
use crate::store::texts;
use crate::text::{
    lemma_boundaries_at_ascii, lemma_boundaries_at_ends, lemma_boundary_in_suffix,
    lemma_match_boundaries, owned, part,
};
use vstd::prelude::*;
use vstd::string::*;
use vstd::utf8::{
    encode_utf8, encode_utf8_valid_utf8, is_ascii_chars_encode_utf8, is_char_boundary, valid_utf8,
};

verus! {

/// The heading of the list of issues.
pub const ARCHIVE_HEADING: &'static str = "Past issues";

/// The title at which the list is cut off: what follows it on the page is
/// not read.
pub const LIST_END: &'static str = "This Week in Rust 72";

/// What every entry of the list begins with.
pub const ENTRY: &'static str = "<li>";

/// The attribute that holds the date of an entry.
pub const DATE_ATTRIBUTE: &'static str = "datetime";

/// The number of bytes from the beginning of the name of the date attribute
/// to its value: the name, `=` and `"`.
pub const DATE_AT: usize = 10;

/// The number of bytes of a date.
pub const DATE_LEN: usize = 10;

/// The attribute that holds the address of an entry.
pub const ADDRESS_ATTRIBUTE: &'static str = "href";

/// The number of bytes from the beginning of the name of the address
/// attribute to its value: the name, `=` and `"`.
pub const ADDRESS_AT: usize = 6;

/// The byte `"`, which ends the value of an attribute.
pub const VALUE_END: u8 = 34;

/// An issue of the blog: the address of its page and its date.
#[derive(Clone, Debug, PartialEq, Eq)]
pub struct TwirUrl {
    /// The address of the page of the issue.
    pub url: String,
    /// The date of the issue: year, month and day, `2021-06-02`.
    pub date: String,
}

/// What an issue holds, as UTF-8.
pub struct Issue {
    pub url: Seq<u8>,
    pub date: Seq<u8>,
}

impl View for TwirUrl {
    type V = Issue;

    open spec fn view(&self) -> Issue {
        Issue { url: encode_utf8(self.url@), date: encode_utf8(self.date@) }
    }
}

/// What each of `list` holds.
pub open spec fn issues(list: Seq<TwirUrl>) -> Seq<Issue> {
    Seq::new(list.len(), |i: int| list[i]@)
}

/// An archive page that cannot be read.
#[derive(Clone, Copy, Debug, PartialEq, Eq, Structural)]
pub enum MalformedIndex {
    /// The page has no list of issues.
    NoList,
    /// The title at which the list is cut off does not follow its heading.
    NoEnd,
    /// The entry of this number, from 0, lacks its date or its address.
    Entry { number: usize },
}

/// The parts of `s` between the occurrences of `sep`, which are taken from
/// the left and do not overlap. An empty `sep` parts nothing.
pub open spec fn parts_of(s: Seq<u8>, sep: Seq<u8>) -> Seq<Seq<u8>>
    decreases s.len(),
{
    if sep.len() == 0 {
        seq![s]
    } else {
        match first_match(s, sep) {
            None => seq![s],
            Some(i) => {
                proof {
                    lemma_first_match(s, sep);
                }
                seq![s.take(i)] + parts_of(s.skip(i + sep.len()), sep)
            },
        }
    }
}

/// The issue that the entry `item` lists: its date is the ten bytes of the
/// value of the first date attribute, its address the value of the first
/// address attribute from the date on, up to the next `"`. An entry lists
/// none where it lacks one of these, or where the date or the address
/// would begin or end within a character.
pub open spec fn entry_of(item: Seq<u8>) -> Option<Issue> {
    match first_match(item, DATE_ATTRIBUTE.spec_bytes()) {
        None => None,
        Some(d) => if d + DATE_AT + DATE_LEN > item.len() || !is_char_boundary(item, d + DATE_AT)
            || !is_char_boundary(item, d + DATE_AT + DATE_LEN) {
            None
        } else {
            let dated = item.skip(d + DATE_AT);
            match first_match(dated, ADDRESS_ATTRIBUTE.spec_bytes()) {
                None => None,
                Some(h) => if h + ADDRESS_AT > dated.len() || !is_char_boundary(
                    dated,
                    h + ADDRESS_AT,
                ) {
                    None
                } else {
                    let addressed = dated.skip(h + ADDRESS_AT);
                    match first_match(addressed, seq![VALUE_END]) {
                        None => None,
                        Some(q) => Some(
                            Issue { url: addressed.take(q), date: dated.take(DATE_LEN as int) },
                        ),
                    }
                },
            }
        },
    }
}

/// The issues that `items` list, or the first of them that lists none.
pub open spec fn listed(items: Seq<Seq<u8>>) -> Result<Seq<Issue>, MalformedIndex>
    decreases items.len(),
{
    if items.len() == 0 {
        Ok(Seq::empty())
    } else {
        match listed(items.drop_last()) {
            Err(e) => Err(e),
            Ok(before) => match entry_of(items.last()) {
                None => Err(MalformedIndex::Entry { number: (items.len() - 1) as usize }),
                Some(issue) => Ok(before.push(issue)),
            },
        }
    }
}

/// The issues that the archive page lists, in the order of the page: the
/// entries between the heading of the list and the title at which it is cut
/// off. What stands before the first entry is no entry. `None` for an empty
/// page.
pub open spec fn index_of(page: Seq<u8>) -> Result<Option<Seq<Issue>>, MalformedIndex> {
    if page.len() == 0 {
        Ok(None)
    } else {
        match first_match(page, ARCHIVE_HEADING.spec_bytes()) {
            None => Err(MalformedIndex::NoList),
            Some(a) => match first_match(page.skip(a), LIST_END.spec_bytes()) {
                None => Err(MalformedIndex::NoEnd),
                Some(b) => match listed(
                    parts_of(page.subrange(a, a + b), ENTRY.spec_bytes()).drop_first(),
                ) {
                    Err(e) => Err(e),
                    Ok(list) => Ok(Some(list)),
                },
            },
        }
    }
}

/// The lengths of the marks of the archive page.
pub proof fn lemma_index_marks()
    ensures
        ARCHIVE_HEADING.spec_bytes().len() == 11,
        LIST_END.spec_bytes().len() == 20,
        ENTRY.spec_bytes().len() == 4,
{
    reveal_strlit("Past issues");
    reveal_strlit("This Week in Rust 72");
    reveal_strlit("<li>");
    is_ascii_chars_encode_utf8(ARCHIVE_HEADING@);
    is_ascii_chars_encode_utf8(LIST_END@);
    is_ascii_chars_encode_utf8(ENTRY@);
}

/// Where the first entries fail at one of them, all the entries fail there too.
pub proof fn lemma_listed_fail(items: Seq<Seq<u8>>, k: int)
    requires
        0 <= k < items.len(),
        listed(items.take(k + 1)) is Err,
    ensures
        listed(items) == listed(items.take(k + 1)),
    decreases items.len(),
{
    if items.len() == k + 1 {
        assert(items.take(k + 1) =~= items);
    } else {
        assert(items.drop_last().take(k + 1) =~= items.take(k + 1));
        lemma_listed_fail(items.drop_last(), k);
    }
}

/// Splits `s` at the occurrences of `sep`.
pub fn split(s: &str, sep: &str) -> (r: Vec<String>)
    ensures
        texts(r@) == parts_of(s.spec_bytes(), sep.spec_bytes()),
{
    let bytes = s.as_bytes();
    let n = bytes.len();
    let m = sep.as_bytes().len();
    let mut out: Vec<String> = Vec::new();
    let mut pos: usize = 0;
    assert(bytes@.skip(0) =~= bytes@);
    proof {
        encode_utf8_valid_utf8(s@);
        encode_utf8_valid_utf8(sep@);
        lemma_boundaries_at_ends(bytes@);
    }
    loop
        invariant
            bytes@ == s.spec_bytes(),
            n == bytes@.len(),
            m == sep.spec_bytes().len(),
            pos <= n,
            valid_utf8(bytes@),
            valid_utf8(sep.spec_bytes()),
            is_char_boundary(bytes@, pos as int),
            is_char_boundary(bytes@, n as int),
            texts(out@) + parts_of(bytes@.skip(pos as int), sep.spec_bytes()) == parts_of(
                bytes@,
                sep.spec_bytes(),
            ),
        decreases n - pos,
    {
        let rest = &bytes[pos..n];
        let found = if m == 0 {
            None
        } else {
            find(rest, sep.as_bytes())
        };
        match found {
            None => {
                out.push(owned(part(s, pos, n)));
                return out;
            },
            Some(i) => {
                proof {
                    assert(bytes@.subrange(pos + i, pos + i + m) =~= rest@.subrange(
                        i as int,
                        i + m,
                    ));
                    lemma_match_boundaries(bytes@, sep.spec_bytes(), pos + i);
                }
                out.push(owned(part(s, pos, pos + i)));
                assert(bytes@.subrange(pos as int, pos + i) =~= rest@.take(i as int));
                assert(rest@.skip(i + m) =~= bytes@.skip(pos + i + m));
                pos = pos + i + m;
            },
        }
    }
}

/// Reads the issue that an entry lists.
pub fn parse_entry(item: &str) -> (r: Option<TwirUrl>)
    ensures
        match r {
            Some(issue) => entry_of(item.spec_bytes()) == Some(issue@),
            None => entry_of(item.spec_bytes()) is None,
        },
{
    let bytes = item.as_bytes();
    let n = bytes.len();
    proof {
        encode_utf8_valid_utf8(item@);
        lemma_boundaries_at_ends(bytes@);
    }
    let d = match find(bytes, DATE_ATTRIBUTE.as_bytes()) {
        None => { return None; },
        Some(d) => d,
    };
    if n - d < DATE_AT + DATE_LEN {
        return None;
    }
    if !item.is_char_boundary(d + DATE_AT) || !item.is_char_boundary(d + DATE_AT + DATE_LEN) {
        return None;
    }
    let dated = part(item, d + DATE_AT, n);
    let from = dated.as_bytes();
    let len = from.len();
    proof {
        encode_utf8_valid_utf8(dated@);
        assert(is_char_boundary(from@, DATE_LEN as int)) by {
            lemma_boundary_in_suffix(bytes@, d + DATE_AT, d + DATE_AT + DATE_LEN);
        }
    }
    let h = match find(from, ADDRESS_ATTRIBUTE.as_bytes()) {
        None => { return None; },
        Some(h) => h,
    };
    if len - h < ADDRESS_AT {
        return None;
    }
    if !dated.is_char_boundary(h + ADDRESS_AT) {
        return None;
    }
    let addressed = &from[h + ADDRESS_AT..len];
    let end: [u8; 1] = [VALUE_END];
    assert(end@ =~= seq![VALUE_END]);
    let q = match find(addressed, end.as_slice()) {
        None => { return None; },
        Some(q) => q,
    };
    proof {
        lemma_boundaries_at_ascii(from@, h + ADDRESS_AT + q);
    }
    let url = owned(part(dated, h + ADDRESS_AT, h + ADDRESS_AT + q));
    let date = owned(part(dated, 0, DATE_LEN));
    assert(encode_utf8(url@) =~= addressed@.take(q as int));
    Some(TwirUrl { url, date })
}

/// Reads the issues that the archive page lists, in the order of the page.
pub fn get_new_twir_urls(page: &str) -> (r: Result<Option<Vec<TwirUrl>>, MalformedIndex>)
    ensures
        match r {
            Ok(Some(list)) => index_of(page.spec_bytes()) == Ok::<
                Option<Seq<Issue>>,
                MalformedIndex,
            >(Some(issues(list@))),
            Ok(None) => index_of(page.spec_bytes()) == Ok::<Option<Seq<Issue>>, MalformedIndex>(
                None,
            ),
            Err(e) => index_of(page.spec_bytes()) == Err::<Option<Seq<Issue>>, MalformedIndex>(e),
        },
{
    let bytes = page.as_bytes();
    let n = bytes.len();
    if n == 0 {
        return Ok(None);
    }
    proof {
        encode_utf8_valid_utf8(page@);
        encode_utf8_valid_utf8(ARCHIVE_HEADING@);
        encode_utf8_valid_utf8(LIST_END@);
        lemma_index_marks();
    }
    let a = match find(bytes, ARCHIVE_HEADING.as_bytes()) {
        None => { return Err(MalformedIndex::NoList); },
        Some(a) => a,
    };
    let from = &bytes[a..n];
    let b = match find(from, LIST_END.as_bytes()) {
        None => { return Err(MalformedIndex::NoEnd); },
        Some(b) => b,
    };
    proof {
        lemma_match_boundaries(bytes@, ARCHIVE_HEADING.spec_bytes(), a as int);
        assert(bytes@.subrange(a + b, a + b + LIST_END.spec_bytes().len()) =~= from@.subrange(
            b as int,
            b + LIST_END.spec_bytes().len(),
        ));
        lemma_match_boundaries(bytes@, LIST_END.spec_bytes(), a + b);
    }
    let list = part(page, a, a + b);
    let all = split(list, ENTRY);
    let ghost items = parts_of(list.spec_bytes(), ENTRY.spec_bytes()).drop_first();
    let mut out: Vec<TwirUrl> = Vec::new();
    let mut k: usize = 1;
    assert(issues(out@) =~= Seq::<Issue>::empty());
    assert(texts(all@).len() >= 1) by {
    }
    while k < all.len()
        invariant
            1 <= k <= all.len(),
            texts(all@).drop_first() == items,
            a + b <= page.spec_bytes().len(),
            list.spec_bytes() == page.spec_bytes().subrange(a as int, a + b),
            items == parts_of(list.spec_bytes(), ENTRY.spec_bytes()).drop_first(),
            first_match(page.spec_bytes(), ARCHIVE_HEADING.spec_bytes()) == Some(a as int),
            first_match(page.spec_bytes().skip(a as int), LIST_END.spec_bytes()) == Some(
                b as int,
            ),
            page.spec_bytes().len() > 0,
            listed(items.take(k - 1)) == Ok::<Seq<Issue>, MalformedIndex>(issues(out@)),
        decreases all.len() - k,
    {
        let item = all[k].as_str();
        proof {
            assert(items.take(k as int).drop_last() =~= items.take(k - 1));
        }
        let ghost before = issues(out@);
        match parse_entry(item) {
            None => {
                proof {
                    lemma_listed_fail(items, k - 1);
                }
                return Err(MalformedIndex::Entry { number: k - 1 });
            },
            Some(issue) => {
                out.push(issue);
                assert(issues(out@) =~= before.push(entry_of(item.spec_bytes()).unwrap()));
            },
        }
        k += 1;
    }
    assert(items.take(k - 1) =~= items);
    Ok(Some(out))
}

} // verus!
