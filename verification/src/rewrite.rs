//! Replacement of every occurrence of a pattern, and of a list of patterns in turn.
use crate::search::{find, first_match, lemma_first_match, occurs, occurs_at};
use crate::text::{lemma_boundaries_at_ends, lemma_match_boundaries, owned, part, push_text};
use vstd::prelude::*;
use vstd::string::*;
use vstd::utf8::{encode_utf8, encode_utf8_valid_utf8};

verus! {

/// `s` with every occurrence of `pat` replaced by `with`, the occurrences
/// taken from the left and never overlapping. An empty pattern replaces
/// nothing.
pub open spec fn replaced(s: Seq<u8>, pat: Seq<u8>, with: Seq<u8>) -> Seq<u8>
    decreases s.len(),
{
    if pat.len() == 0 {
        s
    } else {
        match first_match(s, pat) {
            None => s,
            Some(i) => {
                proof {
                    lemma_first_match(s, pat);
                }
                s.take(i) + with + replaced(s.skip(i + pat.len()), pat, with)
            },
        }
    }
}

/// A pattern and what stands in its place.
pub type Rule = (Seq<u8>, Seq<u8>);

/// `s` after each rule of `rules` in turn has replaced every occurrence of
/// its pattern in what the rules before it left.
pub open spec fn rewritten(s: Seq<u8>, rules: Seq<Rule>) -> Seq<u8>
    decreases rules.len(),
{
    if rules.len() == 0 {
        s
    } else {
        rewritten(replaced(s, rules[0].0, rules[0].1), rules.drop_first())
    }
}

/// The rules that a table of string pairs stands for.
pub open spec fn rules_of(table: Seq<(&'static str, &'static str)>) -> Seq<Rule> {
    Seq::new(table.len(), |i: int| (table[i].0.spec_bytes(), table[i].1.spec_bytes()))
}

/// Where the replacement is no longer than the pattern the text does not
/// grow, and where it is shorter every text that holds the pattern shrinks.
pub proof fn lemma_replaced_len(s: Seq<u8>, pat: Seq<u8>, with: Seq<u8>)
    requires
        with.len() <= pat.len(),
    ensures
        replaced(s, pat, with).len() <= s.len(),
        with.len() < pat.len() && occurs(s, pat) ==> replaced(s, pat, with).len() < s.len(),
    decreases s.len(),
{
    lemma_first_match(s, pat);
    if pat.len() > 0 {
        match first_match(s, pat) {
            None => {},
            Some(i) => {
                lemma_replaced_len(s.skip(i + pat.len()), pat, with);
            },
        }
    }
}

/// When a byte is replaced by a text that does not hold it, it is gone.
pub proof fn lemma_replaced_without(s: Seq<u8>, byte: u8, with: Seq<u8>)
    requires
        forall|k: int| 0 <= k < with.len() ==> with[k] != byte,
    ensures
        forall|k: int|
            0 <= k < replaced(s, seq![byte], with).len() ==> replaced(s, seq![byte], with)[k]
                != byte,
    decreases s.len(),
{
    let pat = seq![byte];
    lemma_first_match(s, pat);
    match first_match(s, pat) {
        None => {
            assert forall|k: int| 0 <= k < s.len() implies s[k] != byte by {
                if s[k] == byte {
                    assert(s.subrange(k, k + 1) =~= pat);
                    assert(occurs_at(s, pat, k));
                }
            }
        },
        Some(i) => {
            let tail = replaced(s.skip(i + 1), pat, with);
            let whole = replaced(s, pat, with);
            lemma_replaced_without(s.skip(i + 1), byte, with);
            assert(whole == s.take(i) + with + tail);
            assert forall|k: int| 0 <= k < whole.len() implies whole[k] != byte by {
                if k < i && s[k] == byte {
                    assert(s.subrange(k, k + 1) =~= pat);
                    assert(occurs_at(s, pat, k));
                }
            }
        },
    }
}

/// Replaces every occurrence of `pat` in `s` by `with`. An empty `pat`
/// replaces nothing.
pub fn replace_all(s: &str, pat: &str, with: &str) -> (r: String)
    ensures
        encode_utf8(r@) == replaced(s.spec_bytes(), pat.spec_bytes(), with.spec_bytes()),
{
    let m = pat.as_bytes().len();
    if m == 0 {
        return owned(s);
    }
    let mut out = String::new();
    let mut rest: &str = s;
    loop
        invariant
            m == pat.spec_bytes().len(),
            m > 0,
            encode_utf8(out@) + replaced(rest.spec_bytes(), pat.spec_bytes(), with.spec_bytes())
                == replaced(s.spec_bytes(), pat.spec_bytes(), with.spec_bytes()),
        decreases rest.spec_bytes().len(),
    {
        let n = rest.as_bytes().len();
        let ghost text = rest.spec_bytes();
        proof {
            encode_utf8_valid_utf8(rest@);
            encode_utf8_valid_utf8(pat@);
            lemma_boundaries_at_ends(text);
        }
        match find(rest.as_bytes(), pat.as_bytes()) {
            None => {
                push_text(&mut out, rest);
                return out;
            },
            Some(i) => {
                proof {
                    lemma_match_boundaries(text, pat.spec_bytes(), i as int);
                }
                push_text(&mut out, part(rest, 0, i));
                push_text(&mut out, with);
                rest = part(rest, i + m, n);
            },
        }
    }
}

/// Applies the rules of `table` to `s`, each in turn to the whole text.
pub fn rewrite(s: &str, table: &[(&'static str, &'static str)]) -> (r: String)
    ensures
        encode_utf8(r@) == rewritten(s.spec_bytes(), rules_of(table@)),
{
    let mut cur = owned(s);
    let ghost rules = rules_of(table@);
    let mut k: usize = 0;
    assert(rules.skip(0) =~= rules);
    while k < table.len()
        invariant
            k <= table.len(),
            rules == rules_of(table@),
            rewritten(encode_utf8(cur@), rules.skip(k as int)) == rewritten(s.spec_bytes(), rules),
        decreases table.len() - k,
    {
        let next = replace_all(cur.as_str(), table[k].0, table[k].1);
        proof {
            let tail = rules.skip(k as int);
            assert(tail.drop_first() == rules.skip(k + 1));
        }
        cur = next;
        k += 1;
    }
    cur
}

} // verus!
