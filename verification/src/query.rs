//! Query engine: gate the input on the configured prefix, fuzzy-match the
//! remaining term against every window title, and return the matches in
//! directory order with their encoded ids.

use vstd::prelude::*;
use vstd::string::StrSliceExecFns;
use vstd::string::StringExecFns;
use crate::codec::{address_to_u64, address_value};
use crate::directory::{State, WindowRecord};

verus! {

/// The score the fuzzy matcher assigns a title for a term: `None` when the
/// title does not match, a score when it does.
pub uninterp spec fn fuzzy_score(title: Seq<char>, term: Seq<char>) -> Option<i64>;

/// Relies on `fuzzy_matcher`'s `SkimMatcherV2` in its smart-case
/// configuration: the score is a pure function of the title and the term,
/// and an empty term always scores `Some(0)`.
#[verifier::external_body]
fn fuzzy_match_score(title: &str, term: &str) -> (r: Option<i64>)
    ensures
        r == fuzzy_score(title@, term@),
        term@.len() == 0 ==> r == Some(0i64),
{
    let matcher = fuzzy_matcher::skim::SkimMatcherV2::default().smart_case();
    fuzzy_matcher::FuzzyMatcher::fuzzy_match(&matcher, title, term)
}

/// One query result handed back to the host: the matched window's title, a
/// human-readable description derived from its address, and the encoded id
/// that selection hands back.
pub struct Match {
    pub title: String,
    pub description: String,
    pub id: u64,
}

/// The prefix gate: the input must start with the configured prefix.
pub open spec fn gate_passes(input: Seq<char>, prefix: Seq<char>) -> bool {
    input.len() >= prefix.len() && input.subrange(0, prefix.len() as int) == prefix
}

/// The search term: the input with the configured prefix stripped once.
pub open spec fn search_term(input: Seq<char>, prefix: Seq<char>) -> Seq<char> {
    input.subrange(prefix.len() as int, input.len() as int)
}

/// The records of the directory that the fuzzy matcher accepts for a term,
/// in directory order.
pub open spec fn matched_records(entries: Seq<WindowRecord>, term: Seq<char>) -> Seq<WindowRecord>
    decreases entries.len(),
{
    if entries.len() == 0 {
        Seq::empty()
    } else {
        let rest = matched_records(entries.drop_last(), term);
        if fuzzy_score(entries.last().title@, term) is Some {
            rest.push(entries.last())
        } else {
            rest
        }
    }
}

/// The description shown for a window: `Window ` followed by its address.
pub open spec fn description_of(address: Seq<char>) -> Seq<char> {
    "Window "@ + address
}

/// Matching never invents, reorders or duplicates records: the matches of
/// a directory split into two halves are the matches of the first half
/// followed by the matches of the second. In particular every match from
/// an earlier part of the directory precedes every match from a later
/// part: snapshot order is preserved, whatever the scores.
pub proof fn lemma_matched_order_preserved(
    entries1: Seq<WindowRecord>,
    entries2: Seq<WindowRecord>,
    term: Seq<char>,
)
    ensures
        matched_records(entries1 + entries2, term) == matched_records(entries1, term)
            + matched_records(entries2, term),
    decreases entries2.len(),
{
    if entries2.len() == 0 {
        assert(entries1 + entries2 =~= entries1);
        assert(matched_records(entries1, term) + matched_records(entries2, term)
            =~= matched_records(entries1, term));
    } else {
        let whole = entries1 + entries2;
        assert(whole.drop_last() =~= entries1 + entries2.drop_last());
        assert(whole.last() == entries2.last());
        lemma_matched_order_preserved(entries1, entries2.drop_last(), term);
        if fuzzy_score(entries2.last().title@, term) is Some {
            assert(matched_records(whole, term) =~= matched_records(entries1, term)
                + matched_records(entries2, term));
        } else {
            assert(matched_records(whole, term) =~= matched_records(entries1, term)
                + matched_records(entries2, term));
        }
    }
}

/// An empty directory yields no matches, for every term: a query against a
/// directory whose snapshot failed at initialization returns nothing.
pub proof fn lemma_empty_directory_safety(term: Seq<char>)
    ensures
        matched_records(Seq::<WindowRecord>::empty(), term) == Seq::<WindowRecord>::empty(),
{
}

/// Whether a character sequence starts with another.
fn str_starts_with(s: &str, p: &str) -> (r: bool)
    ensures
        r == gate_passes(s@, p@),
{
    let sl: usize = s.unicode_len();
    let pl: usize = p.unicode_len();
    if sl < pl {
        return false;
    }
    let mut i: usize = 0;
    while i < pl
        invariant
            0 <= i <= pl,
            pl == p@.len(),
            sl == s@.len(),
            pl <= sl,
            forall|k: int| 0 <= k < i ==> s@[k] == p@[k],
        decreases pl - i,
    {
        if s.get_char(i) != p.get_char(i) {
            assert(s@[i as int] != p@[i as int]);
            assert(!gate_passes(s@, p@)) by {
                if gate_passes(s@, p@) {
                    assert(s@.subrange(0, p@.len() as int)[i as int] == p@[i as int]);
                }
            }
            return false;
        }
        i = i + 1;
    }
    assert(s@.subrange(0, p@.len() as int) =~= p@);
    true
}

/// Answer one query: if the input does not start with the configured
/// prefix, the result is empty; otherwise the result lists, in directory
/// order, one entry per record whose title the fuzzy matcher accepts for
/// the stripped term, carrying the record's title, its description and its
/// encoded address.
pub fn get_matches(input: &str, state: &State) -> (r: Vec<Match>)
    requires
        state.wf(),
    ensures
        !gate_passes(input@, state.config.prefix@) ==> r@.len() == 0,
        gate_passes(input@, state.config.prefix@) ==> ({
            let m = matched_records(
                state.entries@,
                search_term(input@, state.config.prefix@),
            );
            &&& r@.len() == m.len()
            &&& forall|i: int| 0 <= i < m.len() ==> {
                &&& (#[trigger] r@[i]).title@ == m[i].title@
                &&& r@[i].description@ == description_of(m[i].address@)
                &&& r@[i].id as nat == address_value(m[i].address@)
            }
        }),
{
    if !str_starts_with(input, state.config.prefix.as_str()) {
        return Vec::new();
    }
    let ilen: usize = input.unicode_len();
    let plen: usize = state.config.prefix.as_str().unicode_len();
    let term = input.substring_char(plen, ilen);
    let ghost term_spec = search_term(input@, state.config.prefix@);
    let n: usize = state.entries.len();
    let mut out: Vec<Match> = Vec::new();
    let mut idx: usize = 0;
    proof {
        assert(state.entries@.take(0) =~= Seq::<WindowRecord>::empty());
    }
    while idx < n
        invariant
            0 <= idx <= n,
            n == state.entries@.len(),
            state.wf(),
            term@ == term_spec,
            ({
                let m = matched_records(state.entries@.take(idx as int), term_spec);
                &&& out@.len() == m.len()
                &&& forall|i: int| 0 <= i < m.len() ==> {
                    &&& (#[trigger] out@[i]).title@ == m[i].title@
                    &&& out@[i].description@ == description_of(m[i].address@)
                    &&& out@[i].id as nat == address_value(m[i].address@)
                }
            }),
        decreases n - idx,
    {
        let rec = &state.entries[idx];
        let score = fuzzy_match_score(rec.title.as_str(), term);
        proof {
            let taken = state.entries@.take(idx as int + 1);
            assert(taken.drop_last() =~= state.entries@.take(idx as int));
            assert(taken.last() == state.entries@[idx as int]);
        }
        match score {
            Some(_) => {
                let id: u64 = match address_to_u64(rec.address.as_str()) {
                    Ok(v) => v,
                    Err(_) => {
                        proof {
                            assert(state.entries@[idx as int].wf());
                            assert(false);
                        }
                        0
                    },
                };
                let description = "Window ".to_owned().concat(rec.address.as_str());
                out.push(Match { title: rec.title.clone(), description, id });
            },
            None => {},
        }
        idx = idx + 1;
    }
    proof {
        assert(state.entries@.take(n as int) =~= state.entries@);
    }
    out
}

} // verus!
