//! Semantic and keyword search: by the index where there is one, or by scanning the files.

pub mod indexed;
pub mod live;
pub mod ranking;
pub mod types;

use crate::text;
use vstd::prelude::*;

verus! {

/// How much a search may return.
#[derive(Debug, Clone, Copy, PartialEq, Eq, Structural)]
pub struct SearchLimits {
    pub max_results: u32,
    pub token_budget: u32,
}

/// What a search does next.
#[derive(Debug)]
pub enum SearchStep {
    /// Search the index.
    Index(SearchLimits),
    /// Scan the files.
    Files(SearchLimits),
    /// Return a result.
    Done(String),
}

/// The limits of a search: at most fifty results and a hundred thousand tokens.
pub open spec fn capped(max_results: u32, token_budget: u32) -> SearchLimits {
    SearchLimits {
        max_results: if max_results > 50 {
            50
        } else {
            max_results
        },
        token_budget: if token_budget > 100_000 {
            100_000
        } else {
            token_budget
        },
    }
}

/// Search the codebase using the persistent index (fast) with fallback to live scan: the
/// first step, given whether there is an index.
pub fn search(max_results: u32, token_budget: u32, index_exists: bool) -> (r: SearchStep)
    ensures
        r == (if index_exists {
            SearchStep::Index(capped(max_results, token_budget))
        } else {
            SearchStep::Files(capped(max_results, token_budget))
        }),
{
    let limits = SearchLimits {
        max_results: if max_results > 50 {
            50
        } else {
            max_results
        },
        token_budget: if token_budget > 100_000 {
            100_000
        } else {
            token_budget
        },
    };
    if index_exists {
        SearchStep::Index(limits)
    } else {
        SearchStep::Files(limits)
    }
}

/// Whether an answer of the index says that nothing was found.
pub open spec fn finds_nothing(answer: Seq<char>) -> bool {
    text::has(answer, "No results found"@)
}

/// The step after the index was searched: its result is returned, unless the search failed
/// or the result says that nothing was found.
pub fn after_index(result: Option<String>, limits: SearchLimits) -> (r: SearchStep)
    ensures
        match result {
            Some(t) => if finds_nothing(t@) {
                r == SearchStep::Files(limits)
            } else {
                r == SearchStep::Done(t)
            },
            None => r == SearchStep::Files(limits),
        },
{
    match result {
        Some(t) => {
            if text::str_contains(t.as_str(), "No results found") {
                SearchStep::Files(limits)
            } else {
                SearchStep::Done(t)
            }
        },
        None => SearchStep::Files(limits),
    }
}

/// How much is said of each symbol that was found.
#[derive(Debug, Clone, Copy, PartialEq, Eq, Structural)]
pub enum Detail {
    /// File, lines and name only.
    Pointers,
    /// Signatures as well.
    Signatures,
    /// Signatures and code.
    Code,
}

/// The detail level of a name; pointers unless another is named.
pub open spec fn spec_detail(name: Seq<char>) -> Detail {
    if name == "signatures"@ {
        Detail::Signatures
    } else if name == "code"@ {
        Detail::Code
    } else {
        Detail::Pointers
    }
}

/// The detail level of a name.
pub fn detail_of(name: &str) -> (r: Detail)
    ensures
        r == spec_detail(name@),
{
    if text::same(name, "signatures") {
        Detail::Signatures
    } else if text::same(name, "code") {
        Detail::Code
    } else {
        Detail::Pointers
    }
}

/// A search never shows more than fifty results nor spends more than a hundred thousand tokens,
/// and gets what it asks for below that.
pub proof fn law_searches_are_limited(max_results: u32, token_budget: u32)
    ensures
        capped(max_results, token_budget).max_results <= 50,
        capped(max_results, token_budget).token_budget <= 100_000,
        max_results <= 50 ==> capped(max_results, token_budget).max_results == max_results,
        token_budget <= 100_000 ==> capped(max_results, token_budget).token_budget == token_budget,
        max_results >= 50 ==> capped(max_results, token_budget).max_results == 50,
        token_budget >= 100_000 ==> capped(max_results, token_budget).token_budget == 100_000,
{
}

/// Which detail each name asks for; any other name asks for pointers.
pub proof fn law_details_are_named(name: Seq<char>)
    ensures
        spec_detail("signatures"@) == Detail::Signatures,
        spec_detail("code"@) == Detail::Code,
        name != "signatures"@ && name != "code"@ ==> spec_detail(name) == Detail::Pointers,
{
    reveal_strlit("signatures");
    reveal_strlit("code");
    assert("signatures"@.len() == 10 && "code"@.len() == 4);
}

/// An answer of the index says that nothing was found exactly where these words stand somewhere in
/// it.
pub proof fn law_answers_that_find_nothing(a: Seq<char>, b: Seq<char>, answer: Seq<char>)
    ensures
        finds_nothing(a + "No results found"@ + b),
        finds_nothing(answer) ==> exists|front: Seq<char>, back: Seq<char>|
            answer == #[trigger] (front + "No results found"@ + back),
{
    let s = a + "No results found"@ + b;
    text::law_has_is_a_part(s, "No results found"@);
    text::law_has_is_a_part(answer, "No results found"@);
}

} // verus!
