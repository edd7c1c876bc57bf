//! What a search collects, and how it is shown.

use crate::context::file_summarizer;
use crate::context::scoring;
use crate::context::token_estimator;
use crate::numerals;
use crate::text;
use vstd::hash_map::StringHashMap;
use vstd::prelude::*;

verus! {

/// A line of a file that matched.
#[derive(Debug)]
pub struct ContextLine {
    pub line_num: usize,
    pub content: String,
}

/// A file that matched.
#[derive(Debug)]
pub struct SearchMatch {
    pub relative_path: String,
    pub context_lines: Vec<ContextLine>,
    pub symbol_matches: Vec<String>,
}

/// The value of a `ContextLine`.
pub struct LineModel {
    pub line_num: nat,
    pub content: Seq<char>,
}

/// The value of a `SearchMatch`.
pub struct MatchModel {
    pub relative_path: Seq<char>,
    pub context_lines: Seq<LineModel>,
    pub symbol_matches: Seq<Seq<char>>,
}

impl View for ContextLine {
    type V = LineModel;

    open spec fn view(&self) -> LineModel {
        LineModel { line_num: self.line_num as nat, content: self.content@ }
    }
}

/// The values of a list of lines.
pub open spec fn lines_of(v: Seq<ContextLine>) -> Seq<LineModel> {
    v.map_values(|c: ContextLine| c@)
}

impl View for SearchMatch {
    type V = MatchModel;

    open spec fn view(&self) -> MatchModel {
        MatchModel {
            relative_path: self.relative_path@,
            context_lines: lines_of(self.context_lines@),
            symbol_matches: text::texts(self.symbol_matches@),
        }
    }
}

/// The values of a list of matches.
pub open spec fn matches_of(v: Seq<SearchMatch>) -> Seq<MatchModel> {
    v.map_values(|m: SearchMatch| m@)
}

// ── Collecting matches ───────────────────────────────────────────────

/// The files that matched so far, in the order in which they were found.
pub struct Matches {
    list: Vec<SearchMatch>,
    index: StringHashMap<usize>,
}

impl View for Matches {
    type V = Seq<MatchModel>;

    closed spec fn view(&self) -> Seq<MatchModel> {
        matches_of(self.list@)
    }
}

/// The place of the match for a path.
pub open spec fn place_of(list: Seq<MatchModel>, path: Seq<char>) -> Option<int>
    decreases list.len(),
{
    if list.len() == 0 {
        None
    } else if list.last().relative_path == path {
        Some(list.len() - 1)
    } else {
        place_of(list.drop_last(), path)
    }
}

/// `place_of` finds a match for the path, if there is one.
pub proof fn lemma_place_of(list: Seq<MatchModel>, path: Seq<char>)
    ensures
        match place_of(list, path) {
            Some(i) => 0 <= i < list.len() && list[i].relative_path == path,
            None => forall|i: int|
                0 <= i < list.len() ==> (#[trigger] list[i]).relative_path != path,
        },
    decreases list.len(),
{
    if list.len() > 0 && list.last().relative_path != path {
        lemma_place_of(list.drop_last(), path);
        assert forall|i: int| place_of(list, path) is None && 0 <= i < list.len() implies (
        #[trigger] list[i]).relative_path != path by {
            if i < list.len() - 1 {
                assert(list.drop_last()[i] == list[i]);
            }
        }
    }
}

/// A list with one more element, unless it has `most` of them or there is none to add.
pub open spec fn push_up_to<T>(list: Seq<T>, item: Option<T>, most: nat) -> Seq<T> {
    match item {
        Some(x) => if list.len() < most {
            list.push(x)
        } else {
            list
        },
        None => list,
    }
}

/// The matches after one more finding. A file keeps at most three symbols and, once it is
/// known, at most one line; no file is added when there are too many.
pub open spec fn spec_upsert(
    list: Seq<MatchModel>,
    path: Seq<char>,
    line: Option<LineModel>,
    symbol: Option<Seq<char>>,
) -> Seq<MatchModel> {
    match place_of(list, path) {
        Some(i) => list.update(
            i,
            MatchModel {
                relative_path: path,
                context_lines: push_up_to(list[i].context_lines, line, 1),
                symbol_matches: push_up_to(list[i].symbol_matches, symbol, 3),
            },
        ),
        None => if list.len() >= scoring::MAX_SEARCH_MATCHES {
            list
        } else {
            list.push(
                MatchModel {
                    relative_path: path,
                    context_lines: push_up_to(Seq::empty(), line, 1),
                    symbol_matches: push_up_to(Seq::empty(), symbol, 3),
                },
            )
        },
    }
}

/// The place whose score a finding adds to: that of its file, unless there is no room for it.
pub open spec fn spec_slot(list: Seq<MatchModel>, path: Seq<char>) -> Option<int> {
    match place_of(list, path) {
        Some(i) => Some(i),
        None => if list.len() >= scoring::MAX_SEARCH_MATCHES {
            None
        } else {
            Some(list.len() as int)
        },
    }
}

/// The value of an optional line.
pub open spec fn line_of(line: Option<ContextLine>) -> Option<LineModel> {
    match line {
        Some(c) => Some(c@),
        None => None,
    }
}

/// The text of an optional string.
pub open spec fn text_of(t: Option<String>) -> Option<Seq<char>> {
    match t {
        Some(x) => Some(x@),
        None => None,
    }
}

impl Matches {
    /// Whether every match has a path of its own and is found by the index.
    pub closed spec fn wf(self) -> bool {
        &&& self.list@.len() <= scoring::MAX_SEARCH_MATCHES
        &&& forall|i: int|
            0 <= i < self.list@.len() ==> self.index@.contains_key(
                (#[trigger] self.list@[i]).relative_path@,
            ) && self.index@[self.list@[i].relative_path@] == i
        &&& forall|t: Seq<char>| #[trigger]
            self.index@.contains_key(t) ==> self.index@[t] < self.list@.len()
                && self.list@[self.index@[t] as int].relative_path@ == t
    }

    proof fn lemma_find(&self, path: Seq<char>)
        requires
            self.wf(),
        ensures
            match place_of(self@, path) {
                Some(i) => self.index@.contains_key(path) && self.index@[path] == i,
                None => !self.index@.contains_key(path),
            },
    {
        lemma_place_of(self@, path);
        match place_of(self@, path) {
            Some(i) => {
                assert(self@[i] == self.list@[i]@);
            },
            None => {
                if self.index@.contains_key(path) {
                    let i = self.index@[path] as int;
                    assert(self@[i] == self.list@[i]@);
                }
            },
        }
    }

    /// No matches.
    pub fn new() -> (r: Self)
        ensures
            r.wf(),
            r@ == Seq::<MatchModel>::empty(),
    {
        let r = Matches { list: Vec::new(), index: StringHashMap::new() };
        assert(r@ =~= Seq::empty());
        r
    }

    /// Insert or update a match entry. Returns the place whose score the finding adds to.
    pub fn upsert_match(
        &mut self,
        path: &str,
        context_line: Option<ContextLine>,
        symbol_match: Option<String>,
    ) -> (r: Option<usize>)
        requires
            old(self).wf(),
        ensures
            final(self).wf(),
            final(self)@ == spec_upsert(
                old(self)@,
                path@,
                line_of(context_line),
                text_of(symbol_match),
            ),
            match r {
                Some(i) => spec_slot(old(self)@, path@) == Some(i as int) && i < final(self)@.len(),
                None => spec_slot(old(self)@, path@) is None,
            },
    {
        let ghost before = *self;
        proof {
            self.lemma_find(path@);
            lemma_place_of(self@, path@);
        }
        let known: Option<usize> = match self.index.get(path) {
            Some(i) => Some(*i),
            None => None,
        };
        match known {
            Some(i) => {
                let mut entry = SearchMatch {
                    relative_path: text::owned(path),
                    context_lines: Vec::new(),
                    symbol_matches: Vec::new(),
                };
                std::mem::swap(&mut self.list[i], &mut entry);
                let entry = grown(entry, context_line, symbol_match);
                self.list.set(i, entry);
                proof {
                    assert(self.list@ =~= before.list@.update(i as int, entry));
                    assert(before@[i as int] == before.list@[i as int]@);
                    assert(self@ =~= spec_upsert(
                        before@,
                        path@,
                        line_of(context_line),
                        text_of(symbol_match),
                    ));
                    assert forall|k: int| 0 <= k < self.list@.len() implies (
                    #[trigger] self.list@[k]).relative_path@
                        == before.list@[k].relative_path@ by {}
                }
                Some(i)
            },
            None => {
                let n: usize = self.list.len();
                if n >= scoring::MAX_SEARCH_MATCHES {
                    return None;
                }
                let empty = SearchMatch {
                    relative_path: text::owned(path),
                    context_lines: Vec::new(),
                    symbol_matches: Vec::new(),
                };
                assert(lines_of(empty.context_lines@) =~= Seq::empty());
                assert(text::texts(empty.symbol_matches@) =~= Seq::empty());
                let entry = grown(empty, context_line, symbol_match);
                self.index.insert(text::owned(path), n);
                self.list.push(entry);
                proof {
                    assert(self@ =~= before@.push(entry@));
                    assert forall|i: int| 0 <= i < self.list@.len() implies self.index@.contains_key(
                        (#[trigger] self.list@[i]).relative_path@,
                    ) && self.index@[self.list@[i].relative_path@] == i by {
                        if i < n {
                            assert(self.list@[i] == before.list@[i]);
                        }
                    }
                    assert forall|t: Seq<char>| #[trigger] self.index@.contains_key(t) implies
                        self.index@[t] < self.list@.len()
                        && self.list@[self.index@[t] as int].relative_path@ == t by {
                        if t != path@ {
                            assert(before.index@.contains_key(t));
                            assert(self.list@[before.index@[t] as int]
                                == before.list@[before.index@[t] as int]);
                        }
                    }
                }
                Some(n)
            },
        }
    }

    /// How many files matched.
    pub fn len(&self) -> (r: usize)
        ensures
            r == self@.len(),
    {
        self.list.len()
    }

    /// The match at a place.
    pub fn get(&self, i: usize) -> (r: &SearchMatch)
        requires
            i < self@.len(),
        ensures
            r@ == self@[i as int],
    {
        assert(self@[i as int] == self.list@[i as int]@);
        &self.list[i]
    }

    /// The matches as a list.
    pub fn into_list(self) -> (r: Vec<SearchMatch>)
        ensures
            matches_of(r@) == self@,
    {
        self.list
    }
}

fn grown(m: SearchMatch, line: Option<ContextLine>, symbol: Option<String>) -> (r: SearchMatch)
    ensures
        r@ == (MatchModel {
            relative_path: m@.relative_path,
            context_lines: push_up_to(m@.context_lines, line_of(line), 1),
            symbol_matches: push_up_to(m@.symbol_matches, text_of(symbol), 3),
        }),
{
    let SearchMatch { relative_path, mut context_lines, mut symbol_matches } = m;
    let ghost lines = lines_of(context_lines@);
    let ghost symbols = text::texts(symbol_matches@);
    match symbol {
        Some(s) => {
            if symbol_matches.len() < 3 {
                symbol_matches.push(s);
                assert(text::texts(symbol_matches@) =~= symbols.push(s@));
            }
        },
        None => {},
    }
    match line {
        Some(c) => {
            if context_lines.len() < 1 {
                context_lines.push(c);
                assert(lines_of(context_lines@) =~= lines.push(c@));
            }
        },
        None => {},
    }
    SearchMatch { relative_path, context_lines, symbol_matches }
}

// ── Showing matches ──────────────────────────────────────────────────

/// The symbols of a match, one line each.
pub open spec fn symbol_entries(path: Seq<char>, symbols: Seq<Seq<char>>) -> Seq<char>
    decreases symbols.len(),
{
    if symbols.len() == 0 {
        Seq::empty()
    } else {
        symbol_entries(path, symbols.drop_last()) + path + ": "@ + symbols.last() + "\n"@
    }
}

/// The lines of a match, one line each.
pub open spec fn line_entries(path: Seq<char>, lines: Seq<LineModel>) -> Seq<char>
    decreases lines.len(),
{
    if lines.len() == 0 {
        Seq::empty()
    } else {
        line_entries(path, lines.drop_last()) + path + " L"@ + numerals::spec_decimal(
            lines.last().line_num,
        ) + ": "@ + text::spec_trim_start(lines.last().content) + "\n"@
    }
}

/// What is shown of a match: its symbols, or else its lines, or else its path.
pub open spec fn entry(m: MatchModel) -> Seq<char> {
    if m.symbol_matches.len() > 0 {
        symbol_entries(m.relative_path, m.symbol_matches)
    } else if m.context_lines.len() > 0 {
        line_entries(m.relative_path, m.context_lines)
    } else {
        m.relative_path + "\n"@
    }
}

fn write_entry(m: &SearchMatch) -> (r: String)
    ensures
        r@ == entry(m@),
{
    let path = m.relative_path.as_str();
    if m.symbol_matches.len() > 0 {
        let ghost all = text::texts(m.symbol_matches@);
        let mut out = String::new();
        assert(all.take(0) =~= Seq::empty());
        assert(out@ =~= Seq::empty());
        for i in 0..m.symbol_matches.len()
            invariant
                path@ == m.relative_path@,
                all == text::texts(m.symbol_matches@),
                out@ == symbol_entries(path@, all.take(i as int)),
        {
            proof {
                assert(all.take(i + 1).drop_last() =~= all.take(i as int));
                assert(all.take(i + 1).last() == m.symbol_matches@[i as int]@);
            }
            out = out.concat(path).concat(": ").concat(m.symbol_matches[i].as_str()).concat(
                "\n",
            );
        }
        assert(all.take(all.len() as int) =~= all);
        out
    } else if m.context_lines.len() > 0 {
        let ghost all = lines_of(m.context_lines@);
        let mut out = String::new();
        assert(all.take(0) =~= Seq::empty());
        assert(out@ =~= Seq::empty());
        for i in 0..m.context_lines.len()
            invariant
                path@ == m.relative_path@,
                all == lines_of(m.context_lines@),
                out@ == line_entries(path@, all.take(i as int)),
        {
            let line = &m.context_lines[i];
            proof {
                assert(all.take(i + 1).drop_last() =~= all.take(i as int));
                assert(all.take(i + 1).last() == line@);
            }
            let number = numerals::decimal_usize(line.line_num);
            let chars = text::chars_of(line.content.as_str());
            let content = text::string_of(text::trim_start(chars.as_slice()));
            out = out.concat(path).concat(" L").concat(number.as_str()).concat(": ").concat(
                content.as_str(),
            ).concat("\n");
        }
        assert(all.take(all.len() as int) =~= all);
        out
    } else {
        text::owned(path).concat("\n")
    }
}

/// The estimated tokens of a text, in 32 bits.
pub open spec fn tokens32(s: Seq<char>) -> int {
    token_estimator::spec_tokens(s) as int % 0x1_0000_0000
}

fn tokens_of(s: &str) -> (r: u32)
    ensures
        r == tokens32(s@),
{
    let n: u64 = token_estimator::estimate_tokens(s) as u64;
    (n % 0x1_0000_0000) as u32
}

/// Entries added to a text as long as the budget lasts.
pub open spec fn add_entries(
    out: Seq<char>,
    list: Seq<MatchModel>,
    used: int,
    budget: int,
) -> Seq<char>
    decreases list.len(),
{
    if list.len() == 0 {
        out
    } else {
        let e = entry(list[0]);
        if used + tokens32(e) > budget {
            out + "... [TRUNCATED]\n"@
        } else {
            add_entries(out + e, list.drop_first(), used + tokens32(e), budget)
        }
    }
}

/// What a search says first: a warning where meaning could not be searched.
pub open spec fn notice(semantic: bool) -> Seq<char> {
    if semantic {
        Seq::empty()
    } else {
        "Warning: No semantic search — keyword matching only.\n\n"@
    }
}

/// The results of a search as text.
pub open spec fn spec_format_results(
    list: Seq<MatchModel>,
    query: Seq<char>,
    token_budget: int,
    semantic: bool,
) -> Seq<char> {
    let start = notice(semantic);
    if list.len() == 0 {
        start + "No results for '"@ + query + "'\n"@
    } else {
        add_entries(start, list, tokens32(start), token_budget)
    }
}

/// The results of a search as text, within a token budget: the matches at given places, in
/// that order. `semantic` says whether embeddings were available.
pub fn format_picked(
    matches: &[SearchMatch],
    order: &[usize],
    query: &str,
    token_budget: u32,
    semantic: bool,
) -> (r: String)
    requires
        forall|i: int| 0 <= i < order@.len() ==> #[trigger] order@[i] < matches@.len(),
    ensures
        r@ == spec_format_results(
            file_summarizer::in_order(matches_of(matches@), order@),
            query@,
            token_budget as int,
            semantic,
        ),
{
    let ghost all = file_summarizer::in_order(matches_of(matches@), order@);
    let mut out = if semantic {
        let nothing = String::new();
        assert(nothing@ =~= Seq::empty());
        nothing
    } else {
        text::owned("Warning: No semantic search — keyword matching only.\n\n")
    };
    let ghost start = out@;
    assert(all.len() == order@.len());
    if order.len() == 0 {
        return out.concat("No results for '").concat(query).concat("'\n");
    }
    let mut used: u32 = tokens_of(out.as_str());
    let ghost first = used as int;
    assert(all.skip(0) =~= all);
    for i in 0..order.len()
        invariant
            all == file_summarizer::in_order(matches_of(matches@), order@),
            forall|i: int| 0 <= i < order@.len() ==> #[trigger] order@[i] < matches@.len(),
            first == tokens32(start),
            start == notice(semantic),
            order@.len() > 0,
            add_entries(start, all, first, token_budget as int) == add_entries(
                out@,
                all.skip(i as int),
                used as int,
                token_budget as int,
            ),
    {
        let place: usize = order[i];
        proof {
            assert(all.skip(i as int)[0] == matches@[place as int]@);
            assert(all.skip(i as int).drop_first() =~= all.skip(i + 1));
        }
        let e = write_entry(&matches[place]);
        let cost: u32 = tokens_of(e.as_str());
        if used as u64 + cost as u64 > token_budget as u64 {
            return out.concat("... [TRUNCATED]\n");
        }
        out = out.concat(e.as_str());
        used = used + cost;
    }
    out
}

/// The results of a search as text, within a token budget. `semantic` says whether embeddings
/// were available.
pub fn format_results(matches: &[SearchMatch], query: &str, token_budget: u32, semantic: bool) -> (r:
    String)
    ensures
        r@ == spec_format_results(matches_of(matches@), query@, token_budget as int, semantic),
{
    let mut order: Vec<usize> = Vec::new();
    for i in 0..matches.len()
        invariant
            order@.len() == i,
            forall|k: int| 0 <= k < i ==> #[trigger] order@[k] == k,
    {
        order.push(i);
    }
    assert(file_summarizer::in_order(matches_of(matches@), order@) =~= matches_of(matches@));
    format_picked(matches, order.as_slice(), query, token_budget, semantic)
}

impl SearchMatch {
    /// Shows a line of the file, unless one is shown already.
    pub fn show_line(&mut self, line: Option<ContextLine>)
        ensures
            final(self)@ == (MatchModel {
                relative_path: old(self)@.relative_path,
                context_lines: push_up_to(old(self)@.context_lines, line_of(line), 1),
                symbol_matches: old(self)@.symbol_matches,
            }),
    {
        let ghost lines = lines_of(self.context_lines@);
        match line {
            Some(c) => {
                if self.context_lines.len() == 0 {
                    let ghost model = c@;
                    self.context_lines.push(c);
                    assert(lines_of(self.context_lines@) =~= lines.push(model));
                }
            },
            None => {},
        }
    }
}

// ── Laws ─────────────────────────────────────────────────────────────

/// Whether no two matches are for the same file.
pub open spec fn one_per_file(list: Seq<MatchModel>) -> bool {
    forall|i: int, j: int|
        #![trigger list[i], list[j]]
        0 <= i < j < list.len() ==> list[i].relative_path != list[j].relative_path
}

/// Whether no match keeps more than three symbols or more than one line.
pub open spec fn within_caps(list: Seq<MatchModel>) -> bool {
    forall|i: int|
        0 <= i < list.len() ==> (#[trigger] list[i]).symbol_matches.len() <= 3
            && list[i].context_lines.len() <= 1
}

/// A finding never makes a second match for a file, never lets a match grow beyond its caps,
/// never adds a file beyond the limit, and keeps the place of every match.
pub proof fn law_upsert_keeps_matches_bounded(
    list: Seq<MatchModel>,
    path: Seq<char>,
    line: Option<LineModel>,
    symbol: Option<Seq<char>>,
)
    requires
        one_per_file(list),
        within_caps(list),
        list.len() <= scoring::MAX_SEARCH_MATCHES,
    ensures
        one_per_file(spec_upsert(list, path, line, symbol)),
        within_caps(spec_upsert(list, path, line, symbol)),
        list.len() <= spec_upsert(list, path, line, symbol).len() <= scoring::MAX_SEARCH_MATCHES,
        forall|i: int|
            0 <= i < list.len() ==> (#[trigger] spec_upsert(list, path, line, symbol)[i]).relative_path
                == list[i].relative_path,
{
    lemma_place_of(list, path);
}

/// The entries of a list of matches, one behind the other.
pub open spec fn entries(list: Seq<MatchModel>) -> Seq<char>
    decreases list.len(),
{
    if list.len() == 0 {
        Seq::empty()
    } else {
        entry(list[0]) + entries(list.drop_first())
    }
}

/// Whether `r` is a text followed by the entries of the first `n` matches, with a note where
/// there are more.
pub open spec fn shows_first(start: Seq<char>, list: Seq<MatchModel>, n: int, r: Seq<char>) -> bool {
    &&& 0 <= n <= list.len()
    &&& r == start + entries(list.take(n)) + (if n < list.len() {
        "... [TRUNCATED]\n"@
    } else {
        Seq::empty()
    })
}

proof fn lemma_entries_fit(out: Seq<char>, list: Seq<MatchModel>, used: int, budget: int) -> (n: int)
    requires
        token_estimator::spec_tokens(out) <= used,
        forall|i: int|
            0 <= i < list.len() ==> token_estimator::spec_tokens(#[trigger] entry(list[i]))
                < 0x1_0000_0000,
    ensures
        shows_first(out, list, n, add_entries(out, list, used, budget)),
        n > 0 ==> token_estimator::spec_tokens(out + entries(list.take(n))) <= budget,
    decreases list.len(),
{
    let r = add_entries(out, list, used, budget);
    assert(list.take(0) =~= Seq::empty());
    if list.len() == 0 {
        assert(r =~= out + entries(list.take(0)) + Seq::<char>::empty());
        return 0;
    }
    let e = entry(list[0]);
    if used + tokens32(e) > budget {
        assert(r =~= out + entries(list.take(0)) + "... [TRUNCATED]\n"@);
        return 0;
    }
    let rest = list.drop_first();
    token_estimator::law_whole_costs_no_more_than_parts(out, e);
    assert forall|i: int| 0 <= i < rest.len() implies token_estimator::spec_tokens(
        #[trigger] entry(rest[i]),
    ) < 0x1_0000_0000 by {
        assert(rest[i] == list[i + 1]);
    }
    let k = lemma_entries_fit(out + e, rest, used + tokens32(e), budget);
    assert(list.take(k + 1).drop_first() =~= rest.take(k));
    assert(list.take(k + 1)[0] == list[0]);
    assert(out + e + entries(rest.take(k)) =~= out + entries(list.take(k + 1)));
    if k == 0 {
        assert(rest.take(0) =~= Seq::empty());
        assert(out + e + entries(rest.take(0)) =~= out + e);
    }
    k + 1
}

/// The results of a search keep to their token budget: they show the first matches, one behind
/// the other, and what they show costs no more than the budget unless nothing is shown.
pub proof fn law_results_keep_to_the_budget(
    list: Seq<MatchModel>,
    query: Seq<char>,
    token_budget: int,
    semantic: bool,
)
    requires
        list.len() > 0,
        forall|i: int|
            0 <= i < list.len() ==> token_estimator::spec_tokens(#[trigger] entry(list[i]))
                < 0x1_0000_0000,
    ensures
        exists|n: int| #[trigger]
            shows_first(
                notice(semantic),
                list,
                n,
                spec_format_results(list, query, token_budget, semantic),
            ) && (n > 0 ==> token_estimator::spec_tokens(notice(semantic) + entries(list.take(n)))
                <= token_budget),
{
    reveal_strlit("Warning: No semantic search — keyword matching only.\n\n");
    token_estimator::law_no_more_tokens_than_characters(notice(semantic));
    let n = lemma_entries_fit(notice(semantic), list, tokens32(notice(semantic)), token_budget);
    let r = spec_format_results(list, query, token_budget, semantic);
    assert(shows_first(notice(semantic), list, n, r));
}

/// What is found in a file that has no match yet starts one, as long as there are fewer than a
/// thousand; no other match is touched, and the finding counts for the new one.
pub proof fn law_new_files_get_a_match(
    list: Seq<MatchModel>,
    path: Seq<char>,
    line: Option<LineModel>,
    symbol: Option<Seq<char>>,
)
    requires
        list.len() < 1000,
        forall|i: int| 0 <= i < list.len() ==> (#[trigger] list[i]).relative_path != path,
    ensures
        ({
            let r = spec_upsert(list, path, line, symbol);
            &&& r.len() == list.len() + 1 && r.take(list.len() as int) == list
            &&& r.last().relative_path == path
            &&& r.last().symbol_matches == (match symbol {
                Some(s) => seq![s],
                None => Seq::empty(),
            })
            &&& r.last().context_lines == (match line {
                Some(l) => seq![l],
                None => Seq::empty(),
            })
            &&& spec_slot(list, path) == Some(list.len() as int)
        }),
{
    lemma_place_of(list, path);
    let r = spec_upsert(list, path, line, symbol);
    assert(r.take(list.len() as int) =~= list);
}

/// What is found in a file that has a match is added to it: a symbol where it has fewer than
/// three, a line where it has none. No other match is touched.
pub proof fn law_findings_are_added(
    list: Seq<MatchModel>,
    k: int,
    line: Option<LineModel>,
    symbol: Option<Seq<char>>,
)
    requires
        one_per_file(list),
        0 <= k < list.len(),
    ensures
        ({
            let m = list[k];
            let r = spec_upsert(list, m.relative_path, line, symbol);
            &&& r.len() == list.len() && spec_slot(list, m.relative_path) == Some(k)
            &&& r[k].relative_path == m.relative_path
            &&& symbol matches Some(s) ==> r[k].symbol_matches == (if m.symbol_matches.len() < 3 {
                m.symbol_matches.push(s)
            } else {
                m.symbol_matches
            })
            &&& symbol is None ==> r[k].symbol_matches == m.symbol_matches
            &&& line matches Some(l) ==> r[k].context_lines == (if m.context_lines.len() == 0 {
                seq![l]
            } else {
                m.context_lines
            })
            &&& line is None ==> r[k].context_lines == m.context_lines
            &&& forall|i: int| 0 <= i < list.len() && i != k ==> #[trigger] r[i] == list[i]
        }),
{
    let m = list[k];
    lemma_place_of(list, m.relative_path);
    let i = place_of(list, m.relative_path)->0;
    if i != k {
        if i < k {
            assert(list[i].relative_path != list[k].relative_path);
        } else {
            assert(list[k].relative_path != list[i].relative_path);
        }
    }
    if m.context_lines.len() == 0 {
        assert(m.context_lines =~= Seq::empty());
        match line {
            Some(l) => {
                assert(m.context_lines.push(l) =~= seq![l]);
            },
            None => {},
        }
    }
}

proof fn lemma_symbol_shown(path: Seq<char>, symbols: Seq<Seq<char>>, k: int)
    requires
        0 <= k < symbols.len(),
    ensures
        text::has(symbol_entries(path, symbols), path + ": "@ + symbols[k] + "\n"@),
    decreases symbols.len(),
{
    let all = symbol_entries(path, symbols);
    let front = symbol_entries(path, symbols.drop_last());
    let line = path + ": "@ + symbols[k] + "\n"@;
    if k == symbols.len() - 1 {
        assert(all =~= front + line + Seq::<char>::empty());
        text::law_has_is_a_part(all, line);
    } else {
        lemma_symbol_shown(path, symbols.drop_last(), k);
        text::law_has_is_a_part(front, line);
        let (a, b) = choose|a: Seq<char>, b: Seq<char>| front == #[trigger] (a + line + b);
        let last = path + ": "@ + symbols.last() + "\n"@;
        assert(all =~= a + line + (b + last));
        text::law_has_is_a_part(all, line);
    }
}

/// A match shows each of its symbols on a line behind the path of its file; without symbols its
/// lines, each with its number and without leading white space; and without those its path.
pub proof fn law_entries_show_the_match(m: MatchModel, k: int)
    ensures
        0 <= k < m.symbol_matches.len() ==> text::has(
            entry(m),
            m.relative_path + ": "@ + m.symbol_matches[k] + "\n"@,
        ),
        m.symbol_matches.len() == 0 && m.context_lines.len() == 1 ==> entry(m) == m.relative_path
            + " L"@ + numerals::spec_decimal(m.context_lines[0].line_num) + ": "@
            + text::spec_trim_start(m.context_lines[0].content) + "\n"@,
        m.symbol_matches.len() == 0 && m.context_lines.len() == 0 ==> entry(m) == m.relative_path
            + "\n"@,
{
    if 0 <= k < m.symbol_matches.len() {
        lemma_symbol_shown(m.relative_path, m.symbol_matches, k);
    }
    if m.symbol_matches.len() == 0 && m.context_lines.len() == 1 {
        let lines = m.context_lines;
        assert(lines.drop_last() =~= Seq::empty());
        assert(line_entries(m.relative_path, lines.drop_last()) =~= Seq::empty());
        assert(entry(m) =~= m.relative_path + " L"@ + numerals::spec_decimal(lines[0].line_num)
            + ": "@ + text::spec_trim_start(lines[0].content) + "\n"@);
    }
}

/// What the entries of a list of matches cost together.
pub open spec fn cost(list: Seq<MatchModel>) -> int
    decreases list.len(),
{
    if list.len() == 0 {
        0
    } else {
        token_estimator::spec_tokens(entry(list[0])) as int % 0x1_0000_0000 + cost(
            list.drop_first(),
        )
    }
}

proof fn lemma_all_added(out: Seq<char>, list: Seq<MatchModel>, used: int, budget: int)
    requires
        used + cost(list) <= budget,
    ensures
        add_entries(out, list, used, budget) == out + entries(list),
        cost(list) >= 0,
    decreases list.len(),
{
    if list.len() == 0 {
        assert(out + entries(list) =~= out);
    } else {
        lemma_cost(list.drop_first());
        let e = entry(list[0]);
        lemma_all_added(out + e, list.drop_first(), used + tokens32(e), budget);
        assert(out + entries(list) =~= out + e + entries(list.drop_first()));
    }
}

proof fn lemma_cost(list: Seq<MatchModel>)
    ensures
        cost(list) >= 0,
    decreases list.len(),
{
    if list.len() > 0 {
        lemma_cost(list.drop_first());
    }
}

/// Results that fit the token budget are all shown, in their order. A search that finds nothing
/// says so, and one without embeddings says that only keywords were compared.
pub proof fn law_all_results_are_shown(
    list: Seq<MatchModel>,
    query: Seq<char>,
    token_budget: int,
)
    ensures
        list.len() > 0 && cost(list) <= token_budget ==> spec_format_results(
            list,
            query,
            token_budget,
            true,
        ) == entries(list),
        list.len() == 0 ==> spec_format_results(list, query, token_budget, true)
            == "No results for '"@ + query + "'\n"@,
        text::begins(
            spec_format_results(list, query, token_budget, false),
            "Warning: No semantic search — keyword matching only.\n\n"@,
        ),
{
    if list.len() > 0 && cost(list) <= token_budget {
        lemma_all_added(Seq::empty(), list, 0, token_budget);
        assert(Seq::<char>::empty() + entries(list) =~= entries(list));
    }
    if list.len() == 0 {
        assert(Seq::<char>::empty() + "No results for '"@ =~= "No results for '"@);
    }
    let w = "Warning: No semantic search — keyword matching only.\n\n"@;
    if list.len() > 0 {
        lemma_added_begins(w, list, tokens32(w), token_budget);
    } else {
        let r = spec_format_results(list, query, token_budget, false);
        assert(r.subrange(0, w.len() as int) =~= w);
    }
}

proof fn lemma_added_begins(out: Seq<char>, list: Seq<MatchModel>, used: int, budget: int)
    ensures
        text::begins(add_entries(out, list, used, budget), out),
    decreases list.len(),
{
    let r = add_entries(out, list, used, budget);
    if list.len() == 0 {
        assert(r.subrange(0, out.len() as int) =~= out);
    } else {
        let e = entry(list[0]);
        if used + tokens32(e) > budget {
            assert(r.subrange(0, out.len() as int) =~= out);
        } else {
            lemma_added_begins(out + e, list.drop_first(), used + tokens32(e), budget);
            assert(r.subrange(0, (out + e).len() as int) == out + e);
            assert(r.subrange(0, out.len() as int) =~= (out + e).subrange(0, out.len() as int));
            assert((out + e).subrange(0, out.len() as int) =~= out);
        }
    }
}

/// The first result that fits the token budget is shown first.
pub proof fn law_first_result_comes_first(
    list: Seq<MatchModel>,
    query: Seq<char>,
    token_budget: int,
)
    requires
        list.len() > 0,
        token_estimator::spec_tokens(entry(list[0])) as int % 0x1_0000_0000 <= token_budget,
    ensures
        text::begins(spec_format_results(list, query, token_budget, true), entry(list[0])),
{
    let e = entry(list[0]);
    lemma_added_begins(Seq::<char>::empty() + e, list.drop_first(), tokens32(e), token_budget);
    assert(Seq::<char>::empty() + e =~= e);
}

} // verus!
