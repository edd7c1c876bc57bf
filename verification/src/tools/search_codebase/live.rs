//! Search by scanning the files, for projects without an index.

use crate::context::relevance_scorer;
use crate::indexer::file_walker::{FileEntry, FileModel};
use crate::indexer::pipeline;
use crate::indexer::symbol_extractor;
use crate::indexer::symbol_extractor::{Symbol, SymbolModel};
use crate::numerals;
use crate::text;
use crate::tools::search_codebase::types;
use crate::tools::search_codebase::types::{ContextLine, LineModel, SearchMatch};
use crate::tools::search_codebase::Detail;
use vstd::prelude::*;

verus! {

/// The size above which files are not scanned.
pub const MAX_SCANNED_BYTES: u64 = 1_000_000;

/// How many candidates a scan collects.
pub const MAX_CANDIDATES: usize = 500;

/// Check if a query appears as a word boundary match (not substring of unrelated word).
pub fn is_word_match(haystack: &str, needle: &str) -> (r: bool)
    ensures
        r == relevance_scorer::occurs_as_word(haystack@, needle@),
{
    let h = text::chars_of(haystack);
    let p = text::chars_of(needle);
    let n: usize = h.len();
    let m: usize = p.len();
    for i in 0..n
        invariant
            n == h@.len(),
            m == p@.len(),
            h@ == haystack@,
            p@ == needle@,
            forall|j: int|
                0 <= j < i && #[trigger] text::occurs_at(h@, p@, j) ==> !relevance_scorer::bounded(
                    h@,
                    j,
                    m as nat,
                ),
    {
        if text::matches_at(h.as_slice(), p.as_slice(), i) && relevance_scorer::is_bounded(
            h.as_slice(),
            i,
            m,
        ) {
            return true;
        }
    }
    text::matches_at(h.as_slice(), p.as_slice(), n) && relevance_scorer::is_bounded(
        h.as_slice(),
        n,
        m,
    )
}

/// A file that a scan found, with what speaks for it.
#[derive(Debug)]
pub struct Candidate {
    pub relative_path: String,
    /// Five for the path, one for each line and three for each symbol that matches.
    pub score: u128,
    pub context_lines: Vec<ContextLine>,
    pub symbol_matches: Vec<String>,
    /// The text whose meaning is compared with the query.
    pub summary: String,
}

/// The value of a `Candidate`.
pub struct CandidateModel {
    pub relative_path: Seq<char>,
    pub score: nat,
    pub context_lines: Seq<LineModel>,
    pub symbol_matches: Seq<Seq<char>>,
    pub summary: Seq<char>,
}

impl View for Candidate {
    type V = CandidateModel;

    open spec fn view(&self) -> CandidateModel {
        CandidateModel {
            relative_path: self.relative_path@,
            score: self.score as nat,
            context_lines: types::lines_of(self.context_lines@),
            symbol_matches: text::texts(self.symbol_matches@),
            summary: self.summary@,
        }
    }
}

/// Whether a line matches a query in lower case.
pub open spec fn line_hit(line: Seq<char>, query: Seq<char>) -> bool {
    text::has(text::lowercase_of(line), query)
}

/// How many lines match, and the first three of them.
pub open spec fn line_hits(lines: Seq<Seq<char>>, query: Seq<char>) -> (nat, Seq<LineModel>)
    decreases lines.len(),
{
    if lines.len() == 0 {
        (0, Seq::empty())
    } else {
        let (n, kept) = line_hits(lines.drop_last(), query);
        if line_hit(lines.last(), query) {
            let line = LineModel {
                line_num: lines.len(),
                content: text::spec_trim(lines.last()),
            };
            (n + 1, types::push_up_to(kept, Some(line), 3))
        } else {
            (n, kept)
        }
    }
}

fn scan_lines(content: &[char], query_lower: &str) -> (r: (u64, Vec<ContextLine>))
    ensures
        (r.0 as nat, types::lines_of(r.1@)) == line_hits(
            text::spec_lines(content@),
            query_lower@,
        ),
        r.0 <= usize::MAX,
{
    let lines = text::lines(content);
    let ghost all = text::slices(lines@);
    let n: usize = lines.len();
    let mut count: u64 = 0;
    let mut kept: Vec<ContextLine> = Vec::new();
    assert(all.take(0) =~= Seq::empty());
    assert(types::lines_of(kept@) =~= Seq::empty());
    for i in 0..n
        invariant
            n == lines@.len(),
            all == text::slices(lines@),
            count <= i,
            (count as nat, types::lines_of(kept@)) == line_hits(
                all.take(i as int),
                query_lower@,
            ),
    {
        proof {
            assert(all.take(i + 1).drop_last() =~= all.take(i as int));
            assert(all.take(i + 1).last() == lines@[i as int]@);
        }
        let line = text::string_of(lines[i]);
        let lower = line.as_str().to_lowercase();
        if text::str_contains(lower.as_str(), query_lower) {
            count = count + 1;
            let ghost done = types::lines_of(kept@);
            if kept.len() < 3 {
                let found = ContextLine {
                    line_num: i + 1,
                    content: text::string_of(text::trim(lines[i])),
                };
                kept.push(found);
                assert(types::lines_of(kept@) =~= done.push(found@));
            }
        }
    }
    assert(all.take(all.len() as int) =~= all);
    (count, kept)
}

/// What is shown of a symbol, as the detail asks for.
pub open spec fn symbol_entry(s: SymbolModel, detail: Detail) -> Seq<char> {
    let pointer = "["@ + symbol_extractor::spec_label(s.kind) + "] "@ + s.name + " (L"@
        + numerals::spec_decimal(s.start_line) + "-L"@ + numerals::spec_decimal(s.end_line) + ")"@;
    match detail {
        Detail::Pointers => pointer,
        Detail::Signatures => pointer + ": "@ + s.signature,
        Detail::Code => pointer + ": "@ + s.signature + "\n"@ + s.code,
    }
}

fn write_symbol_entry(s: &Symbol, detail: Detail) -> (r: String)
    ensures
        r@ == symbol_entry(s@, detail),
{
    let start = numerals::decimal_usize(s.start_line);
    let end = numerals::decimal_usize(s.end_line);
    let pointer = text::owned("[").concat(s.kind.label()).concat("] ").concat(
        s.name.as_str(),
    ).concat(" (L").concat(start.as_str()).concat("-L").concat(end.as_str()).concat(")");
    match detail {
        Detail::Pointers => pointer,
        Detail::Signatures => pointer.concat(": ").concat(s.signature.as_str()),
        Detail::Code => pointer.concat(": ").concat(s.signature.as_str()).concat("\n").concat(
            s.code.as_str(),
        ),
    }
}

/// How many symbols match, and what is shown of the first five.
pub open spec fn symbol_hits(list: Seq<SymbolModel>, query: Seq<char>, detail: Detail) -> (
    nat,
    Seq<Seq<char>>,
)
    decreases list.len(),
{
    if list.len() == 0 {
        (0, Seq::empty())
    } else {
        let (n, kept) = symbol_hits(list.drop_last(), query, detail);
        if relevance_scorer::occurs_as_word(text::lowercase_of(list.last().name), query) {
            (n + 1, types::push_up_to(kept, Some(symbol_entry(list.last(), detail)), 5))
        } else {
            (n, kept)
        }
    }
}

fn scan_symbols(list: &[Symbol], query_lower: &str, detail: Detail) -> (r: (u64, Vec<String>))
    ensures
        (r.0 as nat, text::texts(r.1@)) == symbol_hits(
            symbol_extractor::symbols(list@),
            query_lower@,
            detail,
        ),
        r.0 <= usize::MAX,
{
    let ghost all = symbol_extractor::symbols(list@);
    let n: usize = list.len();
    let mut count: u64 = 0;
    let mut kept: Vec<String> = Vec::new();
    assert(all.take(0) =~= Seq::empty());
    assert(text::texts(kept@) =~= Seq::empty());
    for i in 0..n
        invariant
            n == list@.len(),
            all == symbol_extractor::symbols(list@),
            count <= i,
            (count as nat, text::texts(kept@)) == symbol_hits(
                all.take(i as int),
                query_lower@,
                detail,
            ),
    {
        proof {
            assert(all.take(i + 1).drop_last() =~= all.take(i as int));
            assert(all.take(i + 1).last() == list@[i as int]@);
        }
        let lower = list[i].name.as_str().to_lowercase();
        if is_word_match(lower.as_str(), query_lower) {
            count = count + 1;
            let ghost done = text::texts(kept@);
            if kept.len() < 5 {
                let shown = write_symbol_entry(&list[i], detail);
                kept.push(shown);
                assert(text::texts(kept@) =~= done.push(shown@));
            }
        }
    }
    assert(all.take(all.len() as int) =~= all);
    (count, kept)
}

/// What a scan makes of a file, given its symbols: a candidate, if anything speaks for it.
pub open spec fn candidate(
    path: Seq<char>,
    content: Seq<char>,
    symbols: Seq<SymbolModel>,
    query: Seq<char>,
    detail: Detail,
) -> Option<CandidateModel> {
    let lower = text::lowercase_of(query);
    let (lines, context_lines) = line_hits(text::spec_lines(content), lower);
    let (hits, symbol_matches) = symbol_hits(symbols, lower, detail);
    let by_path = if text::has(text::lowercase_of(path), lower) {
        5nat
    } else {
        0
    };
    let score = by_path + lines + 3 * hits;
    if score > 0 {
        Some(
            CandidateModel {
                relative_path: path,
                score,
                context_lines,
                symbol_matches,
                summary: path + "\n"@ + text::first_n(content, 300),
            },
        )
    } else {
        None
    }
}

/// What a scan makes of a file, given its symbols.
pub fn scan_with_symbols(
    relative_path: &str,
    content: &str,
    symbols: &[Symbol],
    query: &str,
    detail: Detail,
) -> (r: Option<Candidate>)
    ensures
        match r {
            Some(c) => candidate(
                relative_path@,
                content@,
                symbol_extractor::symbols(symbols@),
                query@,
                detail,
            ) == Some(c@),
            None => candidate(
                relative_path@,
                content@,
                symbol_extractor::symbols(symbols@),
                query@,
                detail,
            ) is None,
        },
{
    let query_lower = query.to_lowercase();
    let path_lower = relative_path.to_lowercase();
    let chars = text::chars_of(content);
    let (lines, context_lines) = scan_lines(chars.as_slice(), query_lower.as_str());
    let (hits, symbol_matches) = scan_symbols(symbols, query_lower.as_str(), detail);
    let by_path: u128 = if text::str_contains(path_lower.as_str(), query_lower.as_str()) {
        5
    } else {
        0
    };
    let score: u128 = by_path + lines as u128 + 3 * (hits as u128);
    if score > 0 {
        let front = text::string_of(text::head(chars.as_slice(), 300));
        let summary = text::owned(relative_path).concat("\n").concat(front.as_str());
        Some(
            Candidate {
                relative_path: text::owned(relative_path),
                score,
                context_lines,
                symbol_matches,
                summary,
            },
        )
    } else {
        None
    }
}

/// The value of an optional candidate.
pub open spec fn found_of(r: Option<Candidate>) -> Option<CandidateModel> {
    match r {
        Some(c) => Some(c@),
        None => None,
    }
}

/// Whether `r` can be what a scan makes of a file: that of symbols which its content can give.
pub open spec fn scans(
    path: Seq<char>,
    extension: Seq<char>,
    content: Seq<char>,
    query: Seq<char>,
    detail: Detail,
    r: Option<CandidateModel>,
) -> bool {
    exists|symbols: Seq<SymbolModel>| #[trigger]
        pipeline::lists_symbols(content, extension, symbols) && r == candidate(
            path,
            content,
            symbols,
            query,
            detail,
        )
}

/// Scan a file for a query: keywords in its path and lines, and words in the names of its
/// symbols.
pub fn scan_file(
    relative_path: &str,
    extension: &str,
    content: &str,
    query: &str,
    detail: Detail,
) -> (r: Option<Candidate>)
    ensures
        scans(relative_path@, extension@, content@, query@, detail, found_of(r)),
{
    let symbols = pipeline::symbols_of(content, extension);
    scan_with_symbols(relative_path, content, symbols.as_slice(), query, detail)
}

impl Candidate {
    /// The candidate as a search match.
    pub fn into_match(self) -> (r: SearchMatch)
        ensures
            r@.relative_path == self@.relative_path,
            r@.context_lines == self@.context_lines,
            r@.symbol_matches == self@.symbol_matches,
    {
        SearchMatch {
            relative_path: self.relative_path,
            context_lines: self.context_lines,
            symbol_matches: self.symbol_matches,
        }
    }
}

/// The values of a list of candidates.
pub open spec fn candidates(v: Seq<Candidate>) -> Seq<CandidateModel> {
    v.map_values(|c: Candidate| c@)
}

/// A scan of the files of a project: the candidates so far.
#[derive(Debug)]
pub struct LiveScan {
    pub candidates: Vec<Candidate>,
}

impl LiveScan {
    /// Whether there is room for another candidate.
    pub open spec fn open(self) -> bool {
        self.candidates@.len() < MAX_CANDIDATES
    }

    /// A scan that has found nothing.
    pub fn new() -> (r: Self)
        ensures
            r.open(),
            candidates(r.candidates@) == Seq::<CandidateModel>::empty(),
    {
        let r = LiveScan { candidates: Vec::new() };
        assert(candidates(r.candidates@) =~= Seq::empty());
        r
    }

    /// Looks at the next file, given its content if it could be read. Says whether the scan
    /// goes on: it ends with the last candidate that there is room for.
    pub fn offer(
        &mut self,
        file: &FileEntry,
        content: Option<&str>,
        query: &str,
        detail: Detail,
    ) -> (r: bool)
        requires
            old(self).open(),
        ensures
            r == final(self).open(),
            offers(
                candidates(old(self).candidates@),
                file@,
                pipeline::slice_of(content),
                query@,
                detail,
                candidates(final(self).candidates@),
            ),
    {
        let ghost before = candidates(self.candidates@);
        if file.size_bytes > MAX_SCANNED_BYTES {
            return true;
        }
        match content {
            Some(c) => {
                let found = scan_file(
                    file.relative_path.as_str(),
                    file.extension.as_str(),
                    c,
                    query,
                    detail,
                );
                let ghost model = found_of(found);
                match found {
                    Some(candidate) => {
                        self.candidates.push(candidate);
                    },
                    None => {},
                }
                assert(candidates(self.candidates@) =~= with_found(before, model));
                assert(scans(
                    file@.relative_path,
                    file@.extension,
                    pipeline::slice_of(content)->0,
                    query@,
                    detail,
                    model,
                ));
            },
            None => {},
        }
        self.candidates.len() < MAX_CANDIDATES
    }
}

/// The candidates with one more, if there is one.
pub open spec fn with_found(before: Seq<CandidateModel>, found: Option<CandidateModel>) -> Seq<
    CandidateModel,
> {
    match found {
        Some(c) => before.push(c),
        None => before,
    }
}

/// Whether `after` can be the candidates after one more file: files that are too large or
/// could not be read are passed over.
pub open spec fn offers(
    before: Seq<CandidateModel>,
    file: FileModel,
    content: Option<Seq<char>>,
    query: Seq<char>,
    detail: Detail,
    after: Seq<CandidateModel>,
) -> bool {
    if file.size_bytes > MAX_SCANNED_BYTES || content is None {
        after == before
    } else {
        exists|found: Option<CandidateModel>| #[trigger]
            scans(file.relative_path, file.extension, content->0, query, detail, found) && after
                == with_found(before, found)
    }
}

proof fn lemma_line_hits(lines: Seq<Seq<char>>, query: Seq<char>)
    ensures
        line_hits(lines, query).0 > 0 <==> exists|i: int|
            0 <= i < lines.len() && text::has(text::lowercase_of(#[trigger] lines[i]), query),
    decreases lines.len(),
{
    if lines.len() > 0 {
        let rest = lines.drop_last();
        lemma_line_hits(rest, query);
        if line_hit(lines.last(), query) {
            assert(text::has(text::lowercase_of(lines[lines.len() - 1]), query));
        } else {
            assert forall|i: int| 0 <= i < rest.len() implies #[trigger] rest[i] == lines[i] by {}
            if exists|i: int|
                0 <= i < lines.len() && text::has(text::lowercase_of(#[trigger] lines[i]), query) {
                let i = choose|i: int|
                    0 <= i < lines.len() && text::has(
                        text::lowercase_of(#[trigger] lines[i]),
                        query,
                    );
                assert(rest[i] == lines[i]);
            }
        }
    }
}

/// Each line that contains the query, whatever its case, counts once; of the first three the
/// number and the text without white space at its ends are kept.
pub proof fn law_matching_lines_count(lines: Seq<Seq<char>>, query: Seq<char>, line: Seq<char>)
    ensures
        ({
            let (n, kept) = line_hits(lines, query);
            let (m, more) = line_hits(lines.push(line), query);
            let shown = LineModel { line_num: lines.len() + 1, content: text::spec_trim(line) };
            &&& text::has(text::lowercase_of(line), query) ==> m == n + 1 && more == (if kept.len()
                < 3 {
                kept.push(shown)
            } else {
                kept
            })
            &&& !text::has(text::lowercase_of(line), query) ==> m == n && more == kept
        }),
{
    assert(lines.push(line).drop_last() =~= lines);
}

/// Each symbol whose name has the query for a word counts once, and what is shown of the first
/// five is kept: kind, name and lines, and as the detail asks its signature and its code.
pub proof fn law_matching_symbols_count(
    list: Seq<SymbolModel>,
    query: Seq<char>,
    s: SymbolModel,
    detail: Detail,
)
    ensures
        ({
            let (n, kept) = symbol_hits(list, query, detail);
            let (m, more) = symbol_hits(list.push(s), query, detail);
            let hit = relevance_scorer::occurs_as_word(text::lowercase_of(s.name), query);
            let pointer = "["@ + symbol_extractor::spec_label(s.kind) + "] "@ + s.name + " (L"@
                + numerals::spec_decimal(s.start_line) + "-L"@ + numerals::spec_decimal(s.end_line)
                + ")"@;
            let shown = match detail {
                Detail::Pointers => pointer,
                Detail::Signatures => pointer + ": "@ + s.signature,
                Detail::Code => pointer + ": "@ + s.signature + "\n"@ + s.code,
            };
            &&& hit ==> m == n + 1 && more == (if kept.len() < 5 {
                kept.push(shown)
            } else {
                kept
            })
            &&& !hit ==> m == n && more == kept
        }),
{
    assert(list.push(s).drop_last() =~= list);
}

proof fn lemma_symbol_hits(list: Seq<SymbolModel>, query: Seq<char>, detail: Detail)
    ensures
        symbol_hits(list, query, detail).0 > 0 <==> exists|i: int|
            0 <= i < list.len() && relevance_scorer::occurs_as_word(
                text::lowercase_of((#[trigger] list[i]).name),
                query,
            ),
    decreases list.len(),
{
    if list.len() > 0 {
        let rest = list.drop_last();
        lemma_symbol_hits(rest, query, detail);
        if relevance_scorer::occurs_as_word(text::lowercase_of(list.last().name), query) {
            assert(list[list.len() - 1] == list.last());
        } else {
            assert forall|i: int| 0 <= i < rest.len() implies #[trigger] rest[i] == list[i] by {}
            if exists|i: int|
                0 <= i < list.len() && relevance_scorer::occurs_as_word(
                    text::lowercase_of((#[trigger] list[i]).name),
                    query,
                ) {
                let i = choose|i: int|
                    0 <= i < list.len() && relevance_scorer::occurs_as_word(
                        text::lowercase_of((#[trigger] list[i]).name),
                        query,
                    );
                assert(rest[i] == list[i]);
            }
        }
    }
}

/// A file is a candidate exactly where its path or one of its lines contains the query, or the
/// name of one of its symbols has it for a word, whatever the case. Its score is five for the
/// path, one for each line and three for each symbol; it is compared by its path and its first
/// three hundred characters.
pub proof fn law_candidates(
    path: Seq<char>,
    content: Seq<char>,
    symbols: Seq<SymbolModel>,
    query: Seq<char>,
    detail: Detail,
)
    ensures
        ({
            let q = text::lowercase_of(query);
            let lines = text::spec_lines(content);
            let by_path = text::has(text::lowercase_of(path), q);
            let by_line = exists|i: int|
                0 <= i < lines.len() && text::has(text::lowercase_of(#[trigger] lines[i]), q);
            let by_symbol = exists|i: int|
                0 <= i < symbols.len() && relevance_scorer::occurs_as_word(
                    text::lowercase_of((#[trigger] symbols[i]).name),
                    q,
                );
            match candidate(path, content, symbols, query, detail) {
                Some(c) => {
                    &&& by_path || by_line || by_symbol
                    &&& c.relative_path == path
                    &&& c.score == (if by_path {
                        5nat
                    } else {
                        0
                    }) + line_hits(lines, q).0 + 3 * symbol_hits(symbols, q, detail).0
                    &&& c.context_lines == line_hits(lines, q).1
                    &&& c.symbol_matches == symbol_hits(symbols, q, detail).1
                    &&& c.summary == path + "\n"@ + (if content.len() <= 300 {
                        content
                    } else {
                        content.take(300)
                    })
                },
                None => !by_path && !by_line && !by_symbol,
            }
        }),
{
    let q = text::lowercase_of(query);
    lemma_line_hits(text::spec_lines(content), q);
    lemma_symbol_hits(symbols, q, detail);
}

/// A scan passes over files of more than a million bytes and files that cannot be read, and
/// looks at every other file; it ends with the five hundredth candidate.
pub proof fn law_files_are_scanned(
    before: Seq<CandidateModel>,
    file: FileModel,
    content: Option<Seq<char>>,
    query: Seq<char>,
    detail: Detail,
    after: Seq<CandidateModel>,
)
    requires
        offers(before, file, content, query, detail, after),
    ensures
        content is None || file.size_bytes > 1_000_000 ==> after == before,
        content is Some && file.size_bytes <= 1_000_000 ==> exists|
            found: Option<CandidateModel>,
        | #[trigger]
            scans(file.relative_path, file.extension, content->0, query, detail, found) && (
            match found {
                Some(c) => after == before.push(c),
                None => after == before,
            }),
        MAX_CANDIDATES == 500,
{
}

} // verus!
