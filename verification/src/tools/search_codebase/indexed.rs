//! Search in the pre-built index: which rows count, and what speaks for each file.

use crate::collections::NameSet;
use crate::context::file_summarizer;
use crate::context::scoring;
use crate::float32;
use crate::indexer::symbol_extractor;
use crate::numerals;
use crate::sort;
use crate::text;
use crate::tools::search_codebase::types;
use crate::tools::search_codebase::types::{ContextLine, LineModel};
use crate::tools::search_codebase::Detail;
use crate::width;
use vstd::prelude::*;

verus! {

// ── The query ────────────────────────────────────────────────────────

/// The words of a list that have at least two bytes.
pub open spec fn long_words(words: Seq<Seq<char>>) -> Seq<Seq<char>>
    decreases words.len(),
{
    if words.len() == 0 {
        Seq::empty()
    } else if width::bytes_of(words.last()) >= 2 {
        long_words(words.drop_last()).push(words.last())
    } else {
        long_words(words.drop_last())
    }
}

/// Split a query in lower case into words for multi-word matching.
pub fn query_words(query_lower: &str) -> (r: Vec<String>)
    ensures
        text::texts(r@) == long_words(text::spec_words(query_lower@)),
{
    let chars = text::chars_of(query_lower);
    let words = text::words(chars.as_slice());
    let ghost all = text::slices(words@);
    let mut out: Vec<String> = Vec::new();
    assert(all.take(0) =~= Seq::empty());
    assert(text::texts(out@) =~= Seq::empty());
    for i in 0..words.len()
        invariant
            all == text::slices(words@),
            text::texts(out@) == long_words(all.take(i as int)),
    {
        proof {
            assert(all.take(i + 1).drop_last() =~= all.take(i as int));
            assert(all.take(i + 1).last() == words@[i as int]@);
        }
        let word = text::string_of(words[i]);
        if width::byte_len(word.as_str()) >= 2 {
            let ghost done = text::texts(out@);
            out.push(word);
            assert(text::texts(out@) =~= done.push(word@));
        }
    }
    assert(all.take(all.len() as int) =~= all);
    out
}

/// The full-text query for a phrase: quoted, with quotes doubled, as a prefix.
pub fn fts_query(query_lower: &str) -> (r: String)
    ensures
        r@ == "\""@ + text::spec_replace(query_lower@, '"', "\"\""@) + "\"*"@,
{
    let chars = text::chars_of(query_lower);
    let doubled = text::replace(chars.as_slice(), '"', "\"\"");
    text::owned("\"").concat(doubled.as_str()).concat("\"*")
}

/// The pattern that matches a text anywhere.
pub fn like_pattern(t: &str) -> (r: String)
    ensures
        r@ == "%"@ + t@ + "%"@,
{
    text::owned("%").concat(t).concat("%")
}

// ── Symbol rows ──────────────────────────────────────────────────────

/// A symbol as the index stores it.
#[derive(Debug)]
pub struct SymbolRow {
    pub name: String,
    pub kind: String,
    pub start_line: usize,
    pub end_line: usize,
    pub signature: String,
    pub file_path: String,
}

/// A stored line number; a negative one counts as zero.
pub fn stored_line(n: i64) -> (r: usize)
    ensures
        n < 0 ==> r == 0,
        0 <= n <= usize::MAX ==> r == n,
        n > usize::MAX ==> r == usize::MAX,
{
    if n < 0 {
        0
    } else if n as u64 <= usize::MAX as u64 {
        n as usize
    } else {
        usize::MAX
    }
}

/// What tells a row from others: name, file and first line.
pub open spec fn row_key(row: SymbolRow) -> Seq<char> {
    row.name@ + ":"@ + row.file_path@ + ":"@ + numerals::spec_decimal(row.start_line as nat)
}

/// The places of the rows whose key no earlier row has.
pub open spec fn first_rows(rows: Seq<SymbolRow>) -> Seq<int>
    decreases rows.len(),
{
    if rows.len() == 0 {
        Seq::empty()
    } else {
        let front = rows.drop_last();
        if exists|i: int| 0 <= i < front.len() && row_key(#[trigger] front[i]) == row_key(
            rows.last(),
        ) {
            first_rows(front)
        } else {
            first_rows(front).push(front.len() as int)
        }
    }
}

/// Merge rows of several queries: the places of the rows to keep, without repetitions.
pub fn distinct_rows(rows: &[SymbolRow]) -> (r: Vec<usize>)
    ensures
        r@.map_values(|k: usize| k as int) == first_rows(rows@),
{
    let mut seen = NameSet::new();
    let mut out: Vec<usize> = Vec::new();
    assert(rows@.take(0) =~= Seq::empty());
    assert(out@.map_values(|k: usize| k as int) =~= Seq::empty());
    for i in 0..rows.len()
        invariant
            seen.wf(),
            forall|t: Seq<char>| #[trigger]
                seen@.contains(t) <==> exists|j: int|
                    0 <= j < i && row_key(#[trigger] rows@[j]) == t,
            out@.map_values(|k: usize| k as int) == first_rows(rows@.take(i as int)),
    {
        let row = &rows[i];
        let ghost front = rows@.take(i as int);
        let ghost before = seen@;
        proof {
            assert(rows@.take(i + 1).drop_last() =~= front);
            assert(rows@.take(i + 1).last() == *row);
        }
        let line = numerals::decimal_usize(row.start_line);
        let key = row.name.clone().concat(":").concat(row.file_path.as_str()).concat(":").concat(
            line.as_str(),
        );
        let ghost k = key@;
        assert(k == row_key(*row));
        let fresh = seen.insert(key);
        proof {
            if before.contains(k) {
                let j = choose|j: int| 0 <= j < i && row_key(#[trigger] rows@[j]) == k;
                assert(row_key(front[j]) == k);
            } else {
                assert forall|j: int| 0 <= j < front.len() implies row_key(#[trigger] front[j])
                    != k by {
                    assert(front[j] == rows@[j]);
                }
            }
            assert forall|t: Seq<char>| #[trigger] seen@.contains(t) <==> exists|j: int|
                0 <= j < i + 1 && row_key(#[trigger] rows@[j]) == t by {
                if t == k {
                    assert(row_key(rows@[i as int]) == t);
                    if !before.contains(t) {
                        assert(seen@[before.len() as int] == t);
                    }
                } else {
                    if before.contains(t) {
                        let m = before.index_of(t);
                        assert(seen@[m] == t);
                    }
                    if seen@.contains(t) {
                        let m = seen@.index_of(t);
                        assert(before[m] == t);
                        assert(before.contains(t));
                    }
                }
            }
        }
        if fresh {
            let ghost done = out@.map_values(|k: usize| k as int);
            out.push(i);
            assert(out@.map_values(|k: usize| k as int) =~= done.push(i as int));
        }
    }
    assert(rows@.take(rows@.len() as int) =~= rows@);
    out
}

/// How well a name matches a query.
#[derive(Debug, Clone, Copy, PartialEq, Eq, Structural)]
pub enum NameMatch {
    /// The name is the query.
    Exact,
    /// The name contains the query.
    Substring,
    /// The name contains some of the query's words.
    Words { matched: usize, total: usize },
    /// The name has nothing of the query.
    Nothing,
}

/// How many of a list of words a text contains.
pub open spec fn words_in(t: Seq<char>, words: Seq<Seq<char>>) -> nat
    decreases words.len(),
{
    if words.len() == 0 {
        0
    } else {
        words_in(t, words.drop_last()) + if text::has(t, words.last()) {
            1nat
        } else {
            0
        }
    }
}

fn count_words_in(t: &[char], words: &[String]) -> (r: usize)
    ensures
        r == words_in(t@, text::texts(words@)),
        r <= words@.len(),
{
    let ghost all = text::texts(words@);
    let mut n: usize = 0;
    assert(all.take(0) =~= Seq::empty());
    for i in 0..words.len()
        invariant
            all == text::texts(words@),
            n <= i,
            n == words_in(t@, all.take(i as int)),
    {
        proof {
            assert(all.take(i + 1).drop_last() =~= all.take(i as int));
            assert(all.take(i + 1).last() == words@[i as int]@);
        }
        if text::contains(t, words[i].as_str()) {
            n = n + 1;
        }
    }
    assert(all.take(all.len() as int) =~= all);
    n
}

/// How well a name matches a query, both in lower case: single words only count where the
/// query has several.
pub open spec fn spec_name_match(
    name: Seq<char>,
    query: Seq<char>,
    words: Seq<Seq<char>>,
) -> NameMatch {
    if name == query {
        NameMatch::Exact
    } else if text::has(name, query) {
        NameMatch::Substring
    } else if words.len() > 1 && words_in(name, words) > 0 {
        NameMatch::Words { matched: words_in(name, words) as usize, total: words.len() as usize }
    } else {
        NameMatch::Nothing
    }
}

/// How well a name matches a query, both in lower case.
pub fn match_name(name_lower: &str, query_lower: &str, words: &[String]) -> (r: NameMatch)
    ensures
        r == spec_name_match(name_lower@, query_lower@, text::texts(words@)),
{
    let name = text::chars_of(name_lower);
    assert(text::texts(words@).len() == words@.len());
    if text::same(name_lower, query_lower) {
        NameMatch::Exact
    } else if text::contains(name.as_slice(), query_lower) {
        NameMatch::Substring
    } else if words.len() > 1 {
        let matched: usize = count_words_in(name.as_slice(), words);
        if matched > 0 {
            NameMatch::Words { matched, total: words.len() }
        } else {
            NameMatch::Nothing
        }
    } else {
        NameMatch::Nothing
    }
}

/// What the score of a row is multiplied by.
#[derive(Debug, Clone, Copy, PartialEq, Eq, Structural)]
pub enum RowWeight {
    /// A definition: one and a half.
    Definition,
    /// An import, or an export of a few lines: a fifth.
    Reference,
    /// Anything else: one.
    Plain,
}

/// Whether a stored kind is that of a definition.
pub open spec fn definition_kind(kind: Seq<char>) -> bool {
    kind == "function"@ || kind == "async function"@ || kind == "Function"@ || kind
        == "AsyncFunction"@ || kind == "class"@ || kind == "Class"@ || kind == "method"@ || kind
        == "Method"@ || kind == "struct"@ || kind == "Struct"@ || kind == "trait"@ || kind
        == "Trait"@ || kind == "impl"@ || kind == "Impl"@ || kind == "enum"@ || kind == "Enum"@
        || kind == "interface"@ || kind == "Interface"@ || kind == "type"@ || kind == "TypeAlias"@
}

fn is_definition_kind(kind: &str) -> (r: bool)
    ensures
        r == definition_kind(kind@),
{
    text::same(kind, "function") || text::same(kind, "async function") || text::same(
        kind,
        "Function",
    ) || text::same(kind, "AsyncFunction") || text::same(kind, "class") || text::same(
        kind,
        "Class",
    ) || text::same(kind, "method") || text::same(kind, "Method") || text::same(kind, "struct")
        || text::same(kind, "Struct") || text::same(kind, "trait") || text::same(kind, "Trait")
        || text::same(kind, "impl") || text::same(kind, "Impl") || text::same(kind, "enum")
        || text::same(kind, "Enum") || text::same(kind, "interface") || text::same(
        kind,
        "Interface",
    ) || text::same(kind, "type") || text::same(kind, "TypeAlias")
}

/// Whether a row stands for an import: a destructured name, or a `require` in its signature.
pub open spec fn imported(name_lower: Seq<char>, signature: Seq<char>) -> bool {
    text::begins(name_lower, "{"@) || text::begins(name_lower, "["@) || text::has(
        signature,
        "require("@,
    )
}

/// Whether a stored kind is that of an export.
pub open spec fn export_kind(kind: Seq<char>) -> bool {
    kind == "export"@ || kind == "Export"@
}

/// What the score of a row is multiplied by.
pub open spec fn spec_row_weight(row: SymbolRow, name_lower: Seq<char>) -> RowWeight {
    if !imported(name_lower, row.signature@) && definition_kind(row.kind@) {
        RowWeight::Definition
    } else if imported(name_lower, row.signature@) || (export_kind(row.kind@) && row.end_line
        - row.start_line < 3) {
        RowWeight::Reference
    } else {
        RowWeight::Plain
    }
}

/// Boost definitions, penalize import-only matches: what the score of a row is multiplied by,
/// given its name in lower case.
pub fn row_weight(row: &SymbolRow, name_lower: &str) -> (r: RowWeight)
    requires
        export_kind(row.kind@) ==> row.start_line <= row.end_line,
    ensures
        r == spec_row_weight(*row, name_lower@),
{
    let name = text::chars_of(name_lower);
    let is_import = text::starts_with(name.as_slice(), "{") || text::starts_with(
        name.as_slice(),
        "[",
    ) || text::str_contains(row.signature.as_str(), "require(");
    let is_export = text::same(row.kind.as_str(), "export") || text::same(
        row.kind.as_str(),
        "Export",
    );
    if !is_import && is_definition_kind(row.kind.as_str()) {
        RowWeight::Definition
    } else if is_import || (is_export && row.end_line - row.start_line < 3) {
        RowWeight::Reference
    } else {
        RowWeight::Plain
    }
}

/// What is shown of a row: kind, name and lines, with its signature and its code as the
/// detail asks for, unless the signature cannot be cut.
pub open spec fn spec_row_line(row: SymbolRow, detail: Detail, code: Seq<char>) -> Option<
    Seq<char>,
> {
    let pointer = "["@ + symbol_extractor::spec_abbreviate_kind(row.kind@) + "] "@ + row.name@
        + " L"@ + numerals::spec_decimal(row.start_line as nat) + "-"@ + numerals::spec_decimal(
        row.end_line as nat,
    );
    match detail {
        Detail::Pointers => Some(pointer),
        _ => match width::spec_truncate_signature(row.signature@, 80) {
            Some(sig) => if detail == Detail::Code && code.len() > 0 {
                Some(pointer + ": "@ + sig + "\n"@ + code)
            } else {
                Some(pointer + ": "@ + sig)
            },
            None => None,
        },
    }
}

/// The code of a row: its lines in the content of its file, as far as the file has them.
pub open spec fn spec_row_code(row: SymbolRow, content: Seq<char>) -> Seq<char> {
    let lines = text::spec_lines(content);
    let start = if row.start_line > 0 {
        row.start_line - 1
    } else {
        0
    };
    let end = if row.end_line < lines.len() {
        row.end_line as int
    } else {
        lines.len() as int
    };
    if start < end {
        text::spec_join(lines.subrange(start, end), "\n"@)
    } else {
        Seq::empty()
    }
}

/// The code of a row, given the content of its file.
pub fn row_code(row: &SymbolRow, content: &str) -> (r: String)
    ensures
        r@ == spec_row_code(*row, content@),
{
    let chars = text::chars_of(content);
    let lines = text::lines(chars.as_slice());
    let ghost all = text::spec_lines(content@);
    assert(text::slices(lines@).len() == lines@.len());
    let start: usize = if row.start_line > 0 {
        row.start_line - 1
    } else {
        0
    };
    let end: usize = if row.end_line < lines.len() {
        row.end_line
    } else {
        lines.len()
    };
    let mut shown: Vec<String> = Vec::new();
    if start >= end {
        let nothing = String::new();
        assert(nothing@ =~= Seq::empty());
        return nothing;
    }
    let ghost part = all.subrange(start as int, end as int);
    assert(text::texts(shown@) =~= part.take(0));
    for i in start..end
        invariant
            start < end <= lines@.len(),
            all == text::slices(lines@),
            part == all.subrange(start as int, end as int),
            text::texts(shown@) == part.take(i - start),
    {
        let ghost before = text::texts(shown@);
        shown.push(text::string_of(lines[i]));
        assert(part[i - start] == lines@[i as int]@);
        assert(text::texts(shown@) =~= before.push(part[i - start]));
        assert(part.take(i + 1 - start) =~= before.push(part[i - start]));
    }
    assert(part.take(end - start) =~= part);
    text::join(shown.as_slice(), "\n")
}

/// What is shown of a row, given its code.
pub fn row_line(row: &SymbolRow, detail: Detail, code: &str) -> (r: Option<String>)
    ensures
        types::text_of(r) == spec_row_line(*row, detail, code@),
{
    let kind = symbol_extractor::abbreviate_kind(row.kind.as_str());
    let start = numerals::decimal_usize(row.start_line);
    let end = numerals::decimal_usize(row.end_line);
    let pointer = text::owned("[").concat(kind.as_str()).concat("] ").concat(
        row.name.as_str(),
    ).concat(" L").concat(start.as_str()).concat("-").concat(end.as_str());
    match detail {
        Detail::Pointers => Some(pointer),
        _ => match width::truncate_signature(row.signature.as_str(), 80) {
            Some(sig) => {
                let line = pointer.concat(": ").concat(sig.as_str());
                let n: usize = text::chars_of(code).len();
                if detail == Detail::Code && n > 0 {
                    Some(line.concat("\n").concat(code))
                } else {
                    Some(line)
                }
            },
            None => None,
        },
    }
}

/// Whether the similarity of a symbol counts.
pub fn symbol_similarity_counts(similarity: u32) -> (r: bool)
    ensures
        r == float32::below(scoring::SEARCH_SYMBOL_SIM_THRESHOLD, similarity),
{
    float32::less(scoring::SEARCH_SYMBOL_SIM_THRESHOLD, similarity)
}

/// Whether the similarity of a file counts.
pub fn file_similarity_counts(similarity: u32) -> (r: bool)
    ensures
        r == float32::below(scoring::SEARCH_FILE_SIM_THRESHOLD, similarity),
{
    float32::less(scoring::SEARCH_FILE_SIM_THRESHOLD, similarity)
}

// ── Words in paths and lines ─────────────────────────────────────────

/// Whether a text contains a word or, for a longer word, its first four bytes. There is no
/// answer where those end inside a character.
pub open spec fn spec_word_or_prefix(t: Seq<char>, word: Seq<char>) -> Option<bool> {
    if text::has(t, word) {
        Some(true)
    } else if width::bytes_of(word) < 4 {
        Some(false)
    } else if width::boundary(word, 4) {
        Some(text::has(t, word.take(width::fitting(word, 4) as int)))
    } else {
        None
    }
}

fn word_or_prefix(t: &[char], word: &str) -> (r: Option<bool>)
    ensures
        r == spec_word_or_prefix(t@, word@),
{
    if text::contains(t, word) {
        return Some(true);
    }
    if width::byte_len(word) < 4 {
        return Some(false);
    }
    if !width::is_boundary(word, 4) {
        return None;
    }
    let chars = text::chars_of(word);
    let front = text::string_of(width::prefix(chars.as_slice(), 4));
    Some(text::contains(t, front.as_str()))
}

/// How many of a list of words a path contains, whole or by their beginning.
pub open spec fn spec_path_hits(path: Seq<char>, words: Seq<Seq<char>>) -> Option<nat>
    decreases words.len(),
{
    if words.len() == 0 {
        Some(0nat)
    } else {
        match (spec_path_hits(path, words.drop_last()), spec_word_or_prefix(path, words.last())) {
            (Some(n), Some(found)) => Some(
                if found {
                    n + 1
                } else {
                    n
                },
            ),
            _ => None,
        }
    }
}

proof fn lemma_path_hits_none(path: Seq<char>, words: Seq<Seq<char>>, i: int)
    requires
        0 <= i <= words.len(),
        spec_path_hits(path, words.take(i)) is None,
    ensures
        spec_path_hits(path, words) is None,
    decreases words.len() - i,
{
    if i == words.len() {
        assert(words.take(i) =~= words);
    } else {
        assert(words.take(i + 1).drop_last() =~= words.take(i));
        lemma_path_hits_none(path, words, i + 1);
    }
}

/// How many of a list of words a path contains, with prefix matching: "authentication"
/// matches "auth" in a path. There is no answer where a beginning of four bytes ends inside a
/// character.
pub fn path_hits(path_lower: &str, words: &[String]) -> (r: Option<usize>)
    ensures
        match r {
            Some(n) => spec_path_hits(path_lower@, text::texts(words@)) == Some(n as nat),
            None => spec_path_hits(path_lower@, text::texts(words@)) is None,
        },
{
    let path = text::chars_of(path_lower);
    let ghost all = text::texts(words@);
    let mut n: usize = 0;
    assert(all.take(0) =~= Seq::empty());
    for i in 0..words.len()
        invariant
            path@ == path_lower@,
            all == text::texts(words@),
            n <= i,
            spec_path_hits(path_lower@, all.take(i as int)) == Some(n as nat),
    {
        proof {
            assert(all.take(i + 1).drop_last() =~= all.take(i as int));
            assert(all.take(i + 1).last() == words@[i as int]@);
        }
        match word_or_prefix(path.as_slice(), words[i].as_str()) {
            Some(found) => {
                if found {
                    n = n + 1;
                }
            },
            None => {
                proof {
                    lemma_path_hits_none(path_lower@, all, i + 1);
                }
                return None;
            },
        }
    }
    assert(all.take(all.len() as int) =~= all);
    Some(n)
}

/// Whether a line has any of a list of words, whole or by their beginning, tried in order.
pub open spec fn spec_line_matches(line: Seq<char>, words: Seq<Seq<char>>) -> Option<bool>
    decreases words.len(),
{
    if words.len() == 0 {
        Some(false)
    } else {
        match spec_word_or_prefix(line, words[0]) {
            Some(true) => Some(true),
            Some(false) => spec_line_matches(line, words.drop_first()),
            None => None,
        }
    }
}

fn line_matches(line: &[char], words: &[String]) -> (r: Option<bool>)
    ensures
        r == spec_line_matches(line@, text::texts(words@)),
{
    let ghost all = text::texts(words@);
    assert(all.skip(0) =~= all);
    for i in 0..words.len()
        invariant
            all == text::texts(words@),
            spec_line_matches(line@, all) == spec_line_matches(line@, all.skip(i as int)),
    {
        proof {
            assert(all.skip(i as int)[0] == words@[i as int]@);
            assert(all.skip(i as int).drop_first() =~= all.skip(i + 1));
        }
        match word_or_prefix(line, words[i].as_str()) {
            Some(true) => {
                return Some(true);
            },
            Some(false) => {},
            None => {
                return None;
            },
        }
    }
    Some(false)
}

/// Whether a trimmed line imports something.
pub open spec fn import_line(t: Seq<char>) -> bool {
    text::begins(t, "import "@) || (text::begins(t, "const {"@) && text::has(t, "require("@)) || (
    text::begins(t, "const "@) && text::has(t, "require("@) && text::spec_find_char(t, '}') is Some)
        || text::begins(t, "from "@) || text::begins(t, "#include"@)
}

fn is_import_line(t: &[char]) -> (r: bool)
    ensures
        r == import_line(t@),
{
    text::starts_with(t, "import ") || (text::starts_with(t, "const {") && text::contains(
        t,
        "require(",
    )) || (text::starts_with(t, "const ") && text::contains(t, "require(") && text::find_char(
        t,
        '}',
    ).is_some()) || text::starts_with(t, "from ") || text::starts_with(t, "#include")
}

/// What the lines of a file say of a query: how many matching lines define and how many
/// import, and the first of each.
#[derive(Debug)]
pub struct LineAnalysis {
    pub def_count: usize,
    pub import_count: usize,
    pub def_line: Option<ContextLine>,
    pub import_line: Option<ContextLine>,
}

/// The value of a `LineAnalysis`.
pub struct AnalysisModel {
    pub def_count: nat,
    pub import_count: nat,
    pub def_line: Option<LineModel>,
    pub import_line: Option<LineModel>,
}

impl View for LineAnalysis {
    type V = AnalysisModel;

    open spec fn view(&self) -> AnalysisModel {
        AnalysisModel {
            def_count: self.def_count as nat,
            import_count: self.import_count as nat,
            def_line: types::line_of(self.def_line),
            import_line: types::line_of(self.import_line),
        }
    }
}

/// A line that was found first, or the earlier one.
pub open spec fn first_line(earlier: Option<LineModel>, n: nat, content: Seq<char>) -> Option<
    LineModel,
> {
    match earlier {
        Some(l) => Some(l),
        None => Some(LineModel { line_num: n, content }),
    }
}

/// What the lines of a file say of a query. There is no answer where a line cannot be searched
/// for one of the words.
pub open spec fn spec_analyze(lines: Seq<Seq<char>>, words: Seq<Seq<char>>) -> Option<AnalysisModel>
    decreases lines.len(),
{
    if lines.len() == 0 {
        Some(
            AnalysisModel { def_count: 0, import_count: 0, def_line: None, import_line: None },
        )
    } else {
        match (
            spec_analyze(lines.drop_last(), words),
            spec_line_matches(text::lowercase_of(lines.last()), words),
        ) {
            (Some(a), Some(true)) => {
                let t = text::spec_trim(lines.last());
                if import_line(t) {
                    Some(
                        AnalysisModel {
                            import_count: a.import_count + 1,
                            import_line: first_line(a.import_line, lines.len(), t),
                            ..a
                        },
                    )
                } else {
                    Some(
                        AnalysisModel {
                            def_count: a.def_count + 1,
                            def_line: first_line(a.def_line, lines.len(), t),
                            ..a
                        },
                    )
                }
            },
            (Some(a), Some(false)) => Some(a),
            _ => None,
        }
    }
}

proof fn lemma_analyze_none(lines: Seq<Seq<char>>, words: Seq<Seq<char>>, i: int)
    requires
        0 <= i <= lines.len(),
        spec_analyze(lines.take(i), words) is None,
    ensures
        spec_analyze(lines, words) is None,
    decreases lines.len() - i,
{
    if i == lines.len() {
        assert(lines.take(i) =~= lines);
    } else {
        assert(lines.take(i + 1).drop_last() =~= lines.take(i));
        lemma_analyze_none(lines, words, i + 1);
    }
}

/// Check if query words appear in implementation code or only in imports. There is no answer
/// where a line cannot be searched for one of the words.
pub fn analyze_lines(content: &str, words: &[String]) -> (r: Option<LineAnalysis>)
    ensures
        match r {
            Some(a) => spec_analyze(text::spec_lines(content@), text::texts(words@)) == Some(a@),
            None => spec_analyze(text::spec_lines(content@), text::texts(words@)) is None,
        },
{
    let chars = text::chars_of(content);
    let lines = text::lines(chars.as_slice());
    let ghost all = text::slices(lines@);
    let ghost queried = text::texts(words@);
    let mut a = LineAnalysis { def_count: 0, import_count: 0, def_line: None, import_line: None };
    let n: usize = lines.len();
    assert(all.take(0) =~= Seq::empty());
    for i in 0..n
        invariant
            n == lines@.len(),
            chars@ == content@,
            all == text::slices(lines@),
            all == text::spec_lines(content@),
            queried == text::texts(words@),
            a.def_count + a.import_count <= i,
            spec_analyze(all.take(i as int), queried) == Some(a@),
    {
        proof {
            assert(all.take(i + 1).drop_last() =~= all.take(i as int));
            assert(all.take(i + 1).last() == lines@[i as int]@);
        }
        let line = text::string_of(lines[i]);
        let lower = line.as_str().to_lowercase();
        let lower_chars = text::chars_of(lower.as_str());
        match line_matches(lower_chars.as_slice(), words) {
            Some(true) => {
                let t = text::trim(lines[i]);
                let is_import = is_import_line(t);
                let content = text::string_of(t);
                if is_import {
                    a.import_count = a.import_count + 1;
                    if a.import_line.is_none() {
                        a.import_line = Some(ContextLine { line_num: i + 1, content });
                    }
                } else {
                    a.def_count = a.def_count + 1;
                    if a.def_line.is_none() {
                        a.def_line = Some(ContextLine { line_num: i + 1, content });
                    }
                }
            },
            Some(false) => {},
            None => {
                proof {
                    lemma_analyze_none(all, queried, i + 1);
                }
                return None;
            },
        }
    }
    assert(all.take(all.len() as int) =~= all);
    Some(a)
}

/// What the score of an analyzed file is multiplied by.
#[derive(Debug, Clone, Copy, PartialEq, Eq, Structural)]
pub enum FileWeight {
    /// The query occurs in imports only, so the file is likely a consumer: two fifths.
    Consumer,
    /// The query occurs in code and not in imports, so the file is likely an implementation:
    /// thirteen tenths.
    Implementation,
    /// Anything else: one.
    Plain,
}

/// What the score of a file is multiplied by, given what its lines say.
pub open spec fn weight_of(a: AnalysisModel) -> FileWeight {
    if a.def_count == 0 && a.import_count > 0 {
        FileWeight::Consumer
    } else if a.def_count > 0 && a.import_count == 0 {
        FileWeight::Implementation
    } else {
        FileWeight::Plain
    }
}

/// The line that is shown of a file: the first definition, or else the first import.
pub open spec fn line_shown(a: AnalysisModel) -> Option<LineModel> {
    match a.def_line {
        Some(l) => Some(l),
        None => a.import_line,
    }
}

impl LineAnalysis {
    /// What the score of the file is multiplied by.
    pub fn weight(&self) -> (r: FileWeight)
        ensures
            r == weight_of(self@),
    {
        if self.def_count == 0 && self.import_count > 0 {
            FileWeight::Consumer
        } else if self.def_count > 0 && self.import_count == 0 {
            FileWeight::Implementation
        } else {
            FileWeight::Plain
        }
    }

    /// The line to show: the first definition, or else the first import.
    pub fn shown_line(self) -> (r: Option<ContextLine>)
        ensures
            types::line_of(r) == line_shown(self@),
    {
        match self.def_line {
            Some(l) => Some(l),
            None => self.import_line,
        }
    }
}

// ── Ranking ──────────────────────────────────────────────────────────

/// How many of the best matches are analyzed: three times as many as are wanted.
pub fn analysis_count(max_results: u32, matches: usize) -> (r: usize)
    ensures
        r == (if 3 * max_results <= matches {
            3 * max_results as int
        } else {
            matches as int
        }),
{
    let wanted: u64 = max_results as u64 * 3;
    if wanted <= matches as u64 {
        wanted as usize
    } else {
        matches
    }
}

/// The best matches: the places of the highest scores, highest first, level ones as they
/// stand, no more than `most`.
pub fn best(scores: &[u32], most: u32) -> (r: Vec<usize>)
    ensures
        exists|order: Seq<usize>| #[trigger]
            sort::sorts(file_summarizer::score_keys(scores@), order) && r@ == text::first_n(
                order,
                most as int,
            ),
{
    let mut order = file_summarizer::order_by_score(scores);
    let ghost whole = order@;
    if order.len() > most as usize {
        order.truncate(most as usize);
        assert(order@ =~= whole.take(most as int));
    }
    assert(sort::sorts(file_summarizer::score_keys(scores@), whole) && order@ == text::first_n(
        whole,
        most as int,
    ));
    order
}

// ── Laws ─────────────────────────────────────────────────────────────

/// Whether a text in lower case has a word or, where the word has four characters or more, the
/// first four of them.
pub open spec fn mentions_word(t: Seq<char>, w: Seq<char>) -> bool {
    text::has(t, w) || (w.len() >= 4 && text::has(t, w.take(4)))
}

/// Whether a line mentions some word of a query, whatever its case.
pub open spec fn mentions(line: Seq<char>, words: Seq<Seq<char>>) -> bool {
    exists|k: int|
        0 <= k < words.len() && mentions_word(text::lowercase_of(line), #[trigger] words[k])
}

/// Whether all words are of ASCII characters.
pub open spec fn all_ascii(words: Seq<Seq<char>>) -> bool {
    forall|k: int| 0 <= k < words.len() ==> text::ascii(#[trigger] words[k])
}

proof fn lemma_word_or_prefix(t: Seq<char>, w: Seq<char>)
    requires
        text::ascii(w),
    ensures
        spec_word_or_prefix(t, w) == Some(mentions_word(t, w)),
{
    width::lemma_ascii_bytes(w);
    if w.len() >= 4 {
        width::lemma_fitting(w, 4);
        let f = width::fitting(w, 4) as int;
        assert(text::ascii(w.take(4)));
        width::lemma_ascii_bytes(w.take(4));
        assert(text::ascii(w.take(f)));
        width::lemma_ascii_bytes(w.take(f));
    }
}

proof fn lemma_line_matches(line: Seq<char>, words: Seq<Seq<char>>)
    requires
        all_ascii(words),
    ensures
        spec_line_matches(text::lowercase_of(line), words) == Some(mentions(line, words)),
    decreases words.len(),
{
    if words.len() > 0 {
        let t = text::lowercase_of(line);
        lemma_word_or_prefix(t, words[0]);
        assert(all_ascii(words.drop_first())) by {
            assert forall|k: int| 0 <= k < words.drop_first().len() implies text::ascii(
                #[trigger] words.drop_first()[k],
            ) by {
                assert(words.drop_first()[k] == words[k + 1]);
            }
        }
        lemma_line_matches(line, words.drop_first());
        if mentions(line, words.drop_first()) {
            let k = choose|k: int|
                0 <= k < words.drop_first().len() && mentions_word(
                    t,
                    #[trigger] words.drop_first()[k],
                );
            assert(mentions_word(t, words[k + 1]));
        }
        if mentions(line, words) && !mentions_word(t, words[0]) {
            let k = choose|k: int| 0 <= k < words.len() && mentions_word(t, #[trigger] words[k]);
            assert(words.drop_first()[k - 1] == words[k]);
        }
    }
}

/// The first line that mentions a query in some way, counted from one.
pub open spec fn first_such(
    lines: Seq<Seq<char>>,
    such: spec_fn(int) -> bool,
    l: Option<LineModel>,
) -> bool {
    match l {
        Some(l) => 1 <= l.line_num <= lines.len() && such(l.line_num - 1) && (forall|j: int|
            0 <= j < l.line_num - 1 ==> !(#[trigger] such(j))) && l.content == text::spec_trim(
            lines[l.line_num - 1],
        ),
        None => forall|j: int| 0 <= j < lines.len() ==> !(#[trigger] such(j)),
    }
}

/// Whether line `i` mentions a query and imports something.
spec fn hit_import(lines: Seq<Seq<char>>, words: Seq<Seq<char>>, i: int) -> bool {
    mentions(lines[i], words) && import_line(text::spec_trim(lines[i]))
}

/// Whether line `i` mentions a query and imports nothing.
spec fn hit_code(lines: Seq<Seq<char>>, words: Seq<Seq<char>>, i: int) -> bool {
    mentions(lines[i], words) && !import_line(text::spec_trim(lines[i]))
}

proof fn lemma_first_such_more(
    lines: Seq<Seq<char>>,
    before: spec_fn(int) -> bool,
    such: spec_fn(int) -> bool,
    earlier: Option<LineModel>,
)
    requires
        lines.len() > 0,
        forall|j: int|
            #![trigger before(j)]
            #![trigger such(j)]
            0 <= j < lines.len() - 1 ==> before(j) == such(j),
        first_such(lines.drop_last(), before, earlier),
    ensures
        such(lines.len() - 1) ==> first_such(
            lines,
            such,
            first_line(earlier, lines.len(), text::spec_trim(lines.last())),
        ),
        !such(lines.len() - 1) ==> first_such(lines, such, earlier),
{
    match earlier {
        Some(l) => {
            assert(lines.drop_last()[l.line_num - 1] == lines[l.line_num - 1]);
            assert(before(l.line_num - 1) == such(l.line_num - 1));
            assert forall|j: int| 0 <= j < l.line_num - 1 implies !(#[trigger] such(j)) by {
                assert(before(j) == such(j));
            }
        },
        None => {
            assert forall|j: int| 0 <= j < lines.len() - 1 implies !(#[trigger] such(j)) by {
                assert(before(j) == such(j));
            }
        },
    }
}

proof fn lemma_analysis(lines: Seq<Seq<char>>, words: Seq<Seq<char>>)
    requires
        all_ascii(words),
    ensures
        match spec_analyze(lines, words) {
            Some(a) => first_such(lines, |i: int| hit_import(lines, words, i), a.import_line)
                && first_such(lines, |i: int| hit_code(lines, words, i), a.def_line)
                && (a.import_count > 0 <==> a.import_line is Some) && (a.def_count > 0
                <==> a.def_line is Some),
            None => false,
        },
    decreases lines.len(),
{
    if lines.len() > 0 {
        let front = lines.drop_last();
        lemma_analysis(front, words);
        lemma_line_matches(lines.last(), words);
        let a = spec_analyze(front, words)->0;
        let imports_before = |i: int| hit_import(front, words, i);
        let code_before = |i: int| hit_code(front, words, i);
        let imports = |i: int| hit_import(lines, words, i);
        let code = |i: int| hit_code(lines, words, i);
        assert forall|j: int|
            #![trigger imports_before(j)]
            #![trigger imports(j)]
            #![trigger code_before(j)]
            #![trigger code(j)]
            0 <= j < lines.len() - 1 implies imports_before(j) == imports(j) && code_before(j)
            == code(j) by {
            assert(front[j] == lines[j]);
        }
        lemma_first_such_more(lines, imports_before, imports, a.import_line);
        lemma_first_such_more(lines, code_before, code, a.def_line);
    }
}

/// Whether every line that mentions the query begins, trimmed, as an import of some language
/// does: `import `, `from `, `#include`, or a `const` that is taken apart from a `require(`.
pub open spec fn mentioned_in_imports_only(lines: Seq<Seq<char>>, words: Seq<Seq<char>>) -> bool {
    forall|i: int|
        0 <= i < lines.len() && mentions(#[trigger] lines[i], words) ==> {
            let t = text::spec_trim(lines[i]);
            text::begins(t, "import "@) || text::begins(t, "from "@) || text::begins(
                t,
                "#include"@,
            ) || (text::begins(t, "const {"@) && text::has(t, "require("@)) || (text::begins(
                t,
                "const "@,
            ) && text::has(t, "require("@) && text::has(t, "}"@))
        }
}

/// Whether no line that mentions the query begins, trimmed, as an import does or holds a
/// `require(`.
pub open spec fn mentioned_in_code_only(lines: Seq<Seq<char>>, words: Seq<Seq<char>>) -> bool {
    forall|i: int|
        0 <= i < lines.len() && mentions(#[trigger] lines[i], words) ==> {
            let t = text::spec_trim(lines[i]);
            !text::begins(t, "import "@) && !text::begins(t, "from "@) && !text::begins(
                t,
                "#include"@,
            ) && !(text::begins(t, "const "@) && text::has(t, "require("@))
        }
}

/// Whether the line that is shown of a file is the first that mentions the query.
pub open spec fn shows_first_mention(
    lines: Seq<Seq<char>>,
    words: Seq<Seq<char>>,
    l: Option<LineModel>,
) -> bool {
    first_such(lines, |i: int| mentions(lines[i], words), l)
}

proof fn lemma_same_such(
    lines: Seq<Seq<char>>,
    p: spec_fn(int) -> bool,
    q: spec_fn(int) -> bool,
    l: Option<LineModel>,
)
    requires
        first_such(lines, p, l),
        forall|i: int|
            #![trigger p(i)]
            #![trigger q(i)]
            0 <= i < lines.len() ==> p(i) == q(i),
    ensures
        first_such(lines, q, l),
{
    match l {
        Some(l) => {
            assert(p(l.line_num - 1) == q(l.line_num - 1));
            assert forall|j: int| 0 <= j < l.line_num - 1 implies !(#[trigger] q(j)) by {
                assert(p(j) == q(j));
            }
        },
        None => {
            assert forall|j: int| 0 <= j < lines.len() implies !(#[trigger] q(j)) by {
                assert(p(j) == q(j));
            }
        },
    }
}

proof fn lemma_begins_const(t: Seq<char>)
    requires
        text::begins(t, "const {"@),
    ensures
        text::begins(t, "const "@),
{
    reveal_strlit("const {");
    reveal_strlit("const ");
    assert(t.subrange(0, 6) =~= t.subrange(0, 7).subrange(0, 6));
    assert("const {"@.subrange(0, 6) =~= "const "@);
}

/// A file that mentions the query in imports only is weighed as a consumer, and the line that
/// is shown is its first mention.
pub proof fn law_imports_alone_make_a_consumer(
    lines: Seq<Seq<char>>,
    words: Seq<Seq<char>>,
    i: int,
)
    requires
        all_ascii(words),
        0 <= i < lines.len(),
        mentions(lines[i], words),
        mentioned_in_imports_only(lines, words),
    ensures
        match spec_analyze(lines, words) {
            Some(a) => weight_of(a) == FileWeight::Consumer && shows_first_mention(
                lines,
                words,
                line_shown(a),
            ),
            None => false,
        },
{
    lemma_analysis(lines, words);
    let a = spec_analyze(lines, words)->0;
    let imports = |i: int| hit_import(lines, words, i);
    let code = |i: int| hit_code(lines, words, i);
    let any = |i: int| mentions(lines[i], words);
    reveal_strlit("}");
    assert forall|j: int|
        #![trigger imports(j)]
        #![trigger any(j)]
        #![trigger code(j)]
        0 <= j < lines.len() implies imports(j) == any(j) && !code(j) by {
        if mentions(lines[j], words) {
            let t = text::spec_trim(lines[j]);
            if text::has(t, "}"@) {
                text::lemma_has(t, "}"@);
                let k = choose|k: int| text::occurs_at(t, "}"@, k);
                assert(t.subrange(k, k + 1)[0] == "}"@[0]);
                text::lemma_find_char_from(t, '}', 0);
            }
        }
    }
    assert(imports(i));
    assert(a.import_line is Some);
    if a.def_line is Some {
        assert(code(a.def_line->0.line_num - 1));
    }
    lemma_same_such(lines, imports, any, a.import_line);
}

/// A file that mentions the query in code only is weighed as an implementation, and the line that
/// is shown is its first mention.
pub proof fn law_code_alone_makes_an_implementation(
    lines: Seq<Seq<char>>,
    words: Seq<Seq<char>>,
    i: int,
)
    requires
        all_ascii(words),
        0 <= i < lines.len(),
        mentions(lines[i], words),
        mentioned_in_code_only(lines, words),
    ensures
        match spec_analyze(lines, words) {
            Some(a) => weight_of(a) == FileWeight::Implementation && shows_first_mention(
                lines,
                words,
                line_shown(a),
            ),
            None => false,
        },
{
    lemma_analysis(lines, words);
    let a = spec_analyze(lines, words)->0;
    let imports = |i: int| hit_import(lines, words, i);
    let code = |i: int| hit_code(lines, words, i);
    let any = |i: int| mentions(lines[i], words);
    assert forall|j: int|
        #![trigger imports(j)]
        #![trigger any(j)]
        #![trigger code(j)]
        0 <= j < lines.len() implies code(j) == any(j) && !imports(j) by {
        if mentions(lines[j], words) {
            let t = text::spec_trim(lines[j]);
            if text::begins(t, "const {"@) {
                lemma_begins_const(t);
            }
        }
    }
    assert(code(i));
    if a.import_line is Some {
        assert(imports(a.import_line->0.line_num - 1));
    }
    lemma_same_such(lines, code, any, a.def_line);
}

/// A file that mentions the query both in an import and in code is weighed as it is, and so is
/// one that does not mention it; the line that is shown is not an import where there is one
/// that is not.
pub proof fn law_other_files_keep_their_weight(
    lines: Seq<Seq<char>>,
    words: Seq<Seq<char>>,
    i: int,
    j: int,
)
    requires
        all_ascii(words),
        (forall|k: int| 0 <= k < lines.len() ==> !mentions(#[trigger] lines[k], words)) || (0 <= i
            < lines.len() && 0 <= j < lines.len() && mentions(lines[i], words) && mentions(
            lines[j],
            words,
        ) && (text::begins(text::spec_trim(lines[i]), "import "@) || text::begins(
            text::spec_trim(lines[i]),
            "from "@,
        ) || text::begins(text::spec_trim(lines[i]), "#include"@)) && mentioned_in_code_only(
            seq![lines[j]],
            words,
        )),
    ensures
        match spec_analyze(lines, words) {
            Some(a) => weight_of(a) == FileWeight::Plain && (line_shown(a) matches Some(l) ==> !(
            text::begins(l.content, "import "@) || text::begins(l.content, "from "@)
                || text::begins(l.content, "#include"@))),
            None => false,
        },
{
    lemma_analysis(lines, words);
    let a = spec_analyze(lines, words)->0;
    let imports = |i: int| hit_import(lines, words, i);
    let code = |i: int| hit_code(lines, words, i);
    if forall|k: int| 0 <= k < lines.len() ==> !mentions(#[trigger] lines[k], words) {
        if a.import_line is Some {
            assert(imports(a.import_line->0.line_num - 1));
        }
        if a.def_line is Some {
            assert(code(a.def_line->0.line_num - 1));
        }
    } else {
        assert(seq![lines[j]][0] == lines[j]);
        let t = text::spec_trim(lines[j]);
        if text::begins(t, "const {"@) {
            lemma_begins_const(t);
        }
        assert(imports(i));
        assert(code(j));
        assert(code(a.def_line->0.line_num - 1));
    }
}

/// A path counts every word of the query that it has, whole or by its first four characters, and
/// no other.
pub proof fn law_path_words_count(path: Seq<char>, words: Seq<Seq<char>>, w: Seq<char>)
    requires
        all_ascii(words),
        text::ascii(w),
    ensures
        spec_path_hits(path, Seq::empty()) == Some(0nat),
        match (spec_path_hits(path, words), spec_path_hits(path, words.push(w))) {
            (Some(n), Some(more)) => more == n + (if text::has(path, w) || (w.len() >= 4
                && text::has(path, w.take(4))) {
                1nat
            } else {
                0
            }),
            _ => false,
        },
    decreases words.len(),
{
    assert(words.push(w).drop_last() =~= words);
    lemma_word_or_prefix(path, w);
    if words.len() > 0 {
        let front = words.drop_last();
        assert(front.push(words.last()) =~= words);
        assert(all_ascii(front)) by {
            assert forall|k: int| 0 <= k < front.len() implies text::ascii(
                #[trigger] front[k],
            ) by {
                assert(front[k] == words[k]);
            }
        }
        law_path_words_count(path, front, words.last());
    }
}

/// The words of a query are all its words but those of a single ASCII character, in their order.
pub proof fn law_query_words(query: Seq<Seq<char>>, w: Seq<char>)
    ensures
        long_words(Seq::empty()) == Seq::<Seq<char>>::empty(),
        w.len() >= 2 ==> long_words(query.push(w)) == long_words(query).push(w),
        w.len() == 1 && text::ascii(w) ==> long_words(query.push(w)) == long_words(query),
{
    assert(query.push(w).drop_last() =~= query);
    width::lemma_bytes_at_least_chars(w);
    if text::ascii(w) {
        width::lemma_ascii_bytes(w);
    }
}

proof fn lemma_words_in(t: Seq<char>, words: Seq<Seq<char>>)
    ensures
        words_in(t, words) <= words.len(),
        words_in(t, words) == 0 <==> forall|k: int|
            0 <= k < words.len() ==> !text::has(t, #[trigger] words[k]),
        words_in(t, words) == words.len() <==> forall|k: int|
            0 <= k < words.len() ==> text::has(t, #[trigger] words[k]),
    decreases words.len(),
{
    if words.len() > 0 {
        let front = words.drop_last();
        lemma_words_in(t, front);
        assert(words[words.len() - 1] == words.last());
        assert forall|k: int| 0 <= k < front.len() implies #[trigger] front[k] == words[k] by {}
        if words_in(t, words) == 0 {
            assert forall|k: int| 0 <= k < words.len() implies !text::has(
                t,
                #[trigger] words[k],
            ) by {
                if k < front.len() {
                    assert(front[k] == words[k]);
                }
            }
        }
        if words_in(t, words) == words.len() {
            assert forall|k: int| 0 <= k < words.len() implies text::has(t, #[trigger] words[k]) by {
                if k < front.len() {
                    assert(front[k] == words[k]);
                }
            }
        }
    }
}

/// A name that is the query matches best; one that has the query in it comes next; one that has
/// some words of a query of several matches by how many; any other does not match.
pub proof fn law_name_matches(name: Seq<char>, query: Seq<char>, words: Seq<Seq<char>>, w: Seq<char>)
    requires
        words.len() <= usize::MAX,
    ensures
        spec_name_match(query, query, words) == NameMatch::Exact,
        name != query ==> (spec_name_match(name, query, words) == NameMatch::Substring
            <==> text::has(name, query)),
        match spec_name_match(name, query, words) {
            NameMatch::Words { matched, total } => total == words.len() && total >= 2 && matched > 0
                && (matched == total <==> forall|k: int|
                0 <= k < words.len() ==> text::has(name, #[trigger] words[k])),
            NameMatch::Nothing => !text::has(name, query) && (words.len() >= 2 ==> forall|k: int|
                0 <= k < words.len() ==> !text::has(name, #[trigger] words[k])),
            _ => text::has(name, query),
        },
        words_in(name, words.push(w)) == words_in(name, words) + (if text::has(name, w) {
            1nat
        } else {
            0
        }),
{
    assert(words.push(w).drop_last() =~= words);
    lemma_words_in(name, words);
    assert(query.subrange(0, query.len() as int) =~= query);
    text::lemma_has(query, query);
    assert(text::occurs_at(query, query, 0));
}

/// Definitions are boosted, whether their kind is stored by its label or by its name; what is
/// required from elsewhere and exports of up to three lines are not; constants and long exports
/// are left as they are.
pub proof fn law_definitions_outweigh_references(
    row: SymbolRow,
    name_lower: Seq<char>,
    kind: symbol_extractor::SymbolKind,
)
    ensures
        text::has(row.signature@, "require("@) || text::begins(name_lower, "{"@) || text::begins(
            name_lower,
            "["@,
        ) ==> spec_row_weight(row, name_lower) == RowWeight::Reference,
        !text::has(row.signature@, "require("@) && !text::begins(name_lower, "{"@) && !text::begins(
            name_lower,
            "["@,
        ) && row.kind@ == symbol_extractor::spec_label(kind) ==> spec_row_weight(row, name_lower)
            == (match kind {
            symbol_extractor::SymbolKind::Constant => RowWeight::Plain,
            symbol_extractor::SymbolKind::Export => if row.end_line <= row.start_line + 2 {
                RowWeight::Reference
            } else {
                RowWeight::Plain
            },
            _ => RowWeight::Definition,
        }),
{
    reveal_strlit("export");
    reveal_strlit("Export");
    reveal_strlit("const");
    reveal_strlit("function");
    reveal_strlit("async function");
    reveal_strlit("Function");
    reveal_strlit("AsyncFunction");
    reveal_strlit("class");
    reveal_strlit("Class");
    reveal_strlit("method");
    reveal_strlit("Method");
    reveal_strlit("struct");
    reveal_strlit("Struct");
    reveal_strlit("trait");
    reveal_strlit("Trait");
    reveal_strlit("impl");
    reveal_strlit("Impl");
    reveal_strlit("enum");
    reveal_strlit("Enum");
    reveal_strlit("interface");
    reveal_strlit("Interface");
    reveal_strlit("type");
    reveal_strlit("TypeAlias");
    assert("const"@[1] == 'o' && "class"@[1] == 'l' && "Class"@[1] == 'l' && "trait"@[1] == 'r'
        && "Trait"@[1] == 'r');
    assert("export"@[1] == 'x' && "Export"@[1] == 'x' && "method"@[1] == 'e' && "Method"@[1] == 'e'
        && "struct"@[1] == 't' && "Struct"@[1] == 't');
}

/// Rows that agree in two of name, file and first line are told apart by the third.
pub proof fn law_rows_are_told_apart(a: SymbolRow, b: SymbolRow)
    ensures
        a.name@ == b.name@ && a.file_path@ == b.file_path@ ==> (row_key(a) == row_key(b)
            <==> a.start_line == b.start_line),
        a.name@ == b.name@ && a.start_line == b.start_line ==> (row_key(a) == row_key(b)
            <==> a.file_path@ == b.file_path@),
        a.file_path@ == b.file_path@ && a.start_line == b.start_line ==> (row_key(a) == row_key(b)
            <==> a.name@ == b.name@),
{
    if row_key(a) == row_key(b) {
        let x = numerals::spec_decimal(a.start_line as nat);
        let y = numerals::spec_decimal(b.start_line as nat);
        let p = a.name@ + ":"@ + a.file_path@ + ":"@;
        let q = b.name@ + ":"@ + b.file_path@ + ":"@;
        if a.name@ == b.name@ && a.file_path@ == b.file_path@ {
            assert(x =~= row_key(a).skip(p.len() as int));
            assert(y =~= row_key(b).skip(q.len() as int));
            numerals::law_decimals_differ(a.start_line as nat, b.start_line as nat);
        } else if a.name@ == b.name@ && a.start_line == b.start_line {
            let n = (a.name@ + ":"@).len() as int;
            let m = row_key(a).len() - x.len() - ":"@.len();
            assert(a.file_path@ =~= row_key(a).subrange(n, m));
            assert(b.file_path@ =~= row_key(b).subrange(n, m));
        } else if a.file_path@ == b.file_path@ && a.start_line == b.start_line {
            let m = row_key(a).len() - (":"@ + a.file_path@ + ":"@ + x).len();
            assert(a.name@ =~= row_key(a).take(m));
            assert(b.name@ =~= row_key(b).take(m));
        }
    }
}

/// Whether a row with the key of row `i`, and not behind it, is among the places that are kept.
pub open spec fn stands_for(rows: Seq<SymbolRow>, kept: Seq<int>, i: int) -> bool {
    exists|a: int|
        0 <= a < kept.len() && 0 <= #[trigger] kept[a] <= i && row_key(rows[kept[a]]) == row_key(
            rows[i],
        )
}

/// Whether places rise, and no two of the rows at them have the same key.
pub open spec fn apart(rows: Seq<SymbolRow>, kept: Seq<int>) -> bool {
    forall|a: int, b: int|
        #![trigger kept[a], kept[b]]
        0 <= a < b < kept.len() ==> 0 <= kept[a] < kept[b] < rows.len() && row_key(rows[kept[a]])
            != row_key(rows[kept[b]])
}

/// Merging keeps the first of the rows with the same key and no other: every row has one that is
/// kept and does not come after it, and the places that are kept rise.
pub proof fn law_merged_rows(rows: Seq<SymbolRow>, i: int)
    requires
        0 <= i < rows.len(),
    ensures
        apart(rows, first_rows(rows)),
        stands_for(rows, first_rows(rows), i),
        (forall|j: int| 0 <= j < i ==> row_key(#[trigger] rows[j]) != row_key(rows[i]))
            ==> first_rows(rows).contains(i),
{
    let kept = first_rows(rows);
    lemma_rows_kept(rows);
    assert(stands_for(rows, kept, i));
    let a = choose|a: int|
        0 <= a < kept.len() && 0 <= #[trigger] kept[a] <= i && row_key(rows[kept[a]]) == row_key(
            rows[i],
        );
    if forall|j: int| 0 <= j < i ==> row_key(#[trigger] rows[j]) != row_key(rows[i]) {
        assert(kept[a] == i);
    }
}

proof fn lemma_rows_kept(rows: Seq<SymbolRow>)
    ensures
        forall|a: int|
            0 <= a < first_rows(rows).len() ==> 0 <= #[trigger] first_rows(rows)[a] < rows.len(),
        apart(rows, first_rows(rows)),
        forall|i: int| 0 <= i < rows.len() ==> #[trigger] stands_for(rows, first_rows(rows), i),
    decreases rows.len(),
{
    if rows.len() > 0 {
        let front = rows.drop_last();
        let last = rows.last();
        lemma_rows_kept(front);
        let before = first_rows(front);
        let kept = first_rows(rows);
        let known = exists|i: int| 0 <= i < front.len() && row_key(#[trigger] front[i]) == row_key(
            last,
        );
        assert forall|a: int, b: int|
            #![trigger kept[a], kept[b]]
            0 <= a < b < kept.len() implies 0 <= kept[a] < kept[b] < rows.len() && row_key(
            rows[kept[a]],
        ) != row_key(rows[kept[b]]) by {
            assert(kept[a] == before[a]);
            assert(rows[before[a]] == front[before[a]]);
            if b < before.len() {
                assert(kept[b] == before[b]);
                assert(rows[before[b]] == front[before[b]]);
            } else {
                assert(row_key(front[before[a]]) != row_key(last));
            }
        }
        assert forall|i: int| 0 <= i < rows.len() implies #[trigger] stands_for(rows, kept, i) by {
            if i < front.len() || known {
                let j = if i < front.len() {
                    i
                } else {
                    choose|j: int|
                        0 <= j < front.len() && row_key(#[trigger] front[j]) == row_key(last)
                };
                assert(front[j] == rows[j]);
                assert(stands_for(front, before, j));
                let a = choose|a: int|
                    0 <= a < before.len() && 0 <= #[trigger] before[a] <= j && row_key(
                        front[before[a]],
                    ) == row_key(front[j]);
                assert(kept[a] == before[a]);
                assert(front[before[a]] == rows[before[a]]);
            } else {
                assert(kept[before.len() as int] == i);
            }
        }
    }
}

/// A row is shown with its kind in short, its name and its lines; with its signature unless only
/// pointers are asked for; and with its code, where that is asked for and there is some.
pub proof fn law_row_shows_what_is_asked_for(row: SymbolRow, code: Seq<char>)
    requires
        width::bytes_of(row.signature@) <= 80,
    ensures
        ({
            let lines = "L"@ + numerals::spec_decimal(row.start_line as nat) + "-"@
                + numerals::spec_decimal(row.end_line as nat);
            let pointer = spec_row_line(row, Detail::Pointers, code)->0;
            let signed = spec_row_line(row, Detail::Signatures, code)->0;
            &&& pointer == "["@ + symbol_extractor::spec_abbreviate_kind(row.kind@) + "] "@
                + row.name@ + " "@ + lines
            &&& signed == pointer + ": "@ + row.signature@
            &&& spec_row_line(row, Detail::Code, Seq::empty())->0 == signed
            &&& code.len() > 0 ==> spec_row_line(row, Detail::Code, code)->0 == signed + "\n"@ + code
        }),
{
    reveal_strlit(" L");
    reveal_strlit(" ");
    reveal_strlit("L");
    assert(" L"@ =~= " "@ + "L"@);
    let k = "["@ + symbol_extractor::spec_abbreviate_kind(row.kind@) + "] "@ + row.name@;
    let d = numerals::spec_decimal(row.start_line as nat);
    let e = numerals::spec_decimal(row.end_line as nat);
    assert(k + " L"@ + d + "-"@ + e =~= k + " "@ + ("L"@ + d + "-"@ + e));
}

/// The code of a row whose lines the file has is those lines of the file, the first and the last
/// of them among it; where the file ends before, it is what there is.
pub proof fn law_row_code_is_its_lines(row: SymbolRow, content: Seq<char>)
    requires
        1 <= row.start_line <= row.end_line,
    ensures
        ({
            let lines = text::spec_lines(content);
            let first = row.start_line - 1;
            &&& row.end_line <= lines.len() ==> spec_row_code(row, content) == text::spec_join(
                lines.skip(first).take(row.end_line - first),
                "\n"@,
            )
            &&& first < lines.len() <= row.end_line ==> spec_row_code(row, content)
                == text::spec_join(lines.skip(first), "\n"@)
            &&& first >= lines.len() ==> spec_row_code(row, content).len() == 0
        }),
{
    let lines = text::spec_lines(content);
    let first = row.start_line - 1;
    if row.end_line <= lines.len() {
        assert(lines.skip(first).take(row.end_line - first) =~= lines.subrange(
            first,
            row.end_line as int,
        ));
    } else if first < lines.len() {
        assert(lines.skip(first) =~= lines.subrange(first, lines.len() as int));
    }
}

/// A signature of more than eighty bytes is cut at eighty where a row is shown with it.
pub proof fn law_shown_signatures_are_cut(row: SymbolRow, code: Seq<char>)
    ensures
        match (
            spec_row_line(row, Detail::Signatures, code),
            width::spec_truncate_signature(row.signature@, 80),
        ) {
            (Some(line), Some(sig)) => line == spec_row_line(row, Detail::Pointers, code)->0 + ": "@
                + sig,
            (None, None) => true,
            _ => false,
        },
{
}

/// A kind that is stored by its name rather than by its label counts the same: definitions are
/// boosted, and exports of up to three lines are references.
pub proof fn law_kinds_are_known_by_name(row: SymbolRow, name_lower: Seq<char>)
    requires
        !text::has(row.signature@, "require("@),
        !text::begins(name_lower, "{"@) && !text::begins(name_lower, "["@),
    ensures
        row.kind@ == "Function"@ || row.kind@ == "AsyncFunction"@ || row.kind@ == "Class"@
            || row.kind@ == "Method"@ || row.kind@ == "Struct"@ || row.kind@ == "Trait"@ || row.kind@
            == "Impl"@ || row.kind@ == "Enum"@ || row.kind@ == "Interface"@ || row.kind@
            == "TypeAlias"@ ==> spec_row_weight(row, name_lower) == RowWeight::Definition,
        row.kind@ == "Export"@ && row.end_line <= row.start_line + 2 ==> spec_row_weight(
            row,
            name_lower,
        ) == RowWeight::Reference,
        row.kind@ == "Export"@ && row.end_line > row.start_line + 2 ==> spec_row_weight(
            row,
            name_lower,
        ) == RowWeight::Plain,
{
    reveal_strlit("export");
    reveal_strlit("Export");
    reveal_strlit("const");
    reveal_strlit("function");
    reveal_strlit("async function");
    reveal_strlit("Function");
    reveal_strlit("AsyncFunction");
    reveal_strlit("class");
    reveal_strlit("Class");
    reveal_strlit("method");
    reveal_strlit("Method");
    reveal_strlit("struct");
    reveal_strlit("Struct");
    reveal_strlit("trait");
    reveal_strlit("Trait");
    reveal_strlit("impl");
    reveal_strlit("Impl");
    reveal_strlit("enum");
    reveal_strlit("Enum");
    reveal_strlit("interface");
    reveal_strlit("Interface");
    reveal_strlit("type");
    reveal_strlit("TypeAlias");
    assert("const"@[1] == 'o' && "class"@[1] == 'l' && "Class"@[1] == 'l' && "trait"@[1] == 'r'
        && "Trait"@[1] == 'r');
    assert("export"@[1] == 'x' && "Export"@[1] == 'x' && "method"@[1] == 'e' && "Method"@[1] == 'e'
        && "struct"@[1] == 't' && "Struct"@[1] == 't');
}

} // verus!
