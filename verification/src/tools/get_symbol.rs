//! Code of a symbol by its name: from the index, from syntax trees, or from the text.

use crate::indexer::config;
use crate::indexer::pipeline;
use crate::indexer::symbol_extractor;
use crate::indexer::symbol_extractor::{Symbol, SymbolModel};
use crate::numerals;
use crate::path;
use crate::text;
use crate::width;
use vstd::prelude::*;

verus! {

/// Whether a text of the index answers a request: it says something, and not that there are only
/// similar symbols.
pub open spec fn answers(t: Seq<char>) -> bool {
    t.len() > 0 && !text::begins(t, "No exact match"@)
}

/// Get a specific symbol (function, class, struct) by name: the answer of the index, unless
/// there is none or it only names similar symbols. Without an answer the files are searched.
pub fn get_symbol(indexed: Option<String>) -> (r: Option<String>)
    ensures
        match indexed {
            Some(t) => if answers(t@) {
                r == Some(t)
            } else {
                r is None
            },
            None => r is None,
        },
{
    match indexed {
        Some(t) => {
            let chars = text::chars_of(t.as_str());
            if chars.len() > 0 && !text::starts_with(chars.as_slice(), "No exact match") {
                Some(t)
            } else {
                None
            }
        },
        None => None,
    }
}

/// The text of an optional string.
pub open spec fn text_of(t: Option<String>) -> Option<Seq<char>> {
    match t {
        Some(x) => Some(x@),
        None => None,
    }
}

// ── Listings ─────────────────────────────────────────────────────────

/// The line at an index, or an empty one behind the last.
pub open spec fn line_at(lines: Seq<Seq<char>>, i: int) -> Seq<char> {
    if i < lines.len() {
        lines[i]
    } else {
        Seq::empty()
    }
}

/// The lines from `a` to before `b`, each with a line feed behind it.
pub open spec fn lines_between(lines: Seq<Seq<char>>, a: int, b: int) -> Seq<char>
    decreases b - a,
{
    if a >= b {
        Seq::empty()
    } else {
        lines_between(lines, a, b - 1) + line_at(lines, b - 1) + "\n"@
    }
}

/// The lines from `a` to before `b`; if there are more than `most`, and `most` is not zero,
/// the first of them and how many are left out. There is no listing that ends before it
/// starts.
pub open spec fn spec_listing(lines: Seq<Seq<char>>, a: int, b: int, most: int) -> Option<
    Seq<char>,
> {
    if b < a {
        None
    } else if most > 0 && b - a > most {
        Some(
            lines_between(lines, a, a + most) + "// ... +"@ + numerals::spec_decimal(
                (b - a - most) as nat,
            ) + " more lines (pass max_lines=0 for full)\n"@,
        )
    } else {
        Some(lines_between(lines, a, b))
    }
}

fn write_lines(lines: &Vec<&[char]>, a: usize, b: usize) -> (r: String)
    requires
        a <= b,
    ensures
        r@ == lines_between(text::slices(lines@), a as int, b as int),
{
    let ghost all = text::slices(lines@);
    let mut out = String::new();
    assert(out@ =~= Seq::empty());
    let mut i: usize = a;
    while i < b
        invariant
            a <= i <= b,
            all == text::slices(lines@),
            out@ == lines_between(all, a as int, i as int),
        decreases b - i,
    {
        if i < lines.len() {
            assert(all[i as int] == lines@[i as int]@);
            let line = text::string_of(lines[i]);
            out = out.concat(line.as_str()).concat("\n");
        } else {
            assert(out@ + Seq::<char>::empty() =~= out@);
            out = out.concat("\n");
        }
        i = i + 1;
    }
    out
}

fn write_listing(lines: &Vec<&[char]>, a: usize, b: usize, most: usize) -> (r: Option<String>)
    ensures
        text_of(r) == spec_listing(text::slices(lines@), a as int, b as int, most as int),
{
    if b < a {
        return None;
    }
    if most > 0 && b - a > most {
        let rest = numerals::decimal_usize(b - a - most);
        Some(
            write_lines(lines, a, a + most).concat("// ... +").concat(rest.as_str()).concat(
                " more lines (pass max_lines=0 for full)\n",
            ),
        )
    } else {
        Some(write_lines(lines, a, b))
    }
}

/// The heading of a symbol.
pub open spec fn heading(
    kind: Seq<char>,
    name: Seq<char>,
    file: Seq<char>,
    start: Seq<char>,
    end: Seq<char>,
) -> Seq<char> {
    "["@ + kind + "] "@ + name + " in "@ + file + " L"@ + start + "-"@ + end + "\n"@
}

fn write_heading(kind: &str, name: &str, file: &str, start: &str, end: &str) -> (r: String)
    ensures
        r@ == heading(kind@, name@, file@, start@, end@),
{
    text::owned("[").concat(kind).concat("] ").concat(name).concat(" in ").concat(file).concat(
        " L",
    ).concat(start).concat("-").concat(end).concat("\n")
}

// ── Rows of the index ────────────────────────────────────────────────

/// A symbol as the index stores it.
#[derive(Debug)]
pub struct IndexRow {
    pub name: String,
    pub kind: String,
    pub start_line: i64,
    pub end_line: i64,
    pub signature: String,
    pub relative_path: String,
}

/// Whether a row is an export of a few lines.
pub open spec fn small_export(row: IndexRow) -> bool {
    (row.kind@ == "Export"@ || row.kind@ == "export"@) && row.end_line - row.start_line < 5
}

/// Whether a row is an export of a few lines, which points to a function defined elsewhere in
/// the file.
pub fn needs_resolution(kind: &str, start_line: i64, end_line: i64) -> (r: bool)
    ensures
        r == ((kind@ == "Export"@ || kind@ == "export"@) && end_line - start_line < 5),
{
    (text::same(kind, "Export") || text::same(kind, "export")) && (end_line as i128) - (
    start_line as i128) < 5
}

/// Whether two rows are for the same line of the same file.
pub open spec fn same_place(a: IndexRow, b: IndexRow) -> bool {
    a.relative_path@ == b.relative_path@ && a.start_line == b.start_line
}

/// The places of the rows that no earlier row stands for.
pub open spec fn first_rows(rows: Seq<IndexRow>) -> Seq<int>
    decreases rows.len(),
{
    if rows.len() == 0 {
        Seq::empty()
    } else {
        let front = rows.drop_last();
        if exists|i: int| 0 <= i < front.len() && same_place(#[trigger] front[i], rows.last()) {
            first_rows(front)
        } else {
            first_rows(front).push(front.len() as int)
        }
    }
}

fn seen_before(rows: &[IndexRow], i: usize) -> (r: bool)
    requires
        i < rows@.len(),
    ensures
        r == exists|j: int| 0 <= j < i && same_place(#[trigger] rows@[j], rows@[i as int]),
{
    for j in 0..i
        invariant
            i < rows@.len(),
            forall|k: int| 0 <= k < j ==> !same_place(#[trigger] rows@[k], rows@[i as int]),
    {
        if text::same(rows[j].relative_path.as_str(), rows[i].relative_path.as_str())
            && rows[j].start_line == rows[i].start_line {
            assert(same_place(rows@[j as int], rows@[i as int]));
            return true;
        }
    }
    false
}

/// Deduplicate rows by file and first line: the places of the rows to keep.
pub fn distinct_rows(rows: &[IndexRow]) -> (r: Vec<usize>)
    ensures
        r@.map_values(|k: usize| k as int) == first_rows(rows@),
        forall|i: int| 0 <= i < r@.len() ==> #[trigger] r@[i] < rows@.len(),
{
    let mut out: Vec<usize> = Vec::new();
    assert(rows@.take(0) =~= Seq::empty());
    assert(out@.map_values(|k: usize| k as int) =~= Seq::empty());
    for i in 0..rows.len()
        invariant
            forall|k: int| 0 <= k < out@.len() ==> #[trigger] out@[k] < rows@.len(),
            out@.map_values(|k: usize| k as int) == first_rows(rows@.take(i as int)),
    {
        let ghost front = rows@.take(i as int);
        let seen = seen_before(rows, i);
        proof {
            assert(rows@.take(i + 1).drop_last() =~= front);
            if seen {
                let j = choose|j: int|
                    0 <= j < i && same_place(#[trigger] rows@[j], rows@[i as int]);
                assert(same_place(front[j], rows@[i as int]));
            } else {
                assert forall|j: int| 0 <= j < front.len() implies !same_place(
                    #[trigger] front[j],
                    rows@[i as int],
                ) by {
                    assert(front[j] == rows@[j]);
                }
            }
        }
        if !seen {
            let ghost done = out@.map_values(|k: usize| k as int);
            out.push(i);
            assert(out@.map_values(|k: usize| k as int) =~= done.push(i as int));
        }
    }
    assert(rows@.take(rows@.len() as int) =~= rows@);
    out
}

/// A line number of the index as a count: a negative one counts as zero, one that is too
/// large as the largest.
pub open spec fn count_of(n: i64) -> int {
    if n < 0 {
        0
    } else if n > usize::MAX {
        usize::MAX as int
    } else {
        n as int
    }
}

fn to_count(n: i64) -> (r: usize)
    ensures
        r == count_of(n),
{
    if n < 0 {
        0
    } else if n as u64 <= usize::MAX as u64 {
        n as usize
    } else {
        usize::MAX
    }
}

/// What is shown of a row: its heading, its lines of the file where that could be read, and a
/// blank line. There is no answer where the lines would end before they start.
pub open spec fn spec_row_block(row: IndexRow, content: Option<Seq<char>>, max_lines: nat) -> Option<
    Seq<char>,
> {
    let head = heading(
        symbol_extractor::spec_abbreviate_kind(row.kind@),
        row.name@,
        row.relative_path@,
        numerals::spec_signed(row.start_line as int),
        numerals::spec_signed(row.end_line as int),
    );
    match content {
        Some(c) => {
            let lines = text::spec_lines(c);
            let start = if count_of(row.start_line) == 0 {
                0
            } else {
                count_of(row.start_line) - 1
            };
            let end = if count_of(row.end_line) <= lines.len() {
                count_of(row.end_line)
            } else {
                lines.len() as int
            };
            match spec_listing(lines, start, end, max_lines as int) {
                Some(t) => Some(head + t + "\n"@),
                None => None,
            }
        },
        None => Some(head + "\n"@),
    }
}

/// What is shown of a row, given the content of its file where that could be read.
pub fn row_block(row: &IndexRow, content: Option<&str>, max_lines: usize) -> (r: Option<String>)
    ensures
        text_of(r) == spec_row_block(
            *row,
            match content {
                Some(c) => Some(c@),
                None => None,
            },
            max_lines as nat,
        ),
{
    let kind = symbol_extractor::abbreviate_kind(row.kind.as_str());
    let first = numerals::signed(row.start_line);
    let last = numerals::signed(row.end_line);
    let head = write_heading(
        kind.as_str(),
        row.name.as_str(),
        row.relative_path.as_str(),
        first.as_str(),
        last.as_str(),
    );
    match content {
        Some(c) => {
            let chars = text::chars_of(c);
            let lines = text::lines(chars.as_slice());
            assert(text::slices(lines@).len() == lines@.len());
            let from: usize = to_count(row.start_line);
            let start: usize = if from == 0 {
                0
            } else {
                from - 1
            };
            let to: usize = to_count(row.end_line);
            let end: usize = if to <= lines.len() {
                to
            } else {
                lines.len()
            };
            match write_listing(&lines, start, end, max_lines) {
                Some(t) => Some(head.concat(t.as_str()).concat("\n")),
                None => None,
            }
        },
        None => Some(head.concat("\n")),
    }
}

/// What is shown of the similar symbols, one line each, unless a signature cannot be cut.
pub open spec fn similar_lines(rows: Seq<IndexRow>) -> Option<Seq<char>>
    decreases rows.len(),
{
    if rows.len() == 0 {
        Some(Seq::empty())
    } else {
        let row = rows.last();
        match (
            similar_lines(rows.drop_last()),
            width::spec_truncate_signature(row.signature@, 80),
        ) {
            (Some(before), Some(sig)) => Some(
                before + "- ["@ + symbol_extractor::spec_abbreviate_kind(row.kind@) + "] "@
                    + row.name@ + " in "@ + row.relative_path@ + " L"@ + numerals::spec_signed(
                    row.start_line as int,
                ) + "-"@ + numerals::spec_signed(row.end_line as int) + ": "@ + sig + "\n"@,
            ),
            _ => None,
        }
    }
}

proof fn lemma_similar_none(rows: Seq<IndexRow>, i: int)
    requires
        0 <= i <= rows.len(),
        similar_lines(rows.take(i)) is None,
    ensures
        similar_lines(rows) is None,
    decreases rows.len() - i,
{
    if i == rows.len() {
        assert(rows.take(i) =~= rows);
    } else {
        assert(rows.take(i + 1).drop_last() =~= rows.take(i));
        lemma_similar_none(rows, i + 1);
    }
}

/// The answer of an index without an exact match: the similar symbols, or nothing where there
/// are none.
pub open spec fn spec_similar(name: Seq<char>, rows: Seq<IndexRow>) -> Option<Seq<char>> {
    if rows.len() == 0 {
        Some(Seq::empty())
    } else {
        match similar_lines(rows) {
            Some(t) => Some("No exact match for '"@ + name + "'. Similar:\n\n"@ + t),
            None => None,
        }
    }
}

/// The answer of an index without an exact match: the similar symbols, or nothing where there
/// are none.
pub fn similar_symbols(name: &str, rows: &[IndexRow]) -> (r: Option<String>)
    ensures
        text_of(r) == spec_similar(name@, rows@),
{
    let mut list = String::new();
    assert(list@ =~= Seq::empty());
    if rows.len() == 0 {
        return Some(list);
    }
    assert(rows@.take(0) =~= Seq::empty());
    for i in 0..rows.len()
        invariant
            rows@.len() > 0,
            similar_lines(rows@.take(i as int)) == Some(list@),
    {
        let row = &rows[i];
        proof {
            assert(rows@.take(i + 1).drop_last() =~= rows@.take(i as int));
            assert(rows@.take(i + 1).last() == *row);
        }
        match width::truncate_signature(row.signature.as_str(), 80) {
            Some(sig) => {
                let kind = symbol_extractor::abbreviate_kind(row.kind.as_str());
                let first = numerals::signed(row.start_line);
                let last = numerals::signed(row.end_line);
                list = list.concat("- [").concat(kind.as_str()).concat("] ").concat(
                    row.name.as_str(),
                ).concat(" in ").concat(row.relative_path.as_str()).concat(" L").concat(
                    first.as_str(),
                ).concat("-").concat(last.as_str()).concat(": ").concat(sig.as_str()).concat("\n");
            },
            None => {
                proof {
                    lemma_similar_none(rows@, i + 1);
                }
                return None;
            },
        }
    }
    assert(rows@.take(rows@.len() as int) =~= rows@);
    Some(
        text::owned("No exact match for '").concat(name).concat("'. Similar:\n\n").concat(
            list.as_str(),
        ),
    )
}

/// What became of the file of a row.
#[derive(Debug)]
pub enum RowFile {
    /// Its path could not be resolved, for a reason.
    Unresolved(String),
    /// Its path lies outside of the project.
    Outside,
    /// It could not be read.
    Unreadable,
    /// It was read.
    Content(String),
}

/// Why an index has no answer.
#[derive(Debug)]
pub enum IndexError {
    /// The path of a row could not be resolved.
    Unresolved { path: String, reason: String },
    /// The path of a row lies outside of the project.
    Outside { path: String },
}

impl IndexError {
    /// What the error says.
    pub open spec fn spec_message(self) -> Seq<char> {
        match self {
            IndexError::Unresolved { path, reason } => "Cannot resolve path "@ + path@ + ": "@
                + reason@,
            IndexError::Outside { path } => "Path escapes project directory: "@ + path@,
        }
    }

    /// What the error says.
    pub fn message(&self) -> (r: String)
        ensures
            r@ == self.spec_message(),
    {
        match self {
            IndexError::Unresolved { path, reason } => text::owned("Cannot resolve path ").concat(
                path.as_str(),
            ).concat(": ").concat(reason.as_str()),
            IndexError::Outside { path } => text::owned(
                "Path escapes project directory: ",
            ).concat(path.as_str()),
        }
    }
}

/// How far the answer of an index has come.
pub enum IndexAnswer {
    /// A text.
    Text(Seq<char>),
    /// The file of the row at a place stopped it.
    Stopped(int),
    /// The lines of a row end before they start.
    Backwards,
}

/// The content of a row's file, where it was read.
pub open spec fn content_of(file: RowFile) -> Option<Seq<char>> {
    match file {
        RowFile::Content(c) => Some(c@),
        _ => None,
    }
}

/// The answer of an index for the rows at given places.
pub open spec fn spec_answer(
    rows: Seq<IndexRow>,
    files: Seq<RowFile>,
    places: Seq<int>,
    max_lines: nat,
) -> IndexAnswer
    decreases places.len(),
{
    if places.len() == 0 {
        IndexAnswer::Text(Seq::empty())
    } else {
        let k = places.last();
        match spec_answer(rows, files, places.drop_last(), max_lines) {
            IndexAnswer::Text(before) => match files[k] {
                RowFile::Unresolved(_) => IndexAnswer::Stopped(k),
                RowFile::Outside => IndexAnswer::Stopped(k),
                _ => match spec_row_block(rows[k], content_of(files[k]), max_lines) {
                    Some(block) => IndexAnswer::Text(before + block),
                    None => IndexAnswer::Backwards,
                },
            },
            other => other,
        }
    }
}

proof fn lemma_answer_stays(
    rows: Seq<IndexRow>,
    files: Seq<RowFile>,
    places: Seq<int>,
    max_lines: nat,
    n: int,
)
    requires
        0 <= n <= places.len(),
        !(spec_answer(rows, files, places.take(n), max_lines) is Text),
    ensures
        spec_answer(rows, files, places, max_lines) == spec_answer(
            rows,
            files,
            places.take(n),
            max_lines,
        ),
    decreases places.len(),
{
    if n == places.len() {
        assert(places.take(n) =~= places);
    } else {
        assert(places.drop_last().take(n) =~= places.take(n));
        lemma_answer_stays(rows, files, places.drop_last(), max_lines, n);
    }
}

/// Whether `e` is the error of a row whose file stopped the answer.
pub open spec fn stopped_by(e: IndexError, row: IndexRow, file: RowFile) -> bool {
    match file {
        RowFile::Unresolved(why) => e matches IndexError::Unresolved { path, reason } && path@
            == row.relative_path@ && reason@ == why@,
        RowFile::Outside => e matches IndexError::Outside { path } && path@ == row.relative_path@,
        _ => false,
    }
}

/// The answer of an index: the code of the rows that it has for a name, each place once, or
/// else the similar symbols. `files` say what became of the file of each row. The inner result
/// is missing where the lines of a row would end before they start, or where a signature would
/// be cut inside a character.
pub fn get_from_index(
    name: &str,
    rows: &[IndexRow],
    files: &[RowFile],
    similar: &[IndexRow],
    max_lines: usize,
) -> (r: Result<Option<String>, IndexError>)
    requires
        files@.len() == rows@.len(),
    ensures
        rows@.len() == 0 ==> (r matches Ok(t) && text_of(t) == spec_similar(name@, similar@)),
        rows@.len() > 0 ==> match (
            r,
            spec_answer(rows@, files@, first_rows(rows@), max_lines as nat),
        ) {
            (Ok(Some(t)), IndexAnswer::Text(u)) => t@ == u,
            (Ok(None), IndexAnswer::Backwards) => true,
            (Err(e), IndexAnswer::Stopped(k)) => stopped_by(e, rows@[k], files@[k]),
            _ => false,
        },
{
    if rows.len() == 0 {
        return Ok(similar_symbols(name, similar));
    }
    let kept = distinct_rows(rows);
    let ghost places = first_rows(rows@);
    let mut out = String::new();
    assert(out@ =~= Seq::empty());
    assert(places.take(0) =~= Seq::empty());
    for i in 0..kept.len()
        invariant
            rows@.len() > 0,
            files@.len() == rows@.len(),
            places == first_rows(rows@),
            places == kept@.map_values(|k: usize| k as int),
            forall|i: int| 0 <= i < kept@.len() ==> #[trigger] kept@[i] < rows@.len(),
            spec_answer(rows@, files@, places.take(i as int), max_lines as nat)
                == IndexAnswer::Text(out@),
    {
        let k: usize = kept[i];
        proof {
            assert(places[i as int] == k);
            assert(places.take(i + 1).drop_last() =~= places.take(i as int));
            assert(places.take(i + 1).last() == k);
        }
        let row = &rows[k];
        let content: Option<&str> = match &files[k] {
            RowFile::Unresolved(why) => {
                proof {
                    lemma_answer_stays(rows@, files@, places, max_lines as nat, i + 1);
                }
                return Err(
                    IndexError::Unresolved {
                        path: row.relative_path.clone(),
                        reason: why.clone(),
                    },
                );
            },
            RowFile::Outside => {
                proof {
                    lemma_answer_stays(rows@, files@, places, max_lines as nat, i + 1);
                }
                return Err(IndexError::Outside { path: row.relative_path.clone() });
            },
            RowFile::Unreadable => None,
            RowFile::Content(c) => Some(c.as_str()),
        };
        match row_block(row, content, max_lines) {
            Some(block) => {
                out = out.concat(block.as_str());
            },
            None => {
                proof {
                    lemma_answer_stays(rows@, files@, places, max_lines as nat, i + 1);
                }
                return Ok(None);
            },
        }
    }
    assert(places.take(places.len() as int) =~= places);
    Ok(Some(out))
}

/// The rows of a name, where the export of a few lines is replaced by the function that it
/// stands for, if there is one.
pub open spec fn resolved(rows: Seq<IndexRow>, found: Seq<Option<IndexRow>>) -> Seq<IndexRow> {
    Seq::new(
        rows.len(),
        |i: int|
            if small_export(rows[i]) && found[i] is Some {
                found[i]->0
            } else {
                rows[i]
            },
    )
}

/// Resolve exports with small spans to the functions that were found for them.
pub fn resolve_exports(rows: Vec<IndexRow>, found: Vec<Option<IndexRow>>) -> (r: Vec<IndexRow>)
    requires
        found@.len() == rows@.len(),
    ensures
        r@ == resolved(rows@, found@),
{
    let ghost first = rows@;
    let ghost options = found@;
    let mut out = rows;
    let mut rest = found;
    let n: usize = out.len();
    for i in 0..n
        invariant
            n == first.len(),
            out@.len() == first.len(),
            rest@.len() == first.len(),
            options.len() == first.len(),
            forall|k: int| 0 <= k < i ==> #[trigger] out@[k] == resolved(first, options)[k],
            forall|k: int| i <= k < first.len() ==> #[trigger] out@[k] == first[k],
            forall|k: int| i <= k < first.len() ==> #[trigger] rest@[k] == options[k],
    {
        if needs_resolution(out[i].kind.as_str(), out[i].start_line, out[i].end_line) {
            let mut taken: Option<IndexRow> = None;
            std::mem::swap(&mut rest[i], &mut taken);
            match taken {
                Some(row) => {
                    out.set(i, row);
                },
                None => {},
            }
        }
    }
    assert(out@ =~= resolved(first, options));
    out
}

/// Whether a resolved path lies within the resolved project directory.
pub fn within_project(resolved: &str, project: &str) -> (r: bool)
    ensures
        r == path::spec_starts_with(resolved@, project@),
{
    let p = text::chars_of(resolved);
    let base = text::chars_of(project);
    path::starts_with(p.as_slice(), base.as_slice())
}

// ── Symbols of files ─────────────────────────────────────────────────

/// Whether a file is searched for symbols: its path has the hint, if there is one, and its
/// language has a grammar.
pub open spec fn searched(file: Seq<char>, ext: Seq<char>, hint: Option<Seq<char>>) -> bool {
    &&& match hint {
        Some(h) => text::has(text::lowercase_of(file), text::lowercase_of(h)),
        None => true,
    }
    &&& config::ast_extension(ext)
}

/// The text of an optional hint.
pub open spec fn hint_of(hint: Option<&str>) -> Option<Seq<char>> {
    match hint {
        Some(h) => Some(h@),
        None => None,
    }
}

fn is_searched(file: &str, ext: &str, hint: Option<&str>) -> (r: bool)
    ensures
        r == searched(file@, ext@, hint_of(hint)),
{
    let hinted = match hint {
        Some(h) => {
            let lower = file.to_lowercase();
            let wanted = h.to_lowercase();
            text::str_contains(lower.as_str(), wanted.as_str())
        },
        None => true,
    };
    hinted && config::has_ast_support(ext)
}

/// What is shown of a symbol of a file.
pub open spec fn symbol_block(
    s: SymbolModel,
    file: Seq<char>,
    lines: Seq<Seq<char>>,
    max_lines: nat,
) -> Option<Seq<char>> {
    let start = if s.start_line == 0 {
        0
    } else {
        s.start_line - 1
    };
    let end = if s.end_line <= lines.len() {
        s.end_line as int
    } else {
        lines.len() as int
    };
    match spec_listing(lines, start, end, max_lines as int) {
        Some(t) => Some(
            heading(
                symbol_extractor::spec_short(s.kind),
                s.name,
                file,
                numerals::spec_decimal(s.start_line),
                numerals::spec_decimal(s.end_line),
            ) + t + "\n"@,
        ),
        None => None,
    }
}

fn write_symbol_block(s: &Symbol, file: &str, lines: &Vec<&[char]>, max_lines: usize) -> (r: Option<
    String,
>)
    ensures
        text_of(r) == symbol_block(s@, file@, text::slices(lines@), max_lines as nat),
{
    assert(text::slices(lines@).len() == lines@.len());
    let start: usize = if s.start_line == 0 {
        0
    } else {
        s.start_line - 1
    };
    let end: usize = if s.end_line <= lines.len() {
        s.end_line
    } else {
        lines.len()
    };
    match write_listing(lines, start, end, max_lines) {
        Some(t) => {
            let first = numerals::decimal_usize(s.start_line);
            let last = numerals::decimal_usize(s.end_line);
            Some(
                write_heading(
                    s.kind.short(),
                    s.name.as_str(),
                    file,
                    first.as_str(),
                    last.as_str(),
                ).concat(t.as_str()).concat("\n"),
            )
        },
        None => None,
    }
}

/// What is shown of the symbols of a file whose names contain a name, in lower case.
pub open spec fn symbol_blocks(
    list: Seq<SymbolModel>,
    name_lower: Seq<char>,
    file: Seq<char>,
    lines: Seq<Seq<char>>,
    max_lines: nat,
) -> Option<Seq<char>>
    decreases list.len(),
{
    if list.len() == 0 {
        Some(Seq::empty())
    } else {
        match symbol_blocks(list.drop_last(), name_lower, file, lines, max_lines) {
            Some(before) => if text::has(text::lowercase_of(list.last().name), name_lower) {
                match symbol_block(list.last(), file, lines, max_lines) {
                    Some(t) => Some(before + t),
                    None => None,
                }
            } else {
                Some(before)
            },
            None => None,
        }
    }
}

proof fn lemma_blocks_none(
    list: Seq<SymbolModel>,
    name_lower: Seq<char>,
    file: Seq<char>,
    lines: Seq<Seq<char>>,
    max_lines: nat,
    i: int,
)
    requires
        0 <= i <= list.len(),
        symbol_blocks(list.take(i), name_lower, file, lines, max_lines) is None,
    ensures
        symbol_blocks(list, name_lower, file, lines, max_lines) is None,
    decreases list.len() - i,
{
    if i == list.len() {
        assert(list.take(i) =~= list);
    } else {
        assert(list.take(i + 1).drop_last() =~= list.take(i));
        lemma_blocks_none(list, name_lower, file, lines, max_lines, i + 1);
    }
}

/// What is shown of the symbols of a file, given its symbols.
pub fn matching_symbols(
    list: &[Symbol],
    name: &str,
    file: &str,
    content: &str,
    max_lines: usize,
) -> (r: Option<String>)
    ensures
        text_of(r) == symbol_blocks(
            symbol_extractor::symbols(list@),
            text::lowercase_of(name@),
            file@,
            text::spec_lines(content@),
            max_lines as nat,
        ),
{
    let name_lower = name.to_lowercase();
    let chars = text::chars_of(content);
    let lines = text::lines(chars.as_slice());
    let ghost all = symbol_extractor::symbols(list@);
    let ghost body = text::slices(lines@);
    let mut out = String::new();
    assert(out@ =~= Seq::empty());
    assert(all.take(0) =~= Seq::empty());
    for i in 0..list.len()
        invariant
            name_lower@ == text::lowercase_of(name@),
            all == symbol_extractor::symbols(list@),
            chars@ == content@,
            body == text::slices(lines@),
            body == text::spec_lines(content@),
            symbol_blocks(all.take(i as int), name_lower@, file@, body, max_lines as nat) == Some(
                out@,
            ),
    {
        proof {
            assert(all.take(i + 1).drop_last() =~= all.take(i as int));
            assert(all.take(i + 1).last() == list@[i as int]@);
        }
        let lower = list[i].name.as_str().to_lowercase();
        if text::str_contains(lower.as_str(), name_lower.as_str()) {
            match write_symbol_block(&list[i], file, &lines, max_lines) {
                Some(t) => {
                    out = out.concat(t.as_str());
                },
                None => {
                    proof {
                        lemma_blocks_none(
                            all,
                            name_lower@,
                            file@,
                            body,
                            max_lines as nat,
                            i + 1,
                        );
                    }
                    return None;
                },
            }
        }
    }
    assert(all.take(all.len() as int) =~= all);
    Some(out)
}

/// A file as path, extension and content.
pub type SourceModel = (Seq<char>, Seq<char>, Seq<char>);

/// What is shown of the symbols of one file, given its symbols.
pub open spec fn file_blocks(
    file: SourceModel,
    list: Seq<SymbolModel>,
    name: Seq<char>,
    hint: Option<Seq<char>>,
    max_lines: nat,
) -> Option<Seq<char>> {
    if searched(file.0, file.1, hint) {
        symbol_blocks(
            list,
            text::lowercase_of(name),
            file.0,
            text::spec_lines(file.2),
            max_lines,
        )
    } else {
        Some(Seq::empty())
    }
}

fn write_file_blocks(
    file: &(String, String, String),
    list: &[Symbol],
    name: &str,
    hint: Option<&str>,
    max_lines: usize,
) -> (r: Option<String>)
    ensures
        text_of(r) == file_blocks(
            (file.0@, file.1@, file.2@),
            symbol_extractor::symbols(list@),
            name@,
            hint_of(hint),
            max_lines as nat,
        ),
{
    let nothing = String::new();
    assert(nothing@ =~= Seq::empty());
    if !is_searched(file.0.as_str(), file.1.as_str(), hint) {
        return Some(nothing);
    }
    matching_symbols(list, name, file.0.as_str(), file.2.as_str(), max_lines)
}

// ── Text of files ────────────────────────────────────────────────────

/// Whether a line that has a name looks like its definition.
pub open spec fn defining(line: Seq<char>, name: Seq<char>) -> bool {
    let t = text::spec_trim(line);
    text::has(t, name) && !text::begins(t, "import "@) && !text::begins(t, "const {"@) && (
    text::has(t, "function"@) || text::has(t, "=>"@) || text::has(t, "exports."@ + name)
        || text::has(t, name + " ="@) || text::begins(t, "const "@ + name) || text::begins(
        t,
        "let "@ + name,
    ))
}

fn is_defining(line: &[char], name: &str) -> (r: bool)
    ensures
        r == defining(line@, name@),
{
    let t = text::trim(line);
    if !text::contains(t, name) || text::starts_with(t, "import ") || text::starts_with(
        t,
        "const {",
    ) {
        return false;
    }
    let exported = text::owned("exports.").concat(name);
    let assigned = text::owned(name).concat(" =");
    let constant = text::owned("const ").concat(name);
    let variable = text::owned("let ").concat(name);
    text::contains(t, "function") || text::contains(t, "=>") || text::contains(
        t,
        exported.as_str(),
    ) || text::contains(t, assigned.as_str()) || text::starts_with(t, constant.as_str())
        || text::starts_with(t, variable.as_str())
}

/// The first line from `i` on that has a name and looks like its definition.
pub open spec fn definition_from(lines: Seq<Seq<char>>, name: Seq<char>, i: int) -> Option<int>
    decreases lines.len() - i,
{
    if i < 0 || i >= lines.len() {
        None
    } else if text::has(lines[i], name) && defining(lines[i], name) {
        Some(i)
    } else {
        definition_from(lines, name, i + 1)
    }
}

/// How many more braces a text opens than it closes.
pub open spec fn brace_balance(s: Seq<char>) -> int
    decreases s.len(),
{
    if s.len() == 0 {
        0
    } else {
        brace_balance(s.drop_last()) + if s.last() == '{' {
            1int
        } else if s.last() == '}' {
            -1
        } else {
            0
        }
    }
}

/// Whether a text opens a brace.
pub open spec fn opens_brace(s: Seq<char>) -> bool {
    text::spec_find_char(s, '{') is Some
}

/// The last line of a definition that starts at line `def`, from line `j` on: where the
/// braces that were opened are closed, or five hundred lines on, or the end of the file.
pub open spec fn definition_end(
    lines: Seq<Seq<char>>,
    def: int,
    j: int,
    depth: int,
    open: bool,
) -> int
    decreases lines.len() - j,
{
    if j + 1 >= lines.len() || j < 0 {
        j
    } else {
        let now = depth + brace_balance(lines[j]);
        let opened = open || opens_brace(lines[j]);
        if (opened && now <= 0) || j - def > 500 {
            j
        } else {
            definition_end(lines, def, j + 1, now, opened)
        }
    }
}

fn balance_of(s: &[char]) -> (r: i128)
    ensures
        r == brace_balance(s@),
        -(s@.len() as int) <= r <= s@.len(),
{
    let mut r: i128 = 0;
    let n: usize = s.len();
    for i in 0..n
        invariant
            n == s@.len(),
            r == brace_balance(s@.take(i as int)),
            -(i as int) <= r <= i,
    {
        assert(s@.take(i + 1).drop_last() =~= s@.take(i as int));
        if s[i] == '{' {
            r = r + 1;
        } else if s[i] == '}' {
            r = r - 1;
        }
    }
    assert(s@.take(n as int) =~= s@);
    r
}

proof fn lemma_definition_end(
    lines: Seq<Seq<char>>,
    def: int,
    j: int,
    depth: int,
    open: bool,
)
    requires
        0 <= j < lines.len(),
    ensures
        j <= definition_end(lines, def, j, depth, open) < lines.len(),
    decreases lines.len() - j,
{
    if j + 1 < lines.len() {
        let now = depth + brace_balance(lines[j]);
        let opened = open || opens_brace(lines[j]);
        if !((opened && now <= 0) || j - def > 500) {
            lemma_definition_end(lines, def, j + 1, now, opened);
        }
    }
}

fn find_definition_end(lines: &Vec<&[char]>, def: usize) -> (r: usize)
    requires
        def < lines@.len(),
    ensures
        r == definition_end(text::slices(lines@), def as int, def as int, 0, false),
        def <= r < lines@.len(),
{
    let ghost all = text::slices(lines@);
    let n: usize = lines.len();
    let mut j: usize = def;
    let mut depth: i128 = 0;
    let mut open = false;
    proof {
        lemma_definition_end(all, def as int, def as int, 0, false);
    }
    while j + 1 < n
        invariant
            n == lines@.len(),
            all == text::slices(lines@),
            def <= j < n,
            j - def <= 502,
            -((j - def) * usize::MAX) <= depth <= (j - def) * usize::MAX,
            definition_end(all, def as int, def as int, 0, false) == definition_end(
                all,
                def as int,
                j as int,
                depth as int,
                open,
            ),
        decreases n - j,
    {
        let line = lines[j];
        assert(all[j as int] == line@);
        let change: i128 = balance_of(line);
        let len: usize = line.len();
        proof {
            assert((j - def + 1) * usize::MAX == (j - def) * usize::MAX + usize::MAX)
                by (nonlinear_arith);
            assert((j - def) * usize::MAX <= 502 * usize::MAX) by (nonlinear_arith)
                requires
                    j - def <= 502,
            ;
        }
        depth = depth + change;
        if !open {
            open = text::find_char(line, '{').is_some();
        }
        if (open && depth <= 0) || j - def > 500 {
            return j;
        }
        j = j + 1;
    }
    j
}

/// What the text of a file shows of a name: the lines of its definition, if one is found.
pub open spec fn text_match(file: SourceModel, name: Seq<char>, max_lines: nat) -> Option<
    Seq<char>,
> {
    let lines = text::spec_lines(file.2);
    match definition_from(lines, name, 0) {
        Some(def) => {
            let end = definition_end(lines, def, def, 0, false);
            match spec_listing(lines, def, end + 1, max_lines as int) {
                Some(t) => Some(
                    heading(
                        "match"@,
                        name,
                        file.0,
                        numerals::spec_decimal((def + 1) as nat),
                        numerals::spec_decimal((end + 1) as nat),
                    ) + t + "\n"@,
                ),
                None => None,
            }
        },
        None => None,
    }
}

fn find_definition(lines: &Vec<&[char]>, name: &str) -> (r: Option<usize>)
    ensures
        match r {
            Some(i) => definition_from(text::slices(lines@), name@, 0) == Some(i as int) && i
                < lines@.len(),
            None => definition_from(text::slices(lines@), name@, 0) is None,
        },
{
    let ghost all = text::slices(lines@);
    for i in 0..lines.len()
        invariant
            all == text::slices(lines@),
            definition_from(all, name@, 0) == definition_from(all, name@, i as int),
    {
        assert(all[i as int] == lines@[i as int]@);
        if text::contains(lines[i], name) && is_defining(lines[i], name) {
            return Some(i);
        }
    }
    None
}

fn write_text_match(file: &(String, String, String), name: &str, max_lines: usize) -> (r: Option<
    String,
>)
    ensures
        text_of(r) == text_match((file.0@, file.1@, file.2@), name@, max_lines as nat),
{
    let chars = text::chars_of(file.2.as_str());
    let lines = text::lines(chars.as_slice());
    match find_definition(&lines, name) {
        Some(def) => {
            let n: usize = lines.len();
            let end: usize = find_definition_end(&lines, def);
            match write_listing(&lines, def, end + 1, max_lines) {
                Some(t) => {
                    let first = numerals::decimal_usize(def + 1);
                    let last = numerals::decimal_usize(end + 1);
                    Some(
                        write_heading(
                            "match",
                            name,
                            file.0.as_str(),
                            first.as_str(),
                            last.as_str(),
                        ).concat(t.as_str()).concat("\n"),
                    )
                },
                None => None,
            }
        },
        None => None,
    }
}

// ── All files ────────────────────────────────────────────────────────

/// The values of a list of files.
pub open spec fn sources(files: Seq<(String, String, String)>) -> Seq<SourceModel> {
    files.map_values(|f: (String, String, String)| (f.0@, f.1@, f.2@))
}

/// What is shown of the symbols of all files, given the symbols of each.
pub open spec fn all_blocks(
    files: Seq<SourceModel>,
    lists: Seq<Seq<SymbolModel>>,
    name: Seq<char>,
    hint: Option<Seq<char>>,
    max_lines: nat,
) -> Option<Seq<char>>
    decreases files.len(),
{
    if files.len() == 0 {
        Some(Seq::empty())
    } else {
        match (
            all_blocks(files.drop_last(), lists, name, hint, max_lines),
            file_blocks(files.last(), lists[files.len() - 1], name, hint, max_lines),
        ) {
            (Some(before), Some(t)) => Some(before + t),
            _ => None,
        }
    }
}

/// The first file whose text shows a definition of a name.
pub open spec fn first_text_match(files: Seq<SourceModel>, name: Seq<char>, max_lines: nat) -> Option<
    Seq<char>,
>
    decreases files.len(),
{
    if files.len() == 0 {
        None
    } else if text_match(files[0], name, max_lines) is Some {
        text_match(files[0], name, max_lines)
    } else {
        first_text_match(files.drop_first(), name, max_lines)
    }
}

/// The answer of the files: the matching symbols of all of them, or else the first definition
/// in their text, or else that the symbol was not found.
pub open spec fn spec_from_files(
    files: Seq<SourceModel>,
    lists: Seq<Seq<SymbolModel>>,
    name: Seq<char>,
    hint: Option<Seq<char>>,
    max_lines: nat,
) -> Option<Seq<char>> {
    match all_blocks(files, lists, name, hint, max_lines) {
        Some(out) => if out.len() > 0 {
            Some(out)
        } else {
            match first_text_match(files, name, max_lines) {
                Some(t) => Some(t),
                None => Some("Symbol '"@ + name + "' not found.\n"@),
            }
        },
        None => None,
    }
}

proof fn lemma_all_blocks_none(
    files: Seq<SourceModel>,
    lists: Seq<Seq<SymbolModel>>,
    name: Seq<char>,
    hint: Option<Seq<char>>,
    max_lines: nat,
    i: int,
)
    requires
        0 <= i <= files.len(),
        all_blocks(files.take(i), lists, name, hint, max_lines) is None,
    ensures
        all_blocks(files, lists, name, hint, max_lines) is None,
    decreases files.len() - i,
{
    if i == files.len() {
        assert(files.take(i) =~= files);
    } else {
        assert(files.take(i + 1).drop_last() =~= files.take(i));
        lemma_all_blocks_none(files, lists, name, hint, max_lines, i + 1);
    }
}

/// Search files, given as path, extension and content, for a symbol, given the symbols of
/// each. There is no answer where the lines of a symbol would end before they start.
pub fn get_from_symbols(
    files: &[(String, String, String)],
    lists: &[Vec<Symbol>],
    name: &str,
    file_hint: Option<&str>,
    max_lines: usize,
) -> (r: Option<String>)
    requires
        lists@.len() == files@.len(),
    ensures
        text_of(r) == spec_from_files(
            sources(files@),
            pipeline::symbol_lists(lists@),
            name@,
            hint_of(file_hint),
            max_lines as nat,
        ),
{
    let ghost all = sources(files@);
    let ghost found = pipeline::symbol_lists(lists@);
    let ghost hint = hint_of(file_hint);
    let mut out = String::new();
    assert(out@ =~= Seq::empty());
    assert(all.take(0) =~= Seq::empty());
    for i in 0..files.len()
        invariant
            all == sources(files@),
            found == pipeline::symbol_lists(lists@),
            lists@.len() == files@.len(),
            hint == hint_of(file_hint),
            all_blocks(all.take(i as int), found, name@, hint, max_lines as nat) == Some(out@),
    {
        proof {
            assert(all.take(i + 1).drop_last() =~= all.take(i as int));
            assert(found[i as int] == symbol_extractor::symbols(lists@[i as int]@));
        }
        match write_file_blocks(&files[i], lists[i].as_slice(), name, file_hint, max_lines) {
            Some(t) => {
                out = out.concat(t.as_str());
            },
            None => {
                proof {
                    lemma_all_blocks_none(all, found, name@, hint, max_lines as nat, i + 1);
                }
                return None;
            },
        }
    }
    assert(all.take(all.len() as int) =~= all);
    if text::chars_of(out.as_str()).len() > 0 {
        return Some(out);
    }
    assert(all.skip(0) =~= all);
    for i in 0..files.len()
        invariant
            all == sources(files@),
            found == pipeline::symbol_lists(lists@),
            lists@.len() == files@.len(),
            hint == hint_of(file_hint),
            all_blocks(all, found, name@, hint, max_lines as nat) == Some(out@),
            out@.len() == 0,
            first_text_match(all, name@, max_lines as nat) == first_text_match(
                all.skip(i as int),
                name@,
                max_lines as nat,
            ),
    {
        proof {
            assert(all.skip(i as int)[0] == all[i as int]);
            assert(all.skip(i as int).drop_first() =~= all.skip(i + 1));
        }
        match write_text_match(&files[i], name, max_lines) {
            Some(t) => {
                return Some(t);
            },
            None => {},
        }
    }
    Some(text::owned("Symbol '").concat(name).concat("' not found.\n"))
}

/// Whether `lists` can be the symbols of the files that are searched.
pub open spec fn lists_searched(
    files: Seq<SourceModel>,
    hint: Option<Seq<char>>,
    lists: Seq<Seq<SymbolModel>>,
) -> bool {
    &&& lists.len() == files.len()
    &&& forall|i: int|
        0 <= i < files.len() && #[trigger] searched(files[i].0, files[i].1, hint)
            ==> pipeline::lists_symbols(files[i].2, files[i].1, lists[i])
}

/// Search files, given as path, extension and content, for a symbol. There is no answer where
/// the lines of a symbol would end before they start.
pub fn get_from_files(
    files: &[(String, String, String)],
    name: &str,
    file_hint: Option<&str>,
    max_lines: usize,
) -> (r: Option<String>)
    ensures
        exists|lists: Seq<Seq<SymbolModel>>| #[trigger]
            lists_searched(sources(files@), hint_of(file_hint), lists) && text_of(r)
                == spec_from_files(
                sources(files@),
                lists,
                name@,
                hint_of(file_hint),
                max_lines as nat,
            ),
{
    let ghost all = sources(files@);
    let ghost hint = hint_of(file_hint);
    let mut lists: Vec<Vec<Symbol>> = Vec::new();
    for i in 0..files.len()
        invariant
            all == sources(files@),
            hint == hint_of(file_hint),
            lists@.len() == i,
            forall|k: int|
                0 <= k < i && searched(all[k].0, all[k].1, hint) ==> pipeline::lists_symbols(
                    all[k].2,
                    all[k].1,
                    symbol_extractor::symbols((#[trigger] lists@[k])@),
                ),
    {
        let file = &files[i];
        if is_searched(file.0.as_str(), file.1.as_str(), file_hint) {
            lists.push(pipeline::symbols_of(file.2.as_str(), file.1.as_str()));
        } else {
            lists.push(Vec::new());
        }
    }
    let ghost found = pipeline::symbol_lists(lists@);
    assert forall|i: int|
        0 <= i < all.len() && #[trigger] searched(
            all[i].0,
            all[i].1,
            hint,
        ) implies pipeline::lists_symbols(all[i].2, all[i].1, found[i]) by {
        assert(found[i] == symbol_extractor::symbols(lists@[i]@));
    }
    assert(lists_searched(all, hint, found));
    get_from_symbols(files, lists.as_slice(), name, file_hint, max_lines)
}

/// A listing shows its lines one behind the other, each with a line feed. One of more lines than
/// asked for shows the first of them and says how many there are more; zero asks for all.
pub proof fn law_listings(lines: Seq<Seq<char>>, a: int, b: int, most: int)
    requires
        0 <= a <= b < lines.len(),
    ensures
        lines_between(lines, a, a) == Seq::<char>::empty(),
        lines_between(lines, a, b + 1) == lines_between(lines, a, b) + lines[b] + "\n"@,
        spec_listing(lines, a, b, 0) == Some(lines_between(lines, a, b)),
        b - a <= most ==> spec_listing(lines, a, b, most) == Some(lines_between(lines, a, b)),
        0 < most < b - a ==> spec_listing(lines, a, b, most) == Some(
            lines_between(lines, a, a + most) + "// ... +"@ + numerals::spec_decimal(
                (b - a - most) as nat,
            ) + " more lines (pass max_lines=0 for full)\n"@,
        ),
{
}

/// A row of the index is shown with its kind in short, its name, its file and its lines, and then
/// the lines of the file from its first to its last.
pub proof fn law_rows_show_their_code(row: IndexRow, content: Seq<char>)
    requires
        1 <= row.start_line <= row.end_line <= text::spec_lines(content).len(),
        row.end_line <= usize::MAX,
    ensures
        spec_row_block(row, Some(content), 0) == Some(
            "["@ + symbol_extractor::spec_abbreviate_kind(row.kind@) + "] "@ + row.name@ + " in "@
                + row.relative_path@ + " L"@ + numerals::spec_signed(row.start_line as int) + "-"@
                + numerals::spec_signed(row.end_line as int) + "\n"@ + lines_between(
                text::spec_lines(content),
                row.start_line - 1,
                row.end_line as int,
            ) + "\n"@,
        ),
{
}

proof fn lemma_first_rows_within(rows: Seq<IndexRow>)
    ensures
        forall|j: int|
            0 <= j < first_rows(rows).len() ==> 0 <= #[trigger] first_rows(rows)[j] < rows.len(),
    decreases rows.len(),
{
    if rows.len() > 0 {
        let front = rows.drop_last();
        lemma_first_rows_within(front);
        let before = first_rows(front);
        let all = first_rows(rows);
        assert forall|j: int| 0 <= j < all.len() implies 0 <= #[trigger] all[j] < rows.len() by {
            if j < before.len() {
                assert(all[j] == before[j]);
            }
        }
    }
}

/// Whether a place is among some, and its row is for the same line of the same file as another.
pub open spec fn stands_in(rows: Seq<IndexRow>, kept: Seq<int>, j: int, k: int) -> bool {
    0 <= j < kept.len() && 0 <= kept[j] <= k && rows[kept[j]].relative_path@
        == rows[k].relative_path@ && rows[kept[j]].start_line == rows[k].start_line
}

/// For every row of the index one is kept that starts on the same line of the same file, and none
/// that comes after it.
pub proof fn law_no_row_is_lost(rows: Seq<IndexRow>, k: int)
    requires
        0 <= k < rows.len(),
    ensures
        exists|j: int| #[trigger] stands_in(rows, first_rows(rows), j, k),
    decreases rows.len(),
{
    let front = rows.drop_last();
    let before = first_rows(front);
    let all = first_rows(rows);
    lemma_first_rows_within(front);
    if k < front.len() {
        law_no_row_is_lost(front, k);
        let j = choose|j: int| #[trigger] stands_in(front, before, j, k);
        assert(all[j] == before[j]);
        assert(front[before[j]] == rows[before[j]]);
        assert(front[k] == rows[k]);
        assert(stands_in(rows, all, j, k));
    } else if exists|i: int| 0 <= i < front.len() && same_place(#[trigger] front[i], rows.last()) {
        let i = choose|i: int| 0 <= i < front.len() && same_place(#[trigger] front[i], rows.last());
        law_no_row_is_lost(front, i);
        let j = choose|j: int| #[trigger] stands_in(front, before, j, i);
        assert(all[j] == before[j]);
        assert(front[before[j]] == rows[before[j]]);
        assert(front[i] == rows[i]);
        assert(stands_in(rows, all, j, k));
    } else {
        let j = before.len() as int;
        assert(all[j] == k);
        assert(stands_in(rows, all, j, k));
    }
}

/// The answer of the index shows its rows one behind the other. A row whose file lies outside the
/// project, or whose path cannot be resolved, stops it; one whose file cannot be read is shown
/// without its code.
pub proof fn law_index_answers(
    rows: Seq<IndexRow>,
    files: Seq<RowFile>,
    places: Seq<int>,
    k: int,
    max_lines: nat,
)
    ensures
        spec_answer(rows, files, Seq::empty(), max_lines) == IndexAnswer::Text(Seq::empty()),
        match spec_answer(rows, files, places, max_lines) {
            IndexAnswer::Text(before) => {
                let next = spec_answer(rows, files, places.push(k), max_lines);
                match files[k] {
                    RowFile::Unresolved(_) => next == IndexAnswer::Stopped(k),
                    RowFile::Outside => next == IndexAnswer::Stopped(k),
                    RowFile::Unreadable => next == IndexAnswer::Text(
                        before + ("["@ + symbol_extractor::spec_abbreviate_kind(rows[k].kind@)
                            + "] "@ + rows[k].name@ + " in "@ + rows[k].relative_path@ + " L"@
                            + numerals::spec_signed(rows[k].start_line as int) + "-"@
                            + numerals::spec_signed(rows[k].end_line as int) + "\n"@ + "\n"@),
                    ),
                    RowFile::Content(c) => match spec_row_block(rows[k], Some(c@), max_lines) {
                        Some(block) => next == IndexAnswer::Text(before + block),
                        None => next == IndexAnswer::Backwards,
                    },
                }
            },
            _ => true,
        },
{
    assert(places.push(k).drop_last() =~= places);
}

/// An export of fewer than six lines gives way to the function that was found for it; every other
/// row stays as it is.
pub proof fn law_small_exports_give_way(
    rows: Seq<IndexRow>,
    found: Seq<Option<IndexRow>>,
    i: int,
)
    requires
        0 <= i < rows.len(),
        found.len() == rows.len(),
    ensures
        ({
            let row = rows[i];
            let small = (row.kind@ == "export"@ || row.kind@ == "Export"@) && row.end_line
                - row.start_line + 1 < 6;
            let r = resolved(rows, found);
            &&& r.len() == rows.len()
            &&& small && found[i] is Some ==> r[i] == found[i]->0
            &&& !small || found[i] is None ==> r[i] == row
        }),
{
}

proof fn lemma_has_behind(front: Seq<char>, t: Seq<char>, back: Seq<char>, p: Seq<char>)
    requires
        text::has(t, p),
    ensures
        text::has(front + t + back, p),
{
    text::law_has_is_a_part(t, p);
    let (a, b) = choose|a: Seq<char>, b: Seq<char>| t == #[trigger] (a + p + b);
    let s = front + t + back;
    assert(s =~= (front + a) + p + (b + back));
    text::law_has_is_a_part(s, p);
}

proof fn lemma_block_shown(
    list: Seq<SymbolModel>,
    name_lower: Seq<char>,
    file: Seq<char>,
    lines: Seq<Seq<char>>,
    max_lines: nat,
    k: int,
)
    requires
        0 <= k < list.len(),
        text::has(text::lowercase_of(list[k].name), name_lower),
        symbol_blocks(list, name_lower, file, lines, max_lines) is Some,
    ensures
        symbol_block(list[k], file, lines, max_lines) matches Some(block) && text::has(
            symbol_blocks(list, name_lower, file, lines, max_lines)->0,
            block,
        ),
    decreases list.len(),
{
    let rest = list.drop_last();
    let before = symbol_blocks(rest, name_lower, file, lines, max_lines)->0;
    let all = symbol_blocks(list, name_lower, file, lines, max_lines)->0;
    if k == list.len() - 1 {
        let block = symbol_block(list[k], file, lines, max_lines)->0;
        assert(all =~= before + block + Seq::<char>::empty());
        text::law_has_is_a_part(all, block);
    } else {
        assert(rest[k] == list[k]);
        lemma_block_shown(rest, name_lower, file, lines, max_lines, k);
        let block = symbol_block(list[k], file, lines, max_lines)->0;
        if text::has(text::lowercase_of(list.last().name), name_lower) {
            let last = symbol_block(list.last(), file, lines, max_lines)->0;
            lemma_has_behind(Seq::empty(), before, last, block);
            assert(Seq::<char>::empty() + before + last =~= all);
        }
    }
}

proof fn lemma_file_shown(
    files: Seq<SourceModel>,
    lists: Seq<Seq<SymbolModel>>,
    name: Seq<char>,
    hint: Option<Seq<char>>,
    max_lines: nat,
    f: int,
    p: Seq<char>,
)
    requires
        0 <= f < files.len(),
        all_blocks(files, lists, name, hint, max_lines) is Some,
        file_blocks(files[f], lists[f], name, hint, max_lines) matches Some(t) && text::has(t, p),
    ensures
        text::has(all_blocks(files, lists, name, hint, max_lines)->0, p),
    decreases files.len(),
{
    let rest = files.drop_last();
    let before = all_blocks(rest, lists, name, hint, max_lines)->0;
    let last = file_blocks(files.last(), lists[files.len() - 1], name, hint, max_lines)->0;
    let all = all_blocks(files, lists, name, hint, max_lines)->0;
    assert(all =~= before + last);
    if f == files.len() - 1 {
        lemma_has_behind(before, last, Seq::empty(), p);
        assert(before + last + Seq::<char>::empty() =~= all);
    } else {
        assert(rest[f] == files[f]);
        lemma_file_shown(rest, lists, name, hint, max_lines, f, p);
        lemma_has_behind(Seq::empty(), before, last, p);
        assert(Seq::<char>::empty() + before + last =~= all);
    }
}

proof fn lemma_file_answers(
    files: Seq<SourceModel>,
    lists: Seq<Seq<SymbolModel>>,
    name: Seq<char>,
    hint: Option<Seq<char>>,
    max_lines: nat,
    f: int,
)
    requires
        0 <= f < files.len(),
        all_blocks(files, lists, name, hint, max_lines) is Some,
    ensures
        file_blocks(files[f], lists[f], name, hint, max_lines) is Some,
    decreases files.len(),
{
    let rest = files.drop_last();
    if f < rest.len() {
        assert(rest[f] == files[f]);
        lemma_file_answers(rest, lists, name, hint, max_lines, f);
    }
}

/// Every symbol whose name contains what is asked for, whatever the case, in a file with a grammar
/// whose path contains the hint, if there is one, is shown: its kind in short, its name, its file,
/// its lines and its code.
pub proof fn law_matching_symbols_are_shown(
    files: Seq<SourceModel>,
    lists: Seq<Seq<SymbolModel>>,
    name: Seq<char>,
    hint: Option<Seq<char>>,
    r: Seq<char>,
    f: int,
    k: int,
)
    requires
        0 <= f < files.len(),
        0 <= k < lists[f].len(),
        spec_from_files(files, lists, name, hint, 0) == Some(r),
        config::ast_extension(files[f].1),
        hint matches Some(h) ==> text::has(text::lowercase_of(files[f].0), text::lowercase_of(h)),
        text::has(text::lowercase_of(lists[f][k].name), text::lowercase_of(name)),
        1 <= lists[f][k].start_line <= lists[f][k].end_line <= text::spec_lines(files[f].2).len(),
    ensures
        ({
            let s = lists[f][k];
            text::has(
                r,
                "["@ + symbol_extractor::spec_short(s.kind) + "] "@ + s.name + " in "@ + files[f].0
                    + " L"@ + numerals::spec_decimal(s.start_line) + "-"@ + numerals::spec_decimal(
                    s.end_line,
                ) + "\n"@ + lines_between(
                    text::spec_lines(files[f].2),
                    s.start_line - 1,
                    s.end_line as int,
                ) + "\n"@,
            )
        }),
{
    let s = lists[f][k];
    let lines = text::spec_lines(files[f].2);
    let lower = text::lowercase_of(name);
    lemma_file_answers(files, lists, name, hint, 0, f);
    lemma_block_shown(lists[f], lower, files[f].0, lines, 0, k);
    let block = symbol_block(s, files[f].0, lines, 0)->0;
    lemma_file_shown(files, lists, name, hint, 0, f, block);
    text::law_has_is_a_part(r, block);
    let all = all_blocks(files, lists, name, hint, 0)->0;
    reveal_strlit("\n");
    if all.len() == 0 {
        text::law_has_is_a_part(all, block);
    }
}

/// Without a symbol, a line of text is taken for the definition of a name where it has the name, is
/// no import nor a destructuring, and shows a function, an arrow, an export or an assignment of the
/// name; the first such line of a file is taken.
pub proof fn law_definitions_in_text(lines: Seq<Seq<char>>, name: Seq<char>, k: int)
    requires
        0 <= k < lines.len(),
        text::has(lines[k], name),
        ({
            let t = text::spec_trim(lines[k]);
            &&& text::has(t, name)
            &&& !text::begins(t, "import "@) && !text::begins(t, "const {"@)
            &&& text::has(t, "function"@) || text::has(t, "=>"@) || text::has(
                t,
                "exports."@ + name,
            ) || text::has(t, name + " ="@) || text::begins(t, "const "@ + name) || text::begins(
                t,
                "let "@ + name,
            )
        }),
    ensures
        definition_from(lines, name, 0) matches Some(i) && 0 <= i <= k && text::has(lines[i], name)
            && !text::begins(text::spec_trim(lines[i]), "import "@) && !text::begins(
            text::spec_trim(lines[i]),
            "const {"@,
        ),
{
    lemma_definition_from(lines, name, 0, k);
}

proof fn lemma_definition_from(lines: Seq<Seq<char>>, name: Seq<char>, i: int, k: int)
    requires
        0 <= i <= k < lines.len(),
        text::has(lines[k], name) && defining(lines[k], name),
    ensures
        definition_from(lines, name, i) matches Some(j) && i <= j <= k && text::has(lines[j], name)
            && defining(lines[j], name),
    decreases k - i,
{
    if !(text::has(lines[i], name) && defining(lines[i], name)) {
        lemma_definition_from(lines, name, i + 1, k);
    }
}

/// How many more braces some lines open than they close.
pub open spec fn balance_between(lines: Seq<Seq<char>>, a: int, b: int) -> int
    decreases b - a,
{
    if a >= b {
        0
    } else {
        balance_between(lines, a, b - 1) + brace_balance(lines[b - 1])
    }
}

proof fn lemma_braces_close(lines: Seq<Seq<char>>, def: int, j: int, e: int)
    requires
        0 <= def <= j <= e < lines.len(),
        e - def <= 500,
        text::spec_find_char(lines[def], '{') is Some,
        forall|k: int|
            def <= k < e ==> #[trigger] balance_between(lines, def, k + 1) > 0,
        balance_between(lines, def, e + 1) <= 0,
    ensures
        definition_end(
            lines,
            def,
            j,
            balance_between(lines, def, j),
            j > def,
        ) == e,
    decreases e - j,
{
    assert(balance_between(lines, def, j + 1) == balance_between(lines, def, j) + brace_balance(
        lines[j],
    ));
    if j < e {
        assert(balance_between(lines, def, j + 1) > 0);
        lemma_braces_close(lines, def, j + 1, e);
    }
}

/// A definition that opens a brace on its first line ends on the line that closes the last of the
/// braces that it opened, unless that is more than five hundred lines away. A brace is counted
/// wherever it stands.
pub proof fn law_definitions_end_with_their_braces(lines: Seq<Seq<char>>, def: int, e: int, s: Seq<char>, c: char)
    requires
        0 <= def <= e < lines.len(),
        e - def <= 500,
        text::spec_find_char(lines[def], '{') is Some,
        forall|k: int| def <= k < e ==> #[trigger] balance_between(lines, def, k + 1) > 0,
        balance_between(lines, def, e + 1) <= 0,
    ensures
        definition_end(lines, def, def, 0, false) == e,
        brace_balance(Seq::empty()) == 0,
        brace_balance(s.push('{')) == brace_balance(s) + 1,
        brace_balance(s.push('}')) == brace_balance(s) - 1,
        c != '{' && c != '}' ==> brace_balance(s.push(c)) == brace_balance(s),
{
    lemma_braces_close(lines, def, def, e);
    assert(s.push('{').drop_last() =~= s);
    assert(s.push('}').drop_last() =~= s);
    assert(s.push(c).drop_last() =~= s);
}

/// Without a symbol or a definition of that name in any file, it is said that there is none.
pub proof fn law_what_is_not_found_is_said(
    files: Seq<SourceModel>,
    lists: Seq<Seq<SymbolModel>>,
    name: Seq<char>,
    hint: Option<Seq<char>>,
    max_lines: nat,
)
    requires
        all_blocks(files, lists, name, hint, max_lines) == Some(Seq::<char>::empty()),
        forall|i: int|
            0 <= i < files.len() ==> text_match(#[trigger] files[i], name, max_lines) is None,
    ensures
        spec_from_files(files, lists, name, hint, max_lines) == Some(
            "Symbol '"@ + name + "' not found.\n"@,
        ),
{
    lemma_no_text_match(files, name, max_lines);
}

proof fn lemma_no_text_match(files: Seq<SourceModel>, name: Seq<char>, max_lines: nat)
    requires
        forall|i: int|
            0 <= i < files.len() ==> text_match(#[trigger] files[i], name, max_lines) is None,
    ensures
        first_text_match(files, name, max_lines) is None,
    decreases files.len(),
{
    if files.len() > 0 {
        let rest = files.drop_first();
        assert(text_match(files[0], name, max_lines) is None);
        assert forall|i: int| 0 <= i < rest.len() implies text_match(
            #[trigger] rest[i],
            name,
            max_lines,
        ) is None by {
            assert(rest[i] == files[i + 1]);
        }
        lemma_no_text_match(rest, name, max_lines);
    }
}

/// Without a row of that name the similar symbols are listed, each on a line: kind in short, name,
/// file, lines and signature.
pub proof fn law_similar_symbols_are_listed(rows: Seq<IndexRow>, row: IndexRow, name: Seq<char>)
    requires
        similar_lines(rows) is Some,
        width::bytes_of(row.signature@) <= 80,
    ensures
        similar_lines(Seq::empty()) == Some(Seq::<char>::empty()),
        similar_lines(rows.push(row)) == Some(
            similar_lines(rows)->0 + ("- ["@ + symbol_extractor::spec_abbreviate_kind(row.kind@)
                + "] "@ + row.name@ + " in "@ + row.relative_path@ + " L"@ + numerals::spec_signed(
                row.start_line as int,
            ) + "-"@ + numerals::spec_signed(row.end_line as int) + ": "@ + row.signature@ + "\n"@),
        ),
        spec_similar(name, rows.push(row)) == Some(
            "No exact match for '"@ + name + "'. Similar:\n\n"@ + similar_lines(rows.push(row))->0,
        ),
{
    assert(rows.push(row).drop_last() =~= rows);
    let before = similar_lines(rows)->0;
    let kind = symbol_extractor::spec_abbreviate_kind(row.kind@);
    let a = numerals::spec_signed(row.start_line as int);
    let b = numerals::spec_signed(row.end_line as int);
    assert(before + "- ["@ + kind + "] "@ + row.name@ + " in "@ + row.relative_path@ + " L"@ + a
        + "-"@ + b + ": "@ + row.signature@ + "\n"@ =~= before + ("- ["@ + kind + "] "@ + row.name@
        + " in "@ + row.relative_path@ + " L"@ + a + "-"@ + b + ": "@ + row.signature@ + "\n"@));
}

/// Without a symbol of that name in any file, the definition that the text of the first file shows is
/// the answer: under the heading of a match, its lines from the first to the last.
pub proof fn law_text_matches_are_shown(file: SourceModel, name: Seq<char>, def: int, end: int)
    requires
        definition_from(text::spec_lines(file.2), name, 0) == Some(def),
        definition_end(text::spec_lines(file.2), def, def, 0, false) == end,
        0 <= def <= end < text::spec_lines(file.2).len(),
    ensures
        text_match(file, name, 0) == Some(
            "[match] "@ + name + " in "@ + file.0 + " L"@ + numerals::spec_decimal((def + 1) as nat)
                + "-"@ + numerals::spec_decimal((end + 1) as nat) + "\n"@ + lines_between(
                text::spec_lines(file.2),
                def,
                end + 1,
            ) + "\n"@,
        ),
        first_text_match(seq![file], name, 0) == text_match(file, name, 0),
{
    reveal_strlit("[match] ");
    reveal_strlit("[");
    reveal_strlit("match");
    reveal_strlit("] ");
    assert("[match] "@ =~= "["@ + "match"@ + "] "@);
}

/// The similar symbols that the index lists are no answer to a request, nor is an empty list of them;
/// what it shows of its rows is one.
pub proof fn law_only_rows_answer(
    name: Seq<char>,
    rows: Seq<IndexRow>,
    row: IndexRow,
    content: Option<Seq<char>>,
    max_lines: nat,
    rest: Seq<char>,
)
    ensures
        spec_similar(name, rows) matches Some(t) ==> !answers(t),
        spec_row_block(row, content, max_lines) matches Some(t) ==> answers(t + rest),
{
    reveal_strlit("No exact match");
    reveal_strlit("No exact match for '");
    reveal_strlit("[");
    match spec_similar(name, rows) {
        Some(t) => {
            if rows.len() > 0 {
                assert(t.subrange(0, 14) =~= "No exact match"@);
            }
        },
        None => {},
    }
    match spec_row_block(row, content, max_lines) {
        Some(t) => {
            assert((t + rest)[0] == '[');
            if text::begins(t + rest, "No exact match"@) {
                assert((t + rest).subrange(0, 14)[0] == 'N');
            }
        },
        None => {},
    }
}

/// A row whose last line the file does not have is shown to the end of the file, and one that starts
/// before the first line from the first.
pub proof fn law_rows_are_shown_as_far_as_there_are_lines(row: IndexRow, content: Seq<char>)
    requires
        0 <= row.end_line <= usize::MAX,
        row.start_line <= usize::MAX,
    ensures
        ({
            let lines = text::spec_lines(content);
            let start = if row.start_line >= 1 {
                row.start_line - 1
            } else {
                0
            };
            let end = if row.end_line <= lines.len() {
                row.end_line as int
            } else {
                lines.len() as int
            };
            let head = heading(
                symbol_extractor::spec_abbreviate_kind(row.kind@),
                row.name@,
                row.relative_path@,
                numerals::spec_signed(row.start_line as int),
                numerals::spec_signed(row.end_line as int),
            );
            &&& start <= end ==> spec_row_block(row, Some(content), 0) == Some(
                head + lines_between(lines, start, end) + "\n"@,
            )
            &&& start > end ==> spec_row_block(row, Some(content), 0) is None
        }),
{
}

/// A signature of more than eighty bytes is cut at eighty where a similar symbol is listed.
pub proof fn law_similar_signatures_are_cut(row: IndexRow)
    ensures
        match (
            similar_lines(seq![row]),
            width::spec_truncate_signature(row.signature@, 80),
        ) {
            (Some(t), Some(sig)) => text::ends(t, ": "@ + sig + "\n"@),
            (None, None) => true,
            _ => false,
        },
{
    assert(seq![row].drop_last() =~= Seq::empty());
    assert(similar_lines(Seq::empty()) == Some(Seq::<char>::empty()));
    match (similar_lines(seq![row]), width::spec_truncate_signature(row.signature@, 80)) {
        (Some(t), Some(sig)) => {
            let last = ": "@ + sig + "\n"@;
            assert(t.subrange(t.len() - last.len(), t.len() as int) =~= last);
        },
        _ => {},
    }
}

/// A file whose path does not contain the hint, or whose language has no grammar, is passed over, and
/// so is a symbol whose name does not contain what is asked for.
pub proof fn law_others_are_passed_over(
    file: SourceModel,
    list: Seq<SymbolModel>,
    s: SymbolModel,
    name: Seq<char>,
    hint: Seq<char>,
    lines: Seq<Seq<char>>,
    max_lines: nat,
)
    ensures
        !text::has(text::lowercase_of(file.0), text::lowercase_of(hint)) ==> file_blocks(
            file,
            list,
            name,
            Some(hint),
            max_lines,
        ) == Some(Seq::<char>::empty()),
        !config::ast_extension(file.1) ==> file_blocks(file, list, name, None, max_lines) == Some(
            Seq::<char>::empty(),
        ),
        !text::has(text::lowercase_of(s.name), name) ==> symbol_blocks(
            list.push(s),
            name,
            file.0,
            lines,
            max_lines,
        ) == symbol_blocks(list, name, file.0, lines, max_lines),
{
    assert(list.push(s).drop_last() =~= list);
}

} // verus!
