//! Reading a file within a budget of tokens.

use crate::context::file_summarizer;
use crate::context::token_estimator;
use crate::indexer::import_extractor;
use crate::indexer::pipeline;
use crate::indexer::symbol_extractor;
use crate::indexer::symbol_extractor::{Symbol, SymbolModel};
use crate::numerals;
use crate::path;
use crate::text;
use crate::width;
use vstd::prelude::*;

verus! {

/// The most bytes of a file that is read.
pub const MAX_FILE_BYTES: u64 = 10_485_760;

/// How a file is shown.
#[derive(Debug, Clone, Copy, PartialEq, Eq, Structural)]
pub enum Mode {
    /// The entire file, truncated at the budget.
    Full,
    /// Imports and signatures.
    Summary,
    /// Full bodies of relevant symbols, signatures of others.
    Smart,
    /// A compact list of symbols with line numbers.
    Symbols,
}

/// Why a file is not shown.
#[derive(Debug)]
pub enum ContextError {
    /// There is no such file.
    NotFound { path: String },
    /// The file has too many bytes.
    TooLarge { bytes: u64 },
    /// There is no such mode.
    UnknownMode { mode: String },
}

impl ContextError {
    /// What the error says.
    pub open spec fn spec_message(self) -> Seq<char> {
        match self {
            ContextError::NotFound { path } => "File not found: "@ + path@,
            ContextError::TooLarge { bytes } => "File too large ("@ + numerals::spec_tenths(
                numerals::nearest_double(bytes as nat),
                1024 * 1024,
            ) + "MB). Use get_symbol to extract specific functions."@,
            ContextError::UnknownMode { mode } => "Unknown mode: '"@ + mode@
                + "'. Use 'full', 'summary', 'smart', or 'symbols'."@,
        }
    }

    /// What the error says.
    pub fn message(&self) -> (r: String)
        ensures
            r@ == self.spec_message(),
    {
        match self {
            ContextError::NotFound { path } => text::owned("File not found: ").concat(
                path.as_str(),
            ),
            ContextError::TooLarge { bytes } => {
                let size: u128 = numerals::as_double(*bytes);
                text::owned("File too large (").concat(
                    numerals::tenths(size, 1024 * 1024).as_str(),
                ).concat("MB). Use get_symbol to extract specific functions.")
            },
            ContextError::UnknownMode { mode } => text::owned("Unknown mode: '").concat(
                mode.as_str(),
            ).concat("'. Use 'full', 'summary', 'smart', or 'symbols'."),
        }
    }
}

/// Whether a file can be read, given its size if it exists.
pub fn check_file(path: &str, size: Option<u64>) -> (r: Result<(), ContextError>)
    ensures
        match r {
            Ok(()) => size matches Some(n) && n <= MAX_FILE_BYTES,
            Err(ContextError::NotFound { path: p }) => size is None && p@ == path@,
            Err(ContextError::TooLarge { bytes }) => size == Some(bytes) && bytes > MAX_FILE_BYTES,
            Err(ContextError::UnknownMode { .. }) => false,
        },
{
    match size {
        None => Err(ContextError::NotFound { path: text::owned(path) }),
        Some(n) => if n > MAX_FILE_BYTES {
            Err(ContextError::TooLarge { bytes: n })
        } else {
            Ok(())
        },
    }
}

/// The mode of a given name.
pub open spec fn spec_mode(name: Seq<char>) -> Option<Mode> {
    if name == "full"@ {
        Some(Mode::Full)
    } else if name == "summary"@ {
        Some(Mode::Summary)
    } else if name == "smart"@ {
        Some(Mode::Smart)
    } else if name == "symbols"@ {
        Some(Mode::Symbols)
    } else {
        None
    }
}

/// The mode of a given name.
pub fn mode_of(name: &str) -> (r: Option<Mode>)
    ensures
        r == spec_mode(name@),
{
    if text::same(name, "full") {
        Some(Mode::Full)
    } else if text::same(name, "summary") {
        Some(Mode::Summary)
    } else if text::same(name, "smart") {
        Some(Mode::Smart)
    } else if text::same(name, "symbols") {
        Some(Mode::Symbols)
    } else {
        None
    }
}

// ── The whole file ───────────────────────────────────────────────────

/// A file in full, truncated at the budget.
pub open spec fn spec_read_full(content: Seq<char>, path: Seq<char>, token_budget: u32) -> Seq<char> {
    let budget = token_estimator::chars_for(token_budget as nat);
    let heading = "# "@ + path + " ("@ + numerals::spec_decimal(text::spec_lines(content).len())
        + " lines)\n\n"@;
    if width::bytes_of(content) > budget {
        heading + text::first_n(content, budget as int) + "\n\n... [TRUNCATED — showing ~"@
            + numerals::spec_decimal(token_budget as nat) + " of ~"@ + numerals::spec_decimal(
            token_estimator::spec_tokens(content),
        ) + " tokens. Use 'smart' mode or get_symbol for specific functions]\n"@
    } else {
        heading + content
    }
}

/// A file in full, truncated at the budget.
pub fn read_full(content: &str, path: &str, token_budget: u32) -> (r: String)
    ensures
        r@ == spec_read_full(content@, path@, token_budget),
{
    let chars = text::chars_of(content);
    let lines = text::lines(chars.as_slice());
    assert(text::slices(lines@).len() == lines@.len());
    let budget: usize = token_estimator::tokens_to_chars(token_budget);
    let heading = text::owned("# ").concat(path).concat(" (").concat(
        numerals::decimal_usize(lines.len()).as_str(),
    ).concat(" lines)\n\n");
    if width::byte_len(content) > budget {
        let start = text::head(chars.as_slice(), budget);
        heading.concat(text::string_of(start).as_str()).concat(
            "\n\n... [TRUNCATED — showing ~",
        ).concat(numerals::decimal(token_budget as u64).as_str()).concat(" of ~").concat(
            numerals::decimal_usize(token_estimator::estimate_tokens(content)).as_str(),
        ).concat(" tokens. Use 'smart' mode or get_symbol for specific functions]\n")
    } else {
        heading.concat(content)
    }
}

// ── Symbols ──────────────────────────────────────────────────────────

/// Whether a trimmed line looks like a definition.
pub open spec fn symbol_line(s: Seq<char>, ext: Seq<char>) -> bool {
    if ext == "js"@ || ext == "jsx"@ || ext == "ts"@ || ext == "tsx"@ || ext == "mjs"@ || ext
        == "cjs"@ {
        text::begins(s, "export "@) || text::begins(s, "function "@) || text::begins(s, "class "@)
            || text::begins(s, "const "@) || text::begins(s, "async function "@) || text::begins(
            s,
            "interface "@,
        ) || text::begins(s, "type "@) || text::begins(s, "enum "@)
    } else if ext == "py"@ || ext == "pyi"@ {
        text::begins(s, "def "@) || text::begins(s, "class "@) || text::begins(s, "async def "@)
    } else if ext == "rs"@ {
        text::begins(s, "pub "@) || text::begins(s, "fn "@) || text::begins(s, "struct "@)
            || text::begins(s, "enum "@) || text::begins(s, "trait "@) || text::begins(s, "impl "@)
    } else if ext == "go"@ {
        text::begins(s, "func "@) || text::begins(s, "type "@)
    } else {
        false
    }
}

/// Whether a trimmed line looks like a definition.
pub fn is_symbol_line(s: &[char], ext: &str) -> (r: bool)
    ensures
        r == symbol_line(s@, ext@),
{
    if text::same(ext, "js") || text::same(ext, "jsx") || text::same(ext, "ts") || text::same(
        ext,
        "tsx",
    ) || text::same(ext, "mjs") || text::same(ext, "cjs") {
        text::starts_with(s, "export ") || text::starts_with(s, "function ") || text::starts_with(
            s,
            "class ",
        ) || text::starts_with(s, "const ") || text::starts_with(s, "async function ")
            || text::starts_with(s, "interface ") || text::starts_with(s, "type ")
            || text::starts_with(s, "enum ")
    } else if text::same(ext, "py") || text::same(ext, "pyi") {
        text::starts_with(s, "def ") || text::starts_with(s, "class ") || text::starts_with(
            s,
            "async def ",
        )
    } else if text::same(ext, "rs") {
        text::starts_with(s, "pub ") || text::starts_with(s, "fn ") || text::starts_with(
            s,
            "struct ",
        ) || text::starts_with(s, "enum ") || text::starts_with(s, "trait ") || text::starts_with(
            s,
            "impl ",
        )
    } else if text::same(ext, "go") {
        text::starts_with(s, "func ") || text::starts_with(s, "type ")
    } else {
        false
    }
}

/// The line of a symbol, unless its signature would be cut inside a character.
pub open spec fn entry_line(s: SymbolModel) -> Option<Seq<char>> {
    match width::spec_truncate_signature(s.signature, 100) {
        Some(sig) => Some(
            "L"@ + numerals::spec_decimal(s.start_line) + "-"@ + numerals::spec_decimal(s.end_line)
                + " ["@ + symbol_extractor::spec_short(s.kind) + "] "@ + s.name + ": "@ + sig
                + "\n"@,
        ),
        None => None,
    }
}

/// The lines of symbols behind a text.
pub open spec fn entry_lines(start: Seq<char>, list: Seq<SymbolModel>) -> Option<Seq<char>>
    decreases list.len(),
{
    if list.len() == 0 {
        Some(start)
    } else {
        match (entry_lines(start, list.drop_last()), entry_line(list.last())) {
            (Some(before), Some(line)) => Some(before + line),
            _ => None,
        }
    }
}

/// The lines of a file that look like definitions, with their numbers.
pub open spec fn definition_lines(lines: Seq<Seq<char>>, ext: Seq<char>) -> Seq<char>
    decreases lines.len(),
{
    if lines.len() == 0 {
        Seq::empty()
    } else {
        let before = definition_lines(lines.drop_last(), ext);
        let s = text::spec_trim(lines.last());
        if symbol_line(s, ext) {
            before + "L"@ + numerals::spec_decimal(lines.len()) + ": "@ + s + "\n"@
        } else {
            before
        }
    }
}

/// What a list of symbols starts with.
pub open spec fn symbols_heading(content: Seq<char>, path: Seq<char>) -> Seq<char> {
    "# Symbols in "@ + path + " ("@ + numerals::spec_decimal(text::spec_lines(content).len())
        + " lines)\n\n"@
}

/// The list of a file's symbols: where none are known, the lines that look like definitions.
pub open spec fn spec_list_symbols(
    content: Seq<char>,
    path: Seq<char>,
    list: Seq<SymbolModel>,
) -> Option<Seq<char>> {
    if list.len() > 0 {
        entry_lines(symbols_heading(content, path), list)
    } else {
        Some(
            symbols_heading(content, path) + definition_lines(
                text::spec_lines(content),
                path::extension_or_empty(path),
            ),
        )
    }
}

proof fn lemma_entry_lines_none(start: Seq<char>, list: Seq<SymbolModel>, n: int)
    requires
        0 <= n <= list.len(),
        entry_lines(start, list.take(n)) is None,
    ensures
        entry_lines(start, list) is None,
    decreases list.len(),
{
    if n == list.len() {
        assert(list.take(n) =~= list);
    } else {
        assert(list.drop_last().take(n) =~= list.take(n));
        lemma_entry_lines_none(start, list.drop_last(), n);
    }
}

fn show_entry(s: &Symbol) -> (r: Option<String>)
    ensures
        file_summarizer::text_of(r) == entry_line(s@),
{
    match width::truncate_signature(s.signature.as_str(), 100) {
        Some(sig) => Some(
            text::owned("L").concat(numerals::decimal_usize(s.start_line).as_str()).concat(
                "-",
            ).concat(numerals::decimal_usize(s.end_line).as_str()).concat(" [").concat(
                s.kind.short(),
            ).concat("] ").concat(s.name.as_str()).concat(": ").concat(sig.as_str()).concat("\n"),
        ),
        None => None,
    }
}

fn show_definitions(lines: &Vec<&[char]>, ext: &str) -> (r: String)
    ensures
        r@ == definition_lines(text::slices(lines@), ext@),
{
    let ghost all = text::slices(lines@);
    let mut out = String::new();
    assert(out@ =~= Seq::empty());
    assert(all.take(0) =~= Seq::empty());
    for i in 0..lines.len()
        invariant
            all == text::slices(lines@),
            out@ == definition_lines(all.take(i as int), ext@),
    {
        proof {
            assert(all.take(i + 1).drop_last() =~= all.take(i as int));
            assert(all.take(i + 1).last() == lines@[i as int]@);
        }
        let trimmed = text::trim(lines[i]);
        if is_symbol_line(trimmed, ext) {
            let number: usize = i + 1;
            out = out.concat("L").concat(numerals::decimal_usize(number).as_str()).concat(
                ": ",
            ).concat(text::string_of(trimmed).as_str()).concat("\n");
        }
    }
    assert(all.take(all.len() as int) =~= all);
    out
}

/// The list of a file's symbols, given those that are known.
pub fn list_symbols(content: &str, path: &str, symbols: &[Symbol]) -> (r: Option<String>)
    ensures
        file_summarizer::text_of(r) == spec_list_symbols(
            content@,
            path@,
            symbol_extractor::symbols(symbols@),
        ),
{
    let chars = text::chars_of(content);
    let lines = text::lines(chars.as_slice());
    assert(text::slices(lines@).len() == lines@.len());
    let heading = text::owned("# Symbols in ").concat(path).concat(" (").concat(
        numerals::decimal_usize(lines.len()).as_str(),
    ).concat(" lines)\n\n");
    let ghost start = symbols_heading(content@, path@);
    if symbols.len() == 0 {
        let ext = path::extension_of(path);
        return Some(heading.concat(show_definitions(&lines, ext.as_str()).as_str()));
    }
    let ghost all = symbol_extractor::symbols(symbols@);
    let mut out = heading;
    assert(all.take(0) =~= Seq::empty());
    for i in 0..symbols.len()
        invariant
            symbols@.len() > 0,
            start == symbols_heading(content@, path@),
            all == symbol_extractor::symbols(symbols@),
            entry_lines(start, all.take(i as int)) == Some(out@),
    {
        proof {
            assert(all.take(i + 1).drop_last() =~= all.take(i as int));
            assert(all.take(i + 1).last() == symbols@[i as int]@);
        }
        match show_entry(&symbols[i]) {
            Some(line) => {
                out = out.concat(line.as_str());
            },
            None => {
                proof {
                    lemma_entry_lines_none(start, all, i + 1);
                }
                return None;
            },
        }
    }
    assert(all.take(all.len() as int) =~= all);
    Some(out)
}

/// Whether `r` can be the list of a file's symbols: that of symbols which its content can give.
pub open spec fn shows_symbols(content: Seq<char>, path: Seq<char>, r: Option<Seq<char>>) -> bool {
    exists|symbols: Seq<SymbolModel>| #[trigger]
        pipeline::lists_symbols(content, path::extension_or_empty(path), symbols) && r
            == spec_list_symbols(content, path, symbols)
}

/// A compact list of a file's symbols with line numbers.
pub fn read_symbols(content: &str, path: &str) -> (r: Option<String>)
    ensures
        shows_symbols(content@, path@, file_summarizer::text_of(r)),
{
    let ext = path::extension_of(path);
    let symbols = pipeline::symbols_of(content, ext.as_str());
    list_symbols(content, path, symbols.as_slice())
}

// ── Modes ────────────────────────────────────────────────────────────

/// Whether `r` is a file as a mode shows it. Scores are for the smart mode alone.
pub open spec fn shows(
    content: Seq<char>,
    path: Seq<char>,
    mode: Mode,
    token_budget: u32,
    scores: Option<Seq<u32>>,
    r: Option<Seq<char>>,
) -> bool {
    match mode {
        Mode::Full => r == Some(spec_read_full(content, path, token_budget)),
        Mode::Summary => file_summarizer::summarizes_file(
            content,
            path,
            token_budget as nat,
            None,
            r,
        ),
        Mode::Smart => file_summarizer::summarizes_file(
            content,
            path,
            token_budget as nat,
            scores,
            r,
        ),
        Mode::Symbols => shows_symbols(content, path, r),
    }
}

/// Read a file with smart token optimization based on mode.
///
/// Modes:
/// - "full": entire file (truncated at budget)
/// - "summary": imports + signatures (no query awareness)
/// - "smart": query-aware — includes full bodies for relevant symbols, signatures for others;
///   `scores` are the symbols' relevances, where there is a query
/// - "symbols": compact symbol list with line numbers
///
/// The inner result is missing where a signature would be cut inside a character.
pub fn read_file_context(
    content: &str,
    path: &str,
    mode: &str,
    token_budget: u32,
    scores: Option<&[u32]>,
) -> (r: Result<Option<String>, ContextError>)
    ensures
        match r {
            Ok(t) => match spec_mode(mode@) {
                Some(m) => shows(
                    content@,
                    path@,
                    m,
                    token_budget,
                    file_summarizer::scores_of(scores),
                    file_summarizer::text_of(t),
                ),
                None => false,
            },
            Err(ContextError::UnknownMode { mode: name }) => spec_mode(mode@) is None && name@
                == mode@,
            Err(_) => false,
        },
{
    match mode_of(mode) {
        Some(Mode::Full) => Ok(Some(read_full(content, path, token_budget))),
        Some(Mode::Summary) => Ok(
            file_summarizer::smart_summarize(content, path, token_budget, None),
        ),
        Some(Mode::Smart) => Ok(
            file_summarizer::smart_summarize(content, path, token_budget, scores),
        ),
        Some(Mode::Symbols) => Ok(read_symbols(content, path)),
        None => Err(ContextError::UnknownMode { mode: text::owned(mode) }),
    }
}

/// The modes of reading, and no others.
pub proof fn law_modes(name: Seq<char>)
    ensures
        spec_mode("full"@) == Some(Mode::Full),
        spec_mode("summary"@) == Some(Mode::Summary),
        spec_mode("smart"@) == Some(Mode::Smart),
        spec_mode("symbols"@) == Some(Mode::Symbols),
        spec_mode(name) is Some ==> name == "full"@ || name == "summary"@ || name == "smart"@
            || name == "symbols"@,
        MAX_FILE_BYTES == 10 * 1024 * 1024,
{
    reveal_strlit("full");
    reveal_strlit("summary");
    reveal_strlit("smart");
    reveal_strlit("symbols");
    assert("full"@.len() == 4 && "smart"@.len() == 5 && "summary"@.len() == 7 && "symbols"@.len()
        == 7);
    assert("summary"@[1] == 'u' && "symbols"@[1] == 'y');
}

/// A file that fits the budget of three and a half bytes for each token is shown whole, behind its
/// path and the number of its lines; of any other as many characters are shown from the start.
pub proof fn law_files_are_shown(content: Seq<char>, path: Seq<char>, token_budget: u32)
    requires
        token_budget * 7 / 2 <= usize::MAX,
    ensures
        ({
            let heading = "# "@ + path + " ("@ + numerals::spec_decimal(
                text::spec_lines(content).len(),
            ) + " lines)\n\n"@;
            let most = token_budget * 7 / 2;
            &&& width::bytes_of(content) <= most ==> spec_read_full(content, path, token_budget)
                == heading + content
            &&& content.len() > most ==> text::begins(
                spec_read_full(content, path, token_budget),
                heading + content.take(most),
            )
        }),
{
    width::lemma_bytes_at_least_chars(content);
    let most = token_budget * 7 / 2;
    if content.len() > most {
        let heading = "# "@ + path + " ("@ + numerals::spec_decimal(text::spec_lines(content).len())
            + " lines)\n\n"@;
        let t = heading + content.take(most);
        let r = spec_read_full(content, path, token_budget);
        assert(r.subrange(0, t.len() as int) =~= t);
    }
}

/// The list of a file's symbols has a line for every symbol, in their order: its lines, its kind in
/// short, its name and its signature.
pub proof fn law_symbols_are_listed(start: Seq<char>, list: Seq<SymbolModel>, s: SymbolModel)
    requires
        entry_lines(start, list) is Some,
        width::bytes_of(s.signature) <= 100,
    ensures
        entry_lines(start, Seq::empty()) == Some(start),
        entry_lines(start, list.push(s)) == Some(
            entry_lines(start, list)->0 + ("L"@ + numerals::spec_decimal(s.start_line) + "-"@
                + numerals::spec_decimal(s.end_line) + " ["@ + symbol_extractor::spec_short(s.kind)
                + "] "@ + s.name + ": "@ + s.signature + "\n"@),
        ),
{
    assert(list.push(s).drop_last() =~= list);
}

/// Where no symbols are known, the lines that look like definitions are listed with their numbers:
/// those that begin as definitions of the language do.
pub proof fn law_definition_lines_are_listed(lines: Seq<Seq<char>>, line: Seq<char>)
    ensures
        ({
            let t = text::spec_trim(line);
            let more = lines.push(line);
            let shown = "L"@ + numerals::spec_decimal(lines.len() + 1) + ": "@ + t + "\n"@;
            &&& definition_lines(more, "py"@) == definition_lines(lines, "py"@) + (if text::begins(
                t,
                "def "@,
            ) || text::begins(t, "class "@) || text::begins(t, "async def "@) {
                shown
            } else {
                Seq::empty()
            })
            &&& definition_lines(more, "rs"@) == definition_lines(lines, "rs"@) + (if text::begins(
                t,
                "pub "@,
            ) || text::begins(t, "fn "@) || text::begins(t, "struct "@) || text::begins(t, "enum "@)
                || text::begins(t, "trait "@) || text::begins(t, "impl "@) {
                shown
            } else {
                Seq::empty()
            })
            &&& definition_lines(more, "go"@) == definition_lines(lines, "go"@) + (if text::begins(
                t,
                "func "@,
            ) || text::begins(t, "type "@) {
                shown
            } else {
                Seq::empty()
            })
            &&& definition_lines(more, "js"@) == definition_lines(lines, "js"@) + (if text::begins(
                t,
                "export "@,
            ) || text::begins(t, "function "@) || text::begins(t, "class "@) || text::begins(
                t,
                "const "@,
            ) || text::begins(t, "async function "@) || text::begins(t, "interface "@)
                || text::begins(t, "type "@) || text::begins(t, "enum "@) {
                shown
            } else {
                Seq::empty()
            })
        }),
{
    import_extractor::law_languages();
    assert(lines.push(line).drop_last() =~= lines);
    let t = text::spec_trim(line);
    let shown = "L"@ + numerals::spec_decimal(lines.len() + 1) + ": "@ + t + "\n"@;
    lemma_definition_step(lines, line, "py"@);
    lemma_definition_step(lines, line, "rs"@);
    lemma_definition_step(lines, line, "go"@);
    lemma_definition_step(lines, line, "js"@);
}

proof fn lemma_definition_step(lines: Seq<Seq<char>>, line: Seq<char>, ext: Seq<char>)
    ensures
        definition_lines(lines.push(line), ext) == definition_lines(lines, ext) + (if symbol_line(
            text::spec_trim(line),
            ext,
        ) {
            "L"@ + numerals::spec_decimal(lines.len() + 1) + ": "@ + text::spec_trim(line) + "\n"@
        } else {
            Seq::empty()
        }),
{
    assert(lines.push(line).drop_last() =~= lines);
    let before = definition_lines(lines, ext);
    let t = text::spec_trim(line);
    let shown = "L"@ + numerals::spec_decimal(lines.len() + 1) + ": "@ + t + "\n"@;
    assert(before + "L"@ + numerals::spec_decimal(lines.len() + 1) + ": "@ + t + "\n"@ =~= before
        + shown);
    assert(before + Seq::<char>::empty() =~= before);
}

/// The list of a file's symbols starts with the path of the file and the number of its lines. Where
/// symbols are known it lists them, else the lines that look like definitions.
pub proof fn law_symbol_lists(content: Seq<char>, path: Seq<char>, list: Seq<SymbolModel>)
    ensures
        ({
            let heading = "# Symbols in "@ + path + " ("@ + numerals::spec_decimal(
                text::spec_lines(content).len(),
            ) + " lines)\n\n"@;
            &&& list.len() > 0 ==> spec_list_symbols(content, path, list) == entry_lines(
                heading,
                list,
            )
            &&& list.len() == 0 ==> spec_list_symbols(content, path, list) == Some(
                heading + definition_lines(
                    text::spec_lines(content),
                    path::extension_or_empty(path),
                ),
            )
        }),
{
}

/// A signature of more than a hundred bytes is cut at a hundred where a symbol is listed.
pub proof fn law_listed_signatures_are_cut(s: SymbolModel)
    ensures
        match (entry_line(s), width::spec_truncate_signature(s.signature, 100)) {
            (Some(line), Some(sig)) => line == "L"@ + numerals::spec_decimal(s.start_line) + "-"@
                + numerals::spec_decimal(s.end_line) + " ["@ + symbol_extractor::spec_short(s.kind)
                + "] "@ + s.name + ": "@ + sig + "\n"@,
            (None, None) => true,
            _ => false,
        },
{
}

/// What each mode shows: the whole file, its summary by structure, its summary by the relevance of its
/// symbols, or the list of its symbols.
pub proof fn law_modes_show(
    content: Seq<char>,
    path: Seq<char>,
    token_budget: u32,
    scores: Option<Seq<u32>>,
    r: Option<Seq<char>>,
)
    ensures
        shows(content, path, Mode::Full, token_budget, scores, r) <==> r == Some(
            spec_read_full(content, path, token_budget),
        ),
        shows(content, path, Mode::Summary, token_budget, scores, r)
            <==> file_summarizer::summarizes_file(content, path, token_budget as nat, None, r),
        shows(content, path, Mode::Smart, token_budget, scores, r)
            <==> file_summarizer::summarizes_file(content, path, token_budget as nat, scores, r),
        shows(content, path, Mode::Symbols, token_budget, scores, r) <==> shows_symbols(
            content,
            path,
            r,
        ),
{
}

} // verus!
