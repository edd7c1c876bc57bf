//! Summaries of source files that fit a token budget.
//!
//! Without scores a summary lists all signatures. With scores, the symbols come most relevant
//! first: the most relevant with their code, others with their signature, the rest not at
//! all.

use crate::collections;
use crate::collections::NameSet;
use crate::context::scoring;
use crate::context::token_estimator;
use crate::float32;
use crate::indexer::config;
use crate::indexer::import_extractor;
use crate::indexer::import_extractor::Language;
use crate::indexer::symbol_extractor;
use crate::indexer::symbol_extractor::{Symbol, SymbolModel};
use crate::numerals;
use crate::path;
use crate::sort;
use crate::sort::Descending;
use crate::text;
use crate::width;
use vstd::prelude::*;
use vstd::slice::slice_subrange;

verus! {

// ── Kinds of lines ───────────────────────────────────────────────────

/// Whether a trimmed line imports something.
pub open spec fn import_line(line: Seq<char>, ext: Seq<char>) -> bool {
    match import_extractor::spec_language(ext) {
        Some(Language::JavaScript) => text::begins(line, "import "@) || (text::begins(
            line,
            "const "@,
        ) && text::has(line, "require("@)),
        Some(Language::Python) => text::begins(line, "import "@) || text::begins(line, "from "@),
        Some(Language::Rust) => text::begins(line, "use "@) || text::begins(line, "mod "@),
        Some(Language::Go) => text::begins(line, "import "@),
        Some(Language::C) => text::begins(line, "#include"@),
        None => false,
    }
}

fn is_import_line(line: &[char], ext: &str) -> (r: bool)
    ensures
        r == import_line(line@, ext@),
{
    match import_extractor::language_of(ext) {
        Some(Language::JavaScript) => text::starts_with(line, "import ") || (text::starts_with(
            line,
            "const ",
        ) && text::contains(line, "require(")),
        Some(Language::Python) => text::starts_with(line, "import ") || text::starts_with(
            line,
            "from ",
        ),
        Some(Language::Rust) => text::starts_with(line, "use ") || text::starts_with(
            line,
            "mod ",
        ),
        Some(Language::Go) => text::starts_with(line, "import "),
        Some(Language::C) => text::starts_with(line, "#include"),
        None => false,
    }
}

/// Whether a trimmed line defines something.
pub open spec fn definition_line(line: Seq<char>, ext: Seq<char>) -> bool {
    match import_extractor::spec_language(ext) {
        Some(Language::JavaScript) => text::begins(line, "export "@) || text::begins(
            line,
            "function "@,
        ) || text::begins(line, "class "@) || text::begins(line, "const "@) || text::begins(
            line,
            "async function "@,
        ),
        Some(Language::Python) => text::begins(line, "def "@) || text::begins(line, "class "@),
        Some(Language::Rust) => text::begins(line, "pub "@) || text::begins(line, "fn "@)
            || text::begins(line, "struct "@) || text::begins(line, "enum "@) || text::begins(
            line,
            "trait "@,
        ) || text::begins(line, "impl "@),
        _ => false,
    }
}

fn is_definition_line(line: &[char], ext: &str) -> (r: bool)
    ensures
        r == definition_line(line@, ext@),
{
    match import_extractor::language_of(ext) {
        Some(Language::JavaScript) => text::starts_with(line, "export ") || text::starts_with(
            line,
            "function ",
        ) || text::starts_with(line, "class ") || text::starts_with(line, "const ")
            || text::starts_with(line, "async function "),
        Some(Language::Python) => text::starts_with(line, "def ") || text::starts_with(
            line,
            "class ",
        ),
        Some(Language::Rust) => text::starts_with(line, "pub ") || text::starts_with(line, "fn ")
            || text::starts_with(line, "struct ") || text::starts_with(line, "enum ")
            || text::starts_with(line, "trait ") || text::starts_with(line, "impl "),
        _ => false,
    }
}

/// How single-line comments start, in the languages whose comments are stripped.
pub open spec fn comment_prefix(ext: Seq<char>) -> Option<Seq<char>> {
    if ext == "js"@ || ext == "jsx"@ || ext == "ts"@ || ext == "tsx"@ || ext == "mjs"@ || ext
        == "cjs"@ || ext == "rs"@ || ext == "go"@ || ext == "c"@ || ext == "cpp"@ || ext == "h"@ {
        Some("//"@)
    } else if ext == "py"@ || ext == "pyi"@ {
        Some("#"@)
    } else {
        None
    }
}

fn comment_start(ext: &str) -> (r: Option<&'static str>)
    ensures
        match r {
            Some(p) => comment_prefix(ext@) == Some(p@),
            None => comment_prefix(ext@) is None,
        },
{
    if text::same(ext, "js") || text::same(ext, "jsx") || text::same(ext, "ts") || text::same(
        ext,
        "tsx",
    ) || text::same(ext, "mjs") || text::same(ext, "cjs") || text::same(ext, "rs") || text::same(
        ext,
        "go",
    ) || text::same(ext, "c") || text::same(ext, "cpp") || text::same(ext, "h") {
        Some("//")
    } else if text::same(ext, "py") || text::same(ext, "pyi") {
        Some("#")
    } else {
        None
    }
}

/// Whether a trimmed line is documentation and nothing else: a JSDoc comment, or a docstring
/// in a language whose comments start with `#`.
pub open spec fn documentation(t: Seq<char>, prefix: Seq<char>) -> bool {
    if prefix == "#"@ {
        t.len() >= 6 && ((text::begins(t, "\"\"\""@) && text::ends(t, "\"\"\""@)) || (text::begins(
            t,
            "'''"@,
        ) && text::ends(t, "'''"@)))
    } else {
        text::begins(t, "/**"@) && text::ends(t, "*/"@)
    }
}

fn is_documentation(t: &[char], prefix: &str) -> (r: bool)
    ensures
        r == documentation(t@, prefix@),
{
    if text::same(prefix, "#") {
        t.len() >= 6 && ((text::starts_with(t, "\"\"\"") && text::ends_with(t, "\"\"\"")) || (
        text::starts_with(t, "'''") && text::ends_with(t, "'''")))
    } else {
        text::starts_with(t, "/**") && text::ends_with(t, "*/")
    }
}

/// Whether a line of code is kept: it is not blank, no comment but a mark of omission, and
/// documentation only where it is the first line.
pub open spec fn keeps_line(line: Seq<char>, prefix: Seq<char>, first: bool) -> bool {
    let t = text::spec_trim(line);
    t.len() > 0 && (text::begins(t, "// ..."@) || (!text::begins(t, prefix) && (first
        || !documentation(t, prefix))))
}

/// The lines that are kept.
pub open spec fn kept_lines(lines: Seq<Seq<char>>, prefix: Seq<char>) -> Seq<Seq<char>>
    decreases lines.len(),
{
    if lines.len() == 0 {
        Seq::empty()
    } else if keeps_line(lines.last(), prefix, lines.len() == 1) {
        kept_lines(lines.drop_last(), prefix).push(lines.last())
    } else {
        kept_lines(lines.drop_last(), prefix)
    }
}

/// Code without single-line comments and blank lines.
pub open spec fn spec_strip_comments(code: Seq<char>, ext: Seq<char>) -> Seq<char> {
    match comment_prefix(ext) {
        Some(prefix) => text::spec_join(kept_lines(text::spec_lines(code), prefix), "\n"@),
        None => code,
    }
}

/// Strip single-line comments and blank lines from code to save tokens. Preserves JSDoc and
/// docstrings on the first line only.
pub fn strip_comments(code: &str, ext: &str) -> (r: String)
    ensures
        r@ == spec_strip_comments(code@, ext@),
{
    let prefix = match comment_start(ext) {
        Some(p) => p,
        None => {
            return text::owned(code);
        },
    };
    let chars = text::chars_of(code);
    let lines = text::lines(chars.as_slice());
    let ghost all = text::slices(lines@);
    let mut kept: Vec<String> = Vec::new();
    assert(all.take(0) =~= Seq::empty());
    assert(text::texts(kept@) =~= Seq::empty());
    for i in 0..lines.len()
        invariant
            all == text::slices(lines@),
            text::texts(kept@) == kept_lines(all.take(i as int), prefix@),
    {
        proof {
            assert(all.take(i + 1).drop_last() =~= all.take(i as int));
            assert(all.take(i + 1).last() == lines@[i as int]@);
        }
        let t = text::trim(lines[i]);
        if t.len() > 0 && (text::starts_with(t, "// ...") || (!text::starts_with(t, prefix) && (i
            == 0 || !is_documentation(t, prefix)))) {
            let ghost done = text::texts(kept@);
            let line = text::string_of(lines[i]);
            kept.push(line);
            assert(text::texts(kept@) =~= done.push(line@));
        }
    }
    assert(all.take(all.len() as int) =~= all);
    text::join(kept.as_slice(), "\n")
}

// ── Imported modules ─────────────────────────────────────────────────

/// The lines of a text that import something.
pub open spec fn import_lines(lines: Seq<Seq<char>>, ext: Seq<char>) -> Seq<Seq<char>>
    decreases lines.len(),
{
    if lines.len() == 0 {
        Seq::empty()
    } else if import_line(text::spec_trim(lines.last()), ext) {
        import_lines(lines.drop_last(), ext).push(lines.last())
    } else {
        import_lines(lines.drop_last(), ext)
    }
}

/// What follows the last slash.
pub open spec fn after_last_slash(s: Seq<char>) -> Seq<char> {
    match text::spec_rfind(s, '/') {
        Some(i) => s.skip(i + 1),
        None => s,
    }
}

fn last_segment<'a>(s: &'a [char]) -> (r: &'a [char])
    ensures
        r@ == after_last_slash(s@),
{
    match text::rfind(s, '/') {
        Some(i) => {
            let n: usize = s.len();
            assert(s@.subrange(i + 1, n as int) =~= s@.skip(i + 1));
            slice_subrange(s, i + 1, n)
        },
        None => s,
    }
}

/// The module that a trimmed import line names.
pub open spec fn module_of(line: Seq<char>, ext: Seq<char>) -> Option<Seq<char>> {
    match import_extractor::spec_language(ext) {
        Some(Language::JavaScript) => match import_extractor::between(line, '\'') {
            Some(m) => Some(m),
            None => import_extractor::between(line, '"'),
        },
        Some(Language::Python) => match text::spec_strip_prefix(line, "from "@) {
            Some(rest) => Some(
                if text::spec_words(rest).len() > 0 {
                    text::spec_words(rest)[0]
                } else {
                    Seq::empty()
                },
            ),
            None => match text::spec_strip_prefix(line, "import "@) {
                Some(rest) => Some(text::spec_trim(import_extractor::before_text(rest, ","@))),
                None => None,
            },
        },
        Some(Language::Rust) => match text::spec_strip_prefix(line, "use "@) {
            Some(rest) => Some(
                text::spec_strip_trailing(import_extractor::before_text(rest, "::"@), ';'),
            ),
            None => None,
        },
        Some(Language::Go) => match text::spec_find_char(line, '"') {
            Some(i) => Some(
                after_last_slash(import_extractor::before_text(line.skip(i + 1), "\""@)),
            ),
            None => None,
        },
        _ => None,
    }
}

fn extract_module<'a>(line: &'a [char], ext: &str) -> (r: Option<&'a [char]>)
    ensures
        match r {
            Some(m) => module_of(line@, ext@) == Some(m@),
            None => module_of(line@, ext@) is None,
        },
{
    match import_extractor::language_of(ext) {
        Some(Language::JavaScript) => match import_extractor::quoted_by(line, '\'') {
            Some(m) => Some(m),
            None => import_extractor::quoted_by(line, '"'),
        },
        Some(Language::Python) => match text::strip_prefix(line, "from ") {
            Some(rest) => {
                let words = text::words(rest);
                assert(text::slices(words@).len() == words@.len());
                if words.len() > 0 {
                    assert(text::slices(words@)[0] == words@[0]@);
                    Some(words[0])
                } else {
                    let nothing = slice_subrange(line, 0, 0);
                    assert(nothing@ =~= Seq::empty());
                    Some(nothing)
                }
            },
            None => match text::strip_prefix(line, "import ") {
                Some(rest) => Some(text::trim(import_extractor::cut_before(rest, ","))),
                None => None,
            },
        },
        Some(Language::Rust) => match text::strip_prefix(line, "use ") {
            Some(rest) => Some(
                text::strip_trailing(import_extractor::cut_before(rest, "::"), ';'),
            ),
            None => None,
        },
        Some(Language::Go) => match text::find_char(line, '"') {
            Some(i) => {
                let n: usize = line.len();
                let rest = slice_subrange(line, i + 1, n);
                assert(rest@ =~= line@.skip(i + 1));
                Some(last_segment(import_extractor::cut_before(rest, "\"")))
            },
            None => None,
        },
        _ => None,
    }
}

/// The name of a module without the directories in front of it.
pub open spec fn short_module(module: Seq<char>) -> Seq<char> {
    after_last_slash(
        text::spec_strip_leading(text::spec_strip_leading(module, "./"@), "../"@),
    )
}

/// The short names of the modules that import lines name, each once.
pub open spec fn module_names(lines: Seq<Seq<char>>, ext: Seq<char>) -> Seq<Seq<char>>
    decreases lines.len(),
{
    if lines.len() == 0 {
        Seq::empty()
    } else {
        let before = module_names(lines.drop_last(), ext);
        match module_of(text::spec_trim(lines.last()), ext) {
            Some(m) => if short_module(m).len() == 0 {
                before
            } else {
                collections::spec_insert(before, short_module(m))
            },
            None => before,
        }
    }
}

/// The paragraph on the imports of a file: how many lines, and which modules.
pub open spec fn imports_paragraph(content: Seq<char>, ext: Seq<char>) -> Seq<char> {
    let lines = import_lines(text::spec_lines(content), ext);
    let modules = module_names(lines, ext);
    if lines.len() == 0 {
        Seq::empty()
    } else if modules.len() == 0 {
        "Imports: "@ + numerals::spec_decimal(lines.len()) + "\n\n"@
    } else {
        "Imports("@ + numerals::spec_decimal(lines.len()) + "): "@ + text::spec_join(
            modules,
            ", "@,
        ) + "\n\n"@
    }
}

fn write_imports(content: &[char], ext: &str) -> (r: String)
    ensures
        r@ == imports_paragraph(content@, ext@),
{
    let lines = text::lines(content);
    let ghost all = text::slices(lines@);
    let mut count: usize = 0;
    let mut modules = NameSet::new();
    assert(all.take(0) =~= Seq::empty());
    for i in 0..lines.len()
        invariant
            all == text::slices(lines@),
            modules.wf(),
            count <= i,
            count == import_lines(all.take(i as int), ext@).len(),
            modules@ == module_names(import_lines(all.take(i as int), ext@), ext@),
    {
        let ghost found = import_lines(all.take(i as int), ext@);
        proof {
            assert(all.take(i + 1).drop_last() =~= all.take(i as int));
            assert(all.take(i + 1).last() == lines@[i as int]@);
        }
        let t = text::trim(lines[i]);
        if is_import_line(t, ext) {
            count = count + 1;
            proof {
                assert(found.push(lines@[i as int]@).drop_last() =~= found);
            }
            match extract_module(t, ext) {
                Some(m) => {
                    let short = last_segment(
                        text::strip_leading(text::strip_leading(m, "./"), "../"),
                    );
                    if short.len() > 0 {
                        modules.insert(text::string_of(short));
                    }
                },
                None => {},
            }
        }
    }
    assert(all.take(all.len() as int) =~= all);
    if count == 0 {
        let nothing = String::new();
        assert(nothing@ =~= Seq::empty());
        return nothing;
    }
    let number = numerals::decimal_usize(count);
    if modules.len() == 0 {
        text::owned("Imports: ").concat(number.as_str()).concat("\n\n")
    } else {
        let list = names_of(&modules);
        let joined = text::join(list.as_slice(), ", ");
        text::owned("Imports(").concat(number.as_str()).concat("): ").concat(
            joined.as_str(),
        ).concat("\n\n")
    }
}

fn names_of(set: &NameSet) -> (r: Vec<String>)
    ensures
        text::texts(r@) == set@,
{
    let n: usize = set.len();
    let mut out: Vec<String> = Vec::new();
    for i in 0..n
        invariant
            n == set@.len(),
            text::texts(out@) == set@.take(i as int),
    {
        let ghost done = text::texts(out@);
        let name = text::owned(set.get(i));
        out.push(name);
        assert(text::texts(out@) =~= done.push(name@));
        assert(done.push(name@) =~= set@.take(i + 1));
    }
    assert(set@.take(n as int) =~= set@);
    out
}

// ── Lines of a summary ───────────────────────────────────────────────

/// The line of a symbol: kind, name, lines and signature, unless the signature cannot be cut.
pub open spec fn symbol_line(s: SymbolModel) -> Option<Seq<char>> {
    match width::spec_truncate_signature(s.signature, 100) {
        Some(sig) => Some(
            "["@ + symbol_extractor::spec_short(s.kind) + "] "@ + s.name + " L"@
                + numerals::spec_decimal(s.start_line) + "-"@ + numerals::spec_decimal(s.end_line)
                + ": "@ + sig,
        ),
        None => None,
    }
}

/// The line of a symbol, unless its signature cannot be cut.
pub fn write_symbol_line(s: &Symbol) -> (r: Option<String>)
    ensures
        match r {
            Some(t) => symbol_line(s@) == Some(t@),
            None => symbol_line(s@) is None,
        },
{
    match width::truncate_signature(s.signature.as_str(), 100) {
        Some(sig) => {
            let start = numerals::decimal_usize(s.start_line);
            let end = numerals::decimal_usize(s.end_line);
            Some(
                text::owned("[").concat(s.kind.short()).concat("] ").concat(
                    s.name.as_str(),
                ).concat(" L").concat(start.as_str()).concat("-").concat(end.as_str()).concat(
                    ": ",
                ).concat(sig.as_str()),
            )
        },
        None => None,
    }
}

/// Lines added to a text until it is over budget; a line that cannot be made ends in nothing.
pub open spec fn add_lines(
    out: Seq<char>,
    lines: Seq<Option<Seq<char>>>,
    budget: nat,
) -> Option<Seq<char>>
    decreases lines.len(),
{
    if lines.len() == 0 {
        Some(out)
    } else {
        match lines[0] {
            Some(line) => {
                let longer = out + line + "\n"@;
                if width::bytes_of(longer) > budget {
                    Some(longer + "\n... [TRUNCATED — budget reached]\n"@)
                } else {
                    add_lines(longer, lines.drop_first(), budget)
                }
            },
            None => None,
        }
    }
}

/// The lines of a list of symbols.
pub open spec fn symbol_lines(list: Seq<SymbolModel>) -> Seq<Option<Seq<char>>> {
    list.map_values(|s: SymbolModel| symbol_line(s))
}

fn add_symbol_lines(out: String, list: &[Symbol], budget: usize) -> (r: Option<String>)
    ensures
        match r {
            Some(t) => add_lines(
                out@,
                symbol_lines(symbol_extractor::symbols(list@)),
                budget as nat,
            ) == Some(t@),
            None => add_lines(
                out@,
                symbol_lines(symbol_extractor::symbols(list@)),
                budget as nat,
            ) is None,
        },
{
    let ghost all = symbol_lines(symbol_extractor::symbols(list@));
    let ghost start = out@;
    let mut text = out;
    assert(all.skip(0) =~= all);
    for i in 0..list.len()
        invariant
            start == out@,
            all == symbol_lines(symbol_extractor::symbols(list@)),
            add_lines(start, all, budget as nat) == add_lines(
                text@,
                all.skip(i as int),
                budget as nat,
            ),
    {
        proof {
            assert(all.skip(i as int)[0] == symbol_line(list@[i as int]@));
            assert(all.skip(i as int).drop_first() =~= all.skip(i + 1));
        }
        match write_symbol_line(&list[i]) {
            Some(line) => {
                text = text.concat(line.as_str()).concat("\n");
                if width::byte_len(text.as_str()) > budget {
                    return Some(text.concat("\n... [TRUNCATED — budget reached]\n"));
                }
            },
            None => {
                return None;
            },
        }
    }
    Some(text)
}

/// The definition lines of a text with their line numbers.
pub open spec fn definition_lines(lines: Seq<Seq<char>>, ext: Seq<char>) -> Seq<Option<Seq<char>>>
    decreases lines.len(),
{
    if lines.len() == 0 {
        Seq::empty()
    } else {
        let t = text::spec_trim(lines.last());
        let before = definition_lines(lines.drop_last(), ext);
        if definition_line(t, ext) {
            before.push(Some("L"@ + numerals::spec_decimal(lines.len()) + ": "@ + t))
        } else {
            before
        }
    }
}

fn collect_definition_lines(content: &[char], ext: &str) -> (r: Vec<String>)
    ensures
        text::texts(r@).map_values(|t: Seq<char>| Some(t)) == definition_lines(
            text::spec_lines(content@),
            ext@,
        ),
{
    let lines = text::lines(content);
    let ghost all = text::slices(lines@);
    let mut out: Vec<String> = Vec::new();
    let n: usize = lines.len();
    assert(all.take(0) =~= Seq::empty());
    assert(text::texts(out@).map_values(|t: Seq<char>| Some(t)) =~= Seq::empty());
    for i in 0..n
        invariant
            n == lines@.len(),
            all == text::slices(lines@),
            text::texts(out@).map_values(|t: Seq<char>| Some(t)) == definition_lines(
                all.take(i as int),
                ext@,
            ),
    {
        proof {
            assert(all.take(i + 1).drop_last() =~= all.take(i as int));
            assert(all.take(i + 1).last() == lines@[i as int]@);
        }
        let t = text::trim(lines[i]);
        if is_definition_line(t, ext) {
            let ghost done = text::texts(out@).map_values(|t: Seq<char>| Some(t));
            let number = numerals::decimal_usize(i + 1);
            let line = text::owned("L").concat(number.as_str()).concat(": ").concat(
                text::string_of(t).as_str(),
            );
            out.push(line);
            assert(text::texts(out@).map_values(|t: Seq<char>| Some(t)) =~= done.push(
                Some(line@),
            ));
        }
    }
    assert(all.take(all.len() as int) =~= all);
    out
}

fn add_text_lines(out: String, list: &[String], budget: usize) -> (r: String)
    ensures
        add_lines(
            out@,
            text::texts(list@).map_values(|t: Seq<char>| Some(t)),
            budget as nat,
        ) == Some(r@),
{
    let ghost all = text::texts(list@).map_values(|t: Seq<char>| Some(t));
    let ghost start = out@;
    let mut text = out;
    assert(all.skip(0) =~= all);
    for i in 0..list.len()
        invariant
            start == out@,
            all == text::texts(list@).map_values(|t: Seq<char>| Some(t)),
            add_lines(start, all, budget as nat) == add_lines(
                text@,
                all.skip(i as int),
                budget as nat,
            ),
    {
        proof {
            assert(all.skip(i as int)[0] == Some(list@[i as int]@));
            assert(all.skip(i as int).drop_first() =~= all.skip(i + 1));
        }
        text = text.concat(list[i].as_str()).concat("\n");
        if width::byte_len(text.as_str()) > budget {
            return text.concat("\n... [TRUNCATED — budget reached]\n");
        }
    }
    text
}

/// A text cut at a budget of bytes, unless the budget ends inside a character.
pub open spec fn cut_to_budget(out: Seq<char>, budget: nat) -> Option<Seq<char>> {
    if width::bytes_of(out) <= budget {
        Some(out)
    } else if width::boundary(out, budget) {
        Some(out.take(width::fitting(out, budget) as int) + "\n... [TRUNCATED]"@)
    } else {
        None
    }
}

fn cut(out: String, budget: usize) -> (r: Option<String>)
    ensures
        match r {
            Some(t) => cut_to_budget(out@, budget as nat) == Some(t@),
            None => cut_to_budget(out@, budget as nat) is None,
        },
{
    if width::byte_len(out.as_str()) <= budget {
        return Some(out);
    }
    if !width::is_boundary(out.as_str(), budget) {
        return None;
    }
    let chars = text::chars_of(out.as_str());
    let front = width::prefix(chars.as_slice(), budget);
    Some(text::string_of(front).concat("\n... [TRUNCATED]"))
}

// ── Structural summary ───────────────────────────────────────────────

/// The heading of a summary.
pub open spec fn heading(file: Seq<char>) -> Seq<char> {
    "# "@ + file + "\n\n"@
}

/// The lines that a structural summary lists: the symbols of a language with a grammar, or
/// the definition lines of any other.
pub open spec fn structure_lines(
    content: Seq<char>,
    ext: Seq<char>,
    symbols: Option<Seq<SymbolModel>>,
) -> Seq<Option<Seq<char>>> {
    if config::ast_extension(ext) {
        match symbols {
            Some(list) => symbol_lines(list),
            None => Seq::empty(),
        }
    } else {
        definition_lines(text::spec_lines(content), ext)
    }
}

/// The structural summary of a file: heading, imports and all symbols, cut at the budget.
pub open spec fn spec_structural_summary(
    content: Seq<char>,
    file: Seq<char>,
    token_budget: nat,
    symbols: Option<Seq<SymbolModel>>,
) -> Option<Seq<char>> {
    let ext = path::extension_or_empty(file);
    let budget = token_estimator::chars_for(token_budget);
    match add_lines(
        heading(file) + imports_paragraph(content, ext),
        structure_lines(content, ext, symbols),
        budget,
    ) {
        Some(out) => cut_to_budget(out, budget),
        None => None,
    }
}

/// The symbols of an optional list.
pub open spec fn symbols_of(list: Option<&[Symbol]>) -> Option<Seq<SymbolModel>> {
    match list {
        Some(v) => Some(symbol_extractor::symbols(v@)),
        None => None,
    }
}

/// Structural summary: imports and all symbol signatures (no query-based filtering), given
/// the symbols of the file. There is none where a signature or the whole would have to be cut
/// inside a character.
pub fn structural_summary(
    content: &str,
    file: &str,
    token_budget: u32,
    symbols: Option<&[Symbol]>,
) -> (r: Option<String>)
    ensures
        match r {
            Some(t) => spec_structural_summary(
                content@,
                file@,
                token_budget as nat,
                symbols_of(symbols),
            ) == Some(t@),
            None => spec_structural_summary(
                content@,
                file@,
                token_budget as nat,
                symbols_of(symbols),
            ) is None,
        },
{
    let ext = path::extension_of(file);
    let budget = token_estimator::tokens_to_chars(token_budget);
    let chars = text::chars_of(content);
    let imports = write_imports(chars.as_slice(), ext.as_str());
    let start = text::owned("# ").concat(file).concat("\n\n").concat(imports.as_str());
    let listed = if config::has_ast_support(ext.as_str()) {
        match symbols {
            Some(list) => match add_symbol_lines(start, list, budget) {
                Some(t) => t,
                None => {
                    return None;
                },
            },
            None => start,
        }
    } else {
        let lines = collect_definition_lines(chars.as_slice(), ext.as_str());
        add_text_lines(start, lines.as_slice(), budget)
    };
    cut(listed, budget)
}

// ── Scored summary ───────────────────────────────────────────────────

/// The code of a symbol as it is shown: without comments, and only the first lines of a long
/// body.
pub open spec fn shown_code(code: Seq<char>, ext: Seq<char>) -> Seq<char> {
    let stripped = spec_strip_comments(code, ext);
    let lines = text::spec_lines(stripped);
    let most = scoring::MAX_BODY_LINES_IN_SUMMARY as int;
    if lines.len() > most + 10 {
        text::spec_join(lines.take(most), "\n"@) + "\n// ... +"@ + numerals::spec_decimal(
            (lines.len() - most) as nat,
        ) + " more lines"@
    } else {
        stripped
    }
}

fn show_code(code: &str, ext: &str) -> (r: String)
    ensures
        r@ == shown_code(code@, ext@),
{
    let stripped = strip_comments(code, ext);
    let chars = text::chars_of(stripped.as_str());
    let lines = text::lines(chars.as_slice());
    let ghost all = text::slices(lines@);
    let most: usize = scoring::MAX_BODY_LINES_IN_SUMMARY;
    let n: usize = lines.len();
    assert(all.len() == n);
    if n > most + 10 {
        let mut front: Vec<String> = Vec::new();
        for i in 0..most
            invariant
                most < n,
                n == lines@.len(),
                all == text::slices(lines@),
                text::texts(front@) == all.take(i as int),
        {
            let ghost done = text::texts(front@);
            let line = text::string_of(lines[i]);
            front.push(line);
            assert(text::texts(front@) =~= done.push(line@));
            assert(done.push(line@) =~= all.take(i + 1));
        }
        let rest = numerals::decimal_usize(n - most);
        text::join(front.as_slice(), "\n").concat("\n// ... +").concat(rest.as_str()).concat(
            " more lines",
        )
    } else {
        stripped
    }
}

/// A symbol with its code.
pub open spec fn symbol_block(s: SymbolModel, ext: Seq<char>) -> Seq<char> {
    "["@ + symbol_extractor::spec_short(s.kind) + "] "@ + s.name + " L"@ + numerals::spec_decimal(
        s.start_line,
    ) + "-"@ + numerals::spec_decimal(s.end_line) + ":\n```"@ + ext + "\n"@ + shown_code(
        s.code,
        ext,
    ) + "\n```\n\n"@
}

fn write_symbol_block(s: &Symbol, ext: &str, code: &str) -> (r: String)
    requires
        code@ == shown_code(s.code@, ext@),
    ensures
        r@ == symbol_block(s@, ext@),
{
    let start = numerals::decimal_usize(s.start_line);
    let end = numerals::decimal_usize(s.end_line);
    text::owned("[").concat(s.kind.short()).concat("] ").concat(s.name.as_str()).concat(
        " L",
    ).concat(start.as_str()).concat("-").concat(end.as_str()).concat(":\n```").concat(
        ext,
    ).concat("\n").concat(code).concat("\n```\n\n")
}

/// The estimated tokens of a text, in 32 bits.
pub open spec fn tokens32(s: Seq<char>) -> int {
    token_estimator::spec_tokens(s) as int % 0x1_0000_0000
}

fn tokens_of(s: &str) -> (r: u32)
    ensures
        r == tokens32(s@),
{
    let n: u64 = token_estimator::estimate_tokens(s) as u64;
    (n % 0x1_0000_0000) as u32
}

/// What is left of a budget.
pub open spec fn left_of(budget: int, cost: int) -> int {
    if cost >= budget {
        0
    } else {
        budget - cost
    }
}

/// What a symbol adds to a summary and what is left of the budget: its code where it is very
/// relevant and the budget allows, its signature line where that fits, or nothing. There is
/// no answer where the signature would have to be cut inside a character.
pub open spec fn pack_one(score: u32, s: SymbolModel, ext: Seq<char>, left: int) -> Option<
    (Seq<char>, int),
> {
    let code_tokens = tokens32(shown_code(s.code, ext));
    let high = float32::below(scoring::RELEVANCE_HIGH_THRESHOLD, score);
    if high && code_tokens <= left {
        Some((symbol_block(s, ext), left_of(left, code_tokens + 10)))
    } else if high || float32::below(scoring::RELEVANCE_MEDIUM_THRESHOLD, score) {
        match symbol_line(s) {
            Some(line) => {
                let full = if high {
                    line
                } else {
                    "- "@ + line
                };
                if tokens32(full) <= left {
                    Some((full + "\n"@, left_of(left, tokens32(full))))
                } else {
                    Some((Seq::empty(), left))
                }
            },
            None => None,
        }
    } else {
        Some((Seq::empty(), left))
    }
}

/// What a list of scored symbols adds to a summary, as long as the budget lasts.
pub open spec fn pack(
    out: Seq<char>,
    items: Seq<(u32, SymbolModel)>,
    ext: Seq<char>,
    left: int,
) -> Option<Seq<char>>
    decreases items.len(),
{
    if items.len() == 0 || left < scoring::MIN_BUDGET_TOKENS {
        Some(out)
    } else {
        match pack_one(items[0].0, items[0].1, ext, left) {
            Some((more, rest)) => pack(out + more, items.drop_first(), ext, rest),
            None => None,
        }
    }
}

fn pack_symbol(score: u32, s: &Symbol, ext: &str, left: u32) -> (r: Option<(String, u32)>)
    ensures
        match r {
            Some((more, rest)) => pack_one(score, s@, ext@, left as int) == Some(
                (more@, rest as int),
            ),
            None => pack_one(score, s@, ext@, left as int) is None,
        },
{
    let high = float32::less(scoring::RELEVANCE_HIGH_THRESHOLD, score);
    let nothing = String::new();
    assert(nothing@ =~= Seq::empty());
    if high {
        let code = show_code(s.code.as_str(), ext);
        let code_tokens: u32 = tokens_of(code.as_str());
        if code_tokens <= left {
            let block = write_symbol_block(s, ext, code.as_str());
            let rest: u32 = if left - code_tokens <= 10 {
                0
            } else {
                left - code_tokens - 10
            };
            return Some((block, rest));
        }
    }
    if high || float32::less(scoring::RELEVANCE_MEDIUM_THRESHOLD, score) {
        match write_symbol_line(s) {
            Some(line) => {
                let full = if high {
                    line
                } else {
                    text::owned("- ").concat(line.as_str())
                };
                let cost: u32 = tokens_of(full.as_str());
                if cost <= left {
                    Some((full.concat("\n"), left - cost))
                } else {
                    Some((nothing, left))
                }
            },
            None => None,
        }
    } else {
        Some((nothing, left))
    }
}

/// Symbols with their scores, as far as there are both.
pub open spec fn scored(symbols: Seq<SymbolModel>, scores: Seq<u32>) -> Seq<(u32, SymbolModel)> {
    let n = if symbols.len() <= scores.len() {
        symbols.len()
    } else {
        scores.len()
    };
    Seq::new(n, |i: int| (scores[i], symbols[i]))
}

/// The keys by which scores are sorted, highest first.
pub open spec fn score_keys(scores: Seq<u32>) -> Seq<Descending> {
    scores.map_values(|b: u32| Descending(float32::key(b) as i64))
}

/// The elements of a list in a given order.
pub open spec fn in_order<T>(items: Seq<T>, order: Seq<usize>) -> Seq<T> {
    order.map_values(|k: usize| items[k as int])
}

/// The first elements of two lists that have elements at the same places.
pub open spec fn paired(symbols: Seq<SymbolModel>, scores: Seq<u32>) -> Seq<u32> {
    scored(symbols, scores).map_values(|p: (u32, SymbolModel)| p.0)
}

/// Whether `r` is a summary of scored symbols behind a text: the most relevant symbol first,
/// level ones as they stand in the file.
pub open spec fn packs_by_score(
    start: Seq<char>,
    symbols: Seq<SymbolModel>,
    scores: Seq<u32>,
    ext: Seq<char>,
    left: int,
    r: Option<Seq<char>>,
) -> bool {
    exists|order: Seq<usize>| #[trigger]
        sort::sorts(score_keys(paired(symbols, scores)), order) && r == pack(
            start,
            in_order(scored(symbols, scores), order),
            ext,
            left,
        )
}

/// The text of an optional string.
pub open spec fn text_of(t: Option<String>) -> Option<Seq<char>> {
    match t {
        Some(x) => Some(x@),
        None => None,
    }
}

/// The order of scores, highest first, level ones as they stand.
pub fn order_by_score(scores: &[u32]) -> (r: Vec<usize>)
    ensures
        sort::sorts(score_keys(scores@), r@),
{
    let mut keys: Vec<Descending> = Vec::new();
    for i in 0..scores.len()
        invariant
            keys@.len() == i,
            forall|j: int|
                0 <= j < i ==> #[trigger] keys@[j] == Descending(float32::key(scores@[j]) as i64),
    {
        keys.push(Descending(float32::order_key(scores[i])));
    }
    assert(keys@ =~= score_keys(scores@));
    sort::order(keys.as_slice())
}

/// A summary of scored symbols behind a text.
pub fn pack_symbols(start: String, symbols: &[Symbol], scores: &[u32], ext: &str, budget: u32) -> (r:
    Option<String>)
    ensures
        packs_by_score(
            start@,
            symbol_extractor::symbols(symbols@),
            scores@,
            ext@,
            budget as int,
            text_of(r),
        ),
{
    let n: usize = if symbols.len() <= scores.len() {
        symbols.len()
    } else {
        scores.len()
    };
    let ghost models = symbol_extractor::symbols(symbols@);
    let ghost items = scored(models, scores@);
    let used = slice_subrange(scores, 0, n);
    assert(used@ =~= paired(models, scores@));
    let order = order_by_score(used);
    let ghost list = in_order(items, order@);
    let mut out = start;
    let mut left: u32 = budget;
    assert(list.skip(0) =~= list);
    for i in 0..order.len()
        invariant
            n <= symbols@.len(),
            n <= scores@.len(),
            order@.len() == n,
            models == symbol_extractor::symbols(symbols@),
            items == scored(models, scores@),
            items.len() == n,
            forall|k: int| 0 <= k < order@.len() ==> #[trigger] order@[k] < n,
            list == in_order(items, order@),
            sort::sorts(score_keys(paired(models, scores@)), order@),
            pack(start@, list, ext@, budget as int) == pack(
                out@,
                list.skip(i as int),
                ext@,
                left as int,
            ),
    {
        if left < scoring::MIN_BUDGET_TOKENS {
            return Some(out);
        }
        let k: usize = order[i];
        proof {
            assert(list.skip(i as int)[0] == (scores@[k as int], symbols@[k as int]@));
            assert(list.skip(i as int).drop_first() =~= list.skip(i + 1));
        }
        match pack_symbol(scores[k], &symbols[k], ext, left) {
            Some((more, rest)) => {
                out = out.concat(more.as_str());
                left = rest;
            },
            None => {
                return None;
            },
        }
    }
    Some(out)
}

/// What a scored summary starts with: heading and imports.
pub open spec fn opening(content: Seq<char>, file: Seq<char>) -> Seq<char> {
    heading(file) + imports_paragraph(content, path::extension_or_empty(file))
}

/// Whether `r` is the summary of a file. Without scores, without a grammar or without symbols
/// it is the structural one.
pub open spec fn summarizes(
    content: Seq<char>,
    file: Seq<char>,
    token_budget: nat,
    scores: Option<Seq<u32>>,
    symbols: Option<Seq<SymbolModel>>,
    r: Option<Seq<char>>,
) -> bool {
    let ext = path::extension_or_empty(file);
    match (scores, symbols) {
        (Some(scores), Some(list)) => if config::ast_extension(ext) && list.len() > 0 {
            packs_by_score(
                opening(content, file),
                list,
                scores,
                ext,
                left_of(token_budget as int, tokens32(opening(content, file))),
                r,
            )
        } else {
            r == spec_structural_summary(content, file, token_budget, symbols)
        },
        _ => r == spec_structural_summary(content, file, token_budget, symbols),
    }
}

/// The scores of an optional list.
pub open spec fn scores_of(scores: Option<&[u32]>) -> Option<Seq<u32>> {
    match scores {
        Some(v) => Some(v@),
        None => None,
    }
}

/// The summary of a file, given its symbols.
pub fn summarize_symbols(
    content: &str,
    file: &str,
    token_budget: u32,
    scores: Option<&[u32]>,
    symbols: Option<&[Symbol]>,
) -> (r: Option<String>)
    ensures
        summarizes(
            content@,
            file@,
            token_budget as nat,
            scores_of(scores),
            symbols_of(symbols),
            text_of(r),
        ),
{
    let ext = path::extension_of(file);
    match (scores, symbols) {
        (Some(values), Some(list)) => {
            assert(symbol_extractor::symbols(list@).len() == list@.len());
            if config::has_ast_support(ext.as_str()) && list.len() > 0 {
                let chars = text::chars_of(content);
                let imports = write_imports(chars.as_slice(), ext.as_str());
                let start = text::owned("# ").concat(file).concat("\n\n").concat(
                    imports.as_str(),
                );
                let used: u32 = tokens_of(start.as_str());
                let left: u32 = if used >= token_budget {
                    0
                } else {
                    token_budget - used
                };
                return pack_symbols(start, list, values, ext.as_str(), left);
            }
        },
        _ => {},
    }
    structural_summary(content, file, token_budget, symbols)
}

/// Whether `r` can be the summary of a file: that of symbols which its content can give.
pub open spec fn summarizes_file(
    content: Seq<char>,
    file: Seq<char>,
    token_budget: nat,
    scores: Option<Seq<u32>>,
    r: Option<Seq<char>>,
) -> bool {
    exists|symbols: Option<Seq<SymbolModel>>| #[trigger]
        symbol_extractor::extracts(content, path::extension_or_empty(file), symbols)
            && summarizes(content, file, token_budget, scores, symbols, r)
}

/// Smart file summarization that returns only the most relevant parts within a token budget:
///
/// 1. Extracts all symbols from the syntax tree
/// 2. Takes the relevance of each symbol, as a bit pattern, where there is a query
/// 3. Includes full function bodies for high-relevance symbols
/// 4. Includes only signatures for medium-relevance symbols
/// 5. Omits low-relevance symbols entirely
/// 6. Packs results within the token budget, highest relevance first
///
/// There is no summary where a text would have to be cut inside a character.
pub fn smart_summarize(content: &str, file: &str, token_budget: u32, scores: Option<&[u32]>) -> (r:
    Option<String>)
    ensures
        summarizes_file(content@, file@, token_budget as nat, scores_of(scores), text_of(r)),
{
    let ext = path::extension_of(file);
    let found = symbol_extractor::extract_symbols(content, ext.as_str());
    assert(symbol_extractor::extracts(content@, ext@, symbol_extractor::extracted(found)));
    match found {
        Ok(symbols) => summarize_symbols(
            content,
            file,
            token_budget,
            scores,
            Some(symbols.as_slice()),
        ),
        Err(_) => summarize_symbols(content, file, token_budget, scores, None),
    }
}

// ── Laws ─────────────────────────────────────────────────────────────

/// A structural summary has no more bytes than its budget allows, but for the note that it was
/// cut.
pub proof fn law_structural_summary_keeps_to_its_budget(
    content: Seq<char>,
    file: Seq<char>,
    token_budget: nat,
    symbols: Option<Seq<SymbolModel>>,
)
    ensures
        spec_structural_summary(content, file, token_budget, symbols) matches Some(t)
            ==> width::bytes_of(t) <= token_estimator::chars_for(token_budget) + width::bytes_of(
            "\n... [TRUNCATED]"@,
        ),
{
    let ext = path::extension_or_empty(file);
    let budget = token_estimator::chars_for(token_budget);
    match add_lines(
        heading(file) + imports_paragraph(content, ext),
        structure_lines(content, ext, symbols),
        budget,
    ) {
        Some(out) => {
            width::lemma_fitting(out, budget);
            width::lemma_encode_concat(
                out.take(width::fitting(out, budget) as int),
                "\n... [TRUNCATED]"@,
            );
        },
        None => {},
    }
}

proof fn lemma_part(a: Seq<char>, p: Seq<char>, b: Seq<char>, s: Seq<char>)
    requires
        s == a + p + b,
    ensures
        text::has(s, p),
{
    text::law_has_is_a_part(s, p);
}

/// Whether a text shows a symbol: its kind in short, its name and its lines.
pub open spec fn names_symbol(t: Seq<char>, s: SymbolModel) -> bool {
    text::has(
        t,
        "["@ + symbol_extractor::spec_short(s.kind) + "] "@ + s.name + " L"@
            + numerals::spec_decimal(s.start_line) + "-"@ + numerals::spec_decimal(s.end_line),
    )
}

proof fn lemma_line_shows(s: SymbolModel, front: Seq<char>, back: Seq<char>)
    requires
        width::bytes_of(s.signature) <= 100,
    ensures
        symbol_line(s) matches Some(line) && names_symbol(front + line + back, s) && text::has(
            front + line + back,
            s.signature,
        ),
{
    let head = "["@ + symbol_extractor::spec_short(s.kind) + "] "@ + s.name + " L"@
        + numerals::spec_decimal(s.start_line) + "-"@ + numerals::spec_decimal(s.end_line);
    let line = symbol_line(s)->0;
    assert(line =~= head + ": "@ + s.signature);
    let t = front + line + back;
    assert(t =~= front + head + (": "@ + s.signature + back));
    lemma_part(front, head, ": "@ + s.signature + back, t);
    assert(t =~= (front + head + ": "@) + s.signature + back);
    lemma_part(front + head + ": "@, s.signature, back, t);
}

/// A symbol whose relevance is above 0.05 and not above 0.25 is shown with its signature wherever
/// the line for it fits what is left of the budget, and costs the tokens of that line. Where it
/// does not fit, nothing is shown and nothing spent.
pub proof fn law_medium_relevance_shows_the_signature(
    score: u32,
    s: SymbolModel,
    ext: Seq<char>,
    left: int,
)
    requires
        float32::below(0x3d4c_cccd, score),
        !float32::below(0x3e80_0000, score),
        width::bytes_of(s.signature) <= 100,
    ensures
        match (pack_one(score, s, ext, left), symbol_line(s)) {
            (Some((more, rest)), Some(line)) => {
                let cost = token_estimator::spec_tokens("- "@ + line) as int % 0x1_0000_0000;
                &&& cost <= left ==> more == "- "@ + line + "\n"@ && names_symbol(more, s)
                    && text::has(more, s.signature) && rest == left - cost
                &&& cost > left ==> more.len() == 0 && rest == left
            },
            _ => false,
        },
{
    lemma_line_shows(s, "- "@, "\n"@);
}

/// A symbol whose relevance is above 0.25 is shown with its code wherever the code fits what is
/// left of the budget, and costs the tokens of the code and ten more; else with its signature,
/// where the line for that fits.
pub proof fn law_high_relevance_shows_the_code(
    score: u32,
    s: SymbolModel,
    ext: Seq<char>,
    left: int,
)
    requires
        float32::below(0x3e80_0000, score),
        width::bytes_of(s.signature) <= 100,
        left >= 0,
    ensures
        match (pack_one(score, s, ext, left), symbol_line(s)) {
            (Some((more, rest)), Some(line)) => {
                let code = shown_code(s.code, ext);
                let code_cost = token_estimator::spec_tokens(code) as int % 0x1_0000_0000;
                let cost = token_estimator::spec_tokens(line) as int % 0x1_0000_0000;
                &&& code_cost <= left ==> names_symbol(more, s) && text::has(
                    more,
                    "\n```"@ + ext + "\n"@ + code + "\n```\n"@,
                ) && rest == (if left <= code_cost + 10 {
                    0
                } else {
                    left - code_cost - 10
                })
                &&& code_cost > left && cost <= left ==> more == line + "\n"@ && names_symbol(
                    more,
                    s,
                ) && text::has(more, s.signature) && rest == left - cost
                &&& code_cost > left && cost > left ==> more.len() == 0 && rest == left
            },
            _ => false,
        },
{
    let code = shown_code(s.code, ext);
    lemma_line_shows(s, Seq::empty(), "\n"@);
    let line = symbol_line(s)->0;
    assert(Seq::<char>::empty() + line + "\n"@ =~= line + "\n"@);
    let head = "["@ + symbol_extractor::spec_short(s.kind) + "] "@ + s.name + " L"@
        + numerals::spec_decimal(s.start_line) + "-"@ + numerals::spec_decimal(s.end_line);
    let block = symbol_block(s, ext);
    reveal_strlit(":\n```");
    reveal_strlit(":");
    reveal_strlit("\n```");
    reveal_strlit("\n```\n\n");
    reveal_strlit("\n```\n");
    reveal_strlit("\n");
    assert(":\n```"@ =~= ":"@ + "\n```"@);
    assert("\n```\n\n"@ =~= "\n```\n"@ + "\n"@);
    let fenced = "\n```"@ + ext + "\n"@ + code + "\n```\n"@;
    assert(block =~= Seq::<char>::empty() + head + (":"@ + fenced + "\n"@));
    lemma_part(Seq::empty(), head, ":"@ + fenced + "\n"@, block);
    assert(block =~= (head + ":"@) + fenced + "\n"@);
    lemma_part(head + ":"@, fenced, "\n"@, block);
}

/// A symbol whose relevance is not above 0.05 is left out and costs nothing.
pub proof fn law_low_relevance_is_left_out(score: u32, s: SymbolModel, ext: Seq<char>, left: int)
    requires
        !float32::below(0x3d4c_cccd, score),
        !float32::below(0x3e80_0000, score),
    ensures
        pack_one(score, s, ext, left) == Some((Seq::<char>::empty(), left)),
{
}

/// Symbols are added one behind the other as long as twenty tokens or more are left.
pub proof fn law_symbols_are_packed_one_by_one(
    out: Seq<char>,
    item: (u32, SymbolModel),
    items: Seq<(u32, SymbolModel)>,
    ext: Seq<char>,
    left: int,
)
    ensures
        pack(out, Seq::empty(), ext, left) == Some(out),
        left < 20 ==> pack(out, seq![item] + items, ext, left) == Some(out),
        left >= 20 ==> match pack_one(item.0, item.1, ext, left) {
            Some((more, rest)) => pack(out, seq![item] + items, ext, left) == pack(
                out + more,
                items,
                ext,
                rest,
            ),
            None => pack(out, seq![item] + items, ext, left) is None,
        },
{
    assert((seq![item] + items).drop_first() =~= items);
}

proof fn lemma_pack_begins(
    out: Seq<char>,
    items: Seq<(u32, SymbolModel)>,
    ext: Seq<char>,
    left: int,
)
    ensures
        pack(out, items, ext, left) matches Some(t) ==> text::begins(t, out),
    decreases items.len(),
{
    if items.len() == 0 || left < scoring::MIN_BUDGET_TOKENS {
        assert(out.subrange(0, out.len() as int) =~= out);
    } else {
        match pack_one(items[0].0, items[0].1, ext, left) {
            Some((more, rest)) => {
                lemma_pack_begins(out + more, items.drop_first(), ext, rest);
                match pack(out + more, items.drop_first(), ext, rest) {
                    Some(t) => {
                        assert(t.subrange(0, (out + more).len() as int) == out + more);
                        assert(t.subrange(0, out.len() as int) =~= (out + more).subrange(
                            0,
                            out.len() as int,
                        ));
                        assert((out + more).subrange(0, out.len() as int) =~= out);
                    },
                    None => {},
                }
            },
            None => {},
        }
    }
}

/// A scored summary starts with what the most relevant symbol adds: one that no other symbol
/// has a higher score than.
pub proof fn law_most_relevant_symbol_comes_first(
    start: Seq<char>,
    symbols: Seq<SymbolModel>,
    scores: Seq<u32>,
    ext: Seq<char>,
    left: int,
    r: Seq<char>,
)
    requires
        symbols.len() == scores.len(),
        symbols.len() > 0,
        left >= 20,
        packs_by_score(start, symbols, scores, ext, left, Some(r)),
    ensures
        exists|k: int|
            0 <= k < symbols.len() && (forall|j: int|
                0 <= j < symbols.len() ==> float32::key(#[trigger] scores[j]) <= float32::key(
                    scores[k],
                )) && (pack_one(scores[k], #[trigger] symbols[k], ext, left) matches Some(p)
                && text::begins(r, start + p.0)),
{
    let keys = score_keys(paired(symbols, scores));
    let order = choose|order: Seq<usize>| #[trigger]
        sort::sorts(keys, order) && Some(r) == pack(
            start,
            in_order(scored(symbols, scores), order),
            ext,
            left,
        );
    let items = in_order(scored(symbols, scores), order);
    assert(paired(symbols, scores) =~= scores);
    let k = order[0] as int;
    sort::law_first_is_least(keys, order);
    assert(items[0] == (scores[k], symbols[k]));
    assert forall|j: int| 0 <= j < symbols.len() implies float32::key(#[trigger] scores[j])
        <= float32::key(scores[k]) by {
        assert(keys[k].0 >= keys[j].0);
    }
    match pack_one(scores[k], symbols[k], ext, left) {
        Some((more, rest)) => {
            lemma_pack_begins(start + more, items.drop_first(), ext, rest);
        },
        None => {},
    }
}

/// Stripping drops blank lines and lines that are a comment of the language, keeps marks of
/// omission, and keeps every other line but a line of documentation that is not the first.
pub proof fn law_comments_are_stripped(lines: Seq<Seq<char>>, line: Seq<char>)
    ensures
        ({
            let t = text::spec_trim(line);
            let slashes = "//"@;
            let hash = "#"@;
            &&& t.len() == 0 ==> kept_lines(lines.push(line), slashes) == kept_lines(lines, slashes)
                && kept_lines(lines.push(line), hash) == kept_lines(lines, hash)
            &&& text::begins(t, "// ..."@) ==> kept_lines(lines.push(line), slashes) == kept_lines(
                lines,
                slashes,
            ).push(line)
            &&& text::begins(t, "//"@) && !text::begins(t, "// ..."@) ==> kept_lines(
                lines.push(line),
                slashes,
            ) == kept_lines(lines, slashes)
            &&& text::begins(t, "#"@) ==> kept_lines(lines.push(line), hash) == kept_lines(
                lines,
                hash,
            )
            &&& t.len() > 0 && !text::begins(t, "//"@) && (lines.len() == 0 || !text::begins(
                t,
                "/**"@,
            )) ==> kept_lines(lines.push(line), slashes) == kept_lines(lines, slashes).push(line)
            &&& t.len() > 0 && !text::begins(t, "#"@) && (lines.len() == 0 || (!text::begins(
                t,
                "\"\"\""@,
            ) && !text::begins(t, "'''"@))) ==> kept_lines(lines.push(line), hash) == kept_lines(
                lines,
                hash,
            ).push(line)
            &&& lines.len() > 0 && text::begins(t, "/**"@) && text::ends(t, "*/"@) ==> kept_lines(
                lines.push(line),
                slashes,
            ) == kept_lines(lines, slashes)
        }),
{
    assert(lines.push(line).drop_last() =~= lines);
    let t = text::spec_trim(line);
    reveal_strlit("//");
    reveal_strlit("#");
    reveal_strlit("// ...");
    reveal_strlit("/**");
    assert("//"@.len() == 2 && "#"@.len() == 1);
    if text::begins(t, "// ..."@) {
        assert(t.subrange(0, 6) == "// ..."@);
        assert(t.len() > 0);
        assert(t[0] == t.subrange(0, 6)[0]);
        if text::begins(t, "#"@) {
            assert(t.subrange(0, 1)[0] == "#"@[0]);
        }
    }
    if text::begins(t, "/**"@) {
        assert(t.subrange(0, 3)[1] == "/**"@[1]);
        if text::begins(t, "//"@) {
            assert(t.subrange(0, 2)[1] == "//"@[1]);
        }
        if text::begins(t, "// ..."@) {
            assert(t.subrange(0, 6)[1] == "// ..."@[1]);
        }
    }
}

/// How comments start in each language whose comments are stripped.
pub proof fn law_comment_marks(ext: Seq<char>)
    ensures
        ext == "js"@ || ext == "jsx"@ || ext == "ts"@ || ext == "tsx"@ || ext == "mjs"@ || ext
            == "cjs"@ || ext == "rs"@ || ext == "go"@ || ext == "c"@ || ext == "cpp"@ || ext == "h"@
            ==> comment_prefix(ext) == Some("//"@),
        comment_prefix("py"@) == Some("#"@) && comment_prefix("pyi"@) == Some("#"@),
{
    import_extractor::law_languages();
}

/// The code of a symbol is shown without comments. Of one that then has more than forty lines
/// the first thirty are shown, and how many there are more.
pub proof fn law_long_bodies_are_cut(code: Seq<char>, ext: Seq<char>)
    ensures
        ({
            let stripped = spec_strip_comments(code, ext);
            let lines = text::spec_lines(stripped);
            &&& lines.len() <= 40 ==> shown_code(code, ext) == stripped
            &&& lines.len() > 40 ==> shown_code(code, ext) == text::spec_join(lines.take(30), "\n"@)
                + "\n// ... +"@ + numerals::spec_decimal((lines.len() - 30) as nat)
                + " more lines"@
        }),
{
}

/// The lines of a summary, each with its line feed.
pub open spec fn listing(lines: Seq<Option<Seq<char>>>) -> Seq<char>
    decreases lines.len(),
{
    if lines.len() == 0 {
        Seq::empty()
    } else {
        lines[0]->0 + "\n"@ + listing(lines.drop_first())
    }
}

proof fn lemma_all_lines_added(out: Seq<char>, lines: Seq<Option<Seq<char>>>, budget: nat)
    requires
        forall|i: int| 0 <= i < lines.len() ==> (#[trigger] lines[i]) is Some,
        width::bytes_of(out + listing(lines)) <= budget,
    ensures
        add_lines(out, lines, budget) == Some(out + listing(lines)),
    decreases lines.len(),
{
    if lines.len() == 0 {
        assert(out + listing(lines) =~= out);
    } else {
        let longer = out + lines[0]->0 + "\n"@;
        let rest = lines.drop_first();
        assert(lines[0] is Some);
        assert(out + listing(lines) =~= longer + listing(rest));
        width::lemma_encode_concat(longer, listing(rest));
        assert forall|i: int| 0 <= i < rest.len() implies (#[trigger] rest[i]) is Some by {
            assert(rest[i] == lines[i + 1]);
        }
        lemma_all_lines_added(longer, rest, budget);
    }
}

/// Whether a text stands in a listing with its line feed.
pub open spec fn listed_at(t: Seq<char>, a: Seq<char>, line: Seq<char>, b: Seq<char>) -> bool {
    t == a + (line + "\n"@) + b
}

proof fn lemma_listed(lines: Seq<Option<Seq<char>>>, k: int)
    requires
        0 <= k < lines.len(),
    ensures
        exists|a: Seq<char>, b: Seq<char>| #[trigger]
            listed_at(listing(lines), a, lines[k]->0, b),
    decreases lines.len(),
{
    let rest = lines.drop_first();
    if k == 0 {
        assert(listing(lines) =~= Seq::<char>::empty() + (lines[0]->0 + "\n"@) + listing(rest));
        assert(listed_at(listing(lines), Seq::empty(), lines[k]->0, listing(rest)));
    } else {
        lemma_listed(rest, k - 1);
        assert(rest[k - 1] == lines[k]);
        let (a, b) = choose|a: Seq<char>, b: Seq<char>| #[trigger]
            listed_at(listing(rest), a, lines[k]->0, b);
        let front = lines[0]->0 + "\n"@;
        assert(listing(lines) =~= (front + a) + (lines[k]->0 + "\n"@) + b);
        assert(listed_at(listing(lines), front + a, lines[k]->0, b));
    }
}

/// A structural summary that fits its budget, which is three and a half bytes for each token,
/// names the file, and shows every symbol with its signature.
pub proof fn law_structural_summary_lists_all_symbols(
    content: Seq<char>,
    file: Seq<char>,
    token_budget: nat,
    list: Seq<SymbolModel>,
    k: int,
)
    requires
        config::ast_extension(path::extension_or_empty(file)),
        0 <= k < list.len(),
        forall|i: int|
            0 <= i < list.len() ==> width::bytes_of((#[trigger] list[i]).signature) <= 100,
        width::bytes_of(opening(content, file) + listing(symbol_lines(list))) <= token_budget * 7
            / 2,
        token_budget * 7 / 2 <= usize::MAX,
    ensures
        spec_structural_summary(content, file, token_budget, Some(list)) matches Some(t)
            && text::begins(t, "# "@ + file + "\n\n"@) && names_symbol(t, list[k]) && text::has(
            t,
            list[k].signature,
        ),
{
    let lines = symbol_lines(list);
    let out = opening(content, file);
    assert forall|i: int| 0 <= i < lines.len() implies (#[trigger] lines[i]) is Some by {
        assert(width::bytes_of(list[i].signature) <= 100);
        lemma_line_shows(list[i], Seq::empty(), Seq::empty());
        assert(lines[i] == symbol_line(list[i]));
    }
    lemma_all_lines_added(out, lines, token_budget * 7 / 2);
    lemma_listed(lines, k);
    let t = out + listing(lines);
    let (a, b) = choose|a: Seq<char>, b: Seq<char>| #[trigger]
        listed_at(listing(lines), a, lines[k]->0, b);
    assert(lines[k] == symbol_line(list[k]));
    assert(width::bytes_of(list[k].signature) <= 100);
    lemma_line_shows(list[k], out + a, "\n"@ + b);
    assert(t =~= (out + a) + lines[k]->0 + ("\n"@ + b));
    let h = "# "@ + file + "\n\n"@;
    assert(t.subrange(0, h.len() as int) =~= h);
}

/// The imports of a file are the lines that begin as imports of its language do, and no others.
pub proof fn law_import_lines(lines: Seq<Seq<char>>, line: Seq<char>)
    ensures
        ({
            let t = text::spec_trim(line);
            let more = lines.push(line);
            &&& import_lines(more, "py"@) == (if text::begins(t, "import "@) || text::begins(
                t,
                "from "@,
            ) {
                import_lines(lines, "py"@).push(line)
            } else {
                import_lines(lines, "py"@)
            })
            &&& import_lines(more, "js"@) == (if text::begins(t, "import "@) || (text::begins(
                t,
                "const "@,
            ) && text::has(t, "require("@)) {
                import_lines(lines, "js"@).push(line)
            } else {
                import_lines(lines, "js"@)
            })
            &&& import_lines(more, "rs"@) == (if text::begins(t, "use "@) || text::begins(
                t,
                "mod "@,
            ) {
                import_lines(lines, "rs"@).push(line)
            } else {
                import_lines(lines, "rs"@)
            })
            &&& import_lines(more, "go"@) == (if text::begins(t, "import "@) {
                import_lines(lines, "go"@).push(line)
            } else {
                import_lines(lines, "go"@)
            })
            &&& import_lines(more, "c"@) == (if text::begins(t, "#include"@) {
                import_lines(lines, "c"@).push(line)
            } else {
                import_lines(lines, "c"@)
            })
        }),
{
    import_extractor::law_languages();
    assert(lines.push(line).drop_last() =~= lines);
}

proof fn lemma_inserted(list: Seq<Seq<char>>, name: Seq<char>)
    ensures
        collections::spec_insert(list, name).contains(name),
{
    if !list.contains(name) {
        assert(list.push(name)[list.len() as int] == name);
    }
}

proof fn lemma_stripped_ends(s: Seq<char>, p: Seq<char>, name: Seq<char>)
    requires
        text::ends(s, name),
        s.len() == name.len() || s[s.len() - name.len() - 1] == '/',
        text::without(name, '/'),
        name.len() > 0,
        p.len() > 0,
        p.last() == '/',
    ensures
        ({
            let r = text::spec_strip_leading(s, p);
            text::ends(r, name) && (r.len() == name.len() || r[r.len() - name.len() - 1] == '/')
        }),
    decreases s.len(),
{
    if text::begins(s, p) {
        let rest = s.skip(p.len() as int);
        let n = s.len() - name.len();
        assert(s.subrange(0, p.len() as int)[p.len() - 1] == p[p.len() - 1]);
        assert(p.len() <= n) by {
            if p.len() > n {
                assert(s.subrange(n, s.len() as int)[p.len() - 1 - n] == name[p.len() - 1 - n]);
            }
        }
        assert(rest.subrange(rest.len() - name.len(), rest.len() as int) =~= s.subrange(
            n,
            s.len() as int,
        ));
        if p.len() < n {
            assert(rest[rest.len() - name.len() - 1] == s[n - 1]);
        }
        lemma_stripped_ends(rest, p, name);
    }
}

proof fn lemma_short_name(dirs: Seq<char>, name: Seq<char>)
    requires
        name.len() > 0,
        text::without(name, '/'),
        dirs.len() > 0 ==> dirs.last() == '/',
    ensures
        short_module(dirs + name) == name,
{
    let s = dirs + name;
    reveal_strlit("./");
    reveal_strlit("../");
    assert(s.subrange(s.len() - name.len(), s.len() as int) =~= name);
    lemma_stripped_ends(s, "./"@, name);
    let r = text::spec_strip_leading(s, "./"@);
    lemma_stripped_ends(r, "../"@, name);
    let z = text::spec_strip_leading(r, "../"@);
    text::lemma_rfind(z, '/');
    let n = z.len() - name.len();
    assert(z.subrange(n, z.len() as int) == name);
    assert forall|j: int| n <= j < z.len() implies z[j] != '/' by {
        assert(z.subrange(n, z.len() as int)[j - n] == z[j]);
    }
    match text::spec_rfind(z, '/') {
        Some(i) => {
            assert(i == n - 1);
            assert(z.skip(i + 1) =~= z.subrange(n, z.len() as int));
        },
        None => {
            assert(n == 0);
            assert(z =~= z.subrange(0, z.len() as int));
        },
    }
}

/// A file that a line of JavaScript imports from a quoted path is named by what follows the last
/// slash of the path.
pub proof fn law_javascript_modules_are_named(
    lines: Seq<Seq<char>>,
    line: Seq<char>,
    head: Seq<char>,
    dirs: Seq<char>,
    name: Seq<char>,
    tail: Seq<char>,
)
    requires
        name.len() > 0,
        text::without(name, '/') && text::without(name, '\''),
        text::without(head, '\'') && text::without(dirs, '\''),
        dirs.len() > 0 ==> dirs.last() == '/',
        text::spec_trim(line) == head + seq!['\''] + (dirs + name) + seq!['\''] + tail,
    ensures
        module_names(lines.push(line), "js"@).contains(name),
{
    import_extractor::law_languages();
    assert(lines.push(line).drop_last() =~= lines);
    let m = dirs + name;
    assert forall|j: int| 0 <= j < m.len() implies #[trigger] m[j] != '\'' by {
        if j < dirs.len() {
            assert(m[j] == dirs[j]);
        } else {
            assert(m[j] == name[j - dirs.len()]);
        }
    }
    import_extractor::lemma_between(head, '\'', m, tail);
    lemma_short_name(dirs, name);
    lemma_inserted(module_names(lines, "js"@), name);
}

/// A module that a line of Python imports from is named.
pub proof fn law_python_modules_are_named(
    lines: Seq<Seq<char>>,
    line: Seq<char>,
    name: Seq<char>,
    tail: Seq<char>,
)
    requires
        name.len() > 0,
        text::solid(name),
        text::without(name, '/'),
        tail.len() == 0 || text::char_is_whitespace(tail[0]),
        text::spec_trim(line) == "from "@ + (name + tail),
    ensures
        module_names(lines.push(line), "py"@).contains(name),
{
    import_extractor::law_languages();
    assert(lines.push(line).drop_last() =~= lines);
    let rest = name + tail;
    assert(("from "@ + rest).subrange(0, "from "@.len() as int) =~= "from "@);
    assert(("from "@ + rest).skip("from "@.len() as int) =~= rest);
    text::law_words(Seq::empty(), name, tail);
    assert(Seq::<char>::empty() + name + tail =~= rest);
    lemma_short_name(Seq::empty(), name);
    assert(Seq::<char>::empty() + name =~= name);
    lemma_inserted(module_names(lines, "py"@), name);
}

/// The paragraph on imports says how many lines import something, and names the modules where any
/// is known; without such lines there is none.
pub proof fn law_imports_are_told(content: Seq<char>, ext: Seq<char>)
    ensures
        ({
            let lines = import_lines(text::spec_lines(content), ext);
            let names = module_names(lines, ext);
            let count = numerals::spec_decimal(lines.len());
            &&& lines.len() == 0 ==> imports_paragraph(content, ext).len() == 0
            &&& lines.len() > 0 && names.len() == 0 ==> imports_paragraph(content, ext)
                == "Imports: "@ + count + "\n\n"@
            &&& lines.len() > 0 && names.len() > 0 ==> imports_paragraph(content, ext)
                == "Imports("@ + count + "): "@ + text::spec_join(names, ", "@) + "\n\n"@
        }),
{
}

/// A file whose symbols are known and have scores is summarized by them, the budget being what the
/// opening leaves of it; any other file is summarized by its structure.
pub proof fn law_scored_symbols_are_packed(
    content: Seq<char>,
    file: Seq<char>,
    token_budget: nat,
    scores: Option<Seq<u32>>,
    symbols: Option<Seq<SymbolModel>>,
    r: Option<Seq<char>>,
)
    requires
        summarizes(content, file, token_budget, scores, symbols, r),
    ensures
        ({
            let ext = path::extension_or_empty(file);
            let start = "# "@ + file + "\n\n"@ + imports_paragraph(content, ext);
            let cost = token_estimator::spec_tokens(start) as int % 0x1_0000_0000;
            let by_score = scores is Some && symbols is Some && symbols->0.len() > 0
                && config::ast_extension(ext);
            &&& by_score && cost < token_budget ==> packs_by_score(
                start,
                symbols->0,
                scores->0,
                ext,
                token_budget - cost,
                r,
            )
            &&& by_score && cost >= token_budget ==> packs_by_score(
                start,
                symbols->0,
                scores->0,
                ext,
                0,
                r,
            )
            &&& !by_score ==> r == spec_structural_summary(content, file, token_budget, symbols)
        }),
{
}

proof fn lemma_stripped(p: Seq<char>, rest: Seq<char>)
    ensures
        text::spec_strip_prefix(p + rest, p) == Some(rest),
{
    assert((p + rest).subrange(0, p.len() as int) =~= p);
    assert((p + rest).skip(p.len() as int) =~= rest);
}

/// A line of Rust that uses a path of a crate names the crate.
pub proof fn law_rust_crates_are_named(
    lines: Seq<Seq<char>>,
    line: Seq<char>,
    name: Seq<char>,
    tail: Seq<char>,
)
    requires
        name.len() > 0,
        text::without(name, '/') && text::without(name, ':') && name.last() != ';',
        text::spec_trim(line) == "use "@ + (name + "::"@ + tail),
    ensures
        module_names(lines.push(line), "rs"@).contains(name),
{
    import_extractor::law_languages();
    assert(lines.push(line).drop_last() =~= lines);
    let rest = name + "::"@ + tail;
    lemma_stripped("use "@, rest);
    reveal_strlit("::");
    import_extractor::lemma_before_mark(name, "::"@, tail);
    lemma_short_name(Seq::empty(), name);
    assert(Seq::<char>::empty() + name =~= name);
    lemma_inserted(module_names(lines, "rs"@), name);
}

/// A package that a line of Go imports is named by what follows the last slash of its path.
pub proof fn law_go_packages_are_named(
    lines: Seq<Seq<char>>,
    line: Seq<char>,
    head: Seq<char>,
    dirs: Seq<char>,
    name: Seq<char>,
    tail: Seq<char>,
)
    requires
        name.len() > 0,
        text::without(name, '/') && text::without(name, '"'),
        text::without(head, '"') && text::without(dirs, '"'),
        dirs.len() > 0 ==> dirs.last() == '/',
        text::spec_trim(line) == head + seq!['"'] + (dirs + name + "\""@ + tail),
    ensures
        module_names(lines.push(line), "go"@).contains(name),
{
    import_extractor::law_languages();
    assert(lines.push(line).drop_last() =~= lines);
    let t = text::spec_trim(line);
    let m = dirs + name;
    let rest = m + "\""@ + tail;
    text::lemma_find_char_from(t, '"', 0);
    let n = head.len() as int;
    assert(t[n] == '"');
    assert forall|j: int| 0 <= j < n implies t[j] != '"' by {
        assert(t[j] == head[j]);
    }
    assert(t.skip(n + 1) =~= rest);
    reveal_strlit("\"");
    assert forall|j: int| 0 <= j < m.len() implies #[trigger] m[j] != '"' by {
        if j < dirs.len() {
            assert(m[j] == dirs[j]);
        } else {
            assert(m[j] == name[j - dirs.len()]);
        }
    }
    import_extractor::lemma_before_mark(m, "\""@, tail);
    text::lemma_rfind(m, '/');
    let k = dirs.len() as int;
    assert forall|j: int| k <= j < m.len() implies m[j] != '/' by {
        assert(m[j] == name[j - k]);
    }
    if k > 0 {
        assert(m[k - 1] == '/');
        assert(m.skip(k) =~= name);
    } else {
        assert(m =~= name);
    }
    lemma_short_name(Seq::empty(), name);
    assert(Seq::<char>::empty() + name =~= name);
    lemma_inserted(module_names(lines, "go"@), name);
}

/// A signature of more than a hundred bytes is cut at a hundred where a symbol is listed.
pub proof fn law_listed_signatures_are_cut(s: SymbolModel)
    ensures
        match (symbol_line(s), width::spec_truncate_signature(s.signature, 100)) {
            (Some(line), Some(sig)) => line == "["@ + symbol_extractor::spec_short(s.kind) + "] "@
                + s.name + " L"@ + numerals::spec_decimal(s.start_line) + "-"@
                + numerals::spec_decimal(s.end_line) + ": "@ + sig,
            (None, None) => true,
            _ => false,
        },
{
}

/// Lines are listed until the budget is passed; the line that passes it is the last, and a note says
/// so.
pub proof fn law_listing_stops_at_the_budget(
    out: Seq<char>,
    line: Seq<char>,
    lines: Seq<Option<Seq<char>>>,
    budget: nat,
)
    ensures
        ({
            let list = seq![Some(line)] + lines;
            let longer = out + line + "\n"@;
            &&& add_lines(out, Seq::empty(), budget) == Some(out)
            &&& width::bytes_of(longer) <= budget ==> add_lines(out, list, budget) == add_lines(
                longer,
                lines,
                budget,
            )
            &&& width::bytes_of(longer) > budget ==> add_lines(out, list, budget) == Some(
                longer + "\n... [TRUNCATED — budget reached]\n"@,
            )
        }),
{
    assert((seq![Some(line)] + lines).drop_first() =~= lines);
}

proof fn lemma_no_mark(s: Seq<char>, p: Seq<char>)
    requires
        p.len() > 0,
        text::without(s, p[0]),
    ensures
        import_extractor::before_text(s, p) == s,
{
    text::lemma_find_from(s, p, 0);
    match text::spec_find(s, p) {
        Some(i) => {
            assert(s.subrange(i, i + p.len())[0] == p[0]);
            assert(s[i] == s.subrange(i, i + p.len())[0]);
        },
        None => {},
    }
}

/// A crate that a line of Rust uses by its name alone is named without the closing mark.
pub proof fn law_rust_crates_alone_are_named(lines: Seq<Seq<char>>, line: Seq<char>, name: Seq<char>)
    requires
        name.len() > 0,
        text::without(name, '/') && text::without(name, ':') && name.last() != ';',
        text::spec_trim(line) == "use "@ + name.push(';'),
    ensures
        module_names(lines.push(line), "rs"@).contains(name),
{
    import_extractor::law_languages();
    assert(lines.push(line).drop_last() =~= lines);
    let rest = name.push(';');
    lemma_stripped("use "@, rest);
    reveal_strlit("::");
    assert forall|j: int| 0 <= j < rest.len() implies #[trigger] rest[j] != ':' by {
        if j < name.len() {
            assert(rest[j] == name[j]);
        }
    }
    lemma_no_mark(rest, "::"@);
    text::law_strip(name, "::"@, ';');
    lemma_short_name(Seq::empty(), name);
    assert(Seq::<char>::empty() + name =~= name);
    lemma_inserted(module_names(lines, "rs"@), name);
}

/// The first of the modules that a line of Python imports is named.
pub proof fn law_python_imports_are_named(
    lines: Seq<Seq<char>>,
    line: Seq<char>,
    name: Seq<char>,
    more: Seq<char>,
)
    requires
        name.len() > 0,
        text::solid(name),
        text::without(name, '/') && text::without(name, ','),
        text::spec_trim(line) == "import "@ + name || text::spec_trim(line) == "import "@ + (name
            + ","@ + more),
    ensures
        module_names(lines.push(line), "py"@).contains(name),
{
    import_extractor::law_languages();
    assert(lines.push(line).drop_last() =~= lines);
    reveal_strlit("from ");
    reveal_strlit("import ");
    reveal_strlit(",");
    let t = text::spec_trim(line);
    if text::begins(t, "from "@) {
        assert(t.subrange(0, 5)[0] == 'f');
        assert(t[0] == 'i');
    }
    lemma_stripped("import "@, name);
    lemma_stripped("import "@, name + ","@ + more);
    lemma_no_mark(name, ","@);
    import_extractor::lemma_before_mark(name, ","@, more);
    text::law_trim(Seq::empty(), name, Seq::empty());
    assert(Seq::<char>::empty() + name + Seq::<char>::empty() =~= name);
    lemma_short_name(Seq::empty(), name);
    assert(Seq::<char>::empty() + name =~= name);
    lemma_inserted(module_names(lines, "py"@), name);
}

/// A line behind the first that is documentation and nothing else is dropped: in Python one that
/// begins and ends with three quotes of one sort, in other languages one that begins with `/**` and
/// ends with `*/`. One that only begins so is kept.
pub proof fn law_documentation_is_stripped(lines: Seq<Seq<char>>, line: Seq<char>)
    requires
        lines.len() > 0,
    ensures
        ({
            let t = text::spec_trim(line);
            let double = "\"\"\""@;
            let single = "'''"@;
            let after = kept_lines(lines.push(line), "#"@);
            let before = kept_lines(lines, "#"@);
            &&& t.len() >= 6 && text::begins(t, double) && text::ends(t, double) ==> after == before
            &&& t.len() >= 6 && text::begins(t, single) && text::ends(t, single) ==> after == before
            &&& text::begins(t, double) && (t.len() < 6 || !text::ends(t, double)) ==> after
                == before.push(line)
            &&& text::begins(t, single) && (t.len() < 6 || !text::ends(t, single)) ==> after
                == before.push(line)
            &&& text::begins(t, "/**"@) && !text::ends(t, "*/"@) ==> kept_lines(
                lines.push(line),
                "//"@,
            ) == kept_lines(lines, "//"@).push(line)
        }),
{
    assert(lines.push(line).drop_last() =~= lines);
    let t = text::spec_trim(line);
    reveal_strlit("\"\"\"");
    reveal_strlit("'''");
    reveal_strlit("#");
    reveal_strlit("//");
    reveal_strlit("// ...");
    reveal_strlit("/**");
    assert("#"@.len() == 1 && "//"@.len() == 2);
    if text::begins(t, "\"\"\""@) {
        assert(t.subrange(0, 3)[0] == '"');
        assert(t[0] == '"');
    }
    if text::begins(t, "'''"@) {
        assert(t.subrange(0, 3)[0] == '\'');
        assert(t[0] == '\'');
    }
    if text::begins(t, "/**"@) {
        assert(t.subrange(0, 3)[1] == '*');
        assert(t[1] == '*');
    }
    if text::begins(t, "#"@) {
        assert(t.subrange(0, 1)[0] == '#');
    }
    if text::begins(t, "// ..."@) {
        assert(t.subrange(0, 6)[0] == '/');
        assert(t.subrange(0, 6)[1] == '/');
    }
    if text::begins(t, "//"@) {
        assert(t.subrange(0, 2)[1] == '/');
    }
}

} // verus!
