//! Imports of source files, and which file of the project each of them means.

use crate::collections;
use crate::collections::{NameSet, Tally};
use crate::path;
use crate::text;
use vstd::prelude::*;
use vstd::slice::slice_subrange;

verus! {

// ── Language families ────────────────────────────────────────────────

/// The languages whose imports are known.
#[derive(Debug, Clone, Copy, PartialEq, Eq, Structural)]
pub enum Language {
    JavaScript,
    Python,
    Rust,
    Go,
    C,
}

/// The language of a file extension.
pub open spec fn spec_language(ext: Seq<char>) -> Option<Language> {
    if ext == "js"@ || ext == "jsx"@ || ext == "ts"@ || ext == "tsx"@ || ext == "mjs"@ || ext
        == "cjs"@ {
        Some(Language::JavaScript)
    } else if ext == "py"@ || ext == "pyi"@ {
        Some(Language::Python)
    } else if ext == "rs"@ {
        Some(Language::Rust)
    } else if ext == "go"@ {
        Some(Language::Go)
    } else if ext == "c"@ || ext == "h"@ || ext == "cpp"@ || ext == "cc"@ || ext == "cxx"@ || ext
        == "hpp"@ || ext == "hxx"@ {
        Some(Language::C)
    } else {
        None
    }
}

/// The language of a file extension.
pub fn language_of(ext: &str) -> (r: Option<Language>)
    ensures
        r == spec_language(ext@),
{
    if text::same(ext, "js") || text::same(ext, "jsx") || text::same(ext, "ts") || text::same(
        ext,
        "tsx",
    ) || text::same(ext, "mjs") || text::same(ext, "cjs") {
        Some(Language::JavaScript)
    } else if text::same(ext, "py") || text::same(ext, "pyi") {
        Some(Language::Python)
    } else if text::same(ext, "rs") {
        Some(Language::Rust)
    } else if text::same(ext, "go") {
        Some(Language::Go)
    } else if text::same(ext, "c") || text::same(ext, "h") || text::same(ext, "cpp") || text::same(
        ext,
        "cc",
    ) || text::same(ext, "cxx") || text::same(ext, "hpp") || text::same(ext, "hxx") {
        Some(Language::C)
    } else {
        None
    }
}

// ── Quoted text ──────────────────────────────────────────────────────

/// The text between the first two quotes of one sort.
pub open spec fn between(s: Seq<char>, quote: char) -> Option<Seq<char>> {
    match text::spec_find_char(s, quote) {
        Some(i) => match text::spec_find_char(s.skip(i + 1), quote) {
            Some(e) => Some(s.skip(i + 1).take(e)),
            None => None,
        },
        None => None,
    }
}

/// The first text in double quotes, or else the first in single quotes.
pub open spec fn spec_first_quoted(s: Seq<char>) -> Option<Seq<char>> {
    match between(s, '"') {
        Some(t) => Some(t),
        None => between(s, '\''),
    }
}

/// The first quoted text after a keyword.
pub open spec fn spec_quoted_after(line: Seq<char>, keyword: Seq<char>) -> Option<Seq<char>> {
    match text::spec_find(line, keyword) {
        Some(i) => spec_first_quoted(line.skip(i + keyword.len())),
        None => None,
    }
}

/// The text between the first two quotes of one sort.
pub fn quoted_by<'a>(s: &'a [char], quote: char) -> (r: Option<&'a [char]>)
    ensures
        match r {
            Some(t) => between(s@, quote) == Some(t@),
            None => between(s@, quote) is None,
        },
{
    match text::find_char(s, quote) {
        Some(i) => {
            let n: usize = s.len();
            let rest = slice_subrange(s, i + 1, n);
            assert(rest@ =~= s@.skip(i + 1));
            match text::find_char(rest, quote) {
                Some(e) => {
                    let inner = slice_subrange(rest, 0, e);
                    assert(inner@ =~= rest@.take(e as int));
                    Some(inner)
                },
                None => None,
            }
        },
        None => None,
    }
}

fn extract_first_quoted<'a>(s: &'a [char]) -> (r: Option<&'a [char]>)
    ensures
        match r {
            Some(t) => spec_first_quoted(s@) == Some(t@),
            None => spec_first_quoted(s@) is None,
        },
{
    match quoted_by(s, '"') {
        Some(t) => Some(t),
        None => quoted_by(s, '\''),
    }
}

fn extract_quoted_after<'a>(line: &'a [char], keyword: &str) -> (r: Option<&'a [char]>)
    ensures
        match r {
            Some(t) => spec_quoted_after(line@, keyword@) == Some(t@),
            None => spec_quoted_after(line@, keyword@) is None,
        },
{
    match text::find(line, keyword) {
        Some(i) => {
            let n: usize = line.len();
            let k: usize = text::chars_of(keyword).len();
            let after = slice_subrange(line, i + k, n);
            assert(after@ =~= line@.skip(i + keyword@.len()));
            extract_first_quoted(after)
        },
        None => None,
    }
}

// ── Imports of a line ────────────────────────────────────────────────

/// A list of the text that is there.
pub open spec fn listed(t: Option<Seq<char>>) -> Seq<Seq<char>> {
    match t {
        Some(x) => seq![x],
        None => Seq::empty(),
    }
}

/// The imports of each line of a list, one after another.
pub open spec fn over_lines(
    lines: Seq<Seq<char>>,
    f: spec_fn(Seq<char>) -> Seq<Seq<char>>,
) -> Seq<Seq<char>>
    decreases lines.len(),
{
    if lines.len() == 0 {
        Seq::empty()
    } else {
        over_lines(lines.drop_last(), f) + f(lines.last())
    }
}

fn push_text(out: &mut Vec<String>, t: Option<&[char]>)
    ensures
        text::texts(final(out)@) == text::texts(old(out)@) + listed(
            match t {
                Some(x) => Some(x@),
                None => None,
            },
        ),
{
    let ghost before = text::texts(out@);
    match t {
        Some(x) => {
            let s = text::string_of(x);
            out.push(s);
            assert(text::texts(out@) =~= before + seq![s@]);
        },
        None => {
            assert(before =~= before + Seq::<Seq<char>>::empty());
        },
    }
}

/// What a JavaScript or TypeScript line imports: `import ... from 'x'`, `require('x')` and
/// `export ... from 'x'`.
pub open spec fn js_imports(line: Seq<char>) -> Seq<Seq<char>> {
    let s = text::spec_trim(line);
    listed(
        if text::begins(s, "import "@) {
            spec_quoted_after(s, "from"@)
        } else {
            None
        },
    ) + listed(spec_quoted_after(s, "require("@)) + listed(
        if text::begins(s, "export "@) && text::has(s, " from "@) {
            spec_quoted_after(s, "from"@)
        } else {
            None
        },
    )
}

fn extract_js_line(line: &[char], out: &mut Vec<String>)
    ensures
        text::texts(final(out)@) == text::texts(old(out)@) + js_imports(line@),
{
    let ghost before = text::texts(out@);
    let s = text::trim(line);
    let imported = if text::starts_with(s, "import ") {
        extract_quoted_after(s, "from")
    } else {
        None
    };
    push_text(out, imported);
    push_text(out, extract_quoted_after(s, "require("));
    let exported = if text::starts_with(s, "export ") && text::contains(s, " from ") {
        extract_quoted_after(s, "from")
    } else {
        None
    };
    push_text(out, exported);
    assert(text::texts(out@) =~= before + js_imports(line@));
}

/// What stands before the first `p`.
pub open spec fn before_text(s: Seq<char>, p: Seq<char>) -> Seq<char> {
    match text::spec_find(s, p) {
        Some(i) => s.take(i),
        None => s,
    }
}

/// What stands before the first `p`.
pub fn cut_before<'a>(s: &'a [char], p: &str) -> (r: &'a [char])
    ensures
        r@ == before_text(s@, p@),
{
    match text::find(s, p) {
        Some(i) => {
            assert(s@.subrange(0, i as int) =~= s@.take(i as int));
            slice_subrange(s, 0, i)
        },
        None => s,
    }
}

/// A list of the text, unless it is empty.
pub open spec fn if_any(t: Seq<char>) -> Seq<Seq<char>> {
    if t.len() == 0 {
        Seq::empty()
    } else {
        seq![t]
    }
}

fn push_if_any(out: &mut Vec<String>, t: &[char])
    ensures
        text::texts(final(out)@) == text::texts(old(out)@) + if_any(t@),
{
    if t.len() == 0 {
        push_text(out, None);
    } else {
        push_text(out, Some(t));
    }
}

/// The module that one part of a Python `import` names.
pub open spec fn python_part(part: Seq<char>) -> Seq<Seq<char>> {
    if_any(text::spec_trim(before_text(text::spec_trim(part), " as "@)))
}

/// The modules that the parts of a Python `import` name.
pub open spec fn python_parts(parts: Seq<Seq<char>>) -> Seq<Seq<char>>
    decreases parts.len(),
{
    if parts.len() == 0 {
        Seq::empty()
    } else {
        python_parts(parts.drop_last()) + python_part(parts.last())
    }
}

/// What a Python line imports: `from x import ...` or `import x, y as z`.
pub open spec fn python_imports(line: Seq<char>) -> Seq<Seq<char>> {
    let s = text::spec_trim(line);
    match text::spec_strip_prefix(s, "from "@) {
        Some(rest) => if text::spec_words(rest).len() > 0 {
            seq![text::spec_words(rest)[0]]
        } else {
            Seq::empty()
        },
        None => match text::spec_strip_prefix(s, "import "@) {
            Some(rest) => python_parts(text::spec_split(rest, ',')),
            None => Seq::empty(),
        },
    }
}

fn extract_python_line(line: &[char], out: &mut Vec<String>)
    ensures
        text::texts(final(out)@) == text::texts(old(out)@) + python_imports(line@),
{
    let ghost before = text::texts(out@);
    let s = text::trim(line);
    match text::strip_prefix(s, "from ") {
        Some(rest) => {
            let words = text::words(rest);
            assert(text::slices(words@).len() == words@.len());
            if words.len() > 0 {
                assert(text::slices(words@)[0] == words@[0]@);
                push_text(out, Some(words[0]));
            } else {
                assert(before =~= before + Seq::<Seq<char>>::empty());
            }
        },
        None => match text::strip_prefix(s, "import ") {
            Some(rest) => {
                let parts = text::split(rest, ',');
                let ghost all = text::slices(parts@);
                assert(all.take(0) =~= Seq::empty());
                assert(before =~= before + python_parts(all.take(0)));
                for i in 0..parts.len()
                    invariant
                        all == text::slices(parts@),
                        text::texts(out@) == before + python_parts(all.take(i as int)),
                {
                    proof {
                        assert(all.take(i + 1).drop_last() =~= all.take(i as int));
                        assert(all.take(i + 1).last() == parts@[i as int]@);
                    }
                    let module = text::trim(cut_before(text::trim(parts[i]), " as "));
                    push_if_any(out, module);
                    assert(before + python_parts(all.take(i as int)) + python_part(
                        parts@[i as int]@,
                    ) =~= before + python_parts(all.take(i + 1)));
                }
                assert(all.take(all.len() as int) =~= all);
            },
            None => {
                assert(before =~= before + Seq::<Seq<char>>::empty());
            },
        },
    }
}

/// What a Rust line imports: the module of `use crate::x...` or of `mod x;`.
pub open spec fn rust_imports(line: Seq<char>) -> Seq<Seq<char>> {
    let s = text::spec_trim(line);
    let used = match text::spec_strip_prefix(s, "use crate::"@) {
        Some(rest) => if_any(
            text::spec_strip_trailing(before_text(before_text(rest, "{"@), "::"@), ';'),
        ),
        None => Seq::empty(),
    };
    used + match text::spec_strip_prefix(s, "mod "@) {
        Some(rest) => if text::ends(s, ";"@) {
            if_any(text::spec_trim(text::spec_strip_trailing(rest, ';')))
        } else {
            Seq::empty()
        },
        None => Seq::empty(),
    }
}

fn extract_rust_line(line: &[char], out: &mut Vec<String>)
    ensures
        text::texts(final(out)@) == text::texts(old(out)@) + rust_imports(line@),
{
    let ghost before = text::texts(out@);
    let s = text::trim(line);
    match text::strip_prefix(s, "use crate::") {
        Some(rest) => {
            let module = text::strip_trailing(cut_before(cut_before(rest, "{"), "::"), ';');
            push_if_any(out, module);
        },
        None => {
            push_text(out, None);
        },
    }
    match text::strip_prefix(s, "mod ") {
        Some(rest) => {
            if text::ends_with(s, ";") {
                push_if_any(out, text::trim(text::strip_trailing(rest, ';')));
            } else {
                push_text(out, None);
            }
        },
        None => {
            push_text(out, None);
        },
    }
    assert(text::texts(out@) =~= before + rust_imports(line@));
}

/// What a C or C++ line includes from the project: `#include "x"`.
pub open spec fn c_imports(line: Seq<char>) -> Seq<Seq<char>> {
    match text::spec_strip_prefix(text::spec_trim(line), "#include \""@) {
        Some(rest) => match text::spec_find_char(rest, '"') {
            Some(e) => seq![rest.take(e)],
            None => Seq::empty(),
        },
        None => Seq::empty(),
    }
}

fn extract_c_line(line: &[char], out: &mut Vec<String>)
    ensures
        text::texts(final(out)@) == text::texts(old(out)@) + c_imports(line@),
{
    let s = text::trim(line);
    match text::strip_prefix(s, "#include \"") {
        Some(rest) => match text::find_char(rest, '"') {
            Some(e) => {
                let file = slice_subrange(rest, 0, e);
                assert(file@ =~= rest@.take(e as int));
                push_text(out, Some(file));
            },
            None => {
                push_text(out, None);
            },
        },
        None => {
            push_text(out, None);
        },
    }
}

/// Whether a Go file is inside an import block after some lines.
pub open spec fn go_in_block(lines: Seq<Seq<char>>) -> bool
    decreases lines.len(),
{
    if lines.len() == 0 {
        false
    } else {
        let s = text::spec_trim(lines.last());
        if s == "import ("@ {
            true
        } else if go_in_block(lines.drop_last()) {
            s != ")"@
        } else {
            false
        }
    }
}

/// What Go lines import: each quoted path in an import block, and that of a single import.
pub open spec fn go_imports(lines: Seq<Seq<char>>) -> Seq<Seq<char>>
    decreases lines.len(),
{
    if lines.len() == 0 {
        Seq::empty()
    } else {
        let s = text::spec_trim(lines.last());
        let inside = go_in_block(lines.drop_last());
        go_imports(lines.drop_last()) + if s == "import ("@ {
            Seq::empty()
        } else if inside {
            if s == ")"@ {
                Seq::empty()
            } else {
                listed(spec_first_quoted(s))
            }
        } else if text::begins(s, "import "@) {
            listed(spec_first_quoted(s))
        } else {
            Seq::empty()
        }
    }
}

fn equals(s: &[char], t: &str) -> (r: bool)
    ensures
        r == (s@ == t@),
{
    let q = text::chars_of(t);
    text::same_chars(s, q.as_slice())
}

fn extract_go_imports(source: &[char]) -> (r: Vec<String>)
    ensures
        text::texts(r@) == go_imports(text::spec_lines(source@)),
{
    let lines = text::lines(source);
    let ghost all = text::slices(lines@);
    let mut out: Vec<String> = Vec::new();
    let mut inside = false;
    assert(all.take(0) =~= Seq::empty());
    assert(text::texts(out@) =~= Seq::empty());
    for i in 0..lines.len()
        invariant
            all == text::slices(lines@),
            inside == go_in_block(all.take(i as int)),
            text::texts(out@) == go_imports(all.take(i as int)),
    {
        let s = text::trim(lines[i]);
        let ghost before = text::texts(out@);
        proof {
            assert(all.take(i + 1).drop_last() =~= all.take(i as int));
            assert(all.take(i + 1).last() == lines@[i as int]@);
        }
        if equals(s, "import (") {
            inside = true;
            push_text(&mut out, None);
        } else if inside {
            if equals(s, ")") {
                inside = false;
                push_text(&mut out, None);
            } else {
                push_text(&mut out, extract_first_quoted(s));
            }
        } else if text::starts_with(s, "import ") {
            push_text(&mut out, extract_first_quoted(s));
        } else {
            push_text(&mut out, None);
        }
    }
    assert(all.take(all.len() as int) =~= all);
    out
}

// ── Imports of a file ────────────────────────────────────────────────

/// What a line imports, in a language that is read line by line.
pub open spec fn line_imports(language: Language, line: Seq<char>) -> Seq<Seq<char>> {
    match language {
        Language::JavaScript => js_imports(line),
        Language::Python => python_imports(line),
        Language::Rust => rust_imports(line),
        Language::C => c_imports(line),
        Language::Go => Seq::empty(),
    }
}

/// `line_imports` as a function of the line.
pub open spec fn line_imports_in(language: Language) -> spec_fn(Seq<char>) -> Seq<Seq<char>> {
    |line: Seq<char>| line_imports(language, line)
}

/// The raw import paths of a source text.
pub open spec fn spec_imports(source: Seq<char>, ext: Seq<char>) -> Seq<Seq<char>> {
    match spec_language(ext) {
        Some(Language::Go) => go_imports(text::spec_lines(source)),
        Some(language) => over_lines(text::spec_lines(source), line_imports_in(language)),
        None => Seq::empty(),
    }
}

fn extract_by_line(source: &[char], language: Language) -> (r: Vec<String>)
    requires
        language != Language::Go,
    ensures
        text::texts(r@) == over_lines(text::spec_lines(source@), line_imports_in(language)),
{
    let lines = text::lines(source);
    let ghost all = text::slices(lines@);
    let ghost f = line_imports_in(language);
    let mut out: Vec<String> = Vec::new();
    assert(all.take(0) =~= Seq::empty());
    assert(text::texts(out@) =~= Seq::empty());
    for i in 0..lines.len()
        invariant
            language != Language::Go,
            all == text::slices(lines@),
            f == line_imports_in(language),
            text::texts(out@) == over_lines(all.take(i as int), f),
    {
        proof {
            assert(all.take(i + 1).drop_last() =~= all.take(i as int));
            assert(all.take(i + 1).last() == lines@[i as int]@);
        }
        match language {
            Language::JavaScript => {
                extract_js_line(lines[i], &mut out);
            },
            Language::Python => {
                extract_python_line(lines[i], &mut out);
            },
            Language::Rust => {
                extract_rust_line(lines[i], &mut out);
            },
            Language::C => {
                extract_c_line(lines[i], &mut out);
            },
            Language::Go => {},
        }
    }
    assert(all.take(all.len() as int) =~= all);
    out
}

/// Extract raw import paths from source code based on language.
pub fn extract_imports(source: &str, extension: &str) -> (r: Vec<String>)
    ensures
        text::texts(r@) == spec_imports(source@, extension@),
{
    let chars = text::chars_of(source);
    match language_of(extension) {
        Some(Language::Go) => extract_go_imports(chars.as_slice()),
        Some(language) => extract_by_line(chars.as_slice(), language),
        None => {
            let none: Vec<String> = Vec::new();
            assert(text::texts(none@) =~= Seq::empty());
            none
        },
    }
}

// ── Resolving imports ────────────────────────────────────────────────

/// The first of some candidates that is a known path.
pub open spec fn first_known(candidates: Seq<Seq<char>>, known: Seq<Seq<char>>) -> Option<Seq<char>>
    decreases candidates.len(),
{
    if candidates.len() == 0 {
        None
    } else if known.contains(candidates[0]) {
        Some(candidates[0])
    } else {
        first_known(candidates.drop_first(), known)
    }
}

/// The text of an optional string.
pub open spec fn text_of(t: Option<String>) -> Option<Seq<char>> {
    match t {
        Some(x) => Some(x@),
        None => None,
    }
}

fn find_known(candidates: &[String], known: &NameSet) -> (r: Option<String>)
    requires
        known.wf(),
    ensures
        text_of(r) == first_known(text::texts(candidates@), known@),
{
    let ghost all = text::texts(candidates@);
    assert(all.skip(0) =~= all);
    for i in 0..candidates.len()
        invariant
            known.wf(),
            all == text::texts(candidates@),
            first_known(all, known@) == first_known(all.skip(i as int), known@),
    {
        proof {
            assert(all.skip(i as int)[0] == candidates@[i as int]@);
            assert(all.skip(i as int).drop_first() =~= all.skip(i + 1));
        }
        if known.contains(candidates[i].as_str()) {
            return Some(candidates[i].clone());
        }
    }
    None
}

/// The directory of a file, empty where it has none.
pub open spec fn directory(file: Seq<char>) -> Seq<char> {
    match path::spec_parent(file) {
        Some(p) => p,
        None => Seq::empty(),
    }
}

fn directory_of(file: &[char]) -> (r: Vec<char>)
    ensures
        r@ == directory(file@),
{
    match path::parent(file) {
        Some(p) => {
            let mut out: Vec<char> = Vec::new();
            out.extend_from_slice(p);
            assert(out@ =~= p@);
            out
        },
        None => Vec::new(),
    }
}

/// An import path relative to the directory of the importing file.
pub open spec fn relative_to(file: Seq<char>, raw: Seq<char>) -> Seq<char> {
    path::spec_normalize(path::spec_join(directory(file), raw))
}

fn resolve_against(file: &str, raw: &str) -> (r: String)
    ensures
        r@ == relative_to(file@, raw@),
{
    let f = text::chars_of(file);
    let dir = directory_of(f.as_slice());
    let p = text::chars_of(raw);
    let joined = path::join(dir.as_slice(), p.as_slice());
    let joined_chars = text::chars_of(joined.as_str());
    path::normalize(joined_chars.as_slice())
}

/// The paths that a relative JavaScript import may mean, best first: as it stands, with an
/// extension, or the index of a directory.
pub open spec fn js_candidates(p: Seq<char>) -> Seq<Seq<char>> {
    seq![
        p,
        p + ".ts"@,
        p + ".tsx"@,
        p + ".js"@,
        p + ".jsx"@,
        p + "/index.ts"@,
        p + "/index.tsx"@,
        p + "/index.js"@,
        p + "/index.jsx"@,
    ]
}

/// What a JavaScript import means; bare specifiers are packages.
pub open spec fn spec_resolve_js(file: Seq<char>, raw: Seq<char>, known: Seq<Seq<char>>) -> Option<
    Seq<char>,
> {
    if raw.len() > 0 && (raw[0] == '.' || raw[0] == '/') {
        first_known(js_candidates(relative_to(file, raw)), known)
    } else {
        None
    }
}

fn with(p: &String, suffix: &str) -> (r: String)
    ensures
        r@ == p@ + suffix@,
{
    text::owned(p.as_str()).concat(suffix)
}

fn resolve_js_import(file: &str, raw: &str, known: &NameSet) -> (r: Option<String>)
    requires
        known.wf(),
    ensures
        text_of(r) == spec_resolve_js(file@, raw@, known@),
{
    let start = text::chars_of(raw);
    if start.len() == 0 || (start[0] != '.' && start[0] != '/') {
        return None;
    }
    let p = resolve_against(file, raw);
    let candidates: Vec<String> = vec![
        p.clone(),
        with(&p, ".ts"),
        with(&p, ".tsx"),
        with(&p, ".js"),
        with(&p, ".jsx"),
        with(&p, "/index.ts"),
        with(&p, "/index.tsx"),
        with(&p, "/index.js"),
        with(&p, "/index.jsx"),
    ];
    assert(text::texts(candidates@) =~= js_candidates(p@));
    find_known(candidates.as_slice(), known)
}

/// What a Python import means: a module file, a package, or a stub.
pub open spec fn spec_resolve_python(raw: Seq<char>, known: Seq<Seq<char>>) -> Option<Seq<char>> {
    let p = text::spec_replace(raw, '.', "/"@);
    first_known(seq![p + ".py"@, p + "/__init__.py"@, p + ".pyi"@], known)
}

fn resolve_python_import(raw: &str, known: &NameSet) -> (r: Option<String>)
    requires
        known.wf(),
    ensures
        text_of(r) == spec_resolve_python(raw@, known@),
{
    let chars = text::chars_of(raw);
    let p = text::replace(chars.as_slice(), '.', "/");
    let candidates: Vec<String> = vec![with(&p, ".py"), with(&p, "/__init__.py"), with(&p, ".pyi")];
    assert(text::texts(candidates@) =~= seq![p@ + ".py"@, p@ + "/__init__.py"@, p@ + ".pyi"@]);
    find_known(candidates.as_slice(), known)
}

/// The paths that a Rust module may have: beside the importing file, or under `src`.
pub open spec fn rust_candidates(file: Seq<char>, raw: Seq<char>) -> Seq<Seq<char>> {
    let dir = directory(file);
    seq![
        path::spec_normalize(path::spec_join(dir, raw + ".rs"@)),
        path::spec_normalize(path::spec_join(path::spec_join(dir, raw), "mod.rs"@)),
        path::spec_normalize("src/"@ + raw + ".rs"@),
        path::spec_normalize("src/"@ + raw + "/mod.rs"@),
    ]
}

fn normalized(s: &str) -> (r: String)
    ensures
        r@ == path::spec_normalize(s@),
{
    let chars = text::chars_of(s);
    path::normalize(chars.as_slice())
}

fn joined(base: &[char], p: &str) -> (r: String)
    ensures
        r@ == path::spec_join(base@, p@),
{
    let chars = text::chars_of(p);
    path::join(base, chars.as_slice())
}

fn resolve_rust_import(file: &str, raw: &str, known: &NameSet) -> (r: Option<String>)
    requires
        known.wf(),
    ensures
        text_of(r) == first_known(rust_candidates(file@, raw@), known@),
{
    let f = text::chars_of(file);
    let dir = directory_of(f.as_slice());
    let own = text::owned(raw).concat(".rs");
    let inner = joined(dir.as_slice(), raw);
    let inner_chars = text::chars_of(inner.as_str());
    let a = joined(dir.as_slice(), own.as_str());
    let b = joined(inner_chars.as_slice(), "mod.rs");
    let c = text::owned("src/").concat(raw).concat(".rs");
    let d = text::owned("src/").concat(raw).concat("/mod.rs");
    let candidates: Vec<String> = vec![
        normalized(a.as_str()),
        normalized(b.as_str()),
        normalized(c.as_str()),
        normalized(d.as_str()),
    ];
    assert(text::texts(candidates@) =~= rust_candidates(file@, raw@));
    find_known(candidates.as_slice(), known)
}

/// Whether a Go file lies in a directory whose path ends with an import path, or is the end of
/// one in whole components.
pub open spec fn go_matches(file: Seq<char>, raw: Seq<char>) -> bool {
    let dir = directory(file);
    text::ends(file, ".go"@) && (text::ends(dir, raw) || (dir.len() > 0 && text::ends(
        raw,
        "/"@ + dir,
    )))
}

/// What a Go import means: the first known Go file in a matching directory.
pub open spec fn spec_resolve_go(raw: Seq<char>, known: Seq<Seq<char>>) -> Option<Seq<char>>
    decreases known.len(),
{
    if known.len() == 0 {
        None
    } else if go_matches(known[0], raw) {
        Some(known[0])
    } else {
        spec_resolve_go(raw, known.drop_first())
    }
}

fn lies_in_package(file: &[char], raw: &str) -> (r: bool)
    ensures
        r == go_matches(file@, raw@),
{
    let dir = directory_of(file);
    if !text::ends_with(file, ".go") {
        return false;
    }
    if text::ends_with(dir.as_slice(), raw) {
        return true;
    }
    let import = text::chars_of(raw);
    let tail = text::owned("/").concat(text::string_of(dir.as_slice()).as_str());
    dir.len() > 0 && text::ends_with(import.as_slice(), tail.as_str())
}

/// Go imports are package paths: "myproject/pkg/auth" means a file of "pkg/auth".
fn resolve_go_import(raw: &str, known: &NameSet) -> (r: Option<String>)
    requires
        known.wf(),
    ensures
        text_of(r) == spec_resolve_go(raw@, known@),
{
    let n: usize = known.len();
    assert(known@.skip(0) =~= known@);
    for i in 0..n
        invariant
            n == known@.len(),
            spec_resolve_go(raw@, known@) == spec_resolve_go(raw@, known@.skip(i as int)),
    {
        let file = text::chars_of(known.get(i));
        proof {
            assert(known@.skip(i as int)[0] == file@);
            assert(known@.skip(i as int).drop_first() =~= known@.skip(i + 1));
        }
        if lies_in_package(file.as_slice(), raw) {
            return Some(text::string_of(file.as_slice()));
        }
    }
    None
}

/// What a C include means: a file relative to the including one, or else from the root.
pub open spec fn spec_resolve_c(file: Seq<char>, raw: Seq<char>, known: Seq<Seq<char>>) -> Option<
    Seq<char>,
> {
    if known.contains(relative_to(file, raw)) {
        Some(relative_to(file, raw))
    } else if known.contains(raw) {
        Some(raw)
    } else {
        None
    }
}

fn resolve_c_import(file: &str, raw: &str, known: &NameSet) -> (r: Option<String>)
    requires
        known.wf(),
    ensures
        text_of(r) == spec_resolve_c(file@, raw@, known@),
{
    let p = resolve_against(file, raw);
    if known.contains(p.as_str()) {
        Some(p)
    } else if known.contains(raw) {
        Some(text::owned(raw))
    } else {
        None
    }
}

/// The project file that an import means.
pub open spec fn spec_resolve(
    file: Seq<char>,
    raw: Seq<char>,
    ext: Seq<char>,
    known: Seq<Seq<char>>,
) -> Option<Seq<char>> {
    match spec_language(ext) {
        Some(Language::JavaScript) => spec_resolve_js(file, raw, known),
        Some(Language::Python) => spec_resolve_python(raw, known),
        Some(Language::Rust) => first_known(rust_candidates(file, raw), known),
        Some(Language::Go) => spec_resolve_go(raw, known),
        Some(Language::C) => spec_resolve_c(file, raw, known),
        None => None,
    }
}

/// Resolve a raw import string to a relative file path in the project.
pub fn resolve_import(
    importing_file: &str,
    raw_import: &str,
    extension: &str,
    known_paths: &NameSet,
) -> (r: Option<String>)
    requires
        known_paths.wf(),
    ensures
        text_of(r) == spec_resolve(importing_file@, raw_import@, extension@, known_paths@),
{
    match language_of(extension) {
        Some(Language::JavaScript) => resolve_js_import(importing_file, raw_import, known_paths),
        Some(Language::Python) => resolve_python_import(raw_import, known_paths),
        Some(Language::Rust) => resolve_rust_import(importing_file, raw_import, known_paths),
        Some(Language::Go) => resolve_go_import(raw_import, known_paths),
        Some(Language::C) => resolve_c_import(importing_file, raw_import, known_paths),
        None => None,
    }
}

// ── Import counts ────────────────────────────────────────────────────

/// A file as path, extension and content.
pub type SourceModel = (Seq<char>, Seq<char>, Seq<char>);

/// The values of a list of files.
pub open spec fn sources(files: Seq<(String, String, String)>) -> Seq<SourceModel> {
    files.map_values(|f: (String, String, String)| (f.0@, f.1@, f.2@))
}

/// The known files other than itself that the imports of a file mean, each once.
pub open spec fn targets(
    file: SourceModel,
    raws: Seq<Seq<char>>,
    known: Seq<Seq<char>>,
) -> Seq<Seq<char>>
    decreases raws.len(),
{
    if raws.len() == 0 {
        Seq::empty()
    } else {
        let before = targets(file, raws.drop_last(), known);
        match spec_resolve(file.0, raws.last(), file.1, known) {
            Some(t) => if t == file.0 {
                before
            } else {
                collections::spec_insert(before, t)
            },
            None => before,
        }
    }
}

/// The files that each of the files imports, one after the other.
pub open spec fn all_targets(files: Seq<SourceModel>, known: Seq<Seq<char>>) -> Seq<Seq<char>>
    decreases files.len(),
{
    if files.len() == 0 {
        Seq::empty()
    } else {
        let f = files.last();
        all_targets(files.drop_last(), known) + targets(f, spec_imports(f.2, f.1), known)
    }
}

fn file_targets(file: &(String, String, String), known: &NameSet) -> (r: NameSet)
    requires
        known.wf(),
    ensures
        r.wf(),
        r@ == targets((file.0@, file.1@, file.2@), spec_imports(file.2@, file.1@), known@),
{
    let raws = extract_imports(file.2.as_str(), file.1.as_str());
    let ghost all = text::texts(raws@);
    let ghost model = (file.0@, file.1@, file.2@);
    let mut out = NameSet::new();
    assert(all.take(0) =~= Seq::empty());
    for i in 0..raws.len()
        invariant
            known.wf(),
            out.wf(),
            all == text::texts(raws@),
            model == (file.0@, file.1@, file.2@),
            out@ == targets(model, all.take(i as int), known@),
    {
        proof {
            assert(all.take(i + 1).drop_last() =~= all.take(i as int));
            assert(all.take(i + 1).last() == raws@[i as int]@);
        }
        match resolve_import(file.0.as_str(), raws[i].as_str(), file.1.as_str(), known) {
            Some(target) => {
                if !text::same(target.as_str(), file.0.as_str()) {
                    out.insert(target);
                }
            },
            None => {},
        }
    }
    assert(all.take(all.len() as int) =~= all);
    out
}

/// Build import counts: for each file, how many other files import it.
pub fn build_import_counts(files: &[(String, String, String)], known_paths: &NameSet) -> (r: Tally)
    requires
        known_paths.wf(),
    ensures
        r.wf(),
        r@ == collections::tally_of(all_targets(sources(files@), known_paths@)),
{
    let mut counts = Tally::new();
    let ghost all = sources(files@);
    assert(all.take(0) =~= Seq::empty());
    for i in 0..files.len()
        invariant
            known_paths.wf(),
            counts.wf(),
            all == sources(files@),
            counts@ == collections::tally_of(all_targets(all.take(i as int), known_paths@)),
    {
        let ghost done = all_targets(all.take(i as int), known_paths@);
        let found = file_targets(&files[i], known_paths);
        proof {
            assert(all.take(i + 1).drop_last() =~= all.take(i as int));
            assert(all.take(i + 1).last() == all[i as int]);
        }
        assert(done + found@.take(0) =~= done);
        let n: usize = found.len();
        for j in 0..n
            invariant
                n == found@.len(),
                found.wf(),
                counts.wf(),
                counts@ == collections::tally_of(done + found@.take(j as int)),
        {
            proof {
                let more = done + found@.take(j + 1);
                assert(more.drop_last() =~= done + found@.take(j as int));
                assert(more.last() == found@[j as int]);
            }
            counts.bump(text::owned(found.get(j)));
        }
        assert(found@.take(found@.len() as int) =~= found@);
    }
    assert(all.take(all.len() as int) =~= all);
    counts
}

// ── Laws ─────────────────────────────────────────────────────────────

proof fn lemma_first_known(candidates: Seq<Seq<char>>, known: Seq<Seq<char>>)
    ensures
        match first_known(candidates, known) {
            Some(t) => known.contains(t) && candidates.contains(t),
            None => forall|i: int| 0 <= i < candidates.len() ==> !known.contains(
                #[trigger] candidates[i],
            ),
        },
    decreases candidates.len(),
{
    if candidates.len() > 0 && !known.contains(candidates[0]) {
        let rest = candidates.drop_first();
        lemma_first_known(rest, known);
        match first_known(candidates, known) {
            Some(t) => {
                let k = rest.index_of(t);
                assert(candidates[k + 1] == t);
            },
            None => {
                assert forall|i: int| 0 <= i < candidates.len() implies !known.contains(
                    #[trigger] candidates[i],
                ) by {
                    if i > 0 {
                        assert(rest[i - 1] == candidates[i]);
                    }
                }
            },
        }
    }
}

proof fn lemma_resolve_go(raw: Seq<char>, known: Seq<Seq<char>>)
    ensures
        spec_resolve_go(raw, known) matches Some(t) ==> known.contains(t),
    decreases known.len(),
{
    if known.len() > 0 {
        let rest = known.drop_first();
        lemma_resolve_go(raw, rest);
        if go_matches(known[0], raw) {
            assert(known.contains(known[0]));
        } else if spec_resolve_go(raw, known) is Some {
            let t = spec_resolve_go(raw, known)->0;
            assert(rest.contains(t));
            let k = rest.index_of(t);
            assert(known[k + 1] == t);
        }
    }
}

/// An import is only ever resolved to a known file of the project.
pub proof fn law_imports_resolve_to_known_files(
    file: Seq<char>,
    raw: Seq<char>,
    ext: Seq<char>,
    known: Seq<Seq<char>>,
)
    ensures
        spec_resolve(file, raw, ext, known) matches Some(t) ==> known.contains(t),
{
    lemma_first_known(js_candidates(relative_to(file, raw)), known);
    let p = text::spec_replace(raw, '.', "/"@);
    lemma_first_known(seq![p + ".py"@, p + "/__init__.py"@, p + ".pyi"@], known);
    lemma_first_known(rust_candidates(file, raw), known);
    lemma_resolve_go(raw, known);
}

/// Whether a file imports another one.
pub open spec fn imports_file(f: SourceModel, known: Seq<Seq<char>>, t: Seq<char>) -> bool {
    t != f.0 && exists|i: int|
        0 <= i < spec_imports(f.2, f.1).len() && spec_resolve(
            f.0,
            #[trigger] spec_imports(f.2, f.1)[i],
            f.1,
            known,
        ) == Some(t)
}

/// How many of the files import another one.
pub open spec fn importers(
    files: Seq<SourceModel>,
    known: Seq<Seq<char>>,
    t: Seq<char>,
) -> nat
    decreases files.len(),
{
    if files.len() == 0 {
        0
    } else {
        importers(files.drop_last(), known, t) + if imports_file(files.last(), known, t) {
            1nat
        } else {
            0
        }
    }
}

proof fn lemma_targets(
    file: SourceModel,
    raws: Seq<Seq<char>>,
    known: Seq<Seq<char>>,
    t: Seq<char>,
)
    ensures
        targets(file, raws, known).contains(t) <==> (t != file.0 && exists|i: int|
            0 <= i < raws.len() && spec_resolve(file.0, #[trigger] raws[i], file.1, known) == Some(
                t,
            )),
        collections::occurrences(targets(file, raws, known), t) == (if targets(
            file,
            raws,
            known,
        ).contains(t) {
            1nat
        } else {
            0
        }),
    decreases raws.len(),
{
    if raws.len() > 0 {
        let front = raws.drop_last();
        let before = targets(file, front, known);
        let after = targets(file, raws, known);
        lemma_targets(file, front, known, t);
        let n = raws.len() - 1;
        assert(raws[n] == raws.last());
        assert(forall|i: int| 0 <= i < n ==> front[i] == #[trigger] raws[i]);
        if before.contains(t) {
            let i = choose|i: int|
                0 <= i < front.len() && spec_resolve(file.0, #[trigger] front[i], file.1, known)
                    == Some(t);
            assert(raws[i] == front[i]);
        }
        match spec_resolve(file.0, raws.last(), file.1, known) {
            Some(x) => {
                if x != file.0 && !before.contains(x) {
                    assert(after.drop_last() =~= before);
                    assert(after.last() == x);
                    if before.contains(t) {
                        let k = before.index_of(t);
                        assert(after[k] == t);
                    }
                    if x == t {
                        assert(after[before.len() as int] == t);
                    }
                    if after.contains(t) && x != t {
                        let k = after.index_of(t);
                        assert(before[k] == t);
                    }
                }
            },
            None => {},
        }
    }
}

proof fn lemma_occurrences_concat(a: Seq<Seq<char>>, b: Seq<Seq<char>>, t: Seq<char>)
    ensures
        collections::occurrences(a + b, t) == collections::occurrences(a, t)
            + collections::occurrences(b, t),
    decreases b.len(),
{
    if b.len() == 0 {
        assert(a + b =~= a);
    } else {
        lemma_occurrences_concat(a, b.drop_last(), t);
        assert((a + b).drop_last() =~= a + b.drop_last());
        assert((a + b).last() == b.last());
    }
}

proof fn lemma_all_targets(files: Seq<SourceModel>, known: Seq<Seq<char>>, t: Seq<char>)
    ensures
        collections::occurrences(all_targets(files, known), t) == importers(files, known, t),
        importers(files, known, t) > 0 ==> known.contains(t),
    decreases files.len(),
{
    if files.len() > 0 {
        let f = files.last();
        let raws = spec_imports(f.2, f.1);
        lemma_all_targets(files.drop_last(), known, t);
        lemma_occurrences_concat(
            all_targets(files.drop_last(), known),
            targets(f, raws, known),
            t,
        );
        lemma_targets(f, raws, known, t);
        if imports_file(f, known, t) {
            let i = choose|i: int|
                0 <= i < raws.len() && spec_resolve(f.0, #[trigger] raws[i], f.1, known) == Some(
                    t,
                );
            law_imports_resolve_to_known_files(f.0, raws[i], f.1, known);
        }
    }
}

/// Only known files are counted, and each with the number of other files that import it,
/// modulo 2^32.
pub proof fn law_import_counts(files: Seq<SourceModel>, known: Seq<Seq<char>>, t: Seq<char>)
    ensures
        match collections::place_of(collections::tally_of(all_targets(files, known)), t) {
            Some(i) => known.contains(t) && collections::tally_of(all_targets(files, known))[i].1
                == importers(files, known, t) % 0x1_0000_0000,
            None => importers(files, known, t) == 0,
        },
{
    collections::law_tally_counts_occurrences(all_targets(files, known), t);
    lemma_all_targets(files, known, t);
    if all_targets(files, known).contains(t) {
        lemma_contained(all_targets(files, known), t);
    }
}

proof fn lemma_contained(items: Seq<Seq<char>>, t: Seq<char>)
    requires
        items.contains(t),
    ensures
        collections::occurrences(items, t) > 0,
    decreases items.len(),
{
    if items.last() != t {
        let k = items.index_of(t);
        assert(items.drop_last()[k] == t);
        lemma_contained(items.drop_last(), t);
    }
}

// ── What imports mean ────────────────────────────────────────────────

proof fn lemma_dots_to_slashes(parts: Seq<Seq<char>>)
    requires
        forall|i: int| 0 <= i < parts.len() ==> text::without(#[trigger] parts[i], '.'),
    ensures
        text::spec_replace(text::spec_join(parts, "."@), '.', "/"@) == text::spec_join(parts, "/"@),
    decreases parts.len(),
{
    reveal_strlit(".");
    assert("."@ =~= seq!['.']);
    if parts.len() == 1 {
        assert(text::without(parts[0], '.'));
        text::law_replace(parts[0], Seq::empty(), '.', "/"@);
    } else if parts.len() > 1 {
        let front = parts.drop_last();
        let last = parts.last();
        assert forall|i: int| 0 <= i < front.len() implies text::without(#[trigger] front[i], '.') by {
            assert(front[i] == parts[i]);
        }
        lemma_dots_to_slashes(front);
        assert(text::without(parts[parts.len() - 1], '.'));
        text::law_replace(last, Seq::empty(), '.', "/"@);
        text::law_replace(text::spec_join(front, "."@), "."@, '.', "/"@);
        text::law_replace(text::spec_join(front, "."@) + "."@, last, '.', "/"@);
    }
}

/// A Python import of the module `a.b.c` means the file `a/b/c.py` wherever that is known; else
/// the package `a/b/c/__init__.py`; else the stub `a/b/c.pyi`; and nothing where none is known.
pub proof fn law_python_modules_are_files(
    file: Seq<char>,
    parts: Seq<Seq<char>>,
    ext: Seq<char>,
    known: Seq<Seq<char>>,
)
    requires
        ext == "py"@ || ext == "pyi"@,
        forall|i: int| 0 <= i < parts.len() ==> text::without(#[trigger] parts[i], '.'),
    ensures
        ({
            let p = text::spec_join(parts, "/"@);
            let r = spec_resolve(file, text::spec_join(parts, "."@), ext, known);
            &&& known.contains(p + ".py"@) ==> r == Some(p + ".py"@)
            &&& !known.contains(p + ".py"@) && known.contains(p + "/__init__.py"@) ==> r == Some(
                p + "/__init__.py"@,
            )
            &&& !known.contains(p + ".py"@) && !known.contains(p + "/__init__.py"@)
                && known.contains(p + ".pyi"@) ==> r == Some(p + ".pyi"@)
            &&& !known.contains(p + ".py"@) && !known.contains(p + "/__init__.py"@)
                && !known.contains(p + ".pyi"@) ==> r is None
        }),
{
    lemma_extensions_differ();
    lemma_dots_to_slashes(parts);
    let p = text::spec_join(parts, "/"@);
    let list = seq![p + ".py"@, p + "/__init__.py"@, p + ".pyi"@];
    assert(list.drop_first() =~= seq![p + "/__init__.py"@, p + ".pyi"@]);
    assert(list.drop_first().drop_first() =~= seq![p + ".pyi"@]);
    assert(list.drop_first().drop_first().drop_first() =~= Seq::empty());
    reveal_with_fuel(first_known, 5);
}

proof fn lemma_extensions_differ()
    ensures
        spec_language("js"@) == Some(Language::JavaScript),
        spec_language("jsx"@) == Some(Language::JavaScript),
        spec_language("ts"@) == Some(Language::JavaScript),
        spec_language("tsx"@) == Some(Language::JavaScript),
        spec_language("mjs"@) == Some(Language::JavaScript),
        spec_language("cjs"@) == Some(Language::JavaScript),
        spec_language("py"@) == Some(Language::Python),
        spec_language("pyi"@) == Some(Language::Python),
        spec_language("rs"@) == Some(Language::Rust),
        spec_language("go"@) == Some(Language::Go),
        spec_language("c"@) == Some(Language::C),
        spec_language("h"@) == Some(Language::C),
        spec_language("cpp"@) == Some(Language::C),
        spec_language("cc"@) == Some(Language::C),
        spec_language("cxx"@) == Some(Language::C),
        spec_language("hpp"@) == Some(Language::C),
        spec_language("hxx"@) == Some(Language::C),
{
    reveal_strlit("js");
    reveal_strlit("jsx");
    reveal_strlit("ts");
    reveal_strlit("tsx");
    reveal_strlit("mjs");
    reveal_strlit("cjs");
    reveal_strlit("py");
    reveal_strlit("pyi");
    reveal_strlit("rs");
    reveal_strlit("go");
    reveal_strlit("c");
    reveal_strlit("h");
    reveal_strlit("cpp");
    reveal_strlit("cc");
    reveal_strlit("cxx");
    reveal_strlit("hpp");
    reveal_strlit("hxx");
    assert("c"@.len() == 1 && "h"@.len() == 1 && "js"@.len() == 2 && "ts"@.len() == 2 && "py"@.len()
        == 2 && "rs"@.len() == 2 && "go"@.len() == 2 && "cc"@.len() == 2);
    assert("jsx"@.len() == 3 && "tsx"@.len() == 3 && "mjs"@.len() == 3 && "cjs"@.len() == 3
        && "pyi"@.len() == 3 && "cpp"@.len() == 3 && "cxx"@.len() == 3 && "hpp"@.len() == 3
        && "hxx"@.len() == 3);
    assert("js"@[0] == 'j' && "ts"@[0] == 't' && "py"@[0] == 'p' && "rs"@[0] == 'r' && "go"@[0]
        == 'g' && "cc"@[0] == 'c' && "c"@[0] == 'c' && "h"@[0] == 'h');
    assert("jsx"@[0] == 'j' && "tsx"@[0] == 't' && "mjs"@[0] == 'm' && "cjs"@[0] == 'c'
        && "cjs"@[1] == 'j' && "pyi"@[0] == 'p' && "cpp"@[0] == 'c' && "cpp"@[1] == 'p'
        && "cxx"@[0] == 'c' && "cxx"@[1] == 'x' && "hpp"@[0] == 'h' && "hxx"@[0] == 'h');
}

/// The language of every extension that is read for imports.
pub proof fn law_languages()
    ensures
        spec_language("js"@) == Some(Language::JavaScript) && spec_language("jsx"@) == Some(
            Language::JavaScript,
        ) && spec_language("ts"@) == Some(Language::JavaScript) && spec_language("tsx"@) == Some(
            Language::JavaScript,
        ) && spec_language("mjs"@) == Some(Language::JavaScript) && spec_language("cjs"@) == Some(
            Language::JavaScript,
        ),
        spec_language("py"@) == Some(Language::Python) && spec_language("pyi"@) == Some(
            Language::Python,
        ),
        spec_language("rs"@) == Some(Language::Rust) && spec_language("go"@) == Some(Language::Go),
        spec_language("c"@) == Some(Language::C) && spec_language("h"@) == Some(Language::C)
            && spec_language("cpp"@) == Some(Language::C) && spec_language("cc"@) == Some(
            Language::C,
        ) && spec_language("cxx"@) == Some(Language::C) && spec_language("hpp"@) == Some(
            Language::C,
        ) && spec_language("hxx"@) == Some(Language::C),
{
    lemma_extensions_differ();
}

proof fn lemma_directory(dirs: Seq<Seq<char>>, name: Seq<char>)
    requires
        path::all_plain(dirs),
        path::plain(name),
    ensures
        directory(text::spec_join(dirs.push(name), "/"@)) == text::spec_join(dirs, "/"@),
{
    path::law_parent_of_names(dirs, name);
}

proof fn lemma_join_ends_plain(dirs: Seq<Seq<char>>)
    requires
        path::all_plain(dirs),
        dirs.len() > 0,
    ensures
        text::spec_join(dirs, "/"@).len() > 0,
        text::spec_join(dirs, "/"@).last() != '/',
        text::spec_join(dirs, "/"@)[0] != '/',
{
    let last = dirs.last();
    let d = text::spec_join(dirs, "/"@);
    assert(path::plain(dirs[dirs.len() - 1]));
    assert(path::plain(dirs[0]));
    assert(d.last() == last[last.len() - 1]);
    if dirs.len() > 1 {
        text::lemma_join_first(dirs, "/"@);
    }
    assert(d[0] == dirs[0][0]);
}

/// A relative import counts from the directory of the importing file: `./x` means `x` in that
/// directory, and `../x` means `x` in the one around it. So does a path without dots in front.
pub proof fn law_relative_imports(
    dirs: Seq<Seq<char>>,
    inner: Seq<char>,
    name: Seq<char>,
    rest: Seq<Seq<char>>,
)
    requires
        path::all_plain(dirs),
        path::plain(inner),
        path::plain(name),
        path::all_plain(rest),
        rest.len() > 0,
    ensures
        ({
            let to = text::spec_join(rest, "/"@);
            let here = text::spec_join(dirs.push(name), "/"@);
            let deeper = text::spec_join(dirs.push(inner).push(name), "/"@);
            let target = text::spec_join(dirs + rest, "/"@);
            &&& relative_to(here, "./"@ + to) == target
            &&& relative_to(here, to) == target
            &&& relative_to(deeper, "../"@ + to) == target
        }),
{
    reveal_strlit("/");
    reveal_strlit("./");
    reveal_strlit("../");
    let to = text::spec_join(rest, "/"@);
    let dot = seq![seq!['.']];
    let up = seq![seq!['.', '.']];
    let d = text::spec_join(dirs, "/"@);
    path::law_normalizing(dirs, inner, rest);
    lemma_directory(dirs, name);
    lemma_join_ends_plain(rest);
    text::lemma_join_concat(dot, rest, "/"@);
    assert(text::spec_join(dot, "/"@) == seq!['.']);
    assert("./"@ + to =~= seq!['.'] + "/"@ + to);
    text::lemma_join_concat(up, rest, "/"@);
    assert(text::spec_join(up, "/"@) == seq!['.', '.']);
    assert("../"@ + to =~= seq!['.', '.'] + "/"@ + to);
    if dirs.len() == 0 {
        assert(dirs + dot + rest =~= dot + rest);
        assert(dirs + rest =~= rest);
        assert(path::spec_join(d, "./"@ + to) == "./"@ + to);
    } else {
        lemma_join_ends_plain(dirs);
        text::lemma_join_concat(dirs, dot + rest, "/"@);
        assert(dirs + dot + rest =~= dirs + (dot + rest));
        text::lemma_join_concat(dirs, rest, "/"@);
        assert(path::spec_join(d, "./"@ + to) == d + "/"@ + ("./"@ + to));
        assert(path::spec_join(d, to) == d + "/"@ + to);
    }
    let around = dirs.push(inner);
    assert(path::all_plain(around)) by {
        assert forall|i: int| 0 <= i < around.len() implies path::plain(#[trigger] around[i]) by {
            if i < dirs.len() {
                assert(around[i] == dirs[i]);
            }
        }
    }
    lemma_directory(around, name);
    lemma_join_ends_plain(around);
    let e = text::spec_join(around, "/"@);
    text::lemma_join_concat(around, up + rest, "/"@);
    assert(around + (up + rest) =~= dirs + seq![inner, seq!['.', '.']] + rest);
    assert(path::spec_join(e, "../"@ + to) == e + "/"@ + ("../"@ + to));
}

proof fn lemma_first_known_step(c: Seq<Seq<char>>, known: Seq<Seq<char>>)
    requires
        c.len() > 0,
    ensures
        first_known(c, known) == if known.contains(c[0]) {
            Some(c[0])
        } else {
            first_known(c.drop_first(), known)
        },
{
}

/// A JavaScript import that starts with a dot means the file of that path; else the one with a
/// TypeScript extension; else with a JavaScript one; else the index of the directory of that
/// path, TypeScript first. An import that starts with neither a dot nor a slash means none.
pub proof fn law_javascript_imports_are_files(
    file: Seq<char>,
    raw: Seq<char>,
    ext: Seq<char>,
    known: Seq<Seq<char>>,
)
    requires
        ext == "js"@ || ext == "jsx"@ || ext == "ts"@ || ext == "tsx"@ || ext == "mjs"@ || ext
            == "cjs"@,
        raw.len() > 0,
    ensures
        raw[0] != '.' && raw[0] != '/' ==> spec_resolve(file, raw, ext, known) is None,
        raw[0] == '.' ==> ({
            let p = relative_to(file, raw);
            let r = spec_resolve(file, raw, ext, known);
            let ts = known.contains(p + ".ts"@);
            let tsx = known.contains(p + ".tsx"@);
            let js = known.contains(p + ".js"@);
            let jsx = known.contains(p + ".jsx"@);
            let as_file = known.contains(p) || ts || tsx || js || jsx;
            &&& known.contains(p) ==> r == Some(p)
            &&& !known.contains(p) && ts ==> r == Some(p + ".ts"@)
            &&& !known.contains(p) && !ts && tsx ==> r == Some(p + ".tsx"@)
            &&& !known.contains(p) && !ts && !tsx && js ==> r == Some(p + ".js"@)
            &&& !known.contains(p) && !ts && !tsx && !js && jsx ==> r == Some(p + ".jsx"@)
            &&& !as_file && known.contains(p + "/index.ts"@) ==> r == Some(p + "/index.ts"@)
            &&& !as_file && !known.contains(p + "/index.ts"@) && known.contains(
                p + "/index.tsx"@,
            ) ==> r == Some(p + "/index.tsx"@)
            &&& !as_file && !known.contains(p + "/index.ts"@) && !known.contains(
                p + "/index.tsx"@,
            ) && known.contains(p + "/index.js"@) ==> r == Some(p + "/index.js"@)
            &&& !as_file && known.contains(p + "/index.jsx"@) ==> r is Some
            &&& r matches Some(t) ==> known.contains(t) && text::begins(t, p)
        }),
{
    lemma_extensions_differ();
    let p = relative_to(file, raw);
    let c = js_candidates(p);
    let c1 = c.drop_first();
    let c2 = c1.drop_first();
    let c3 = c2.drop_first();
    let c4 = c3.drop_first();
    let c5 = c4.drop_first();
    let c6 = c5.drop_first();
    let c7 = c6.drop_first();
    let c8 = c7.drop_first();
    let c9 = c8.drop_first();
    assert(c1[0] == c[1] && c2[0] == c[2] && c3[0] == c[3] && c4[0] == c[4] && c5[0] == c[5]
        && c6[0] == c[6] && c7[0] == c[7] && c8[0] == c[8]);
    assert(c9.len() == 0);
    assert(first_known(c9, known) is None);
    lemma_first_known_step(c8, known);
    lemma_first_known_step(c7, known);
    lemma_first_known_step(c6, known);
    lemma_first_known_step(c5, known);
    lemma_first_known_step(c4, known);
    lemma_first_known_step(c3, known);
    lemma_first_known_step(c2, known);
    lemma_first_known_step(c1, known);
    lemma_first_known_step(c, known);
    law_imports_resolve_to_known_files(file, raw, ext, known);
    assert forall|s: Seq<char>| text::begins(#[trigger] (p + s), p) by {
        assert((p + s).subrange(0, p.len() as int) =~= p);
    }
    assert(p =~= p + Seq::<char>::empty());
}

proof fn lemma_plain_rust_names(module: Seq<char>)
    requires
        path::plain(module),
    ensures
        path::plain(module + ".rs"@),
        path::plain("mod.rs"@),
        path::plain("src"@),
{
    reveal_strlit(".rs");
    reveal_strlit("mod.rs");
    reveal_strlit("src");
    let m = module + ".rs"@;
    assert forall|i: int| 0 <= i < m.len() implies #[trigger] m[i] != '/' by {
        if i < module.len() {
            assert(m[i] == module[i]);
        }
    }
    assert forall|i: int| 0 <= i < 6 implies #[trigger] "mod.rs"@[i] != '/' by {}
    assert forall|i: int| 0 <= i < 3 implies #[trigger] "src"@[i] != '/' by {}
    assert(m.len() >= 4 && "mod.rs"@.len() == 6 && "src"@.len() == 3);
    assert(seq!['.'].len() == 1 && seq!['.', '.'].len() == 2);
}

proof fn lemma_rust_in_src(module: Seq<char>)
    requires
        path::plain(module),
    ensures
        path::spec_normalize("src/"@ + module + ".rs"@) == "src/"@ + module + ".rs"@,
        path::spec_normalize("src/"@ + module + "/mod.rs"@) == "src/"@ + module + "/mod.rs"@,
{
    lemma_plain_rust_names(module);
    reveal_strlit("/");
    reveal_strlit("mod.rs");
    reveal_strlit("src/");
    reveal_strlit("/mod.rs");
    reveal_strlit("src");
    let m = module + ".rs"@;
    let src = seq!["src"@];
    let two = seq![module, "mod.rs"@];
    path::law_normalizing(src, module, seq![m]);
    path::law_normalizing(src, module, two);
    assert("/"@ + "mod.rs"@ =~= "/mod.rs"@);
    assert("src"@ + "/"@ =~= "src/"@);
    text::lemma_join_concat(src, seq![m], "/"@);
    text::law_join(src, m, "/"@);
    text::law_join(src, "src"@, "/"@);
    assert(text::spec_join(src, "/"@) == "src"@);
    assert("src"@ + "/"@ + m =~= "src/"@ + module + ".rs"@);
    text::lemma_join_concat(src, two, "/"@);
    assert(seq![module].push("mod.rs"@) =~= two);
    text::law_join(seq![module], "mod.rs"@, "/"@);
    text::law_join(seq![module], module, "/"@);
    assert("src"@ + "/"@ + (module + "/"@ + "mod.rs"@) =~= "src/"@ + module + "/mod.rs"@);
}

proof fn lemma_rust_beside(dirs: Seq<Seq<char>>, module: Seq<char>)
    requires
        path::all_plain(dirs),
        path::plain(module),
    ensures
        ({
            let d = text::spec_join(dirs, "/"@);
            &&& path::spec_normalize(path::spec_join(d, module + ".rs"@)) == text::spec_join(
                dirs.push(module + ".rs"@),
                "/"@,
            )
            &&& path::spec_normalize(path::spec_join(path::spec_join(d, module), "mod.rs"@))
                == text::spec_join(dirs.push(module).push("mod.rs"@), "/"@)
        }),
{
    lemma_plain_rust_names(module);
    reveal_strlit("/");
    reveal_strlit("mod.rs");
    let d = text::spec_join(dirs, "/"@);
    let m = module + ".rs"@;
    let two = seq![module, "mod.rs"@];
    path::law_normalizing(dirs, module, seq![m]);
    path::law_normalizing(dirs, module, two);
    assert(dirs + seq![m] =~= dirs.push(m));
    assert(dirs + two =~= dirs.push(module).push("mod.rs"@));
    let both = path::spec_join(d, module);
    assert(module[0] != '/' && m[0] == module[0]);
    text::law_join(dirs, m, "/"@);
    text::law_join(dirs, module, "/"@);
    text::law_join(dirs.push(module), "mod.rs"@, "/"@);
    if dirs.len() == 0 {
        assert(both == module);
        assert(dirs.push(m) =~= seq![m]);
        assert(dirs.push(module) =~= seq![module]);
        text::law_join(dirs, m, "/"@);
    } else {
        lemma_join_ends_plain(dirs);
        path::law_join(d, m);
        path::law_join(d, module);
        assert("/"@ =~= seq!['/']);
    }
    assert(text::spec_join(dirs.push(module), "/"@) == both);
    assert(both.last() == module[module.len() - 1]);
    assert("mod.rs"@[0] == 'm');
    path::law_join(both, "mod.rs"@);
    assert("/"@ =~= seq!['/']);
}

/// A Rust module means the file of its name beside the importing file; else `mod.rs` in the
/// directory of its name there; else either of the two under `src`; and nothing where none is
/// known.
pub proof fn law_rust_modules_are_files(
    dirs: Seq<Seq<char>>,
    name: Seq<char>,
    module: Seq<char>,
    known: Seq<Seq<char>>,
)
    requires
        path::all_plain(dirs),
        path::plain(name),
        path::plain(module),
    ensures
        ({
            let file = text::spec_join(dirs.push(name), "/"@);
            let r = spec_resolve(file, module, "rs"@, known);
            let beside = text::spec_join(dirs.push(module + ".rs"@), "/"@);
            let below = text::spec_join(dirs.push(module).push("mod.rs"@), "/"@);
            let top = "src/"@ + module + ".rs"@;
            let top_below = "src/"@ + module + "/mod.rs"@;
            &&& known.contains(beside) ==> r == Some(beside)
            &&& !known.contains(beside) && known.contains(below) ==> r == Some(below)
            &&& !known.contains(beside) && !known.contains(below) && known.contains(top) ==> r
                == Some(top)
            &&& !known.contains(beside) && !known.contains(below) && !known.contains(top)
                && known.contains(top_below) ==> r == Some(top_below)
            &&& !known.contains(beside) && !known.contains(below) && !known.contains(top)
                && !known.contains(top_below) ==> r is None
        }),
{
    lemma_extensions_differ();
    lemma_directory(dirs, name);
    lemma_rust_beside(dirs, module);
    lemma_rust_in_src(module);
    let c = rust_candidates(text::spec_join(dirs.push(name), "/"@), module);
    let c1 = c.drop_first();
    let c2 = c1.drop_first();
    let c3 = c2.drop_first();
    assert(c1[0] == c[1] && c2[0] == c[2] && c3[0] == c[3]);
    assert(c3.drop_first().len() == 0);
    assert(first_known(c3.drop_first(), known) is None);
    lemma_first_known_step(c3, known);
    lemma_first_known_step(c2, known);
    lemma_first_known_step(c1, known);
    lemma_first_known_step(c, known);
}

/// A C include means the file relative to the including one wherever that is known; else the file
/// of that path from the root; and nothing where neither is known.
pub proof fn law_c_includes_are_files(
    dirs: Seq<Seq<char>>,
    name: Seq<char>,
    rest: Seq<Seq<char>>,
    ext: Seq<char>,
    known: Seq<Seq<char>>,
)
    requires
        path::all_plain(dirs),
        path::plain(name),
        path::all_plain(rest),
        rest.len() > 0,
        ext == "c"@ || ext == "h"@ || ext == "cpp"@ || ext == "cc"@ || ext == "cxx"@ || ext == "hpp"@
            || ext == "hxx"@,
    ensures
        ({
            let raw = text::spec_join(rest, "/"@);
            let near = text::spec_join(dirs + rest, "/"@);
            let r = spec_resolve(text::spec_join(dirs.push(name), "/"@), raw, ext, known);
            &&& known.contains(near) ==> r == Some(near)
            &&& !known.contains(near) && known.contains(raw) ==> r == Some(raw)
            &&& !known.contains(near) && !known.contains(raw) ==> r is None
        }),
{
    lemma_extensions_differ();
    law_relative_imports(dirs, name, name, rest);
}

proof fn lemma_go_found(raw: Seq<char>, known: Seq<Seq<char>>, i: int)
    requires
        0 <= i < known.len(),
        go_matches(known[i], raw),
    ensures
        spec_resolve_go(raw, known) is Some,
    decreases known.len(),
{
    if i > 0 && !go_matches(known[0], raw) {
        assert(known.drop_first()[i - 1] == known[i]);
        lemma_go_found(raw, known.drop_first(), i - 1);
    }
}

proof fn lemma_go_is_go(raw: Seq<char>, known: Seq<Seq<char>>)
    ensures
        spec_resolve_go(raw, known) matches Some(t) ==> text::ends(t, ".go"@),
    decreases known.len(),
{
    if known.len() > 0 {
        lemma_go_is_go(raw, known.drop_first());
    }
}

/// A Go import means a known Go file wherever there is one in the directory that the import path
/// is, or ends with in whole components; and it never means a file that is not Go.
pub proof fn law_go_packages_are_directories(
    file: Seq<char>,
    dirs: Seq<Seq<char>>,
    name: Seq<char>,
    project: Seq<char>,
    known: Seq<Seq<char>>,
)
    requires
        path::all_plain(dirs),
        dirs.len() > 0,
        path::plain(name),
        text::ends(name, ".go"@),
        known.contains(text::spec_join(dirs.push(name), "/"@)),
    ensures
        ({
            let dir = text::spec_join(dirs, "/"@);
            let whole = spec_resolve(file, dir, "go"@, known);
            let longer = spec_resolve(file, project + "/"@ + dir, "go"@, known);
            &&& whole matches Some(t) && known.contains(t) && text::ends(t, ".go"@)
            &&& longer matches Some(t) && known.contains(t) && text::ends(t, ".go"@)
        }),
{
    lemma_extensions_differ();
    let dir = text::spec_join(dirs, "/"@);
    let f = text::spec_join(dirs.push(name), "/"@);
    lemma_directory(dirs, name);
    lemma_join_ends_plain(dirs);
    let i = known.index_of(f);
    assert(dirs.push(name).drop_last() =~= dirs);
    assert(f == dir + "/"@ + name);
    assert(f.subrange(f.len() - ".go"@.len(), f.len() as int) =~= name.subrange(
        name.len() - ".go"@.len(),
        name.len() as int,
    ));
    assert(dir.subrange(0, dir.len() as int) =~= dir);
    let raw = project + "/"@ + dir;
    assert(raw.subrange(raw.len() - ("/"@ + dir).len(), raw.len() as int) =~= "/"@ + dir);
    lemma_go_found(dir, known, i);
    lemma_go_found(raw, known, i);
    lemma_go_is_go(dir, known);
    lemma_go_is_go(raw, known);
    law_imports_resolve_to_known_files(file, dir, "go"@, known);
    law_imports_resolve_to_known_files(file, raw, "go"@, known);
}

// ── What lines import ────────────────────────────────────────────────

proof fn lemma_over_lines_contains(
    lines: Seq<Seq<char>>,
    f: spec_fn(Seq<char>) -> Seq<Seq<char>>,
    i: int,
    p: Seq<char>,
)
    requires
        0 <= i < lines.len(),
        f(lines[i]).contains(p),
    ensures
        over_lines(lines, f).contains(p),
    decreases lines.len(),
{
    let front = lines.drop_last();
    let before = over_lines(front, f);
    let all = over_lines(lines, f);
    if i < front.len() {
        assert(front[i] == lines[i]);
        lemma_over_lines_contains(front, f, i, p);
        assert(all[before.index_of(p)] == p);
    } else {
        let own = f(lines.last());
        assert(all[before.len() + own.index_of(p)] == p);
    }
}

proof fn lemma_line_of_source(
    source: Seq<char>,
    ext: Seq<char>,
    language: Language,
    i: int,
    p: Seq<char>,
)
    requires
        spec_language(ext) == Some(language),
        language != Language::Go,
        0 <= i < text::spec_lines(source).len(),
        line_imports(language, text::spec_lines(source)[i]).contains(p),
    ensures
        spec_imports(source, ext).contains(p),
{
    lemma_over_lines_contains(text::spec_lines(source), line_imports_in(language), i, p);
}

/// What stands between two quotes is found.
pub proof fn lemma_between(a: Seq<char>, q: char, p: Seq<char>, tail: Seq<char>)
    requires
        text::without(a, q),
        text::without(p, q),
    ensures
        between(a + seq![q] + p + seq![q] + tail, q) == Some(p),
{
    let s = a + seq![q] + p + seq![q] + tail;
    let rest = p + seq![q] + tail;
    text::lemma_find_char_from(s, q, 0);
    assert(s[a.len() as int] == q);
    assert forall|j: int| 0 <= j < a.len() implies s[j] != q by {
        assert(s[j] == a[j]);
    }
    assert(text::spec_find_char(s, q) == Some(a.len() as int));
    assert(s.skip((a.len() + 1) as int) =~= rest);
    text::lemma_find_char_from(rest, q, 0);
    assert(rest[p.len() as int] == q);
    assert forall|j: int| 0 <= j < p.len() implies rest[j] != q by {
        assert(rest[j] == p[j]);
    }
    assert(text::spec_find_char(rest, q) == Some(p.len() as int));
    assert(rest.take(p.len() as int) =~= p);
}

/// Whether a line has a keyword for the first time behind `head`, and then, behind a gap without
/// quotes, a text in quotes of one sort that holds none of either sort.
pub open spec fn quotes_after(
    line: Seq<char>,
    head: Seq<char>,
    keyword: Seq<char>,
    gap: Seq<char>,
    q: char,
    p: Seq<char>,
    tail: Seq<char>,
) -> bool {
    &&& line == head + keyword + gap + seq![q] + p + seq![q] + tail
    &&& forall|j: int| 0 <= j < head.len() ==> !(#[trigger] text::occurs_at(line, keyword, j))
    &&& q == '"' || q == '\''
    &&& text::without(gap, '"') && text::without(gap, '\'')
    &&& text::without(p, '"') && text::without(p, '\'')
    &&& q == '\'' ==> text::without(tail, '"')
}

proof fn lemma_first_quoted(
    gap: Seq<char>,
    q: char,
    p: Seq<char>,
    tail: Seq<char>,
)
    requires
        q == '"' || q == '\'',
        text::without(gap, '"') && text::without(gap, '\''),
        text::without(p, '"') && text::without(p, '\''),
        q == '\'' ==> text::without(tail, '"'),
    ensures
        spec_first_quoted(gap + seq![q] + p + seq![q] + tail) == Some(p),
{
    let rest = gap + seq![q] + p + seq![q] + tail;
    lemma_between(gap, q, p, tail);
    if q == '\'' {
        text::lemma_find_char_from(rest, '"', 0);
        assert forall|j: int| 0 <= j < rest.len() implies rest[j] != '"' by {
            if j < gap.len() {
                assert(rest[j] == gap[j]);
            } else if gap.len() < j < gap.len() + 1 + p.len() {
                assert(rest[j] == p[j - gap.len() - 1]);
            } else if j > gap.len() + 1 + p.len() {
                assert(rest[j] == tail[j - gap.len() - 2 - p.len()]);
            }
        }
        assert(between(rest, '"') is None);
    }
}

proof fn lemma_quoted_after(
    line: Seq<char>,
    head: Seq<char>,
    keyword: Seq<char>,
    gap: Seq<char>,
    q: char,
    p: Seq<char>,
    tail: Seq<char>,
)
    requires
        quotes_after(line, head, keyword, gap, q, p, tail),
    ensures
        spec_quoted_after(line, keyword) == Some(p),
{
    let rest = gap + seq![q] + p + seq![q] + tail;
    let n = head.len() as int;
    assert(line =~= head + keyword + rest);
    assert(line.subrange(n, n + keyword.len()) =~= keyword);
    assert(text::occurs_at(line, keyword, n));
    text::lemma_find_from(line, keyword, 0);
    assert(text::spec_find(line, keyword) == Some(n));
    assert(line.skip(n + keyword.len()) =~= rest);
    lemma_first_quoted(gap, q, p, tail);
}

/// A line of JavaScript that begins with `import `, or with `export ` and has ` from ` in it,
/// imports what is quoted behind its first `from`; any line imports what is quoted behind its
/// first `require(`.
pub proof fn law_javascript_lines_import(
    source: Seq<char>,
    ext: Seq<char>,
    i: int,
    head: Seq<char>,
    gap: Seq<char>,
    q: char,
    p: Seq<char>,
    tail: Seq<char>,
)
    requires
        ext == "js"@ || ext == "jsx"@ || ext == "ts"@ || ext == "tsx"@ || ext == "mjs"@ || ext
            == "cjs"@,
        0 <= i < text::spec_lines(source).len(),
    ensures
        ({
            let t = text::spec_trim(text::spec_lines(source)[i]);
            &&& (text::begins(t, "import "@) || (text::begins(t, "export "@) && text::has(
                t,
                " from "@,
            ))) && quotes_after(t, head, "from"@, gap, q, p, tail) ==> spec_imports(
                source,
                ext,
            ).contains(p)
            &&& quotes_after(t, head, "require("@, gap, q, p, tail) ==> spec_imports(
                source,
                ext,
            ).contains(p)
        }),
{
    lemma_extensions_differ();
    let line = text::spec_lines(source)[i];
    let t = text::spec_trim(line);
    let a = listed(
        if text::begins(t, "import "@) {
            spec_quoted_after(t, "from"@)
        } else {
            None
        },
    );
    let b = listed(spec_quoted_after(t, "require("@));
    let c = listed(
        if text::begins(t, "export "@) && text::has(t, " from "@) {
            spec_quoted_after(t, "from"@)
        } else {
            None
        },
    );
    assert(js_imports(line) == a + b + c);
    if quotes_after(t, head, "from"@, gap, q, p, tail) {
        lemma_quoted_after(t, head, "from"@, gap, q, p, tail);
        if text::begins(t, "import "@) {
            assert((a + b + c)[0] == p);
            lemma_line_of_source(source, ext, Language::JavaScript, i, p);
        } else if text::begins(t, "export "@) && text::has(t, " from "@) {
            assert((a + b + c)[(a + b).len() as int] == p);
            lemma_line_of_source(source, ext, Language::JavaScript, i, p);
        }
    }
    if quotes_after(t, head, "require("@, gap, q, p, tail) {
        lemma_quoted_after(t, head, "require("@, gap, q, p, tail);
        assert((a + b + c)[a.len() as int] == p);
        lemma_line_of_source(source, ext, Language::JavaScript, i, p);
    }
}

proof fn lemma_strip(p: Seq<char>, rest: Seq<char>)
    ensures
        text::spec_strip_prefix(p + rest, p) == Some(rest),
        text::begins(p + rest, p),
{
    assert((p + rest).subrange(0, p.len() as int) =~= p);
    assert((p + rest).skip(p.len() as int) =~= rest);
}

proof fn lemma_split_of_joined(parts: Seq<Seq<char>>, c: char)
    requires
        parts.len() > 0,
        forall|i: int| 0 <= i < parts.len() ==> text::without(#[trigger] parts[i], c),
    ensures
        text::spec_split(text::spec_join(parts, seq![c]), c) == parts,
    decreases parts.len(),
{
    assert(text::without(parts[0], c));
    if parts.len() == 1 {
        text::law_split(parts[0], Seq::empty(), c);
        assert(parts =~= seq![parts[0]]);
    } else {
        let rest = parts.drop_first();
        assert forall|i: int| 0 <= i < rest.len() implies text::without(#[trigger] rest[i], c) by {
            assert(rest[i] == parts[i + 1]);
        }
        lemma_split_of_joined(rest, c);
        text::lemma_join_first(parts, seq![c]);
        text::law_split(parts[0], text::spec_join(rest, seq![c]), c);
        assert(parts =~= seq![parts[0]] + rest);
    }
}

proof fn lemma_python_parts(parts: Seq<Seq<char>>, k: int, m: Seq<char>)
    requires
        0 <= k < parts.len(),
        python_part(parts[k]).contains(m),
    ensures
        python_parts(parts).contains(m),
    decreases parts.len(),
{
    let front = parts.drop_last();
    let before = python_parts(front);
    let own = python_part(parts.last());
    if k < front.len() {
        assert(front[k] == parts[k]);
        lemma_python_parts(front, k, m);
        assert(python_parts(parts)[before.index_of(m)] == m);
    } else {
        assert(python_parts(parts)[before.len() + own.index_of(m)] == m);
    }
}

/// A line of Python that begins with `from ` imports the word behind that; one that begins with
/// `import ` imports every module that it lists between commas, under its own name where it is
/// given another one.
pub proof fn law_python_lines_import(
    source: Seq<char>,
    ext: Seq<char>,
    i: int,
    m: Seq<char>,
    tail: Seq<char>,
    parts: Seq<Seq<char>>,
    k: int,
)
    requires
        ext == "py"@ || ext == "pyi"@,
        0 <= i < text::spec_lines(source).len(),
        m.len() > 0,
        text::solid(m),
        tail.len() == 0 || text::char_is_whitespace(tail[0]),
        0 <= k < parts.len(),
        forall|j: int| 0 <= j < parts.len() ==> text::without(#[trigger] parts[j], ','),
        text::spec_trim(parts[k]) == m || (exists|alias: Seq<char>|
            text::spec_trim(parts[k]) == #[trigger] (m + " as "@ + alias)),
    ensures
        ({
            let t = text::spec_trim(text::spec_lines(source)[i]);
            &&& t == "from "@ + m + tail ==> spec_imports(source, ext).contains(m)
            &&& t == "import "@ + text::spec_join(parts, ","@) ==> spec_imports(
                source,
                ext,
            ).contains(m)
        }),
{
    lemma_extensions_differ();
    let line = text::spec_lines(source)[i];
    let t = text::spec_trim(line);
    if t == "from "@ + m + tail {
        assert("from "@ + m + tail =~= "from "@ + (m + tail));
        lemma_strip("from "@, m + tail);
        text::law_words(Seq::empty(), m, tail);
        assert(Seq::<char>::empty() + m + tail =~= m + tail);
        assert(python_imports(line)[0] == m);
        lemma_line_of_source(source, ext, Language::Python, i, m);
    }
    if t == "import "@ + text::spec_join(parts, ","@) {
        let rest = text::spec_join(parts, ","@);
        reveal_strlit("from ");
        reveal_strlit("import ");
        reveal_strlit(",");
        assert(","@ =~= seq![',']);
        lemma_strip("import "@, rest);
        assert(!text::begins(t, "from "@)) by {
            if text::begins(t, "from "@) {
                assert(t.subrange(0, 5)[0] == "from "@[0]);
                assert(t[0] == "import "@[0]);
            }
        }
        lemma_split_of_joined(parts, ',');
        let s = text::spec_trim(parts[k]);
        reveal_strlit(" as ");
        text::lemma_find_from(s, " as "@, 0);
        let named = before_text(s, " as "@);
        if s == m {
            if text::spec_find(s, " as "@) is Some {
                let j = text::spec_find(s, " as "@)->0;
                assert(s.subrange(j, j + 4)[0] == " as "@[0]);
                assert(text::char_is_whitespace(m[j]));
            }
        } else {
            let alias = choose|alias: Seq<char>| s == #[trigger] (m + " as "@ + alias);
            assert(s.subrange(m.len() as int, (m.len() + 4) as int) =~= " as "@);
            assert(text::occurs_at(s, " as "@, m.len() as int));
            assert forall|j: int| 0 <= j < m.len() implies !text::occurs_at(s, " as "@, j) by {
                if text::occurs_at(s, " as "@, j) {
                    assert(s.subrange(j, j + 4)[0] == " as "@[0]);
                    assert(s[j] == m[j]);
                    assert(text::char_is_whitespace(m[j]));
                }
            }
            assert(s.take(m.len() as int) =~= m);
        }
        assert(named == m);
        assert(!text::char_is_whitespace(m[0]) && !text::char_is_whitespace(m[m.len() - 1]));
        text::law_trim(Seq::empty(), m, Seq::empty());
        assert(Seq::<char>::empty() + m + Seq::<char>::empty() =~= m);
        assert(python_part(parts[k])[0] == m);
        lemma_python_parts(parts, k, m);
        lemma_line_of_source(source, ext, Language::Python, i, m);
    }
}

proof fn lemma_before_text(s: Seq<char>, a: Seq<char>, p: Seq<char>)
    requires
        text::begins(s, a + p),
        forall|j: int| 0 <= j < a.len() ==> !(#[trigger] text::occurs_at(s, p, j)),
    ensures
        before_text(s, p) == a,
{
    let n = a.len() as int;
    assert(s.subrange(0, (a + p).len() as int) == a + p);
    assert(s.subrange(n, n + p.len()) =~= (a + p).subrange(n, n + p.len()));
    assert((a + p).subrange(n, n + p.len()) =~= p);
    assert(text::occurs_at(s, p, n));
    text::lemma_find_from(s, p, 0);
    assert(text::spec_find(s, p) == Some(n));
    assert(s.take(n) =~= (a + p).take(n));
    assert((a + p).take(n) =~= a);
}

/// A line of Rust that begins with `use crate::` imports the module behind that, and `mod x;`
/// imports `x`.
pub proof fn law_rust_lines_import(source: Seq<char>, i: int, m: Seq<char>, tail: Seq<char>)
    requires
        0 <= i < text::spec_lines(source).len(),
        m.len() > 0,
        text::solid(m),
        text::without(m, ':') && text::without(m, '{') && text::without(m, ';'),
    ensures
        ({
            let t = text::spec_trim(text::spec_lines(source)[i]);
            &&& t == "use crate::"@ + m + "::"@ + tail ==> spec_imports(source, "rs"@).contains(m)
            &&& t == "use crate::"@ + m + ";"@ ==> spec_imports(source, "rs"@).contains(m)
            &&& t == "mod "@ + m + ";"@ ==> spec_imports(source, "rs"@).contains(m)
        }),
{
    lemma_extensions_differ();
    reveal_strlit("use crate::");
    reveal_strlit("mod ");
    reveal_strlit("::");
    reveal_strlit(";");
    reveal_strlit("{");
    let line = text::spec_lines(source)[i];
    let t = text::spec_trim(line);
    assert(text::spec_strip_trailing(m, ';') == m) by {
        assert(m[m.len() - 1] != ';');
    }
    if t == "use crate::"@ + m + "::"@ + tail {
        let rest = m + "::"@ + tail;
        assert("use crate::"@ + m + "::"@ + tail =~= "use crate::"@ + rest);
        lemma_strip("use crate::"@, rest);
        let cut = before_text(rest, "{"@);
        text::lemma_find_from(rest, "{"@, 0);
        let n = m.len() as int;
        if text::spec_find(rest, "{"@) is Some {
            let j = text::spec_find(rest, "{"@)->0;
            assert(rest.subrange(j, j + 1)[0] == "{"@[0]);
            assert(rest[j] == '{');
            assert(j >= n + 2) by {
                if j < n {
                    assert(rest[j] == m[j]);
                }
            }
        }
        assert(cut.len() >= n + 2);
        assert(cut.subrange(0, n + 2) =~= m + "::"@);
        assert((m + "::"@).len() == n + 2);
        assert(text::begins(cut, m + "::"@));
        assert forall|j: int| 0 <= j < n implies !(#[trigger] text::occurs_at(cut, "::"@, j)) by {
            if text::occurs_at(cut, "::"@, j) {
                assert(cut.subrange(j, j + 2)[0] == "::"@[0]);
                assert(cut[j] == m[j]);
            }
        }
        lemma_before_text(cut, m, "::"@);
        assert(rust_imports(line)[0] == m);
        lemma_line_of_source(source, "rs"@, Language::Rust, i, m);
    }
    if t == "use crate::"@ + m + ";"@ {
        let rest = m + ";"@;
        assert("use crate::"@ + m + ";"@ =~= "use crate::"@ + rest);
        lemma_strip("use crate::"@, rest);
        text::lemma_find_from(rest, "{"@, 0);
        if text::spec_find(rest, "{"@) is Some {
            let j = text::spec_find(rest, "{"@)->0;
            assert(rest.subrange(j, j + 1)[0] == "{"@[0]);
            if j < m.len() {
                assert(rest[j] == m[j]);
            }
        }
        text::lemma_find_from(rest, "::"@, 0);
        if text::spec_find(rest, "::"@) is Some {
            let j = text::spec_find(rest, "::"@)->0;
            assert(rest.subrange(j, j + 2)[0] == "::"@[0]);
            if j < m.len() {
                assert(rest[j] == m[j]);
            }
        }
        assert(rest.drop_last() =~= m);
        assert(text::spec_strip_trailing(rest, ';') == m);
        assert(rust_imports(line)[0] == m);
        lemma_line_of_source(source, "rs"@, Language::Rust, i, m);
    }
    if t == "mod "@ + m + ";"@ {
        let rest = m + ";"@;
        assert("mod "@ + m + ";"@ =~= "mod "@ + rest);
        lemma_strip("mod "@, rest);
        assert(text::ends(t, ";"@)) by {
            assert(t.subrange(t.len() - 1, t.len() as int) =~= ";"@);
        }
        assert(!text::begins(t, "use crate::"@)) by {
            if text::begins(t, "use crate::"@) {
                assert(t.subrange(0, 11)[0] == "use crate::"@[0]);
                assert(t[0] == "mod "@[0]);
            }
        }
        assert(rest.drop_last() =~= m);
        assert(text::spec_strip_trailing(rest, ';') == m);
        assert(!text::char_is_whitespace(m[0]) && !text::char_is_whitespace(m[m.len() - 1]));
        text::law_trim(Seq::empty(), m, Seq::empty());
        assert(Seq::<char>::empty() + m + Seq::<char>::empty() =~= m);
        assert(rust_imports(line)[0] == m);
        lemma_line_of_source(source, "rs"@, Language::Rust, i, m);
    }
}

/// A line of C that begins with `#include "` imports what is behind that, up to the next quote.
pub proof fn law_c_lines_import(
    source: Seq<char>,
    ext: Seq<char>,
    i: int,
    p: Seq<char>,
    tail: Seq<char>,
)
    requires
        ext == "c"@ || ext == "h"@ || ext == "cpp"@ || ext == "cc"@ || ext == "cxx"@ || ext == "hpp"@
            || ext == "hxx"@,
        0 <= i < text::spec_lines(source).len(),
        text::without(p, '"'),
        text::spec_trim(text::spec_lines(source)[i]) == "#include \""@ + p + "\""@ + tail,
    ensures
        spec_imports(source, ext).contains(p),
{
    lemma_extensions_differ();
    reveal_strlit("\"");
    let line = text::spec_lines(source)[i];
    let rest = p + "\""@ + tail;
    assert("#include \""@ + p + "\""@ + tail =~= "#include \""@ + rest);
    lemma_strip("#include \""@, rest);
    text::lemma_find_char_from(rest, '"', 0);
    assert(rest[p.len() as int] == '"');
    assert forall|j: int| 0 <= j < p.len() implies rest[j] != '"' by {
        assert(rest[j] == p[j]);
    }
    assert(text::spec_find_char(rest, '"') == Some(p.len() as int));
    assert(rest.take(p.len() as int) =~= p);
    assert(c_imports(line)[0] == p);
    lemma_line_of_source(source, ext, Language::C, i, p);
}

proof fn lemma_go_imports_grow(lines: Seq<Seq<char>>, n: int, p: Seq<char>)
    requires
        0 <= n <= lines.len(),
        go_imports(lines.take(n)).contains(p),
    ensures
        go_imports(lines).contains(p),
    decreases lines.len(),
{
    if n == lines.len() {
        assert(lines.take(n) =~= lines);
    } else {
        let front = lines.drop_last();
        assert(front.take(n) =~= lines.take(n));
        lemma_go_imports_grow(front, n, p);
        assert(go_imports(lines)[go_imports(front).index_of(p)] == p);
    }
}

proof fn lemma_go_block(lines: Seq<Seq<char>>, k: int, n: int)
    requires
        0 <= k < n <= lines.len(),
        text::spec_trim(lines[k]) == "import ("@,
        forall|j: int| k < j < n ==> text::spec_trim(#[trigger] lines[j]) != ")"@,
    ensures
        go_in_block(lines.take(n)),
    decreases n - k,
{
    let t = lines.take(n);
    assert(t.drop_last() =~= lines.take(n - 1));
    assert(t.last() == lines[n - 1]);
    if n > k + 1 {
        lemma_go_block(lines, k, n - 1);
    }
}

/// A line of Go imports what it quotes where it begins with `import `, and where it stands in a
/// block that a line `import (` opens and no line `)` closes before it.
pub proof fn law_go_lines_import(
    source: Seq<char>,
    k: int,
    i: int,
    gap: Seq<char>,
    p: Seq<char>,
    tail: Seq<char>,
)
    requires
        0 <= i < text::spec_lines(source).len(),
        text::without(gap, '"') && text::without(p, '"'),
        text::spec_trim(text::spec_lines(source)[i]) == gap + seq!['"'] + p + seq!['"'] + tail,
        text::begins(text::spec_trim(text::spec_lines(source)[i]), "import "@) || (0 <= k < i
            && text::spec_trim(text::spec_lines(source)[k]) == "import ("@ && forall|j: int|
            k < j < i ==> text::spec_trim(#[trigger] text::spec_lines(source)[j]) != ")"@),
    ensures
        spec_imports(source, "go"@).contains(p),
{
    lemma_extensions_differ();
    reveal_strlit("import (");
    reveal_strlit(")");
    let lines = text::spec_lines(source);
    let s = text::spec_trim(lines[i]);
    lemma_between(gap, '"', p, tail);
    assert(spec_first_quoted(s) == Some(p));
    assert(s[gap.len() as int] == '"');
    assert(s != "import ("@) by {
        if s == "import ("@ {
            assert("import ("@[gap.len() as int] != '"');
        }
    }
    assert(s != ")"@) by {
        if s == ")"@ {
            assert(")"@[0] == ')');
        }
    }
    let t = lines.take(i + 1);
    assert(t.drop_last() =~= lines.take(i));
    assert(t.last() == lines[i]);
    if !text::begins(s, "import "@) {
        lemma_go_block(lines, k, i);
    }
    let before = go_imports(lines.take(i));
    assert(go_imports(t)[before.len() as int] == p);
    lemma_go_imports_grow(lines, i + 1, p);
}

/// A line imports nothing where it does not begin as an import of its language does and, in
/// JavaScript, requires nothing.
pub proof fn law_other_lines_import_nothing(line: Seq<char>)
    ensures
        ({
            let t = text::spec_trim(line);
            &&& !text::begins(t, "import "@) && !text::begins(t, "export "@) && !text::has(
                t,
                "require("@,
            ) ==> js_imports(line).len() == 0
            &&& !text::begins(t, "import "@) && !text::begins(t, "from "@) ==> python_imports(
                line,
            ).len() == 0
            &&& !text::begins(t, "use crate::"@) && !text::begins(t, "mod "@) ==> rust_imports(
                line,
            ).len() == 0
            &&& !text::begins(t, "#include \""@) ==> c_imports(line).len() == 0
        }),
{
}

/// What stands before a mark is what is cut off, where the first character of the mark does not occur
/// in it.
pub proof fn lemma_before_mark(a: Seq<char>, p: Seq<char>, tail: Seq<char>)
    requires
        p.len() > 0,
        text::without(a, p[0]),
    ensures
        before_text(a + p + tail, p) == a,
{
    let s = a + p + tail;
    let n = a.len() as int;
    text::lemma_find_from(s, p, 0);
    assert(s.subrange(n, n + p.len()) =~= p);
    assert(text::occurs_at(s, p, n));
    match text::spec_find(s, p) {
        Some(i) => {
            if i < n {
                assert(s.subrange(i, i + p.len())[0] == p[0]);
                assert(s[i] == a[i]);
            }
        },
        None => {},
    }
    assert(s.take(n) =~= a);
}

} // verus!
