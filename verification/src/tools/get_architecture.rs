//! A condensed overview of a project.

use crate::collections;
use crate::collections::NameSet;
use crate::indexer::config;
use crate::indexer::file_walker;
use crate::indexer::file_walker::{FileEntry, FileModel};
use crate::numerals;
use crate::sort;
use crate::text;
use crate::tools::list_files;
use crate::width;
use vstd::prelude::*;

verus! {

/// How many bytes of a document the overview shows.
pub const DOC_BUDGET: usize = 2000;

/// How many lines of a section the overview shows.
pub const SECTION_LINES: usize = 6;

/// How many kinds of files the overview names.
pub const MAX_EXTENSIONS: usize = 8;

/// The documents that the overview looks for; the first that can be read is shown.
pub fn doc_names() -> (r: Vec<String>)
    ensures
        text::texts(r@) == seq!["ARCHITECTURE.md"@, "README.md"@, "readme.md"@],
{
    let r = vec![
        text::owned("ARCHITECTURE.md"),
        text::owned("README.md"),
        text::owned("readme.md"),
    ];
    assert(text::texts(r@) =~= seq!["ARCHITECTURE.md"@, "README.md"@, "readme.md"@]);
    r
}

// ── Document skeleton ────────────────────────────────────────────────

/// Whether a line opens or closes a block of code.
pub open spec fn fence(line: Seq<char>) -> bool {
    text::begins(text::spec_trim_start(line), "```"@)
}

/// How many lines open or close a block of code.
pub open spec fn fences(lines: Seq<Seq<char>>) -> nat
    decreases lines.len(),
{
    if lines.len() == 0 {
        0
    } else if fence(lines.last()) {
        fences(lines.drop_last()) + 1
    } else {
        fences(lines.drop_last())
    }
}

/// Whether a line of a document opens or closes a block of code or lies in one.
pub open spec fn of_code(lines: Seq<Seq<char>>, i: int) -> bool {
    fence(lines[i]) || fences(lines.take(i)) % 2 == 1
}

/// Whether a line is a header.
pub open spec fn header(line: Seq<char>) -> bool {
    line.len() > 0 && line[0] == '#'
}

/// Whether a line is blank.
pub open spec fn blank(line: Seq<char>) -> bool {
    !header(line) && text::spec_trim(line).len() == 0
}

/// How many of the lines at given places come after the last header among them.
pub open spec fn since_header(lines: Seq<Seq<char>>, places: Seq<int>) -> nat
    decreases places.len(),
{
    if places.len() == 0 || header(lines[places.last()]) {
        0
    } else {
        since_header(lines, places.drop_last()) + 1
    }
}

/// Whether a line belongs to the skeleton, given the places of those before it that do: no line
/// of code, but every header, and the first lines of a section, which do not start with a blank
/// one.
pub open spec fn belongs(lines: Seq<Seq<char>>, i: int, before: Seq<int>) -> bool {
    let n = since_header(lines, before);
    !of_code(lines, i) && (header(lines[i]) || (n < SECTION_LINES && (blank(lines[i]) ==> n > 0)))
}

/// The places of those among the first `n` lines that belong to the skeleton.
pub open spec fn kept_places(lines: Seq<Seq<char>>, n: int) -> Seq<int>
    decreases n,
{
    if n <= 0 {
        Seq::empty()
    } else if belongs(lines, n - 1, kept_places(lines, n - 1)) {
        kept_places(lines, n - 1).push(n - 1)
    } else {
        kept_places(lines, n - 1)
    }
}

/// What a skeleton ends with where a header, or another line, does not fit its budget.
pub open spec fn omission(line: Seq<char>) -> Seq<char> {
    if header(line) {
        "\n... [remaining sections omitted — use get_file_context for full content]\n"@
    } else {
        "\n... [truncated — use get_file_context for full content]\n"@
    }
}

/// A line as it is shown behind a text: a header has an empty line before it.
pub open spec fn shown_line(before: Seq<char>, line: Seq<char>) -> Seq<char> {
    if blank(line) {
        "\n"@
    } else if header(line) && before.len() > 0 {
        "\n"@ + line + "\n"@
    } else {
        line + "\n"@
    }
}

/// Whether a line fits behind a text within a budget. Every line but a blank one leaves room
/// for an empty line.
pub open spec fn fits(before: Seq<char>, line: Seq<char>, budget: nat) -> bool {
    width::bytes_of(before) + (if blank(line) {
        1
    } else {
        width::bytes_of(line) + 2
    }) <= budget
}

/// A skeleton, and whether it stopped at a line that did not fit.
pub struct Skeleton {
    pub text: Seq<char>,
    pub stopped: bool,
}

/// The skeleton that shows the lines at given places within a budget. It stops with a note at
/// the first that does not fit; a blank line that does not fit is left out.
pub open spec fn shown_lines(lines: Seq<Seq<char>>, places: Seq<int>, budget: nat) -> Skeleton
    decreases places.len(),
{
    if places.len() == 0 {
        Skeleton { text: Seq::empty(), stopped: false }
    } else {
        let s = shown_lines(lines, places.drop_last(), budget);
        let line = lines[places.last()];
        if s.stopped {
            s
        } else if fits(s.text, line, budget) {
            Skeleton { text: s.text + shown_line(s.text, line), stopped: false }
        } else if blank(line) {
            s
        } else {
            Skeleton { text: s.text + omission(line), stopped: true }
        }
    }
}

/// The skeleton of the lines of a document.
pub open spec fn skeleton(lines: Seq<Seq<char>>, budget: nat) -> Skeleton {
    shown_lines(lines, kept_places(lines, lines.len() as int), budget)
}

proof fn lemma_stopped(lines: Seq<Seq<char>>, budget: nat, n: int, m: int)
    requires
        0 <= n <= m,
        shown_lines(lines, kept_places(lines, n), budget).stopped,
    ensures
        shown_lines(lines, kept_places(lines, m), budget) == shown_lines(
            lines,
            kept_places(lines, n),
            budget,
        ),
    decreases m,
{
    if n < m {
        lemma_stopped(lines, budget, n, m - 1);
        let before = kept_places(lines, m - 1);
        assert(before.push(m - 1).drop_last() =~= before);
    }
}

proof fn lemma_shown_bytes(before: Seq<char>, line: Seq<char>)
    ensures
        width::bytes_of(before + shown_line(before, line)) == width::bytes_of(before)
            + width::bytes_of(shown_line(before, line)),
        width::bytes_of(shown_line(before, line)) == (if blank(line) {
            1
        } else if header(line) && before.len() > 0 {
            width::bytes_of(line) + 2
        } else {
            width::bytes_of(line) + 1
        }),
{
    reveal_strlit("\n");
    assert("\n"@ =~= seq!['\n']);
    width::lemma_single('\n');
    width::lemma_char_bytes('\n');
    width::lemma_encode_concat(before, shown_line(before, line));
    width::lemma_encode_concat("\n"@, line);
    width::lemma_encode_concat("\n"@ + line, "\n"@);
    width::lemma_encode_concat(line, "\n"@);
}

/// Extract a skeleton from a markdown document: all headers and the first lines of each
/// section. Skips code blocks but preserves prose, lists, and tables. Captures the document's
/// structure within a budget of bytes instead of blindly truncating.
pub fn extract_doc_skeleton(content: &str, char_budget: usize) -> (r: String)
    ensures
        r@ == skeleton(text::spec_lines(content@), char_budget as nat).text,
{
    let chars = text::chars_of(content);
    let lines = text::lines(chars.as_slice());
    let ghost all = text::slices(lines@);
    let budget: u128 = char_budget as u128;
    let mut out = String::new();
    let mut in_code = false;
    let mut used: u128 = 0;
    let mut section: usize = 0;
    assert(out@ =~= Seq::empty());
    assert(all.take(0) =~= Seq::empty());
    proof {
        width::lemma_bytes_at_least_chars(Seq::empty());
    }
    for i in 0..lines.len()
        invariant
            all == text::slices(lines@),
            all == text::spec_lines(content@),
            budget == char_budget,
            used <= budget,
            used == width::bytes_of(out@),
            section <= SECTION_LINES,
            section == since_header(all, kept_places(all, i as int)),
            in_code == (fences(all.take(i as int)) % 2 == 1),
            shown_lines(all, kept_places(all, i as int), budget as nat) == (Skeleton {
                text: out@,
                stopped: false,
            }),
    {
        let line = lines[i];
        let ghost before = kept_places(all, i as int);
        let ghost old_out = out@;
        proof {
            assert(all.take(i + 1).drop_last() =~= all.take(i as int));
            assert(all.take(i + 1).last() == line@);
            assert(all[i as int] == line@);
            assert(before.push(i as int).drop_last() =~= before);
            lemma_shown_bytes(out@, line@);
            width::lemma_bytes_at_least_chars(out@);
        }
        let shown = text::string_of(line);
        let cost: u128 = width::byte_len(shown.as_str()) as u128 + 1;
        if text::starts_with(text::trim_start(line), "```") {
            in_code = !in_code;
        } else if !in_code {
            if line.len() > 0 && line[0] == '#' {
                if used + cost + 1 > budget {
                    proof {
                        lemma_stopped(all, budget as nat, i + 1, all.len() as int);
                    }
                    return out.concat(
                        "\n... [remaining sections omitted — use get_file_context for full content]\n",
                    );
                }
                if used > 0 {
                    out = out.concat("\n");
                    used = used + 1;
                }
                out = out.concat(shown.as_str()).concat("\n");
                assert(out@ =~= old_out + shown_line(old_out, line@));
                used = used + cost;
                section = 0;
            } else if text::trim(line).len() == 0 {
                if section > 0 && section < SECTION_LINES {
                    if used + 1 <= budget {
                        out = out.concat("\n");
                        used = used + 1;
                    }
                    section = section + 1;
                }
            } else if section < SECTION_LINES {
                if used + cost + 1 > budget {
                    proof {
                        lemma_stopped(all, budget as nat, i + 1, all.len() as int);
                    }
                    return out.concat(
                        "\n... [truncated — use get_file_context for full content]\n",
                    );
                }
                out = out.concat(shown.as_str()).concat("\n");
                assert(out@ =~= old_out + shown_line(old_out, line@));
                used = used + cost;
                section = section + 1;
            }
        }
    }
    out
}

// ── File statistics ──────────────────────────────────────────────────

/// The extensions of files.
pub open spec fn extensions(files: Seq<FileModel>) -> Seq<Seq<char>> {
    files.map_values(|f: FileModel| f.extension)
}

/// How often each extension occurs, in the order in which they first come.
pub open spec fn extension_counts(files: Seq<FileModel>) -> Seq<(Seq<char>, nat)> {
    collections::distinct(extensions(files)).map_values(
        |e: Seq<char>| (e, collections::occurrences(extensions(files), e)),
    )
}

/// The keys by which counts are sorted, the largest first.
pub open spec fn count_keys(counts: Seq<(Seq<char>, nat)>) -> Seq<usize> {
    counts.map_values(|p: (Seq<char>, nat)| (usize::MAX - p.1) as usize)
}

/// The values of a list of counts.
pub open spec fn stats(v: Seq<(String, usize)>) -> Seq<(Seq<char>, nat)> {
    v.map_values(|p: (String, usize)| (p.0@, p.1 as nat))
}

/// Whether `r` are the most frequent extensions with their counts, the most frequent first.
pub open spec fn most_frequent(files: Seq<FileModel>, r: Seq<(Seq<char>, nat)>) -> bool {
    exists|order: Seq<usize>| #[trigger]
        sort::sorts(count_keys(extension_counts(files)), order) && r == text::first_n(
            order,
            MAX_EXTENSIONS as int,
        ).map_values(|k: usize| extension_counts(files)[k as int])
}

fn count_extension(files: &[FileEntry], extension: &str) -> (r: usize)
    ensures
        r == collections::occurrences(extensions(file_walker::models(files@)), extension@),
{
    let ghost all = extensions(file_walker::models(files@));
    let mut count: usize = 0;
    assert(all.take(0) =~= Seq::empty());
    for i in 0..files.len()
        invariant
            all == extensions(file_walker::models(files@)),
            count <= i,
            count == collections::occurrences(all.take(i as int), extension@),
    {
        proof {
            assert(all.take(i + 1).drop_last() =~= all.take(i as int));
            assert(all.take(i + 1).last() == files@[i as int].extension@);
        }
        if text::same(files[i].extension.as_str(), extension) {
            count = count + 1;
        }
    }
    assert(all.take(all.len() as int) =~= all);
    count
}

/// How often the most frequent extensions occur.
pub fn collect_file_stats(files: &[FileEntry]) -> (r: Vec<(String, usize)>)
    ensures
        most_frequent(file_walker::models(files@), stats(r@)),
{
    let ghost models = file_walker::models(files@);
    let ghost all = extensions(models);
    let ghost counts = extension_counts(models);
    let mut names = NameSet::new();
    assert(all.take(0) =~= Seq::empty());
    for i in 0..files.len()
        invariant
            names.wf(),
            models == file_walker::models(files@),
            all == extensions(models),
            names@ == collections::distinct(all.take(i as int)),
    {
        proof {
            assert(all.take(i + 1).drop_last() =~= all.take(i as int));
            assert(all.take(i + 1).last() == files@[i as int].extension@);
        }
        names.insert(files[i].extension.clone());
    }
    assert(all.take(all.len() as int) =~= all);
    let n: usize = names.len();
    let mut keys: Vec<usize> = Vec::new();
    let mut found: Vec<usize> = Vec::new();
    for i in 0..n
        invariant
            names.wf(),
            n == names@.len(),
            models == file_walker::models(files@),
            all == extensions(models),
            names@ == collections::distinct(all),
            counts == extension_counts(models),
            keys@.len() == i,
            found@.len() == i,
            forall|k: int| 0 <= k < i ==> #[trigger] found@[k] == counts[k].1,
            forall|k: int| 0 <= k < i ==> #[trigger] keys@[k] == usize::MAX - counts[k].1,
    {
        let count: usize = count_extension(files, names.get(i));
        assert(counts[i as int] == (names@[i as int], count as nat));
        found.push(count);
        keys.push(usize::MAX - count);
    }
    assert(keys@ =~= count_keys(counts));
    let order = sort::order(keys.as_slice());
    let m: usize = if order.len() <= MAX_EXTENSIONS {
        order.len()
    } else {
        MAX_EXTENSIONS
    };
    let ghost chosen = text::first_n(order@, MAX_EXTENSIONS as int).map_values(
        |k: usize| counts[k as int],
    );
    let mut out: Vec<(String, usize)> = Vec::new();
    assert(stats(out@) =~= chosen.take(0));
    for i in 0..m
        invariant
            names.wf(),
            m <= order@.len(),
            order@.len() == found@.len(),
            found@.len() == counts.len(),
            names@.len() == counts.len(),
            chosen.len() == m,
            all == extensions(models),
            names@ == collections::distinct(all),
            counts == extension_counts(models),
            chosen == text::first_n(order@, MAX_EXTENSIONS as int).map_values(
                |k: usize| counts[k as int],
            ),
            forall|k: int| 0 <= k < order@.len() ==> #[trigger] order@[k] < counts.len(),
            forall|k: int| 0 <= k < found@.len() ==> #[trigger] found@[k] == counts[k].1,
            stats(out@) == chosen.take(i as int),
    {
        let place: usize = order[i];
        let ghost before = stats(out@);
        let name = text::owned(names.get(place));
        out.push((name, found[place]));
        assert(counts[place as int].0 == names@[place as int]);
        assert(chosen[i as int] == counts[place as int]);
        assert(stats(out@) =~= before.push(chosen[i as int]));
        assert(chosen.take(i + 1) =~= before.push(chosen[i as int]));
    }
    assert(chosen.take(chosen.len() as int) =~= chosen);
    out
}

// ── Stack ────────────────────────────────────────────────────────────

/// The files by which a technology is told, with its name.
pub open spec fn markers() -> Seq<(Seq<char>, Seq<char>)> {
    seq![
        ("package.json"@, "Node.js"@),
        ("Cargo.toml"@, "Rust"@),
        ("go.mod"@, "Go"@),
        ("requirements.txt"@, "Python"@),
        ("pyproject.toml"@, "Python"@),
        ("Gemfile"@, "Ruby"@),
        ("pom.xml"@, "Java (Maven)"@),
        ("build.gradle"@, "Java (Gradle)"@),
        ("tsconfig.json"@, "TypeScript"@),
        ("next.config.js"@, "Next.js"@),
        ("next.config.mjs"@, "Next.js"@),
        ("vite.config.ts"@, "Vite"@),
        ("vite.config.js"@, "Vite"@),
        ("tailwind.config.ts"@, "Tailwind CSS"@),
        ("tailwind.config.js"@, "Tailwind CSS"@),
        ("docker-compose.yml"@, "Docker"@),
        ("Dockerfile"@, "Docker"@),
        (".env"@, "Environment variables"@),
        ("ecosystem.config.js"@, "PM2"@),
    ]
}

/// The values of a list of markers.
pub open spec fn marker_texts(v: Seq<(&'static str, &'static str)>) -> Seq<(Seq<char>, Seq<char>)> {
    v.map_values(|p: (&'static str, &'static str)| (p.0@, p.1@))
}

/// The files by which a technology is told, with its name.
pub fn stack_markers() -> (r: Vec<(&'static str, &'static str)>)
    ensures
        marker_texts(r@) == markers(),
{
    let r = vec![
        ("package.json", "Node.js"),
        ("Cargo.toml", "Rust"),
        ("go.mod", "Go"),
        ("requirements.txt", "Python"),
        ("pyproject.toml", "Python"),
        ("Gemfile", "Ruby"),
        ("pom.xml", "Java (Maven)"),
        ("build.gradle", "Java (Gradle)"),
        ("tsconfig.json", "TypeScript"),
        ("next.config.js", "Next.js"),
        ("next.config.mjs", "Next.js"),
        ("vite.config.ts", "Vite"),
        ("vite.config.js", "Vite"),
        ("tailwind.config.ts", "Tailwind CSS"),
        ("tailwind.config.js", "Tailwind CSS"),
        ("docker-compose.yml", "Docker"),
        ("Dockerfile", "Docker"),
        (".env", "Environment variables"),
        ("ecosystem.config.js", "PM2"),
    ];
    assert(marker_texts(r@) =~= markers());
    r
}

/// The technologies of the markers among given files, in the order of the markers.
pub open spec fn stack_of(list: Seq<(Seq<char>, Seq<char>)>, present: Seq<Seq<char>>) -> Seq<
    Seq<char>,
>
    decreases list.len(),
{
    if list.len() == 0 {
        Seq::empty()
    } else if present.contains(list.last().0) {
        stack_of(list.drop_last(), present).push(list.last().1)
    } else {
        stack_of(list.drop_last(), present)
    }
}

/// The technologies that a project uses, given those of the markers that it has.
pub fn detect_stack(present: &NameSet) -> (r: Vec<String>)
    requires
        present.wf(),
    ensures
        text::texts(r@) == stack_of(markers(), present@),
{
    let list = stack_markers();
    let ghost all = markers();
    let mut out: Vec<String> = Vec::new();
    assert(all.take(0) =~= Seq::empty());
    assert(text::texts(out@) =~= Seq::empty());
    for i in 0..list.len()
        invariant
            present.wf(),
            all == marker_texts(list@),
            text::texts(out@) == stack_of(all.take(i as int), present@),
    {
        proof {
            assert(all.take(i + 1).drop_last() =~= all.take(i as int));
            assert(all.take(i + 1).last() == (list@[i as int].0@, list@[i as int].1@));
        }
        if present.contains(list[i].0) {
            let ghost before = text::texts(out@);
            out.push(text::owned(list[i].1));
            assert(text::texts(out@) =~= before.push(list@[i as int].1@));
        }
    }
    assert(all.take(all.len() as int) =~= all);
    out
}

// ── Overview ─────────────────────────────────────────────────────────

/// The directories of a project that are shown, each with a slash behind it.
pub open spec fn shown_dirs(dirs: Seq<Seq<char>>) -> Seq<Seq<char>>
    decreases dirs.len(),
{
    if dirs.len() == 0 {
        Seq::empty()
    } else if config::skip_dir(dirs.last()) {
        shown_dirs(dirs.drop_last())
    } else {
        shown_dirs(dirs.drop_last()).push(dirs.last() + "/"@)
    }
}

/// The counts of extensions as they are shown.
pub open spec fn shown_stats(list: Seq<(Seq<char>, nat)>) -> Seq<Seq<char>> {
    list.map_values(
        |p: (Seq<char>, nat)| "."@ + p.0 + "("@ + numerals::spec_decimal(p.1) + ")"@,
    )
}

/// The part of the overview that shows a document, given its name and content.
pub open spec fn doc_part(doc: Option<(String, String)>) -> Seq<char> {
    match doc {
        Some(d) => "## From "@ + d.0@ + "\n\n"@ + skeleton(
            text::spec_lines(d.1@),
            DOC_BUDGET as nat,
        ).text + "\n\n"@,
        None => Seq::empty(),
    }
}

/// The overview of a project, given the counts of its extensions.
pub open spec fn overview(
    project: Seq<char>,
    doc: Option<(String, String)>,
    counts: Seq<(Seq<char>, nat)>,
    dirs: Seq<Seq<char>>,
    stack: Seq<Seq<char>>,
) -> Seq<char> {
    let front = "# Project: "@ + list_files::dir_name(project) + "\n\n"@ + doc_part(doc)
        + "Files: "@ + text::spec_join(shown_stats(counts), " "@) + "\nDirs: "@ + text::spec_join(
        shown_dirs(dirs),
        ", "@,
    ) + "\n"@;
    if stack.len() > 0 {
        front + "Stack: "@ + text::spec_join(stack, ", "@) + "\n"@
    } else {
        front
    }
}

/// Whether `r` is the overview of a project.
pub open spec fn overviews(
    project: Seq<char>,
    doc: Option<(String, String)>,
    files: Seq<FileModel>,
    dirs: Seq<Seq<char>>,
    present: Seq<Seq<char>>,
    r: Seq<char>,
) -> bool {
    exists|counts: Seq<(Seq<char>, nat)>| #[trigger]
        most_frequent(files, counts) && r == overview(
            project,
            doc,
            counts,
            dirs,
            stack_of(markers(), present),
        )
}

fn show_stats(list: &Vec<(String, usize)>) -> (r: Vec<String>)
    ensures
        text::texts(r@) == shown_stats(stats(list@)),
{
    let ghost all = shown_stats(stats(list@));
    let mut out: Vec<String> = Vec::new();
    assert(text::texts(out@) =~= all.take(0));
    for i in 0..list.len()
        invariant
            all == shown_stats(stats(list@)),
            text::texts(out@) == all.take(i as int),
    {
        let ghost before = text::texts(out@);
        out.push(
            text::owned(".").concat(list[i].0.as_str()).concat("(").concat(
                numerals::decimal_usize(list[i].1).as_str(),
            ).concat(")"),
        );
        assert(text::texts(out@) =~= before.push(all[i as int]));
        assert(all.take(i + 1) =~= before.push(all[i as int]));
    }
    assert(all.take(all.len() as int) =~= all);
    out
}

fn show_dirs(dirs: &[String]) -> (r: Vec<String>)
    ensures
        text::texts(r@) == shown_dirs(text::texts(dirs@)),
{
    let ghost all = text::texts(dirs@);
    let mut out: Vec<String> = Vec::new();
    assert(all.take(0) =~= Seq::empty());
    assert(text::texts(out@) =~= Seq::empty());
    for i in 0..dirs.len()
        invariant
            all == text::texts(dirs@),
            text::texts(out@) == shown_dirs(all.take(i as int)),
    {
        proof {
            assert(all.take(i + 1).drop_last() =~= all.take(i as int));
            assert(all.take(i + 1).last() == dirs@[i as int]@);
        }
        if !config::is_skip_dir(dirs[i].as_str()) {
            let ghost before = text::texts(out@);
            out.push(text::owned(dirs[i].as_str()).concat("/"));
            assert(text::texts(out@) =~= before.push(dirs@[i as int]@ + "/"@));
        }
    }
    assert(all.take(all.len() as int) =~= all);
    out
}

/// Build a condensed project architecture overview from what a project has: a document that
/// could be read, with its name; its source files; the directories in its root; and those of
/// the markers that exist.
pub fn build_overview(
    project_path: &str,
    doc: &Option<(String, String)>,
    files: &[FileEntry],
    dirs: &[String],
    present: &NameSet,
) -> (r: String)
    requires
        present.wf(),
    ensures
        overviews(
            project_path@,
            *doc,
            file_walker::models(files@),
            text::texts(dirs@),
            present@,
            r@,
        ),
{
    let name = list_files::show_dir_name(project_path);
    let about = match doc {
        Some(d) => text::owned("## From ").concat(d.0.as_str()).concat("\n\n").concat(
            extract_doc_skeleton(d.1.as_str(), DOC_BUDGET).as_str(),
        ).concat("\n\n"),
        None => {
            let none = String::new();
            assert(none@ =~= Seq::empty());
            none
        },
    };
    let counts = collect_file_stats(files);
    let shown = show_stats(&counts);
    let shown_list = show_dirs(dirs);
    let front = text::owned("# Project: ").concat(name.as_str()).concat("\n\n").concat(
        about.as_str(),
    ).concat("Files: ").concat(text::join(shown.as_slice(), " ").as_str()).concat(
        "\nDirs: ",
    ).concat(text::join(shown_list.as_slice(), ", ").as_str()).concat("\n");
    let stack = detect_stack(present);
    assert(text::texts(stack@).len() == stack@.len());
    if stack.len() > 0 {
        front.concat("Stack: ").concat(text::join(stack.as_slice(), ", ").as_str()).concat("\n")
    } else {
        front
    }
}

// ── Laws ─────────────────────────────────────────────────────────────

/// Whether a text is the skeleton of the lines before the `k`-th place, within the budget, and
/// then the note on the line at that place.
pub open spec fn stops_with(
    lines: Seq<Seq<char>>,
    places: Seq<int>,
    budget: nat,
    t: Seq<char>,
    k: int,
) -> bool {
    let before = shown_lines(lines, places.take(k), budget);
    &&& 0 <= k < places.len()
    &&& !before.stopped
    &&& width::bytes_of(before.text) <= budget
    &&& !fits(before.text, lines[places[k]], budget)
    &&& t == before.text + omission(lines[places[k]])
}

/// Whether a text is a skeleton that stops at some place.
pub open spec fn stops_at(
    lines: Seq<Seq<char>>,
    places: Seq<int>,
    budget: nat,
    t: Seq<char>,
) -> bool {
    exists|k: int| #[trigger] stops_with(lines, places, budget, t, k)
}

proof fn lemma_shown_fit(lines: Seq<Seq<char>>, places: Seq<int>, budget: nat)
    ensures
        ({
            let s = shown_lines(lines, places, budget);
            if s.stopped {
                stops_at(lines, places, budget, s.text)
            } else {
                width::bytes_of(s.text) <= budget
            }
        }),
    decreases places.len(),
{
    if places.len() == 0 {
        width::lemma_bytes_at_least_chars(Seq::empty());
    } else {
        let front = places.drop_last();
        let s = shown_lines(lines, front, budget);
        lemma_shown_fit(lines, front, budget);
        lemma_shown_bytes(s.text, lines[places.last()]);
        if s.stopped {
            let k = choose|k: int| #[trigger] stops_with(lines, front, budget, s.text, k);
            assert(front.take(k) =~= places.take(k));
            assert(stops_with(lines, places, budget, s.text, k));
        } else {
            assert(places.take(places.len() - 1) =~= front);
            let all = shown_lines(lines, places, budget);
            if all.stopped {
                assert(stops_with(lines, places, budget, all.text, places.len() - 1));
            }
        }
    }
}

/// A skeleton keeps to its budget, unless it stopped at a line that does not fit: then what is
/// before its closing note keeps to the budget.
pub proof fn law_skeleton_keeps_to_budget(lines: Seq<Seq<char>>, budget: nat)
    ensures
        ({
            let s = skeleton(lines, budget);
            if s.stopped {
                stops_at(lines, kept_places(lines, lines.len() as int), budget, s.text)
            } else {
                width::bytes_of(s.text) <= budget
            }
        }),
{
    lemma_shown_fit(lines, kept_places(lines, lines.len() as int), budget);
}

/// The lines of a skeleton are lines of the document in their order: none of code, every header
/// that is not in code, and at most six others behind each header.
pub proof fn law_skeleton_lines(lines: Seq<Seq<char>>, n: int)
    requires
        0 <= n <= lines.len(),
    ensures
        since_header(lines, kept_places(lines, n)) <= SECTION_LINES,
        forall|k: int|
            0 <= k < kept_places(lines, n).len() ==> 0 <= (#[trigger] kept_places(lines, n)[k]) < n
                && !of_code(lines, kept_places(lines, n)[k]),
        forall|k: int, l: int|
            #![trigger kept_places(lines, n)[k], kept_places(lines, n)[l]]
            0 <= k < l < kept_places(lines, n).len() ==> kept_places(lines, n)[k] < kept_places(
                lines,
                n,
            )[l],
        forall|i: int|
            0 <= i < n && header(#[trigger] lines[i]) && !of_code(lines, i) ==> kept_places(
                lines,
                n,
            ).contains(i),
    decreases n,
{
    if n > 0 {
        law_skeleton_lines(lines, n - 1);
        let before = kept_places(lines, n - 1);
        let places = kept_places(lines, n);
        assert(before.push(n - 1).drop_last() =~= before);
        assert forall|i: int|
            0 <= i < n && header(#[trigger] lines[i]) && !of_code(
                lines,
                i,
            ) implies places.contains(i) by {
            if i < n - 1 {
                let k = choose|k: int| 0 <= k < before.len() && before[k] == i;
                assert(places[k] == i);
            } else {
                assert(places[before.len() as int] == i);
            }
        }
    }
}

/// A line that is not of code and not blank is in the skeleton where fewer than six lines behind its
/// header are, and a blank one where there is at least one of them; a header always is, and a line
/// of code never. Behind six lines nothing but the next header is.
pub proof fn law_first_lines_of_sections_are_kept(lines: Seq<Seq<char>>, i: int)
    requires
        0 <= i < lines.len(),
    ensures
        ({
            let before = kept_places(lines, i);
            let n = since_header(lines, before);
            let after = kept_places(lines, i + 1);
            let line = lines[i];
            let is_header = line.len() > 0 && line[0] == '#';
            let is_blank = text::spec_trim(line).len() == 0;
            &&& of_code(lines, i) ==> after == before
            &&& !of_code(lines, i) && is_header ==> after == before.push(i)
            &&& !of_code(lines, i) && !is_header && n >= 6 ==> after == before
            &&& !of_code(lines, i) && !is_header && !is_blank && n < 6 ==> after == before.push(i)
            &&& !of_code(lines, i) && !is_header && is_blank && 0 < n < 6 ==> after == before.push(i)
            &&& !of_code(lines, i) && !is_header && is_blank && n == 0 ==> after == before
        }),
        DOC_BUDGET == 2000,
{
}

/// A block of code starts and ends with a line that begins with three backquotes, behind white
/// space or not.
pub proof fn law_blocks_of_code(lines: Seq<Seq<char>>, line: Seq<char>, i: int)
    requires
        0 <= i < lines.len(),
    ensures
        fences(Seq::empty()) == 0,
        text::begins(text::spec_trim_start(line), "```"@) ==> fences(lines.push(line)) == fences(
            lines,
        ) + 1,
        !text::begins(text::spec_trim_start(line), "```"@) ==> fences(lines.push(line)) == fences(
            lines,
        ),
        of_code(lines, i) <==> text::begins(text::spec_trim_start(lines[i]), "```"@) || fences(
            lines.take(i),
        ) % 2 == 1,
{
    assert(lines.push(line).drop_last() =~= lines);
}

/// As long as it fits the budget, a line of a skeleton is shown behind those before it: a blank one
/// as a line feed, any other with a line feed, a header with an empty line before it unless it is
/// the first. A line that does not fit ends the skeleton with a note, unless it is blank.
pub proof fn law_skeleton_lines_are_shown(
    lines: Seq<Seq<char>>,
    places: Seq<int>,
    k: int,
    budget: nat,
)
    requires
        !shown_lines(lines, places, budget).stopped,
    ensures
        ({
            let t = shown_lines(lines, places, budget).text;
            let next = shown_lines(lines, places.push(k), budget);
            let line = lines[k];
            let is_header = line.len() > 0 && line[0] == '#';
            let is_blank = !is_header && text::spec_trim(line).len() == 0;
            &&& shown_lines(lines, Seq::empty(), budget).text.len() == 0
            &&& is_blank && width::bytes_of(t) < budget ==> next.text == t + "\n"@ && !next.stopped
            &&& is_blank && width::bytes_of(t) >= budget ==> next.text == t && !next.stopped
            &&& !is_blank && width::bytes_of(t) + width::bytes_of(line) + 2 <= budget
                ==> !next.stopped && next.text == (if is_header && t.len() > 0 {
                t + ("\n"@ + line + "\n"@)
            } else {
                t + (line + "\n"@)
            })
            &&& !is_blank && width::bytes_of(t) + width::bytes_of(line) + 2 > budget
                ==> next.stopped && text::begins(next.text, t)
        }),
{
    assert(places.push(k).drop_last() =~= places);
    let t = shown_lines(lines, places, budget).text;
    let next = shown_lines(lines, places.push(k), budget);
    if next.stopped {
        assert(next.text.subrange(0, t.len() as int) =~= t);
    }
}

proof fn lemma_marker_told(list: Seq<(Seq<char>, Seq<char>)>, present: Seq<Seq<char>>, i: int)
    requires
        0 <= i < list.len(),
        present.contains(list[i].0),
    ensures
        stack_of(list, present).contains(list[i].1),
    decreases list.len(),
{
    let rest = list.drop_last();
    let before = stack_of(rest, present);
    let all = stack_of(list, present);
    if i == list.len() - 1 {
        assert(all[before.len() as int] == list[i].1);
    } else {
        assert(rest[i] == list[i]);
        lemma_marker_told(rest, present, i);
        let k = choose|k: int| 0 <= k < before.len() && before[k] == list[i].1;
        assert(all[k] == list[i].1);
    }
}

/// Each technology is told by the files that it leaves in the root of a project.
pub proof fn law_technologies_are_told(present: Seq<Seq<char>>)
    ensures
        ({
            let stack = stack_of(markers(), present);
            &&& present.contains("package.json"@) ==> stack.contains("Node.js"@)
            &&& present.contains("Cargo.toml"@) ==> stack.contains("Rust"@)
            &&& present.contains("go.mod"@) ==> stack.contains("Go"@)
            &&& present.contains("requirements.txt"@) || present.contains("pyproject.toml"@)
                ==> stack.contains("Python"@)
            &&& present.contains("Gemfile"@) ==> stack.contains("Ruby"@)
            &&& present.contains("pom.xml"@) ==> stack.contains("Java (Maven)"@)
            &&& present.contains("build.gradle"@) ==> stack.contains("Java (Gradle)"@)
            &&& present.contains("tsconfig.json"@) ==> stack.contains("TypeScript"@)
            &&& present.contains("next.config.js"@) || present.contains("next.config.mjs"@)
                ==> stack.contains("Next.js"@)
            &&& present.contains("vite.config.ts"@) || present.contains("vite.config.js"@)
                ==> stack.contains("Vite"@)
            &&& present.contains("tailwind.config.ts"@) || present.contains("tailwind.config.js"@)
                ==> stack.contains("Tailwind CSS"@)
            &&& present.contains("docker-compose.yml"@) || present.contains("Dockerfile"@)
                ==> stack.contains("Docker"@)
            &&& present.contains(".env"@) ==> stack.contains("Environment variables"@)
            &&& present.contains("ecosystem.config.js"@) ==> stack.contains("PM2"@)
        }),
        stack_of(markers(), Seq::empty()).len() == 0,
{
    let list = markers();
    assert forall|i: int| 0 <= i < list.len() && present.contains(#[trigger] list[i].0) implies stack_of(
        list,
        present,
    ).contains(list[i].1) by {
        lemma_marker_told(list, present, i);
    }
    assert(list[0].0 == "package.json"@ && list[1].0 == "Cargo.toml"@ && list[2].0 == "go.mod"@);
    assert(list[3].0 == "requirements.txt"@ && list[4].0 == "pyproject.toml"@);
    assert(list[5].0 == "Gemfile"@ && list[6].0 == "pom.xml"@ && list[7].0 == "build.gradle"@);
    assert(list[8].0 == "tsconfig.json"@ && list[9].0 == "next.config.js"@);
    assert(list[10].0 == "next.config.mjs"@ && list[11].0 == "vite.config.ts"@);
    assert(list[12].0 == "vite.config.js"@ && list[13].0 == "tailwind.config.ts"@);
    assert(list[14].0 == "tailwind.config.js"@ && list[15].0 == "docker-compose.yml"@);
    assert(list[16].0 == "Dockerfile"@ && list[17].0 == ".env"@);
    assert(list[18].0 == "ecosystem.config.js"@);
    lemma_nothing_told(list);
}

proof fn lemma_nothing_told(list: Seq<(Seq<char>, Seq<char>)>)
    ensures
        stack_of(list, Seq::empty()).len() == 0,
    decreases list.len(),
{
    if list.len() > 0 {
        lemma_nothing_told(list.drop_last());
    }
}

/// Every directory of a project is shown, with a slash behind it, but for those that are not walked
/// through.
pub proof fn law_directories_are_shown(dirs: Seq<Seq<char>>, dir: Seq<char>)
    ensures
        shown_dirs(Seq::empty()) == Seq::<Seq<char>>::empty(),
        config::skip_dir(dir) ==> shown_dirs(dirs.push(dir)) == shown_dirs(dirs),
        !config::skip_dir(dir) ==> shown_dirs(dirs.push(dir)) == shown_dirs(dirs).push(dir + "/"@),
{
    assert(dirs.push(dir).drop_last() =~= dirs);
}

/// In a project with no more than eight extensions every one is counted: each with the number of
/// files that have it.
pub proof fn law_extensions_are_counted(
    files: Seq<FileModel>,
    r: Seq<(Seq<char>, nat)>,
    i: int,
)
    requires
        most_frequent(files, r),
        0 <= i < files.len(),
        collections::distinct(extensions(files)).len() <= 8,
    ensures
        r.contains(
            (files[i].extension, collections::occurrences(extensions(files), files[i].extension)),
        ),
{
    let e = files[i].extension;
    let exts = extensions(files);
    let counts = extension_counts(files);
    collections::law_distinct(exts);
    assert(exts[i] == e);
    assert(exts.contains(e));
    let names = collections::distinct(exts);
    assert(names.contains(e));
    let k = choose|k: int| 0 <= k < names.len() && names[k] == e;
    let order = choose|order: Seq<usize>| #[trigger]
        sort::sorts(count_keys(counts), order) && r == text::first_n(
            order,
            MAX_EXTENSIONS as int,
        ).map_values(|k: usize| counts[k as int]);
    assert(text::first_n(order, MAX_EXTENSIONS as int) =~= order);
    assert(sort::listed(order, k));
    let j = choose|j: int| 0 <= j < order.len() && #[trigger] order[j] == k;
    assert(r[j] == counts[k]);
}

/// Of the extensions of a project no more than eight are shown, and none before one that more files
/// have.
pub proof fn law_most_frequent_extensions_come_first(
    files: Seq<FileModel>,
    r: Seq<(Seq<char>, nat)>,
    i: int,
    j: int,
)
    requires
        files.len() <= usize::MAX,
        most_frequent(files, r),
        0 <= i < j < r.len(),
    ensures
        r.len() <= 8,
        r[i].1 >= r[j].1,
{
    let counts = extension_counts(files);
    let keys = count_keys(counts);
    let order = choose|order: Seq<usize>| #[trigger]
        sort::sorts(keys, order) && r == text::first_n(order, MAX_EXTENSIONS as int).map_values(
            |k: usize| counts[k as int],
        );
    let a = order[i] as int;
    let b = order[j] as int;
    assert(sort::precedes(keys, a, b));
    assert(r[i] == counts[a] && r[j] == counts[b]);
    lemma_no_more_occurrences(extensions(files), counts[a].0);
    lemma_no_more_occurrences(extensions(files), counts[b].0);
    assert(keys[a] == (usize::MAX - counts[a].1) as usize);
    assert(keys[b] == (usize::MAX - counts[b].1) as usize);
}

proof fn lemma_no_more_occurrences(items: Seq<Seq<char>>, name: Seq<char>)
    ensures
        collections::occurrences(items, name) <= items.len(),
    decreases items.len(),
{
    if items.len() > 0 {
        lemma_no_more_occurrences(items.drop_last(), name);
    }
}

/// The overview names the project and shows its files, its directories and its technologies.
pub proof fn law_overview_shows_all_parts(
    project: Seq<char>,
    doc: Option<(String, String)>,
    counts: Seq<(Seq<char>, nat)>,
    dirs: Seq<Seq<char>>,
    stack: Seq<Seq<char>>,
)
    ensures
        ({
            let t = overview(project, doc, counts, dirs, stack);
            let files = "Files: "@ + text::spec_join(shown_stats(counts), " "@) + "\nDirs: "@
                + text::spec_join(shown_dirs(dirs), ", "@) + "\n"@;
            &&& text::begins(t, "# Project: "@ + list_files::dir_name(project) + "\n\n"@)
            &&& text::has(t, files)
            &&& stack.len() > 0 ==> text::ends(
                t,
                "Stack: "@ + text::spec_join(stack, ", "@) + "\n"@,
            )
            &&& doc matches Some(d) ==> text::has(
                t,
                "## From "@ + d.0@ + "\n\n"@ + skeleton(text::spec_lines(d.1@), 2000).text,
            )
        }),
{
    let t = overview(project, doc, counts, dirs, stack);
    let head = "# Project: "@ + list_files::dir_name(project) + "\n\n"@;
    let files = "Files: "@ + text::spec_join(shown_stats(counts), " "@) + "\nDirs: "@
        + text::spec_join(shown_dirs(dirs), ", "@) + "\n"@;
    let last = if stack.len() > 0 {
        "Stack: "@ + text::spec_join(stack, ", "@) + "\n"@
    } else {
        Seq::empty()
    };
    assert(t =~= head + doc_part(doc) + files + last);
    assert(t.subrange(0, head.len() as int) =~= head);
    assert(t.subrange(t.len() - last.len(), t.len() as int) =~= last);
    text::law_has_is_a_part(t, files);
    match doc {
        Some(d) => {
            let p = "## From "@ + d.0@ + "\n\n"@ + skeleton(text::spec_lines(d.1@), 2000).text;
            assert(doc_part(doc) =~= p + "\n\n"@);
            assert(t =~= head + p + ("\n\n"@ + files + last));
            text::law_has_is_a_part(t, p);
        },
        None => {},
    }
}

} // verus!
