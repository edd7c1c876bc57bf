//! The server's tools: their parameters with the defaults, which paths they may read, and what
//! is recorded of their answers.

use crate::indexer::pipeline::IndexStats;
use crate::memory::searcher;
use crate::memory::searcher::MemoryRow;
use crate::path;
use crate::text;
use crate::tools::search_codebase::types;
use vstd::prelude::*;

verus! {

// ── Parameters ───────────────────────────────────────────────────────

/// The parameters of `list_files`.
#[derive(Debug)]
pub struct ListFilesParams {
    /// Relative path from project root (default: root).
    pub path: Option<String>,
    /// Max directory depth (default: 2).
    pub depth: Option<u32>,
}

/// The parameters of `get_file_context`.
#[derive(Debug)]
pub struct GetFileContextParams {
    /// Relative file path from project root.
    pub path: String,
    /// Mode: 'summary', 'smart', 'symbols', 'full' (default: summary).
    pub mode: Option<String>,
    /// Max tokens (default: 1500).
    pub token_budget: Option<u32>,
    /// Query for smart mode relevance filtering.
    pub query: Option<String>,
}

/// The parameters of `get_symbol`.
#[derive(Debug)]
pub struct GetSymbolParams {
    /// Symbol name (function, class, struct, etc.).
    pub name: String,
    /// File path hint to narrow search.
    pub file: Option<String>,
    /// Max code lines per symbol (default: 30). Pass 0 for full.
    pub max_lines: Option<usize>,
}

/// The parameters of `search_codebase`.
#[derive(Debug)]
pub struct SearchCodebaseParams {
    /// Natural language query or keyword to search for.
    pub query: String,
    /// Max results (default: 5).
    pub max_results: Option<u32>,
    /// Max tokens to return (default: 2500).
    pub token_budget: Option<u32>,
    /// Detail level: 'pointers', 'signatures', 'code' (default: pointers).
    pub detail: Option<String>,
}

/// The parameters of `save_memory`.
#[derive(Debug)]
pub struct SaveMemoryParams {
    /// The content to remember.
    pub content: String,
    /// Category (default: general).
    pub category: Option<String>,
    /// Tags, comma-separated.
    pub tags: Option<String>,
}

/// The parameters of `recall_memory`.
#[derive(Debug)]
pub struct RecallMemoryParams {
    /// Recall query.
    pub query: String,
    /// Filter by category.
    pub category: Option<String>,
    /// Max results (default: 5).
    pub max_results: Option<u32>,
}

/// The parameters of `index_project`.
#[derive(Debug)]
pub struct IndexProjectParams {
    /// Force full re-index.
    pub force: Option<bool>,
}

/// A text, or a default where there is none.
pub open spec fn text_or(given: Option<String>, default: Seq<char>) -> Seq<char> {
    match given {
        Some(t) => t@,
        None => default,
    }
}

fn given_or(given: &Option<String>, default: &str) -> (r: String)
    ensures
        r@ == text_or(*given, default@),
{
    match given {
        Some(t) => t.clone(),
        None => text::owned(default),
    }
}

impl ListFilesParams {
    /// How deep the tree goes.
    pub fn max_depth(&self) -> (r: u32)
        ensures
            r == (match self.depth {
                Some(d) => d,
                None => 2,
            }),
    {
        match self.depth {
            Some(d) => d,
            None => 2,
        }
    }
}

impl GetFileContextParams {
    /// The name of the mode.
    pub fn mode_name(&self) -> (r: String)
        ensures
            r@ == text_or(self.mode, "summary"@),
    {
        given_or(&self.mode, "summary")
    }

    /// The budget of tokens, at most a hundred thousand.
    pub fn budget(&self) -> (r: u32)
        ensures
            r == (match self.token_budget {
                Some(n) => if n <= 100_000 {
                    n
                } else {
                    100_000
                },
                None => 1500,
            }),
    {
        match self.token_budget {
            Some(n) => if n <= 100_000 {
                n
            } else {
                100_000
            },
            None => 1500,
        }
    }
}

impl GetSymbolParams {
    /// How many lines of a symbol are shown.
    pub fn line_limit(&self) -> (r: usize)
        ensures
            r == (match self.max_lines {
                Some(n) => n,
                None => 30,
            }),
    {
        match self.max_lines {
            Some(n) => n,
            None => 30,
        }
    }
}

impl SearchCodebaseParams {
    /// How many results are shown.
    pub fn limit(&self) -> (r: u32)
        ensures
            r == (match self.max_results {
                Some(n) => n,
                None => 5,
            }),
    {
        match self.max_results {
            Some(n) => n,
            None => 5,
        }
    }

    /// The budget of tokens.
    pub fn budget(&self) -> (r: u32)
        ensures
            r == (match self.token_budget {
                Some(n) => n,
                None => 2500,
            }),
    {
        match self.token_budget {
            Some(n) => n,
            None => 2500,
        }
    }

    /// The name of the level of detail.
    pub fn detail_name(&self) -> (r: String)
        ensures
            r@ == text_or(self.detail, "pointers"@),
    {
        given_or(&self.detail, "pointers")
    }
}

impl SaveMemoryParams {
    /// The category that the memory is filed under.
    pub fn category_name(&self) -> (r: String)
        ensures
            r@ == text_or(self.category, "general"@),
    {
        given_or(&self.category, "general")
    }

    /// The memory's tags.
    pub fn tag_list(&self) -> (r: String)
        ensures
            r@ == text_or(self.tags, ""@),
    {
        given_or(&self.tags, "")
    }
}

impl RecallMemoryParams {
    /// How many memories are shown.
    pub fn limit(&self) -> (r: u32)
        ensures
            r == (match self.max_results {
                Some(n) => n,
                None => 5,
            }),
    {
        match self.max_results {
            Some(n) => n,
            None => 5,
        }
    }
}

// ── Paths ────────────────────────────────────────────────────────────

/// A path as it is meant within a project: where it starts with the project's own directory,
/// that is left out.
pub open spec fn spec_own_path(project: Seq<char>, p: Seq<char>) -> Seq<char> {
    match path::spec_file_name(project) {
        Some(name) => match path::spec_strip_prefix(p, name) {
            Some(rest) => rest,
            None => p,
        },
        None => p,
    }
}

/// The file that a path means: with `project-name/src/foo.js` in the project
/// `/path/to/project-name` the file `/path/to/project-name/src/foo.js` is meant.
pub fn requested_file(project_path: &str, p: &str) -> (r: String)
    ensures
        r@ == path::spec_join(project_path@, spec_own_path(project_path@, p@)),
{
    let project = text::chars_of(project_path);
    let chars = text::chars_of(p);
    let own = match path::file_name(project.as_slice()) {
        Some(name) => match path::strip_prefix(chars.as_slice(), name) {
            Some(rest) => rest,
            None => chars.as_slice(),
        },
        None => chars.as_slice(),
    };
    path::join(project.as_slice(), own)
}

/// Whether a path that was resolved may be read: it lies within the project.
pub fn check_within(project_path: &str, resolved: &str) -> (r: Result<(), String>)
    ensures
        match r {
            Ok(()) => path::spec_starts_with(resolved@, project_path@),
            Err(e) => !path::spec_starts_with(resolved@, project_path@) && e@
                == "Path escapes project directory"@,
        },
{
    let project = text::chars_of(project_path);
    let chars = text::chars_of(resolved);
    if path::starts_with(chars.as_slice(), project.as_slice()) {
        Ok(())
    } else {
        Err(text::owned("Path escapes project directory"))
    }
}

// ── Indexing ─────────────────────────────────────────────────────────

/// What a request to index a project leads to.
#[derive(Debug, Clone, Copy, PartialEq, Eq, Structural)]
pub enum IndexAction {
    /// Nothing: the project is indexed.
    Keep,
    /// Indexing it.
    Index,
    /// Removing the database and indexing the project anew.
    Rebuild,
}

impl IndexProjectParams {
    /// What the request leads to, given whether the project is indexed.
    pub fn action(&self, indexed: bool) -> (r: IndexAction)
        ensures
            r == (if self.force == Some(true) {
                IndexAction::Rebuild
            } else if indexed {
                IndexAction::Keep
            } else {
                IndexAction::Index
            }),
    {
        let force = match self.force {
            Some(f) => f,
            None => false,
        };
        if force {
            IndexAction::Rebuild
        } else if indexed {
            IndexAction::Keep
        } else {
            IndexAction::Index
        }
    }
}

/// What is answered where a project is indexed already.
pub fn already_indexed() -> (r: String)
    ensures
        r@ == "Project already indexed. Use force=true to re-index."@,
{
    text::owned("Project already indexed. Use force=true to re-index.")
}

/// What is answered after a project was indexed.
pub fn indexing_complete(stats: &IndexStats) -> (r: String)
    ensures
        r@ == "Indexing complete! "@ + stats.spec_render(),
{
    text::owned("Indexing complete! ").concat(stats.render().as_str())
}

// ── Records ──────────────────────────────────────────────────────────

/// Whether an answer says that nothing was found.
pub open spec fn says_nothing_found(output: Seq<char>) -> bool {
    let s = text::spec_trim_start(output);
    text::begins(s, "No results"@) || text::begins(s, "No relevant memories"@) || text::begins(
        s,
        "No memories"@,
    )
}

/// The number of results that is recorded of an answer: zero where it says that nothing was
/// found, and otherwise none.
pub fn result_count(output: &str) -> (r: Option<i64>)
    ensures
        r == (if says_nothing_found(output@) {
            Some(0i64)
        } else {
            None
        }),
{
    let chars = text::chars_of(output);
    let s = text::trim_start(chars.as_slice());
    if text::starts_with(s, "No results") || text::starts_with(s, "No relevant memories")
        || text::starts_with(s, "No memories") {
        Some(0)
    } else {
        None
    }
}

/// A search without a result is recorded as one with zero results, and so is a recall that
/// finds nothing or has nothing to look through, whatever was asked for. A search is so recorded
/// where embeddings were available; otherwise its answer opens with a notice.
pub proof fn law_nothing_found_is_recorded(
    query: Seq<char>,
    token_budget: int,
    rows: Seq<MemoryRow>,
    percents: Seq<Seq<char>>,
)
    ensures
        says_nothing_found(types::spec_format_results(Seq::empty(), query, token_budget, true)),
        says_nothing_found(searcher::spec_answer(query, rows, percents, Seq::empty())->0),
{
    reveal_strlit("No results");
    reveal_strlit("No results for '");
    reveal_strlit("No relevant memories");
    reveal_strlit("No relevant memories found for '");
    reveal_strlit("No memories");
    reveal_strlit("No memories stored yet.");
    let searched = types::spec_format_results(Seq::empty(), query, token_budget, true);
    assert(searched.take(10) =~= "No results"@);
    let recalled = searcher::spec_answer(query, rows, percents, Seq::empty())->0;
    if rows.len() == 0 {
        assert(recalled.take(11) =~= "No memories"@);
    } else {
        assert(recalled.take(20) =~= "No relevant memories"@);
    }
}

/// An answer counts as one that found nothing where it begins as those answers do, behind white space
/// or not.
pub proof fn law_empty_answers(white: Seq<char>, rest: Seq<char>)
    requires
        text::white(white),
    ensures
        says_nothing_found(white + ("No results"@ + rest)),
        says_nothing_found(white + ("No relevant memories"@ + rest)),
        says_nothing_found(white + ("No memories"@ + rest)),
        rest.len() > 0 && !text::char_is_whitespace(rest[0]) && rest[0] != 'N'
            ==> !says_nothing_found(white + rest),
{
    reveal_strlit("No results");
    reveal_strlit("No relevant memories");
    reveal_strlit("No memories");
    lemma_trimmed(white, "No results"@ + rest);
    lemma_trimmed(white, "No relevant memories"@ + rest);
    lemma_trimmed(white, "No memories"@ + rest);
    assert(("No results"@ + rest).subrange(0, 10) =~= "No results"@);
    assert(("No relevant memories"@ + rest).subrange(0, 20) =~= "No relevant memories"@);
    assert(("No memories"@ + rest).subrange(0, 11) =~= "No memories"@);
    if rest.len() > 0 && !text::char_is_whitespace(rest[0]) && rest[0] != 'N' {
        lemma_trimmed(white, rest);
        if text::begins(rest, "No results"@) {
            assert(rest.subrange(0, 10)[0] == 'N');
        }
        if text::begins(rest, "No relevant memories"@) {
            assert(rest.subrange(0, 20)[0] == 'N');
        }
        if text::begins(rest, "No memories"@) {
            assert(rest.subrange(0, 11)[0] == 'N');
        }
    }
}

proof fn lemma_trimmed(white: Seq<char>, s: Seq<char>)
    requires
        text::white(white),
        s.len() > 0,
        !text::char_is_whitespace(s[0]),
    ensures
        text::spec_trim_start(white + s) == s,
{
    text::lemma_trim_start_white(white, s);
}

/// A path that starts with the name of the project's own directory means what follows it; any other
/// path of names means itself.
pub proof fn law_own_paths(dirs: Seq<Seq<char>>, name: Seq<char>, rest: Seq<Seq<char>>)
    requires
        path::all_plain(dirs),
        path::plain(name),
        path::all_plain(rest),
        rest.len() > 0,
    ensures
        ({
            let project = text::spec_join(dirs.push(name), "/"@);
            &&& spec_own_path(project, text::spec_join(seq![name] + rest, "/"@)) == text::spec_join(
                rest,
                "/"@,
            )
            &&& rest[0] != name ==> spec_own_path(project, text::spec_join(rest, "/"@))
                == text::spec_join(rest, "/"@)
        }),
{
    path::law_parent_of_names(dirs, name);
    path::law_paths_below_a_name(name, rest);
}

} // verus!
