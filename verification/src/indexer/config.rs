//! Which directories are skipped, which files are source files, and which have a grammar.
//!
//! All lists of names and extensions live here so that there is a single source of truth.

use crate::text;
use vstd::prelude::*;

verus! {

/// Directories to skip during file walking, indexing, and architecture scanning.
pub open spec fn skip_dir(name: Seq<char>) -> bool {
    name == "node_modules"@
        || name == ".git"@
        || name == ".next"@
        || name == "dist"@
        || name == "build"@
        || name == "target"@
        || name == "coverage"@
        || name == "__pycache__"@
        || name == ".venv"@
        || name == "venv"@
        || name == ".DS_Store"@
}

/// Source file extensions recognized by the project.
pub open spec fn source_extension(ext: Seq<char>) -> bool {
    ext == "js"@
        || ext == "jsx"@
        || ext == "ts"@
        || ext == "tsx"@
        || ext == "mjs"@
        || ext == "cjs"@
        || ext == "py"@
        || ext == "pyi"@
        || ext == "rs"@
        || ext == "go"@
        || ext == "java"@
        || ext == "kt"@
        || ext == "scala"@
        || ext == "rb"@
        || ext == "php"@
        || ext == "c"@
        || ext == "cpp"@
        || ext == "cc"@
        || ext == "h"@
        || ext == "hpp"@
        || ext == "cs"@
        || ext == "swift"@
        || ext == "json"@
        || ext == "yaml"@
        || ext == "yml"@
        || ext == "toml"@
        || ext == "md"@
        || ext == "txt"@
        || ext == "css"@
        || ext == "scss"@
        || ext == "less"@
        || ext == "html"@
        || ext == "vue"@
        || ext == "svelte"@
        || ext == "sql"@
        || ext == "sh"@
        || ext == "bash"@
        || ext == "zsh"@
        || ext == "dockerfile"@
}

/// Extensions with a grammar for symbol extraction.
pub open spec fn ast_extension(ext: Seq<char>) -> bool {
    ext == "js"@
        || ext == "jsx"@
        || ext == "ts"@
        || ext == "tsx"@
        || ext == "mjs"@
        || ext == "cjs"@
        || ext == "py"@
        || ext == "pyi"@
        || ext == "rs"@
        || ext == "go"@
        || ext == "c"@
        || ext == "h"@
        || ext == "cpp"@
        || ext == "cc"@
        || ext == "cxx"@
        || ext == "hpp"@
        || ext == "hxx"@
}

/// Check if a directory name should be skipped during traversal.
pub fn is_skip_dir(name: &str) -> (r: bool)
    ensures
        r == skip_dir(name@),
{
    text::same(name, "node_modules")
        || text::same(name, ".git")
        || text::same(name, ".next")
        || text::same(name, "dist")
        || text::same(name, "build")
        || text::same(name, "target")
        || text::same(name, "coverage")
        || text::same(name, "__pycache__")
        || text::same(name, ".venv")
        || text::same(name, "venv")
        || text::same(name, ".DS_Store")
}

/// Check if a file extension is a recognized source file.
pub fn is_source_file(ext: &str) -> (r: bool)
    ensures
        r == source_extension(ext@),
{
    text::same(ext, "js")
        || text::same(ext, "jsx")
        || text::same(ext, "ts")
        || text::same(ext, "tsx")
        || text::same(ext, "mjs")
        || text::same(ext, "cjs")
        || text::same(ext, "py")
        || text::same(ext, "pyi")
        || text::same(ext, "rs")
        || text::same(ext, "go")
        || text::same(ext, "java")
        || text::same(ext, "kt")
        || text::same(ext, "scala")
        || text::same(ext, "rb")
        || text::same(ext, "php")
        || text::same(ext, "c")
        || text::same(ext, "cpp")
        || text::same(ext, "cc")
        || text::same(ext, "h")
        || text::same(ext, "hpp")
        || text::same(ext, "cs")
        || text::same(ext, "swift")
        || text::same(ext, "json")
        || text::same(ext, "yaml")
        || text::same(ext, "yml")
        || text::same(ext, "toml")
        || text::same(ext, "md")
        || text::same(ext, "txt")
        || text::same(ext, "css")
        || text::same(ext, "scss")
        || text::same(ext, "less")
        || text::same(ext, "html")
        || text::same(ext, "vue")
        || text::same(ext, "svelte")
        || text::same(ext, "sql")
        || text::same(ext, "sh")
        || text::same(ext, "bash")
        || text::same(ext, "zsh")
        || text::same(ext, "dockerfile")
}

/// Check if a file extension has a grammar for symbol extraction.
pub fn has_ast_support(ext: &str) -> (r: bool)
    ensures
        r == ast_extension(ext@),
{
    text::same(ext, "js")
        || text::same(ext, "jsx")
        || text::same(ext, "ts")
        || text::same(ext, "tsx")
        || text::same(ext, "mjs")
        || text::same(ext, "cjs")
        || text::same(ext, "py")
        || text::same(ext, "pyi")
        || text::same(ext, "rs")
        || text::same(ext, "go")
        || text::same(ext, "c")
        || text::same(ext, "h")
        || text::same(ext, "cpp")
        || text::same(ext, "cc")
        || text::same(ext, "cxx")
        || text::same(ext, "hpp")
        || text::same(ext, "hxx")
}

/// The extensions of the files that are indexed, and no others.
pub proof fn law_source_extensions(ext: Seq<char>)
    ensures
        source_extension(ext) <==> ext == "js"@ || ext == "jsx"@ || ext == "ts"@ || ext == "tsx"@
            || ext == "mjs"@ || ext == "cjs"@ || ext == "py"@ || ext == "pyi"@ || ext == "rs"@
            || ext == "go"@ || ext == "java"@ || ext == "kt"@ || ext == "scala"@ || ext == "rb"@
            || ext == "php"@ || ext == "c"@ || ext == "cpp"@ || ext == "cc"@ || ext == "h"@
            || ext == "hpp"@ || ext == "cs"@ || ext == "swift"@ || ext == "json"@
            || ext == "yaml"@ || ext == "yml"@ || ext == "toml"@ || ext == "md"@ || ext == "txt"@
            || ext == "css"@ || ext == "scss"@ || ext == "less"@ || ext == "html"@
            || ext == "vue"@ || ext == "svelte"@ || ext == "sql"@ || ext == "sh"@
            || ext == "bash"@ || ext == "zsh"@ || ext == "dockerfile"@,
{
}

/// The extensions of the files that symbols are extracted from, and no others. All of them are
/// indexed but for two of the extensions of C++.
pub proof fn law_extensions_with_symbols(ext: Seq<char>)
    ensures
        ast_extension(ext) <==> ext == "js"@ || ext == "jsx"@ || ext == "ts"@ || ext == "tsx"@
            || ext == "mjs"@ || ext == "cjs"@ || ext == "py"@ || ext == "pyi"@ || ext == "rs"@
            || ext == "go"@ || ext == "c"@ || ext == "h"@ || ext == "cpp"@ || ext == "cc"@
            || ext == "cxx"@ || ext == "hpp"@ || ext == "hxx"@,
        ast_extension(ext) && ext != "cxx"@ && ext != "hxx"@ ==> source_extension(ext),
{
}

/// The directories that are not walked through, and no others.
pub proof fn law_skipped_directories(name: Seq<char>)
    ensures
        skip_dir(name) <==> name == "node_modules"@ || name == ".git"@ || name == ".next"@
            || name == "dist"@ || name == "build"@ || name == "target"@ || name == "coverage"@
            || name == "__pycache__"@ || name == ".venv"@ || name == "venv"@
            || name == ".DS_Store"@,
{
}

} // verus!
