use context_brain::indexer::embedding_client::{batch_inputs, truncate_utf8, EmbedFailure};
use context_brain::indexer::file_walker::{walk_project, Discovered, FileEntry};
use context_brain::indexer::pipeline::{
    changed, hash_content, import_counts, is_indexed, not_indexed, plan_from, plan_store,
    EmbedStats, IndexRun, IndexStats, PendingFile,
};
use context_brain::indexer::symbol_extractor::{Symbol, SymbolKind};
use context_brain::indexer::watch_manager::{to_relative_source, FileEvent, PathChanges};

fn entry(path: &str) -> FileEntry {
    FileEntry {
        absolute_path: format!("/p/{}", path),
        relative_path: path.to_string(),
        extension: path.rsplit('.').next().unwrap().to_string(),
        size_bytes: 3,
    }
}

fn pending_file(path: &str, content: &str) -> PendingFile {
    changed(path, 1, Some(content.to_string()), None).unwrap()
}

fn found(path: &str, is_dir: bool) -> Discovered {
    Discovered { path: path.to_string(), is_dir, size_bytes: 7 }
}

#[test]
fn a_walk_keeps_source_files_in_order() {
    let files = walk_project(
        "/p",
        &[
            found("/p/src/b.rs", false),
            found("/p/src", true),
            found("/p/logo.png", false),
            found("/p/src/a.rs", false),
            found("/p/Zeta.py", false),
        ],
    );
    let paths: Vec<&str> = files.iter().map(|f| f.relative_path.as_str()).collect();
    assert_eq!(paths, vec!["Zeta.py", "src/a.rs", "src/b.rs"]);
    assert_eq!(files[1].absolute_path, "/p/src/a.rs");
    assert_eq!(files[1].extension, "rs");
    assert_eq!(files[1].size_bytes, 7);
}

#[test]
fn hashes_are_fnv() {
    assert_eq!(hash_content(""), "cbf29ce484222325");
    assert_eq!(hash_content("a"), "af63dc4c8601ec8c");
    assert_eq!(hash_content("foobar"), "85944171f73967e8");
}

#[test]
fn unchanged_files_are_skipped() {
    let mut run = IndexRun::new(4);
    run.offer(&entry("a.rs"), Some("fn a() {}".to_string()), None);
    let hash = hash_content("fn b() {}");
    run.offer(&entry("b.rs"), Some("fn b() {}".to_string()), Some(&hash));
    run.offer(&entry("c.rs"), Some("fn c2() {}".to_string()), Some(&hash));
    run.offer(&entry("d.rs"), None, None);
    let paths: Vec<&str> = run.to_index.iter().map(|f| f.relative_path.as_str()).collect();
    assert_eq!(paths, vec!["a.rs", "c.rs"]);
    let stats = run.finish(EmbedStats { embeddings_generated: 5, symbols_extracted: 2 });
    assert_eq!(
        stats,
        IndexStats {
            files_total: 4,
            files_indexed: 2,
            files_skipped: 2,
            symbols_extracted: 2,
            embeddings_generated: 5,
        }
    );
    assert_eq!(stats.render(), "Indexed 2/4 files (2 skipped), 2 symbols, 5 embeddings");
    assert_eq!(run.to_index[0].content_hash, hash_content("fn a() {}"));
}

#[test]
fn only_source_files_are_indexed_again() {
    assert!(changed("notes.bin", 1, Some("x".to_string()), None).is_none());
    assert!(changed("src/a.rs", 1, None, None).is_none());
    let f = changed("src/a.rs", 9, Some("x".to_string()), Some("old")).unwrap();
    assert_eq!(f.extension, "rs");
    assert_eq!(f.size_bytes, 9);
}

#[test]
fn an_index_with_files_counts() {
    assert!(!is_indexed(None));
    assert!(!is_indexed(Some(0)));
    assert!(is_indexed(Some(1)));
}

fn symbol(name: &str, start_line: usize, end_line: usize) -> Symbol {
    Symbol {
        name: name.to_string(),
        kind: SymbolKind::Function,
        start_line,
        end_line,
        signature: format!("fn {}()", name),
        code: String::new(),
    }
}

#[test]
fn each_symbol_gets_its_own_embedding() {
    let files = [pending_file("a.rs", "one\ntwo\n"), pending_file("b.rs", "three")];
    let lists = [
        vec![symbol("short", 1, 4), symbol("long", 5, 9)],
        vec![symbol("longer", 1, 20), symbol("backwards", 9, 3), symbol("last", 30, 34)],
    ];
    let plan = plan_from(&files, &lists);
    assert_eq!(plan.summaries, vec!["a.rs one\ntwo\n", "b.rs three"]);
    assert_eq!(plan.embed_texts, vec!["long fn long()", "longer fn longer()", "last fn last()"]);
    let indices: Vec<Vec<Option<usize>>> =
        plan.files.iter().map(|f| f.symbols.iter().map(|s| s.embed_index).collect()).collect();
    assert_eq!(indices, vec![vec![None, Some(0)], vec![Some(1), None, Some(2)]]);
    assert_eq!(plan.files[0].line_count, 2);
    assert_eq!(plan.files[0].symbols[0].kind, "function");
    let stats = plan.stats(2, 3);
    assert_eq!(stats, EmbedStats { embeddings_generated: 5, symbols_extracted: 5 });
}

#[test]
fn a_plan_reads_the_symbols() {
    let body = "fn run() {\n    let a = 1;\n    let b = 2;\n    let c = 3;\n    a + b + c;\n}\n";
    let plan = plan_store(&[pending_file("a.rs", body), pending_file("b.md", "# Title")]);
    assert_eq!(plan.files[0].symbols.len(), 1);
    assert_eq!(plan.files[0].symbols[0].name, "run");
    assert_eq!(plan.files[0].symbols[0].embed_index, Some(0));
    assert!(plan.files[1].symbols.is_empty());
}

#[test]
fn summaries_have_five_hundred_characters() {
    let plan = plan_store(&[pending_file("b.md", &"ü".repeat(600))]);
    assert_eq!(plan.summaries[0], format!("b.md {}", "ü".repeat(500)));
}

#[test]
fn imports_of_all_files_count() {
    let files = [entry("src/a.ts"), entry("src/b.ts"), entry("src/c.ts")];
    let to_index = [pending_file("src/a.ts", "import x from './c';")];
    let others = not_indexed(&files, &to_index);
    assert_eq!(others, vec![1, 2]);
    let rest = vec![("src/b.ts".to_string(), "ts".to_string(), "import y from './c';".to_string())];
    let counts = import_counts(&files, &to_index, rest);
    assert_eq!(counts.get("src/c.ts"), Some(2));
    assert_eq!(counts.len(), 1);
}

#[test]
fn inputs_are_truncated_at_characters() {
    assert_eq!(truncate_utf8("grün", 3), "gr");
    assert_eq!(truncate_utf8("grün", 4), "grü");
    assert_eq!(truncate_utf8("grün", 99), "grün");
    let inputs = batch_inputs(&["a".repeat(9000), "b".to_string()]);
    assert_eq!(inputs[0].len(), 8192);
    assert_eq!(inputs[1], "b");
    assert_eq!(EmbedFailure::TimedOut.message(), "Embedding timed out after 60s");
    assert_eq!(EmbedFailure::Panicked.message(), "Embedding thread panicked");
    assert_eq!(EmbedFailure::NothingReturned.message(), "No embedding returned");
}

#[test]
fn the_last_event_of_a_path_decides() {
    let mut changes = PathChanges::new();
    let paths = |list: &[&str]| -> Vec<String> { list.iter().map(|p| p.to_string()).collect() };
    changes.classify_event(FileEvent::Touched, &paths(&["/p/a.rs", "/p/b.rs"]));
    changes.classify_event(FileEvent::Removed, &paths(&["/p/a.rs", "/p/c.rs"]));
    changes.classify_event(FileEvent::Touched, &paths(&["/p//c.rs"]));
    changes.classify_event(FileEvent::Other, &paths(&["/p/d.rs"]));
    assert_eq!(changes.to_reindex("/p"), vec!["b.rs", "c.rs"]);
    assert_eq!(changes.to_delete("/p"), vec!["a.rs"]);
}

#[test]
fn only_visible_source_files_of_the_project() {
    assert_eq!(to_relative_source("/p/src/a.rs", "/p"), Some("src/a.rs".to_string()));
    assert_eq!(to_relative_source("/q/src/a.rs", "/p"), None);
    assert_eq!(to_relative_source("/p/.git/a.rs", "/p"), None);
    assert_eq!(to_relative_source("/p/node_modules/a.js", "/p"), None);
    assert_eq!(to_relative_source("/p/a.png", "/p"), None);
    assert_eq!(to_relative_source("/p/.context-brain.db", "/p"), None);
}

#[test]
fn a_second_run_indexes_nothing() {
    let files = [("a.rs", Some("fn a() {}")), ("b.py", Some("x = 1")), ("c.rs", None)];
    let mut first = IndexRun::new(3);
    for (path, content) in files {
        first.offer(&entry(path), content.map(|c| c.to_string()), None);
    }
    assert!(first.up_to_date().is_none());
    assert_eq!(first.to_index.len() + first.files_skipped, 3);
    let mut second = IndexRun::new(3);
    for (path, content) in files {
        let hash =
            first.to_index.iter().find(|f| f.relative_path == path).map(|f| f.content_hash.as_str());
        second.offer(&entry(path), content.map(|c| c.to_string()), hash);
    }
    assert_eq!(
        second.up_to_date(),
        Some(IndexStats {
            files_total: 3,
            files_indexed: 0,
            files_skipped: 3,
            symbols_extracted: 0,
            embeddings_generated: 0,
        })
    );
}
