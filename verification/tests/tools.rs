use context_brain::collections::NameSet;
use context_brain::indexer::file_walker::FileEntry;
use context_brain::indexer::pipeline::IndexStats;
use context_brain::server::{
    already_indexed, check_within, indexing_complete, requested_file, result_count,
    GetFileContextParams, GetSymbolParams, IndexAction, IndexProjectParams, ListFilesParams,
    RecallMemoryParams, SaveMemoryParams, SearchCodebaseParams,
};
use context_brain::telemetry::{fnv1a_16, record_tool_call, StatsSummary, ToolStats};
use context_brain::tools::get_architecture::{
    build_overview, collect_file_stats, detect_stack, doc_names, extract_doc_skeleton,
    stack_markers,
};
use context_brain::tools::get_file_context::{
    check_file, is_symbol_line, list_symbols, read_file_context, read_full, read_symbols,
    ContextError,
};
use context_brain::tools::list_files::{build_file_tree, format_size};
use context_brain::tools::stats::{render, since_ts};

fn file(path: &str, size_bytes: u64) -> FileEntry {
    FileEntry {
        absolute_path: format!("/work/shop/{}", path),
        relative_path: path.to_string(),
        extension: path.rsplit('.').next().unwrap().to_string(),
        size_bytes,
    }
}

#[test]
fn sizes_as_they_are_shown() {
    assert_eq!(format_size(0), "0B");
    assert_eq!(format_size(1023), "1023B");
    assert_eq!(format_size(1024), "1.0KB");
    assert_eq!(format_size(1536), "1.5KB");
    assert_eq!(format_size(1_048_575), "1024.0KB");
    assert_eq!(format_size(1_048_576), "1.0MB");
    assert_eq!(format_size(5_400_000), "5.1MB");
    for n in [1500u64, 7_777, 123_456, 1_310_720, 99_999_999, u64::MAX] {
        let expected = if n < 1024 * 1024 {
            format!("{:.1}KB", n as f64 / 1024.0)
        } else {
            format!("{:.1}MB", n as f64 / (1024.0 * 1024.0))
        };
        assert_eq!(format_size(n), expected);
    }
}

#[test]
fn a_tree_of_files() {
    let files = [
        file("Cargo.toml", 100),
        file("src/deep/x.rs", 1),
        file("src/lib.rs", 2048),
        file("src/main.rs", 10),
    ];
    assert_eq!(
        build_file_tree("/work/shop", &files, 2),
        "shop/\n\n  ├── Cargo.toml (100B)\n  src/\n    ├── lib.rs (2.0KB)\n    ├── main.rs (10B)\n\n4 files total\n"
    );
    assert_eq!(build_file_tree("/", &files[..1], 0), "/\n\n\n1 files total\n");
}

#[test]
fn a_skeleton_has_headers_and_six_lines() {
    let doc = "# Shop\nIntro\n\n```\ncode\n```\n## Usage\n1\n2\n3\n4\n5\n6\n7\n## End\n";
    assert_eq!(
        extract_doc_skeleton(doc, 2000),
        "# Shop\nIntro\n\n\n## Usage\n1\n2\n3\n4\n5\n6\n\n## End\n"
    );
    assert_eq!(
        extract_doc_skeleton("# Shop\nIntroduction\n", 12),
        "# Shop\n\n... [truncated — use get_file_context for full content]\n"
    );
    assert_eq!(
        extract_doc_skeleton("# Shop\n## Introduction\n", 12),
        "# Shop\n\n... [remaining sections omitted — use get_file_context for full content]\n"
    );
    assert_eq!(extract_doc_skeleton("#\na\n\n\n", 5), "#\na\n\n");
}

#[test]
fn an_overview_of_a_project() {
    let files = [file("a.rs", 1), file("b.md", 1), file("c.rs", 1)];
    assert_eq!(
        collect_file_stats(&files),
        vec![("rs".to_string(), 2usize), ("md".to_string(), 1usize)]
    );
    let present = NameSet::from_list(&["Dockerfile".to_string(), "Cargo.toml".to_string()]);
    assert_eq!(detect_stack(&present), vec!["Rust", "Docker"]);
    assert_eq!(stack_markers().len(), 19);
    let doc = Some(("README.md".to_string(), "# Shop\n".to_string()));
    let dirs = ["src".to_string(), "node_modules".to_string(), "docs".to_string()];
    assert_eq!(
        build_overview("/work/shop", &doc, &files, &dirs, &present),
        "# Project: shop\n\n## From README.md\n\n# Shop\n\n\nFiles: .rs(2) .md(1)\nDirs: src/, docs/\nStack: Rust, Docker\n"
    );
    assert_eq!(
        build_overview("/work/shop", &None, &[], &[], &NameSet::new()),
        "# Project: shop\n\nFiles: \nDirs: \n"
    );
    assert_eq!(doc_names(), vec!["ARCHITECTURE.md", "README.md", "readme.md"]);
}

#[test]
fn at_most_eight_kinds_of_files() {
    let files: Vec<FileEntry> =
        (0..10).map(|i| file(&format!("a.e{}", i), 1)).chain([file("z.e9", 1)]).collect();
    let stats = collect_file_stats(&files);
    assert_eq!(stats.len(), 8);
    assert_eq!(stats[0], ("e9".to_string(), 2));
}

#[test]
fn a_file_in_full() {
    assert_eq!(read_full("a\nb\n", "/x/f.rs", 100), "# /x/f.rs (2 lines)\n\na\nb\n");
    let text = "word ".repeat(100);
    let shown = read_full(&text, "f", 10);
    assert_eq!(
        shown,
        format!(
            "# f (1 lines)\n\n{}\n\n... [TRUNCATED — showing ~10 of ~100 tokens. Use 'smart' mode or get_symbol for specific functions]\n",
            &text[..35]
        )
    );
}

#[test]
fn symbols_of_a_file() {
    let source = "fn one() {}\n\nstruct Two;\n";
    assert_eq!(
        read_symbols(source, "/x/f.rs").unwrap(),
        "# Symbols in /x/f.rs (3 lines)\n\nL1-1 [fn] one: fn one() {}\nL3-3 [struct] Two: struct Two;\n"
    );
    assert_eq!(
        list_symbols("type A\nx\nfunc b()\n", "/x/f.go", &[]).unwrap(),
        "# Symbols in /x/f.go (3 lines)\n\nL1: type A\nL3: func b()\n"
    );
    let chars: Vec<char> = "async def f():".chars().collect();
    assert!(is_symbol_line(&chars, "py"));
    assert!(!is_symbol_line(&chars, "js"));
    assert!(!is_symbol_line(&chars, "txt"));
}

#[test]
fn modes_of_reading() {
    let source = "use std::fmt;\n\nfn one() {}\n";
    let read = |mode: &str| read_file_context(source, "/x/f.rs", mode, 1000, None).unwrap().unwrap();
    assert_eq!(read("full"), read_full(source, "/x/f.rs", 1000));
    assert_eq!(read("symbols"), read_symbols(source, "/x/f.rs").unwrap());
    assert!(read("summary").starts_with("# /x/f.rs\n\n"));
    assert!(read("summary").contains("one L3-3"));
    assert_eq!(read("summary"), read("smart"));
    let scored = read_file_context(source, "/x/f.rs", "smart", 1000, Some(&[1.0f32.to_bits()]))
        .unwrap()
        .unwrap();
    assert!(scored.contains("fn one() {}"), "{}", scored);
    match read_file_context(source, "/x/f.rs", "all", 1000, None) {
        Err(e) => assert_eq!(
            e.message(),
            "Unknown mode: 'all'. Use 'full', 'summary', 'smart', or 'symbols'."
        ),
        Ok(_) => panic!("expected an unknown mode"),
    }
}

#[test]
fn which_files_are_read() {
    assert!(check_file("f", Some(10 * 1024 * 1024)).is_ok());
    let large = check_file("f", Some(10 * 1024 * 1024 + 1)).unwrap_err();
    assert_eq!(
        large.message(),
        "File too large (10.0MB). Use get_symbol to extract specific functions."
    );
    let missing = check_file("/x/f", None).unwrap_err();
    assert_eq!(missing.message(), "File not found: /x/f");
    assert!(matches!(missing, ContextError::NotFound { .. }));
}

fn summary(by_tool: Vec<ToolStats>, hashes: Vec<(String, i64)>, total_calls: i64) -> StatsSummary {
    StatsSummary {
        project_path: "/work/shop".to_string(),
        total_calls,
        by_tool,
        top_empty_query_hashes: hashes,
    }
}

#[test]
fn empty_project_renders_an_empty_report() {
    let rendered = render(&summary(Vec::new(), Vec::new(), 0), &[], Some(7)).unwrap();
    assert!(
        rendered.contains("No tool calls recorded yet"),
        "expected empty-state message, got:\n{}",
        rendered
    );
    assert!(rendered.starts_with("Last 7 day(s) — /work/shop\n─────────────────────────────────\nTotal tool calls: 0\n\n"));
}

#[test]
fn recorded_calls_are_rendered() {
    let calls = [
        record_tool_call("search_codebase", Some("auth flow"), Some(3), 84),
        record_tool_call("search_codebase", Some("auth flow"), Some(0), 71),
        record_tool_call("get_file_context", None, None, 22),
    ];
    assert_eq!(calls[0].query_hash, calls[1].query_hash);
    assert_eq!(calls[0].query_hash, Some(fnv1a_16("auth flow")));
    assert_eq!(calls[0].query_length, Some(9));
    assert_eq!(calls[2].query_hash, None);
    assert_eq!(calls[2].query_length, None);
    assert_eq!(calls[1].result_count, Some(0));
    assert_eq!(calls[2].latency_ms, 22);
    let hash = calls[1].query_hash.clone().unwrap();
    let report = render(
        &summary(
            vec![
                ToolStats {
                    tool_name: "search_codebase".to_string(),
                    call_count: 2,
                    avg_latency_ms: 77.5f64.to_bits(),
                    empty_result_count: 1,
                },
                ToolStats {
                    tool_name: "a_tool_with_a_very_long_name".to_string(),
                    call_count: 1,
                    avg_latency_ms: 22.0f64.to_bits(),
                    empty_result_count: 0,
                },
            ],
            vec![(hash.clone(), 1)],
            3,
        ),
        &[("78".to_string(), "50".to_string()), ("22".to_string(), "0".to_string())],
        None,
    )
    .unwrap();
    let mut expected = String::from(
        "All time — /work/shop\n─────────────────────────────────\nTotal tool calls: 3\n\n",
    );
    expected.push_str(&format!(
        "  {:<20} {:>5}  avg {:>5.0}ms   {:>3.0}% empty results\n",
        "search_codebase", 2, 77.5f64, 50.0f64
    ));
    expected.push_str(&format!(
        "  {:<20} {:>5}  avg {:>5.0}ms   {:>3.0}% empty results\n",
        "a_tool_with_a_very_long_name", 1, 22.0f64, 0.0f64
    ));
    expected.push_str(&format!(
        "\nTop empty-result query hashes (consider tuning):\n  {}    1 calls\n",
        &hash[..8]
    ));
    assert_eq!(report, expected);
}

#[test]
fn windows_of_days() {
    assert_eq!(since_ts(1_000_000, Some(7)), 1_000_000 - 604_800);
    assert_eq!(since_ts(5, Some(1)), -86_395);
    assert_eq!(since_ts(1_000_000, None), 0);
}

#[test]
fn parameters_have_defaults() {
    assert_eq!(ListFilesParams { path: None, depth: None }.max_depth(), 2);
    assert_eq!(ListFilesParams { path: None, depth: Some(9) }.max_depth(), 9);
    let f = GetFileContextParams { path: "a".to_string(), mode: None, token_budget: None, query: None };
    assert_eq!(f.mode_name(), "summary");
    assert_eq!(f.budget(), 1500);
    let f = GetFileContextParams {
        path: "a".to_string(),
        mode: Some("full".to_string()),
        token_budget: Some(1_000_000),
        query: None,
    };
    assert_eq!(f.mode_name(), "full");
    assert_eq!(f.budget(), 100_000);
    let s = GetSymbolParams { name: "n".to_string(), file: None, max_lines: None };
    assert_eq!(s.line_limit(), 30);
    let q = SearchCodebaseParams {
        query: "q".to_string(),
        max_results: None,
        token_budget: None,
        detail: None,
    };
    assert_eq!((q.limit(), q.budget(), q.detail_name()), (5, 2500, "pointers".to_string()));
    let m = SaveMemoryParams { content: "c".to_string(), category: None, tags: None };
    assert_eq!((m.category_name(), m.tag_list()), ("general".to_string(), String::new()));
    let r = RecallMemoryParams { query: "q".to_string(), category: None, max_results: Some(3) };
    assert_eq!(r.limit(), 3);
}

#[test]
fn paths_within_the_project() {
    assert_eq!(requested_file("/work/shop", "shop/src/a.js"), "/work/shop/src/a.js");
    assert_eq!(requested_file("/work/shop", "src/a.js"), "/work/shop/src/a.js");
    assert_eq!(requested_file("/work/shop", "shopping/a.js"), "/work/shop/shopping/a.js");
    assert!(check_within("/work/shop", "/work/shop/src").is_ok());
    assert_eq!(check_within("/work/shop", "/work/shopping"), Err("Path escapes project directory".to_string()));
}

#[test]
fn when_a_project_is_indexed() {
    let params = |force: Option<bool>| IndexProjectParams { force };
    assert_eq!(params(None).action(true), IndexAction::Keep);
    assert_eq!(params(Some(false)).action(false), IndexAction::Index);
    assert_eq!(params(Some(true)).action(true), IndexAction::Rebuild);
    assert_eq!(params(Some(true)).action(false), IndexAction::Rebuild);
    assert_eq!(already_indexed(), "Project already indexed. Use force=true to re-index.");
    let stats = IndexStats {
        files_total: 1,
        files_indexed: 1,
        files_skipped: 0,
        symbols_extracted: 2,
        embeddings_generated: 3,
    };
    assert_eq!(
        indexing_complete(&stats),
        "Indexing complete! Indexed 1/1 files (0 skipped), 2 symbols, 3 embeddings"
    );
}

#[test]
fn answers_that_found_nothing() {
    assert_eq!(result_count("No results for 'x'\n"), Some(0));
    assert_eq!(result_count("\n No relevant memories found for 'x'.\n"), Some(0));
    assert_eq!(result_count("No memories stored yet."), Some(0));
    assert_eq!(result_count("src/a.rs"), None);
}
