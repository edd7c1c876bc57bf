use context_brain::context::file_summarizer::{
    order_by_score, pack_symbols, smart_summarize, strip_comments, structural_summary,
};
use context_brain::indexer::symbol_extractor::{Symbol, SymbolKind};
use context_brain::tools::get_symbol::{
    get_from_files, get_from_symbols, get_symbol, needs_resolution, row_block, similar_symbols, within_project,
    IndexRow,
};
use context_brain::tools::search_codebase::indexed::{
    analysis_count, analyze_lines, best, distinct_rows, file_similarity_counts, fts_query,
    like_pattern, match_name, path_hits, query_words, row_code, row_line, row_weight, stored_line,
    symbol_similarity_counts, FileWeight, NameMatch, RowWeight, SymbolRow,
};
use context_brain::tools::search_codebase::live::{is_word_match, scan_file};
use context_brain::tools::search_codebase::types::{
    format_results, ContextLine, Matches, SearchMatch,
};
use context_brain::tools::search_codebase::{
    after_index, detail_of, search, Detail, SearchLimits, SearchStep,
};

fn row(name: &str, kind: &str, lines: (usize, usize), signature: &str, path: &str) -> SymbolRow {
    SymbolRow {
        name: name.to_string(),
        kind: kind.to_string(),
        start_line: lines.0,
        end_line: lines.1,
        signature: signature.to_string(),
        file_path: path.to_string(),
    }
}

#[test]
fn limits_and_steps_of_a_search() {
    let capped = SearchLimits { max_results: 50, token_budget: 100_000 };
    match search(200, 1_000_000, true) {
        SearchStep::Index(limits) => assert_eq!(limits, capped),
        other => panic!("unexpected {:?}", other),
    }
    match search(3, 10, false) {
        SearchStep::Files(limits) => {
            assert_eq!(limits, SearchLimits { max_results: 3, token_budget: 10 })
        }
        other => panic!("unexpected {:?}", other),
    }
    assert!(matches!(after_index(None, capped), SearchStep::Files(_)));
    assert!(matches!(
        after_index(Some("No results found".to_string()), capped),
        SearchStep::Files(_)
    ));
    for answer in ["src/a.rs\n", "No results for 'x'\n"] {
        match after_index(Some(answer.to_string()), capped) {
            SearchStep::Done(t) => assert_eq!(t, answer),
            other => panic!("unexpected {:?}", other),
        }
    }
    assert_eq!(detail_of("code"), Detail::Code);
    assert_eq!(detail_of("signatures"), Detail::Signatures);
    assert_eq!(detail_of("anything"), Detail::Pointers);
}

#[test]
fn queries_for_the_index() {
    assert_eq!(query_words("find a user  by id"), vec!["find", "user", "by", "id"]);
    assert_eq!(fts_query("say \"hi\""), "\"say \"\"hi\"\"\"*");
    assert_eq!(like_pattern("x"), "%x%");
    assert_eq!(stored_line(-4), 0);
    assert_eq!(stored_line(12), 12);
}

#[test]
fn an_exact_name_matches_best() {
    let words = query_words("getuser");
    assert_eq!(match_name("getuser", "getuser", &words), NameMatch::Exact);
    assert_eq!(match_name("getuseravatar", "getuser", &words), NameMatch::Substring);
    assert_eq!(match_name("other", "getuser", &words), NameMatch::Nothing);
    let words = query_words("user avatar");
    assert_eq!(
        match_name("get_avatar", "user avatar", &words),
        NameMatch::Words { matched: 1, total: 2 }
    );
}

#[test]
fn rows_are_weighted_and_shown() {
    let def = row("run", "function", (3, 9), "fn run(a: u8)", "src/a.rs");
    assert_eq!(row_weight(&def, "run"), RowWeight::Definition);
    let import = row("{ run }", "const", (1, 1), "const { run } = require('./a')", "src/b.js");
    assert_eq!(row_weight(&import, "{ run }"), RowWeight::Reference);
    let export = row("run", "export", (1, 2), "export { run }", "src/b.js");
    assert_eq!(row_weight(&export, "run"), RowWeight::Reference);
    let constant = row("RUN", "const", (1, 1), "const RUN", "src/b.rs");
    assert_eq!(row_weight(&constant, "run"), RowWeight::Plain);
    assert_eq!(row_line(&def, Detail::Pointers, "x").unwrap(), "[fn] run L3-9");
    assert_eq!(row_line(&def, Detail::Signatures, "x").unwrap(), "[fn] run L3-9: fn run(a: u8)");
    assert_eq!(row_line(&def, Detail::Code, "x").unwrap(), "[fn] run L3-9: fn run(a: u8)\nx");
    let long = row("run", "function", (3, 9), &format!("fn run({}, b)", "a".repeat(70)), "src/a.rs");
    assert_eq!(
        row_line(&long, Detail::Signatures, "").unwrap(),
        format!("[fn] run L3-9: fn run({}...", "a".repeat(70))
    );
}

#[test]
fn the_code_of_a_row() {
    let content = "one\ntwo\r\nthree\n";
    assert_eq!(row_code(&row("x", "function", (2, 3), "", "a.rs"), content), "two\nthree");
    assert_eq!(row_code(&row("x", "function", (0, 1), "", "a.rs"), content), "one");
    assert_eq!(row_code(&row("x", "function", (3, 90), "", "a.rs"), content), "three");
    assert_eq!(row_code(&row("x", "function", (4, 90), "", "a.rs"), content), "");
}

#[test]
fn similarities_have_thresholds() {
    assert!(symbol_similarity_counts(0.31f32.to_bits()));
    assert!(!symbol_similarity_counts(0.30f32.to_bits()));
    assert!(file_similarity_counts(0.36f32.to_bits()));
    assert!(!file_similarity_counts(0.35f32.to_bits()));
    assert!(!file_similarity_counts(f32::NAN.to_bits()));
}

#[test]
fn words_in_paths_by_prefix() {
    let words = query_words("authentication flow");
    assert_eq!(path_hits("src/auth/flow.rs", &words), Some(2));
    assert_eq!(path_hits("src/users.rs", &words), Some(0));
    let cut = vec!["abcüx".to_string()];
    assert_eq!(path_hits("src/a.rs", &cut), None);
}

#[test]
fn consumers_and_implementations() {
    let words = query_words("auth");
    let consumer = analyze_lines("import auth from './auth';\nlet x = 1;\n", &words).unwrap();
    assert_eq!((consumer.def_count, consumer.import_count), (0, 1));
    assert_eq!(consumer.weight(), FileWeight::Consumer);
    assert_eq!(consumer.shown_line().unwrap().line_num, 1);
    let own = analyze_lines("\n  function AUTH() {}\n", &words).unwrap();
    assert_eq!(own.weight(), FileWeight::Implementation);
    let line = own.shown_line().unwrap();
    assert_eq!((line.line_num, line.content.as_str()), (2, "function AUTH() {}"));
    assert_eq!(analyze_lines("x", &words).unwrap().weight(), FileWeight::Plain);
}

#[test]
fn the_best_matches_first() {
    let scores: Vec<u32> = [1.0f32, 3.0, 2.0, 3.0].iter().map(|s| s.to_bits()).collect();
    assert_eq!(best(&scores, 3), vec![1, 3, 2]);
    assert_eq!(order_by_score(&scores), vec![1, 3, 2, 0]);
    assert_eq!(analysis_count(5, 100), 15);
    assert_eq!(analysis_count(5, 7), 7);
    let rows = [
        row("a", "function", (1, 2), "", "x.rs"),
        row("a", "function", (1, 2), "", "x.rs"),
        row("a", "function", (1, 2), "", "y.rs"),
    ];
    assert_eq!(distinct_rows(&rows), vec![0, 2]);
}

#[test]
fn matches_are_collected_by_path() {
    let mut m = Matches::new();
    assert_eq!(m.upsert_match("a.rs", None, Some("[fn] one L1-2".to_string())), Some(0));
    assert_eq!(m.upsert_match("b.rs", Some(ContextLine { line_num: 4, content: "  x".to_string() }), None), Some(1));
    for i in 0..5 {
        assert_eq!(m.upsert_match("a.rs", None, Some(format!("more {}", i))), Some(0));
    }
    assert_eq!(m.len(), 2);
    assert_eq!(m.get(0).symbol_matches.len(), 3);
    let list = m.into_list();
    assert_eq!(
        format_results(&list, "q", 1000, true),
        "a.rs: [fn] one L1-2\na.rs: more 0\na.rs: more 1\nb.rs L4: x\n"
    );
}

#[test]
fn matches_are_bounded() {
    let mut m = Matches::new();
    for i in 0..1000 {
        assert_eq!(m.upsert_match(&format!("f{}.rs", i), None, None), Some(i));
    }
    assert_eq!(m.upsert_match("one-more.rs", None, None), None);
    assert_eq!(m.upsert_match("f7.rs", None, None), Some(7));
    assert_eq!(m.len(), 1000);
}

#[test]
fn results_keep_to_the_budget() {
    let list: Vec<SearchMatch> = (0..50)
        .map(|i| SearchMatch {
            relative_path: format!("src/file_number_{}.rs", i),
            context_lines: Vec::new(),
            symbol_matches: Vec::new(),
        })
        .collect();
    let out = format_results(&list, "q", 40, true);
    assert!(out.ends_with("... [TRUNCATED]\n"));
    assert!(out.lines().count() < 10);
    assert_eq!(format_results(&[], "q", 40, true), "No results for 'q'\n");
    assert_eq!(
        format_results(&[], "q", 40, false),
        "Warning: No semantic search — keyword matching only.\n\nNo results for 'q'\n"
    );
}

#[test]
fn a_scan_of_a_file() {
    let source = "fn load_config() {}\n// the Config file\n";
    let c = scan_file("src/config.rs", "rs", source, "CONFIG", Detail::Pointers).unwrap();
    assert_eq!(c.relative_path, "src/config.rs");
    assert_eq!(c.score, 5 + 2 + 3);
    assert_eq!(c.context_lines.len(), 2);
    assert_eq!(c.symbol_matches.len(), 1);
    assert_eq!(c.summary, format!("src/config.rs\n{}", source));
    assert!(scan_file("src/a.rs", "rs", "fn x() {}", "config", Detail::Pointers).is_none());
    assert!(is_word_match("load_config", "config"));
    assert!(!is_word_match("budgetary", "get"));
    assert!(!is_word_match("target", "get"));
    assert!(!is_word_match("getter", "get"));
    assert!(is_word_match("target_get", "get"));
    assert!(is_word_match("get", "get"));
}

#[test]
fn answers_of_the_index_for_a_symbol() {
    assert_eq!(get_symbol(Some("code".to_string())), Some("code".to_string()));
    assert_eq!(get_symbol(Some("No exact match for 'x'".to_string())), None);
    assert_eq!(get_symbol(Some(String::new())), None);
    assert_eq!(get_symbol(None), None);
    assert!(needs_resolution("export", 1, 3));
    assert!(!needs_resolution("function", 1, 3));
    assert!(within_project("/p/src", "/p"));
    assert!(!within_project("/px/src", "/p"));
    let r = IndexRow {
        name: "run".to_string(),
        kind: "function".to_string(),
        start_line: 1,
        end_line: 3,
        signature: "fn run()".to_string(),
        relative_path: "src/a.rs".to_string(),
    };
    let block = row_block(&r, Some("fn run() {\n    go();\n}\nrest\n"), 30).unwrap();
    assert!(block.contains("src/a.rs"), "{}", block);
    assert!(block.contains("go();"), "{}", block);
    assert!(!block.contains("rest"), "{}", block);
    let similar = similar_symbols("ru", &[r]).unwrap();
    assert!(similar.starts_with("No exact match for 'ru'. Similar:\n\n"), "{}", similar);
}

#[test]
fn symbols_in_files() {
    let files = vec![
        ("src/a.rs".to_string(), "rs".to_string(), "fn run() {\n    go();\n}\n".to_string()),
        ("src/b.rs".to_string(), "rs".to_string(), "fn other() {}\n".to_string()),
    ];
    let found = get_from_files(&files, "run", None, 30).unwrap();
    assert!(found.contains("src/a.rs"), "{}", found);
    assert!(found.contains("go();"), "{}", found);
    let elsewhere = get_from_files(&files, "run", Some("b.rs"), 30).unwrap();
    assert!(!elsewhere.contains("fn run() {\n    go();\n}"), "{}", elsewhere);
}

fn symbol(name: &str, signature: &str, code: &str) -> Symbol {
    Symbol {
        name: name.to_string(),
        kind: SymbolKind::Function,
        start_line: 1,
        end_line: 3,
        signature: signature.to_string(),
        code: code.to_string(),
    }
}

#[test]
fn summaries_show_relevant_code() {
    let symbols = [
        symbol("one", "fn one()", "fn one() {\n    first();\n}"),
        symbol("two", "fn two()", "fn two() {\n    second();\n}"),
    ];
    let scores = [0.01f32.to_bits(), 0.9f32.to_bits()];
    let out = pack_symbols("# f\n\n".to_string(), &symbols, &scores, "rs", 500).unwrap();
    assert!(out.contains("second();"), "{}", out);
    assert!(!out.contains("first();"), "{}", out);
}

#[test]
fn structural_summaries_keep_to_the_budget() {
    let symbols: Vec<Symbol> =
        (0..100).map(|i| symbol(&format!("function_{}", i), "fn f()", "fn f() {}")).collect();
    let out = structural_summary("", "/x/f.rs", 100, Some(&symbols)).unwrap();
    assert!(out.len() <= 350 + "\n... [TRUNCATED]".len());
    assert!(out.ends_with("\n... [TRUNCATED]"));
    let short = structural_summary("", "/x/f.rs", 1000, Some(&symbols[..1])).unwrap();
    assert_eq!(short, "# /x/f.rs\n\n[fn] function_0 L1-3: fn f()\n");
}

#[test]
fn smart_summaries_of_source() {
    let source = "use std::fmt;\n\nfn one() {\n    first();\n}\n";
    let plain = smart_summarize(source, "/x/f.rs", 1000, None).unwrap();
    assert!(plain.contains("[fn] one L3-5"), "{}", plain);
    assert!(!plain.contains("first();"));
    let scored = smart_summarize(source, "/x/f.rs", 1000, Some(&[0.9f32.to_bits()])).unwrap();
    assert!(scored.contains("first();"), "{}", scored);
}

#[test]
fn comments_are_stripped() {
    let code = "// note\nfn one() {\n    // inner\n    go();\n}";
    let out = strip_comments(code, "rs");
    assert!(!out.contains("note"), "{}", out);
    assert!(out.contains("go();"), "{}", out);
}

#[test]
fn documentation_stays_on_the_first_line_only() {
    let js = "/** Adds. */\nfunction plus() {\n    /** inner */\n    go();\n}";
    assert_eq!(
        strip_comments(js, "js"),
        "/** Adds. */\nfunction plus() {\n    go();\n}"
    );
    let py = "def plus():\n    \"\"\"Adds.\"\"\"\n    return go()";
    assert_eq!(strip_comments(py, "py"), "def plus():\n    return go()");
    let first = "\"\"\"Adds.\"\"\"\ndef plus():\n    return go()";
    assert_eq!(strip_comments(first, "py"), first);
    assert_eq!(strip_comments("go();\n// ... +3 more lines", "rs"), "go();\n// ... +3 more lines");
    assert_eq!(strip_comments("# kept", "md"), "# kept");
}

#[test]
fn symbols_of_given_lists() {
    let files = vec![
        ("src/a.rs".to_string(), "rs".to_string(), "fn run() {\n    go();\n}\n".to_string()),
        ("src/b.rs".to_string(), "rs".to_string(), "other text\n".to_string()),
    ];
    let lists = vec![vec![symbol("run", "fn run()", "fn run() {\n    go();\n}")], Vec::new()];
    let found = get_from_symbols(&files, &lists, "RUN", None, 30).unwrap();
    assert!(found.contains("src/a.rs"), "{}", found);
    assert!(found.contains("go();"), "{}", found);
    let missing = get_from_symbols(&files, &lists, "absent", None, 30).unwrap();
    assert_eq!(missing, "Symbol 'absent' not found.\n");
}
