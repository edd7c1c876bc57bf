use context_brain::context::scoring;
use context_brain::indexer::file_walker::FileEntry;
use context_brain::indexer::pipeline::{pending, plan_store};
use context_brain::tools::get_symbol::{get_from_index, resolve_exports, IndexRow, RowFile};
use context_brain::tools::search_codebase::indexed::{
    analysis_count, query_words, FileWeight, NameMatch, RowWeight, SymbolRow,
};
use context_brain::tools::search_codebase::live::LiveScan;
use context_brain::tools::search_codebase::ranking::{
    analyze_match, collect, file_findings, format_best, path_findings, sort_matches,
    symbol_findings, Finding, Points,
};
use context_brain::tools::search_codebase::types::SearchMatch;
use context_brain::tools::search_codebase::Detail;

fn strings(list: &[&str]) -> Vec<String> {
    list.iter().map(|s| s.to_string()).collect()
}

fn bits(list: &[f32]) -> Vec<u32> {
    list.iter().map(|s| s.to_bits()).collect()
}

fn row(name: &str, kind: &str, lines: (usize, usize), path: &str) -> SymbolRow {
    SymbolRow {
        name: name.to_string(),
        kind: kind.to_string(),
        start_line: lines.0,
        end_line: lines.1,
        signature: format!("fn {}()", name),
        file_path: path.to_string(),
    }
}

fn empty_match(path: &str) -> SearchMatch {
    SearchMatch {
        relative_path: path.to_string(),
        context_lines: Vec::new(),
        symbol_matches: Vec::new(),
    }
}

/// What points are worth.
fn value(points: Points) -> f32 {
    let substring = f32::from_bits(scoring::SEARCH_SUBSTRING_NAME_BONUS);
    let path = f32::from_bits(scoring::SEARCH_PATH_MATCH_BONUS);
    match points {
        Points::Symbol { name, similarity, weight } => {
            let base = match name {
                NameMatch::Exact => f32::from_bits(scoring::SEARCH_EXACT_NAME_BONUS),
                NameMatch::Substring => substring,
                NameMatch::Words { matched, total } => matched as f32 / total as f32 * substring,
                NameMatch::Nothing => 0.0,
            };
            let near = similarity.map(f32::from_bits).unwrap_or(0.0)
                * f32::from_bits(scoring::SEARCH_SYMBOL_SIM_WEIGHT);
            let factor = match weight {
                RowWeight::Definition => 1.5,
                RowWeight::Reference => 0.2,
                RowWeight::Plain => 1.0,
            };
            (base + near) * factor
        }
        Points::File { similarity } => {
            f32::from_bits(similarity) * f32::from_bits(scoring::SEARCH_FILE_SIM_WEIGHT)
        }
        Points::Path => path,
        Points::PathWords { matched, total } => matched as f32 / total.max(1) as f32 * path,
    }
}

/// The paths of a search by name and path in their order, and the text of its results.
fn ranked(files: &[(&str, &str)], query: &str) -> (String, Vec<String>) {
    let sources: Vec<_> = files
        .iter()
        .map(|(path, content)| {
            let extension = path.rsplit('.').next().unwrap().to_string();
            let entry = FileEntry {
                absolute_path: format!("/p/{}", path),
                relative_path: path.to_string(),
                extension,
                size_bytes: content.len() as u64,
            };
            pending(&entry.relative_path, &entry.extension, entry.size_bytes, Some(content.to_string()), None)
                .unwrap()
        })
        .collect();
    let plan = plan_store(&sources);
    let query_lower = query.to_lowercase();
    let words = query_words(&query_lower);
    let rows: Vec<SymbolRow> = plan
        .files
        .iter()
        .zip(files)
        .flat_map(|(f, (path, _))| {
            f.symbols.iter().map(move |s| SymbolRow {
                name: s.name.clone(),
                kind: s.kind.clone(),
                start_line: s.start_line,
                end_line: s.end_line,
                signature: s.signature.clone(),
                file_path: path.to_string(),
            })
        })
        .collect();
    let codes = vec![String::new(); rows.len()];
    let unknown = vec![None; rows.len()];
    let mut findings =
        symbol_findings(&rows, &unknown, &codes, &query_lower, &words, Detail::Pointers).unwrap();
    let all: Vec<String> = files.iter().map(|(path, _)| path.to_string()).collect();
    let matching: Vec<String> =
        all.iter().filter(|p| p.to_lowercase().contains(&query_lower)).cloned().collect();
    findings.extend(path_findings(&matching, &all, &words).unwrap());
    let collected = collect(findings);
    let mut scores = vec![0.0f32; collected.matches.len()];
    for (place, points) in &collected.points {
        scores[*place] += value(*points);
    }
    let (mut matches, order) = sort_matches(collected.matches.into_list(), &bits(&scores));
    let mut scores: Vec<f32> = order.iter().map(|k| scores[*k]).collect();
    for i in 0..analysis_count(50, matches.len()) {
        let content = files.iter().find(|(p, _)| *p == matches[i].relative_path).unwrap().1;
        match analyze_match(&mut matches[i], content, &words).unwrap() {
            FileWeight::Consumer => scores[i] *= 0.4,
            FileWeight::Implementation => scores[i] *= 1.3,
            FileWeight::Plain => {}
        }
    }
    let text = format_best(&matches, &bits(&scores), 50, query, 100_000, true);
    let mut places: Vec<usize> = (0..matches.len()).collect();
    places.sort_by(|a, b| scores[*b].partial_cmp(&scores[*a]).unwrap());
    (text, places.iter().map(|i| matches[*i].relative_path.clone()).collect())
}

#[test]
fn exact_name_beats_substring() {
    let (out, ranked) = ranked(
        &[
            ("src/profile.js", "function getUser(id) {\n  return db.fetch(id);\n}\n"),
            ("src/avatar.js", "function getUserAvatar(id) {\n  return cdn.url(id);\n}\n"),
        ],
        "getUser",
    );
    let profile = ranked.iter().position(|p| p == "src/profile.js").unwrap();
    let avatar = ranked.iter().position(|p| p == "src/avatar.js").unwrap();
    assert!(profile < avatar, "{}", out);
    let first = out.find("src/profile.js").unwrap();
    assert!(first < out.find("src/avatar.js").unwrap_or(out.len()), "{}", out);
}

#[test]
fn path_match_beats_content_mention() {
    let (out, ranked) = ranked(
        &[
            (
                "src/auth/middleware.rs",
                "pub fn check_token(t: &str) -> bool { !t.is_empty() }\n\
                 pub fn enforce(req: &str) -> bool { check_token(req) }\n",
            ),
            (
                "src/handlers.rs",
                "// handles auth-related routing concerns elsewhere\n\
                 pub fn dispatch(route: &str) -> &str { route }\n",
            ),
        ],
        "auth",
    );
    let middleware = ranked.iter().position(|p| p == "src/auth/middleware.rs").unwrap();
    if let Some(handlers) = ranked.iter().position(|p| p == "src/handlers.rs") {
        assert!(middleware < handlers, "{}", out);
    }
}

#[test]
fn rows_become_findings_once() {
    let rows = [
        row("run", "function", (1, 9), "src/a.rs"),
        row("run", "function", (1, 9), "src/a.rs"),
        row("rerun", "function", (3, 4), "src/b.rs"),
        row("other", "function", (3, 4), "src/c.rs"),
        row("walk", "const", (3, 4), "src/d.rs"),
    ];
    let near = 0.75f32.to_bits();
    let similarities = [None, None, Some(0.1f32.to_bits()), Some(0.3f32.to_bits()), Some(near)];
    let codes = vec![String::new(); 5];
    let found = symbol_findings(&rows, &similarities, &codes, "run", &query_words("run"), Detail::Pointers)
        .unwrap();
    assert_eq!(found.len(), 3);
    assert_eq!(found[0].path, "src/a.rs");
    assert_eq!(
        found[0].points,
        Points::Symbol { name: NameMatch::Exact, similarity: None, weight: RowWeight::Definition }
    );
    assert_eq!(found[0].symbol.as_deref(), Some("[fn] run L1-9"));
    assert_eq!(
        found[1].points,
        Points::Symbol { name: NameMatch::Substring, similarity: None, weight: RowWeight::Definition }
    );
    assert_eq!(
        found[2].points,
        Points::Symbol { name: NameMatch::Nothing, similarity: Some(near), weight: RowWeight::Plain }
    );
}

#[test]
fn a_backward_export_has_no_findings() {
    let rows = [row("run", "export", (9, 1), "src/a.rs")];
    let codes = vec![String::new()];
    assert!(symbol_findings(&rows, &[None], &codes, "run", &query_words("run"), Detail::Pointers).is_none());
}

#[test]
fn similar_files_become_findings() {
    let found = file_findings(&strings(&["a.rs", "b.rs"]), &bits(&[0.35, 0.5]));
    assert_eq!(found.len(), 1);
    assert_eq!(found[0].path, "b.rs");
    assert_eq!(found[0].points, Points::File { similarity: 0.5f32.to_bits() });
    assert_eq!(value(found[0].points), 1.5);
}

#[test]
fn paths_become_findings() {
    let all = strings(&["src/auth/flow.rs", "src/users.rs", "src/authors.rs"]);
    let found = path_findings(&all[..1], &all, &query_words("authentication flow")).unwrap();
    let points: Vec<(&str, Points)> = found.iter().map(|f| (f.path.as_str(), f.points)).collect();
    assert_eq!(
        points,
        vec![
            ("src/auth/flow.rs", Points::Path),
            ("src/auth/flow.rs", Points::PathWords { matched: 2, total: 2 }),
            ("src/authors.rs", Points::PathWords { matched: 1, total: 2 }),
        ]
    );
    assert!(path_findings(&[], &all, &strings(&["abcüx"])).is_none());
}

#[test]
fn findings_of_one_file_are_one_match() {
    let list: Vec<Finding> = (0..5)
        .map(|i| Finding {
            path: if i == 3 { "b.rs".to_string() } else { "a.rs".to_string() },
            points: Points::Path,
            symbol: Some(format!("symbol {}", i)),
        })
        .collect();
    let collected = collect(list);
    assert_eq!(collected.matches.len(), 2);
    assert_eq!(collected.matches.get(0).symbol_matches, strings(&["symbol 0", "symbol 1", "symbol 2"]));
    let places: Vec<usize> = collected.points.iter().map(|p| p.0).collect();
    assert_eq!(places, vec![0, 0, 0, 1, 0]);
}

#[test]
fn matches_are_sorted_and_cut() {
    let list = vec![empty_match("a.rs"), empty_match("b.rs"), empty_match("c.rs")];
    let (sorted, order) = sort_matches(list, &bits(&[1.0, 3.0, 3.0]));
    assert_eq!(order, vec![1, 2, 0]);
    assert_eq!(sorted[0].relative_path, "b.rs");
    assert_eq!(sorted[2].relative_path, "a.rs");
    assert_eq!(format_best(&sorted, &bits(&[1.0, 2.0, 3.0]), 2, "q", 1000, true), "a.rs\nc.rs\n");
    assert_eq!(format_best(&sorted, &bits(&[1.0, 2.0, 3.0]), 0, "q", 1000, true), "No results for 'q'\n");
}

#[test]
fn a_match_shows_a_line_of_its_content() {
    let mut m = empty_match("a.js");
    let words = query_words("auth");
    assert_eq!(analyze_match(&mut m, "import auth from 'x';\nauth();\n", &words), Some(FileWeight::Plain));
    assert_eq!(m.context_lines.len(), 1);
    assert_eq!((m.context_lines[0].line_num, m.context_lines[0].content.as_str()), (2, "auth();"));
    assert_eq!(analyze_match(&mut m, "import auth from 'x';\n", &words), Some(FileWeight::Consumer));
    assert_eq!(m.context_lines.len(), 1);
}

#[test]
fn a_live_scan_ends_when_it_is_full() {
    let file = FileEntry {
        absolute_path: "/p/a.txt".to_string(),
        relative_path: "a.txt".to_string(),
        extension: "txt".to_string(),
        size_bytes: 10,
    };
    let large = FileEntry {
        absolute_path: "/p/b.txt".to_string(),
        relative_path: "b.txt".to_string(),
        extension: "txt".to_string(),
        size_bytes: 1_000_001,
    };
    let mut scan = LiveScan::new();
    assert!(scan.offer(&large, Some("needle"), "needle", Detail::Pointers));
    assert!(scan.offer(&file, None, "needle", Detail::Pointers));
    assert!(scan.offer(&file, Some("hay"), "needle", Detail::Pointers));
    assert_eq!(scan.candidates.len(), 0);
    for i in 1..=500 {
        let goes_on = scan.offer(&file, Some("needle"), "needle", Detail::Pointers);
        assert_eq!(goes_on, i < 500);
    }
    assert_eq!(scan.candidates.len(), 500);
}

fn index_row(name: &str, kind: &str, lines: (i64, i64), path: &str) -> IndexRow {
    IndexRow {
        name: name.to_string(),
        kind: kind.to_string(),
        start_line: lines.0,
        end_line: lines.1,
        signature: format!("fn {}()", name),
        relative_path: path.to_string(),
    }
}

#[test]
fn the_index_answers_with_code() {
    let rows = [
        index_row("run", "function", (1, 2), "a.rs"),
        index_row("run", "function", (1, 2), "a.rs"),
        index_row("run", "function", (4, 5), "b.rs"),
    ];
    let files = [
        RowFile::Content("fn run() {\n}\n".to_string()),
        RowFile::Content("fn run() {\n}\n".to_string()),
        RowFile::Unreadable,
    ];
    assert_eq!(
        get_from_index("run", &rows, &files, &[], 30).unwrap().unwrap(),
        "[fn] run in a.rs L1-2\nfn run() {\n}\n\n[fn] run in b.rs L4-5\n\n"
    );
    assert_eq!(get_from_index("run", &[], &[], &[], 30).unwrap().unwrap(), "");
    assert_eq!(
        get_from_index("ru", &[], &[], &rows[2..], 30).unwrap().unwrap(),
        "No exact match for 'ru'. Similar:\n\n- [fn] run in b.rs L4-5: fn run()\n"
    );
    let backwards = [index_row("run", "function", (5, 2), "a.rs")];
    let content = [RowFile::Content("1\n2\n3\n4\n5\n6\n".to_string())];
    assert!(get_from_index("run", &backwards, &content, &[], 30).unwrap().is_none());
}

#[test]
fn the_index_stops_at_paths_that_it_cannot_follow() {
    let rows = [index_row("run", "function", (1, 2), "a.rs")];
    let gone = [RowFile::Unresolved("gone".to_string())];
    assert_eq!(
        get_from_index("run", &rows, &gone, &[], 30).unwrap_err().message(),
        "Cannot resolve path a.rs: gone"
    );
    let outside = [RowFile::Outside];
    assert_eq!(
        get_from_index("run", &rows, &outside, &[], 30).unwrap_err().message(),
        "Path escapes project directory: a.rs"
    );
}

#[test]
fn small_exports_stand_for_functions() {
    let rows = vec![
        index_row("run", "export", (1, 2), "a.js"),
        index_row("go", "export", (1, 2), "a.js"),
        index_row("big", "export", (1, 9), "a.js"),
    ];
    let found = vec![
        Some(index_row("run", "function", (10, 20), "a.js")),
        None,
        Some(index_row("big", "function", (30, 40), "a.js")),
    ];
    let resolved = resolve_exports(rows, found);
    let kinds: Vec<&str> = resolved.iter().map(|r| r.kind.as_str()).collect();
    assert_eq!(kinds, vec!["function", "export", "export"]);
    assert_eq!(resolved[0].start_line, 10);
}
