use std::path::Path;

use context_brain::collections::{NameSet, Tally};
use context_brain::db::schema::{db_path, migrations, MissingColumns};
use context_brain::indexer::config::{has_ast_support, is_skip_dir, is_source_file};
use context_brain::numerals;
use context_brain::path;
use context_brain::sort;
use context_brain::text;
use context_brain::width;

fn chars(s: &str) -> Vec<char> {
    s.chars().collect()
}

fn strings(list: &[&[char]]) -> Vec<String> {
    list.iter().map(|s| s.iter().collect()).collect()
}

#[test]
fn lines_words_and_parts() {
    for s in ["", "a", "a\n", "a\r\nb\n\nc", "\n", "x\r"] {
        let t = chars(s);
        let expected: Vec<&str> = s.lines().collect();
        assert_eq!(strings(&text::lines(&t)), expected, "{:?}", s);
    }
    for s in ["", " a  b\t\u{3000}c ", "ü ö"] {
        let t = chars(s);
        let expected: Vec<&str> = s.split_whitespace().collect();
        assert_eq!(strings(&text::words(&t)), expected, "{:?}", s);
    }
    assert_eq!(strings(&text::split(&chars("a,,b"), ',')), vec!["a", "", "b"]);
}

#[test]
fn trimming_and_finding() {
    let s = "\u{a0} grün \n";
    let t = chars(s);
    assert_eq!(text::string_of(text::trim(&t)), s.trim());
    assert_eq!(text::string_of(text::trim_start(&t)), s.trim_start());
    assert_eq!(text::string_of(text::trim_end(&t)), s.trim_end());
    assert_eq!(text::find(&chars("grüner"), "ner"), Some(3));
    assert_eq!(text::find(&chars("grüner"), "x"), None);
    assert!(text::str_contains("abc", ""));
    assert!(text::starts_with(&chars("abc"), "ab"));
    assert!(text::ends_with(&chars("abc"), "bc"));
    assert_eq!(text::rfind(&chars("a/b/c"), '/'), Some(3));
    assert_eq!(text::replace(&chars("a\nb"), '\n', " "), "a b");
    assert_eq!(text::join(&["a".to_string(), "b".to_string()], ", "), "a, b");
}

#[test]
fn numbers_in_words() {
    for n in [0u64, 7, 10, 1_234_567, u64::MAX] {
        assert_eq!(numerals::decimal(n), n.to_string());
        assert_eq!(numerals::hex16(n), format!("{:016x}", n));
    }
    for n in [0i64, -1, i64::MIN, i64::MAX] {
        assert_eq!(numerals::signed(n), n.to_string());
    }
    for s in ["12", "+7", "-7", "", "+", "1x", " 1", "007"] {
        assert_eq!(numerals::parse(&chars(s)), s.parse::<i64>().ok(), "{:?}", s);
    }
    for n in [5u64, 9_007_199_254_740_993, u64::MAX] {
        assert_eq!(numerals::as_double(n), n as f64 as u128);
    }
    assert_eq!(numerals::tenths(1, 4), "0.2");
    assert_eq!(numerals::tenths(3, 4), "0.8");
}

#[test]
fn bytes_of_characters() {
    for c in ['a', 'ü', '─', '🌍'] {
        assert_eq!(width::char_width(c), c.len_utf8());
    }
    let s = "aü─🌍b";
    for at in 0..s.len() + 2 {
        assert_eq!(width::is_boundary(s, at), s.is_char_boundary(at), "{}", at);
    }
    assert_eq!(width::between(s, 1, 6), Some(chars("ü─")));
    assert_eq!(width::between(s, 2, 6), None);
    assert_eq!(width::between(s, 3, 99), None);
    assert_eq!(width::truncate_signature("fn f(a, b)", 8), Some("fn f(a...".to_string()));
    assert_eq!(width::truncate_signature("fn f()", 80), Some("fn f()".to_string()));
    assert_eq!(width::truncate_signature("aaü", 3), None);
}

#[test]
fn paths_as_the_standard_library_reads_them() {
    let paths = ["", ".", "/", "a", "a/b.rs", "/a//b/./c.tar.gz", "./a", "a/..", ".hidden", "a/", "../x", "a."];
    for p in paths {
        let t = chars(p);
        let expected: Vec<String> =
            Path::new(p).components().map(|c| c.as_os_str().to_string_lossy().to_string()).collect();
        assert_eq!(strings(&path::components(&t)), expected, "{:?}", p);
        assert_eq!(
            path::parent(&t).map(text::string_of),
            Path::new(p).parent().map(|q| q.to_string_lossy().to_string()),
            "{:?}",
            p
        );
        assert_eq!(
            path::file_name(&t).map(text::string_of),
            Path::new(p).file_name().map(|q| q.to_string_lossy().to_string()),
            "{:?}",
            p
        );
        assert_eq!(
            path::extension(&t).map(text::string_of),
            Path::new(p).extension().map(|q| q.to_string_lossy().to_string()),
            "{:?}",
            p
        );
        for base in paths {
            let b = chars(base);
            assert_eq!(
                path::starts_with(&t, &b),
                Path::new(p).starts_with(base),
                "{:?} {:?}",
                p,
                base
            );
            assert_eq!(
                path::strip_prefix(&t, &b).map(text::string_of),
                Path::new(p).strip_prefix(base).ok().map(|q| q.to_string_lossy().to_string()),
                "{:?} {:?}",
                p,
                base
            );
            assert_eq!(
                path::join(&b, &t),
                Path::new(base).join(p).to_string_lossy().to_string(),
                "{:?} {:?}",
                base,
                p
            );
        }
    }
    assert_eq!(path::normalize(&chars("a/./b/../c")), "a/c");
    for (p, expected) in [("src/./lib/../utils", "src/utils"), ("src/../../x", "x"), ("", "")] {
        assert_eq!(path::normalize(&chars(p)), expected);
        assert_eq!(path::normalize(&chars(expected)), expected);
    }
}

#[test]
fn stable_sorting() {
    assert_eq!(sort::order(&[3usize, 1, 2, 1]), vec![1, 3, 2, 0]);
    let names: Vec<String> = ["b", "a", "B", "ä", "a"].iter().map(|s| s.to_string()).collect();
    assert_eq!(sort::order_texts(&names), vec![2, 1, 4, 0, 3]);
}

#[test]
fn sets_and_tallies() {
    let mut set = NameSet::new();
    assert!(set.insert("a".to_string()));
    assert!(!set.insert("a".to_string()));
    assert!(set.insert("b".to_string()));
    assert_eq!((set.len(), set.get(0), set.get(1)), (2, "a", "b"));
    assert!(set.contains("b"));
    assert!(!set.contains("c"));
    let mut tally = Tally::new();
    for name in ["x", "y", "x"] {
        tally.bump(name.to_string());
    }
    assert_eq!(tally.get("x"), Some(2));
    assert_eq!(tally.get("z"), None);
    assert_eq!((tally.len(), tally.entry(1)), (2, ("y", 1)));
}

#[test]
fn where_the_database_is() {
    assert_eq!(db_path("/work/shop"), "/work/shop/.context-brain.db");
    let none = MissingColumns {
        files_compressed: false,
        memories_compressed: false,
        import_count: false,
        memory_hygiene: false,
    };
    assert!(migrations(none).is_empty());
    let batches = migrations(MissingColumns { import_count: true, ..none });
    assert_eq!(batches, vec!["ALTER TABLE files ADD COLUMN import_count INTEGER DEFAULT 0;"]);
}

#[test]
fn which_files_belong_to_a_project() {
    assert!(is_skip_dir("node_modules"));
    assert!(!is_skip_dir("src"));
    assert!(is_source_file("rs"));
    assert!(!is_source_file("png"));
    assert!(has_ast_support("py"));
    assert!(!has_ast_support("md"));
}
