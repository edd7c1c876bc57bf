use std::cmp::Ordering;

use context_brain::context::relevance_scorer::{
    cmp_score_desc, has_word_match, score_symbols_batch, SymbolSignals,
};
use context_brain::context::scoring;
use context_brain::float32;
use context_brain::indexer::symbol_extractor::{Symbol, SymbolKind};

fn f(bits: u32) -> f32 {
    f32::from_bits(bits)
}

/// The score of a symbol without the meaning of its text.
fn score(signals: &Option<SymbolSignals>) -> f32 {
    let s = signals.unwrap();
    let mut score = 0.0f32;
    if s.exact_name {
        score += 0.5;
    }
    if s.partial_name {
        score += 0.3;
    }
    score += 0.1 * s.keyword_hits as f32;
    if s.large {
        score += 0.05;
    }
    score
}

fn symbol(name: &str, lines: (usize, usize), signature: &str, code: &str) -> Symbol {
    Symbol {
        name: name.to_string(),
        kind: SymbolKind::Function,
        start_line: lines.0,
        end_line: lines.1,
        signature: signature.to_string(),
        code: code.to_string(),
    }
}

#[test]
fn test_scoring_constants_are_positive() {
    assert!(f(scoring::SEARCH_EXACT_NAME_BONUS) > 0.0);
    assert!(f(scoring::SEARCH_SUBSTRING_NAME_BONUS) > 0.0);
    assert!(f(scoring::SEARCH_SYMBOL_SIM_THRESHOLD) > 0.0 && f(scoring::SEARCH_SYMBOL_SIM_THRESHOLD) < 1.0);
    assert!(f(scoring::RELEVANCE_HIGH_THRESHOLD) > f(scoring::RELEVANCE_MEDIUM_THRESHOLD));
    assert!(f(scoring::MEMORY_MIN_SCORE) > 0.0 && f(scoring::MEMORY_MIN_SCORE) < 1.0);
}

#[test]
fn scoring_constants_are_sane() {
    // Exact-name must beat substring.
    assert!(
        f(scoring::SEARCH_EXACT_NAME_BONUS) > f(scoring::SEARCH_SUBSTRING_NAME_BONUS),
        "exact-name must outrank substring"
    );

    // Thresholds must be valid cosine values.
    for &t in &[
        scoring::SEARCH_SYMBOL_SIM_THRESHOLD,
        scoring::SEARCH_FILE_SIM_THRESHOLD,
        scoring::RELEVANCE_HIGH_THRESHOLD,
        scoring::RELEVANCE_MEDIUM_THRESHOLD,
        scoring::RELEVANCE_SIM_THRESHOLD,
    ] {
        let t = f(t);
        assert!(t >= 0.0 && t <= 1.0, "threshold {} not in [0,1]", t);
    }

    // Relevance bands must be ordered.
    assert!(
        f(scoring::RELEVANCE_HIGH_THRESHOLD) > f(scoring::RELEVANCE_MEDIUM_THRESHOLD),
        "high relevance must exceed medium"
    );

    // Memory recall weights sum to 1.0 (within float epsilon).
    let total = f(scoring::MEMORY_SEMANTIC_WEIGHT)
        + f(scoring::MEMORY_KEYWORD_WEIGHT)
        + f(scoring::MEMORY_RECENCY_WEIGHT);
    assert!((total - 1.0).abs() < 1e-5, "memory weights must sum to 1.0, got {}", total);

    // Caps must be positive.
    assert!(scoring::MAX_MEMORIES > 0);
    assert!(scoring::MAX_MEMORY_SIZE > 0);
    assert!(scoring::MAX_SEARCH_MATCHES > 0);
    assert!(scoring::MAX_RECALL_CANDIDATES > 0);
}

#[test]
fn centrality_boost_cannot_override_exact_match() {
    let max_no_match_score =
        f(scoring::SEARCH_FILE_SIM_WEIGHT) * 1.0 + f(scoring::SEARCH_CENTRALITY_MAX_BOOST);
    let min_exact_match_score = f(scoring::SEARCH_EXACT_NAME_BONUS);
    assert!(
        max_no_match_score < min_exact_match_score,
        "centrality + file-sim ({} max) must stay below exact-name ({}), otherwise hub files \
         could outrank leaf implementations",
        max_no_match_score,
        min_exact_match_score,
    );
}

#[test]
fn test_word_boundary_no_false_positive() {
    // "get" should NOT match inside "target"
    assert!(!has_word_match("target", "get"));
    // "get" should NOT match inside "budget"
    assert!(!has_word_match("budget", "get"));
}

#[test]
fn test_word_boundary_true_positive() {
    // "get" should match in "getUser"
    assert!(has_word_match("getUser", "get"));
    // "get" should match in "get_user"
    assert!(has_word_match("get_user", "get"));
    // "get" should match standalone
    assert!(has_word_match("get", "get"));
    // "auth" should match in "handle_auth_request"
    assert!(has_word_match("handle_auth_request", "auth"));
}

#[test]
fn word_boundary_matching_is_correct() {
    // True positives — needle at a word boundary.
    assert!(has_word_match("fn get_data() {}", "get"), "get_data should match (underscore boundary)");
    assert!(has_word_match("call get and go", "get"), "standalone word should match (whitespace boundary)");
    assert!(has_word_match("getUser", "get"), "getUser should match (camelCase boundary)");
    assert!(has_word_match("get()", "get"), "get( should match (paren boundary)");

    // False positives we must NOT report.
    assert!(!has_word_match("getuser(id)", "get"), "lowercase 'getuser' should NOT match (no boundary)");
    assert!(!has_word_match("target = 0", "get"), "target should NOT match get");
    assert!(!has_word_match("budget = 0", "get"), "budget should NOT match get");
    assert!(!has_word_match("forget()", "get"), "forget should NOT match get");
}

#[test]
fn test_score_symbols_exact_match_highest() {
    let symbols = vec![
        symbol("processAuth", (1, 10), "fn processAuth()", "fn processAuth() { }"),
        symbol("unrelated", (20, 25), "fn unrelated()", "fn unrelated() { }"),
    ];
    let scores: Vec<f32> = score_symbols_batch(&symbols, "processAuth").iter().map(score).collect();
    assert!(scores[0] > scores[1], "Exact match should score higher: {} vs {}", scores[0], scores[1]);
}

#[test]
fn test_score_symbols_substring_match() {
    let symbols = vec![symbol("handleAuth", (1, 5), "fn handleAuth()", "fn handleAuth() {}")];
    let scores: Vec<f32> = score_symbols_batch(&symbols, "auth").iter().map(score).collect();
    assert!(scores[0] > 0.0, "Substring match should score > 0: {}", scores[0]);
}

#[test]
fn signals_of_a_symbol() {
    let symbols = vec![
        symbol("parse_config", (1, 40), "fn parse_config(path: Path)", ""),
        symbol("load", (50, 52), "fn load()", ""),
    ];
    let signals = score_symbols_batch(&symbols, "Parse_Config path");
    assert_eq!(
        signals[0],
        Some(SymbolSignals { exact_name: false, partial_name: true, keyword_hits: 2, large: true })
    );
    assert_eq!(
        signals[1],
        Some(SymbolSignals { exact_name: false, partial_name: false, keyword_hits: 0, large: false })
    );
}

#[test]
fn higher_scores_come_first() {
    let one = 1.0f32.to_bits();
    let two = 2.0f32.to_bits();
    let nan = f32::NAN.to_bits();
    assert_eq!(cmp_score_desc(two, one), Ordering::Less);
    assert_eq!(cmp_score_desc(one, two), Ordering::Greater);
    assert_eq!(cmp_score_desc(one, one), Ordering::Equal);
    assert_eq!(cmp_score_desc(nan, one), Ordering::Equal);
    assert_eq!(cmp_score_desc(0.0f32.to_bits(), (-0.0f32).to_bits()), Ordering::Equal);
}

#[test]
fn bit_patterns_compare_as_numbers() {
    let numbers = [f32::NEG_INFINITY, -3.5, -1e-30, -0.0, 0.0, 1e-30, 0.25, 7.0, f32::INFINITY, f32::NAN];
    for a in numbers {
        for b in numbers {
            assert_eq!(float32::less(a.to_bits(), b.to_bits()), a < b, "{} < {}", a, b);
        }
        assert_eq!(float32::is_nan(a.to_bits()), a.is_nan());
        assert_eq!(float32::is_zero(a.to_bits()), a == 0.0);
    }
}
