use context_brain::context::token_estimator::{estimate_tokens, fits_budget, tokens_to_chars};

#[test]
fn test_empty() {
    assert_eq!(estimate_tokens(""), 0);
}

#[test]
fn test_single_word() {
    assert_eq!(estimate_tokens("hello"), 2); // 5 chars -> ceil(5/4) = 2
}

#[test]
fn test_code_line() {
    let line = "const result = await fetchData(url);";
    let tokens = estimate_tokens(line);
    // Should be roughly 8-12 tokens
    assert!(tokens >= 6 && tokens <= 15, "got {}", tokens);
}

#[test]
fn test_fits_budget() {
    assert!(fits_budget("short", 100));
    assert!(!fits_budget(&"x".repeat(10000), 10));
}

#[test]
fn test_token_estimator_handles_unicode() {
    // Should not panic on multi-byte characters
    let text = "こんにちは世界 🌍 émoji café résumé";
    let tokens = estimate_tokens(text);
    assert!(tokens > 0);
}

#[test]
fn white_space_alone_costs_one_token() {
    assert_eq!(estimate_tokens("   "), 1);
}

#[test]
fn exact_token_counts() {
    // Words of 3, 5, 4 and 1 letters, and punctuation.
    assert_eq!(estimate_tokens("let value = func(x);"), 1 + 2 + 1 + 1 + 1 + 1 + 1 + 1);
}

#[test]
fn joining_texts_costs_no_more_than_the_parts() {
    let a = "fn handle_";
    let b = "request()";
    let joined = format!("{}{}", a, b);
    assert!(estimate_tokens(&joined) <= estimate_tokens(a) + estimate_tokens(b));
}

#[test]
fn budget_in_characters() {
    assert_eq!(tokens_to_chars(0), 0);
    assert_eq!(tokens_to_chars(1), 3);
    assert_eq!(tokens_to_chars(100), 350);
}

#[test]
fn estimates_add_up() {
    let (a, b) = ("let a = 1;", "call(a, b)");
    let parts = estimate_tokens(a) + estimate_tokens(b);
    assert_eq!(estimate_tokens(&format!("{} {}", a, b)), parts);
    assert_eq!(estimate_tokens(&format!("{}\n{}", a, b)), parts + 1);
}

#[test]
fn no_more_tokens_than_characters() {
    for s in ["x", "a b", "fn f() {}\n", "{}{}{}"] {
        assert!(estimate_tokens(s) <= s.chars().count());
    }
}
