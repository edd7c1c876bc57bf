use context_brain::context::scoring;
use context_brain::memory::hygiene::{
    age_delta_meets, divergence_ratio, find_contradictions, oneline, parse_ymd_days, render_review,
    trim_date, MemoryView,
};
use context_brain::memory::searcher::{
    access_age, access_update, display_content, keyword_match, nothing_stored, recall, select,
    KeywordMatch, MemoryRow,
};
use context_brain::memory::store::{
    find_duplicate, jaccard, merged_content, save, tokenize, SaveError, SaveOutcome, SavePlan,
    StoredMemory,
};

fn bits(x: f32) -> u32 {
    x.to_bits()
}

fn stored(id: i64, category: &str, content: &str, similarity: f32) -> StoredMemory {
    StoredMemory {
        id,
        category: category.to_string(),
        content: content.to_string(),
        similarity: Some(bits(similarity)),
    }
}

fn row(id: i64, content: &str, category: &str, tags: &str) -> MemoryRow {
    MemoryRow {
        id,
        content: content.to_string(),
        category: category.to_string(),
        tags: tags.to_string(),
        created_at: "2024-05-01 10:00:00".to_string(),
    }
}

/// The score of a memory without the meaning of its text, by its place among all.
fn score(row: &MemoryRow, query: &str, place: usize, total: usize) -> f32 {
    let weight = f32::from_bits(scoring::MEMORY_KEYWORD_WEIGHT);
    let keyword = match keyword_match(&row.content, query) {
        KeywordMatch::Whole => weight,
        KeywordMatch::Words { matched, total } => weight * (matched as f32 / total as f32),
        KeywordMatch::Nothing => 0.0,
    };
    let recency = 1.0 - place as f32 / total as f32;
    keyword + f32::from_bits(scoring::MEMORY_RECENCY_WEIGHT) * 0.5 * recency
}

fn recall_all(rows: &[MemoryRow], query: &str, max_results: u32) -> (String, Vec<i64>) {
    let scores: Vec<f32> =
        rows.iter().enumerate().map(|(i, r)| score(r, query, i, rows.len())).collect();
    let patterns: Vec<u32> = scores.iter().map(|s| s.to_bits()).collect();
    let percents: Vec<String> = scores.iter().map(|s| format!("{:.0}", s * 100.0)).collect();
    let r = recall(query, rows, &patterns, &percents, max_results).unwrap();
    (r.text, r.accessed)
}

/// Saving a near-identical memory in the same category merges into the existing row instead of
/// creating a duplicate.
#[test]
fn dedupe_merges_same_category() {
    let first = save("We use JWT for authentication tokens", "decision", "auth", 0, &[]).unwrap();
    let first_id = match first.outcome(1) {
        SaveOutcome::Inserted(id) => id,
        other => panic!("expected Inserted on first save, got {:?}", other),
    };

    // Near-identical phrasing — should dedupe.
    let rows = [stored(first_id, "decision", "We use JWT for authentication tokens", 0.99)];
    let second =
        save("We use JWT for authentication tokens.", "decision", "auth", 1, &rows).unwrap();
    match second.outcome(2) {
        SaveOutcome::Merged(merged_into) => {
            assert_eq!(merged_into, first_id, "expected merge into the first row");
        }
        other => panic!("expected Merged outcome, got {:?}", other),
    }
    match second {
        SavePlan::Merge { content, .. } => assert_eq!(
            content,
            "We use JWT for authentication tokens\n— We use JWT for authentication tokens."
        ),
        other => panic!("expected a merge, got {:?}", other),
    }
}

/// Same content saved under a *different* category creates a new row but with a link pointing
/// back to the existing peer — for the review CLI.
#[test]
fn dedupe_links_cross_category() {
    let first = save("Pin tokio to 1.x for now", "decision", "deps", 0, &[]).unwrap();
    let first_id = match first.outcome(1) {
        SaveOutcome::Inserted(id) => id,
        other => panic!("expected Inserted, got {:?}", other),
    };

    // Same content, different category — should link rather than merge.
    let rows = [stored(first_id, "decision", "Pin tokio to 1.x for now", 1.0)];
    let second = save("Pin tokio to 1.x for now", "constraint", "deps,version", 1, &rows).unwrap();
    match second.outcome(2) {
        SaveOutcome::Linked { new_id, peer_id } => {
            assert_ne!(new_id, first_id, "new row should have a new id");
            assert_eq!(peer_id, first_id, "linked back to the original");
        }
        other => panic!("expected Linked outcome, got {:?}", other),
    }
}

/// A memory that's been recalled is marked as accessed.
#[test]
fn access_tracking_bumps_last_accessed_at() {
    let rows = [
        row(2, "We chose Postgres for primary storage", "decision", "db"),
        row(1, "Database migrations run on deploy", "ops", "deploy"),
    ];
    let (_, accessed) = recall_all(&rows, "deploy migration plan", 5);
    assert!(accessed.len() >= 1, "expected ≥1 row to be accessed, got {}", accessed.len());
    assert_eq!(accessed, vec![1]);
    assert_eq!(
        access_update(3),
        "UPDATE memories SET last_accessed_at = ?1 WHERE id IN (?2,?3,?4)"
    );
}

/// The contradiction review surfaces nothing when there's only one memory.
#[test]
fn contradiction_review_empty_below_two_memories() {
    // No memories at all.
    let pairs = find_contradictions(&[], &[], 10).unwrap();
    assert!(pairs.is_empty());
    let rendered = render_review(&pairs, &[]).unwrap();
    assert!(rendered.contains("No candidate contradictions"));
}

/// Memory recall ranks the keyword-matching entry highest among peers with no shared terms.
#[test]
fn memory_recall_ranks_match_above_unrelated() {
    let rows = [
        row(3, "Migrations run on deploy", "ops", "deploy"),
        row(2, "Use Redis for session caching", "decision", "cache"),
        row(1, "We chose JWT for authentication tokens", "decision", "auth,security"),
    ];
    let (out, _) = recall_all(&rows, "authentication token strategy", 5);

    let jwt_pos = out.find("JWT");
    let redis_pos = out.find("Redis");

    assert!(jwt_pos.is_some(), "expected JWT memory to surface in recall, got:\n{}", out);
    if let (Some(jp), Some(rp)) = (jwt_pos, redis_pos) {
        assert!(
            jp < rp,
            "expected JWT memory to outrank Redis memory for auth-token query, got:\n{}",
            out
        );
    }
}

#[test]
fn what_is_refused() {
    assert_eq!(save("", "c", "t", 0, &[]).unwrap_err(), SaveError::Empty);
    let large = "x".repeat(10241);
    let e = save(&large, "c", "t", 0, &[]).unwrap_err();
    assert_eq!(e, SaveError::TooLarge { bytes: 10241 });
    assert_eq!(e.message(), "Memory content too large (10.0KB). Max is 10KB.");
    assert!(save(&large[1..], "c", "t", 0, &[]).is_ok());
    let e = save("x", &"c".repeat(101), "t", 0, &[]).unwrap_err();
    assert_eq!(e.message(), "Category too long (max 100 chars)");
    let e = save("x", "c", &"t".repeat(501), 0, &[]).unwrap_err();
    assert_eq!(e.message(), "Tags too long (max 500 chars)");
    let e = save("x", "c", "t", 1000, &[]).unwrap_err();
    assert_eq!(
        e.message(),
        "Memory limit reached (1000/1000). Delete old memories before adding new ones."
    );
    assert!(matches!(save("x", "c", "t", 999, &[]), Ok(SavePlan::Insert)));
    assert_eq!(SaveError::Empty.message(), "Memory content cannot be empty");
}

#[test]
fn outcomes_say_what_happened() {
    assert_eq!(SaveOutcome::Inserted(7).message(), "Memory saved (id 7).");
    assert_eq!(
        SaveOutcome::Merged(7).message(),
        "Near-duplicate detected — merged into existing memory id 7."
    );
    assert_eq!(
        SaveOutcome::Linked { new_id: 9, peer_id: 7 }.message(),
        "Cross-category duplicate of memory id 7 — saved as id 9 with link."
    );
}

#[test]
fn templated_memories_are_no_duplicates() {
    let rows = [stored(1, "d", "Decision 1: pick option 1", 0.99)];
    assert_eq!(find_duplicate(&rows, "Decision 2: pick option 2"), None);
    assert_eq!(find_duplicate(&rows, "DECISION 1 - pick the option 1!"), Some(0));
}

#[test]
fn the_most_similar_duplicate_is_chosen() {
    let rows = [
        stored(1, "d", "use tabs", 0.5),
        stored(2, "d", "use tabs", 0.93),
        stored(3, "d", "use tabs", 0.97),
        stored(4, "d", "use tabs", 0.97),
    ];
    assert_eq!(find_duplicate(&rows, "use tabs"), Some(2));
    assert_eq!(find_duplicate(&rows[..1], "use tabs"), None);
    let unknown = [StoredMemory { similarity: None, ..stored(5, "d", "use tabs", 0.0) }];
    assert_eq!(find_duplicate(&unknown, "use tabs"), None);
}

#[test]
fn tokens_without_stop_words() {
    let t = tokenize("The Größe of A-1, and the größe");
    let list: Vec<&str> = (0..t.len()).map(|i| t.get(i)).collect();
    assert_eq!(list, vec!["größe", "1"]);
    let empty = tokenize("the of");
    assert_eq!(jaccard(&empty, &empty), (1, 1));
    assert_eq!(jaccard(&t, &tokenize("größe 2")), (1, 3));
}

#[test]
fn merging_twice_changes_nothing() {
    let once = merged_content("We use tabs", "never spaces");
    assert_eq!(once, "We use tabs\n— never spaces");
    assert_eq!(merged_content(&once, "never spaces"), once);
    assert_eq!(merged_content("We use tabs", "use"), "We use tabs");
}

#[test]
fn keywords_whatever_their_case() {
    assert_eq!(keyword_match("ÄPFEL und Birnen", "äpfel"), KeywordMatch::Whole);
    assert_eq!(
        keyword_match("Use Redis here", "redis cache  use"),
        KeywordMatch::Words { matched: 2, total: 3 }
    );
    assert_eq!(keyword_match("x", "  "), KeywordMatch::Nothing);
}

#[test]
fn selection_by_score() {
    let scores: Vec<u32> = [0.2f32, 0.9, 0.15, 0.9, f32::NAN].iter().map(|s| s.to_bits()).collect();
    assert_eq!(select(&scores[..4], 10), vec![1, 3, 0]);
    assert_eq!(select(&scores[..4], 2), vec![1, 3]);
    assert_eq!(select(&scores[4..], 2), Vec::<usize>::new());
    assert_eq!(select(&scores, 0), Vec::<usize>::new());
}

#[test]
fn how_memories_are_shown() {
    let rows = [row(1, "Use tabs", "style", "editor"), row(2, "Use spaces", "style", "")];
    let scores = [bits(0.5), bits(0.75)];
    let percents = ["50".to_string(), "75".to_string()];
    let r = recall("tabs", &rows, &scores, &percents, 5).unwrap();
    assert_eq!(
        r.text,
        "Memories:\n\n- [75%] [2024-05-01] [style] Use spaces\n- [50%] [2024-05-01] [style] Use tabs\n  Tags: editor\n"
    );
    assert_eq!(r.accessed, vec![2, 1]);
    let none = recall("tabs", &rows, &[bits(0.1), bits(0.0)], &percents, 5).unwrap();
    assert_eq!(none.text, "No relevant memories found for 'tabs'.\n");
    assert!(none.accessed.is_empty());
    let empty = recall("tabs", &[], &[], &[], 5).unwrap();
    assert_eq!(empty.text, "No memories stored yet.");
    assert_eq!(nothing_stored(), "No memories stored yet. Use save_memory to store context.");
}

#[test]
fn long_contents_are_cut_at_a_space() {
    let words = "word ".repeat(80);
    let shown = display_content(&words).unwrap();
    assert_eq!(shown, format!("{}...", &words[..299]));
    let solid = "x".repeat(301);
    assert_eq!(display_content(&solid).unwrap(), format!("{}...", &solid[..300]));
    assert_eq!(display_content(&solid[1..]).unwrap(), &solid[1..]);
    let split = format!("{}ü{}", "x".repeat(299), "y".repeat(10));
    assert_eq!(display_content(&split), None);
}

fn view(id: i64, content: &str, created_at: &str) -> MemoryView {
    MemoryView { id, content: content.to_string(), created_at: created_at.to_string() }
}

#[test]
fn contradictions_are_flagged_and_sorted() {
    let memories = [
        view(1, "We use tabs", "2024-01-01 09:00:00"),
        view(2, "Spaces everywhere", "2024-01-08 09:00:00"),
        view(3, "Nobody likes tabs", "2024-02-01 09:00:00"),
    ];
    let similarities = [vec![bits(0.99), bits(0.86)], vec![bits(0.9)], vec![]];
    let pairs = find_contradictions(&memories, &similarities, 10).unwrap();
    let ids: Vec<(i64, i64)> = pairs.iter().map(|p| (p.older_id, p.newer_id)).collect();
    // The first two are exactly seven days apart.
    assert_eq!(ids, vec![(2, 3), (1, 3)]);
    assert_eq!(find_contradictions(&memories, &similarities, 1).unwrap().len(), 1);
    let figures = [("0.90".to_string(), "88".to_string()), ("0.86".to_string(), "94".to_string())];
    let report = render_review(&pairs, &figures).unwrap();
    assert!(report.starts_with(
        "Candidate contradictions (2):\n\n[1] sim 0.90  divergence 88%\n  [2024-01-08] id 2 — Spaces everywhere\n  [2024-02-01] id 3 — Nobody likes tabs\n    → review these manually; this tool never deletes anything.\n\n[2] sim 0.86"
    ));
}

#[test]
fn no_contradiction_without_enough_difference() {
    let memories = [view(1, "abcdefghij", "2024-01-01"), view(2, "ABCDEFGHxx", "2024-03-01")];
    let close = [vec![bits(0.95)], vec![]];
    assert!(find_contradictions(&memories, &close, 10).unwrap().is_empty());
    let more = [view(1, "abcdefghij", "2024-01-01"), view(2, "abcdefgxxx", "2024-03-01")];
    assert_eq!(find_contradictions(&more, &close, 10).unwrap().len(), 1);
    let far = [vec![bits(0.84)], vec![]];
    assert!(find_contradictions(&more, &far, 10).unwrap().is_empty());
}

#[test]
fn dates_and_distances() {
    assert_eq!(parse_ymd_days("2024-03-05T10:00"), Some(Some(738_950)));
    assert_eq!(parse_ymd_days("0001-01-01"), Some(Some(1)));
    assert_eq!(parse_ymd_days("2023-12-31"), Some(Some(738_885)));
    assert_eq!(parse_ymd_days("2024-01-01"), Some(Some(738_886)));
    assert_eq!(parse_ymd_days("2023-13-01"), Some(Some(738_886)));
    assert_eq!(age_delta_meets("2023-02-26", "2023-03-04", 7), Some(false));
    assert_eq!(age_delta_meets("2023-02-26", "2023-03-05", 7), Some(true));
    assert_eq!(parse_ymd_days("2024-3-5"), Some(None));
    assert_eq!(parse_ymd_days("not a date!"), Some(None));
    assert_eq!(parse_ymd_days("202ä-03-05"), None);
    assert_eq!(age_delta_meets("2024-01-01", "2024-01-09", 8), Some(true));
    assert_eq!(age_delta_meets("2024-01-09", "2024-01-02", 8), Some(false));
    assert_eq!(age_delta_meets("?", "2024-01-09", 8), Some(true));
    assert_eq!(trim_date("2024-05-01 10:00"), Some("2024-05-01".to_string()));
    assert_eq!(trim_date("May"), Some("May".to_string()));
    assert_eq!(trim_date("2024-05-0ü"), None);
}

#[test]
fn six_days_over_the_end_of_february_are_no_contradiction() {
    let similar = [vec![bits(0.95)], vec![]];
    let near = [view(1, "Use tabs", "2023-02-26"), view(2, "Never do", "2023-03-04")];
    assert!(find_contradictions(&near, &similar, 10).unwrap().is_empty());
    let far = [view(1, "Use tabs", "2023-02-24"), view(2, "Never do", "2023-03-04")];
    assert_eq!(find_contradictions(&far, &similar, 10).unwrap().len(), 1);
}

#[test]
fn divergence_counts_places() {
    assert_eq!(divergence_ratio("Tabs", "tabs"), (0, 4));
    assert_eq!(divergence_ratio("tab", "tap here"), (6, 8));
    assert_eq!(divergence_ratio("", ""), (0, 0));
    assert_eq!(divergence_ratio("ä", "Ä"), (1, 1));
}

#[test]
fn one_line_of_a_text() {
    assert_eq!(oneline("a\nb"), "a b");
    let long = "ü".repeat(201);
    assert_eq!(oneline(&long), format!("{}...", "ü".repeat(200)));
    assert_eq!(oneline(&"ü".repeat(200)), "ü".repeat(200));
}

#[test]
fn ages_of_recalled_memories() {
    assert_eq!(access_age(100, None), None);
    assert_eq!(access_age(100, Some(40)), Some(60));
    assert_eq!(access_age(100, Some(140)), Some(0));
    assert_eq!(access_age(i64::MAX, Some(i64::MIN)), Some(u64::MAX));
}

#[test]
fn case_and_closing_marks_make_no_difference() {
    let rows = [stored(7, "decision", "Use JWT for Tokens", 0.95)];
    match save("use jwt FOR tokens!?", "decision", "", 1, &rows).unwrap() {
        SavePlan::Merge { id, content } => {
            assert_eq!(id, 7);
            assert_eq!(content, "Use JWT for Tokens\n— use jwt FOR tokens!?");
        }
        other => panic!("expected a merge, got {:?}", other),
    }
    let far = [stored(7, "decision", "Use JWT for Tokens", 0.5)];
    assert!(matches!(save("use jwt FOR tokens!?", "decision", "", 1, &far).unwrap(), SavePlan::Insert));
}
