//! Scoring constants used across search, relevance scoring, and memory recall.
//!
//! Weights and thresholds are single-precision numbers, kept as their bit patterns; the
//! number itself is given with each.

use crate::float32;
use vstd::prelude::*;

verus! {

// ── Search scoring (search_codebase) ─────────────────────────────────

/// Bonus for exact symbol name match in search results: 5.0.
pub const SEARCH_EXACT_NAME_BONUS: u32 = 0x40a0_0000;

/// Bonus for substring symbol name match: 3.0.
pub const SEARCH_SUBSTRING_NAME_BONUS: u32 = 0x4040_0000;

/// Minimum cosine similarity for symbol embedding to count: 0.3.
pub const SEARCH_SYMBOL_SIM_THRESHOLD: u32 = 0x3e99_999a;

/// Multiplier applied to symbol embedding similarity score: 5.0.
pub const SEARCH_SYMBOL_SIM_WEIGHT: u32 = 0x40a0_0000;

/// Minimum cosine similarity for file embedding to count: 0.35.
pub const SEARCH_FILE_SIM_THRESHOLD: u32 = 0x3eb3_3333;

/// Multiplier applied to file embedding similarity score: 3.0.
pub const SEARCH_FILE_SIM_WEIGHT: u32 = 0x4040_0000;

/// Bonus for file path matching the query: 4.0.
pub const SEARCH_PATH_MATCH_BONUS: u32 = 0x4080_0000;

/// Maximum boost from import-centrality ranking: 0.5, so that a file that many others import
/// cannot outrank an exact name match.
pub const SEARCH_CENTRALITY_MAX_BOOST: u32 = 0x3f00_0000;

/// How many files a search keeps track of.
pub const MAX_SEARCH_MATCHES: usize = 1000;

// ── Relevance scoring (file_summarizer) ──────────────────────────────

/// Threshold above which a symbol gets full code body included: 0.25.
pub const RELEVANCE_HIGH_THRESHOLD: u32 = 0x3e80_0000;

/// Threshold above which a symbol gets signature included (below high): 0.05.
pub const RELEVANCE_MEDIUM_THRESHOLD: u32 = 0x3d4c_cccd;

/// Minimum similarity for embedding to contribute to relevance score: 0.3.
pub const RELEVANCE_SIM_THRESHOLD: u32 = 0x3e99_999a;

/// The budget below which no further symbol is shown.
pub const MIN_BUDGET_TOKENS: u32 = 20;

/// How many lines of a long body are shown.
pub const MAX_BODY_LINES_IN_SUMMARY: usize = 30;

// ── Memory recall ────────────────────────────────────────────────────

/// Minimum score for a memory to be included in recall results: 0.15.
pub const MEMORY_MIN_SCORE: u32 = 0x3e19_999a;

/// Share of semantic similarity in a memory's score: 0.6.
pub const MEMORY_SEMANTIC_WEIGHT: u32 = 0x3f19_999a;

/// Share of keyword matches in a memory's score: 0.3.
pub const MEMORY_KEYWORD_WEIGHT: u32 = 0x3e99_999a;

/// Share of recency in a memory's score: 0.1.
pub const MEMORY_RECENCY_WEIGHT: u32 = 0x3dcc_cccd;

/// How many memories a recall looks at, newest first.
pub const MAX_RECALL_CANDIDATES: usize = 500;

// ── Memory hygiene ───────────────────────────────────────────────────

/// How many memories a project may have.
pub const MAX_MEMORIES: i64 = 1000;

/// How many bytes a memory may have.
pub const MAX_MEMORY_SIZE: usize = 10240;

/// Similarity from which two memories may be duplicates: 0.92.
pub const DEDUPE_THRESHOLD: u32 = 0x3f6b_851f;

/// The share of tokens that duplicates have in common, in tenths.
pub const DEDUPE_TOKEN_OVERLAP_TENTHS: usize = 7;

/// An exact name match is worth more than a partial one, thresholds are ordered, and every
/// threshold is a number between zero and one.
pub proof fn law_scoring_constants_are_ordered()
    ensures
        float32::below(SEARCH_SUBSTRING_NAME_BONUS, SEARCH_EXACT_NAME_BONUS),
        float32::below(RELEVANCE_MEDIUM_THRESHOLD, RELEVANCE_HIGH_THRESHOLD),
        float32::below(0, RELEVANCE_MEDIUM_THRESHOLD),
        float32::below(0, MEMORY_MIN_SCORE),
        float32::below(MEMORY_MIN_SCORE, 0x3f80_0000),
        float32::below(SEARCH_SYMBOL_SIM_THRESHOLD, SEARCH_FILE_SIM_THRESHOLD),
        float32::below(SEARCH_FILE_SIM_THRESHOLD, 0x3f80_0000),
        float32::below(DEDUPE_THRESHOLD, 0x3f80_0000),
{
}

/// The numbers that scores and limits are made of, as bit patterns where they are single-precision
/// numbers.
pub proof fn law_scoring_constants()
    ensures
        SEARCH_EXACT_NAME_BONUS == 0x40a0_0000 && SEARCH_SUBSTRING_NAME_BONUS == 0x4040_0000,
        SEARCH_SYMBOL_SIM_THRESHOLD == 0x3e99_999a && SEARCH_SYMBOL_SIM_WEIGHT == 0x40a0_0000,
        SEARCH_FILE_SIM_THRESHOLD == 0x3eb3_3333 && SEARCH_FILE_SIM_WEIGHT == 0x4040_0000,
        SEARCH_PATH_MATCH_BONUS == 0x4080_0000 && SEARCH_CENTRALITY_MAX_BOOST == 0x3f00_0000,
        RELEVANCE_HIGH_THRESHOLD == 0x3e80_0000 && RELEVANCE_MEDIUM_THRESHOLD == 0x3d4c_cccd,
        RELEVANCE_SIM_THRESHOLD == 0x3e99_999a && MEMORY_MIN_SCORE == 0x3e19_999a,
        MEMORY_SEMANTIC_WEIGHT == 0x3f19_999a && MEMORY_KEYWORD_WEIGHT == 0x3e99_999a,
        MEMORY_RECENCY_WEIGHT == 0x3dcc_cccd && DEDUPE_THRESHOLD == 0x3f6b_851f,
        MAX_SEARCH_MATCHES == 1000 && MIN_BUDGET_TOKENS == 20 && MAX_BODY_LINES_IN_SUMMARY == 30,
        MAX_RECALL_CANDIDATES == 500 && MAX_MEMORIES == 1000 && MAX_MEMORY_SIZE == 10 * 1024,
        DEDUPE_TOKEN_OVERLAP_TENTHS == 7,
{
}

} // verus!
