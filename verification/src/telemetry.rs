//! Local-only tool-call telemetry.
//!
//! Every tool invocation is recorded in the project's own database. Raw queries are never
//! stored — only a 16-digit FNV-1a hash, so that equal queries group together and the text
//! itself is not kept.

use crate::hash;
use crate::text;
use vstd::prelude::*;

verus! {

/// Hash a query to sixteen hexadecimal digits, as the content of files is hashed.
pub fn fnv1a_16(s: &str) -> (r: String)
    ensures
        r@ == hash::spec_digest(s@),
{
    hash::digest(s)
}

/// What is recorded of one tool call.
#[derive(Debug)]
pub struct ToolCall {
    pub tool_name: String,
    pub query_hash: Option<String>,
    pub query_length: Option<i64>,
    pub result_count: Option<i64>,
    pub latency_ms: i64,
}

/// What is recorded of one tool call: of a query, its hash and the number of its characters.
pub fn record_tool_call(
    tool_name: &str,
    query: Option<&str>,
    result_count: Option<i64>,
    latency_ms: i64,
) -> (r: ToolCall)
    ensures
        r.tool_name@ == tool_name@,
        match query {
            Some(q) => r.query_hash matches Some(h) && h@ == hash::spec_digest(q@)
                && r.query_length == Some(q@.len() as i64),
            None => r.query_hash is None && r.query_length is None,
        },
        r.result_count == result_count,
        r.latency_ms == latency_ms,
{
    let (query_hash, query_length) = match query {
        Some(q) => {
            let length: usize = q.unicode_len();
            (Some(fnv1a_16(q)), Some(length as i64))
        },
        None => (None, None),
    };
    ToolCall { tool_name: text::owned(tool_name), query_hash, query_length, result_count, latency_ms }
}

/// The calls of one tool, added up.
#[derive(Debug)]
pub struct ToolStats {
    pub tool_name: String,
    pub call_count: i64,
    /// The average latency in milliseconds, as the bit pattern of a double-precision number.
    pub avg_latency_ms: u64,
    pub empty_result_count: i64,
}

/// The calls of a project, added up.
#[derive(Debug)]
pub struct StatsSummary {
    pub project_path: String,
    pub total_calls: i64,
    pub by_tool: Vec<ToolStats>,
    /// The hashes of queries that found nothing, with how often they came.
    pub top_empty_query_hashes: Vec<(String, i64)>,
}

} // verus!
