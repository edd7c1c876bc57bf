//! `stats` subcommand: the local telemetry summary of a project, as it is printed.

use crate::context::file_summarizer;
use crate::numerals;
use crate::telemetry::{StatsSummary, ToolStats};
use crate::text;
use crate::width;
use vstd::prelude::*;

verus! {

/// The first second of a window that ends now and is so many days long, in seconds since 1970;
/// zero where all time is meant.
pub fn since_ts(now: i64, days: Option<u32>) -> (r: i64)
    requires
        now >= 0,
    ensures
        r == (match days {
            Some(d) => now - d * 86_400,
            None => 0,
        }),
{
    match days {
        Some(d) => now - (d as i64) * 86_400,
        None => 0,
    }
}

/// So many spaces.
pub open spec fn spaces(n: int) -> Seq<char> {
    if n <= 0 {
        Seq::empty()
    } else {
        Seq::new(n as nat, |i: int| ' ')
    }
}

/// A text with spaces behind it up to a width.
pub open spec fn pad_right(s: Seq<char>, width: int) -> Seq<char> {
    s + spaces(width - s.len())
}

/// A text with spaces in front of it up to a width.
pub open spec fn pad_left(s: Seq<char>, width: int) -> Seq<char> {
    spaces(width - s.len()) + s
}

fn gap(s: &str, width: usize) -> (r: String)
    ensures
        r@ == spaces(width - s@.len()),
{
    let length: usize = s.unicode_len();
    let n: usize = if length < width {
        width - length
    } else {
        0
    };
    let mut out = String::new();
    assert(out@ =~= Seq::empty());
    for i in 0..n
        invariant
            out@ == Seq::new(i as nat, |i: int| ' '),
    {
        let ghost before = out@;
        out.push(' ');
        assert(out@ =~= Seq::new((i + 1) as nat, |i: int| ' '));
    }
    assert(out@ =~= spaces(width - s@.len()));
    out
}

fn padded_right(s: &str, width: usize) -> (r: String)
    ensures
        r@ == pad_right(s@, width as int),
{
    text::owned(s).concat(gap(s, width).as_str())
}

fn padded_left(s: &str, width: usize) -> (r: String)
    ensures
        r@ == pad_left(s@, width as int),
{
    gap(s, width).concat(s)
}

/// The line of one tool, given the texts of its average latency and of the part of its calls
/// that found nothing, in percent.
pub open spec fn tool_line(t: ToolStats, latency: Seq<char>, empty: Seq<char>) -> Seq<char> {
    "  "@ + pad_right(t.tool_name@, 20) + " "@ + pad_left(
        numerals::spec_signed(t.call_count as int),
        5,
    ) + "  avg "@ + pad_left(latency, 5) + "ms   "@ + pad_left(empty, 3) + "% empty results\n"@
}

/// The lines of the first `n` tools.
pub open spec fn tool_lines(tools: Seq<ToolStats>, figures: Seq<(String, String)>, n: int) -> Seq<char>
    decreases n,
{
    if n <= 0 {
        Seq::empty()
    } else {
        tool_lines(tools, figures, n - 1) + tool_line(
            tools[n - 1],
            figures[n - 1].0@,
            figures[n - 1].1@,
        )
    }
}

/// The first eight bytes of a hash, unless they end inside a character.
pub open spec fn short_hash(h: Seq<char>) -> Option<Seq<char>> {
    if width::bytes_of(h) <= 8 {
        Some(h)
    } else if width::boundary(h, 8) {
        Some(h.take(width::fitting(h, 8) as int))
    } else {
        None
    }
}

/// The lines of the first `n` hashes of queries that found nothing.
pub open spec fn hash_lines(hashes: Seq<(String, i64)>, n: int) -> Option<Seq<char>>
    decreases n,
{
    if n <= 0 {
        Some("\nTop empty-result query hashes (consider tuning):\n"@)
    } else {
        match (hash_lines(hashes, n - 1), short_hash(hashes[n - 1].0@)) {
            (Some(before), Some(h)) => Some(
                before + "  "@ + h + "    "@ + numerals::spec_signed(hashes[n - 1].1 as int)
                    + " calls\n"@,
            ),
            _ => None,
        }
    }
}

/// The window that a report covers.
pub open spec fn window(days: Option<u32>) -> Seq<char> {
    match days {
        Some(d) => "Last "@ + numerals::spec_decimal(d as nat) + " day(s)"@,
        None => "All time"@,
    }
}

/// The beginning of a report.
pub open spec fn heading(s: StatsSummary, days: Option<u32>) -> Seq<char> {
    window(days) + " — "@ + s.project_path@ + "\n─────────────────────────────────\nTotal tool calls: "@
        + numerals::spec_signed(s.total_calls as int) + "\n\n"@
}

/// The report of a summary, given for each tool the texts of its average latency and of the
/// part of its calls that found nothing.
pub open spec fn spec_render(
    s: StatsSummary,
    figures: Seq<(String, String)>,
    days: Option<u32>,
) -> Option<Seq<char>> {
    let tools = heading(s, days) + tool_lines(s.by_tool@, figures, s.by_tool@.len() as int);
    let hashes = s.top_empty_query_hashes@;
    if s.by_tool@.len() == 0 {
        Some(
            heading(s, days)
                + "No tool calls recorded yet. Start using context-brain via MCP, then re-run `stats`.\n"@,
        )
    } else if hashes.len() == 0 {
        Some(tools)
    } else {
        match hash_lines(hashes, hashes.len() as int) {
            Some(lines) => Some(tools + lines),
            None => None,
        }
    }
}

proof fn lemma_hash_lines_none(hashes: Seq<(String, i64)>, n: int, m: int)
    requires
        0 <= n <= m,
        hash_lines(hashes, n) is None,
    ensures
        hash_lines(hashes, m) is None,
    decreases m,
{
    if n < m {
        lemma_hash_lines_none(hashes, n, m - 1);
    }
}

fn show_hash(h: &str) -> (r: Option<String>)
    ensures
        file_summarizer::text_of(r) == short_hash(h@),
{
    if width::byte_len(h) <= 8 {
        return Some(text::owned(h));
    }
    if !width::is_boundary(h, 8) {
        return None;
    }
    let chars = text::chars_of(h);
    Some(text::string_of(width::prefix(chars.as_slice(), 8)))
}

fn show_hashes(hashes: &Vec<(String, i64)>) -> (r: Option<String>)
    ensures
        file_summarizer::text_of(r) == hash_lines(hashes@, hashes@.len() as int),
{
    let mut out = text::owned("\nTop empty-result query hashes (consider tuning):\n");
    for i in 0..hashes.len()
        invariant
            hash_lines(hashes@, i as int) == Some(out@),
    {
        match show_hash(hashes[i].0.as_str()) {
            Some(h) => {
                out = out.concat("  ").concat(h.as_str()).concat("    ").concat(
                    numerals::signed(hashes[i].1).as_str(),
                ).concat(" calls\n");
            },
            None => {
                proof {
                    lemma_hash_lines_none(hashes@, i + 1, hashes@.len() as int);
                }
                return None;
            },
        }
    }
    Some(out)
}

/// A human-readable stats block, scoped to the last `days` days (None = all-time). Each tool
/// comes with the texts of its average latency and of the part of its calls that found
/// nothing. There is no report where a hash would be cut inside a character.
pub fn render(s: &StatsSummary, figures: &[(String, String)], days: Option<u32>) -> (r:
    Option<String>)
    requires
        figures@.len() == s.by_tool@.len(),
    ensures
        file_summarizer::text_of(r) == spec_render(*s, figures@, days),
{
    let span = match days {
        Some(d) => text::owned("Last ").concat(numerals::decimal(d as u64).as_str()).concat(
            " day(s)",
        ),
        None => text::owned("All time"),
    };
    let head = span.concat(" — ").concat(s.project_path.as_str()).concat(
        "\n─────────────────────────────────\nTotal tool calls: ",
    ).concat(numerals::signed(s.total_calls).as_str()).concat("\n\n");
    if s.by_tool.len() == 0 {
        return Some(
            head.concat(
                "No tool calls recorded yet. Start using context-brain via MCP, then re-run `stats`.\n",
            ),
        );
    }
    let mut lines = String::new();
    assert(lines@ =~= Seq::empty());
    for i in 0..s.by_tool.len()
        invariant
            figures@.len() == s.by_tool@.len(),
            lines@ == tool_lines(s.by_tool@, figures@, i as int),
    {
        let t = &s.by_tool[i];
        let line = text::owned("  ").concat(
            padded_right(t.tool_name.as_str(), 20).as_str(),
        ).concat(" ").concat(
            padded_left(numerals::signed(t.call_count).as_str(), 5).as_str(),
        ).concat("  avg ").concat(padded_left(figures[i].0.as_str(), 5).as_str()).concat(
            "ms   ",
        ).concat(padded_left(figures[i].1.as_str(), 3).as_str()).concat("% empty results\n");
        lines = lines.concat(line.as_str());
    }
    let tools = head.concat(lines.as_str());
    if s.top_empty_query_hashes.len() == 0 {
        return Some(tools);
    }
    match show_hashes(&s.top_empty_query_hashes) {
        Some(hashes) => Some(tools.concat(hashes.as_str())),
        None => None,
    }
}

/// A report has a line for each tool, in their order: its name and how often it was called, and the
/// texts of its latency and of its empty results, each in a column of its own.
pub proof fn law_tools_have_lines(tools: Seq<ToolStats>, figures: Seq<(String, String)>, n: int)
    requires
        0 <= n < tools.len(),
    ensures
        tool_lines(tools, figures, 0) == Seq::<char>::empty(),
        ({
            let t = tools[n];
            let calls = numerals::spec_signed(t.call_count as int);
            tool_lines(tools, figures, n + 1) == tool_lines(tools, figures, n) + ("  "@ + pad_right(
                t.tool_name@,
                20,
            ) + " "@ + pad_left(calls, 5) + "  avg "@ + pad_left(figures[n].0@, 5) + "ms   "@
                + pad_left(figures[n].1@, 3) + "% empty results\n"@)
        }),
{
}

/// A text in a column is filled up with spaces, behind it or in front of it, and is never cut.
pub proof fn law_columns(s: Seq<char>, width: int)
    ensures
        text::begins(pad_right(s, width), s),
        text::ends(pad_left(s, width), s),
        s.len() <= width ==> pad_right(s, width).len() == width && pad_left(s, width).len() == width,
        s.len() >= width ==> pad_right(s, width) == s && pad_left(s, width) == s,
        forall|i: int| s.len() <= i < width ==> #[trigger] pad_right(s, width)[i] == ' ',
        forall|i: int| 0 <= i < width - s.len() ==> #[trigger] pad_left(s, width)[i] == ' ',
{
    let r = pad_right(s, width);
    let l = pad_left(s, width);
    assert(r.subrange(0, s.len() as int) =~= s);
    assert(l.subrange(l.len() - s.len(), l.len() as int) =~= s);
    if s.len() >= width {
        assert(r =~= s);
        assert(l =~= s);
    }
}

/// A report says which days it covers, for which project, and how many calls there were.
pub proof fn law_reports_are_headed(s: StatsSummary, figures: Seq<(String, String)>, d: u32)
    ensures
        window(None) == "All time"@,
        window(Some(d)) == "Last "@ + numerals::spec_decimal(d as nat) + " day(s)"@,
        spec_render(s, figures, Some(d)) matches Some(t) ==> text::begins(
            t,
            "Last "@ + numerals::spec_decimal(d as nat) + " day(s)"@ + " — "@ + s.project_path@
                + "\n─────────────────────────────────\nTotal tool calls: "@ + numerals::spec_signed(
                s.total_calls as int,
            ) + "\n\n"@,
        ),
{
    let h = heading(s, Some(d));
    match spec_render(s, figures, Some(d)) {
        Some(t) => {
            assert(t.subrange(0, h.len() as int) =~= h);
        },
        None => {},
    }
}

/// Of each hash of a query that found nothing the first eight characters are shown, and how often it
/// came.
pub proof fn law_hashes_are_shown(hashes: Seq<(String, i64)>, n: int)
    requires
        0 <= n < hashes.len(),
        text::ascii(hashes[n].0@),
        hash_lines(hashes, n) is Some,
    ensures
        hash_lines(hashes, n + 1) == Some(
            hash_lines(hashes, n)->0 + ("  "@ + (if hashes[n].0@.len() <= 8 {
                hashes[n].0@
            } else {
                hashes[n].0@.take(8)
            }) + "    "@ + numerals::spec_signed(hashes[n].1 as int) + " calls\n"@),
        ),
{
    let h = hashes[n].0@;
    width::lemma_ascii_bytes(h);
    if h.len() > 8 {
        width::lemma_ascii_fitting(h, 8);
    }
    let before = hash_lines(hashes, n)->0;
    let short = short_hash(h)->0;
    let calls = numerals::spec_signed(hashes[n].1 as int);
    assert(before + "  "@ + short + "    "@ + calls + " calls\n"@ =~= before + ("  "@ + short
        + "    "@ + calls + " calls\n"@));
}

} // verus!
