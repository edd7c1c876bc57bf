//! Recalling memories: how well a memory matches a query, which memories are shown, and how.

use crate::context::file_summarizer;
use crate::context::scoring;
use crate::float32;
use crate::memory::hygiene;
use crate::numerals;
use crate::sort;
use crate::text;
use crate::width;
use vstd::prelude::*;
use vstd::slice::slice_subrange;

verus! {

// ── Keyword match ────────────────────────────────────────────────────

/// How the words of a query match the content of a memory.
#[derive(Debug, Clone, Copy, PartialEq, Eq, Structural)]
pub enum KeywordMatch {
    /// The content holds the whole query.
    Whole,
    /// The content holds some of the query's words.
    Words { matched: usize, total: usize },
    /// The query has no words.
    Nothing,
}

/// How many words occur in a text.
pub open spec fn words_in(words: Seq<Seq<char>>, content: Seq<char>) -> nat
    decreases words.len(),
{
    if words.len() == 0 {
        0
    } else {
        words_in(words.drop_last(), content) + if text::has(content, words.last()) {
            1nat
        } else {
            0
        }
    }
}

/// How a query matches a content, both in lower case.
pub open spec fn spec_keyword_match(content: Seq<char>, query: Seq<char>) -> KeywordMatch {
    let words = text::spec_words(query);
    if text::has(content, query) {
        KeywordMatch::Whole
    } else if words.len() > 0 {
        KeywordMatch::Words {
            matched: words_in(words, content) as usize,
            total: words.len() as usize,
        }
    } else {
        KeywordMatch::Nothing
    }
}

/// How a query matches a content, both in lower case.
pub fn keyword_match_lower(content: &str, query: &str) -> (r: KeywordMatch)
    ensures
        r == spec_keyword_match(content@, query@),
{
    if text::str_contains(content, query) {
        return KeywordMatch::Whole;
    }
    let chars = text::chars_of(query);
    let haystack = text::chars_of(content);
    let words = text::words(chars.as_slice());
    let ghost all = text::slices(words@);
    let total: usize = words.len();
    if total == 0 {
        return KeywordMatch::Nothing;
    }
    let mut matched: usize = 0;
    assert(all.take(0) =~= Seq::empty());
    for i in 0..total
        invariant
            haystack@ == content@,
            all == text::slices(words@),
            total == words@.len(),
            matched <= i,
            matched == words_in(all.take(i as int), content@),
    {
        proof {
            assert(all.take(i + 1).drop_last() =~= all.take(i as int));
            assert(all.take(i + 1).last() == words@[i as int]@);
        }
        if text::find_from(haystack.as_slice(), words[i], 0).is_some() {
            matched = matched + 1;
        }
    }
    assert(all.take(all.len() as int) =~= all);
    KeywordMatch::Words { matched, total }
}

/// How a query matches the content of a memory, whatever the case of either.
pub fn keyword_match(content: &str, query: &str) -> (r: KeywordMatch)
    ensures
        r == spec_keyword_match(text::lowercase_of(content@), text::lowercase_of(query@)),
{
    let content_lower = content.to_lowercase();
    let query_lower = query.to_lowercase();
    keyword_match_lower(content_lower.as_str(), query_lower.as_str())
}

/// How many seconds ago a memory was recalled last, if it ever was; none where that is yet to
/// come.
pub fn access_age(now: i64, last_accessed_at: Option<i64>) -> (r: Option<u64>)
    ensures
        r == (match last_accessed_at {
            Some(ts) => Some(
                if now >= ts {
                    (now - ts) as u64
                } else {
                    0u64
                },
            ),
            None => None,
        }),
{
    match last_accessed_at {
        Some(ts) => {
            let age: i128 = now as i128 - ts as i128;
            if age >= 0 {
                Some(age as u64)
            } else {
                Some(0)
            }
        },
        None => None,
    }
}

// ── Selection ────────────────────────────────────────────────────────

/// The places of a list whose scores are above the least score that is shown.
pub open spec fn relevant(places: Seq<usize>, scores: Seq<u32>) -> Seq<usize>
    decreases places.len(),
{
    if places.len() == 0 {
        Seq::empty()
    } else if float32::below(scoring::MEMORY_MIN_SCORE, scores[places.last() as int]) {
        relevant(places.drop_last(), scores).push(places.last())
    } else {
        relevant(places.drop_last(), scores)
    }
}

/// Whether `r` are the places of the memories that are shown: of the best `max_results`, those
/// with more than the least score, the best first and level ones as they stand.
pub open spec fn selects(scores: Seq<u32>, max_results: u32, r: Seq<usize>) -> bool {
    exists|order: Seq<usize>| #[trigger]
        sort::sorts(file_summarizer::score_keys(scores), order) && r == relevant(
            text::first_n(order, max_results as int),
            scores,
        )
}

/// The places of the memories that are shown, the best first.
pub fn select(scores: &[u32], max_results: u32) -> (r: Vec<usize>)
    ensures
        selects(scores@, max_results, r@),
        r@.len() <= max_results,
        forall|i: int| 0 <= i < r@.len() ==> #[trigger] r@[i] < scores@.len(),
{
    let order = file_summarizer::order_by_score(scores);
    let most: usize = max_results as usize;
    let n: usize = if order.len() <= most {
        order.len()
    } else {
        most
    };
    let ghost best = text::first_n(order@, max_results as int);
    assert(best =~= order@.take(n as int));
    let mut out: Vec<usize> = Vec::new();
    assert(order@.take(0) =~= Seq::empty());
    for i in 0..n
        invariant
            n <= order@.len(),
            sort::sorts(file_summarizer::score_keys(scores@), order@),
            out@ == relevant(order@.take(i as int), scores@),
            out@.len() <= i,
            forall|k: int| 0 <= k < out@.len() ==> #[trigger] out@[k] < scores@.len(),
    {
        proof {
            assert(order@.take(i + 1).drop_last() =~= order@.take(i as int));
            assert(order@.take(i + 1).last() == order@[i as int]);
        }
        let place: usize = order[i];
        if float32::less(scoring::MEMORY_MIN_SCORE, scores[place]) {
            out.push(place);
        }
    }
    out
}

// ── Presentation ─────────────────────────────────────────────────────

/// A stored memory as recall reads it.
#[derive(Debug)]
pub struct MemoryRow {
    pub id: i64,
    pub content: String,
    pub category: String,
    pub tags: String,
    pub created_at: String,
}

/// The content of a memory as it is shown: no more than three hundred bytes, cut at the last
/// space before them. There is no such cut where that byte lies inside a character.
pub open spec fn spec_display_content(content: Seq<char>) -> Option<Seq<char>> {
    if width::bytes_of(content) <= 300 {
        Some(content)
    } else if !width::boundary(content, 300) {
        None
    } else {
        let front = content.take(width::fitting(content, 300) as int);
        match text::spec_rfind(front, ' ') {
            Some(i) => Some(front.take(i) + "..."@),
            None => Some(front + "..."@),
        }
    }
}

/// The content of a memory as it is shown.
pub fn display_content(content: &str) -> (r: Option<String>)
    ensures
        file_summarizer::text_of(r) == spec_display_content(content@),
{
    if width::byte_len(content) <= 300 {
        return Some(text::owned(content));
    }
    if !width::is_boundary(content, 300) {
        return None;
    }
    let chars = text::chars_of(content);
    let front = width::prefix(chars.as_slice(), 300);
    let cut: usize = match text::rfind(front, ' ') {
        Some(i) => i,
        None => front.len(),
    };
    let kept = slice_subrange(front, 0, cut);
    assert(kept@ =~= front@.take(cut as int));
    assert(front@.take(front@.len() as int) =~= front@);
    Some(text::string_of(kept).concat("..."))
}

/// The lines that show a memory, given the text of its score in percent.
pub open spec fn spec_memory_lines(row: MemoryRow, percent: Seq<char>) -> Option<Seq<char>> {
    match (hygiene::spec_trim_date(row.created_at@), spec_display_content(row.content@)) {
        (Some(date), Some(content)) => {
            let line = "- ["@ + percent + "%] ["@ + date + "] ["@ + row.category@ + "] "@ + content
                + "\n"@;
            if row.tags@.len() > 0 {
                Some(line + "  Tags: "@ + row.tags@ + "\n"@)
            } else {
                Some(line)
            }
        },
        _ => None,
    }
}

fn memory_lines(row: &MemoryRow, percent: &str) -> (r: Option<String>)
    ensures
        file_summarizer::text_of(r) == spec_memory_lines(*row, percent@),
{
    match (hygiene::trim_date(row.created_at.as_str()), display_content(row.content.as_str())) {
        (Some(date), Some(content)) => {
            let line = text::owned("- [").concat(percent).concat("%] [").concat(
                date.as_str(),
            ).concat("] [").concat(row.category.as_str()).concat("] ").concat(
                content.as_str(),
            ).concat("\n");
            if row.tags.as_str().unicode_len() > 0 {
                Some(line.concat("  Tags: ").concat(row.tags.as_str()).concat("\n"))
            } else {
                Some(line)
            }
        },
        _ => None,
    }
}

/// The lines that show the memories at given places.
pub open spec fn spec_all_lines(
    rows: Seq<MemoryRow>,
    percents: Seq<Seq<char>>,
    places: Seq<usize>,
) -> Option<Seq<char>>
    decreases places.len(),
{
    if places.len() == 0 {
        Some("Memories:\n\n"@)
    } else {
        let k = places.last() as int;
        match (
            spec_all_lines(rows, percents, places.drop_last()),
            spec_memory_lines(rows[k], percents[k]),
        ) {
            (Some(before), Some(lines)) => Some(before + lines),
            _ => None,
        }
    }
}

proof fn lemma_all_lines_none(
    rows: Seq<MemoryRow>,
    percents: Seq<Seq<char>>,
    places: Seq<usize>,
    n: int,
)
    requires
        0 <= n <= places.len(),
        spec_all_lines(rows, percents, places.take(n)) is None,
    ensures
        spec_all_lines(rows, percents, places) is None,
    decreases places.len(),
{
    if n == places.len() {
        assert(places.take(n) =~= places);
    } else {
        assert(places.drop_last().take(n) =~= places.take(n));
        lemma_all_lines_none(rows, percents, places.drop_last(), n);
    }
}

/// The answer to a recall that shows the memories at given places.
pub open spec fn spec_answer(
    query: Seq<char>,
    rows: Seq<MemoryRow>,
    percents: Seq<Seq<char>>,
    places: Seq<usize>,
) -> Option<Seq<char>> {
    if rows.len() == 0 {
        Some("No memories stored yet."@)
    } else if places.len() == 0 {
        Some("No relevant memories found for '"@ + query + "'.\n"@)
    } else {
        spec_all_lines(rows, percents, places)
    }
}

/// The answer of a recall, and the ids of the memories that it shows.
#[derive(Debug)]
pub struct Recalled {
    pub text: String,
    pub accessed: Vec<i64>,
}

/// Whether `r` is the outcome of a recall that shows the memories at given places.
pub open spec fn recalls(
    query: Seq<char>,
    rows: Seq<MemoryRow>,
    percents: Seq<Seq<char>>,
    places: Seq<usize>,
    r: Option<Recalled>,
) -> bool {
    match r {
        Some(answer) => spec_answer(query, rows, percents, places) == Some(answer.text@)
            && answer.accessed@ == places.map_values(|k: usize| rows[k as int].id),
        None => spec_answer(query, rows, percents, places) is None,
    }
}

/// What is answered where nothing has ever been stored.
pub fn nothing_stored() -> (r: String)
    ensures
        r@ == "No memories stored yet. Use save_memory to store context."@,
{
    text::owned("No memories stored yet. Use save_memory to store context.")
}

/// Recall memories: the best matches of a query, the best first. Each memory comes with its
/// score and with the text of that score in percent. There is no answer where a date or a
/// content would be cut inside a character.
pub fn recall(
    query: &str,
    rows: &[MemoryRow],
    scores: &[u32],
    percents: &[String],
    max_results: u32,
) -> (r: Option<Recalled>)
    requires
        scores@.len() == rows@.len(),
        percents@.len() == rows@.len(),
    ensures
        exists|places: Seq<usize>| #[trigger]
            selects(scores@, max_results, places) && recalls(
                query@,
                rows@,
                text::texts(percents@),
                places,
                r,
            ),
{
    let places = select(scores, max_results);
    show(query, rows, percents, places.as_slice())
}

/// The outcome of a recall that shows the memories at given places.
pub fn show(query: &str, rows: &[MemoryRow], percents: &[String], places: &[usize]) -> (r: Option<
    Recalled,
>)
    requires
        percents@.len() == rows@.len(),
        forall|i: int| 0 <= i < places@.len() ==> #[trigger] places@[i] < rows@.len(),
    ensures
        recalls(query@, rows@, text::texts(percents@), places@, r),
{
    let ghost figures = text::texts(percents@);
    if rows.len() == 0 {
        assert(places@.len() == 0) by {
            if places@.len() > 0 {
                assert(places@[0] < rows@.len());
            }
        }
        let accessed: Vec<i64> = Vec::new();
        assert(accessed@ =~= places@.map_values(|k: usize| rows@[k as int].id));
        return Some(Recalled { text: text::owned("No memories stored yet."), accessed });
    }
    if places.len() == 0 {
        let accessed: Vec<i64> = Vec::new();
        assert(accessed@ =~= places@.map_values(|k: usize| rows@[k as int].id));
        let text = text::owned("No relevant memories found for '").concat(query).concat("'.\n");
        return Some(Recalled { text, accessed });
    }
    let mut out = text::owned("Memories:\n\n");
    let mut accessed: Vec<i64> = Vec::new();
    assert(places@.take(0) =~= Seq::empty());
    for i in 0..places.len()
        invariant
            rows@.len() > 0,
            places@.len() > 0,
            percents@.len() == rows@.len(),
            figures == text::texts(percents@),
            forall|k: int| 0 <= k < places@.len() ==> #[trigger] places@[k] < rows@.len(),
            accessed@ == places@.take(i as int).map_values(|k: usize| rows@[k as int].id),
            spec_all_lines(rows@, figures, places@.take(i as int)) == Some(out@),
    {
        let k: usize = places[i];
        proof {
            assert(places@.take(i + 1).drop_last() =~= places@.take(i as int));
            assert(places@.take(i + 1).last() == k);
            assert(figures[k as int] == percents@[k as int]@);
        }
        match memory_lines(&rows[k], percents[k].as_str()) {
            Some(lines) => {
                out = out.concat(lines.as_str());
            },
            None => {
                proof {
                    lemma_all_lines_none(rows@, figures, places@, i + 1);
                }
                return None;
            },
        }
        accessed.push(rows[k].id);
        assert(accessed@ =~= places@.take(i + 1).map_values(|k: usize| rows@[k as int].id));
    }
    assert(places@.take(places@.len() as int) =~= places@);
    Some(Recalled { text: out, accessed })
}

/// The statement that marks memories as accessed: the first parameter is the time, and each
/// memory's id is one more.
pub open spec fn spec_access_update(count: nat) -> Seq<char> {
    "UPDATE memories SET last_accessed_at = ?1 WHERE id IN ("@ + text::spec_join(
        Seq::new(count, |i: int| "?"@ + numerals::spec_decimal((i + 2) as nat)),
        ","@,
    ) + ")"@
}

/// The statement that marks `count` memories as accessed.
pub fn access_update(count: u32) -> (r: String)
    ensures
        r@ == spec_access_update(count as nat),
{
    let ghost all = Seq::new(
        count as nat,
        |i: int| "?"@ + numerals::spec_decimal((i + 2) as nat),
    );
    let mut list: Vec<String> = Vec::new();
    assert(text::texts(list@) =~= all.take(0));
    for i in 0..count
        invariant
            all == Seq::new(count as nat, |i: int| "?"@ + numerals::spec_decimal((i + 2) as nat)),
            text::texts(list@) == all.take(i as int),
    {
        let number: u64 = i as u64 + 2;
        let ghost before = text::texts(list@);
        list.push(text::owned("?").concat(numerals::decimal(number).as_str()));
        assert(text::texts(list@) =~= before.push(all[i as int]));
        assert(all.take(i + 1) =~= before.push(all[i as int]));
    }
    assert(all.take(all.len() as int) =~= all);
    text::owned("UPDATE memories SET last_accessed_at = ?1 WHERE id IN (").concat(
        text::join(list.as_slice(), ",").as_str(),
    ).concat(")")
}

// ── Laws ─────────────────────────────────────────────────────────────

proof fn lemma_relevant(places: Seq<usize>, scores: Seq<u32>)
    requires
        forall|i: int, j: int|
            0 <= i < j < places.len() ==> float32::key(scores[#[trigger] places[i] as int])
                >= float32::key(scores[#[trigger] places[j] as int]),
    ensures
        relevant(places, scores).len() <= places.len(),
        forall|i: int|
            0 <= i < relevant(places, scores).len() ==> places.contains(
                #[trigger] relevant(places, scores)[i],
            ) && float32::below(
                scoring::MEMORY_MIN_SCORE,
                scores[relevant(places, scores)[i] as int],
            ),
        forall|i: int, j: int|
            0 <= i < j < relevant(places, scores).len() ==> float32::key(
                scores[#[trigger] relevant(places, scores)[i] as int],
            ) >= float32::key(scores[#[trigger] relevant(places, scores)[j] as int]),
    decreases places.len(),
{
    if places.len() > 0 {
        let front = places.drop_last();
        let kept = relevant(front, scores);
        assert forall|i: int, j: int| 0 <= i < j < front.len() implies float32::key(
            scores[#[trigger] front[i] as int],
        ) >= float32::key(scores[#[trigger] front[j] as int]) by {
            assert(front[i] == places[i] && front[j] == places[j]);
        }
        lemma_relevant(front, scores);
        assert forall|i: int| 0 <= i < kept.len() implies places.contains(#[trigger] kept[i])
            && float32::key(scores[kept[i] as int]) >= float32::key(
            scores[places.last() as int],
        ) by {
            let k = choose|k: int| 0 <= k < front.len() && front[k] == kept[i];
            assert(places[k] == kept[i]);
            assert(places[places.len() - 1] == places.last());
        }
        assert(places[places.len() - 1] == places.last());
    }
}

/// A recall shows at most as many memories as were asked for, each with more than the least
/// score, and none after one with a lower score.
pub proof fn law_recall_shows_the_best_first(scores: Seq<u32>, max_results: u32, r: Seq<usize>)
    requires
        selects(scores, max_results, r),
    ensures
        r.len() <= max_results,
        forall|i: int|
            0 <= i < r.len() ==> (#[trigger] r[i]) < scores.len() && float32::below(
                scoring::MEMORY_MIN_SCORE,
                scores[r[i] as int],
            ),
        forall|i: int, j: int|
            0 <= i < j < r.len() ==> float32::key(scores[#[trigger] r[i] as int]) >= float32::key(
                scores[#[trigger] r[j] as int],
            ),
{
    let keys = file_summarizer::score_keys(scores);
    let order = choose|order: Seq<usize>| #[trigger]
        sort::sorts(keys, order) && r == relevant(
            text::first_n(order, max_results as int),
            scores,
        );
    let best = text::first_n(order, max_results as int);
    assert forall|i: int, j: int| 0 <= i < j < best.len() implies float32::key(
        scores[#[trigger] best[i] as int],
    ) >= float32::key(scores[#[trigger] best[j] as int]) by {
        assert(best[i] == order[i] && best[j] == order[j]);
        assert(sort::precedes(keys, order[i] as int, order[j] as int));
    }
    lemma_relevant(best, scores);
    assert forall|i: int| 0 <= i < r.len() implies (#[trigger] r[i]) < scores.len() by {
        let k = choose|k: int| 0 <= k < best.len() && best[k] == r[i];
        assert(best[k] == order[k]);
    }
}

/// A content matches the whole query wherever it contains it. Else it is counted how many of the
/// words of the query it contains.
pub proof fn law_keywords_match(content: Seq<char>, query: Seq<char>, words: Seq<Seq<char>>, w: Seq<char>)
    ensures
        spec_keyword_match(content, query) == KeywordMatch::Whole <==> text::has(content, query),
        spec_keyword_match(content, query) == KeywordMatch::Nothing <==> !text::has(content, query)
            && text::spec_words(query).len() == 0,
        spec_keyword_match(content, query) matches KeywordMatch::Words { matched, total } ==> matched
            == words_in(text::spec_words(query), content) as usize && total == text::spec_words(
            query,
        ).len() as usize,
        words_in(Seq::empty(), content) == 0,
        words_in(words.push(w), content) == words_in(words, content) + (if text::has(content, w) {
            1nat
        } else {
            0
        }),
{
    assert(words.push(w).drop_last() =~= words);
}

proof fn lemma_relevant_kept(places: Seq<usize>, scores: Seq<u32>, i: int)
    requires
        0 <= i < places.len(),
        float32::below(scoring::MEMORY_MIN_SCORE, scores[places[i] as int]),
    ensures
        relevant(places, scores).contains(places[i]),
    decreases places.len(),
{
    let rest = places.drop_last();
    let before = relevant(rest, scores);
    let all = relevant(places, scores);
    if i == places.len() - 1 {
        assert(all[before.len() as int] == places[i]);
    } else {
        assert(rest[i] == places[i]);
        lemma_relevant_kept(rest, scores, i);
        let k = choose|k: int| 0 <= k < before.len() && before[k] == places[i];
        assert(all[k] == places[i]);
    }
}

/// A recall that asks for enough memories shows every one with a score above 0.15, and no other.
pub proof fn law_recall_shows_all_relevant_memories(
    scores: Seq<u32>,
    max_results: u32,
    r: Seq<usize>,
    k: int,
)
    requires
        selects(scores, max_results, r),
        scores.len() <= max_results,
        0 <= k < scores.len(),
        scores.len() <= usize::MAX,
    ensures
        r.contains(k as usize) <==> float32::below(0x3e19_999a, scores[k]),
{
    let keys = file_summarizer::score_keys(scores);
    let order = choose|order: Seq<usize>| #[trigger]
        sort::sorts(keys, order) && r == relevant(
            text::first_n(order, max_results as int),
            scores,
        );
    assert(text::first_n(order, max_results as int) =~= order);
    assert(sort::listed(order, k));
    let i = choose|i: int| 0 <= i < order.len() && #[trigger] order[i] == k;
    if float32::below(0x3e19_999a, scores[k]) {
        lemma_relevant_kept(order, scores, i);
    }
    if r.contains(k as usize) {
        law_recall_shows_the_best_first(scores, max_results, r);
        let j = choose|j: int| 0 <= j < r.len() && r[j] == k as usize;
        assert(float32::below(scoring::MEMORY_MIN_SCORE, scores[r[j] as int]));
    }
}

/// A memory of three hundred bytes or fewer is shown whole. A longer one in ASCII is cut at the
/// last space of its first three hundred characters, or behind them where they have none, and is
/// shown with three dots.
pub proof fn law_long_memories_are_cut(content: Seq<char>, a: Seq<char>, b: Seq<char>)
    ensures
        width::bytes_of(content) <= 300 ==> spec_display_content(content) == Some(content),
        text::ascii(content) && content.len() > 300 && content.take(300) == a + seq![' '] + b
            && text::without(b, ' ') ==> spec_display_content(content) == Some(a + "..."@),
        text::ascii(content) && content.len() > 300 && text::without(content.take(300), ' ')
            ==> spec_display_content(content) == Some(content.take(300) + "..."@),
{
    if text::ascii(content) && content.len() > 300 {
        width::lemma_ascii_fitting(content, 300);
        let front = content.take(300);
        text::lemma_rfind(front, ' ');
        if front == a + seq![' '] + b && text::without(b, ' ') {
            let i = a.len() as int;
            assert(front[i] == ' ');
            assert forall|j: int| i < j < front.len() implies front[j] != ' ' by {
                assert(front[j] == b[j - i - 1]);
            }
            assert(front.take(i) =~= a);
        }
    }
}

/// A recalled memory is shown with its score, date, category and content, and its tags where it
/// has any.
pub proof fn law_memories_are_shown(row: MemoryRow, percent: Seq<char>, date: Seq<char>, content: Seq<char>)
    requires
        hygiene::spec_trim_date(row.created_at@) == Some(date),
        spec_display_content(row.content@) == Some(content),
    ensures
        spec_memory_lines(row, percent) == Some(
            "- ["@ + percent + "%] ["@ + date + "] ["@ + row.category@ + "] "@ + content + "\n"@ + (
            if row.tags@.len() > 0 {
                "  Tags: "@ + row.tags@ + "\n"@
            } else {
                Seq::empty()
            }),
        ),
{
    let line = "- ["@ + percent + "%] ["@ + date + "] ["@ + row.category@ + "] "@ + content
        + "\n"@;
    if row.tags@.len() > 0 {
        assert(line + "  Tags: "@ + row.tags@ + "\n"@ =~= line + ("  Tags: "@ + row.tags@
            + "\n"@));
    } else {
        assert(line + Seq::<char>::empty() =~= line);
    }
}

/// The answer to a recall shows its memories one behind the other, in their order.
pub proof fn law_recalled_memories_are_listed(
    rows: Seq<MemoryRow>,
    percents: Seq<Seq<char>>,
    places: Seq<usize>,
    k: usize,
)
    ensures
        spec_all_lines(rows, percents, Seq::empty()) == Some("Memories:\n\n"@),
        match (
            spec_all_lines(rows, percents, places),
            spec_memory_lines(rows[k as int], percents[k as int]),
        ) {
            (Some(before), Some(lines)) => spec_all_lines(rows, percents, places.push(k)) == Some(
                before + lines,
            ),
            _ => spec_all_lines(rows, percents, places.push(k)) is None,
        },
{
    assert(places.push(k).drop_last() =~= places);
}

/// The statement that marks memories as accessed has a parameter for each of them, numbered from two
/// on, with commas between them.
pub proof fn law_accessed_memories_are_marked(count: nat)
    requires
        count > 0,
    ensures
        spec_access_update(1) == "UPDATE memories SET last_accessed_at = ?1 WHERE id IN ("@ + "?2"@
            + ")"@,
        ({
            let ids = Seq::new(count, |i: int| "?"@ + numerals::spec_decimal((i + 2) as nat));
            &&& spec_access_update(count)
                == "UPDATE memories SET last_accessed_at = ?1 WHERE id IN ("@ + text::spec_join(
                ids,
                ","@,
            ) + ")"@
            &&& spec_access_update(count + 1)
                == "UPDATE memories SET last_accessed_at = ?1 WHERE id IN ("@ + (text::spec_join(
                ids,
                ","@,
            ) + ","@ + ("?"@ + numerals::spec_decimal(count + 2))) + ")"@
        }),
{
    let ids = Seq::new(count, |i: int| "?"@ + numerals::spec_decimal((i + 2) as nat));
    let last = "?"@ + numerals::spec_decimal(count + 2);
    let more = Seq::new(count + 1, |i: int| "?"@ + numerals::spec_decimal((i + 2) as nat));
    assert(more =~= ids.push(last));
    text::law_join(ids, last, ","@);
    let one = Seq::new(1, |i: int| "?"@ + numerals::spec_decimal((i + 2) as nat));
    reveal_strlit("?");
    reveal_strlit("?2");
    assert(numerals::spec_decimal(2) =~= seq!['2']);
    assert("?"@ + numerals::spec_decimal(2) =~= "?2"@);
    assert(one =~= seq!["?2"@]);
    text::law_join(one, "?2"@, ","@);
}

/// A recall marks as accessed the memories that it shows, and no others; where nothing is stored, or
/// nothing is relevant, it says so.
pub proof fn law_shown_memories_are_accessed(
    query: Seq<char>,
    rows: Seq<MemoryRow>,
    percents: Seq<Seq<char>>,
    places: Seq<usize>,
    answer: Recalled,
)
    requires
        recalls(query, rows, percents, places, Some(answer)),
    ensures
        answer.accessed@.len() == places.len(),
        forall|i: int|
            0 <= i < places.len() ==> #[trigger] answer.accessed@[i] == rows[places[i] as int].id,
        rows.len() == 0 ==> answer.text@ == "No memories stored yet."@,
        rows.len() > 0 && places.len() == 0 ==> answer.text@ == "No relevant memories found for '"@
            + query + "'.\n"@,
        rows.len() > 0 && places.len() > 0 ==> spec_all_lines(rows, percents, places) == Some(
            answer.text@,
        ),
{
}

} // verus!
