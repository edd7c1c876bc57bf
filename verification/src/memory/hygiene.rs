//! Passive hygiene: surface candidate-contradiction pairs for human review.
//!
//! No automatic deletion — this is intentionally a *review* tool. The user looks at the
//! flagged pair and decides whether one supersedes the other.
//!
//! A pair is flagged where the memories are very similar in meaning, were saved more than
//! seven days apart, and differ in at least three of ten characters.

use crate::context::file_summarizer;
use crate::float32;
use crate::numerals;
use crate::sort;
use crate::text;
use crate::width;
use vstd::prelude::*;

verus! {

/// The least similarity of a flagged pair, as a bit pattern: 0.85.
pub const CONTRADICTION_SIM_THRESHOLD: u32 = 0x3f59_999a;

/// A flagged pair was saved more than this many days apart.
pub const MIN_AGE_DELTA_DAYS: i64 = 7;

/// The least part of the characters that differ in a flagged pair, in tenths.
pub const MIN_DIVERGENCE_TENTHS: u128 = 3;

// ── Dates ────────────────────────────────────────────────────────────

/// Whether a year has a twenty-ninth of February.
pub open spec fn leap(year: int) -> bool {
    year % 4 == 0 && (year % 100 != 0 || year % 400 == 0)
}

/// How many days a month has.
pub open spec fn month_length(year: int, month: int) -> int {
    if month == 2 {
        if leap(year) {
            29
        } else {
            28
        }
    } else if month == 4 || month == 6 || month == 9 || month == 11 {
        30
    } else {
        31
    }
}

/// Whether there is such a day.
pub open spec fn is_date(year: int, month: int, day: int) -> bool {
    1 <= month <= 12 && 1 <= day <= month_length(year, month)
}

/// How many days of the calendar come before a year, from the first year on.
pub open spec fn days_before_year(year: int) -> int {
    let past = year - 1;
    365 * past + past / 4 - past / 100 + past / 400
}

/// How many days of a year come before a month.
pub open spec fn days_before_month(year: int, month: int) -> int
    decreases month,
{
    if month <= 1 {
        0
    } else {
        days_before_month(year, month - 1) + month_length(year, month - 1)
    }
}

/// The number of a day, counted from the first day of the first year. Months beyond a year
/// belong to the years around it, and days are counted on from the first of their month.
pub open spec fn day_number(year: int, month: int, day: int) -> int {
    let y = year + (month - 1) / 12;
    days_before_year(y) + days_before_month(y, (month - 1) % 12 + 1) + day
}

fn before_month(year: i64, month: i64) -> (r: i64)
    requires
        1 <= month <= 12,
        year >= 0,
    ensures
        r == days_before_month(year as int, month as int),
        0 <= r <= 335,
{
    let leap_day: i64 = if year % 4 == 0 && (year % 100 != 0 || year % 400 == 0) {
        1
    } else {
        0
    };
    proof {
        reveal_with_fuel(days_before_month, 13);
    }
    if month == 1 {
        0
    } else if month == 2 {
        31
    } else if month == 3 {
        59 + leap_day
    } else if month == 4 {
        90 + leap_day
    } else if month == 5 {
        120 + leap_day
    } else if month == 6 {
        151 + leap_day
    } else if month == 7 {
        181 + leap_day
    } else if month == 8 {
        212 + leap_day
    } else if month == 9 {
        243 + leap_day
    } else if month == 10 {
        273 + leap_day
    } else if month == 11 {
        304 + leap_day
    } else {
        334 + leap_day
    }
}

/// Four centuries have the same days, wherever they begin.
proof fn lemma_centuries(year: int, month: int)
    ensures
        days_before_year(year + 12_000) == days_before_year(year) + 4_382_910,
        days_before_month(year + 12_000, month) == days_before_month(year, month),
    decreases month,
{
    assert(leap(year + 12_000) == leap(year));
    if month > 1 {
        lemma_centuries(year, month - 1);
    }
}

fn number_of_day(year: i64, month: i64, day: i64) -> (r: i64)
    requires
        -10_000 < year < 10_000,
        -10_000 < month < 10_000,
        -10_000 < day < 10_000,
    ensures
        r == day_number(year as int, month as int, day as int),
        -10_000_000 < r < 10_000_000,
{
    let months: i64 = month - 1 + 12_000;
    let y: i64 = year + months / 12 - 1000 + 12_000;
    let m: i64 = months % 12 + 1;
    let past: i64 = y - 1;
    proof {
        assert(y == year + (month - 1) / 12 + 12_000);
        assert(m == (month - 1) % 12 + 1);
        lemma_centuries(year + (month - 1) / 12, m as int);
    }
    365 * past + past / 4 - past / 100 + past / 400 + before_month(y, m) + day - 4_382_910
}

/// The day that a date begins with, if it reads as `YYYY-MM-DD`. There is nothing to read
/// where one of the parts would be cut inside a character.
pub open spec fn spec_days(s: Seq<char>) -> Option<Option<int>> {
    if width::bytes_of(s) < 10 {
        Some(None)
    } else {
        match width::spec_between(s, 0, 4) {
            None => None,
            Some(year) => match numerals::spec_parse(year) {
                None => Some(None),
                Some(y) => match width::spec_between(s, 5, 7) {
                    None => None,
                    Some(month) => match numerals::spec_parse(month) {
                        None => Some(None),
                        Some(m) => match width::spec_between(s, 8, 10) {
                            None => None,
                            Some(day) => match numerals::spec_parse(day) {
                                None => Some(None),
                                Some(d) => Some(Some(day_number(y, m, d))),
                            },
                        },
                    },
                },
            },
        }
    }
}

/// Parse a "YYYY-MM-DD..." string to a day count since a fixed day.
pub fn parse_ymd_days(s: &str) -> (r: Option<Option<i64>>)
    ensures
        match r {
            None => spec_days(s@) is None,
            Some(None) => spec_days(s@) == Some(None::<int>),
            Some(Some(n)) => spec_days(s@) == Some(Some(n as int)) && -10_000_000 < n < 10_000_000,
        },
{
    if width::byte_len(s) < 10 {
        return Some(None);
    }
    let year = match width::between(s, 0, 4) {
        None => {
            return None;
        },
        Some(t) => t,
    };
    let y: i64 = match numerals::parse(year.as_slice()) {
        None => {
            return Some(None);
        },
        Some(n) => n,
    };
    let month = match width::between(s, 5, 7) {
        None => {
            return None;
        },
        Some(t) => t,
    };
    let m: i64 = match numerals::parse(month.as_slice()) {
        None => {
            return Some(None);
        },
        Some(n) => n,
    };
    let day = match width::between(s, 8, 10) {
        None => {
            return None;
        },
        Some(t) => t,
    };
    let d: i64 = match numerals::parse(day.as_slice()) {
        None => {
            return Some(None);
        },
        Some(n) => n,
    };
    proof {
        numerals::lemma_parse_bound(year@);
        numerals::lemma_parse_bound(month@);
        numerals::lemma_parse_bound(day@);
    }
    Some(Some(number_of_day(y, m, d)))
}

/// Whether two dates are at least so many days apart. Dates that do not read as days are.
pub open spec fn spec_age_delta_meets(a: Seq<char>, b: Seq<char>, min_days: int) -> Option<bool> {
    match (spec_days(a), spec_days(b)) {
        (Some(Some(x)), Some(Some(y))) => Some(x - y >= min_days || y - x >= min_days),
        (Some(_), Some(_)) => Some(true),
        _ => None,
    }
}

/// Whether two dates are at least so many days apart.
pub fn age_delta_meets(a: &str, b: &str, min_days: i64) -> (r: Option<bool>)
    ensures
        r == spec_age_delta_meets(a@, b@, min_days as int),
{
    match (parse_ymd_days(a), parse_ymd_days(b)) {
        (Some(Some(x)), Some(Some(y))) => Some(x - y >= min_days || y - x >= min_days),
        (Some(_), Some(_)) => Some(true),
        _ => None,
    }
}

/// The day of a date, as it is shown: its first ten bytes.
pub open spec fn spec_trim_date(ts: Seq<char>) -> Option<Seq<char>> {
    if width::bytes_of(ts) < 10 {
        Some(ts)
    } else if width::boundary(ts, 10) {
        Some(ts.take(width::fitting(ts, 10) as int))
    } else {
        None
    }
}

/// The day of a date, as it is shown, unless its tenth byte is inside a character.
pub fn trim_date(ts: &str) -> (r: Option<String>)
    ensures
        file_summarizer::text_of(r) == spec_trim_date(ts@),
{
    if width::byte_len(ts) < 10 {
        return Some(text::owned(ts));
    }
    if !width::is_boundary(ts, 10) {
        return None;
    }
    let chars = text::chars_of(ts);
    Some(text::string_of(width::prefix(chars.as_slice(), 10)))
}

// ── Divergence ───────────────────────────────────────────────────────

/// The code of a character, that of the small letter for a capital of ASCII.
pub open spec fn folded(c: char) -> int {
    if 'A' <= c <= 'Z' {
        c as int + 32
    } else {
        c as int
    }
}

fn fold_case(c: char) -> (r: u32)
    ensures
        r == folded(c),
{
    let code: u32 = c as u32;
    if 65 <= code && code <= 90 {
        code + 32
    } else {
        code
    }
}

/// How many of the first `n` places of two texts hold different characters, whatever their
/// case in ASCII.
pub open spec fn differing(a: Seq<char>, b: Seq<char>, n: int) -> nat
    decreases n,
{
    if n <= 0 {
        0
    } else {
        differing(a, b, n - 1) + if folded(a[n - 1]) != folded(b[n - 1]) {
            1nat
        } else {
            0
        }
    }
}

/// The length of the longer text.
pub open spec fn longer(a: Seq<char>, b: Seq<char>) -> nat {
    if a.len() >= b.len() {
        a.len()
    } else {
        b.len()
    }
}

/// The length of the shorter text.
pub open spec fn shorter(a: Seq<char>, b: Seq<char>) -> nat {
    if a.len() >= b.len() {
        b.len()
    } else {
        a.len()
    }
}

/// How many places differ: those that only one of the texts has, and those where they hold
/// different characters.
pub open spec fn mismatches(a: Seq<char>, b: Seq<char>) -> nat {
    differing(a, b, shorter(a, b) as int) + (longer(a, b) - shorter(a, b)) as nat
}

/// Whether two texts differ in enough places. Empty texts do not.
pub open spec fn diverges(a: Seq<char>, b: Seq<char>) -> bool {
    longer(a, b) > 0 && 10 * mismatches(a, b) >= MIN_DIVERGENCE_TENTHS * longer(a, b)
}

/// Divergence as a fraction of the longer text: how many places differ, and of how many.
pub fn divergence_ratio(a: &str, b: &str) -> (r: (usize, usize))
    ensures
        r.0 == mismatches(a@, b@),
        r.1 == longer(a@, b@),
        r.0 <= r.1,
{
    let aa = text::chars_of(a);
    let bb = text::chars_of(b);
    let (short, long): (usize, usize) = if aa.len() >= bb.len() {
        (bb.len(), aa.len())
    } else {
        (aa.len(), bb.len())
    };
    let mut count: usize = 0;
    for i in 0..short
        invariant
            short <= aa@.len(),
            short <= bb@.len(),
            count <= i,
            count == differing(aa@, bb@, i as int),
    {
        if fold_case(aa[i]) != fold_case(bb[i]) {
            count = count + 1;
        }
    }
    (count + (long - short), long)
}

// ── Contradictions ───────────────────────────────────────────────────

/// A memory as the review reads it.
#[derive(Debug)]
pub struct MemoryView {
    pub id: i64,
    pub content: String,
    pub created_at: String,
}

/// Two memories that may contradict each other.
#[derive(Debug)]
pub struct ContradictionPair {
    pub older_id: i64,
    pub older_created: String,
    pub older_content: String,
    pub newer_id: i64,
    pub newer_created: String,
    pub newer_content: String,
    /// How similar the memories are, as a bit pattern.
    pub similarity: u32,
    /// How many places of the contents differ.
    pub mismatched: usize,
    /// How many places the longer content has.
    pub longest: usize,
}

/// Whether a pair is flagged. There is no telling where a date would be cut inside a
/// character.
pub open spec fn flagged(a: MemoryView, b: MemoryView, similarity: u32) -> Option<bool> {
    if float32::below(similarity, CONTRADICTION_SIM_THRESHOLD) {
        Some(false)
    } else {
        match spec_age_delta_meets(a.created_at@, b.created_at@, MIN_AGE_DELTA_DAYS + 1) {
            None => None,
            Some(false) => Some(false),
            Some(true) => Some(diverges(a.content@, b.content@)),
        }
    }
}

/// Whether a pair is flagged.
pub fn is_flagged(a: &MemoryView, b: &MemoryView, similarity: u32) -> (r: Option<bool>)
    ensures
        r == flagged(*a, *b, similarity),
{
    if float32::less(similarity, CONTRADICTION_SIM_THRESHOLD) {
        return Some(false);
    }
    match age_delta_meets(a.created_at.as_str(), b.created_at.as_str(), MIN_AGE_DELTA_DAYS + 1) {
        None => None,
        Some(false) => Some(false),
        Some(true) => {
            let (count, long) = divergence_ratio(a.content.as_str(), b.content.as_str());
            Some(long > 0 && 10 * count as u128 >= MIN_DIVERGENCE_TENTHS * long as u128)
        },
    }
}

/// Whether there is a similarity for each memory and each one after it.
pub open spec fn all_pairs(memories: Seq<MemoryView>, similarities: Seq<Vec<u32>>) -> bool {
    &&& similarities.len() == memories.len()
    &&& forall|i: int|
        0 <= i < memories.len() ==> (#[trigger] similarities[i])@.len() == memories.len() - i - 1
}

/// The similarity of two memories, the first of which comes before the second.
pub open spec fn similarity_of(similarities: Seq<Vec<u32>>, i: int, j: int) -> u32 {
    similarities[i]@[j - i - 1]
}

/// The flagged pairs that stand before the pair of memory `i` and memory `j`, by their places,
/// where `i` comes before `j`.
pub open spec fn found_before(
    memories: Seq<MemoryView>,
    similarities: Seq<Vec<u32>>,
    i: int,
    j: int,
) -> Option<Seq<(int, int)>>
    decreases i, j,
{
    if j > i + 1 && i >= 0 {
        match (
            found_before(memories, similarities, i, j - 1),
            flagged(memories[i], memories[j - 1], similarity_of(similarities, i, j - 1)),
        ) {
            (Some(before), Some(true)) => Some(before.push((i, j - 1))),
            (Some(before), Some(false)) => Some(before),
            _ => None,
        }
    } else if i > 0 {
        found_before(memories, similarities, i - 1, memories.len() as int)
    } else {
        Some(Seq::empty())
    }
}

/// The flagged pairs, by their places.
pub open spec fn found(memories: Seq<MemoryView>, similarities: Seq<Vec<u32>>) -> Option<
    Seq<(int, int)>,
> {
    if memories.len() == 0 {
        Some(Seq::empty())
    } else {
        found_before(memories, similarities, memories.len() - 1, memories.len() as int)
    }
}

proof fn lemma_found_none(
    memories: Seq<MemoryView>,
    similarities: Seq<Vec<u32>>,
    i: int,
    j: int,
    i2: int,
    j2: int,
)
    requires
        0 <= i <= i2 < memories.len(),
        i < j <= memories.len(),
        i2 < j2 <= memories.len(),
        i == i2 ==> j <= j2,
        found_before(memories, similarities, i, j) is None,
    ensures
        found_before(memories, similarities, i2, j2) is None,
    decreases i2, j2,
{
    if i == i2 && j == j2 {
    } else if j2 > i2 + 1 {
        lemma_found_none(memories, similarities, i, j, i2, j2 - 1);
    } else {
        lemma_found_none(memories, similarities, i, j, i2 - 1, memories.len() as int);
    }
}

/// The places of flagged pairs as numbers of the machine.
pub open spec fn places(found: Seq<(usize, usize)>) -> Seq<(int, int)> {
    found.map_values(|p: (usize, usize)| (p.0 as int, p.1 as int))
}

fn find_pairs(memories: &[MemoryView], similarities: &[Vec<u32>]) -> (r: Option<
    Vec<(usize, usize)>,
>)
    requires
        all_pairs(memories@, similarities@),
    ensures
        match r {
            Some(v) => found(memories@, similarities@) == Some(places(v@)) && forall|k: int|
                0 <= k < v@.len() ==> (#[trigger] v@[k]).0 < v@[k].1 < memories@.len(),
            None => found(memories@, similarities@) is None,
        },
{
    let n: usize = memories.len();
    let mut out: Vec<(usize, usize)> = Vec::new();
    assert(places(out@) =~= Seq::empty());
    for i in 0..n
        invariant
            n == memories@.len(),
            all_pairs(memories@, similarities@),
            i == 0 ==> out@.len() == 0,
            i > 0 ==> found_before(memories@, similarities@, i - 1, n as int) == Some(
                places(out@),
            ),
            forall|k: int| 0 <= k < out@.len() ==> (#[trigger] out@[k]).0 < out@[k].1 < n,
    {
        assert(places(out@) =~= Seq::empty() || i > 0);
        assert(found_before(memories@, similarities@, i as int, i + 1) == Some(places(out@)));
        for j in i + 1..n
            invariant
                i < n,
                n == memories@.len(),
                all_pairs(memories@, similarities@),
                found_before(memories@, similarities@, i as int, j as int) == Some(places(out@)),
                forall|k: int| 0 <= k < out@.len() ==> (#[trigger] out@[k]).0 < out@[k].1 < n,
        {
            assert(similarities@[i as int]@.len() == n - i - 1);
            let similarity: u32 = similarities[i][j - i - 1];
            match is_flagged(&memories[i], &memories[j], similarity) {
                None => {
                    proof {
                        assert(found_before(memories@, similarities@, i as int, j + 1) is None);
                        lemma_found_none(
                            memories@,
                            similarities@,
                            i as int,
                            j + 1,
                            n - 1,
                            n as int,
                        );
                    }
                    return None;
                },
                Some(true) => {
                    let ghost before = places(out@);
                    out.push((i, j));
                    assert(places(out@) =~= before.push((i as int, j as int)));
                },
                Some(false) => {},
            }
        }
    }
    assert(n == 0 ==> places(out@) =~= Seq::empty());
    Some(out)
}

/// The similarities of flagged pairs.
pub open spec fn similarities_at(similarities: Seq<Vec<u32>>, found: Seq<(int, int)>) -> Seq<u32> {
    found.map_values(|p: (int, int)| similarity_of(similarities, p.0, p.1))
}

/// Whether `r` is the pair of two memories, the older one first.
pub open spec fn is_pair(r: ContradictionPair, a: MemoryView, b: MemoryView, similarity: u32) -> bool {
    &&& r.older_id == a.id
    &&& r.older_created@ == a.created_at@
    &&& r.older_content@ == a.content@
    &&& r.newer_id == b.id
    &&& r.newer_created@ == b.created_at@
    &&& r.newer_content@ == b.content@
    &&& r.similarity == similarity
    &&& r.mismatched == mismatches(a.content@, b.content@)
    &&& r.longest == longer(a.content@, b.content@)
}

fn make_pair(a: &MemoryView, b: &MemoryView, similarity: u32) -> (r: ContradictionPair)
    ensures
        is_pair(r, *a, *b, similarity),
{
    let (mismatched, longest) = divergence_ratio(a.content.as_str(), b.content.as_str());
    ContradictionPair {
        older_id: a.id,
        older_created: a.created_at.clone(),
        older_content: a.content.clone(),
        newer_id: b.id,
        newer_created: b.created_at.clone(),
        newer_content: b.content.clone(),
        similarity,
        mismatched,
        longest,
    }
}

/// Whether `r` is the pair of the memories at two places.
pub open spec fn shows(
    r: ContradictionPair,
    memories: Seq<MemoryView>,
    similarities: Seq<Vec<u32>>,
    at: (int, int),
) -> bool {
    is_pair(r, memories[at.0], memories[at.1], similarity_of(similarities, at.0, at.1))
}

/// Whether `r` are the flagged pairs at given places in a given order, no more than `limit`.
pub open spec fn reports(
    memories: Seq<MemoryView>,
    similarities: Seq<Vec<u32>>,
    found: Seq<(int, int)>,
    order: Seq<usize>,
    limit: int,
    r: Seq<ContradictionPair>,
) -> bool {
    &&& r.len() == text::first_n(order, limit).len()
    &&& forall|k: int|
        0 <= k < r.len() ==> #[trigger] shows(r[k], memories, similarities, found[order[k] as int])
}

/// Whether `r` are the flagged pairs at given places, the most similar first, level ones as
/// they were found, no more than `limit`.
pub open spec fn finds(
    memories: Seq<MemoryView>,
    similarities: Seq<Vec<u32>>,
    found: Seq<(int, int)>,
    limit: int,
    r: Seq<ContradictionPair>,
) -> bool {
    exists|order: Seq<usize>| #[trigger]
        sort::sorts(file_summarizer::score_keys(similarities_at(similarities, found)), order)
            && reports(memories, similarities, found, order, limit, r)
}

/// Find candidate contradiction pairs among memories that are ordered by age, the oldest
/// first. `similarities[i][k]` is how similar memory `i` is to the memory `k + 1` places after
/// it. Returns at most `limit` pairs, the most similar first. There is no answer where a date
/// would be cut inside a character.
pub fn find_contradictions(
    memories: &[MemoryView],
    similarities: &[Vec<u32>],
    limit: usize,
) -> (r: Option<Vec<ContradictionPair>>)
    requires
        all_pairs(memories@, similarities@),
    ensures
        match r {
            Some(pairs) => found(memories@, similarities@) is Some && finds(
                memories@,
                similarities@,
                found(memories@, similarities@)->0,
                limit as int,
                pairs@,
            ),
            None => found(memories@, similarities@) is None,
        },
{
    let list = match find_pairs(memories, similarities) {
        None => {
            return None;
        },
        Some(v) => v,
    };
    let ghost at = places(list@);
    let ghost values = similarities_at(similarities@, at);
    let mut scores: Vec<u32> = Vec::new();
    for k in 0..list.len()
        invariant
            all_pairs(memories@, similarities@),
            at == places(list@),
            values == similarities_at(similarities@, at),
            forall|k: int|
                0 <= k < list@.len() ==> (#[trigger] list@[k]).0 < list@[k].1 < memories@.len(),
            scores@.len() == k,
            forall|m: int| 0 <= m < k ==> #[trigger] scores@[m] == values[m],
    {
        let (i, j) = list[k];
        assert(similarities@[i as int]@.len() == memories@.len() - i - 1);
        let score: u32 = similarities[i][j - i - 1];
        assert(at[k as int] == (i as int, j as int));
        scores.push(score);
    }
    assert(scores@ =~= values);
    let order = file_summarizer::order_by_score(scores.as_slice());
    let n: usize = if order.len() <= limit {
        order.len()
    } else {
        limit
    };
    let mut out: Vec<ContradictionPair> = Vec::new();
    for k in 0..n
        invariant
            n <= order@.len(),
            all_pairs(memories@, similarities@),
            at == places(list@),
            values == similarities_at(similarities@, at),
            sort::sorts(file_summarizer::score_keys(values), order@),
            forall|k: int|
                0 <= k < list@.len() ==> (#[trigger] list@[k]).0 < list@[k].1 < memories@.len(),
            out@.len() == k,
            forall|m: int|
                0 <= m < k ==> #[trigger] shows(
                    out@[m],
                    memories@,
                    similarities@,
                    at[order@[m] as int],
                ),
    {
        let place: usize = order[k];
        assert(place < at.len());
        let (i, j) = list[place];
        assert(list@[place as int].0 < list@[place as int].1 < memories@.len());
        assert(similarities@[i as int]@.len() == memories@.len() - i - 1);
        let similarity: u32 = similarities[i][j - i - 1];
        assert(at[place as int] == (i as int, j as int));
        let ghost before = out@;
        out.push(make_pair(&memories[i], &memories[j], similarity));
        assert forall|m: int| 0 <= m < k + 1 implies #[trigger] shows(
            out@[m],
            memories@,
            similarities@,
            at[order@[m] as int],
        ) by {
            if m < k {
                assert(out@[m] == before[m]);
            }
        }
    }
    assert(reports(memories@, similarities@, at, order@, limit as int, out@));
    assert(finds(memories@, similarities@, at, limit as int, out@));
    Some(out)
}

// ── Presentation ─────────────────────────────────────────────────────

/// A text on one line, at most two hundred characters of it.
pub open spec fn spec_oneline(s: Seq<char>) -> Seq<char> {
    let cleaned = text::spec_replace(s, '\n', " "@);
    if cleaned.len() > 200 {
        cleaned.take(200) + "..."@
    } else {
        cleaned
    }
}

/// A text on one line, at most two hundred characters of it.
pub fn oneline(s: &str) -> (r: String)
    ensures
        r@ == spec_oneline(s@),
{
    let chars = text::chars_of(s);
    let cleaned = text::replace(chars.as_slice(), '\n', " ");
    let line = text::chars_of(cleaned.as_str());
    if line.len() > 200 {
        let front = text::head(line.as_slice(), 200);
        text::string_of(front).concat("...")
    } else {
        cleaned
    }
}

/// The line of one memory of a pair.
pub open spec fn spec_memory_line(created: Seq<char>, id: i64, content: Seq<char>) -> Option<
    Seq<char>,
> {
    match spec_trim_date(created) {
        Some(date) => Some(
            "  ["@ + date + "] id "@ + numerals::spec_signed(id as int) + " — "@ + spec_oneline(
                content,
            ) + "\n"@,
        ),
        None => None,
    }
}

fn memory_line(created: &str, id: i64, content: &str) -> (r: Option<String>)
    ensures
        file_summarizer::text_of(r) == spec_memory_line(created@, id, content@),
{
    match trim_date(created) {
        Some(date) => Some(
            text::owned("  [").concat(date.as_str()).concat("] id ").concat(
                numerals::signed(id).as_str(),
            ).concat(" — ").concat(oneline(content).as_str()).concat("\n"),
        ),
        None => None,
    }
}

/// The lines of a pair: its number, the texts of its similarity and of its divergence in
/// percent, and the two memories.
pub open spec fn spec_pair_lines(
    p: ContradictionPair,
    number: nat,
    similarity: Seq<char>,
    divergence: Seq<char>,
) -> Option<Seq<char>> {
    match (
        spec_memory_line(p.older_created@, p.older_id, p.older_content@),
        spec_memory_line(p.newer_created@, p.newer_id, p.newer_content@),
    ) {
        (Some(older), Some(newer)) => Some(
            "["@ + numerals::spec_decimal(number) + "] sim "@ + similarity + "  divergence "@
                + divergence + "%\n"@ + older + newer
                + "    → review these manually; this tool never deletes anything.\n\n"@,
        ),
        _ => None,
    }
}

/// The report of the first `n` pairs.
pub open spec fn spec_report(
    pairs: Seq<ContradictionPair>,
    figures: Seq<(String, String)>,
    n: int,
) -> Option<Seq<char>>
    decreases n,
{
    if n <= 0 {
        Some("Candidate contradictions ("@ + numerals::spec_decimal(pairs.len()) + "):\n\n"@)
    } else {
        match (
            spec_report(pairs, figures, n - 1),
            spec_pair_lines(pairs[n - 1], n as nat, figures[n - 1].0@, figures[n - 1].1@),
        ) {
            (Some(before), Some(lines)) => Some(before + lines),
            _ => None,
        }
    }
}

/// The review report of a list of pairs.
pub open spec fn spec_review(pairs: Seq<ContradictionPair>, figures: Seq<(String, String)>) -> Option<
    Seq<char>,
> {
    if pairs.len() == 0 {
        Some(
            "No candidate contradictions found.\n\nA pair is flagged when memories share an embedding similarity ≥ 0.85 but were saved more than 7 days apart and differ in actual content. Save more memories or check back later.\n"@,
        )
    } else {
        spec_report(pairs, figures, pairs.len() as int)
    }
}

proof fn lemma_report_none(
    pairs: Seq<ContradictionPair>,
    figures: Seq<(String, String)>,
    n: int,
    m: int,
)
    requires
        0 <= n <= m,
        spec_report(pairs, figures, n) is None,
    ensures
        spec_report(pairs, figures, m) is None,
    decreases m,
{
    if n < m {
        lemma_report_none(pairs, figures, n, m - 1);
    }
}

/// Render a human-readable review report. Each pair comes with the texts of its similarity and
/// of its divergence in percent. There is no report where a date would be cut inside a
/// character.
pub fn render_review(pairs: &[ContradictionPair], figures: &[(String, String)]) -> (r: Option<
    String,
>)
    requires
        figures@.len() == pairs@.len(),
    ensures
        file_summarizer::text_of(r) == spec_review(pairs@, figures@),
{
    let n: usize = pairs.len();
    if n == 0 {
        return Some(
            text::owned(
                "No candidate contradictions found.\n\nA pair is flagged when memories share an embedding similarity ≥ 0.85 but were saved more than 7 days apart and differ in actual content. Save more memories or check back later.\n",
            ),
        );
    }
    let mut out = text::owned("Candidate contradictions (").concat(
        numerals::decimal_usize(n).as_str(),
    ).concat("):\n\n");
    for i in 0..n
        invariant
            n > 0,
            n == pairs@.len(),
            figures@.len() == n,
            spec_report(pairs@, figures@, i as int) == Some(out@),
    {
        let p = &pairs[i];
        let number: usize = i + 1;
        let older = memory_line(p.older_created.as_str(), p.older_id, p.older_content.as_str());
        let newer = memory_line(p.newer_created.as_str(), p.newer_id, p.newer_content.as_str());
        match (older, newer) {
            (Some(older), Some(newer)) => {
                let lines = text::owned("[").concat(
                    numerals::decimal_usize(number).as_str(),
                ).concat("] sim ").concat(figures[i].0.as_str()).concat("  divergence ").concat(
                    figures[i].1.as_str(),
                ).concat("%\n").concat(older.as_str()).concat(newer.as_str()).concat(
                    "    → review these manually; this tool never deletes anything.\n\n",
                );
                out = out.concat(lines.as_str());
            },
            _ => {
                proof {
                    lemma_report_none(pairs@, figures@, i + 1, n as int);
                }
                return None;
            },
        }
    }
    Some(out)
}

// ── Laws ─────────────────────────────────────────────────────────────

/// The day after a day.
pub open spec fn next_day(year: int, month: int, day: int) -> (int, int, int) {
    if day < month_length(year, month) {
        (year, month, day + 1)
    } else if month < 12 {
        (year, month + 1, 1)
    } else {
        (year + 1, 1, 1)
    }
}

proof fn lemma_year_length(year: int)
    ensures
        days_before_year(year + 1) == days_before_year(year) + if leap(year) {
            366int
        } else {
            365
        },
{
    let past = year - 1;
    assert(year / 4 == past / 4 + if year % 4 == 0 {
        1int
    } else {
        0
    });
    assert(year / 100 == past / 100 + if year % 100 == 0 {
        1int
    } else {
        0
    });
    assert(year / 400 == past / 400 + if year % 400 == 0 {
        1int
    } else {
        0
    });
}

proof fn lemma_before_december(year: int)
    ensures
        days_before_month(year, 12) == if leap(year) {
            335int
        } else {
            334
        },
{
    reveal_with_fuel(days_before_month, 13);
}

proof fn lemma_next_year(year: int)
    ensures
        days_before_year(year + 1) == days_before_year(year) + days_before_month(year, 12) + 31,
{
    lemma_year_length(year);
    lemma_before_december(year);
}

/// Days are counted one by one: the day after a day has the next number.
pub proof fn law_days_are_counted(year: int, month: int, day: int)
    requires
        is_date(year, month, day),
    ensures
        ({
            let (y, m, d) = next_day(year, month, day);
            is_date(y, m, d) && day_number(y, m, d) == day_number(year, month, day) + 1
        }),
{
    lemma_next_year(year);
}

proof fn lemma_years_rise(y1: int, y2: int)
    requires
        y1 <= y2,
    ensures
        days_before_year(y1) + 365 * (y2 - y1) <= days_before_year(y2),
        y1 < y2 ==> days_before_year(y1) + days_before_month(y1, 12) + 31 <= days_before_year(y2),
    decreases y2 - y1,
{
    if y1 < y2 {
        lemma_next_year(y1);
        lemma_years_rise(y1 + 1, y2);
    }
}

proof fn lemma_months_rise(year: int, m1: int, m2: int)
    requires
        1 <= m1 < m2 <= 12,
    ensures
        days_before_month(year, m1) + month_length(year, m1) <= days_before_month(year, m2),
    decreases m2 - m1,
{
    if m1 + 1 < m2 {
        lemma_months_rise(year, m1, m2 - 1);
    }
}

/// A later day has a larger number.
pub proof fn law_day_numbers_rise(y1: int, m1: int, d1: int, y2: int, m2: int, d2: int)
    requires
        is_date(y1, m1, d1),
        is_date(y2, m2, d2),
        y1 < y2 || (y1 == y2 && (m1 < m2 || (m1 == m2 && d1 < d2))),
    ensures
        day_number(y1, m1, d1) < day_number(y2, m2, d2),
{
    if y1 < y2 {
        lemma_years_rise(y1, y2);
        lemma_start_of_year(y2, m2);
        if m1 < 12 {
            lemma_months_rise(y1, m1, 12);
        }
    } else if m1 < m2 {
        lemma_months_rise(y1, m1, m2);
    }
}

proof fn lemma_start_of_year(year: int, month: int)
    ensures
        days_before_month(year, month) >= 0,
    decreases month,
{
    if month > 1 {
        lemma_start_of_year(year, month - 1);
    }
}

/// No memory contradicts itself or one with the same content, and which of two memories is
/// the older one does not matter for whether they diverge.
pub proof fn law_divergence_is_symmetric(a: Seq<char>, b: Seq<char>)
    ensures
        mismatches(a, a) == 0,
        !diverges(a, a),
        mismatches(a, b) == mismatches(b, a),
        diverges(a, b) == diverges(b, a),
        mismatches(a, b) <= longer(a, b),
{
    lemma_differing(a, a, a.len() as int);
    lemma_differing(a, b, shorter(a, b) as int);
}

proof fn lemma_differing(a: Seq<char>, b: Seq<char>, n: int)
    requires
        0 <= n,
    ensures
        differing(a, b, n) == differing(b, a, n),
        differing(a, b, n) <= n,
        a == b ==> differing(a, b, n) == 0,
    decreases n,
{
    if n > 0 {
        lemma_differing(a, b, n - 1);
    }
}

proof fn lemma_found_sound(
    memories: Seq<MemoryView>,
    similarities: Seq<Vec<u32>>,
    i: int,
    j: int,
    k: int,
)
    requires
        0 <= i < j <= memories.len(),
        found_before(memories, similarities, i, j) matches Some(list) && 0 <= k < list.len(),
    ensures
        ({
            let p = found_before(memories, similarities, i, j)->0[k];
            0 <= p.0 < p.1 < memories.len() && flagged(
                memories[p.0],
                memories[p.1],
                similarity_of(similarities, p.0, p.1),
            ) == Some(true)
        }),
    decreases i, j,
{
    if j > i + 1 {
        let before = found_before(memories, similarities, i, j - 1)->0;
        if k < before.len() {
            lemma_found_sound(memories, similarities, i, j - 1, k);
        }
    } else {
        lemma_found_sound(memories, similarities, i - 1, memories.len() as int, k);
    }
}

/// Whether a pair is that of two memories, the first of which comes before the second.
pub open spec fn pairs_in_order(r: ContradictionPair, memories: Seq<MemoryView>) -> bool {
    exists|i: int, j: int|
        #![trigger memories[i], memories[j]]
        0 <= i < j < memories.len() && r.older_id == memories[i].id && r.older_created@
            == memories[i].created_at@ && r.newer_id == memories[j].id && r.newer_created@
            == memories[j].created_at@
}

/// Every reported pair is that of an earlier and a later memory, is very similar, was saved
/// more than seven days apart as far as the dates tell, and diverges; there are no more than
/// asked for, the most similar first.
pub proof fn law_reported_pairs_are_flagged(
    memories: Seq<MemoryView>,
    similarities: Seq<Vec<u32>>,
    list: Seq<(int, int)>,
    limit: int,
    r: Seq<ContradictionPair>,
    k: int,
    l: int,
)
    requires
        limit >= 0,
        found(memories, similarities) == Some(list),
        finds(memories, similarities, list, limit, r),
        0 <= k <= l < r.len(),
    ensures
        r.len() <= limit,
        pairs_in_order(r[k], memories),
        !float32::below(r[k].similarity, CONTRADICTION_SIM_THRESHOLD),
        spec_age_delta_meets(r[k].older_created@, r[k].newer_created@, 8) == Some(true),
        diverges(r[k].older_content@, r[k].newer_content@),
        float32::key(r[k].similarity) >= float32::key(r[l].similarity),
{
    let values = similarities_at(similarities, list);
    let keys = file_summarizer::score_keys(values);
    let order = choose|order: Seq<usize>| #[trigger]
        sort::sorts(keys, order) && reports(memories, similarities, list, order, limit, r);
    let p = list[order[k] as int];
    assert(order[k] < keys.len());
    assert(shows(r[k], memories, similarities, p));
    lemma_found_sound(
        memories,
        similarities,
        memories.len() - 1,
        memories.len() as int,
        order[k] as int,
    );
    assert(memories[p.0].id == r[k].older_id && memories[p.1].id == r[k].newer_id);
    if k < l {
        let q = list[order[l] as int];
        assert(order[l] < keys.len());
        assert(shows(r[l], memories, similarities, q));
        assert(sort::precedes(keys, order[k] as int, order[l] as int));
        assert(values[order[k] as int] == r[k].similarity);
        assert(values[order[l] as int] == r[l].similarity);
    }
}

/// Fewer than two memories have no pairs.
pub proof fn law_one_memory_has_no_pairs(
    memories: Seq<MemoryView>,
    similarities: Seq<Vec<u32>>,
    limit: int,
    r: Seq<ContradictionPair>,
)
    requires
        limit >= 0,
        memories.len() < 2,
        found(memories, similarities) is Some,
        finds(memories, similarities, found(memories, similarities)->0, limit, r),
    ensures
        r.len() == 0,
{
    let list = found(memories, similarities)->0;
    if list.len() > 0 {
        lemma_found_sound(
            memories,
            similarities,
            memories.len() - 1,
            memories.len() as int,
            0,
        );
    }
    let order = choose|order: Seq<usize>| #[trigger]
        sort::sorts(file_summarizer::score_keys(similarities_at(similarities, list)), order)
            && reports(memories, similarities, list, order, limit, r);
    assert(order.len() == 0);
}

/// The calendar: which years have a leap day, and how many days every month has.
pub proof fn law_calendar(k: int, year: int)
    ensures
        !leap(4 * k + 1) && !leap(4 * k + 2) && !leap(4 * k + 3),
        leap(400 * k) && !leap(400 * k + 100) && !leap(400 * k + 200) && !leap(400 * k + 300),
        leap(100 * k + 4) && leap(100 * k + 8) && leap(100 * k + 48) && leap(100 * k + 96),
        month_length(year, 1) == 31 && month_length(year, 3) == 31 && month_length(year, 5) == 31
            && month_length(year, 7) == 31 && month_length(year, 8) == 31 && month_length(year, 10)
            == 31 && month_length(year, 12) == 31,
        month_length(year, 4) == 30 && month_length(year, 6) == 30 && month_length(year, 9) == 30
            && month_length(year, 11) == 30,
        month_length(year, 2) == (if leap(year) {
            29int
        } else {
            28
        }),
{
}

/// A date reads as four digits of a year, two of a month and two of a day, with any character
/// between them, and what follows does not matter; the first ten characters are shown of it.
pub proof fn law_dates_are_read(
    year: Seq<char>,
    a: char,
    month: Seq<char>,
    b: char,
    day: Seq<char>,
    rest: Seq<char>,
)
    requires
        year.len() == 4 && month.len() == 2 && day.len() == 2,
        numerals::all_digits(year) && numerals::all_digits(month) && numerals::all_digits(day),
        text::ascii(year + seq![a] + month + seq![b] + day + rest),
    ensures
        spec_days(year + seq![a] + month + seq![b] + day + rest) == Some(
            Some(
                day_number(
                    numerals::value_of(year),
                    numerals::value_of(month),
                    numerals::value_of(day),
                ),
            ),
        ),
        spec_trim_date(year + seq![a] + month + seq![b] + day + rest) == Some(
            year + seq![a] + month + seq![b] + day,
        ),
{
    let s = year + seq![a] + month + seq![b] + day + rest;
    width::lemma_ascii_fitting(s, 0);
    width::lemma_ascii_fitting(s, 4);
    width::lemma_ascii_fitting(s, 5);
    width::lemma_ascii_fitting(s, 7);
    width::lemma_ascii_fitting(s, 8);
    width::lemma_ascii_fitting(s, 10);
    assert(s.subrange(0, 4) =~= year);
    assert(s.subrange(5, 7) =~= month);
    assert(s.subrange(8, 10) =~= day);
    assert(s.take(10) =~= year + seq![a] + month + seq![b] + day);
    numerals::law_numbers_are_read(year, Seq::empty());
    numerals::law_numbers_are_read(month, Seq::empty());
    numerals::law_numbers_are_read(day, Seq::empty());
}

/// A pair of memories is flagged exactly where its similarity is not below 0.85, its dates are
/// more than seven days apart or do not read as dates, and the longer content differs from the
/// other in three of ten places or more.
pub proof fn law_flagged_pairs(a: MemoryView, b: MemoryView, similarity: u32)
    requires
        spec_days(a.created_at@) is Some,
        spec_days(b.created_at@) is Some,
    ensures
        ({
            let apart = match (spec_days(a.created_at@)->0, spec_days(b.created_at@)->0) {
                (Some(x), Some(y)) => x - y > 7 || y - x > 7,
                _ => true,
            };
            let longest = if a.content@.len() > b.content@.len() {
                a.content@.len()
            } else {
                b.content@.len()
            };
            flagged(a, b, similarity) == Some(
                !float32::below(similarity, 0x3f59_999a) && apart && longest > 0 && 10
                    * mismatches(a.content@, b.content@) >= 3 * longest,
            )
        }),
{
}

proof fn lemma_differing_prefix(a: Seq<char>, b: Seq<char>, c: Seq<char>, d: Seq<char>, n: int)
    requires
        n <= a.len(),
        n <= b.len(),
        n <= c.len(),
        n <= d.len(),
        forall|i: int| 0 <= i < n ==> #[trigger] a[i] == c[i],
        forall|i: int| 0 <= i < n ==> #[trigger] b[i] == d[i],
    ensures
        differing(a, b, n) == differing(c, d, n),
    decreases n,
{
    if n > 0 {
        lemma_differing_prefix(a, b, c, d, n - 1);
        assert(a[n - 1] == c[n - 1] && b[n - 1] == d[n - 1]);
    }
}

/// Whether two characters are the same, but for the case of ASCII letters.
pub open spec fn alike(x: char, y: char) -> bool {
    x == y || ('a' <= x <= 'z' && 'A' <= y <= 'Z' && x as int - 'a' as int == y as int - 'A' as int)
        || ('A' <= x <= 'Z' && 'a' <= y <= 'z' && y as int - 'a' as int == x as int - 'A' as int)
}

/// Texts are compared place by place: a place counts where the characters are not the same, but
/// for the case of ASCII letters, and each place that only one of the texts has counts.
pub proof fn law_places_are_compared(a: Seq<char>, b: Seq<char>, x: char, y: char, more: Seq<char>)
    requires
        a.len() == b.len(),
    ensures
        mismatches(Seq::empty(), Seq::empty()) == 0,
        mismatches(a.push(x), b.push(y)) == mismatches(a, b) + (if alike(x, y) {
            0nat
        } else {
            1
        }),
        mismatches(a + more, b) == mismatches(a, b) + more.len(),
{
    let n = a.len() as int;
    lemma_differing_prefix(a, b, a.push(x), b.push(y), n);
    lemma_differing_prefix(a, b, a + more, b, n);
    assert(a.push(x)[n] == x && b.push(y)[n] == y);
}

proof fn lemma_found_complete(
    memories: Seq<MemoryView>,
    similarities: Seq<Vec<u32>>,
    i: int,
    j: int,
    a: int,
    b: int,
)
    requires
        0 <= a < b,
        (a == i && b < j) || (a < i && b < memories.len()),
        0 <= i < memories.len(),
        j <= memories.len(),
        found_before(memories, similarities, i, j) is Some,
        flagged(memories[a], memories[b], similarity_of(similarities, a, b)) == Some(true),
    ensures
        found_before(memories, similarities, i, j)->0.contains((a, b)),
    decreases i, j,
{
    if j > i + 1 {
        let before = found_before(memories, similarities, i, j - 1);
        let all = found_before(memories, similarities, i, j)->0;
        if a == i && b == j - 1 {
            assert(all[before->0.len() as int] == (a, b));
        } else {
            lemma_found_complete(memories, similarities, i, j - 1, a, b);
            let k = choose|k: int| 0 <= k < before->0.len() && before->0[k] == (a, b);
            assert(all[k] == (a, b));
        }
    } else {
        lemma_found_complete(memories, similarities, i - 1, memories.len() as int, a, b);
    }
}

/// Every flagged pair is found, and where there is room for all of them every one is reported.
pub proof fn law_all_flagged_pairs_are_reported(
    memories: Seq<MemoryView>,
    similarities: Seq<Vec<u32>>,
    list: Seq<(int, int)>,
    limit: int,
    r: Seq<ContradictionPair>,
    a: int,
    b: int,
)
    requires
        0 <= a < b < memories.len(),
        found(memories, similarities) == Some(list),
        finds(memories, similarities, list, limit, r),
        flagged(memories[a], memories[b], similarity_of(similarities, a, b)) == Some(true),
        list.len() <= limit,
    ensures
        list.contains((a, b)),
        exists|k: int|
            0 <= k < r.len() && is_pair(
                #[trigger] r[k],
                memories[a],
                memories[b],
                similarity_of(similarities, a, b),
            ),
{
    lemma_found_complete(
        memories,
        similarities,
        memories.len() - 1,
        memories.len() as int,
        a,
        b,
    );
    let at = choose|at: int| 0 <= at < list.len() && list[at] == (a, b);
    let order = choose|order: Seq<usize>| #[trigger]
        sort::sorts(file_summarizer::score_keys(similarities_at(similarities, list)), order)
            && reports(memories, similarities, list, order, limit, r);
    assert(sort::listed(order, at));
    let k = choose|k: int| 0 <= k < order.len() && #[trigger] order[k] == at;
    assert(text::first_n(order, limit) =~= order);
    assert(shows(r[k], memories, similarities, list[order[k] as int]));
}

/// A content is shown on one line, and of one with more than two hundred characters the first two
/// hundred and three dots.
pub proof fn law_contents_are_shown_on_one_line(s: Seq<char>)
    requires
        text::without(s, '\n'),
    ensures
        s.len() <= 200 ==> spec_oneline(s) == s,
        s.len() > 200 ==> spec_oneline(s) == s.take(200) + "..."@,
        spec_oneline(seq!['\n']) == " "@,
{
    reveal_strlit(" ");
    text::law_replace(s, Seq::empty(), '\n', " "@);
}

/// A review shows each pair under its number, with its similarity and divergence, and both memories
/// with their day, their id and their content on one line.
pub proof fn law_pairs_are_shown(
    pairs: Seq<ContradictionPair>,
    figures: Seq<(String, String)>,
    n: int,
    older: Seq<char>,
    newer: Seq<char>,
)
    requires
        0 <= n < pairs.len(),
        spec_report(pairs, figures, n) is Some,
        spec_trim_date(pairs[n].older_created@) == Some(older),
        spec_trim_date(pairs[n].newer_created@) == Some(newer),
    ensures
        spec_report(pairs, figures, 0) == Some(
            "Candidate contradictions ("@ + numerals::spec_decimal(pairs.len()) + "):\n\n"@,
        ),
        ({
            let p = pairs[n];
            let a = "  ["@ + older + "] id "@ + numerals::spec_signed(p.older_id as int) + " — "@
                + spec_oneline(p.older_content@) + "\n"@;
            let b = "  ["@ + newer + "] id "@ + numerals::spec_signed(p.newer_id as int) + " — "@
                + spec_oneline(p.newer_content@) + "\n"@;
            spec_report(pairs, figures, n + 1) == Some(
                spec_report(pairs, figures, n)->0 + ("["@ + numerals::spec_decimal((n + 1) as nat)
                    + "] sim "@ + figures[n].0@ + "  divergence "@ + figures[n].1@ + "%\n"@ + a + b
                    + "    → review these manually; this tool never deletes anything.\n\n"@),
            )
        }),
        spec_review(pairs, figures) == spec_report(pairs, figures, pairs.len() as int),
{
}

/// A text of fewer than ten bytes is no date, nor is one in ASCII whose year, month or day is no
/// number.
pub proof fn law_other_texts_are_no_dates(s: Seq<char>)
    ensures
        width::bytes_of(s) < 10 ==> spec_days(s) == Some(None::<int>),
        text::ascii(s) && s.len() >= 10 && (numerals::spec_parse(s.subrange(0, 4)) is None
            || numerals::spec_parse(s.subrange(5, 7)) is None || numerals::spec_parse(
            s.subrange(8, 10),
        ) is None) ==> spec_days(s) == Some(None::<int>),
{
    if text::ascii(s) && s.len() >= 10 {
        width::lemma_ascii_fitting(s, 0);
        width::lemma_ascii_fitting(s, 4);
        width::lemma_ascii_fitting(s, 5);
        width::lemma_ascii_fitting(s, 7);
        width::lemma_ascii_fitting(s, 8);
        width::lemma_ascii_fitting(s, 10);
    }
}

} // verus!
