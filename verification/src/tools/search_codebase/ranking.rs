//! From rows of the index to ranked matches: what is found, what it counts for, and in which
//! order the files are shown.

use crate::context::file_summarizer;
use crate::context::scoring;
use crate::context::token_estimator;
use crate::float32;
use crate::sort;
use crate::text;
use crate::tools::search_codebase::indexed;
use crate::tools::search_codebase::indexed::{FileWeight, NameMatch, RowWeight, SymbolRow};
use crate::tools::search_codebase::types;
use crate::tools::search_codebase::types::{MatchModel, Matches, SearchMatch};
use crate::tools::search_codebase::Detail;
use vstd::prelude::*;

verus! {

/// What a finding counts for.
#[derive(Debug, Clone, Copy, PartialEq, Eq, Structural)]
pub enum Points {
    /// A symbol: how well its name matches, how similar its meaning is where that counts, and
    /// what both together are multiplied by.
    Symbol { name: NameMatch, similarity: Option<u32>, weight: RowWeight },
    /// A file whose meaning is similar.
    File { similarity: u32 },
    /// A file whose path contains the query.
    Path,
    /// A file whose path contains some of the query's words.
    PathWords { matched: usize, total: usize },
}

/// Something that speaks for a file.
#[derive(Debug)]
pub struct Finding {
    pub path: String,
    pub points: Points,
    /// What is shown of the symbol, if it is one.
    pub symbol: Option<String>,
}

/// The value of a `Finding`.
pub struct FindingModel {
    pub path: Seq<char>,
    pub points: Points,
    pub symbol: Option<Seq<char>>,
}

impl View for Finding {
    type V = FindingModel;

    open spec fn view(&self) -> FindingModel {
        FindingModel {
            path: self.path@,
            points: self.points,
            symbol: types::text_of(self.symbol),
        }
    }
}

/// The values of a list of findings.
pub open spec fn findings(v: Seq<Finding>) -> Seq<FindingModel> {
    v.map_values(|f: Finding| f@)
}

// ── Symbols ──────────────────────────────────────────────────────────

/// The similarity of a symbol, where it counts.
pub open spec fn counted(similarity: Option<u32>) -> Option<u32> {
    match similarity {
        Some(s) => if float32::below(scoring::SEARCH_SYMBOL_SIM_THRESHOLD, s) {
            Some(s)
        } else {
            None
        },
        None => None,
    }
}

/// What a row of the index counts for, if anything. There is no answer where an export would
/// end before it starts, or where its signature would be cut inside a character.
pub open spec fn symbol_finding(
    row: SymbolRow,
    similarity: Option<u32>,
    code: Seq<char>,
    query_lower: Seq<char>,
    words: Seq<Seq<char>>,
    detail: Detail,
) -> Option<Option<FindingModel>> {
    let name_lower = text::lowercase_of(row.name@);
    let name = indexed::spec_name_match(name_lower, query_lower, words);
    if name is Nothing && counted(similarity) is None {
        Some(None)
    } else if indexed::export_kind(row.kind@) && row.start_line > row.end_line {
        None
    } else {
        match indexed::spec_row_line(row, detail, code) {
            Some(line) => Some(
                Some(
                    FindingModel {
                        path: row.file_path@,
                        points: Points::Symbol {
                            name,
                            similarity: counted(similarity),
                            weight: indexed::spec_row_weight(row, name_lower),
                        },
                        symbol: Some(line),
                    },
                ),
            ),
            None => None,
        }
    }
}

/// What the rows at given places count for.
pub open spec fn found_symbols(
    rows: Seq<SymbolRow>,
    similarities: Seq<Option<u32>>,
    codes: Seq<Seq<char>>,
    places: Seq<int>,
    query_lower: Seq<char>,
    words: Seq<Seq<char>>,
    detail: Detail,
) -> Option<Seq<FindingModel>>
    decreases places.len(),
{
    if places.len() == 0 {
        Some(Seq::empty())
    } else {
        let k = places.last();
        match (
            found_symbols(
                rows,
                similarities,
                codes,
                places.drop_last(),
                query_lower,
                words,
                detail,
            ),
            symbol_finding(rows[k], similarities[k], codes[k], query_lower, words, detail),
        ) {
            (Some(before), Some(Some(f))) => Some(before.push(f)),
            (Some(before), Some(None)) => Some(before),
            _ => None,
        }
    }
}

proof fn lemma_found_symbols_none(
    rows: Seq<SymbolRow>,
    similarities: Seq<Option<u32>>,
    codes: Seq<Seq<char>>,
    places: Seq<int>,
    query_lower: Seq<char>,
    words: Seq<Seq<char>>,
    detail: Detail,
    n: int,
)
    requires
        0 <= n <= places.len(),
        found_symbols(
            rows,
            similarities,
            codes,
            places.take(n),
            query_lower,
            words,
            detail,
        ) is None,
    ensures
        found_symbols(rows, similarities, codes, places, query_lower, words, detail) is None,
    decreases places.len(),
{
    if n == places.len() {
        assert(places.take(n) =~= places);
    } else {
        assert(places.drop_last().take(n) =~= places.take(n));
        lemma_found_symbols_none(
            rows,
            similarities,
            codes,
            places.drop_last(),
            query_lower,
            words,
            detail,
            n,
        );
    }
}

fn look_at_symbol(
    row: &SymbolRow,
    similarity: Option<u32>,
    code: &str,
    query_lower: &str,
    words: &[String],
    detail: Detail,
) -> (r: Option<Option<Finding>>)
    ensures
        match r {
            Some(Some(f)) => symbol_finding(
                *row,
                similarity,
                code@,
                query_lower@,
                text::texts(words@),
                detail,
            ) == Some(Some(f@)),
            Some(None) => symbol_finding(
                *row,
                similarity,
                code@,
                query_lower@,
                text::texts(words@),
                detail,
            ) == Some(None::<FindingModel>),
            None => symbol_finding(
                *row,
                similarity,
                code@,
                query_lower@,
                text::texts(words@),
                detail,
            ) is None,
        },
{
    let name_lower = row.name.as_str().to_lowercase();
    let name = indexed::match_name(name_lower.as_str(), query_lower, words);
    let similarity: Option<u32> = match similarity {
        Some(s) => if indexed::symbol_similarity_counts(s) {
            Some(s)
        } else {
            None
        },
        None => None,
    };
    let unnamed = match name {
        NameMatch::Nothing => true,
        _ => false,
    };
    if unnamed && similarity.is_none() {
        return Some(None);
    }
    let is_export = text::same(row.kind.as_str(), "export") || text::same(
        row.kind.as_str(),
        "Export",
    );
    if is_export && row.start_line > row.end_line {
        return None;
    }
    match indexed::row_line(row, detail, code) {
        Some(line) => {
            let weight = indexed::row_weight(row, name_lower.as_str());
            Some(
                Some(
                    Finding {
                        path: row.file_path.clone(),
                        points: Points::Symbol { name, similarity, weight },
                        symbol: Some(line),
                    },
                ),
            )
        },
        None => None,
    }
}

/// What the rows of the index count for, each row once. `similarities` say how similar each
/// symbol's meaning is, where that is known, and `codes` hold its code where it is to be shown.
pub fn symbol_findings(
    rows: &[SymbolRow],
    similarities: &[Option<u32>],
    codes: &[String],
    query_lower: &str,
    words: &[String],
    detail: Detail,
) -> (r: Option<Vec<Finding>>)
    requires
        similarities@.len() == rows@.len(),
        codes@.len() == rows@.len(),
    ensures
        match r {
            Some(v) => found_symbols(
                rows@,
                similarities@,
                text::texts(codes@),
                indexed::first_rows(rows@),
                query_lower@,
                text::texts(words@),
                detail,
            ) == Some(findings(v@)),
            None => found_symbols(
                rows@,
                similarities@,
                text::texts(codes@),
                indexed::first_rows(rows@),
                query_lower@,
                text::texts(words@),
                detail,
            ) is None,
        },
{
    let kept = indexed::distinct_rows(rows);
    let ghost places = indexed::first_rows(rows@);
    let ghost code = text::texts(codes@);
    let ghost named = text::texts(words@);
    proof {
        lemma_first_rows(rows@);
        assert(places.len() == kept@.len());
    }
    let mut out: Vec<Finding> = Vec::new();
    assert(places.take(0) =~= Seq::empty());
    assert(findings(out@) =~= Seq::empty());
    for i in 0..kept.len()
        invariant
            similarities@.len() == rows@.len(),
            codes@.len() == rows@.len(),
            places == indexed::first_rows(rows@),
            places == kept@.map_values(|k: usize| k as int),
            forall|k: int| 0 <= k < places.len() ==> 0 <= #[trigger] places[k] < rows@.len(),
            code == text::texts(codes@),
            named == text::texts(words@),
            found_symbols(
                rows@,
                similarities@,
                code,
                places.take(i as int),
                query_lower@,
                named,
                detail,
            ) == Some(findings(out@)),
    {
        let k: usize = kept[i];
        proof {
            assert(places[i as int] == k);
            assert(places.take(i + 1).drop_last() =~= places.take(i as int));
            assert(places.take(i + 1).last() == k);
            assert(code[k as int] == codes@[k as int]@);
        }
        match look_at_symbol(
            &rows[k],
            similarities[k],
            codes[k].as_str(),
            query_lower,
            words,
            detail,
        ) {
            Some(Some(f)) => {
                let ghost before = findings(out@);
                let ghost model = f@;
                out.push(f);
                assert(findings(out@) =~= before.push(model));
            },
            Some(None) => {},
            None => {
                proof {
                    lemma_found_symbols_none(
                        rows@,
                        similarities@,
                        code,
                        places,
                        query_lower@,
                        named,
                        detail,
                        i + 1,
                    );
                }
                return None;
            },
        }
    }
    assert(places.take(places.len() as int) =~= places);
    Some(out)
}

proof fn lemma_first_rows(rows: Seq<SymbolRow>)
    ensures
        forall|k: int|
            0 <= k < indexed::first_rows(rows).len() ==> 0 <= #[trigger] indexed::first_rows(
                rows,
            )[k] < rows.len(),
    decreases rows.len(),
{
    if rows.len() > 0 {
        let front = rows.drop_last();
        lemma_first_rows(front);
        assert forall|k: int| 0 <= k < indexed::first_rows(rows).len() implies 0
            <= #[trigger] indexed::first_rows(rows)[k] < rows.len() by {
            if k < indexed::first_rows(front).len() {
                assert(indexed::first_rows(rows)[k] == indexed::first_rows(front)[k]);
            }
        }
    }
}

// ── Files ────────────────────────────────────────────────────────────

/// The files whose meaning is similar enough.
pub open spec fn found_files(paths: Seq<Seq<char>>, similarities: Seq<u32>) -> Seq<FindingModel>
    decreases paths.len(),
{
    if paths.len() == 0 {
        Seq::empty()
    } else {
        let n = paths.len() - 1;
        let before = found_files(paths.drop_last(), similarities);
        if float32::below(scoring::SEARCH_FILE_SIM_THRESHOLD, similarities[n]) {
            before.push(
                FindingModel {
                    path: paths.last(),
                    points: Points::File { similarity: similarities[n] },
                    symbol: None,
                },
            )
        } else {
            before
        }
    }
}

/// The files whose meaning is similar enough to that of the query.
pub fn file_findings(paths: &[String], similarities: &[u32]) -> (r: Vec<Finding>)
    requires
        similarities@.len() == paths@.len(),
    ensures
        findings(r@) == found_files(text::texts(paths@), similarities@),
{
    let ghost all = text::texts(paths@);
    let mut out: Vec<Finding> = Vec::new();
    assert(all.take(0) =~= Seq::empty());
    assert(findings(out@) =~= Seq::empty());
    for i in 0..paths.len()
        invariant
            similarities@.len() == paths@.len(),
            all == text::texts(paths@),
            findings(out@) == found_files(all.take(i as int), similarities@),
    {
        proof {
            assert(all.take(i + 1).drop_last() =~= all.take(i as int));
            assert(all.take(i + 1).last() == paths@[i as int]@);
        }
        let similarity: u32 = similarities[i];
        if indexed::file_similarity_counts(similarity) {
            let ghost before = findings(out@);
            let f = Finding {
                path: paths[i].clone(),
                points: Points::File { similarity },
                symbol: None,
            };
            let ghost model = f@;
            out.push(f);
            assert(findings(out@) =~= before.push(model));
        }
    }
    assert(all.take(all.len() as int) =~= all);
    out
}

/// The files whose paths contain the query.
pub open spec fn found_paths(paths: Seq<Seq<char>>) -> Seq<FindingModel> {
    paths.map_values(
        |p: Seq<char>| FindingModel { path: p, points: Points::Path, symbol: None },
    )
}

/// The files whose paths contain words of the query. There is no answer where a beginning of a
/// word ends inside a character.
pub open spec fn found_words(paths: Seq<Seq<char>>, words: Seq<Seq<char>>) -> Option<
    Seq<FindingModel>,
>
    decreases paths.len(),
{
    if paths.len() == 0 {
        Some(Seq::empty())
    } else {
        match (
            found_words(paths.drop_last(), words),
            indexed::spec_path_hits(text::lowercase_of(paths.last()), words),
        ) {
            (Some(before), Some(n)) => if n > 0 {
                Some(
                    before.push(
                        FindingModel {
                            path: paths.last(),
                            points: Points::PathWords {
                                matched: n as usize,
                                total: words.len() as usize,
                            },
                            symbol: None,
                        },
                    ),
                )
            } else {
                Some(before)
            },
            _ => None,
        }
    }
}

proof fn lemma_found_words_none(paths: Seq<Seq<char>>, words: Seq<Seq<char>>, n: int)
    requires
        0 <= n <= paths.len(),
        found_words(paths.take(n), words) is None,
    ensures
        found_words(paths, words) is None,
    decreases paths.len(),
{
    if n == paths.len() {
        assert(paths.take(n) =~= paths);
    } else {
        assert(paths.drop_last().take(n) =~= paths.take(n));
        lemma_found_words_none(paths.drop_last(), words, n);
    }
}

/// The files whose paths contain the query, and then all files whose paths contain some of its
/// words.
pub fn path_findings(matching: &[String], paths: &[String], words: &[String]) -> (r: Option<
    Vec<Finding>,
>)
    ensures
        match r {
            Some(v) => match found_words(text::texts(paths@), text::texts(words@)) {
                Some(by_words) => findings(v@) == found_paths(text::texts(matching@)) + by_words,
                None => false,
            },
            None => found_words(text::texts(paths@), text::texts(words@)) is None,
        },
{
    let ghost whole = found_paths(text::texts(matching@));
    let ghost all = text::texts(paths@);
    let ghost named = text::texts(words@);
    let mut out: Vec<Finding> = Vec::new();
    assert(findings(out@) =~= whole.take(0));
    for i in 0..matching.len()
        invariant
            whole == found_paths(text::texts(matching@)),
            findings(out@) == whole.take(i as int),
    {
        let ghost before = findings(out@);
        out.push(Finding { path: matching[i].clone(), points: Points::Path, symbol: None });
        assert(findings(out@) =~= before.push(whole[i as int]));
        assert(whole.take(i + 1) =~= before.push(whole[i as int]));
    }
    assert(whole.take(whole.len() as int) =~= whole);
    assert(all.take(0) =~= Seq::empty());
    assert(named.len() == words@.len());
    assert(whole + Seq::<FindingModel>::empty() =~= whole);
    for i in 0..paths.len()
        invariant
            all == text::texts(paths@),
            named == text::texts(words@),
            named.len() == words@.len(),
            match found_words(all.take(i as int), named) {
                Some(by_words) => findings(out@) == whole + by_words,
                None => false,
            },
    {
        proof {
            assert(all.take(i + 1).drop_last() =~= all.take(i as int));
            assert(all.take(i + 1).last() == paths@[i as int]@);
        }
        let lower = paths[i].as_str().to_lowercase();
        match indexed::path_hits(lower.as_str(), words) {
            Some(matched) => {
                if matched > 0 {
                    let ghost before = findings(out@);
                    let ghost by_words = found_words(all.take(i as int), named)->0;
                    let f = Finding {
                        path: paths[i].clone(),
                        points: Points::PathWords { matched, total: words.len() },
                        symbol: None,
                    };
                    let ghost model = f@;
                    out.push(f);
                    assert(findings(out@) =~= before.push(model));
                    assert(before.push(model) =~= whole + by_words.push(model));
                }
            },
            None => {
                proof {
                    lemma_found_words_none(all, named, i + 1);
                }
                return None;
            },
        }
    }
    assert(all.take(all.len() as int) =~= all);
    Some(out)
}

// ── Matches ──────────────────────────────────────────────────────────

/// The matches of findings, and what each finding adds to the score of which match.
pub struct Collected {
    pub matches: Matches,
    pub points: Vec<(usize, Points)>,
}

/// The matches of a list of findings.
pub open spec fn matched(list: Seq<FindingModel>) -> Seq<MatchModel>
    decreases list.len(),
{
    if list.len() == 0 {
        Seq::empty()
    } else {
        types::spec_upsert(matched(list.drop_last()), list.last().path, None, list.last().symbol)
    }
}

/// What each finding adds to the score of which match; one without a match adds nothing.
pub open spec fn scored(list: Seq<FindingModel>) -> Seq<(int, Points)>
    decreases list.len(),
{
    if list.len() == 0 {
        Seq::empty()
    } else {
        match types::spec_slot(matched(list.drop_last()), list.last().path) {
            Some(i) => scored(list.drop_last()).push((i, list.last().points)),
            None => scored(list.drop_last()),
        }
    }
}

/// The values of a list of scores.
pub open spec fn points_of(v: Seq<(usize, Points)>) -> Seq<(int, Points)> {
    v.map_values(|p: (usize, Points)| (p.0 as int, p.1))
}

/// The matches of findings, and what each finding adds to the score of which match.
pub fn collect(list: Vec<Finding>) -> (r: Collected)
    ensures
        r.matches.wf(),
        r.matches@ == matched(findings(list@)),
        points_of(r.points@) == scored(findings(list@)),
        forall|i: int|
            0 <= i < r.points@.len() ==> (#[trigger] r.points@[i]).0 < r.matches@.len(),
{
    let ghost all = findings(list@);
    let mut matches = Matches::new();
    let mut points: Vec<(usize, Points)> = Vec::new();
    assert(all.take(0) =~= Seq::empty());
    assert(points_of(points@) =~= Seq::empty());
    for i in 0..list.len()
        invariant
            matches.wf(),
            all == findings(list@),
            matches@ == matched(all.take(i as int)),
            points_of(points@) == scored(all.take(i as int)),
            forall|k: int|
                0 <= k < points@.len() ==> (#[trigger] points@[k]).0 < matches@.len(),
    {
        proof {
            assert(all.take(i + 1).drop_last() =~= all.take(i as int));
            assert(all.take(i + 1).last() == list@[i as int]@);
        }
        let f = &list[i];
        let symbol = match &f.symbol {
            Some(t) => Some(t.clone()),
            None => None,
        };
        let ghost before = matches@;
        let slot = matches.upsert_match(f.path.as_str(), None, symbol);
        assert(before.len() <= matches@.len());
        match slot {
            Some(k) => {
                let ghost done = points_of(points@);
                points.push((k, f.points));
                assert(points_of(points@) =~= done.push((k as int, f.points)));
            },
            None => {},
        }
    }
    assert(all.take(all.len() as int) =~= all);
    Collected { matches, points }
}

/// The matches in the order of their scores, highest first, with the places that they had.
pub fn sort_matches(list: Vec<SearchMatch>, scores: &[u32]) -> (r: (Vec<SearchMatch>, Vec<usize>))
    requires
        scores@.len() == list@.len(),
    ensures
        sort::sorts(file_summarizer::score_keys(scores@), r.1@),
        types::matches_of(r.0@) == file_summarizer::in_order(types::matches_of(list@), r.1@),
{
    let order = file_summarizer::order_by_score(scores);
    let ghost first = list@;
    let ghost models = types::matches_of(first);
    let ghost sorted = file_summarizer::in_order(models, order@);
    let ghost keys = file_summarizer::score_keys(scores@);
    let mut list = list;
    let mut out: Vec<SearchMatch> = Vec::new();
    assert(types::matches_of(out@) =~= sorted.take(0));
    for i in 0..order.len()
        invariant
            sort::sorts(keys, order@),
            keys.len() == first.len(),
            list@.len() == first.len(),
            models == types::matches_of(first),
            sorted == file_summarizer::in_order(models, order@),
            forall|k: int| i <= k < order@.len() ==> list@[#[trigger] order@[k] as int]
                == first[order@[k] as int],
            types::matches_of(out@) == sorted.take(i as int),
    {
        let place: usize = order[i];
        assert(place < keys.len());
        let mut taken = SearchMatch {
            relative_path: String::new(),
            context_lines: Vec::new(),
            symbol_matches: Vec::new(),
        };
        assert(list@[order@[i as int] as int] == first[place as int]);
        std::mem::swap(&mut list[place], &mut taken);
        assert forall|k: int| i + 1 <= k < order@.len() implies list@[#[trigger] order@[k] as int]
            == first[order@[k] as int] by {
            assert(sort::precedes(keys, order@[i as int] as int, order@[k] as int));
        }
        let ghost before = types::matches_of(out@);
        let ghost model = taken@;
        assert(model == sorted[i as int]);
        out.push(taken);
        assert(types::matches_of(out@) =~= before.push(model));
        assert(sorted.take(i + 1) =~= before.push(sorted[i as int]));
    }
    assert(sorted.take(sorted.len() as int) =~= sorted);
    (out, order)
}

/// Looks at the content of a match: sets the line that is shown, and says what the score is
/// multiplied by. There is no answer, and nothing is set, where a line cannot be searched.
pub fn analyze_match(m: &mut SearchMatch, content: &str, words: &[String]) -> (r: Option<
    FileWeight,
>)
    ensures
        match indexed::spec_analyze(text::spec_lines(content@), text::texts(words@)) {
            Some(a) => r == Some(indexed::weight_of(a)) && final(m)@ == (MatchModel {
                relative_path: old(m)@.relative_path,
                context_lines: types::push_up_to(
                    old(m)@.context_lines,
                    indexed::line_shown(a),
                    1,
                ),
                symbol_matches: old(m)@.symbol_matches,
            }),
            None => r is None && final(m)@ == old(m)@,
        },
{
    match indexed::analyze_lines(content, words) {
        Some(a) => {
            let weight = a.weight();
            m.show_line(a.shown_line());
            Some(weight)
        },
        None => None,
    }
}

/// Whether `r` are the results of a search: the best matches, the best first and level ones as
/// they stand, no more than asked for.
pub open spec fn shows_best(
    list: Seq<MatchModel>,
    scores: Seq<u32>,
    max_results: u32,
    query: Seq<char>,
    token_budget: u32,
    semantic: bool,
    r: Seq<char>,
) -> bool {
    exists|order: Seq<usize>| #[trigger]
        sort::sorts(file_summarizer::score_keys(scores), order) && r == types::spec_format_results(
            file_summarizer::in_order(list, text::first_n(order, max_results as int)),
            query,
            token_budget as int,
            semantic,
        )
}

/// The best matches as text.
pub fn format_best(
    matches: &[SearchMatch],
    scores: &[u32],
    max_results: u32,
    query: &str,
    token_budget: u32,
    semantic: bool,
) -> (r: String)
    requires
        scores@.len() == matches@.len(),
    ensures
        shows_best(
            types::matches_of(matches@),
            scores@,
            max_results,
            query@,
            token_budget,
            semantic,
            r@,
        ),
{
    let chosen = indexed::best(scores, max_results);
    proof {
        let order = choose|order: Seq<usize>| #[trigger]
            sort::sorts(file_summarizer::score_keys(scores@), order) && chosen@ == text::first_n(
                order,
                max_results as int,
            );
        assert forall|i: int| 0 <= i < chosen@.len() implies #[trigger] chosen@[i]
            < matches@.len() by {
            assert(chosen@[i] == order[i]);
        }
    }
    types::format_picked(matches, chosen.as_slice(), query, token_budget, semantic)
}

// ── Laws ─────────────────────────────────────────────────────────────

/// Collected matches are bounded: one for each file, with at most three symbols and one line,
/// and no more than the limit.
pub proof fn law_collected_matches_are_bounded(list: Seq<FindingModel>)
    ensures
        types::one_per_file(matched(list)),
        types::within_caps(matched(list)),
        matched(list).len() <= scoring::MAX_SEARCH_MATCHES,
    decreases list.len(),
{
    if list.len() > 0 {
        law_collected_matches_are_bounded(list.drop_last());
        types::law_upsert_keeps_matches_bounded(
            matched(list.drop_last()),
            list.last().path,
            None,
            list.last().symbol,
        );
    }
}

/// A symbol counts where its name matches, and where its meaning is more similar than 0.3, and
/// nowhere else. It counts for its file, under the weight of its row.
pub proof fn law_symbols_count(
    row: SymbolRow,
    similarity: Option<u32>,
    code: Seq<char>,
    query_lower: Seq<char>,
    words: Seq<Seq<char>>,
    detail: Detail,
)
    ensures
        ({
            let name_lower = text::lowercase_of(row.name@);
            let name = indexed::spec_name_match(name_lower, query_lower, words);
            let similar = similarity matches Some(s) && float32::below(0x3e99_999a, s);
            let found = symbol_finding(row, similarity, code, query_lower, words, detail);
            &&& name is Nothing && !similar ==> found == Some(None::<FindingModel>)
            &&& (name !is Nothing || similar) ==> match found {
                Some(Some(f)) => {
                    &&& f.path == row.file_path@
                    &&& f.symbol == indexed::spec_row_line(row, detail, code) && f.symbol is Some
                    &&& f.points == (Points::Symbol {
                        name,
                        similarity: if similar {
                            similarity
                        } else {
                            None
                        },
                        weight: indexed::spec_row_weight(row, name_lower),
                    })
                },
                Some(None) => false,
                None => true,
            }
        }),
{
}

/// A file counts by its meaning where that is more similar than 0.35, and nowhere else.
pub proof fn law_similar_files_count(
    paths: Seq<Seq<char>>,
    similarities: Seq<u32>,
    path: Seq<char>,
    similarity: u32,
)
    requires
        paths.len() == similarities.len(),
    ensures
        ({
            let before = found_files(paths, similarities);
            let after = found_files(paths.push(path), similarities.push(similarity));
            &&& float32::below(0x3eb3_3333, similarity) ==> after == before.push(
                FindingModel { path, points: Points::File { similarity }, symbol: None },
            )
            &&& !float32::below(0x3eb3_3333, similarity) ==> after == before
        }),
{
    assert(paths.push(path).drop_last() =~= paths);
    lemma_found_files(paths, similarities, similarities.push(similarity));
}

proof fn lemma_found_files(paths: Seq<Seq<char>>, a: Seq<u32>, b: Seq<u32>)
    requires
        a.len() >= paths.len(),
        b.len() >= paths.len(),
        forall|i: int| 0 <= i < paths.len() ==> #[trigger] a[i] == b[i],
    ensures
        found_files(paths, a) == found_files(paths, b),
    decreases paths.len(),
{
    if paths.len() > 0 {
        lemma_found_files(paths.drop_last(), a, b);
        assert(a[paths.len() - 1] == b[paths.len() - 1]);
    }
}

/// Every path that contains some word of the query counts, with how many of the words it
/// contains; every other path does not.
pub proof fn law_paths_with_words_count(paths: Seq<Seq<char>>, words: Seq<Seq<char>>, path: Seq<char>)
    requires
        found_words(paths, words) is Some,
    ensures
        match indexed::spec_path_hits(text::lowercase_of(path), words) {
            Some(n) => found_words(paths.push(path), words) == Some(
                if n > 0 {
                    found_words(paths, words)->0.push(
                        FindingModel {
                            path,
                            points: Points::PathWords {
                                matched: n as usize,
                                total: words.len() as usize,
                            },
                            symbol: None,
                        },
                    )
                } else {
                    found_words(paths, words)->0
                },
            ),
            None => found_words(paths.push(path), words) is None,
        },
{
    assert(paths.push(path).drop_last() =~= paths);
}

/// As long as there is room for all files, every finding counts, once, and for the match of its
/// own file.
pub proof fn law_findings_count_for_their_file(list: Seq<FindingModel>)
    requires
        list.len() <= 1000,
    ensures
        matched(list).len() <= list.len(),
        types::one_per_file(matched(list)),
        types::within_caps(matched(list)),
        scored(list).len() == list.len(),
        forall|i: int|
            0 <= i < list.len() ==> {
                let (place, points) = #[trigger] scored(list)[i];
                0 <= place < matched(list).len() && matched(list)[place].relative_path
                    == list[i].path && points == list[i].points
            },
    decreases list.len(),
{
    if list.len() > 0 {
        let rest = list.drop_last();
        let f = list.last();
        law_findings_count_for_their_file(rest);
        let old_matches = matched(rest);
        types::law_upsert_keeps_matches_bounded(old_matches, f.path, None, f.symbol);
        types::lemma_place_of(old_matches, f.path);
        let new_matches = matched(list);
        match types::place_of(old_matches, f.path) {
            Some(k) => {
                assert(new_matches.len() == old_matches.len());
                assert(new_matches[k].relative_path == f.path);
            },
            None => {
                assert(old_matches.len() < 1000);
                assert(new_matches[old_matches.len() as int].relative_path == f.path);
            },
        }
        assert forall|i: int| 0 <= i < list.len() implies {
            let (place, points) = #[trigger] scored(list)[i];
            0 <= place < new_matches.len() && new_matches[place].relative_path == list[i].path
                && points == list[i].points
        } by {
            if i < rest.len() {
                assert(scored(list)[i] == scored(rest)[i]);
                assert(rest[i] == list[i]);
                let place = scored(rest)[i].0;
                assert(new_matches[place].relative_path == old_matches[place].relative_path);
            }
        }
    }
}

/// The results of a search start with the match that no other has a higher score than, where it
/// fits the budget.
pub proof fn law_best_match_comes_first(
    list: Seq<MatchModel>,
    scores: Seq<u32>,
    max_results: u32,
    query: Seq<char>,
    token_budget: u32,
    r: Seq<char>,
)
    requires
        scores.len() == list.len(),
        list.len() > 0,
        max_results > 0,
        shows_best(list, scores, max_results, query, token_budget, true, r),
    ensures
        exists|k: int|
            0 <= k < list.len() && (forall|j: int|
                0 <= j < list.len() ==> float32::key(#[trigger] scores[j]) <= float32::key(
                    scores[k],
                )) && (token_estimator::spec_tokens(types::entry(#[trigger] list[k])) as int
                % 0x1_0000_0000 <= token_budget ==> text::begins(r, types::entry(list[k]))),
{
    let keys = file_summarizer::score_keys(scores);
    let order = choose|order: Seq<usize>| #[trigger]
        sort::sorts(keys, order) && r == types::spec_format_results(
            file_summarizer::in_order(list, text::first_n(order, max_results as int)),
            query,
            token_budget as int,
            true,
        );
    sort::law_first_is_least(keys, order);
    let k = order[0] as int;
    let shown = file_summarizer::in_order(list, text::first_n(order, max_results as int));
    assert(shown.len() > 0 && shown[0] == list[k]);
    assert forall|j: int| 0 <= j < list.len() implies float32::key(#[trigger] scores[j])
        <= float32::key(scores[k]) by {
        assert(keys[k].0 >= keys[j].0);
    }
    if token_estimator::spec_tokens(types::entry(list[k])) as int % 0x1_0000_0000 <= token_budget {
        types::law_first_result_comes_first(shown, query, token_budget as int);
    }
    assert(list[k] == list[k]);
}

/// The rows at given places are looked at one after the other, and every one that counts is among the
/// findings, in their order.
pub proof fn law_rows_are_looked_at(
    rows: Seq<SymbolRow>,
    similarities: Seq<Option<u32>>,
    codes: Seq<Seq<char>>,
    places: Seq<int>,
    k: int,
    query_lower: Seq<char>,
    words: Seq<Seq<char>>,
    detail: Detail,
)
    ensures
        found_symbols(rows, similarities, codes, Seq::empty(), query_lower, words, detail) == Some(
            Seq::<FindingModel>::empty(),
        ),
        match (
            found_symbols(rows, similarities, codes, places, query_lower, words, detail),
            symbol_finding(rows[k], similarities[k], codes[k], query_lower, words, detail),
        ) {
            (Some(before), Some(Some(f))) => found_symbols(
                rows,
                similarities,
                codes,
                places.push(k),
                query_lower,
                words,
                detail,
            ) == Some(before.push(f)),
            (Some(before), Some(None)) => found_symbols(
                rows,
                similarities,
                codes,
                places.push(k),
                query_lower,
                words,
                detail,
            ) == Some(before),
            _ => found_symbols(
                rows,
                similarities,
                codes,
                places.push(k),
                query_lower,
                words,
                detail,
            ) is None,
        },
{
    assert(places.push(k).drop_last() =~= places);
}

/// Every path that contains the query counts as such.
pub proof fn law_paths_with_the_query_count(paths: Seq<Seq<char>>, i: int)
    requires
        0 <= i < paths.len(),
    ensures
        found_paths(paths).len() == paths.len(),
        found_paths(paths)[i] == (FindingModel {
            path: paths[i],
            points: Points::Path,
            symbol: None,
        }),
{
}

/// Whether every match of a list is one of another.
pub open spec fn taken_from(shown: Seq<MatchModel>, list: Seq<MatchModel>) -> bool {
    forall|i: int| 0 <= i < shown.len() ==> list.contains(#[trigger] shown[i])
}

/// The results of a search are as many of its matches as were asked for, or all where there are no
/// more, and nothing else.
pub proof fn law_as_many_results_as_asked_for(
    list: Seq<MatchModel>,
    scores: Seq<u32>,
    max_results: u32,
    query: Seq<char>,
    token_budget: u32,
    semantic: bool,
    r: Seq<char>,
)
    requires
        scores.len() == list.len(),
        shows_best(list, scores, max_results, query, token_budget, semantic, r),
    ensures
        exists|shown: Seq<MatchModel>| #[trigger]
            taken_from(shown, list) && shown.len() == (if list.len() <= max_results {
                list.len()
            } else {
                max_results as nat
            }) && r == types::spec_format_results(shown, query, token_budget as int, semantic),
{
    let order = choose|order: Seq<usize>| #[trigger]
        sort::sorts(file_summarizer::score_keys(scores), order) && r == types::spec_format_results(
            file_summarizer::in_order(list, text::first_n(order, max_results as int)),
            query,
            token_budget as int,
            semantic,
        );
    let first = text::first_n(order, max_results as int);
    let shown = file_summarizer::in_order(list, first);
    assert forall|i: int| 0 <= i < shown.len() implies list.contains(#[trigger] shown[i]) by {
        assert(first[i] == order[i]);
        assert(order[i] < list.len());
        assert(shown[i] == list[order[i] as int]);
    }
    assert(taken_from(shown, list));
}

} // verus!
