//! How relevant a symbol is to a query: the signals that its score is made of.

use crate::float32;
use crate::indexer::symbol_extractor::{Symbol, SymbolModel};
use crate::text;
use crate::width;
use core::cmp::Ordering;
use vstd::prelude::*;

verus! {

/// Compare two scores, given by their bit patterns, for descending sort (highest first).
/// A pattern that is not a number counts as equal to everything.
pub fn cmp_score_desc(a: u32, b: u32) -> (r: Ordering)
    ensures
        r == (if float32::below(b, a) {
            Ordering::Less
        } else if float32::below(a, b) {
            Ordering::Greater
        } else {
            Ordering::Equal
        }),
{
    if float32::less(b, a) {
        Ordering::Less
    } else if float32::less(a, b) {
        Ordering::Greater
    } else {
        Ordering::Equal
    }
}

// ── Word matches ─────────────────────────────────────────────────────

/// Whether `n` characters at index `i` of a text stand at word boundaries: a boundary is an
/// end of the text, a character that is no ASCII letter or digit, or, behind them, an
/// uppercase letter.
pub open spec fn bounded(h: Seq<char>, i: int, n: nat) -> bool {
    &&& (i == 0 || !text::ascii_alphanumeric(h[i - 1]))
    &&& (i + n >= h.len() || !text::ascii_alphanumeric(h[i + n]) || 'A' <= h[i + n] <= 'Z')
}

/// Whether a text occurs at word boundaries from index `i` on. The search goes on one byte
/// behind a rejected occurrence, and there is no answer where no character starts there.
pub open spec fn word_search(h: Seq<char>, n: Seq<char>, i: int) -> Option<bool>
    decreases h.len() - i + 1,
{
    if i < 0 || i + n.len() > h.len() {
        Some(false)
    } else if !text::occurs_at(h, n, i) {
        word_search(h, n, i + 1)
    } else if bounded(h, i, n.len()) {
        Some(true)
    } else if i < h.len() && width::char_bytes(h[i]) == 1 {
        word_search(h, n, i + 1)
    } else {
        None
    }
}

/// Whether the search has an answer.
pub open spec fn searchable(h: Seq<char>, n: Seq<char>) -> bool {
    word_search(h, n, 0) is Some
}

/// Whether a text occurs at word boundaries.
pub open spec fn occurs_as_word(h: Seq<char>, n: Seq<char>) -> bool {
    exists|i: int| #[trigger] text::occurs_at(h, n, i) && bounded(h, i, n.len())
}

proof fn lemma_word_search(h: Seq<char>, n: Seq<char>, i: int)
    requires
        0 <= i,
        word_search(h, n, i) is Some,
    ensures
        word_search(h, n, i) == Some(
            exists|j: int| i <= j && #[trigger] text::occurs_at(h, n, j) && bounded(h, j, n.len()),
        ),
    decreases h.len() - i + 1,
{
    if i + n.len() > h.len() {
    } else if !text::occurs_at(h, n, i) || !bounded(h, i, n.len()) {
        lemma_word_search(h, n, i + 1);
        let found = exists|j: int|
            i <= j && #[trigger] text::occurs_at(h, n, j) && bounded(h, j, n.len());
        let later = exists|j: int|
            i + 1 <= j && #[trigger] text::occurs_at(h, n, j) && bounded(h, j, n.len());
        if found {
            let j = choose|j: int|
                i <= j && #[trigger] text::occurs_at(h, n, j) && bounded(h, j, n.len());
            assert(i + 1 <= j);
            assert(later);
        }
        if later {
            let j = choose|j: int|
                i + 1 <= j && #[trigger] text::occurs_at(h, n, j) && bounded(h, j, n.len());
            assert(found);
        }
        assert(found == later);
    }
}

/// The search has an answer wherever the text that is looked for starts with an ASCII
/// character.
pub proof fn law_ascii_words_are_searchable(h: Seq<char>, n: Seq<char>)
    requires
        n.len() > 0,
        (n[0] as u32) < 0x80,
    ensures
        searchable(h, n),
{
    lemma_ascii_search(h, n, 0);
}

proof fn lemma_ascii_search(h: Seq<char>, n: Seq<char>, i: int)
    requires
        0 <= i,
        n.len() > 0,
        (n[0] as u32) < 0x80,
    ensures
        word_search(h, n, i) is Some,
    decreases h.len() - i + 1,
{
    if i + n.len() <= h.len() {
        if text::occurs_at(h, n, i) {
            assert(h.subrange(i, i + n.len())[0] == h[i]);
            width::lemma_char_bytes(h[i]);
        }
        lemma_ascii_search(h, n, i + 1);
    }
}

fn is_ascii_alphanumeric(c: char) -> (r: bool)
    ensures
        r == text::ascii_alphanumeric(c),
{
    ('a' <= c && c <= 'z') || ('A' <= c && c <= 'Z') || ('0' <= c && c <= '9')
}

/// Whether characters of a text stand at word boundaries.
pub fn is_bounded(h: &[char], i: usize, m: usize) -> (r: bool)
    requires
        i + m <= h@.len(),
    ensures
        r == bounded(h@, i as int, m as nat),
{
    let n: usize = h.len();
    let before = i == 0 || !is_ascii_alphanumeric(h[i - 1]);
    let behind = i + m >= n || !is_ascii_alphanumeric(h[i + m]) || ('A' <= h[i + m] && h[i + m]
        <= 'Z');
    before && behind
}

/// Whether a text occurs at word boundaries, if the search has an answer.
pub fn find_word(haystack: &[char], needle: &[char]) -> (r: Option<bool>)
    ensures
        r == word_search(haystack@, needle@, 0),
{
    let n: usize = haystack.len();
    let m: usize = needle.len();
    if m > n {
        return Some(false);
    }
    let mut i: usize = 0;
    while i <= n - m
        invariant
            n == haystack@.len(),
            m == needle@.len(),
            m <= n,
            i <= n - m + 1,
            word_search(haystack@, needle@, 0) == word_search(haystack@, needle@, i as int),
        decreases n - m + 1 - i,
    {
        if text::matches_at(haystack, needle, i) {
            if is_bounded(haystack, i, m) {
                return Some(true);
            }
            if i >= n || width::char_width(haystack[i]) != 1 {
                return None;
            }
        }
        if i == n - m {
            assert(word_search(haystack@, needle@, i + 1) == Some(false));
            return Some(false);
        }
        i = i + 1;
    }
    Some(false)
}

/// Check if `needle` appears in `haystack` at a word boundary. A word boundary is: start or
/// end of string, underscore, non-alphanumeric character, or a camelCase transition.
pub fn has_word_match(haystack: &str, needle: &str) -> (r: bool)
    requires
        searchable(haystack@, needle@),
    ensures
        r == occurs_as_word(haystack@, needle@),
{
    let h = text::chars_of(haystack);
    let n = text::chars_of(needle);
    proof {
        lemma_word_search(haystack@, needle@, 0);
        if occurs_as_word(haystack@, needle@) {
            let j = choose|j: int| #[trigger]
                text::occurs_at(haystack@, needle@, j) && bounded(haystack@, j, needle@.len());
            assert(0 <= j);
        }
    }
    match find_word(h.as_slice(), n.as_slice()) {
        Some(found) => found,
        None => false,
    }
}

// ── Signals ──────────────────────────────────────────────────────────

/// What speaks for a symbol, apart from the meaning of its text.
#[derive(Debug, Clone, Copy, PartialEq, Eq, Structural)]
pub struct SymbolSignals {
    /// The name is the query.
    pub exact_name: bool,
    /// The name contains the query or is contained in it, and is not the query.
    pub partial_name: bool,
    /// How many of the query's longer words the signature has.
    pub keyword_hits: usize,
    /// The symbol has more than ten lines.
    pub large: bool,
}

/// How many of a list of words, of at least three bytes, a text has at word boundaries.
pub open spec fn word_hits(signature: Seq<char>, words: Seq<Seq<char>>) -> Option<nat>
    decreases words.len(),
{
    if words.len() == 0 {
        Some(0nat)
    } else {
        match word_hits(signature, words.drop_last()) {
            Some(n) => if width::bytes_of(words.last()) < 3 {
                Some(n)
            } else {
                match word_search(signature, words.last(), 0) {
                    Some(true) => Some(n + 1),
                    Some(false) => Some(n),
                    None => None,
                }
            },
            None => None,
        }
    }
}

/// What speaks for a symbol, given its name, signature and the query in lower case.
pub open spec fn signals_of(
    name: Seq<char>,
    signature: Seq<char>,
    query: Seq<char>,
    start_line: nat,
    end_line: nat,
) -> Option<SymbolSignals> {
    match word_hits(signature, text::spec_words(query)) {
        Some(n) => Some(
            SymbolSignals {
                exact_name: name == query,
                partial_name: name != query && (text::has(name, query) || text::has(query, name)),
                keyword_hits: n as usize,
                large: end_line >= start_line + 10,
            },
        ),
        None => None,
    }
}

proof fn lemma_unsearchable(signature: Seq<char>, words: Seq<Seq<char>>, i: int)
    requires
        0 <= i <= words.len(),
        word_hits(signature, words.take(i)) is None,
    ensures
        word_hits(signature, words) is None,
    decreases words.len() - i,
{
    if i == words.len() {
        assert(words.take(i) =~= words);
    } else {
        assert(words.take(i + 1).drop_last() =~= words.take(i));
        lemma_unsearchable(signature, words, i + 1);
    }
}

fn long_enough(word: &[char]) -> (r: bool)
    ensures
        r == (width::bytes_of(word@) >= 3),
{
    let s = text::string_of(word);
    width::byte_len(s.as_str()) >= 3
}

fn count_hits(signature: &[char], words: &[&[char]]) -> (r: Option<usize>)
    ensures
        match r {
            Some(n) => word_hits(signature@, text::slices(words@)) == Some(n as nat),
            None => word_hits(signature@, text::slices(words@)) is None,
        },
{
    let ghost all = text::slices(words@);
    let mut n: usize = 0;
    assert(all.take(0) =~= Seq::empty());
    for i in 0..words.len()
        invariant
            all == text::slices(words@),
            n <= i,
            word_hits(signature@, all.take(i as int)) == Some(n as nat),
    {
        proof {
            assert(all.take(i + 1).drop_last() =~= all.take(i as int));
            assert(all.take(i + 1).last() == words@[i as int]@);
        }
        if long_enough(words[i]) {
            match find_word(signature, words[i]) {
                Some(true) => {
                    n = n + 1;
                },
                Some(false) => {},
                None => {
                    proof {
                        lemma_unsearchable(signature@, all, i + 1);
                    }
                    return None;
                },
            }
        }
    }
    assert(all.take(all.len() as int) =~= all);
    Some(n)
}

/// What speaks for a symbol, given its name, signature and the query in lower case. There is
/// no answer where the signature cannot be searched for a word of the query.
pub fn signals_for(
    name: &str,
    signature: &str,
    query: &str,
    start_line: usize,
    end_line: usize,
) -> (r: Option<SymbolSignals>)
    ensures
        r == signals_of(name@, signature@, query@, start_line as nat, end_line as nat),
{
    let q = text::chars_of(query);
    let sig = text::chars_of(signature);
    let words = text::words(q.as_slice());
    match count_hits(sig.as_slice(), words.as_slice()) {
        Some(n) => {
            let exact_name = text::same(name, query);
            Some(
                SymbolSignals {
                    exact_name,
                    partial_name: !exact_name && (text::str_contains(name, query)
                        || text::str_contains(query, name)),
                    keyword_hits: n,
                    large: end_line >= start_line && end_line - start_line >= 10,
                },
            )
        },
        None => None,
    }
}

/// What speaks for a symbol as an answer to a query.
pub open spec fn spec_signals(sym: SymbolModel, query: Seq<char>) -> Option<SymbolSignals> {
    signals_of(
        text::lowercase_of(sym.name),
        text::lowercase_of(sym.signature),
        text::lowercase_of(query),
        sym.start_line,
        sym.end_line,
    )
}

/// Collect what speaks for each of a number of symbols as an answer to a query.
pub fn score_symbols_batch(symbols: &[Symbol], query: &str) -> (r: Vec<Option<SymbolSignals>>)
    ensures
        r@.len() == symbols@.len(),
        forall|i: int| 0 <= i < r@.len() ==> #[trigger] r@[i] == spec_signals(symbols@[i]@, query@),
{
    let query_lower = query.to_lowercase();
    let mut out: Vec<Option<SymbolSignals>> = Vec::new();
    for i in 0..symbols.len()
        invariant
            query_lower@ == text::lowercase_of(query@),
            out@.len() == i,
            forall|j: int|
                0 <= j < i ==> #[trigger] out@[j] == spec_signals(symbols@[j]@, query@),
    {
        let sym = &symbols[i];
        let name_lower = sym.name.as_str().to_lowercase();
        let sig_lower = sym.signature.as_str().to_lowercase();
        out.push(
            signals_for(
                name_lower.as_str(),
                sig_lower.as_str(),
                query_lower.as_str(),
                sym.start_line,
                sym.end_line,
            ),
        );
    }
    out
}

/// Whether a character is an ASCII letter or digit.
pub open spec fn letter_or_digit(c: char) -> bool {
    'a' <= c <= 'z' || 'A' <= c <= 'Z' || '0' <= c <= '9'
}

/// A text is found as a word where no letter or digit stands before it, and none behind it but
/// a capital letter.
pub proof fn law_words_stand_at_boundaries(a: Seq<char>, w: Seq<char>, b: Seq<char>)
    requires
        a.len() == 0 || !letter_or_digit(a.last()),
        b.len() == 0 || !letter_or_digit(b[0]) || 'A' <= b[0] <= 'Z',
    ensures
        occurs_as_word(a + w + b, w),
{
    let h = a + w + b;
    let i = a.len() as int;
    assert(h.subrange(i, i + w.len()) =~= w);
    assert(text::occurs_at(h, w, i));
    if a.len() > 0 {
        assert(h[i - 1] == a.last());
    }
    if b.len() > 0 {
        assert(h[i + w.len()] == b[0]);
    }
}

/// Whatever is found as a word stands somewhere with no letter or digit before it, and none
/// behind it but a capital letter.
pub proof fn law_found_words_stand_at_boundaries(h: Seq<char>, w: Seq<char>)
    requires
        occurs_as_word(h, w),
    ensures
        exists|a: Seq<char>, b: Seq<char>|
            h == #[trigger] (a + w + b) && (a.len() == 0 || !letter_or_digit(a.last())) && (b.len()
                == 0 || !letter_or_digit(b[0]) || 'A' <= b[0] <= 'Z'),
{
    let i = choose|i: int| #[trigger] text::occurs_at(h, w, i) && bounded(h, i, w.len());
    let a = h.take(i);
    let b = h.skip(i + w.len());
    assert(h.subrange(i, i + w.len()) == w);
    assert(h =~= a + w + b);
}

/// What speaks for a symbol: its name is the query, or contains it, or is contained in it; and
/// it has more than ten lines.
pub proof fn law_signals(
    name: Seq<char>,
    signature: Seq<char>,
    query: Seq<char>,
    start_line: nat,
    end_line: nat,
)
    ensures
        signals_of(name, signature, query, start_line, end_line) matches Some(s) ==> {
            &&& s.exact_name <==> name == query
            &&& s.partial_name <==> name != query && (text::has(name, query) || text::has(
                query,
                name,
            ))
            &&& s.large <==> end_line - start_line + 1 > 10
            &&& word_hits(signature, text::spec_words(query)) == Some(s.keyword_hits as nat)
                || text::spec_words(query).len() > usize::MAX
        },
{
    lemma_hits_bounded(signature, text::spec_words(query));
}

proof fn lemma_hits_bounded(signature: Seq<char>, words: Seq<Seq<char>>)
    ensures
        word_hits(signature, words) matches Some(n) ==> n <= words.len(),
    decreases words.len(),
{
    if words.len() > 0 {
        lemma_hits_bounded(signature, words.drop_last());
    }
}

/// A word of three bytes or more that starts with an ASCII character counts exactly where the
/// signature has it at word boundaries; a shorter one never does.
pub proof fn law_longer_words_count(signature: Seq<char>, words: Seq<Seq<char>>, word: Seq<char>)
    requires
        word_hits(signature, words) is Some,
    ensures
        width::bytes_of(word) < 3 ==> word_hits(signature, words.push(word)) == word_hits(
            signature,
            words,
        ),
        width::bytes_of(word) >= 3 && word.len() > 0 && (word[0] as u32) < 0x80 ==> word_hits(
            signature,
            words.push(word),
        ) == Some(
            word_hits(signature, words)->0 + if occurs_as_word(signature, word) {
                1nat
            } else {
                0
            },
        ),
{
    assert(words.push(word).drop_last() =~= words);
    if width::bytes_of(word) >= 3 && word.len() > 0 && (word[0] as u32) < 0x80 {
        law_ascii_words_are_searchable(signature, word);
        lemma_word_search(signature, word, 0);
    }
}

/// A symbol answers a query whatever the case of either: its name and its signature are compared in
/// lower case.
pub proof fn law_signals_whatever_the_case(sym: SymbolModel, query: Seq<char>)
    ensures
        spec_signals(sym, query) matches Some(s) ==> {
            let name = text::lowercase_of(sym.name);
            let q = text::lowercase_of(query);
            &&& s.exact_name <==> name == q
            &&& s.partial_name <==> name != q && (text::has(name, q) || text::has(q, name))
            &&& s.large <==> sym.end_line - sym.start_line + 1 > 10
        },
        spec_signals(sym, query) is Some <==> word_hits(
            text::lowercase_of(sym.signature),
            text::spec_words(text::lowercase_of(query)),
        ) is Some,
{
}

} // verus!
