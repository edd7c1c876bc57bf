//! Token estimation for code and natural language text.
//!
//! Uses heuristic counting based on whitespace, punctuation, and code patterns.

use crate::text;
use vstd::prelude::*;

verus! {

/// Whether a character belongs to a word.
pub open spec fn word_char(c: char) -> bool {
    text::char_is_alphanumeric(c) || c == '_'
}

/// The tokens of a text that follows `run` characters of a word. A word has one token for
/// every four characters or part of four; a character outside words has one unless it is
/// white space, and a line feed has one.
pub open spec fn tokens_after(run: nat, s: Seq<char>) -> nat
    decreases s.len(),
{
    if s.len() == 0 {
        (run + 3) / 4
    } else if word_char(s[0]) {
        tokens_after(run + 1, s.drop_first())
    } else {
        (run + 3) / 4 + (if text::char_is_whitespace(s[0]) {
            0nat
        } else {
            1
        }) + (if s[0] == '\n' {
            1nat
        } else {
            0
        }) + tokens_after(0, s.drop_first())
    }
}

/// The estimated number of tokens of a text: at least one unless it is empty.
pub open spec fn spec_tokens(s: Seq<char>) -> nat {
    if s.len() == 0 {
        0
    } else if tokens_after(0, s) == 0 {
        1
    } else {
        tokens_after(0, s)
    }
}

/// Estimate token count for a string. The estimate is never larger than the number of
/// characters.
pub fn estimate_tokens(text: &str) -> (r: usize)
    ensures
        r == spec_tokens(text@),
        r <= text@.len(),
{
    let s = text::chars_of(text);
    let n: usize = s.len();
    if n == 0 {
        return 0;
    }
    let mut tokens: usize = 0;
    let mut run: usize = 0;
    assert(s@.skip(0) =~= s@);
    for i in 0..n
        invariant
            n == s@.len(),
            tokens + run <= i,
            tokens_after(0, s@) == tokens + tokens_after(run as nat, s@.skip(i as int)),
    {
        let c = s[i];
        assert(s@.skip(i as int)[0] == c);
        assert(s@.skip(i as int).drop_first() =~= s@.skip(i + 1));
        if c.is_alphanumeric() || c == '_' {
            run = run + 1;
        } else {
            tokens = tokens + words_tokens(run);
            run = 0;
            if !c.is_whitespace() {
                tokens = tokens + 1;
            }
            if c == '\n' {
                tokens = tokens + 1;
            }
        }
    }
    assert(s@.skip(n as int).len() == 0);
    let total: usize = tokens + words_tokens(run);
    if total == 0 {
        1
    } else {
        total
    }
}

fn words_tokens(run: usize) -> (r: usize)
    ensures
        r == (run + 3) / 4,
        r <= run,
{
    run / 4 + (if run % 4 == 0 {
        0
    } else {
        1
    })
}

/// The number of characters that a token budget stands for: three and a half for each token,
/// rounded down.
pub open spec fn chars_for(token_budget: nat) -> nat {
    if token_budget * 7 / 2 <= usize::MAX {
        token_budget * 7 / 2
    } else {
        usize::MAX as nat
    }
}

/// Convert a token budget to an approximate character budget.
pub fn tokens_to_chars(token_budget: u32) -> (r: usize)
    ensures
        r == chars_for(token_budget as nat),
{
    let n: u64 = token_budget as u64 * 7 / 2;
    if n <= usize::MAX as u64 {
        n as usize
    } else {
        usize::MAX
    }
}

/// Check if content fits within a token budget.
pub fn fits_budget(text: &str, budget: u32) -> (r: bool)
    ensures
        r == (spec_tokens(text@) <= budget),
{
    estimate_tokens(text) <= budget as usize
}

proof fn lemma_run_between(base: nat, more: nat, s: Seq<char>)
    ensures
        tokens_after(base + more, s) <= (more + 3) / 4 + tokens_after(base, s),
        tokens_after(base, s) <= tokens_after(base + more, s),
    decreases s.len(),
{
    if s.len() > 0 && word_char(s[0]) {
        lemma_run_between(base + 1, more, s.drop_first());
    }
}

proof fn lemma_split(run: nat, a: Seq<char>, b: Seq<char>)
    ensures
        tokens_after(run, a + b) <= tokens_after(run, a) + tokens_after(0, b),
    decreases a.len(),
{
    if a.len() == 0 {
        assert(a + b =~= b);
        lemma_run_between(0, run, b);
    } else {
        assert((a + b).drop_first() =~= a.drop_first() + b);
        assert((a + b)[0] == a[0]);
        if word_char(a[0]) {
            lemma_split(run + 1, a.drop_first(), b);
        } else {
            lemma_split(0, a.drop_first(), b);
        }
    }
}

proof fn lemma_tokens_after_bound(run: nat, s: Seq<char>)
    ensures
        tokens_after(run, s) <= run + s.len(),
    decreases s.len(),
{
    if s.len() > 0 {
        if word_char(s[0]) {
            lemma_tokens_after_bound(run + 1, s.drop_first());
        } else {
            lemma_tokens_after_bound(0, s.drop_first());
        }
    }
}

/// A text has at most as many tokens as characters.
pub proof fn law_no_more_tokens_than_characters(s: Seq<char>)
    ensures
        spec_tokens(s) <= s.len(),
{
    lemma_tokens_after_bound(0, s);
}

/// A text costs at most as much as its parts: cutting it never saves tokens.
pub proof fn law_whole_costs_no_more_than_parts(a: Seq<char>, b: Seq<char>)
    ensures
        spec_tokens(a + b) <= spec_tokens(a) + spec_tokens(b),
{
    lemma_split(0, a, b);
}

/// Whether a text has anything but white space.
pub open spec fn says_something(s: Seq<char>) -> bool {
    exists|i: int| 0 <= i < s.len() && !text::char_is_whitespace(#[trigger] s[i])
}

/// The tokens on both sides of a character outside words.
proof fn lemma_around(run: nat, a: Seq<char>, c: char, b: Seq<char>)
    requires
        !word_char(c),
        text::char_is_whitespace(c),
    ensures
        tokens_after(run, a + seq![c] + b) == tokens_after(run, a) + (if c == '\n' {
            1nat
        } else {
            0
        }) + tokens_after(0, b),
    decreases a.len(),
{
    let whole = a + seq![c] + b;
    if a.len() == 0 {
        assert(whole[0] == c);
        assert(whole.drop_first() =~= b);
    } else {
        assert(whole[0] == a[0]);
        assert(whole.drop_first() =~= a.drop_first() + seq![c] + b);
        if word_char(a[0]) {
            lemma_around(run + 1, a.drop_first(), c, b);
        } else {
            lemma_around(0, a.drop_first(), c, b);
        }
    }
}

/// What is said costs something.
proof fn lemma_costs(run: nat, s: Seq<char>)
    requires
        run > 0 || says_something(s),
    ensures
        tokens_after(run, s) > 0,
    decreases s.len(),
{
    if s.len() > 0 {
        if word_char(s[0]) {
            lemma_costs(run + 1, s.drop_first());
        } else if run == 0 && text::char_is_whitespace(s[0]) {
            let i = choose|i: int| 0 <= i < s.len() && !text::char_is_whitespace(#[trigger] s[i]);
            assert(s.drop_first()[i - 1] == s[i]);
            lemma_costs(0, s.drop_first());
        }
    }
}

/// Estimates add up over a space, and over a line feed plus one.
pub proof fn law_estimates_add_up(a: Seq<char>, b: Seq<char>)
    requires
        says_something(a),
        says_something(b),
    ensures
        spec_tokens(a + " "@ + b) == spec_tokens(a) + spec_tokens(b),
        spec_tokens(a + "\n"@ + b) == spec_tokens(a) + 1 + spec_tokens(b),
{
    reveal_strlit(" ");
    reveal_strlit("\n");
    assert(" "@ =~= seq![' ']);
    assert("\n"@ =~= seq!['\n']);
    lemma_costs(0, a);
    lemma_costs(0, b);
    lemma_around(0, a, ' ', b);
    lemma_around(0, a, '\n', b);
}

/// Whether every character of a text belongs to a word: letters, digits and underscores.
pub open spec fn one_word(s: Seq<char>) -> bool {
    forall|i: int|
        0 <= i < s.len() ==> (text::char_is_alphanumeric(#[trigger] s[i]) || s[i] == '_')
}

proof fn lemma_word_cost(run: nat, w: Seq<char>, rest: Seq<char>)
    requires
        one_word(w),
        rest.len() == 0 || !(text::char_is_alphanumeric(rest[0]) || rest[0] == '_'),
    ensures
        tokens_after(run, w + rest) == (run + w.len() + 3) / 4 + tokens_after(0, rest),
    decreases w.len(),
{
    if w.len() == 0 {
        assert(w + rest =~= rest);
    } else {
        let s = w + rest;
        assert(s[0] == w[0]);
        assert(s.drop_first() =~= w.drop_first() + rest);
        assert(one_word(w.drop_first())) by {
            assert forall|i: int| 0 <= i < w.drop_first().len() implies (
            text::char_is_alphanumeric(#[trigger] w.drop_first()[i]) || w.drop_first()[i]
                == '_') by {
                assert(w.drop_first()[i] == w[i + 1]);
            }
        }
        lemma_word_cost(run + 1, w.drop_first(), rest);
    }
}

/// A word costs a token for every four characters or part of four. A character outside words costs
/// one, unless it is white space, which costs nothing but for a line feed. What costs nothing
/// counts as one token where it is the whole text.
pub proof fn law_words_and_marks_cost(w: Seq<char>, c: char, rest: Seq<char>)
    requires
        one_word(w),
        !(text::char_is_alphanumeric(c) || c == '_'),
    ensures
        w.len() > 0 ==> spec_tokens(w) == (w.len() + 3) / 4,
        tokens_after(0, w + seq![c] + rest) == (w.len() + 3) / 4 + (if c == '\n' {
            1nat
        } else if text::char_is_whitespace(c) {
            0
        } else {
            1
        }) + tokens_after(0, rest),
        spec_tokens(Seq::empty()) == 0,
        tokens_after(0, rest) > 0 ==> spec_tokens(rest) == tokens_after(0, rest),
        rest.len() > 0 && tokens_after(0, rest) == 0 ==> spec_tokens(rest) == 1,
{
    lemma_word_cost(0, w, Seq::empty());
    assert(w + Seq::<char>::empty() =~= w);
    let tail = seq![c] + rest;
    lemma_word_cost(0, w, tail);
    assert(w + seq![c] + rest =~= w + tail);
    assert(tail.drop_first() =~= rest);
    assert(tail[0] == c);
}

/// A token stands for three and a half characters.
pub proof fn law_tokens_stand_for_characters(token_budget: nat)
    requires
        token_budget * 4 <= usize::MAX,
    ensures
        2 * chars_for(token_budget) <= 7 * token_budget < 2 * chars_for(token_budget) + 2,
{
}

} // verus!
