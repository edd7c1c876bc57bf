//! Saving memories: what is refused, what counts as a duplicate, and what becomes of it.

use crate::collections;
use crate::collections::NameSet;
use crate::context::scoring;
use crate::float32;
use crate::numerals;
use crate::text;
use crate::width;
use vstd::prelude::*;

verus! {

// ── Validation ───────────────────────────────────────────────────────

/// Why a memory is not saved.
#[derive(Debug, Clone, Copy, PartialEq, Eq, Structural)]
pub enum SaveError {
    /// The content is empty.
    Empty,
    /// The content has too many bytes.
    TooLarge { bytes: usize },
    /// The category has more than a hundred bytes.
    CategoryTooLong,
    /// The tags have more than five hundred bytes.
    TagsTooLong,
    /// There are too many memories already.
    LimitReached { count: i64 },
}

impl SaveError {
    /// What the error says.
    pub open spec fn spec_message(self) -> Seq<char> {
        match self {
            SaveError::Empty => "Memory content cannot be empty"@,
            SaveError::TooLarge { bytes } => "Memory content too large ("@ + numerals::spec_tenths(
                numerals::nearest_double(bytes as nat),
                1024,
            ) + "KB). Max is "@ + numerals::spec_decimal(
                (scoring::MAX_MEMORY_SIZE / 1024) as nat,
            ) + "KB."@,
            SaveError::CategoryTooLong => "Category too long (max 100 chars)"@,
            SaveError::TagsTooLong => "Tags too long (max 500 chars)"@,
            SaveError::LimitReached { count } => "Memory limit reached ("@ + numerals::spec_signed(
                count as int,
            ) + "/"@ + numerals::spec_signed(scoring::MAX_MEMORIES as int)
                + "). Delete old memories before adding new ones."@,
        }
    }

    /// What the error says.
    pub fn message(&self) -> (r: String)
        ensures
            r@ == self.spec_message(),
    {
        match self {
            SaveError::Empty => text::owned("Memory content cannot be empty"),
            SaveError::TooLarge { bytes } => {
                let size: u128 = numerals::as_double(*bytes as u64);
                let shown = numerals::tenths(size, 1024);
                let most = numerals::decimal_usize(scoring::MAX_MEMORY_SIZE / 1024);
                text::owned("Memory content too large (").concat(shown.as_str()).concat(
                    "KB). Max is ",
                ).concat(most.as_str()).concat("KB.")
            },
            SaveError::CategoryTooLong => text::owned("Category too long (max 100 chars)"),
            SaveError::TagsTooLong => text::owned("Tags too long (max 500 chars)"),
            SaveError::LimitReached { count } => {
                let now = numerals::signed(*count);
                let most = numerals::signed(scoring::MAX_MEMORIES);
                text::owned("Memory limit reached (").concat(now.as_str()).concat("/").concat(
                    most.as_str(),
                ).concat("). Delete old memories before adding new ones.")
            },
        }
    }
}

/// The first reason not to save a memory, as far as its own text gives one.
pub open spec fn spec_refusal(content: Seq<char>, category: Seq<char>, tags: Seq<char>) -> Option<
    SaveError,
> {
    if content.len() == 0 {
        Some(SaveError::Empty)
    } else if width::bytes_of(content) > scoring::MAX_MEMORY_SIZE {
        Some(SaveError::TooLarge { bytes: width::bytes_of(content) as usize })
    } else if width::bytes_of(category) > 100 {
        Some(SaveError::CategoryTooLong)
    } else if width::bytes_of(tags) > 500 {
        Some(SaveError::TagsTooLong)
    } else {
        None
    }
}

/// The first reason not to save a memory, as far as its own text gives one.
pub fn refusal(content: &str, category: &str, tags: &str) -> (r: Option<SaveError>)
    ensures
        r == spec_refusal(content@, category@, tags@),
{
    let bytes: usize = width::byte_len(content);
    proof {
        width::lemma_bytes_at_least_chars(content@);
    }
    if bytes == 0 {
        Some(SaveError::Empty)
    } else if bytes > scoring::MAX_MEMORY_SIZE {
        Some(SaveError::TooLarge { bytes })
    } else if width::byte_len(category) > 100 {
        Some(SaveError::CategoryTooLong)
    } else if width::byte_len(tags) > 500 {
        Some(SaveError::TagsTooLong)
    } else {
        None
    }
}

// ── Tokens ───────────────────────────────────────────────────────────

/// Whether a word is too common to tell texts apart.
pub open spec fn stop_word(w: Seq<char>) -> bool {
    w == "a"@ || w == "an"@ || w == "the"@ || w == "and"@ || w == "or"@ || w == "of"@ || w == "to"@
        || w == "in"@ || w == "on"@ || w == "at"@ || w == "is"@ || w == "it"@ || w == "we"@ || w
        == "i"@ || w == "for"@ || w == "as"@ || w == "by"@ || w == "be"@ || w == "are"@ || w
        == "was"@ || w == "with"@
}

fn is_stop_word(w: &str) -> (r: bool)
    ensures
        r == stop_word(w@),
{
    text::same(w, "a") || text::same(w, "an") || text::same(w, "the") || text::same(w, "and")
        || text::same(w, "or") || text::same(w, "of") || text::same(w, "to") || text::same(w, "in")
        || text::same(w, "on") || text::same(w, "at") || text::same(w, "is") || text::same(w, "it")
        || text::same(w, "we") || text::same(w, "i") || text::same(w, "for") || text::same(w, "as")
        || text::same(w, "by") || text::same(w, "be") || text::same(w, "are") || text::same(
        w,
        "was",
    ) || text::same(w, "with")
}

/// The alphanumeric runs of a text that have ended, and the one at its end.
pub open spec fn runs(s: Seq<char>) -> (Seq<Seq<char>>, Seq<char>)
    decreases s.len(),
{
    if s.len() == 0 {
        (Seq::empty(), Seq::empty())
    } else {
        let (done, run) = runs(s.drop_last());
        if text::char_is_alphanumeric(s.last()) {
            (done, run.push(s.last()))
        } else if run.len() > 0 {
            (done.push(run), Seq::empty())
        } else {
            (done, run)
        }
    }
}

/// The alphanumeric runs of a text.
pub open spec fn all_runs(s: Seq<char>) -> Seq<Seq<char>> {
    let (done, run) = runs(s);
    if run.len() > 0 {
        done.push(run)
    } else {
        done
    }
}

/// The words of a list that are not stop words, each once.
pub open spec fn telling(words: Seq<Seq<char>>) -> Seq<Seq<char>>
    decreases words.len(),
{
    if words.len() == 0 {
        Seq::empty()
    } else if stop_word(words.last()) {
        telling(words.drop_last())
    } else {
        collections::spec_insert(telling(words.drop_last()), words.last())
    }
}

/// The tokens of a text in lower case: its alphanumeric runs without stop words, each once.
/// Single characters count: numbers and labels are often what differs.
pub open spec fn tokens(lower: Seq<char>) -> Seq<Seq<char>> {
    telling(all_runs(lower))
}

fn split_runs(s: &[char]) -> (r: Vec<String>)
    ensures
        text::texts(r@) == all_runs(s@),
{
    let mut done: Vec<String> = Vec::new();
    let mut run = String::new();
    let mut length: usize = 0;
    assert(s@.take(0) =~= Seq::empty());
    assert(text::texts(done@) =~= Seq::empty());
    assert(run@ =~= Seq::empty());
    for i in 0..s.len()
        invariant
            length <= i,
            length == run@.len(),
            (text::texts(done@), run@) == runs(s@.take(i as int)),
    {
        assert(s@.take(i + 1).drop_last() =~= s@.take(i as int));
        let c = s[i];
        if c.is_alphanumeric() {
            run.push(c);
            length = length + 1;
        } else if length > 0 {
            let ghost before = text::texts(done@);
            let ghost word = run@;
            done.push(run);
            assert(text::texts(done@) =~= before.push(word));
            run = String::new();
            assert(run@ =~= Seq::empty());
            length = 0;
        }
    }
    assert(s@.take(s@.len() as int) =~= s@);
    if length > 0 {
        let ghost before = text::texts(done@);
        let ghost word = run@;
        done.push(run);
        assert(text::texts(done@) =~= before.push(word));
    }
    done
}

/// The tokens of a text in lower case.
pub fn tokenize_lower(lower: &str) -> (r: NameSet)
    ensures
        r.wf(),
        r@ == tokens(lower@),
{
    let chars = text::chars_of(lower);
    let words = split_runs(chars.as_slice());
    let ghost all = text::texts(words@);
    let mut out = NameSet::new();
    assert(all.take(0) =~= Seq::empty());
    for i in 0..words.len()
        invariant
            out.wf(),
            all == text::texts(words@),
            out@ == telling(all.take(i as int)),
    {
        proof {
            assert(all.take(i + 1).drop_last() =~= all.take(i as int));
            assert(all.take(i + 1).last() == words@[i as int]@);
        }
        if !is_stop_word(words[i].as_str()) {
            out.insert(words[i].clone());
        }
    }
    assert(all.take(all.len() as int) =~= all);
    out
}

/// Lowercase, split on white space and punctuation, and drop stop words.
pub fn tokenize(s: &str) -> (r: NameSet)
    ensures
        r.wf(),
        r@ == tokens(text::lowercase_of(s@)),
{
    let lower = s.to_lowercase();
    tokenize_lower(lower.as_str())
}

/// How many of the names of `a` are in `b`.
pub open spec fn shared(a: Seq<Seq<char>>, b: Seq<Seq<char>>) -> nat
    decreases a.len(),
{
    if a.len() == 0 {
        0
    } else {
        shared(a.drop_last(), b) + if b.contains(a.last()) {
            1nat
        } else {
            0
        }
    }
}

/// Whether two sets of tokens overlap enough: of all the tokens that either has, enough are
/// in both. Two empty sets do.
pub open spec fn overlapping(a: Seq<Seq<char>>, b: Seq<Seq<char>>) -> bool {
    (a.len() == 0 && b.len() == 0) || 10 * shared(a, b) >= scoring::DEDUPE_TOKEN_OVERLAP_TENTHS * (
    a.len() + b.len() - shared(a, b))
}

/// How much two sets of tokens overlap: the numbers of tokens that both have and that either
/// has. Two empty sets overlap fully.
pub fn jaccard(a: &NameSet, b: &NameSet) -> (r: (u128, u128))
    requires
        a.wf(),
        b.wf(),
    ensures
        r.0 == (if a@.len() == 0 && b@.len() == 0 {
            1
        } else {
            shared(a@, b@) as int
        }),
        r.1 == (if a@.len() == 0 && b@.len() == 0 {
            1
        } else {
            a@.len() + b@.len() - shared(a@, b@)
        }),
        r.0 <= usize::MAX,
        r.1 <= 2 * usize::MAX,
{
    let n: usize = a.len();
    if n == 0 && b.len() == 0 {
        return (1, 1);
    }
    let mut both: usize = 0;
    assert(a@.take(0) =~= Seq::empty());
    for i in 0..n
        invariant
            n == a@.len(),
            b.wf(),
            both <= i,
            both == shared(a@.take(i as int), b@),
    {
        assert(a@.take(i + 1).drop_last() =~= a@.take(i as int));
        if b.contains(a.get(i)) {
            both = both + 1;
        }
    }
    assert(a@.take(n as int) =~= a@);
    (both as u128, n as u128 + b.len() as u128 - both as u128)
}

fn overlap(a: &NameSet, b: &NameSet) -> (r: bool)
    requires
        a.wf(),
        b.wf(),
    ensures
        r == overlapping(a@, b@),
{
    let (both, either) = jaccard(a, b);
    let least: u128 = scoring::DEDUPE_TOKEN_OVERLAP_TENTHS as u128;
    assert(least * either <= 10 * either) by (nonlinear_arith)
        requires
            least <= 10,
    ;
    10 * both >= least * either
}

// ── Duplicates ───────────────────────────────────────────────────────

/// A stored memory, with how similar its meaning is to that of a new one, as a bit pattern,
/// where that is known.
#[derive(Debug)]
pub struct StoredMemory {
    pub id: i64,
    pub category: String,
    pub content: String,
    pub similarity: Option<u32>,
}

/// Whether one similarity is at least another; no pattern that is not a number is.
pub open spec fn at_least(a: u32, b: u32) -> bool {
    !float32::nan(a) && !float32::nan(b) && float32::key(a) >= float32::key(b)
}

/// Whether a stored memory may be a duplicate, given the tokens of the new one: its meaning
/// is very similar and its words overlap enough.
pub open spec fn duplicates(m: StoredMemory, new_tokens: Seq<Seq<char>>) -> bool {
    match m.similarity {
        Some(sim) => !float32::below(sim, scoring::DEDUPE_THRESHOLD) && overlapping(
            new_tokens,
            tokens(text::lowercase_of(m.content@)),
        ),
        None => false,
    }
}

/// The most similar of the possible duplicates, the first of several that are level.
pub open spec fn best_duplicate(rows: Seq<StoredMemory>, new_tokens: Seq<Seq<char>>) -> Option<int>
    decreases rows.len(),
{
    if rows.len() == 0 {
        None
    } else {
        let before = best_duplicate(rows.drop_last(), new_tokens);
        if duplicates(rows.last(), new_tokens) {
            match before {
                Some(i) => if at_least(rows[i].similarity->0, rows.last().similarity->0) {
                    Some(i)
                } else {
                    Some(rows.len() - 1)
                },
                None => Some(rows.len() - 1),
            }
        } else {
            before
        }
    }
}

proof fn lemma_best(rows: Seq<StoredMemory>, new_tokens: Seq<Seq<char>>)
    ensures
        best_duplicate(rows, new_tokens) matches Some(i) ==> 0 <= i < rows.len()
            && rows[i].similarity is Some,
    decreases rows.len(),
{
    if rows.len() > 0 {
        lemma_best(rows.drop_last(), new_tokens);
    }
}

/// Find the stored memory that a new one duplicates, if any: the most similar that has both a
/// high similarity and a high lexical overlap.
pub fn find_duplicate(rows: &[StoredMemory], new_content: &str) -> (r: Option<usize>)
    ensures
        match r {
            Some(i) => best_duplicate(rows@, tokens(text::lowercase_of(new_content@))) == Some(
                i as int,
            ) && i < rows@.len(),
            None => best_duplicate(rows@, tokens(text::lowercase_of(new_content@))) is None,
        },
{
    let new_tokens = tokenize(new_content);
    let mut best: Option<(usize, u32)> = None;
    assert(rows@.take(0) =~= Seq::empty());
    for i in 0..rows.len()
        invariant
            new_tokens.wf(),
            new_tokens@ == tokens(text::lowercase_of(new_content@)),
            match best {
                Some((k, sim)) => best_duplicate(rows@.take(i as int), new_tokens@) == Some(
                    k as int,
                ) && k < i && rows@[k as int].similarity == Some(sim),
                None => best_duplicate(rows@.take(i as int), new_tokens@) is None,
            },
    {
        let row = &rows[i];
        proof {
            assert(rows@.take(i + 1).drop_last() =~= rows@.take(i as int));
            assert(rows@.take(i + 1).last() == *row);
        }
        match row.similarity {
            Some(sim) => {
                if !float32::less(sim, scoring::DEDUPE_THRESHOLD) {
                    let other = tokenize(row.content.as_str());
                    if overlap(&new_tokens, &other) {
                        let keep = match best {
                            Some((_, prev)) => !float32::is_nan(prev) && !float32::is_nan(sim)
                                && float32::order_key(prev) >= float32::order_key(sim),
                            None => false,
                        };
                        if !keep {
                            best = Some((i, sim));
                        }
                    }
                }
            },
            None => {},
        }
    }
    assert(rows@.take(rows@.len() as int) =~= rows@);
    match best {
        Some((k, _)) => Some(k),
        None => None,
    }
}

// ── Saving ───────────────────────────────────────────────────────────

/// The content of a memory that another one is merged into: unchanged where it has the new
/// text already.
pub open spec fn spec_merged(existing: Seq<char>, new: Seq<char>) -> Seq<char> {
    if text::has(existing, new) {
        existing
    } else {
        existing + "\n— "@ + new
    }
}

/// The content of a memory that another one is merged into.
pub fn merged_content(existing: &str, new: &str) -> (r: String)
    ensures
        r@ == spec_merged(existing@, new@),
{
    if text::str_contains(existing, new) {
        text::owned(existing)
    } else {
        text::owned(existing).concat("\n— ").concat(new)
    }
}

/// What becomes of a new memory.
#[derive(Debug)]
pub enum SavePlan {
    /// Insert it as a new row.
    Insert,
    /// Give the row `id` new content instead.
    Merge { id: i64, content: String },
    /// Insert it as a new row that is linked to the row `peer_id`.
    InsertLinked { peer_id: i64 },
}

/// Whether `plan` is what becomes of a new memory: merged into a duplicate of its own
/// category, linked to a duplicate of another, or inserted.
pub open spec fn plans(
    content: Seq<char>,
    category: Seq<char>,
    rows: Seq<StoredMemory>,
    plan: SavePlan,
) -> bool {
    match best_duplicate(rows, tokens(text::lowercase_of(content))) {
        Some(i) => if rows[i].category@ == category {
            plan matches SavePlan::Merge { id, content: merged } && id == rows[i].id && merged@
                == spec_merged(rows[i].content@, content)
        } else {
            plan matches SavePlan::InsertLinked { peer_id } && peer_id == rows[i].id
        },
        None => plan is Insert,
    }
}

/// Save a memory entry: refuse what is too large or too much; merge a near-duplicate of the
/// same category, link one of another, and insert anything else. `count` is the number of
/// stored memories, `rows` are those whose meaning could be compared.
pub fn save(
    content: &str,
    category: &str,
    tags: &str,
    count: i64,
    rows: &[StoredMemory],
) -> (r: Result<SavePlan, SaveError>)
    ensures
        match r {
            Ok(plan) => spec_refusal(content@, category@, tags@) is None && count
                < scoring::MAX_MEMORIES && plans(content@, category@, rows@, plan),
            Err(e) => match spec_refusal(content@, category@, tags@) {
                Some(f) => e == f,
                None => count >= scoring::MAX_MEMORIES && e == (SaveError::LimitReached { count }),
            },
        },
{
    match refusal(content, category, tags) {
        Some(e) => {
            return Err(e);
        },
        None => {},
    }
    if count >= scoring::MAX_MEMORIES {
        return Err(SaveError::LimitReached { count });
    }
    match find_duplicate(rows, content) {
        Some(i) => {
            let dup = &rows[i];
            if text::same(dup.category.as_str(), category) {
                Ok(
                    SavePlan::Merge {
                        id: dup.id,
                        content: merged_content(dup.content.as_str(), content),
                    },
                )
            } else {
                Ok(SavePlan::InsertLinked { peer_id: dup.id })
            }
        },
        None => Ok(SavePlan::Insert),
    }
}

/// Result of saving a memory.
#[derive(Debug, Clone, Copy, PartialEq, Eq, Structural)]
pub enum SaveOutcome {
    /// New memory inserted (no near-duplicate found), with its row id.
    Inserted(i64),
    /// Merged into a near-duplicate of the same category, with the id of that row.
    Merged(i64),
    /// Inserted as a new row that is linked to a near-duplicate of another category.
    Linked { new_id: i64, peer_id: i64 },
}

impl SavePlan {
    /// The outcome of a plan that was carried out; `new_id` is the id of an inserted row.
    pub open spec fn spec_outcome(self, new_id: i64) -> SaveOutcome {
        match self {
            SavePlan::Insert => SaveOutcome::Inserted(new_id),
            SavePlan::Merge { id, .. } => SaveOutcome::Merged(id),
            SavePlan::InsertLinked { peer_id } => SaveOutcome::Linked { new_id, peer_id },
        }
    }

    /// The outcome of a plan that was carried out; `new_id` is the id of an inserted row.
    pub fn outcome(&self, new_id: i64) -> (r: SaveOutcome)
        ensures
            r == self.spec_outcome(new_id),
    {
        match self {
            SavePlan::Insert => SaveOutcome::Inserted(new_id),
            SavePlan::Merge { id, .. } => SaveOutcome::Merged(*id),
            SavePlan::InsertLinked { peer_id } => SaveOutcome::Linked { new_id, peer_id: *peer_id },
        }
    }
}

impl SaveOutcome {
    /// What the outcome says.
    pub open spec fn spec_message(self) -> Seq<char> {
        match self {
            SaveOutcome::Inserted(id) => "Memory saved (id "@ + numerals::spec_signed(id as int)
                + ")."@,
            SaveOutcome::Merged(id) =>
                "Near-duplicate detected — merged into existing memory id "@
                + numerals::spec_signed(id as int) + "."@,
            SaveOutcome::Linked { new_id, peer_id } => "Cross-category duplicate of memory id "@
                + numerals::spec_signed(peer_id as int) + " — saved as id "@
                + numerals::spec_signed(new_id as int) + " with link."@,
        }
    }

    /// What the outcome says.
    pub fn message(&self) -> (r: String)
        ensures
            r@ == self.spec_message(),
    {
        match self {
            SaveOutcome::Inserted(id) => text::owned("Memory saved (id ").concat(
                numerals::signed(*id).as_str(),
            ).concat(")."),
            SaveOutcome::Merged(id) => text::owned(
                "Near-duplicate detected — merged into existing memory id ",
            ).concat(numerals::signed(*id).as_str()).concat("."),
            SaveOutcome::Linked { new_id, peer_id } => text::owned(
                "Cross-category duplicate of memory id ",
            ).concat(numerals::signed(*peer_id).as_str()).concat(" — saved as id ").concat(
                numerals::signed(*new_id).as_str(),
            ).concat(" with link."),
        }
    }
}

// ── Laws ─────────────────────────────────────────────────────────────

/// Merging keeps what was there, holds the new text, and changes nothing when it is repeated.
pub proof fn law_merging_keeps_both_texts(existing: Seq<char>, new: Seq<char>)
    ensures
        text::begins(spec_merged(existing, new), existing),
        text::has(spec_merged(existing, new), new),
        spec_merged(spec_merged(existing, new), new) == spec_merged(existing, new),
{
    let m = spec_merged(existing, new);
    if text::has(existing, new) {
        assert(existing.subrange(0, existing.len() as int) =~= existing);
    } else {
        let i = (existing + "\n— "@).len() as int;
        assert(m.subrange(0, existing.len() as int) =~= existing);
        assert(m.subrange(i, i + new.len()) =~= new);
        assert(text::occurs_at(m, new, i));
        text::lemma_has(m, new);
    }
}

proof fn lemma_shared_self(a: Seq<Seq<char>>, b: Seq<Seq<char>>)
    requires
        forall|i: int| 0 <= i < a.len() ==> b.contains(#[trigger] a[i]),
    ensures
        shared(a, b) == a.len(),
    decreases a.len(),
{
    if a.len() > 0 {
        assert forall|i: int| 0 <= i < a.len() - 1 implies b.contains(
            #[trigger] a.drop_last()[i],
        ) by {
            assert(a.drop_last()[i] == a[i]);
        }
        lemma_shared_self(a.drop_last(), b);
        assert(b.contains(a[a.len() - 1]));
    }
}

/// A text always overlaps with itself.
pub proof fn law_equal_token_sets_overlap(a: Seq<Seq<char>>)
    ensures
        overlapping(a, a),
{
    assert forall|i: int| 0 <= i < a.len() implies a.contains(#[trigger] a[i]) by {}
    lemma_shared_self(a, a);
}

/// The chosen duplicate is a possible duplicate, and none of the others is more similar; where
/// there is a possible duplicate, one is chosen.
pub proof fn law_best_duplicate(rows: Seq<StoredMemory>, new_tokens: Seq<Seq<char>>, k: int)
    requires
        forall|i: int|
            0 <= i < rows.len() ==> ((#[trigger] rows[i]).similarity matches Some(s)
                ==> !float32::nan(s)),
        0 <= k < rows.len(),
        duplicates(rows[k], new_tokens),
    ensures
        match best_duplicate(rows, new_tokens) {
            Some(i) => 0 <= i < rows.len() && duplicates(rows[i], new_tokens) && float32::key(
                rows[k].similarity->0,
            ) <= float32::key(rows[i].similarity->0),
            None => false,
        },
    decreases rows.len(),
{
    let front = rows.drop_last();
    lemma_best(front, new_tokens);
    assert forall|i: int| 0 <= i < front.len() implies ((#[trigger] front[i]).similarity matches Some(
        s,
    ) ==> !float32::nan(s)) by {
        assert(front[i] == rows[i]);
    }
    assert(rows[rows.len() - 1].similarity matches Some(s) ==> !float32::nan(s));
    if k < rows.len() - 1 {
        assert(front[k] == rows[k]);
        law_best_duplicate(front, new_tokens, k);
        let i = best_duplicate(front, new_tokens)->0;
        assert(front[i] == rows[i]);
    } else {
        lemma_best_is_duplicate(front, new_tokens);
        match best_duplicate(front, new_tokens) {
            Some(i) => {
                assert(front[i] == rows[i]);
            },
            None => {},
        }
    }
}

proof fn lemma_best_is_duplicate(rows: Seq<StoredMemory>, new_tokens: Seq<Seq<char>>)
    ensures
        best_duplicate(rows, new_tokens) matches Some(i) ==> 0 <= i < rows.len() && duplicates(
            rows[i],
            new_tokens,
        ),
    decreases rows.len(),
{
    if rows.len() > 0 {
        lemma_best_is_duplicate(rows.drop_last(), new_tokens);
    }
}

/// A memory as the store keeps it.
pub struct MemoryModel {
    pub id: i64,
    pub category: Seq<char>,
    pub content: Seq<char>,
    pub linked_id: Option<i64>,
}

/// The store after a plan was carried out; `new_id` is the id of an inserted row.
pub open spec fn carried_out(
    store: Seq<MemoryModel>,
    content: Seq<char>,
    category: Seq<char>,
    plan: SavePlan,
    new_id: i64,
) -> Seq<MemoryModel> {
    match plan {
        SavePlan::Insert => store.push(
            MemoryModel { id: new_id, category, content, linked_id: None },
        ),
        SavePlan::InsertLinked { peer_id } => store.push(
            MemoryModel { id: new_id, category, content, linked_id: Some(peer_id) },
        ),
        SavePlan::Merge { id, content: merged } => store.map_values(
            |m: MemoryModel|
                if m.id == id {
                    MemoryModel { content: merged@, ..m }
                } else {
                    m
                },
        ),
    }
}

/// Whether `rows` are the memories of a store, each with how similar it is to a new one, and no
/// two of them have the same id.
pub open spec fn compares(store: Seq<MemoryModel>, rows: Seq<StoredMemory>) -> bool {
    &&& rows.len() == store.len()
    &&& forall|i: int|
        0 <= i < rows.len() ==> (#[trigger] rows[i]).id == store[i].id && rows[i].category@
            == store[i].category && rows[i].content@ == store[i].content
    &&& forall|i: int, j: int|
        #![trigger rows[i], rows[j]]
        0 <= i < j < rows.len() ==> rows[i].id != rows[j].id
}

/// Saving what has a near-duplicate in the store: in the category of the best duplicate it is
/// merged into that one, so that the store has the same memories as before and that one holds
/// both texts; in another category it becomes a new memory that is linked to that one, and all
/// others stay as they are.
pub proof fn law_near_duplicates_merge_or_link(
    store: Seq<MemoryModel>,
    rows: Seq<StoredMemory>,
    content: Seq<char>,
    category: Seq<char>,
    k: int,
    plan: SavePlan,
    new_id: i64,
)
    requires
        compares(store, rows),
        best_duplicate(rows, tokens(text::lowercase_of(content))) == Some(k),
        plans(content, category, rows, plan),
    ensures
        0 <= k < store.len(),
        store[k].category == category ==> plan.spec_outcome(new_id) == SaveOutcome::Merged(
            store[k].id,
        ) && carried_out(store, content, category, plan, new_id) == store.update(
            k,
            MemoryModel { content: spec_merged(store[k].content, content), ..store[k] },
        ),
        store[k].category != category ==> plan.spec_outcome(new_id) == (SaveOutcome::Linked {
            new_id,
            peer_id: store[k].id,
        }) && carried_out(store, content, category, plan, new_id) == store.push(
            MemoryModel { id: new_id, category, content, linked_id: Some(store[k].id) },
        ),
{
    lemma_best(rows, tokens(text::lowercase_of(content)));
    let after = carried_out(store, content, category, plan, new_id);
    assert(rows[k].id == store[k].id);
    if store[k].category == category {
        let changed = MemoryModel {
            content: spec_merged(store[k].content, content),
            ..store[k]
        };
        assert forall|i: int| 0 <= i < store.len() implies after[i] == store.update(k, changed)[i]
            by {
            assert(rows[i].id == store[i].id);
            if i < k {
                assert(rows[i].id != rows[k].id);
            } else if i > k {
                assert(rows[k].id != rows[i].id);
            }
        }
        assert(after =~= store.update(k, changed));
    }
}

/// Two memories saved one after the other into an empty store: the first is inserted. Where it
/// is a near-duplicate of the second, the store then holds one memory with both texts, if they
/// have the same category; else it holds both, the second linked to the first.
pub proof fn law_saving_twice(
    first: Seq<char>,
    first_category: Seq<char>,
    first_plan: SavePlan,
    id: i64,
    second: Seq<char>,
    category: Seq<char>,
    row: StoredMemory,
    plan: SavePlan,
    new_id: i64,
)
    requires
        plans(first, first_category, Seq::empty(), first_plan),
        compares(
            carried_out(Seq::empty(), first, first_category, first_plan, id),
            seq![row],
        ),
        duplicates(row, tokens(text::lowercase_of(second))),
        plans(second, category, seq![row], plan),
    ensures
        first_plan.spec_outcome(id) == SaveOutcome::Inserted(id),
        first_category == category ==> plan.spec_outcome(new_id) == SaveOutcome::Merged(id)
            && carried_out(
            carried_out(Seq::empty(), first, first_category, first_plan, id),
            second,
            category,
            plan,
            new_id,
        ) == seq![
            MemoryModel {
                id,
                category,
                content: spec_merged(first, second),
                linked_id: None,
            },
        ],
        first_category != category ==> plan.spec_outcome(new_id) == (SaveOutcome::Linked {
            new_id,
            peer_id: id,
        }) && carried_out(
            carried_out(Seq::empty(), first, first_category, first_plan, id),
            second,
            category,
            plan,
            new_id,
        ) == seq![
            MemoryModel {
                id,
                category: first_category,
                content: first,
                linked_id: None,
            },
            MemoryModel { id: new_id, category, content: second, linked_id: Some(id) },
        ],
{
    let store = carried_out(Seq::empty(), first, first_category, first_plan, id);
    let rows = seq![row];
    assert(store.len() == 1);
    assert(rows.last() == row);
    assert(rows.drop_last() =~= Seq::empty());
    assert(best_duplicate(rows, tokens(text::lowercase_of(second))) == Some(0int)) by {
        reveal_with_fuel(best_duplicate, 2);
    }
    law_near_duplicates_merge_or_link(store, rows, second, category, 0, plan, new_id);
    let after = carried_out(store, second, category, plan, new_id);
    if first_category == category {
        assert(after =~= seq![after[0]]);
    } else {
        assert(after =~= seq![after[0], after[1]]);
    }
}

/// A memory with the same words as a new one is a near-duplicate of it where their meanings
/// are similar enough.
pub proof fn law_same_words_are_duplicates(m: StoredMemory, content: Seq<char>, similarity: u32)
    requires
        m.similarity == Some(similarity),
        !float32::below(similarity, scoring::DEDUPE_THRESHOLD),
        tokens(text::lowercase_of(m.content@)) == tokens(text::lowercase_of(content)),
    ensures
        duplicates(m, tokens(text::lowercase_of(content))),
{
    law_equal_token_sets_overlap(tokens(text::lowercase_of(content)));
}

/// Marks behind a text add no word to it.
proof fn lemma_closing_marks(s: Seq<char>, marks: Seq<char>)
    requires
        forall|i: int| 0 <= i < marks.len() ==> !text::char_is_alphanumeric(#[trigger] marks[i]),
    ensures
        all_runs(s + marks) == all_runs(s),
    decreases marks.len(),
{
    if marks.len() == 0 {
        assert(s + marks =~= s);
    } else {
        lemma_closing_marks(s, marks.drop_last());
        let front = s + marks.drop_last();
        assert((s + marks).drop_last() =~= front);
        assert((s + marks).last() == marks.last());
    }
}

/// An ASCII text that differs from a memory only in the case of its letters, and in marks behind
/// it that are no letters or digits, is a near-duplicate of the memory where their meanings are
/// similar enough.
pub proof fn law_case_and_closing_marks_make_no_difference(
    m: StoredMemory,
    content: Seq<char>,
    marks: Seq<char>,
    similarity: u32,
)
    requires
        m.similarity == Some(similarity),
        !float32::below(similarity, scoring::DEDUPE_THRESHOLD),
        text::ascii(m.content@),
        text::ascii(content),
        text::ascii_lowercase(m.content@) == text::ascii_lowercase(content),
        text::ascii(marks),
        forall|i: int| 0 <= i < marks.len() ==> !text::char_is_alphanumeric(#[trigger] marks[i]),
    ensures
        duplicates(m, tokens(text::lowercase_of(content + marks))),
{
    let both = content + marks;
    assert(text::ascii(both));
    assert(text::lowercase_of(both) =~= text::ascii_lowercase(content) + marks) by {
        assert forall|i: int| 0 <= i < both.len() implies text::ascii_lowercase(both)[i] == (
        text::ascii_lowercase(content) + marks)[i] by {
            if i >= content.len() {
                assert(both[i] == marks[i - content.len()]);
            } else {
                assert(both[i] == content[i]);
            }
        }
    }
    lemma_closing_marks(text::ascii_lowercase(content), marks);
    law_same_words_are_duplicates(m, both, similarity);
}

/// Whether every character of a text is a letter or a digit.
pub open spec fn alphanumeric(w: Seq<char>) -> bool {
    forall|i: int| 0 <= i < w.len() ==> text::char_is_alphanumeric(#[trigger] w[i])
}

/// Whether `w` is a word of a text between `a` and `b`: it has letters and digits only, and
/// neither goes on before it nor behind it.
pub open spec fn whole_word(a: Seq<char>, w: Seq<char>, b: Seq<char>) -> bool {
    &&& w.len() > 0
    &&& alphanumeric(w)
    &&& a.len() > 0 ==> !text::char_is_alphanumeric(a.last())
    &&& b.len() > 0 ==> !text::char_is_alphanumeric(b[0])
}

proof fn lemma_runs_end(a: Seq<char>)
    requires
        a.len() > 0 ==> !text::char_is_alphanumeric(a.last()),
    ensures
        runs(a).1.len() == 0,
{
}

proof fn lemma_runs_word(a: Seq<char>, w: Seq<char>)
    requires
        a.len() > 0 ==> !text::char_is_alphanumeric(a.last()),
        alphanumeric(w),
    ensures
        runs(a + w).0 == runs(a).0,
        runs(a + w).1 == w,
    decreases w.len(),
{
    if w.len() == 0 {
        assert(a + w =~= a);
        lemma_runs_end(a);
        assert(runs(a).1 =~= w);
    } else {
        let front = w.drop_last();
        assert forall|i: int| 0 <= i < front.len() implies text::char_is_alphanumeric(
            #[trigger] front[i],
        ) by {
            assert(front[i] == w[i]);
        }
        lemma_runs_word(a, front);
        assert((a + w).drop_last() =~= a + front);
        assert((a + w).last() == w[w.len() - 1]);
        assert(w =~= front.push(w.last()));
    }
}

proof fn lemma_runs_grow(s: Seq<char>, b: Seq<char>, w: Seq<char>)
    requires
        runs(s).0.contains(w),
    ensures
        runs(s + b).0.contains(w),
    decreases b.len(),
{
    if b.len() == 0 {
        assert(s + b =~= s);
    } else {
        lemma_runs_grow(s, b.drop_last(), w);
        assert((s + b).drop_last() =~= s + b.drop_last());
        let before = runs(s + b.drop_last()).0;
        let k = before.index_of(w);
        assert(runs(s + b).0[k] == w);
    }
}

proof fn lemma_words_are_runs(a: Seq<char>, w: Seq<char>, b: Seq<char>)
    requires
        whole_word(a, w, b),
    ensures
        all_runs(a + w + b).contains(w),
{
    lemma_runs_word(a, w);
    let (done, run) = runs(a + w + b);
    if b.len() == 0 {
        assert(a + w + b =~= a + w);
        assert(all_runs(a + w + b)[done.len() as int] == w);
    } else {
        let first = b.take(1);
        let s = a + w + first;
        assert(s.drop_last() =~= a + w);
        assert(s.last() == b[0]);
        assert(runs(s).0 == runs(a).0.push(w));
        assert(runs(s).0[runs(a).0.len() as int] == w);
        lemma_runs_grow(s, b.skip(1), w);
        assert(s + b.skip(1) =~= a + w + b);
        let k = done.index_of(w);
        assert(all_runs(a + w + b)[k] == w);
    }
}

/// Whether a text has `w` for a whole word somewhere.
pub open spec fn has_word(s: Seq<char>, w: Seq<char>) -> bool {
    exists|a: Seq<char>, b: Seq<char>| s == #[trigger] (a + w + b) && whole_word(a, w, b)
}

/// Whether a text has `w` for a whole word with something behind it.
spec fn has_closed_word(s: Seq<char>, w: Seq<char>) -> bool {
    exists|a: Seq<char>, b: Seq<char>|
        s == #[trigger] (a + w + b) && whole_word(a, w, b) && b.len() > 0
}

proof fn lemma_runs_are_words(s: Seq<char>)
    ensures
        alphanumeric(runs(s).1),
        exists|a: Seq<char>|
            s == #[trigger] (a + runs(s).1) && (a.len() > 0 ==> !text::char_is_alphanumeric(
                a.last(),
            )),
        forall|k: int| 0 <= k < runs(s).0.len() ==> has_closed_word(s, #[trigger] runs(s).0[k]),
    decreases s.len(),
{
    if s.len() == 0 {
        assert(s =~= Seq::<char>::empty() + runs(s).1);
    } else {
        let front = s.drop_last();
        let c = s.last();
        lemma_runs_are_words(front);
        let (done, run) = runs(front);
        let a = choose|a: Seq<char>|
            front == #[trigger] (a + run) && (a.len() > 0 ==> !text::char_is_alphanumeric(a.last()));
        assert forall|k: int| 0 <= k < done.len() implies has_closed_word(
            s,
            #[trigger] done[k],
        ) by {
            let w = done[k];
            let (x, y) = choose|x: Seq<char>, y: Seq<char>|
                front == #[trigger] (x + w + y) && whole_word(x, w, y) && y.len() > 0;
            assert(s =~= front.push(c));
            assert((x + w + y).push(c) =~= x + w + y.push(c));
            assert(y.push(c)[0] == y[0]);
            assert(whole_word(x, w, y.push(c)));
        }
        if text::char_is_alphanumeric(c) {
            assert(s =~= front.push(c));
            assert((a + run).push(c) =~= a + run.push(c));
            assert forall|i: int| 0 <= i < run.push(c).len() implies text::char_is_alphanumeric(
                #[trigger] run.push(c)[i],
            ) by {
                if i < run.len() {
                    assert(run.push(c)[i] == run[i]);
                }
            }
        } else {
            assert(s =~= s + runs(s).1);
            if run.len() > 0 {
                assert(s =~= front.push(c));
                assert((a + run).push(c) =~= a + run + seq![c]);
                assert(whole_word(a, run, seq![c]));
                assert(has_closed_word(s, run));
            }
        }
    }
}

proof fn lemma_telling(words: Seq<Seq<char>>, w: Seq<char>)
    ensures
        telling(words).contains(w) <==> words.contains(w) && !stop_word(w),
        telling(words).no_duplicates(),
    decreases words.len(),
{
    if words.len() > 0 {
        let front = words.drop_last();
        let last = words.last();
        lemma_telling(front, w);
        lemma_telling(front, last);
        assert(words =~= front.push(last));
        if front.contains(w) {
            assert(words[front.index_of(w)] == w);
        }
        if words.contains(w) && w != last {
            assert(front[words.index_of(w)] == w);
        }
        assert(words[words.len() - 1] == last);
        let before = telling(front);
        if !stop_word(last) && !before.contains(last) {
            assert(before.push(last)[before.len() as int] == last);
            if before.contains(w) {
                assert(before.push(last)[before.index_of(w)] == w);
            }
            if before.push(last).contains(w) && w != last {
                assert(before[before.push(last).index_of(w)] == w);
            }
        }
    }
}

/// The words that are too common to tell texts apart.
pub open spec fn common_words() -> Seq<Seq<char>> {
    seq![
        "a"@,
        "an"@,
        "the"@,
        "and"@,
        "or"@,
        "of"@,
        "to"@,
        "in"@,
        "on"@,
        "at"@,
        "is"@,
        "it"@,
        "we"@,
        "i"@,
        "for"@,
        "as"@,
        "by"@,
        "be"@,
        "are"@,
        "was"@,
        "with"@,
    ]
}

proof fn lemma_common_words(w: Seq<char>)
    ensures
        stop_word(w) <==> common_words().contains(w),
{
    let c = common_words();
    assert(c[0] == "a"@ && c[1] == "an"@ && c[2] == "the"@ && c[3] == "and"@ && c[4] == "or"@
        && c[5] == "of"@ && c[6] == "to"@ && c[7] == "in"@ && c[8] == "on"@ && c[9] == "at"@
        && c[10] == "is"@ && c[11] == "it"@ && c[12] == "we"@ && c[13] == "i"@ && c[14] == "for"@
        && c[15] == "as"@ && c[16] == "by"@ && c[17] == "be"@ && c[18] == "are"@ && c[19]
        == "was"@ && c[20] == "with"@);
}

/// The tokens of a text in lower case are its whole words but for the common ones, each once.
pub proof fn law_tokens_are_the_telling_words(s: Seq<char>, w: Seq<char>)
    ensures
        tokens(s).contains(w) <==> has_word(s, w) && !common_words().contains(w),
        tokens(s).no_duplicates(),
{
    lemma_telling(all_runs(s), w);
    lemma_common_words(w);
    if has_word(s, w) {
        let (a, b) = choose|a: Seq<char>, b: Seq<char>|
            s == #[trigger] (a + w + b) && whole_word(a, w, b);
        lemma_words_are_runs(a, w, b);
    }
    if all_runs(s).contains(w) {
        lemma_runs_are_words(s);
        let (done, run) = runs(s);
        let k = all_runs(s).index_of(w);
        if k < done.len() {
            assert(done[k] == w);
            assert(has_closed_word(s, w));
        } else {
            assert(run == w);
            let a = choose|a: Seq<char>|
                s == #[trigger] (a + run) && (a.len() > 0 ==> !text::char_is_alphanumeric(
                    a.last(),
                ));
            assert(s =~= a + w + Seq::<char>::empty());
            assert(whole_word(a, w, Seq::empty()));
        }
    }
}

/// A number in a text is one of its tokens, whatever its length, so a text with another number
/// in its place, and without that one, has other tokens.
pub proof fn law_numbers_are_tokens(a: Seq<char>, n: Seq<char>, b: Seq<char>, other: Seq<char>)
    requires
        whole_word(a, n, b),
        forall|i: int| 0 <= i < n.len() ==> '0' <= #[trigger] n[i] <= '9',
        !has_word(other, n),
    ensures
        tokens(a + n + b).contains(n),
        tokens(a + n + b) != tokens(other),
{
    law_tokens_are_the_telling_words(a + n + b, n);
    law_tokens_are_the_telling_words(other, n);
    assert('0' <= n[0] <= '9');
    reveal_strlit("a");
    reveal_strlit("an");
    reveal_strlit("the");
    reveal_strlit("and");
    reveal_strlit("or");
    reveal_strlit("of");
    reveal_strlit("to");
    reveal_strlit("in");
    reveal_strlit("on");
    reveal_strlit("at");
    reveal_strlit("is");
    reveal_strlit("it");
    reveal_strlit("we");
    reveal_strlit("i");
    reveal_strlit("for");
    reveal_strlit("as");
    reveal_strlit("by");
    reveal_strlit("be");
    reveal_strlit("are");
    reveal_strlit("was");
    reveal_strlit("with");
    assert(forall|k: int|
        0 <= k < common_words().len() ==> (#[trigger] common_words()[k]).len() > 0
            && common_words()[k][0] >= 'a');
}

proof fn lemma_shared_is_common(a: Seq<Seq<char>>, b: Seq<Seq<char>>)
    requires
        a.no_duplicates(),
    ensures
        shared(a, b) == a.to_set().intersect(b.to_set()).len(),
        a.to_set().intersect(b.to_set()).finite(),
    decreases a.len(),
{
    broadcast use vstd::seq_lib::seq_to_set_is_finite;

    let both = a.to_set().intersect(b.to_set());
    if a.len() == 0 {
        assert(both =~= Set::empty());
    } else {
        let front = a.drop_last();
        let x = a.last();
        lemma_shared_is_common(front, b);
        assert(a =~= front.push(x));
        let before = front.to_set().intersect(b.to_set());
        assert(!front.contains(x)) by {
            if front.contains(x) {
                let k = front.index_of(x);
                assert(a[k] == a[a.len() - 1]);
            }
        }
        assert forall|w: Seq<char>| #[trigger] a.contains(w) <==> front.contains(w) || w == x by {
            if front.contains(w) {
                assert(a[front.index_of(w)] == w);
            }
            if a.contains(w) && w != x {
                assert(front[a.index_of(w)] == w);
            }
            assert(a[a.len() - 1] == x);
        }
        if b.contains(x) {
            assert(both =~= before.insert(x));
        } else {
            assert(both =~= before);
        }
    }
}

/// A stored memory is a possible duplicate of a new one exactly where their similarity is at least
/// 0.92 and seven tenths or more of the words that either has are in both, or neither has any.
pub proof fn law_duplicates_share_their_words(m: StoredMemory, new: Seq<char>)
    ensures
        ({
            let a = tokens(text::lowercase_of(new)).to_set();
            let b = tokens(text::lowercase_of(m.content@)).to_set();
            duplicates(m, tokens(text::lowercase_of(new))) <==> (m.similarity matches Some(s)
                && !float32::below(s, 0x3f6b_851f) && ((a.len() == 0 && b.len() == 0) || 10
                * a.intersect(b).len() >= 7 * (a + b).len()))
        }),
{
    broadcast use vstd::seq_lib::seq_to_set_is_finite;

    let x = tokens(text::lowercase_of(new));
    let y = tokens(text::lowercase_of(m.content@));
    law_tokens_are_the_telling_words(text::lowercase_of(new), Seq::empty());
    law_tokens_are_the_telling_words(text::lowercase_of(m.content@), Seq::empty());
    x.unique_seq_to_set();
    y.unique_seq_to_set();
    lemma_shared_is_common(x, y);
    vstd::set_lib::lemma_set_intersect_union_lens(x.to_set(), y.to_set());
}

/// A memory of ASCII text can be saved where it has between one and 10240 characters, its
/// category at most 100 and its tags at most 500, and fewer than 1000 memories are stored; the
/// first of these that fails is the reason that is given.
pub proof fn law_what_is_refused(content: Seq<char>, category: Seq<char>, tags: Seq<char>)
    requires
        text::ascii(content),
        text::ascii(category),
        text::ascii(tags),
    ensures
        match spec_refusal(content, category, tags) {
            Some(SaveError::Empty) => content.len() == 0,
            Some(SaveError::TooLarge { .. }) => content.len() > 10240,
            Some(SaveError::CategoryTooLong) => 0 < content.len() <= 10240 && category.len() > 100,
            Some(SaveError::TagsTooLong) => 0 < content.len() <= 10240 && category.len() <= 100
                && tags.len() > 500,
            Some(SaveError::LimitReached { .. }) => false,
            None => 0 < content.len() <= 10240 && category.len() <= 100 && tags.len() <= 500,
        },
        scoring::MAX_MEMORIES == 1000,
{
    width::lemma_ascii_bytes(content);
    width::lemma_ascii_bytes(category);
    width::lemma_ascii_bytes(tags);
}

/// A memory that does not hold a new text yet is merged by putting the text behind it, on a line of
/// its own that starts with a dash; one that holds it stays as it is.
pub proof fn law_merged_text(existing: Seq<char>, new: Seq<char>)
    ensures
        text::has(existing, new) ==> spec_merged(existing, new) == existing,
        !text::has(existing, new) ==> spec_merged(existing, new) == existing + seq!['\n', '—', ' ']
            + new,
{
    reveal_strlit("\n— ");
    assert("\n— "@ =~= seq!['\n', '—', ' ']);
}

} // verus!
