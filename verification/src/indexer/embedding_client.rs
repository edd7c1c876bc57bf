//! What is handed to the embedding model, and what is said where it fails.

use crate::text;
use crate::width;
use vstd::prelude::*;

verus! {

/// The most bytes of a text that the model is given.
pub const MAX_EMBED_INPUT: usize = 8192;

/// How long a single embedding call may take, in seconds.
pub const EMBED_TIMEOUT_SECONDS: u64 = 60;

/// How many numbers an embedding of the model has.
pub const EMBEDDING_DIM: usize = 384;

/// The longest prefix of a text with at most so many bytes.
pub open spec fn spec_truncate(s: Seq<char>, max_bytes: nat) -> Seq<char> {
    s.take(width::fitting(s, max_bytes) as int)
}

/// Truncate a string to at most `max_bytes`, respecting UTF-8 char boundaries.
pub fn truncate_utf8(s: &str, max_bytes: usize) -> (r: String)
    ensures
        r@ == spec_truncate(s@, max_bytes as nat),
{
    if width::byte_len(s) <= max_bytes {
        proof {
            width::lemma_fitting_whole(s@, max_bytes as nat);
            assert(s@.take(s@.len() as int) =~= s@);
        }
        return text::owned(s);
    }
    let chars = text::chars_of(s);
    text::string_of(width::prefix(chars.as_slice(), max_bytes))
}

/// The texts that the model is given for a batch.
pub open spec fn spec_batch_inputs(texts: Seq<Seq<char>>) -> Seq<Seq<char>> {
    texts.map_values(|t: Seq<char>| spec_truncate(t, MAX_EMBED_INPUT as nat))
}

/// The texts that the model is given for a batch. For an empty batch it is not asked.
pub fn batch_inputs(texts: &[String]) -> (r: Vec<String>)
    ensures
        text::texts(r@) == spec_batch_inputs(text::texts(texts@)),
{
    let ghost all = spec_batch_inputs(text::texts(texts@));
    let mut out: Vec<String> = Vec::new();
    assert(text::texts(out@) =~= all.take(0));
    for i in 0..texts.len()
        invariant
            all == spec_batch_inputs(text::texts(texts@)),
            text::texts(out@) == all.take(i as int),
    {
        let ghost before = text::texts(out@);
        out.push(truncate_utf8(texts[i].as_str(), MAX_EMBED_INPUT));
        assert(text::texts(out@) =~= before.push(all[i as int]));
        assert(all.take(i + 1) =~= before.push(all[i as int]));
    }
    assert(all.take(all.len() as int) =~= all);
    out
}

/// Why there is no embedding.
#[derive(Debug, Clone, Copy, PartialEq, Eq, Structural)]
pub enum EmbedFailure {
    /// The model took too long.
    TimedOut,
    /// The model's thread ended without an answer.
    Panicked,
    /// The model answered with no embedding.
    NothingReturned,
}

impl EmbedFailure {
    /// What the failure says.
    pub fn message(&self) -> (r: &'static str)
        ensures
            r@ == (match *self {
                EmbedFailure::TimedOut => "Embedding timed out after 60s"@,
                EmbedFailure::Panicked => "Embedding thread panicked"@,
                EmbedFailure::NothingReturned => "No embedding returned"@,
            }),
    {
        match self {
            EmbedFailure::TimedOut => "Embedding timed out after 60s",
            EmbedFailure::Panicked => "Embedding thread panicked",
            EmbedFailure::NothingReturned => "No embedding returned",
        }
    }
}

/// A truncated text is the beginning of the text, has no more bytes than allowed, and is the
/// longest such beginning.
pub proof fn law_truncation_is_the_longest_prefix(s: Seq<char>, max_bytes: nat, k: int)
    requires
        0 <= k <= s.len(),
    ensures
        text::begins(s, spec_truncate(s, max_bytes)),
        width::bytes_of(spec_truncate(s, max_bytes)) <= max_bytes,
        width::bytes_of(s.take(k)) <= max_bytes ==> k <= spec_truncate(s, max_bytes).len(),
{
    width::lemma_fitting(s, max_bytes);
    let t = spec_truncate(s, max_bytes);
    assert(s.subrange(0, t.len() as int) =~= t);
}

/// The model is given at most eight kibibytes of a text, a text of no more whole, and has a minute to
/// answer with numbers for three hundred and eighty-four dimensions.
pub proof fn law_model_inputs(texts: Seq<Seq<char>>, i: int)
    requires
        0 <= i < texts.len(),
    ensures
        spec_batch_inputs(texts).len() == texts.len(),
        spec_batch_inputs(texts)[i] == spec_truncate(texts[i], 8192),
        width::bytes_of(texts[i]) <= 8192 ==> spec_batch_inputs(texts)[i] == texts[i],
        EMBED_TIMEOUT_SECONDS == 60,
        EMBEDDING_DIM == 384,
{
    if width::bytes_of(texts[i]) <= 8192 {
        width::lemma_fitting_whole(texts[i], 8192);
        assert(texts[i].take(texts[i].len() as int) =~= texts[i]);
    }
}

} // verus!
