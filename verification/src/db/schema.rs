//! The database file, its migrations, and the blobs that embeddings are stored as.
//!
//! An embedding is stored as its numbers one after another, four bytes each, lowest byte
//! first. A quantized vector is stored as
//!
//! ```text
//! version:1  bits:1  mode:1  original_dim:2  padded_dim:2
//! norm:4  residual_norm:4  mse_len:2  mse_data...  qjl_len:2  qjl_data...
//! ```
//!
//! with every number lowest byte first.

use crate::path;
use crate::text;
use crate::turboquant::{QuantMode, QuantizedModel, QuantizedVector};
use vstd::prelude::*;
use vstd::slice::slice_subrange;

verus! {

/// Get the path to the project's context-brain database.
pub fn db_path(project_path: &str) -> (r: String)
    ensures
        r@ == path::spec_join(project_path@, ".context-brain.db"@),
{
    let base = text::chars_of(project_path);
    let file = text::chars_of(".context-brain.db");
    path::join(base.as_slice(), file.as_slice())
}

// ── Migrations ───────────────────────────────────────────────────────

/// The columns that an older database lacks.
#[derive(Debug, Clone, Copy, PartialEq, Eq)]
pub struct MissingColumns {
    pub files_compressed: bool,
    pub memories_compressed: bool,
    pub import_count: bool,
    pub memory_hygiene: bool,
}

/// The statements that add the columns of compressed embeddings.
pub open spec fn compression_batch(missing: MissingColumns) -> Seq<char> {
    let files = if missing.files_compressed {
        "ALTER TABLE files ADD COLUMN embedding_compressed BLOB; ALTER TABLE symbols ADD COLUMN embedding_compressed BLOB;"@
    } else {
        Seq::empty()
    };
    if missing.memories_compressed {
        files + "ALTER TABLE memories ADD COLUMN embedding_compressed BLOB;"@
    } else {
        files
    }
}

/// The batches of statements that bring a database up to date, each to be run as a whole.
pub open spec fn spec_migrations(missing: MissingColumns) -> Seq<Seq<char>> {
    let first = if missing.files_compressed || missing.memories_compressed {
        seq![compression_batch(missing)]
    } else {
        Seq::empty()
    };
    let second = if missing.import_count {
        first.push("ALTER TABLE files ADD COLUMN import_count INTEGER DEFAULT 0;"@)
    } else {
        first
    };
    if missing.memory_hygiene {
        second.push(
            "ALTER TABLE memories ADD COLUMN linked_id INTEGER; ALTER TABLE memories ADD COLUMN updated_at INTEGER; ALTER TABLE memories ADD COLUMN last_accessed_at INTEGER;"@,
        )
    } else {
        second
    }
}

/// The batches of statements that bring a database up to date.
pub fn migrations(missing: MissingColumns) -> (r: Vec<String>)
    ensures
        text::texts(r@) == spec_migrations(missing),
{
    let mut out: Vec<String> = Vec::new();
    let ghost mut done: Seq<Seq<char>> = Seq::empty();
    if missing.files_compressed || missing.memories_compressed {
        let mut batch = String::new();
        if missing.files_compressed {
            batch = text::owned(
                "ALTER TABLE files ADD COLUMN embedding_compressed BLOB; ALTER TABLE symbols ADD COLUMN embedding_compressed BLOB;",
            );
        }
        if missing.memories_compressed {
            batch.append("ALTER TABLE memories ADD COLUMN embedding_compressed BLOB;");
        }
        assert(batch@ == compression_batch(missing));
        out.push(batch);
        proof {
            done = seq![batch@];
        }
    }
    assert(text::texts(out@) =~= done);
    if missing.import_count {
        let batch = text::owned("ALTER TABLE files ADD COLUMN import_count INTEGER DEFAULT 0;");
        out.push(batch);
        assert(text::texts(out@) =~= done.push(batch@));
        proof {
            done = done.push(batch@);
        }
    }
    if missing.memory_hygiene {
        let batch = text::owned(
            "ALTER TABLE memories ADD COLUMN linked_id INTEGER; ALTER TABLE memories ADD COLUMN updated_at INTEGER; ALTER TABLE memories ADD COLUMN last_accessed_at INTEGER;",
        );
        out.push(batch);
        assert(text::texts(out@) =~= done.push(batch@));
    }
    out
}

// ── Numbers as bytes ─────────────────────────────────────────────────

/// The two bytes of a number below 2^16, lowest first.
pub open spec fn le16(n: nat) -> Seq<u8> {
    seq![(n % 256) as u8, (n / 256 % 256) as u8]
}

/// The four bytes of a 32-bit number, lowest first.
pub open spec fn le32(n: nat) -> Seq<u8> {
    le16(n % 0x1_0000) + le16(n / 0x1_0000)
}

/// The number that stands in two bytes of `b` from `i` on.
pub open spec fn read16(b: Seq<u8>, i: int) -> nat {
    (b[i] + 256 * b[i + 1]) as nat
}

/// The number that stands in four bytes of `b` from `i` on.
pub open spec fn read32(b: Seq<u8>, i: int) -> nat {
    read16(b, i) + 0x1_0000 * read16(b, i + 2)
}

fn push16(out: &mut Vec<u8>, n: u32)
    requires
        n < 0x1_0000,
    ensures
        final(out)@ == old(out)@ + le16(n as nat),
{
    let ghost before = out@;
    out.push((n % 256) as u8);
    out.push((n / 256) as u8);
    assert(out@ =~= before + le16(n as nat));
}

fn push32(out: &mut Vec<u8>, n: u32)
    ensures
        final(out)@ == old(out)@ + le32(n as nat),
{
    let ghost before = out@;
    push16(out, n % 0x1_0000);
    push16(out, n / 0x1_0000);
    assert(out@ =~= before + le32(n as nat));
}

fn get16(b: &[u8], i: usize) -> (r: u32)
    requires
        i + 2 <= b@.len(),
    ensures
        r == read16(b@, i as int),
        r < 0x1_0000,
{
    b[i] as u32 + 256 * (b[i + 1] as u32)
}

fn get32(b: &[u8], i: usize) -> (r: u32)
    requires
        i + 4 <= b@.len(),
    ensures
        r == read32(b@, i as int),
{
    let n: usize = b.len();
    assert(i + 2 <= n);
    get16(b, i) + 0x1_0000 * get16(b, i + 2)
}

fn copy(b: &[u8]) -> (r: Vec<u8>)
    ensures
        r@ == b@,
{
    let mut out: Vec<u8> = Vec::new();
    out.extend_from_slice(b);
    assert(out@ =~= b@);
    out
}

// ── Embeddings ───────────────────────────────────────────────────────

/// The blob of an embedding: the bytes of its numbers one after another.
pub open spec fn spec_blob(v: Seq<u32>) -> Seq<u8>
    decreases v.len(),
{
    if v.len() == 0 {
        Seq::empty()
    } else {
        spec_blob(v.drop_last()) + le32(v.last() as nat)
    }
}

/// The numbers that a blob holds; none where its length is not a multiple of four.
pub open spec fn spec_embedding(blob: Seq<u8>) -> Seq<u32> {
    if blob.len() % 4 != 0 {
        Seq::empty()
    } else {
        Seq::new(blob.len() / 4, |i: int| read32(blob, 4 * i) as u32)
    }
}

/// The blob of an embedding, given by the bit patterns of its numbers, where there is one.
pub fn embedding_to_blob(embedding: Option<&[u32]>) -> (r: Option<Vec<u8>>)
    ensures
        match (embedding, r) {
            (Some(v), Some(blob)) => blob@ == spec_blob(v@),
            (None, None) => true,
            _ => false,
        },
{
    match embedding {
        Some(v) => {
            let mut out: Vec<u8> = Vec::new();
            for i in 0..v.len()
                invariant
                    out@ == spec_blob(v@.take(i as int)),
            {
                assert(v@.take(i + 1).drop_last() =~= v@.take(i as int));
                push32(&mut out, v[i]);
            }
            assert(v@.take(v@.len() as int) =~= v@);
            Some(out)
        },
        None => None,
    }
}

/// Read an embedding blob back into the bit patterns of its numbers. Returns an empty vector
/// if the length of the blob is not a multiple of four (corrupted data).
pub fn blob_to_embedding(blob: &[u8]) -> (r: Vec<u32>)
    ensures
        r@ == spec_embedding(blob@),
{
    let mut out: Vec<u32> = Vec::new();
    if blob.len() % 4 != 0 {
        return out;
    }
    let n: usize = blob.len() / 4;
    for i in 0..n
        invariant
            4 * n == blob@.len(),
            4 * n <= usize::MAX,
            out@.len() == i,
            forall|k: int| 0 <= k < i ==> #[trigger] out@[k] == read32(blob@, 4 * k) as u32,
    {
        out.push(get32(blob, 4 * i));
    }
    assert(out@ =~= spec_embedding(blob@));
    out
}

proof fn lemma_le16(b: Seq<u8>, i: int, n: nat)
    requires
        n < 0x1_0000,
        0 <= i,
        i + 2 <= b.len(),
        b.subrange(i, i + 2) == le16(n),
    ensures
        read16(b, i) == n,
{
    assert(b.subrange(i, i + 2)[0] == b[i]);
    assert(b.subrange(i, i + 2)[1] == b[i + 1]);
}

proof fn lemma_le32(b: Seq<u8>, i: int, n: nat)
    requires
        n < 0x1_0000_0000,
        0 <= i,
        i + 4 <= b.len(),
        b.subrange(i, i + 4) == le32(n),
    ensures
        read32(b, i) == n,
{
    assert(b.subrange(i, i + 2) =~= le32(n).subrange(0, 2));
    assert(le32(n).subrange(0, 2) =~= le16(n % 0x1_0000));
    assert(b.subrange(i + 2, i + 4) =~= le32(n).subrange(2, 4));
    assert(le32(n).subrange(2, 4) =~= le16(n / 0x1_0000));
    lemma_le16(b, i, n % 0x1_0000);
    lemma_le16(b, i + 2, n / 0x1_0000);
}

proof fn lemma_blob(v: Seq<u32>)
    ensures
        spec_blob(v).len() == 4 * v.len(),
        forall|i: int| 0 <= i < v.len() ==> #[trigger] read32(spec_blob(v), 4 * i) == v[i],
    decreases v.len(),
{
    if v.len() > 0 {
        let front = v.drop_last();
        lemma_blob(front);
        let b = spec_blob(v);
        assert forall|i: int| 0 <= i < v.len() implies #[trigger] read32(b, 4 * i) == v[i] by {
            if i < front.len() {
                assert(read32(spec_blob(front), 4 * i) == front[i]);
            } else {
                assert(b.subrange(4 * i, 4 * i + 4) =~= le32(v.last() as nat));
                lemma_le32(b, 4 * i, v.last() as nat);
            }
        }
    }
}

/// An embedding is read back from its blob as it was stored.
pub proof fn law_embedding_survives_its_blob(v: Seq<u32>)
    ensures
        spec_embedding(spec_blob(v)) == v,
{
    lemma_blob(v);
    assert(spec_embedding(spec_blob(v)) =~= v);
}

// ── Quantized vectors ────────────────────────────────────────────────

/// The byte that a mode is stored as.
pub open spec fn mode_byte(mode: QuantMode) -> u8 {
    match mode {
        QuantMode::Fast => 0,
        QuantMode::Unbiased => 1,
    }
}

/// The sign bits of a quantized vector, or none.
pub open spec fn qjl_of(q: QuantizedModel) -> Seq<u8> {
    match q.qjl_bits {
        Some(v) => v,
        None => Seq::empty(),
    }
}

/// The first seventeen bytes of a quantized vector's blob. Lengths are kept modulo 2^16.
#[verifier::opaque]
pub open spec fn header(q: QuantizedModel) -> Seq<u8> {
    seq![1u8, q.bits, mode_byte(q.mode)] + le16(q.original_dim % 0x1_0000) + le16(
        q.padded_dim % 0x1_0000,
    ) + le32(q.norm as nat) + le32(q.residual_norm as nat) + le16(q.mse_indices.len() % 0x1_0000)
}

/// The blob of a quantized vector.
pub open spec fn spec_quantized_blob(q: QuantizedModel) -> Seq<u8> {
    header(q) + q.mse_indices + le16(qjl_of(q).len() % 0x1_0000) + qjl_of(q)
}

/// Serialize a quantized vector to a compact blob.
pub fn quantized_to_blob(qv: &QuantizedVector) -> (r: Vec<u8>)
    ensures
        r@ == spec_quantized_blob(qv@),
{
    let mut buf: Vec<u8> = Vec::new();
    buf.push(1u8);
    buf.push(qv.bits);
    buf.push(
        match qv.mode {
            QuantMode::Fast => 0,
            QuantMode::Unbiased => 1,
        },
    );
    assert(buf@ =~= seq![1u8, qv.bits, mode_byte(qv.mode)]);
    push16(&mut buf, (qv.original_dim % 0x1_0000) as u32);
    push16(&mut buf, (qv.padded_dim % 0x1_0000) as u32);
    push32(&mut buf, qv.norm);
    push32(&mut buf, qv.residual_norm);
    push16(&mut buf, (qv.mse_indices.len() % 0x1_0000) as u32);
    assert(buf@ == header(qv@)) by {
        reveal(header);
    }
    buf.extend_from_slice(qv.mse_indices.as_slice());
    match &qv.qjl_bits {
        Some(qjl) => {
            push16(&mut buf, (qjl.len() % 0x1_0000) as u32);
            buf.extend_from_slice(qjl.as_slice());
        },
        None => {
            push16(&mut buf, 0);
            assert(buf@ =~= buf@ + qjl_of(qv@));
        },
    }
    buf
}

/// What stands in the blob of a quantized vector, if it is one: the version is one, the bit
/// width one to four, the mode known, the lengths plausible, and all the data is there.
pub open spec fn spec_quantized(blob: Seq<u8>) -> Option<QuantizedModel> {
    let original_dim = read16(blob, 3);
    let padded_dim = read16(blob, 5);
    let mse_end = 17 + read16(blob, 15);
    let qjl_len = read16(blob, mse_end as int);
    let qjl_start = mse_end + 2;
    if blob.len() < 17 || blob[0] != 1 || !(1 <= blob[1] <= 4) || blob[2] > 1 {
        None
    } else if original_dim == 0 || padded_dim == 0 || padded_dim < original_dim {
        None
    } else if blob.len() < mse_end + 2 || blob.len() < qjl_start + qjl_len {
        None
    } else {
        Some(
            QuantizedModel {
                mse_indices: blob.subrange(17, mse_end as int),
                norm: read32(blob, 7) as u32,
                qjl_bits: if qjl_len > 0 {
                    Some(blob.subrange(qjl_start as int, (qjl_start + qjl_len) as int))
                } else {
                    None
                },
                residual_norm: read32(blob, 11) as u32,
                bits: blob[1],
                mode: if blob[2] == 0 {
                    QuantMode::Fast
                } else {
                    QuantMode::Unbiased
                },
                original_dim,
                padded_dim,
            },
        )
    }
}

/// Deserialize a quantized vector from a blob. Returns `None` for invalid or corrupted data.
pub fn blob_to_quantized(blob: &[u8]) -> (r: Option<QuantizedVector>)
    ensures
        match r {
            Some(q) => spec_quantized(blob@) == Some(q@),
            None => spec_quantized(blob@) is None,
        },
{
    if blob.len() < 17 {
        return None;
    }
    if blob[0] != 1 {
        return None;
    }
    let bits: u8 = blob[1];
    if bits < 1 || bits > 4 {
        return None;
    }
    let mode = if blob[2] == 0 {
        QuantMode::Fast
    } else if blob[2] == 1 {
        QuantMode::Unbiased
    } else {
        return None;
    };
    let original_dim: usize = get16(blob, 3) as usize;
    let padded_dim: usize = get16(blob, 5) as usize;
    if original_dim == 0 || padded_dim == 0 || padded_dim < original_dim {
        return None;
    }
    let norm: u32 = get32(blob, 7);
    let residual_norm: u32 = get32(blob, 11);
    let mse_end: usize = 17 + get16(blob, 15) as usize;
    if blob.len() < mse_end + 2 {
        return None;
    }
    let qjl_len: usize = get16(blob, mse_end) as usize;
    let qjl_start: usize = mse_end + 2;
    if blob.len() < qjl_start + qjl_len {
        return None;
    }
    let mse_indices = copy(slice_subrange(blob, 17, mse_end));
    let qjl_bits = if qjl_len > 0 {
        Some(copy(slice_subrange(blob, qjl_start, qjl_start + qjl_len)))
    } else {
        None
    };
    Some(
        QuantizedVector {
            mse_indices,
            norm,
            qjl_bits,
            residual_norm,
            bits,
            mode,
            original_dim,
            padded_dim,
        },
    )
}

/// Whether a quantized vector has a width and lengths that its blob can hold.
pub open spec fn storable(q: QuantizedModel) -> bool {
    &&& 1 <= q.bits <= 4
    &&& 0 < q.original_dim <= q.padded_dim < 0x1_0000
    &&& q.mse_indices.len() < 0x1_0000
    &&& match q.qjl_bits {
        Some(v) => 0 < v.len() < 0x1_0000,
        None => true,
    }
}

proof fn lemma_layout(a: Seq<u8>, b: Seq<u8>, c: Seq<u8>, d: Seq<u8>, e: Seq<u8>, f: Seq<u8>)
    requires
        a.len() == 3,
        b.len() == 2,
        c.len() == 2,
        d.len() == 4,
        e.len() == 4,
        f.len() == 2,
    ensures
        (a + b + c + d + e + f).len() == 17,
        (a + b + c + d + e + f).subrange(0, 3) == a,
        (a + b + c + d + e + f).subrange(3, 5) == b,
        (a + b + c + d + e + f).subrange(5, 7) == c,
        (a + b + c + d + e + f).subrange(7, 11) == d,
        (a + b + c + d + e + f).subrange(11, 15) == e,
        (a + b + c + d + e + f).subrange(15, 17) == f,
{
    let h = a + b + c + d + e + f;
    assert(h.subrange(0, 3) =~= a);
    assert(h.subrange(3, 5) =~= b);
    assert(h.subrange(5, 7) =~= c);
    assert(h.subrange(7, 11) =~= d);
    assert(h.subrange(11, 15) =~= e);
    assert(h.subrange(15, 17) =~= f);
}

/// The parts of a header stand where its layout puts them.
proof fn lemma_header_parts(q: QuantizedModel)
    ensures
        header(q).len() == 17,
        header(q).subrange(0, 3) == seq![1u8, q.bits, mode_byte(q.mode)],
        header(q).subrange(3, 5) == le16(q.original_dim % 0x1_0000),
        header(q).subrange(5, 7) == le16(q.padded_dim % 0x1_0000),
        header(q).subrange(7, 11) == le32(q.norm as nat),
        header(q).subrange(11, 15) == le32(q.residual_norm as nat),
        header(q).subrange(15, 17) == le16(q.mse_indices.len() % 0x1_0000),
{
    reveal(header);
    lemma_layout(
        seq![1u8, q.bits, mode_byte(q.mode)],
        le16(q.original_dim % 0x1_0000),
        le16(q.padded_dim % 0x1_0000),
        le32(q.norm as nat),
        le32(q.residual_norm as nat),
        le16(q.mse_indices.len() % 0x1_0000),
    );
}

proof fn lemma_header(q: QuantizedModel)
    requires
        storable(q),
    ensures
        header(q).len() == 17,
        header(q)[0] == 1,
        header(q)[1] == q.bits,
        header(q)[2] == mode_byte(q.mode),
        read16(header(q), 3) == q.original_dim,
        read16(header(q), 5) == q.padded_dim,
        read32(header(q), 7) == q.norm,
        read32(header(q), 11) == q.residual_norm,
        read16(header(q), 15) == q.mse_indices.len(),
{
    let h = header(q);
    lemma_header_parts(q);
    assert(h[0] == 1 && h[1] == q.bits && h[2] == mode_byte(q.mode)) by {
        let front = h.subrange(0, 3);
        assert(front[0] == h[0] && front[1] == h[1] && front[2] == h[2]);
    }
    assert(read16(h, 3) == q.original_dim) by {
        lemma_le16(h, 3, q.original_dim % 0x1_0000);
    }
    assert(read16(h, 5) == q.padded_dim) by {
        lemma_le16(h, 5, q.padded_dim % 0x1_0000);
    }
    assert(read32(h, 7) == q.norm) by {
        lemma_le32(h, 7, q.norm as nat);
    }
    assert(read32(h, 11) == q.residual_norm) by {
        lemma_le32(h, 11, q.residual_norm as nat);
    }
    assert(read16(h, 15) == q.mse_indices.len()) by {
        lemma_le16(h, 15, q.mse_indices.len() % 0x1_0000);
    }
}

proof fn lemma_tail(h: Seq<u8>, mse: Seq<u8>, qjl: Seq<u8>, b: Seq<u8>)
    requires
        b == h + mse + le16(qjl.len()) + qjl,
        h.len() == 17,
        qjl.len() < 0x1_0000,
    ensures
        b.len() == 19int + mse.len() + qjl.len(),
        forall|i: int| 0 <= i < 17 ==> #[trigger] b[i] == h[i],
        b.subrange(17, 17int + mse.len()) == mse,
        read16(b, 17int + mse.len()) == qjl.len(),
        b.subrange(19int + mse.len(), 19int + mse.len() + qjl.len()) == qjl,
{
    assert(b.subrange(17, 17int + mse.len()) =~= mse);
    assert(b.subrange(17int + mse.len(), 19int + mse.len()) =~= le16(qjl.len()));
    lemma_le16(b, 17int + mse.len(), qjl.len());
    assert(b.subrange(19int + mse.len(), 19int + mse.len() + qjl.len()) =~= qjl);
}

/// A quantized vector that its blob can hold is read back as it was stored.
pub proof fn law_quantized_vector_survives_its_blob(q: QuantizedModel)
    requires
        storable(q),
    ensures
        spec_quantized(spec_quantized_blob(q)) == Some(q),
{
    let b = spec_quantized_blob(q);
    let h = header(q);
    lemma_header(q);
    lemma_tail(h, q.mse_indices, qjl_of(q), b);
    assert(read16(b, 3) == read16(h, 3));
    assert(read16(b, 5) == read16(h, 5));
    assert(read32(b, 7) == read32(h, 7));
    assert(read32(b, 11) == read32(h, 11));
    assert(read16(b, 15) == read16(h, 15));
}

// ── Stored embeddings ────────────────────────────────────────────────

/// The embedding of a row.
#[derive(Debug)]
pub enum StoredEmbedding {
    /// A quantized one.
    Compressed(QuantizedVector),
    /// The bit patterns of its numbers.
    Raw(Vec<u32>),
    /// None, or none that can be read.
    Missing,
}

/// The embedding of a row: the compressed one where the row has one, whether or not it can be
/// read, and otherwise the raw one.
pub fn stored_embedding(compressed: Option<&[u8]>, raw: Option<&[u8]>) -> (r: StoredEmbedding)
    ensures
        match (compressed, raw) {
            (Some(blob), _) => match spec_quantized(blob@) {
                Some(q) => r matches StoredEmbedding::Compressed(v) && v@ == q,
                None => r is Missing,
            },
            (None, Some(blob)) => r matches StoredEmbedding::Raw(v) && v@ == spec_embedding(blob@),
            (None, None) => r is Missing,
        },
{
    match (compressed, raw) {
        (Some(blob), _) => match blob_to_quantized(blob) {
            Some(q) => StoredEmbedding::Compressed(q),
            None => StoredEmbedding::Missing,
        },
        (None, Some(blob)) => StoredEmbedding::Raw(blob_to_embedding(blob)),
        (None, None) => StoredEmbedding::Missing,
    }
}

/// Numbers are stored with their lowest byte first: each byte counts two hundred and fifty-six times
/// as much as the one before it.
pub proof fn law_lowest_byte_comes_first(a: u8, b: u8, c: u8, d: u8)
    ensures
        le16((a + 256 * b) as nat) == seq![a, b],
        le32((a + 256 * b + 65536 * c + 16_777_216 * d) as nat) == seq![a, b, c, d],
        read16(seq![a, b], 0) == a + 256 * b,
        read32(seq![a, b, c, d], 0) == a + 256 * b + 65536 * c + 16_777_216 * d,
{
    let low = (a + 256 * b) as nat;
    let high = (c + 256 * d) as nat;
    let n = (a + 256 * b + 65536 * c + 16_777_216 * d) as nat;
    assert(n % 0x1_0000 == low && n / 0x1_0000 == high);
    assert(low % 256 == a && low / 256 % 256 == b);
    assert(high % 256 == c && high / 256 % 256 == d);
    assert(le16(low) =~= seq![a, b]);
    assert(le32(n) =~= seq![a, b, c, d]);
}

/// The blob of a quantized vector: the version, which is one, the width, zero or one for the mode,
/// the dimension and the padded one in two bytes each, the norm and that of the residual in four
/// bytes each, and then the indices and the signs, each behind its length in two bytes.
pub proof fn law_quantized_blobs(q: QuantizedModel)
    requires
        storable(q),
    ensures
        ({
            let b = spec_quantized_blob(q);
            let n = q.mse_indices.len() as int;
            &&& b[0] == 1 && b[1] == q.bits
            &&& b[2] == (if q.mode == QuantMode::Fast {
                0u8
            } else {
                1
            })
            &&& b[3] + 256 * b[4] == q.original_dim
            &&& b[5] + 256 * b[6] == q.padded_dim
            &&& b[7] + 256 * b[8] + 65536 * (b[9] + 256 * b[10]) == q.norm
            &&& b[11] + 256 * b[12] + 65536 * (b[13] + 256 * b[14]) == q.residual_norm
            &&& b[15] + 256 * b[16] == n
            &&& b.subrange(17, 17 + n) == q.mse_indices
            &&& b[17 + n] + 256 * b[18 + n] == b.len() - 19 - n
            &&& q.qjl_bits matches Some(v) ==> b.skip(19 + n) == v
            &&& q.qjl_bits is None ==> b.len() == 19 + n
        }),
{
    let b = spec_quantized_blob(q);
    let h = header(q);
    let n = q.mse_indices.len() as int;
    lemma_header(q);
    lemma_tail(h, q.mse_indices, qjl_of(q), b);
    assert(read16(b, 3) == read16(h, 3));
    assert(read16(b, 5) == read16(h, 5));
    assert(read32(b, 7) == read32(h, 7));
    assert(read32(b, 11) == read32(h, 11));
    assert(read16(b, 15) == read16(h, 15));
    assert(b.skip(19 + n) =~= b.subrange(19 + n, b.len() as int));
}

/// What is no blob of a quantized vector is not read as one: one that is too short, has another
/// version, a width that is not one to four, an unknown mode, a dimension that is zero or larger
/// than the padded one, or less data than it says.
pub proof fn law_other_blobs_are_refused(b: Seq<u8>)
    ensures
        b.len() < 17 ==> spec_quantized(b) is None,
        b.len() >= 17 && (b[0] != 1 || b[1] == 0 || b[1] > 4 || b[2] > 1) ==> spec_quantized(
            b,
        ) is None,
        b.len() >= 17 && (b[3] + 256 * b[4] == 0 || b[5] + 256 * b[6] < b[3] + 256 * b[4])
            ==> spec_quantized(b) is None,
        b.len() >= 17 && b.len() < 19 + (b[15] + 256 * b[16]) ==> spec_quantized(b) is None,
        ({
            let n = b[15] + 256 * b[16];
            b.len() >= 19 + n && b.len() < 19 + n + (b[17 + n] + 256 * b[18 + n])
                ==> spec_quantized(b) is None
        }),
        spec_embedding(b).len() == (if b.len() % 4 == 0 {
            b.len() / 4
        } else {
            0
        }),
{
    let n = b[15] + 256 * b[16];
    assert(read16(b, 15) == n);
    assert(read16(b, 17 + n) == b[17 + n] + 256 * b[18 + n]);
}

/// A database is brought up to date by adding the columns that it misses, and no others.
pub proof fn law_missing_columns_are_added(missing: MissingColumns)
    ensures
        ({
            let batches = spec_migrations(missing);
            let files = "ALTER TABLE files ADD COLUMN embedding_compressed BLOB; ALTER TABLE symbols ADD COLUMN embedding_compressed BLOB;"@;
            let memories = "ALTER TABLE memories ADD COLUMN embedding_compressed BLOB;"@;
            let counts = "ALTER TABLE files ADD COLUMN import_count INTEGER DEFAULT 0;"@;
            let dates = "ALTER TABLE memories ADD COLUMN linked_id INTEGER; ALTER TABLE memories ADD COLUMN updated_at INTEGER; ALTER TABLE memories ADD COLUMN last_accessed_at INTEGER;"@;
            &&& missing.files_compressed && missing.memories_compressed ==> batches.contains(
                files + memories,
            )
            &&& missing.files_compressed && !missing.memories_compressed ==> batches.contains(files)
            &&& !missing.files_compressed && missing.memories_compressed ==> batches.contains(
                memories,
            )
            &&& missing.import_count ==> batches.contains(counts)
            &&& missing.memory_hygiene ==> batches.contains(dates)
            &&& batches.len() == (if missing.files_compressed || missing.memories_compressed {
                1int
            } else {
                0
            }) + (if missing.import_count {
                1int
            } else {
                0
            }) + (if missing.memory_hygiene {
                1int
            } else {
                0
            })
        }),
{
    let batches = spec_migrations(missing);
    let memories = "ALTER TABLE memories ADD COLUMN embedding_compressed BLOB;"@;
    assert(Seq::<char>::empty() + memories =~= memories);
    let first = missing.files_compressed || missing.memories_compressed;
    let at = if first {
        1int
    } else {
        0
    };
    if first {
        assert(batches[0] == compression_batch(missing));
    }
    if missing.import_count {
        assert(batches[at] == "ALTER TABLE files ADD COLUMN import_count INTEGER DEFAULT 0;"@);
    }
    if missing.memory_hygiene {
        assert(batches[batches.len() - 1]
            == "ALTER TABLE memories ADD COLUMN linked_id INTEGER; ALTER TABLE memories ADD COLUMN updated_at INTEGER; ALTER TABLE memories ADD COLUMN last_accessed_at INTEGER;"@);
    }
}

} // verus!
