//! Lengths in bytes of UTF-8 text, and cutting text at a byte count.

use crate::text;
use vstd::prelude::*;
use vstd::slice::slice_subrange;
use vstd::utf8;

verus! {

/// The number of bytes of a character in UTF-8.
pub open spec fn char_bytes(c: char) -> nat {
    utf8::encode_scalar(c as u32).len()
}

/// The number of bytes of a text in UTF-8.
pub open spec fn bytes_of(s: Seq<char>) -> nat {
    utf8::encode_utf8(s).len()
}

/// The encoding of two texts in a row is the two encodings in a row.
pub proof fn lemma_encode_concat(a: Seq<char>, b: Seq<char>)
    ensures
        utf8::encode_utf8(a + b) == utf8::encode_utf8(a) + utf8::encode_utf8(b),
        bytes_of(a + b) == bytes_of(a) + bytes_of(b),
    decreases a.len(),
{
    if a.len() == 0 {
        assert(a + b =~= b);
        assert(utf8::encode_utf8(a) + utf8::encode_utf8(b) =~= utf8::encode_utf8(b));
    } else {
        lemma_encode_concat(a.drop_first(), b);
        assert((a + b).drop_first() =~= a.drop_first() + b);
        assert((a + b)[0] == a[0]);
        assert(utf8::encode_utf8(a + b) =~= utf8::encode_utf8(a) + utf8::encode_utf8(b));
    }
}

/// A character takes between one and four bytes.
pub proof fn lemma_char_bytes(c: char)
    ensures
        1 <= char_bytes(c) <= 4,
        char_bytes(c) == if (c as u32) < 0x80 {
            1nat
        } else if (c as u32) < 0x800 {
            2
        } else if (c as u32) < 0x1_0000 {
            3
        } else {
            4
        },
{
}

/// A text has at least as many bytes as characters.
pub proof fn lemma_bytes_at_least_chars(s: Seq<char>)
    ensures
        s.len() <= bytes_of(s) <= 4 * s.len(),
    decreases s.len(),
{
    if s.len() > 0 {
        lemma_char_bytes(s[0]);
        lemma_bytes_at_least_chars(s.drop_first());
    }
}

/// The number of bytes of a character in UTF-8.
pub fn char_width(c: char) -> (r: usize)
    ensures
        r == char_bytes(c),
        1 <= r <= 4,
{
    proof {
        lemma_char_bytes(c);
    }
    let v: u32 = c as u32;
    if v < 0x80 {
        1
    } else if v < 0x800 {
        2
    } else if v < 0x1_0000 {
        3
    } else {
        4
    }
}

/// The number of bytes of a string.
pub fn byte_len(s: &str) -> (r: usize)
    ensures
        r == bytes_of(s@),
{
    s.as_bytes().len()
}

/// How many leading characters of `s` fit in `limit` bytes.
pub open spec fn fitting(s: Seq<char>, limit: nat) -> nat
    decreases s.len(),
{
    if s.len() == 0 || char_bytes(s[0]) > limit {
        0
    } else {
        1 + fitting(s.drop_first(), (limit - char_bytes(s[0])) as nat)
    }
}

/// Whether a character of `s` starts at byte `at`, or `s` ends there.
pub open spec fn boundary(s: Seq<char>, at: nat) -> bool {
    bytes_of(s.take(fitting(s, at) as int)) == at
}

/// `fitting` counts the longest prefix of at most `limit` bytes.
pub proof fn lemma_fitting(s: Seq<char>, limit: nat)
    ensures
        fitting(s, limit) <= s.len(),
        bytes_of(s.take(fitting(s, limit) as int)) <= limit,
        forall|k: int|
            fitting(s, limit) < k <= s.len() ==> limit < #[trigger] bytes_of(s.take(k)),
    decreases s.len(),
{
    let n = fitting(s, limit);
    if s.len() == 0 {
        assert(s.take(0) =~= Seq::empty());
    } else if char_bytes(s[0]) > limit {
        assert(s.take(0) =~= Seq::empty());
        assert forall|k: int| 0 < k <= s.len() implies limit < #[trigger] bytes_of(s.take(k)) by {
            assert(s.take(k)[0] == s[0]);
        }
    } else {
        let rest = (limit - char_bytes(s[0])) as nat;
        let t = s.drop_first();
        lemma_fitting(t, rest);
        assert(s.take(n as int).drop_first() =~= t.take(n - 1));
        assert forall|k: int| n < k <= s.len() implies limit < #[trigger] bytes_of(s.take(k)) by {
            assert(s.take(k).drop_first() =~= t.take(k - 1));
            assert(s.take(k)[0] == s[0]);
            assert(rest < bytes_of(t.take(k - 1)));
        }
    }
}

/// A text that is short enough fits whole.
pub proof fn lemma_fitting_whole(s: Seq<char>, limit: nat)
    requires
        bytes_of(s) <= limit,
    ensures
        fitting(s, limit) == s.len(),
{
    lemma_fitting(s, limit);
    assert(s.take(s.len() as int) =~= s);
}

/// How many leading characters fit in `limit` bytes.
pub fn fit(s: &[char], limit: usize) -> (r: usize)
    ensures
        r == fitting(s@, limit as nat),
        r <= s@.len(),
{
    let mut left: usize = limit;
    let mut i: usize = 0;
    assert(s@.skip(0) =~= s@);
    while i < s.len()
        invariant
            i <= s@.len(),
            fitting(s@, limit as nat) == i + fitting(s@.skip(i as int), left as nat),
        decreases s@.len() - i,
    {
        let w = char_width(s[i]);
        assert(s@.skip(i as int)[0] == s@[i as int]);
        if w > left {
            return i;
        }
        assert(s@.skip(i as int).drop_first() =~= s@.skip(i + 1));
        left = left - w;
        i = i + 1;
    }
    i
}

/// The longest prefix of at most `limit` bytes.
pub fn prefix<'a>(s: &'a [char], limit: usize) -> (r: &'a [char])
    ensures
        r@ == s@.take(fitting(s@, limit as nat) as int),
        fitting(s@, limit as nat) <= s@.len(),
{
    let n = fit(s, limit);
    assert(s@.subrange(0, n as int) =~= s@.take(n as int));
    slice_subrange(s, 0, n)
}

/// A signature cut down to `limit` bytes: at the last comma or closing parenthesis before
/// the limit, or at the limit, with dots behind it. There is no such cut where the limit lies
/// inside a character.
pub open spec fn spec_truncate_signature(s: Seq<char>, limit: nat) -> Option<Seq<char>> {
    if bytes_of(s) <= limit {
        Some(s)
    } else if !boundary(s, limit) {
        None
    } else {
        let front = s.take(fitting(s, limit) as int);
        match text::spec_rfind_either(front, ',', ')') {
            Some(i) => Some(front.take(i) + "..."@),
            None => Some(front + "..."@),
        }
    }
}

/// A signature cut down to `limit` bytes, unless the limit lies inside a character.
pub fn truncate_signature(sig: &str, limit: usize) -> (r: Option<String>)
    ensures
        match r {
            Some(t) => spec_truncate_signature(sig@, limit as nat) == Some(t@),
            None => spec_truncate_signature(sig@, limit as nat) is None,
        },
{
    if byte_len(sig) <= limit {
        return Some(text::owned(sig));
    }
    if !is_boundary(sig, limit) {
        return None;
    }
    let chars = text::chars_of(sig);
    let front = prefix(chars.as_slice(), limit);
    let kept = match text::rfind_either(front, ',', ')') {
        Some(i) => {
            assert(front@.subrange(0, i as int) =~= front@.take(i as int));
            slice_subrange(front, 0, i)
        },
        None => front,
    };
    Some(text::string_of(kept).concat("..."))
}

/// Whether a character of `s` starts at byte `at`, or `s` ends there.
pub fn is_boundary(s: &str, at: usize) -> (r: bool)
    ensures
        r == boundary(s@, at as nat),
{
    let t = text::chars_of(s);
    let mut used: usize = 0;
    let mut i: usize = 0;
    assert(t@.skip(0) =~= t@);
    assert(t@.take(0) =~= Seq::empty());
    while i < t.len()
        invariant
            t@ == s@,
            i <= t@.len(),
            used <= at,
            used == bytes_of(t@.take(i as int)),
            fitting(t@, at as nat) == i + fitting(t@.skip(i as int), (at - used) as nat),
        decreases t@.len() - i,
    {
        let w = char_width(t[i]);
        assert(t@.skip(i as int)[0] == t@[i as int]);
        if w > at - used {
            return used == at;
        }
        proof {
            assert(t@.skip(i as int).drop_first() =~= t@.skip(i + 1));
            assert(t@.take(i + 1) =~= t@.take(i as int) + seq![t@[i as int]]);
            lemma_encode_concat(t@.take(i as int), seq![t@[i as int]]);
            lemma_single(t@[i as int]);
        }
        used = used + w;
        i = i + 1;
    }
    used == at
}

/// The characters between two bytes of a text, unless one of the bytes lies inside a
/// character or beyond the end.
pub open spec fn spec_between(s: Seq<char>, from: nat, to: nat) -> Option<Seq<char>> {
    if from <= to && boundary(s, from) && boundary(s, to) {
        Some(s.subrange(fitting(s, from) as int, fitting(s, to) as int))
    } else {
        None
    }
}

/// The characters between two bytes of a text.
pub fn between(s: &str, from: usize, to: usize) -> (r: Option<Vec<char>>)
    ensures
        match r {
            Some(v) => spec_between(s@, from as nat, to as nat) == Some(v@) && v@.len() <= to - from,
            None => spec_between(s@, from as nat, to as nat) is None,
        },
{
    if from > to || !is_boundary(s, from) || !is_boundary(s, to) {
        return None;
    }
    let chars = text::chars_of(s);
    let a: usize = fit(chars.as_slice(), from);
    let b: usize = fit(chars.as_slice(), to);
    proof {
        lemma_fitting(s@, from as nat);
        lemma_fitting(s@, to as nat);
        assert(a <= b) by {
            if b < a {
                assert(bytes_of(s@.take(a as int)) > to);
            }
        }
        let middle = s@.subrange(a as int, b as int);
        assert(s@.take(b as int) =~= s@.take(a as int) + middle);
        lemma_encode_concat(s@.take(a as int), middle);
        lemma_bytes_at_least_chars(middle);
    }
    let part = slice_subrange(chars.as_slice(), a, b);
    let mut out: Vec<char> = Vec::new();
    out.extend_from_slice(part);
    assert(out@ =~= part@);
    Some(out)
}

/// One character alone encodes to that character's bytes.
pub proof fn lemma_single(c: char)
    ensures
        bytes_of(seq![c]) == char_bytes(c),
{
    let s = seq![c];
    assert(s.drop_first() =~= Seq::empty());
    assert(utf8::encode_utf8(s.drop_first()) =~= Seq::empty());
    assert(utf8::encode_utf8(s) =~= utf8::encode_scalar(c as u32));
}

/// An ASCII text has as many bytes as characters.
pub proof fn lemma_ascii_bytes(s: Seq<char>)
    requires
        text::ascii(s),
    ensures
        bytes_of(s) == s.len(),
    decreases s.len(),
{
    if s.len() > 0 {
        let rest = s.drop_first();
        assert forall|i: int| 0 <= i < rest.len() implies (#[trigger] rest[i] as u32) < 0x80 by {
            assert(rest[i] == s[i + 1]);
        }
        lemma_ascii_bytes(rest);
        assert((s[0] as u32) < 0x80);
        lemma_char_bytes(s[0]);
        assert(s =~= seq![s[0]] + rest);
        lemma_encode_concat(seq![s[0]], rest);
        lemma_single(s[0]);
    } else {
        lemma_bytes_at_least_chars(s);
    }
}

proof fn lemma_last_of_either(s: Seq<char>, a: char, b: char)
    ensures
        match text::spec_rfind_either(s, a, b) {
            Some(k) => 0 <= k < s.len() && (s[k] == a || s[k] == b) && forall|j: int|
                k < j < s.len() ==> #[trigger] s[j] != a && s[j] != b,
            None => forall|j: int| 0 <= j < s.len() ==> #[trigger] s[j] != a && s[j] != b,
        },
    decreases s.len(),
{
    if s.len() > 0 && s.last() != a && s.last() != b {
        let front = s.drop_last();
        lemma_last_of_either(front, a, b);
        let k = match text::spec_rfind_either(front, a, b) {
            Some(k) => k,
            None => -1,
        };
        assert forall|j: int| k < j < s.len() implies #[trigger] s[j] != a && s[j] != b by {
            if j < front.len() {
                assert(front[j] == s[j]);
            }
        }
    }
}

/// A signature that fits stays as it is. A longer one is cut within the limit, at its last comma
/// or closing parenthesis there if it has one, and ends with dots.
pub proof fn law_signatures_are_cut(s: Seq<char>, limit: nat)
    requires
        text::ascii(s),
    ensures
        s.len() <= limit ==> spec_truncate_signature(s, limit) == Some(s),
        s.len() > limit ==> match spec_truncate_signature(s, limit) {
            Some(t) => {
                let n = t.len() - 3;
                &&& 0 <= n <= limit
                &&& t == s.take(n) + "..."@
                &&& n < limit ==> s[n] == ',' || s[n] == ')'
                &&& forall|j: int| n < j < limit ==> #[trigger] s[j] != ',' && s[j] != ')'
                &&& n == limit ==> forall|j: int|
                    0 <= j < limit ==> #[trigger] s[j] != ',' && s[j] != ')'
            },
            None => false,
        },
{
    reveal_strlit("...");
    lemma_ascii_bytes(s);
    if s.len() > limit {
        lemma_fitting(s, limit);
        let f = fitting(s, limit) as int;
        assert(text::ascii(s.take(f)));
        lemma_ascii_bytes(s.take(f));
        assert(text::ascii(s.take(limit as int)));
        lemma_ascii_bytes(s.take(limit as int));
        let front = s.take(f);
        assert(f == limit);
        lemma_last_of_either(front, ',', ')');
        assert forall|j: int| 0 <= j < limit implies #[trigger] front[j] == s[j] by {}
        match text::spec_rfind_either(front, ',', ')') {
            Some(i) => {
                assert(front.take(i) =~= s.take(i));
                assert forall|j: int| i < j < limit implies #[trigger] s[j] != ',' && s[j] != ')' by {
                    assert(front[j] == s[j]);
                }
            },
            None => {
                assert forall|j: int| 0 <= j < limit implies #[trigger] s[j] != ',' && s[j] != ')' by {
                    assert(front[j] == s[j]);
                }
            },
        }
    }
}

/// In ASCII every byte starts a character.
pub proof fn lemma_ascii_fitting(s: Seq<char>, k: nat)
    requires
        text::ascii(s),
        k <= s.len(),
    ensures
        fitting(s, k) == k,
        boundary(s, k),
        bytes_of(s) == s.len(),
{
    lemma_ascii_bytes(s);
    let front = s.take(k as int);
    assert(text::ascii(front)) by {
        assert forall|i: int| 0 <= i < front.len() implies (#[trigger] front[i] as u32) < 0x80 by {
            assert(front[i] == s[i]);
        }
    }
    lemma_ascii_bytes(front);
    lemma_fitting(s, k);
    let n = fitting(s, k) as int;
    if n < k {
        assert(k < bytes_of(s.take(k as int)));
    }
    let t = s.take(n);
    assert(text::ascii(t)) by {
        assert forall|i: int| 0 <= i < t.len() implies (#[trigger] t[i] as u32) < 0x80 by {
            assert(t[i] == s[i]);
        }
    }
    lemma_ascii_bytes(t);
}

} // verus!
