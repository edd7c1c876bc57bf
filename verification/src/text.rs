//! Characters, words and lines: the string operations the rest of the crate is stated over.
//!
//! Executable functions work on `&[char]`; their meaning is given by spec functions of the
//! same name (with a `spec_` prefix) on `Seq<char>`.

use vstd::prelude::*;
use vstd::slice::slice_subrange;
use vstd::utf8;

verus! {

// ── Character classes and case, from std ─────────────────────────────

/// Whether a character is an ASCII letter or digit.
pub open spec fn ascii_alphanumeric(c: char) -> bool {
    'a' <= c <= 'z' || 'A' <= c <= 'Z' || '0' <= c <= '9'
}

/// What `char::is_alphanumeric` answers for characters beyond ASCII: the Unicode properties
/// Alphabetic, Nd, Nl, No.
pub uninterp spec fn unicode_alphanumeric(c: char) -> bool;

/// Whether a character is a letter or a digit.
pub open spec fn char_is_alphanumeric(c: char) -> bool {
    if (c as u32) < 0x80 {
        ascii_alphanumeric(c)
    } else {
        unicode_alphanumeric(c)
    }
}

/// `char::is_alphanumeric`: of the ASCII characters, the letters and digits. Beyond ASCII it
/// depends on the character alone; its table is not written out here.
pub assume_specification[ char::is_alphanumeric ](c: char) -> (r: bool)
    ensures
        r == if (c as u32) < 0x80 {
            ascii_alphanumeric(c)
        } else {
            unicode_alphanumeric(c)
        },
;

/// Whether a character is white space: it has the Unicode property White_Space.
pub open spec fn char_is_whitespace(c: char) -> bool {
    let n = c as u32;
    0x09 <= n <= 0x0d || n == 0x20 || n == 0x85 || n == 0xa0 || n == 0x1680 || 0x2000 <= n
        <= 0x200a || n == 0x2028 || n == 0x2029 || n == 0x202f || n == 0x205f || n == 0x3000
}

/// `char::is_whitespace`: the characters with the Unicode property White_Space.
pub assume_specification[ char::is_whitespace ](c: char) -> (r: bool)
    ensures
        r == char_is_whitespace(c),
;

/// Whether a text has only ASCII characters.
pub open spec fn ascii(s: Seq<char>) -> bool {
    forall|i: int| 0 <= i < s.len() ==> (#[trigger] s[i] as u32) < 0x80
}

/// An ASCII character in lower case.
pub open spec fn ascii_lower(c: char) -> char {
    if 'A' <= c <= 'Z' {
        (c as u32 + 32) as char
    } else {
        c
    }
}

/// An ASCII text in lower case.
pub open spec fn ascii_lowercase(s: Seq<char>) -> Seq<char> {
    s.map_values(|c: char| ascii_lower(c))
}

/// What `str::to_lowercase` returns for texts beyond ASCII: the Unicode lowercase of the text.
pub uninterp spec fn unicode_lowercase(s: Seq<char>) -> Seq<char>;

/// A text in lower case.
pub open spec fn lowercase_of(s: Seq<char>) -> Seq<char> {
    if ascii(s) {
        ascii_lowercase(s)
    } else {
        unicode_lowercase(s)
    }
}

/// `str::to_lowercase`: an ASCII text with its letters in lower case. Beyond ASCII it depends on
/// the text alone; its tables are not written out here.
pub assume_specification[ str::to_lowercase ](s: &str) -> (r: String)
    ensures
        r@ == if ascii(s@) {
            ascii_lowercase(s@)
        } else {
            unicode_lowercase(s@)
        },
;

/// `String::push` appends one character.
pub assume_specification[ String::push ](s: &mut String, c: char)
    ensures
        final(s)@ == old(s)@.push(c),
;

// ── Conversions ──────────────────────────────────────────────────────

/// The characters of a string.
pub fn chars_of(s: &str) -> (r: Vec<char>)
    ensures
        r@ == s@,
{
    let mut out: Vec<char> = Vec::new();
    for c in it: s.chars()
        invariant
            it.seq() == s@,
            out@ == s@.take(it.index() as int),
    {
        out.push(c);
    }
    out
}

/// The string made of the given characters.
pub fn string_of(chars: &[char]) -> (r: String)
    ensures
        r@ == chars@,
{
    let mut out = String::new();
    for i in 0..chars.len()
        invariant
            out@ == chars@.take(i as int),
    {
        out.push(chars[i]);
        assert(chars@.take(i + 1) =~= chars@.take(i as int).push(chars@[i as int]));
    }
    assert(chars@.take(chars@.len() as int) =~= chars@);
    out
}

/// A copy of a string slice.
pub fn owned(s: &str) -> (r: String)
    ensures
        r@ == s@,
{
    s.to_owned()
}

/// Whether two strings hold the same text.
pub fn same(a: &str, b: &str) -> (r: bool)
    ensures
        r == (a@ == b@),
{
    let x = a.as_bytes();
    let y = b.as_bytes();
    if x.len() != y.len() {
        return false;
    }
    for i in 0..x.len()
        invariant
            x@.len() == y@.len(),
            x@ == utf8::encode_utf8(a@),
            y@ == utf8::encode_utf8(b@),
            forall|j: int| 0 <= j < i ==> x@[j] == y@[j],
    {
        if x[i] != y[i] {
            return false;
        }
    }
    proof {
        assert(x@ =~= y@);
        utf8::encode_utf8_decode_utf8(a@);
        utf8::encode_utf8_decode_utf8(b@);
    }
    true
}

/// Whether two runs of characters are equal.
pub fn same_chars(a: &[char], b: &[char]) -> (r: bool)
    ensures
        r == (a@ == b@),
{
    if a.len() != b.len() {
        return false;
    }
    for i in 0..a.len()
        invariant
            a@.len() == b@.len(),
            forall|j: int| 0 <= j < i ==> a@[j] == b@[j],
    {
        if a[i] != b[i] {
            return false;
        }
    }
    assert(a@ =~= b@);
    true
}

/// The texts of a list of strings.
pub open spec fn texts(v: Seq<String>) -> Seq<Seq<char>> {
    v.map_values(|s: String| s@)
}

/// The texts of a list of character slices.
pub open spec fn slices(v: Seq<&[char]>) -> Seq<Seq<char>> {
    v.map_values(|s: &[char]| s@)
}

// ── Searching ────────────────────────────────────────────────────────

/// Whether `p` stands in `s` at index `i`.
pub open spec fn occurs_at(s: Seq<char>, p: Seq<char>, i: int) -> bool {
    0 <= i && i + p.len() <= s.len() && s.subrange(i, i + p.len()) == p
}

/// Whether `s` begins with `p`.
pub open spec fn begins(s: Seq<char>, p: Seq<char>) -> bool {
    occurs_at(s, p, 0)
}

/// Whether `s` ends with `p`.
pub open spec fn ends(s: Seq<char>, p: Seq<char>) -> bool {
    occurs_at(s, p, s.len() - p.len())
}

/// The first index, not before `i`, at which `p` stands in `s`.
pub open spec fn spec_find_from(s: Seq<char>, p: Seq<char>, i: int) -> Option<int>
    decreases s.len() - i + 1,
{
    if i < 0 || i + p.len() > s.len() {
        None
    } else if occurs_at(s, p, i) {
        Some(i)
    } else {
        spec_find_from(s, p, i + 1)
    }
}

/// The first index at which `p` stands in `s`.
pub open spec fn spec_find(s: Seq<char>, p: Seq<char>) -> Option<int> {
    spec_find_from(s, p, 0)
}

/// Whether `p` stands anywhere in `s`.
pub open spec fn has(s: Seq<char>, p: Seq<char>) -> bool {
    spec_find(s, p) is Some
}

/// `spec_find_from` is the least index from `i` on at which `p` stands in `s`.
pub proof fn lemma_find_from(s: Seq<char>, p: Seq<char>, i: int)
    requires
        0 <= i,
    ensures
        match spec_find_from(s, p, i) {
            Some(k) => i <= k && occurs_at(s, p, k) && forall|j: int|
                i <= j < k ==> !occurs_at(s, p, j),
            None => forall|j: int| i <= j ==> !occurs_at(s, p, j),
        },
    decreases s.len() - i + 1,
{
    if i + p.len() > s.len() {
    } else if occurs_at(s, p, i) {
    } else {
        lemma_find_from(s, p, i + 1);
    }
}

/// A text is found somewhere in another exactly when it stands at some index of it.
pub proof fn lemma_has(s: Seq<char>, p: Seq<char>)
    ensures
        has(s, p) <==> exists|i: int| occurs_at(s, p, i),
{
    lemma_find_from(s, p, 0);
    if has(s, p) {
        assert(occurs_at(s, p, spec_find(s, p)->0));
    }
}

/// Whether `p` stands in `s` at index `i`.
pub fn matches_at(s: &[char], p: &[char], i: usize) -> (r: bool)
    ensures
        r == occurs_at(s@, p@, i as int),
{
    if i > s.len() || s.len() - i < p.len() {
        return false;
    }
    let n: usize = s.len();
    for j in 0..p.len()
        invariant
            n == s@.len(),
            i + p@.len() <= n,
            forall|k: int| 0 <= k < j ==> s@[i + k] == p@[k],
    {
        if s[i + j] != p[j] {
            assert(s@.subrange(i as int, i + p@.len())[j as int] != p@[j as int]);
            return false;
        }
    }
    assert(s@.subrange(i as int, i + p@.len()) =~= p@);
    true
}

/// Whether `s` begins with `p`.
pub fn starts_with(s: &[char], p: &str) -> (r: bool)
    ensures
        r == begins(s@, p@),
{
    let q = chars_of(p);
    matches_at(s, q.as_slice(), 0)
}

/// Whether `s` ends with `p`.
pub fn ends_with(s: &[char], p: &str) -> (r: bool)
    ensures
        r == ends(s@, p@),
{
    let q = chars_of(p);
    if q.len() > s.len() {
        return false;
    }
    matches_at(s, q.as_slice(), s.len() - q.len())
}

/// The first index, not before `from`, at which `p` stands in `s`.
pub fn find_from(s: &[char], p: &[char], from: usize) -> (r: Option<usize>)
    requires
        from <= s@.len(),
    ensures
        match r {
            Some(k) => spec_find_from(s@, p@, from as int) == Some(k as int),
            None => spec_find_from(s@, p@, from as int) is None,
        },
{
    if s.len() < p.len() {
        return None;
    }
    let last: usize = s.len() - p.len();
    let mut i: usize = from;
    while i <= last
        invariant
            last == s@.len() - p@.len(),
            from <= i <= s@.len() + 1,
            i <= last + 1 || i == from,
            spec_find_from(s@, p@, from as int) == spec_find_from(s@, p@, i as int),
        decreases last + 1 - i,
    {
        if matches_at(s, p, i) {
            return Some(i);
        }
        if i == last {
            assert(spec_find_from(s@, p@, i + 1) is None);
            return None;
        }
        i = i + 1;
    }
    None
}

/// The first index at which `p` stands in `s`.
pub fn find(s: &[char], p: &str) -> (r: Option<usize>)
    ensures
        match r {
            Some(k) => spec_find(s@, p@) == Some(k as int) && k + p@.len() <= s@.len(),
            None => spec_find(s@, p@) is None,
        },
{
    let q = chars_of(p);
    proof {
        lemma_find_from(s@, p@, 0);
    }
    find_from(s, q.as_slice(), 0)
}

/// Whether `p` stands anywhere in `s`.
pub fn contains(s: &[char], p: &str) -> (r: bool)
    ensures
        r == has(s@, p@),
{
    find(s, p).is_some()
}

/// Whether the text of `p` stands anywhere in the text of `s`.
pub fn str_contains(s: &str, p: &str) -> (r: bool)
    ensures
        r == has(s@, p@),
{
    let t = chars_of(s);
    contains(t.as_slice(), p)
}

/// The first index, not before `i`, of the character `c`.
pub open spec fn spec_find_char_from(s: Seq<char>, c: char, i: int) -> Option<int>
    decreases s.len() - i,
{
    if i < 0 || i >= s.len() {
        None
    } else if s[i] == c {
        Some(i)
    } else {
        spec_find_char_from(s, c, i + 1)
    }
}

/// The first index of the character `c`.
pub open spec fn spec_find_char(s: Seq<char>, c: char) -> Option<int> {
    spec_find_char_from(s, c, 0)
}

/// `spec_find_char_from` is the least index from `i` on that holds `c`.
pub proof fn lemma_find_char_from(s: Seq<char>, c: char, i: int)
    requires
        0 <= i,
    ensures
        match spec_find_char_from(s, c, i) {
            Some(k) => i <= k < s.len() && s[k] == c && forall|j: int| i <= j < k ==> s[j] != c,
            None => forall|j: int| i <= j < s.len() ==> s[j] != c,
        },
    decreases s.len() - i,
{
    if i < s.len() && s[i] != c {
        lemma_find_char_from(s, c, i + 1);
    }
}

/// The first index of the character `c`.
pub fn find_char(s: &[char], c: char) -> (r: Option<usize>)
    ensures
        match r {
            Some(k) => spec_find_char(s@, c) == Some(k as int) && k < s@.len(),
            None => spec_find_char(s@, c) is None,
        },
{
    let mut i: usize = 0;
    while i < s.len()
        invariant
            i <= s@.len(),
            spec_find_char(s@, c) == spec_find_char_from(s@, c, i as int),
        decreases s@.len() - i,
    {
        if s[i] == c {
            return Some(i);
        }
        i = i + 1;
    }
    None
}

/// The last index that holds `a` or `b`.
pub open spec fn spec_rfind_either(s: Seq<char>, a: char, b: char) -> Option<int>
    decreases s.len(),
{
    if s.len() == 0 {
        None
    } else if s.last() == a || s.last() == b {
        Some(s.len() - 1)
    } else {
        spec_rfind_either(s.drop_last(), a, b)
    }
}

/// The last index that holds `c`.
pub open spec fn spec_rfind(s: Seq<char>, c: char) -> Option<int> {
    spec_rfind_either(s, c, c)
}

/// The last index that holds `a` or `b`.
pub fn rfind_either(s: &[char], a: char, b: char) -> (r: Option<usize>)
    ensures
        match r {
            Some(k) => spec_rfind_either(s@, a, b) == Some(k as int) && k < s@.len(),
            None => spec_rfind_either(s@, a, b) is None,
        },
{
    let mut i: usize = s.len();
    assert(s@.take(i as int) =~= s@);
    while i > 0
        invariant
            i <= s@.len(),
            spec_rfind_either(s@, a, b) == spec_rfind_either(s@.take(i as int), a, b),
        decreases i,
    {
        let ghost before = s@.take(i as int);
        if s[i - 1] == a || s[i - 1] == b {
            return Some(i - 1);
        }
        assert(before.drop_last() =~= s@.take(i - 1));
        i = i - 1;
    }
    None
}

/// The last index that holds `c`.
pub fn rfind(s: &[char], c: char) -> (r: Option<usize>)
    ensures
        match r {
            Some(k) => spec_rfind(s@, c) == Some(k as int) && k < s@.len(),
            None => spec_rfind(s@, c) is None,
        },
{
    rfind_either(s, c, c)
}

// ── Trimming ─────────────────────────────────────────────────────────

/// The text without its leading white space.
pub open spec fn spec_trim_start(s: Seq<char>) -> Seq<char>
    decreases s.len(),
{
    if s.len() > 0 && char_is_whitespace(s[0]) {
        spec_trim_start(s.drop_first())
    } else {
        s
    }
}

/// The text without its trailing white space.
pub open spec fn spec_trim_end(s: Seq<char>) -> Seq<char>
    decreases s.len(),
{
    if s.len() > 0 && char_is_whitespace(s.last()) {
        spec_trim_end(s.drop_last())
    } else {
        s
    }
}

/// The text without leading and trailing white space.
pub open spec fn spec_trim(s: Seq<char>) -> Seq<char> {
    spec_trim_end(spec_trim_start(s))
}

/// The text without its leading white space.
pub fn trim_start<'a>(s: &'a [char]) -> (r: &'a [char])
    ensures
        r@ == spec_trim_start(s@),
{
    let mut i: usize = 0;
    assert(s@.skip(0) =~= s@);
    while i < s.len() && s[i].is_whitespace()
        invariant
            i <= s@.len(),
            spec_trim_start(s@) == spec_trim_start(s@.skip(i as int)),
        decreases s@.len() - i,
    {
        assert(s@.skip(i as int).drop_first() =~= s@.skip(i + 1));
        i = i + 1;
    }
    assert(s@.subrange(i as int, s@.len() as int) =~= s@.skip(i as int));
    slice_subrange(s, i, s.len())
}

/// The text without its trailing white space.
pub fn trim_end<'a>(s: &'a [char]) -> (r: &'a [char])
    ensures
        r@ == spec_trim_end(s@),
{
    let mut i: usize = s.len();
    assert(s@.take(i as int) =~= s@);
    while i > 0 && s[i - 1].is_whitespace()
        invariant
            i <= s@.len(),
            spec_trim_end(s@) == spec_trim_end(s@.take(i as int)),
        decreases i,
    {
        assert(s@.take(i as int).drop_last() =~= s@.take(i - 1));
        i = i - 1;
    }
    assert(s@.subrange(0, i as int) =~= s@.take(i as int));
    slice_subrange(s, 0, i)
}

/// The text without leading and trailing white space.
pub fn trim<'a>(s: &'a [char]) -> (r: &'a [char])
    ensures
        r@ == spec_trim(s@),
{
    trim_end(trim_start(s))
}

/// The text with every leading copy of `p` taken off.
pub open spec fn spec_strip_leading(s: Seq<char>, p: Seq<char>) -> Seq<char>
    decreases s.len(),
{
    if p.len() > 0 && begins(s, p) {
        spec_strip_leading(s.skip(p.len() as int), p)
    } else {
        s
    }
}

/// The text with every leading copy of `p` taken off.
pub fn strip_leading<'a>(s: &'a [char], p: &str) -> (r: &'a [char])
    ensures
        r@ == spec_strip_leading(s@, p@),
{
    let q = chars_of(p);
    let n: usize = s.len();
    let mut i: usize = 0;
    assert(s@.skip(0) =~= s@);
    if q.len() == 0 {
        return s;
    }
    while matches_at(s, q.as_slice(), i)
        invariant
            q@ == p@,
            q@.len() > 0,
            n == s@.len(),
            i <= n,
            spec_strip_leading(s@, p@) == spec_strip_leading(s@.skip(i as int), p@),
        decreases s@.len() - i,
    {
        proof {
            let t = s@.skip(i as int);
            assert(t.subrange(0, p@.len() as int) =~= s@.subrange(i as int, i + p@.len()));
            assert(t.skip(p@.len() as int) =~= s@.skip(i + p@.len()));
        }
        i = i + q.len();
    }
    proof {
        let t = s@.skip(i as int);
        if begins(t, p@) {
            assert(t.subrange(0, p@.len() as int) =~= s@.subrange(i as int, i + p@.len()));
        }
        assert(s@.subrange(i as int, s@.len() as int) =~= t);
    }
    slice_subrange(s, i, s.len())
}

/// The text with every trailing `c` taken off.
pub open spec fn spec_strip_trailing(s: Seq<char>, c: char) -> Seq<char>
    decreases s.len(),
{
    if s.len() > 0 && s.last() == c {
        spec_strip_trailing(s.drop_last(), c)
    } else {
        s
    }
}

/// The text with every trailing `c` taken off.
pub fn strip_trailing<'a>(s: &'a [char], c: char) -> (r: &'a [char])
    ensures
        r@ == spec_strip_trailing(s@, c),
{
    let mut i: usize = s.len();
    assert(s@.take(i as int) =~= s@);
    while i > 0 && s[i - 1] == c
        invariant
            i <= s@.len(),
            spec_strip_trailing(s@, c) == spec_strip_trailing(s@.take(i as int), c),
        decreases i,
    {
        assert(s@.take(i as int).drop_last() =~= s@.take(i - 1));
        i = i - 1;
    }
    assert(s@.subrange(0, i as int) =~= s@.take(i as int));
    slice_subrange(s, 0, i)
}

/// What follows the prefix `p`, if the text begins with it.
pub open spec fn spec_strip_prefix(s: Seq<char>, p: Seq<char>) -> Option<Seq<char>> {
    if begins(s, p) {
        Some(s.skip(p.len() as int))
    } else {
        None
    }
}

/// What follows the prefix `p`, if the text begins with it.
pub fn strip_prefix<'a>(s: &'a [char], p: &str) -> (r: Option<&'a [char]>)
    ensures
        match r {
            Some(t) => spec_strip_prefix(s@, p@) == Some(t@),
            None => spec_strip_prefix(s@, p@) is None,
        },
{
    let q = chars_of(p);
    if matches_at(s, q.as_slice(), 0) {
        assert(s@.subrange(p@.len() as int, s@.len() as int) =~= s@.skip(p@.len() as int));
        Some(slice_subrange(s, q.len(), s.len()))
    } else {
        None
    }
}

// ── Lines, pieces and words ──────────────────────────────────────────

/// The line without a carriage return at its end.
pub open spec fn drop_return(s: Seq<char>) -> Seq<char> {
    if s.len() > 0 && s.last() == '\r' {
        s.drop_last()
    } else {
        s
    }
}

/// The lines of a text. A line ends before a line feed, or before a carriage return and a
/// line feed; the last line may end with the text.
pub open spec fn spec_lines(s: Seq<char>) -> Seq<Seq<char>>
    decreases s.len(),
{
    if s.len() == 0 {
        Seq::empty()
    } else {
        match spec_find_char(s, '\n') {
            Some(i) => {
                proof {
                    lemma_find_char_from(s, '\n', 0);
                }
                seq![drop_return(s.take(i))] + spec_lines(s.skip(i + 1))
            },
            None => seq![s],
        }
    }
}

/// The lines of a text.
pub fn lines<'a>(s: &'a [char]) -> (r: Vec<&'a [char]>)
    ensures
        slices(r@) == spec_lines(s@),
{
    let mut out: Vec<&'a [char]> = Vec::new();
    let mut pos: usize = 0;
    assert(s@.skip(0) =~= s@);
    assert(slices(out@) + spec_lines(s@) =~= spec_lines(s@));
    while pos < s.len()
        invariant
            pos <= s@.len(),
            slices(out@) + spec_lines(s@.skip(pos as int)) == spec_lines(s@),
        decreases s@.len() - pos,
    {
        let rest = slice_subrange(s, pos, s.len());
        let ghost tail = s@.skip(pos as int);
        assert(rest@ =~= tail);
        let ghost done = slices(out@);
        match find_char(rest, '\n') {
            Some(i) => {
                let end: usize = if i > 0 && rest[i - 1] == '\r' {
                    i - 1
                } else {
                    i
                };
                let line = slice_subrange(rest, 0, end);
                assert(line@ =~= drop_return(tail.take(i as int)));
                out.push(line);
                assert(slices(out@) =~= done.push(line@));
                assert(tail.skip(i + 1) =~= s@.skip(pos + i + 1));
                assert(done + (seq![line@] + spec_lines(s@.skip(pos + i + 1))) =~= slices(out@)
                    + spec_lines(s@.skip(pos + i + 1)));
                pos = pos + i + 1;
            },
            None => {
                out.push(rest);
                assert(slices(out@) =~= done.push(rest@));
                assert(slices(out@) =~= spec_lines(s@));
                assert(s@.skip(s@.len() as int) =~= Seq::empty());
                assert(slices(out@) + spec_lines(s@.skip(s@.len() as int)) =~= slices(out@));
                pos = s.len();
            },
        }
    }
    assert(slices(out@) + spec_lines(s@.skip(pos as int)) =~= slices(out@));
    out
}

/// The pieces of a text between the characters `c`; there is one more of them than there
/// are `c` in the text.
pub open spec fn spec_split(s: Seq<char>, c: char) -> Seq<Seq<char>>
    decreases s.len(),
{
    match spec_find_char(s, c) {
        Some(i) => {
            proof {
                lemma_find_char_from(s, c, 0);
            }
            seq![s.take(i)] + spec_split(s.skip(i + 1), c)
        },
        None => seq![s],
    }
}

/// The pieces of a text between the characters `c`.
pub fn split<'a>(s: &'a [char], c: char) -> (r: Vec<&'a [char]>)
    ensures
        slices(r@) == spec_split(s@, c),
        r@.len() > 0,
{
    let mut out: Vec<&'a [char]> = Vec::new();
    let mut pos: usize = 0;
    assert(s@.skip(0) =~= s@);
    assert(slices(out@) + spec_split(s@, c) =~= spec_split(s@, c));
    loop
        invariant
            pos <= s@.len(),
            slices(out@) + spec_split(s@.skip(pos as int), c) == spec_split(s@, c),
        decreases s@.len() - pos,
    {
        let rest = slice_subrange(s, pos, s.len());
        let ghost tail = s@.skip(pos as int);
        assert(rest@ =~= tail);
        let ghost done = slices(out@);
        match find_char(rest, c) {
            Some(i) => {
                let piece = slice_subrange(rest, 0, i);
                assert(piece@ =~= tail.take(i as int));
                out.push(piece);
                assert(slices(out@) =~= done.push(piece@));
                assert(tail.skip(i + 1) =~= s@.skip(pos + i + 1));
                assert(done + (seq![piece@] + spec_split(s@.skip(pos + i + 1), c)) =~= slices(out@)
                    + spec_split(s@.skip(pos + i + 1), c));
                pos = pos + i + 1;
            },
            None => {
                out.push(rest);
                assert(slices(out@) =~= done.push(rest@));
                assert(slices(out@) =~= spec_split(s@, c));
                return out;
            },
        }
    }
}

/// The length of the run of characters, from `i` on, that are not white space.
pub open spec fn word_end(s: Seq<char>, i: int) -> int
    decreases s.len() - i,
{
    if i < 0 || i >= s.len() || char_is_whitespace(s[i]) {
        i
    } else {
        word_end(s, i + 1)
    }
}

/// `word_end` is at or after where it starts and within the text.
pub proof fn lemma_word_end(s: Seq<char>, i: int)
    requires
        0 <= i <= s.len(),
    ensures
        i <= word_end(s, i) <= s.len(),
        i < s.len() && !char_is_whitespace(s[i]) ==> i < word_end(s, i),
    decreases s.len() - i,
{
    if i < s.len() && !char_is_whitespace(s[i]) {
        lemma_word_end(s, i + 1);
    }
}

/// Trimming leaves a text no longer than it was, and with no white space in front.
pub proof fn lemma_trim_start(s: Seq<char>)
    ensures
        spec_trim_start(s).len() <= s.len(),
        spec_trim_start(s).len() > 0 ==> !char_is_whitespace(spec_trim_start(s)[0]),
    decreases s.len(),
{
    if s.len() > 0 && char_is_whitespace(s[0]) {
        lemma_trim_start(s.drop_first());
    }
}

/// The words of a text: its longest runs of characters that are not white space.
pub open spec fn spec_words(s: Seq<char>) -> Seq<Seq<char>>
    decreases s.len(),
{
    let t = spec_trim_start(s);
    if t.len() == 0 {
        Seq::empty()
    } else {
        proof {
            lemma_trim_start(s);
            lemma_word_end(t, 0);
        }
        let e = word_end(t, 0);
        seq![t.take(e)] + spec_words(t.skip(e))
    }
}

/// The words of a text.
pub fn words<'a>(s: &'a [char]) -> (r: Vec<&'a [char]>)
    ensures
        slices(r@) == spec_words(s@),
{
    let mut out: Vec<&'a [char]> = Vec::new();
    let mut rest: &'a [char] = s;
    assert(slices(out@) + spec_words(s@) =~= spec_words(s@));
    loop
        invariant
            slices(out@) + spec_words(rest@) == spec_words(s@),
        decreases rest@.len(),
    {
        proof {
            lemma_trim_start(rest@);
        }
        let t = trim_start(rest);
        if t.len() == 0 {
            assert(slices(out@) + spec_words(rest@) =~= slices(out@));
            return out;
        }
        proof {
            lemma_word_end(t@, 0);
        }
        let mut e: usize = 0;
        while e < t.len() && !t[e].is_whitespace()
            invariant
                e <= t@.len(),
                word_end(t@, 0) == word_end(t@, e as int),
            decreases t@.len() - e,
        {
            e = e + 1;
        }
        let ghost done = slices(out@);
        let word = slice_subrange(t, 0, e);
        assert(word@ =~= t@.take(e as int));
        out.push(word);
        assert(slices(out@) =~= done.push(word@));
        assert(t@.subrange(e as int, t@.len() as int) =~= t@.skip(e as int));
        assert(done + (seq![word@] + spec_words(t@.skip(e as int))) =~= slices(out@) + spec_words(
            t@.skip(e as int),
        ));
        rest = slice_subrange(t, e, t.len());
    }
}

// ── Putting text together ────────────────────────────────────────────

/// The texts of a list, one after another, with `sep` between each two.
pub open spec fn spec_join(list: Seq<Seq<char>>, sep: Seq<char>) -> Seq<char>
    decreases list.len(),
{
    if list.len() == 0 {
        Seq::empty()
    } else if list.len() == 1 {
        list[0]
    } else {
        spec_join(list.drop_last(), sep) + sep + list.last()
    }
}

/// Joining can start with the first text of a list.
pub proof fn lemma_join_first(list: Seq<Seq<char>>, sep: Seq<char>)
    requires
        list.len() >= 2,
    ensures
        spec_join(list, sep) == list[0] + sep + spec_join(list.drop_first(), sep),
    decreases list.len(),
{
    let front = list.drop_last();
    let rest = list.drop_first();
    if list.len() == 2 {
        assert(spec_join(front, sep) == list[0]);
        assert(spec_join(rest, sep) == list[1]);
    } else {
        lemma_join_first(front, sep);
        assert(front.drop_first() =~= rest.drop_last());
        assert(spec_join(list, sep) =~= list[0] + sep + spec_join(rest, sep));
    }
}

/// The strings of a list, one after another, with `sep` between each two.
pub fn join(list: &[String], sep: &str) -> (r: String)
    ensures
        r@ == spec_join(texts(list@), sep@),
{
    let mut out = String::new();
    let ghost all = texts(list@);
    for i in 0..list.len()
        invariant
            all == texts(list@),
            out@ == spec_join(all.take(i as int), sep@),
    {
        assert(all.take(i + 1).drop_last() =~= all.take(i as int));
        assert(all[i as int] == list@[i as int]@);
        if i > 0 {
            out.append(sep);
            out.append(list[i].as_str());
        } else {
            out = owned(list[i].as_str());
        }
    }
    assert(all.take(all.len() as int) =~= all);
    out
}

/// The text with every `c` replaced by the text `by`.
pub open spec fn spec_replace(s: Seq<char>, c: char, by: Seq<char>) -> Seq<char>
    decreases s.len(),
{
    if s.len() == 0 {
        Seq::empty()
    } else if s.last() == c {
        spec_replace(s.drop_last(), c, by) + by
    } else {
        spec_replace(s.drop_last(), c, by).push(s.last())
    }
}

/// The text with every `c` replaced by the text `by`.
pub fn replace(s: &[char], c: char, by: &str) -> (r: String)
    ensures
        r@ == spec_replace(s@, c, by@),
{
    let mut out = String::new();
    for i in 0..s.len()
        invariant
            out@ == spec_replace(s@.take(i as int), c, by@),
    {
        assert(s@.take(i + 1).drop_last() =~= s@.take(i as int));
        if s[i] == c {
            out.append(by);
        } else {
            out.push(s[i]);
        }
    }
    assert(s@.take(s@.len() as int) =~= s@);
    out
}

/// At most the first `n` elements.
pub open spec fn first_n<T>(s: Seq<T>, n: int) -> Seq<T> {
    if s.len() <= n {
        s
    } else {
        s.take(n)
    }
}

/// At most the first `n` characters.
pub fn head<'a>(s: &'a [char], n: usize) -> (r: &'a [char])
    ensures
        r@ == first_n(s@, n as int),
{
    if s.len() <= n {
        s
    } else {
        assert(s@.subrange(0, n as int) =~= s@.take(n as int));
        slice_subrange(s, 0, n)
    }
}

// ── Laws ─────────────────────────────────────────────────────────────

/// A text is found in another exactly where that one is something, the text, and something else.
pub proof fn law_has_is_a_part(s: Seq<char>, p: Seq<char>)
    ensures
        has(s, p) <==> exists|a: Seq<char>, b: Seq<char>| s == #[trigger] (a + p + b),
{
    lemma_has(s, p);
    if has(s, p) {
        let i = choose|i: int| occurs_at(s, p, i);
        assert(s =~= s.take(i) + p + s.skip(i + p.len()));
    }
    if exists|a: Seq<char>, b: Seq<char>| s == #[trigger] (a + p + b) {
        let (a, b) = choose|a: Seq<char>, b: Seq<char>| s == #[trigger] (a + p + b);
        assert(s.subrange(a.len() as int, (a.len() + p.len()) as int) =~= p);
        assert(occurs_at(s, p, a.len() as int));
    }
}

/// A text begins with another, or ends with it, exactly where it is that one with something
/// behind it, or before it.
pub proof fn law_begins_and_ends(s: Seq<char>, p: Seq<char>)
    ensures
        begins(s, p) <==> exists|b: Seq<char>| s == #[trigger] (p + b),
        ends(s, p) <==> exists|a: Seq<char>| s == #[trigger] (a + p),
{
    if begins(s, p) {
        assert(s =~= p + s.skip(p.len() as int));
    }
    if exists|b: Seq<char>| s == #[trigger] (p + b) {
        assert(s.subrange(0, p.len() as int) =~= p);
    }
    if ends(s, p) {
        assert(s =~= s.take(s.len() - p.len()) + p);
    }
    if exists|a: Seq<char>| s == #[trigger] (a + p) {
        assert(s.subrange(s.len() - p.len(), s.len() as int) =~= p);
    }
}

/// `spec_rfind` is the last index that holds a character.
pub proof fn lemma_rfind(s: Seq<char>, c: char)
    ensures
        match spec_rfind(s, c) {
            Some(k) => 0 <= k < s.len() && s[k] == c && forall|j: int|
                k < j < s.len() ==> #[trigger] s[j] != c,
            None => forall|j: int| 0 <= j < s.len() ==> #[trigger] s[j] != c,
        },
    decreases s.len(),
{
    if s.len() > 0 && s.last() != c {
        let front = s.drop_last();
        lemma_rfind(front, c);
        let k = match spec_rfind(front, c) {
            Some(k) => k,
            None => -1,
        };
        assert forall|j: int| k < j < s.len() implies #[trigger] s[j] != c by {
            if j < front.len() {
                assert(front[j] == s[j]);
            }
        }
    }
}

/// Whether a text is all white space.
pub open spec fn white(s: Seq<char>) -> bool {
    forall|i: int| 0 <= i < s.len() ==> char_is_whitespace(#[trigger] s[i])
}

/// Whether a text has no white space.
pub open spec fn solid(s: Seq<char>) -> bool {
    forall|i: int| 0 <= i < s.len() ==> !char_is_whitespace(#[trigger] s[i])
}

/// Whether a text does not hold a character.
pub open spec fn without(s: Seq<char>, c: char) -> bool {
    forall|i: int| 0 <= i < s.len() ==> #[trigger] s[i] != c
}

/// White space in front is trimmed away.
pub proof fn lemma_trim_start_white(a: Seq<char>, s: Seq<char>)
    requires
        white(a),
    ensures
        spec_trim_start(a + s) == spec_trim_start(s),
    decreases a.len(),
{
    if a.len() == 0 {
        assert(a + s =~= s);
    } else {
        assert((a + s)[0] == a[0]);
        assert((a + s).drop_first() =~= a.drop_first() + s);
        lemma_trim_start_white(a.drop_first(), s);
    }
}

proof fn lemma_trim_end_white(s: Seq<char>, b: Seq<char>)
    requires
        white(b),
    ensures
        spec_trim_end(s + b) == spec_trim_end(s),
    decreases b.len(),
{
    if b.len() == 0 {
        assert(s + b =~= s);
    } else {
        assert((s + b).last() == b.last());
        assert((s + b).drop_last() =~= s + b.drop_last());
        lemma_trim_end_white(s, b.drop_last());
    }
}

/// Trimming takes off all white space at both ends of a text and nothing else.
pub proof fn law_trim(a: Seq<char>, s: Seq<char>, b: Seq<char>)
    requires
        white(a),
        white(b),
        s.len() > 0 ==> !char_is_whitespace(s[0]) && !char_is_whitespace(s.last()),
    ensures
        spec_trim(a + s + b) == s,
        spec_trim_start(a + s + b) == (if s.len() > 0 {
            s + b
        } else {
            Seq::empty()
        }),
{
    assert(a + s + b =~= a + (s + b));
    lemma_trim_start_white(a, s + b);
    if s.len() > 0 {
        assert((s + b)[0] == s[0]);
        lemma_trim_end_white(s, b);
    } else {
        assert(s + b =~= b + Seq::<char>::empty());
        lemma_trim_start_white(b, Seq::empty());
    }
}

proof fn lemma_find_char_behind(a: Seq<char>, c: char, b: Seq<char>)
    requires
        without(a, c),
    ensures
        spec_find_char(a + seq![c] + b, c) == Some(a.len() as int),
        spec_find_char(a, c) is None,
{
    let s = a + seq![c] + b;
    lemma_find_char_from(s, c, 0);
    lemma_find_char_from(a, c, 0);
    assert(s[a.len() as int] == c);
    assert forall|j: int| 0 <= j < a.len() implies s[j] != c by {
        assert(s[j] == a[j]);
    }
}

/// A text is cut into lines at its line feeds. Neither a line feed nor a carriage return before
/// it belongs to a line, and the end of the text ends the last line.
pub proof fn law_lines(line: Seq<char>, rest: Seq<char>)
    requires
        without(line, '\n'),
    ensures
        line.len() > 0 ==> spec_lines(line) == seq![line],
        spec_lines(line + seq!['\r', '\n'] + rest) == seq![line] + spec_lines(rest),
        line.len() == 0 || line.last() != '\r' ==> spec_lines(line + seq!['\n'] + rest) == seq![line]
            + spec_lines(rest),
{
    lemma_find_char_behind(line, '\n', rest);
    let s = line + seq!['\n'] + rest;
    assert(s.take(line.len() as int) =~= line);
    assert(s.skip((line.len() + 1) as int) =~= rest);
    let l = line + seq!['\r'];
    assert(without(l, '\n'));
    lemma_find_char_behind(l, '\n', rest);
    let t = l + seq!['\n'] + rest;
    assert(t =~= line + seq!['\r', '\n'] + rest);
    assert(t.take(l.len() as int) =~= l);
    assert(t.skip((l.len() + 1) as int) =~= rest);
    assert(l.drop_last() =~= line);
}

/// A text is cut into pieces at every `c`, and the pieces with `c` between them are the text.
pub proof fn law_split(piece: Seq<char>, rest: Seq<char>, c: char)
    requires
        without(piece, c),
    ensures
        spec_split(piece, c) == seq![piece],
        spec_split(piece + seq![c] + rest, c) == seq![piece] + spec_split(rest, c),
        spec_join(spec_split(rest, c), seq![c]) == rest,
    decreases rest.len(),
{
    lemma_find_char_behind(piece, c, rest);
    let s = piece + seq![c] + rest;
    assert(s.take(piece.len() as int) =~= piece);
    assert(s.skip((piece.len() + 1) as int) =~= rest);
    lemma_find_char_from(rest, c, 0);
    match spec_find_char(rest, c) {
        Some(i) => {
            let tail = rest.skip(i + 1);
            law_split(Seq::empty(), tail, c);
            let parts = spec_split(rest, c);
            assert(parts == seq![rest.take(i)] + spec_split(tail, c));
            assert(parts.drop_first() =~= spec_split(tail, c));
            assert(spec_split(tail, c).len() > 0);
            lemma_join_first(parts, seq![c]);
            assert(rest =~= rest.take(i) + seq![c] + tail);
        },
        None => {},
    }
}

proof fn lemma_word_end_solid(w: Seq<char>, s: Seq<char>, i: int)
    requires
        solid(w),
        s.len() == 0 || char_is_whitespace(s[0]),
        0 <= i <= w.len(),
    ensures
        word_end(w + s, i) == w.len(),
    decreases w.len() - i,
{
    if i < w.len() {
        assert((w + s)[i] == w[i]);
        lemma_word_end_solid(w, s, i + 1);
    } else if s.len() > 0 {
        assert((w + s)[i] == s[0]);
    }
}

/// The words of a text are its runs of other characters than white space, one after another.
pub proof fn law_words(a: Seq<char>, w: Seq<char>, rest: Seq<char>)
    requires
        white(a),
        solid(w),
        w.len() > 0,
        rest.len() == 0 || char_is_whitespace(rest[0]),
    ensures
        spec_words(a) == Seq::<Seq<char>>::empty(),
        spec_words(a + w + rest) == seq![w] + spec_words(rest),
{
    lemma_trim_start_white(a, Seq::empty());
    assert(a + Seq::<char>::empty() =~= a);
    assert(a + w + rest =~= a + (w + rest));
    lemma_trim_start_white(a, w + rest);
    assert((w + rest)[0] == w[0]);
    lemma_word_end_solid(w, rest, 0);
    assert((w + rest).take(w.len() as int) =~= w);
    assert((w + rest).skip(w.len() as int) =~= rest);
}

/// Replacing a character changes each of its occurrences, wherever it stands, and nothing else.
pub proof fn law_replace(a: Seq<char>, b: Seq<char>, c: char, by: Seq<char>)
    ensures
        spec_replace(a + b, c, by) == spec_replace(a, c, by) + spec_replace(b, c, by),
        spec_replace(seq![c], c, by) == by,
        without(a, c) ==> spec_replace(a, c, by) == a,
    decreases b.len(), a.len(),
{
    assert(seq![c].drop_last() =~= Seq::empty());
    assert(spec_replace(seq![c].drop_last(), c, by) =~= Seq::empty());
    assert(Seq::<char>::empty() + by =~= by);
    if b.len() == 0 {
        assert(a + b =~= a);
        assert(spec_replace(a, c, by) + spec_replace(b, c, by) =~= spec_replace(a, c, by));
        if a.len() > 0 && without(a, c) {
            law_replace(a.drop_last(), b, c, by);
            assert(without(a.drop_last(), c));
            assert(a =~= a.drop_last().push(a.last()));
        }
    } else {
        law_replace(a, b.drop_last(), c, by);
        assert((a + b).drop_last() =~= a + b.drop_last());
        assert(spec_replace(a + b, c, by) =~= spec_replace(a, c, by) + spec_replace(b, c, by));
    }
}

/// A list is joined by putting the separator between each two of its texts.
pub proof fn law_join(list: Seq<Seq<char>>, x: Seq<char>, sep: Seq<char>)
    ensures
        spec_join(Seq::empty(), sep) == Seq::<char>::empty(),
        spec_join(seq![x], sep) == x,
        list.len() > 0 ==> spec_join(list.push(x), sep) == spec_join(list, sep) + sep + x,
{
    assert(list.push(x).drop_last() =~= list);
}

/// The lower case of an ASCII text has as many characters, none of them a capital letter, and
/// differs from the text only where that has one, by the small letter of the same place in the
/// alphabet.
pub proof fn law_lower_case(s: Seq<char>)
    requires
        ascii(s),
    ensures
        lowercase_of(s).len() == s.len(),
        forall|i: int|
            0 <= i < s.len() ==> !('A' <= #[trigger] lowercase_of(s)[i] <= 'Z') && (if 'A' <= s[i]
                <= 'Z' {
                lowercase_of(s)[i] as u32 - 'a' as u32 == s[i] as u32 - 'A' as u32
            } else {
                lowercase_of(s)[i] == s[i]
            }),
        lowercase_of(lowercase_of(s)) == lowercase_of(s),
{
    let low = lowercase_of(s);
    assert forall|i: int| 0 <= i < s.len() implies (#[trigger] low[i] as u32) < 0x80 && !('A'
        <= low[i] <= 'Z') by {
        assert((s[i] as u32) < 0x80);
    }
    assert(ascii(low));
    assert(lowercase_of(low) =~= low);
}

/// Joining two lists is joining each, with the separator between them.
pub proof fn lemma_join_concat(a: Seq<Seq<char>>, b: Seq<Seq<char>>, sep: Seq<char>)
    requires
        a.len() > 0,
        b.len() > 0,
    ensures
        spec_join(a + b, sep) == spec_join(a, sep) + sep + spec_join(b, sep),
    decreases b.len(),
{
    assert((a + b).drop_last() =~= a + b.drop_last());
    assert((a + b).last() == b.last());
    if b.len() == 1 {
        assert(a + b.drop_last() =~= a);
        assert(spec_join(b, sep) == b.last());
    } else {
        lemma_join_concat(a, b.drop_last(), sep);
        assert(spec_join(a + b, sep) =~= spec_join(a, sep) + sep + spec_join(b, sep));
    }
}

/// The characters that are white space: in ASCII the space and the controls from the tabulator to
/// the carriage return, and beyond it the spaces and separators of Unicode.
pub proof fn law_white_space(c: char)
    ensures
        (c as u32) < 0x80 ==> (char_is_whitespace(c) <==> c == ' ' || c == '\t' || c == '\n' || c
            as u32 == 0x0b || c as u32 == 0x0c || c == '\r'),
        0x2000 <= c as u32 <= 0x200a || c as u32 == 0x2028 || c as u32 == 0x2029 || c as u32 == 0x85
            || c as u32 == 0xa0 || c as u32 == 0x1680 || c as u32 == 0x202f || c as u32 == 0x205f || c
            as u32 == 0x3000 ==> char_is_whitespace(c),
        'a' <= c <= 'z' || 'A' <= c <= 'Z' || '0' <= c <= '9' ==> char_is_alphanumeric(c)
            && !char_is_whitespace(c),
        (c as u32) < 0x80 && char_is_alphanumeric(c) ==> 'a' <= c <= 'z' || 'A' <= c <= 'Z' || '0'
            <= c <= '9',
{
}

/// Every copy of a text at the start, and every copy of a character at the end, is taken off, and
/// nothing else.
pub proof fn law_strip(s: Seq<char>, p: Seq<char>, c: char)
    requires
        p.len() > 0,
    ensures
        spec_strip_leading(p + s, p) == spec_strip_leading(s, p),
        !begins(s, p) ==> spec_strip_leading(s, p) == s,
        spec_strip_trailing(s.push(c), c) == spec_strip_trailing(s, c),
        s.len() == 0 || s.last() != c ==> spec_strip_trailing(s, c) == s,
{
    assert((p + s).subrange(0, p.len() as int) =~= p);
    assert((p + s).skip(p.len() as int) =~= s);
    assert(s.push(c).drop_last() =~= s);
}

} // verus!
