//! File paths as text: components, parents, extensions, joining and prefixes.
//!
//! A path is read as on Unix. Its components are the runs of characters between slashes,
//! without the empty ones and without single dots; a slash in front is a component of its
//! own, and so is a single dot in front.

use crate::text;
use vstd::prelude::*;
use vstd::slice::slice_subrange;

verus! {

/// The index of the first slash from `i` on, or the end of the text.
pub open spec fn run_end(s: Seq<char>, i: int) -> int
    decreases s.len() - i,
{
    if i >= s.len() || s[i] == '/' {
        i
    } else {
        run_end(s, i + 1)
    }
}

/// `run_end` lies at or after where it starts, and within the text.
pub proof fn lemma_run_end(s: Seq<char>, i: int)
    requires
        0 <= i <= s.len(),
    ensures
        i <= run_end(s, i) <= s.len(),
        forall|k: int| i <= k < run_end(s, i) ==> s[k] != '/',
    decreases s.len() - i,
{
    if i < s.len() && s[i] != '/' {
        lemma_run_end(s, i + 1);
    }
}

/// Whether the text from `a` to `b` is a component: not empty and not a single dot.
pub open spec fn is_part(s: Seq<char>, a: int, b: int) -> bool {
    a < b && !(b == a + 1 && s[a] == '.')
}

/// Where the components from index `i` on begin and end.
pub open spec fn spec_spans_from(s: Seq<char>, i: int) -> Seq<(int, int)>
    decreases s.len() - i + 1,
{
    if i < 0 || i > s.len() {
        Seq::empty()
    } else {
        proof {
            lemma_run_end(s, i);
        }
        let e = run_end(s, i);
        let rest = spec_spans_from(s, e + 1);
        if is_part(s, i, e) {
            seq![(i, e)] + rest
        } else {
            rest
        }
    }
}

/// Where the components of a path begin and end, but for a slash or a dot in front.
pub open spec fn spec_spans(s: Seq<char>) -> Seq<(int, int)> {
    spec_spans_from(s, 0)
}

/// Every component lies within the path, is not empty, and ends before the next one begins.
pub proof fn lemma_spans(s: Seq<char>, i: int)
    requires
        0 <= i,
    ensures
        forall|k: int|
            0 <= k < spec_spans_from(s, i).len() ==> {
                let p = #[trigger] spec_spans_from(s, i)[k];
                i <= p.0 < p.1 <= s.len()
            },
        forall|j: int, k: int|
            #![trigger spec_spans_from(s, i)[j], spec_spans_from(s, i)[k]]
            0 <= j < k < spec_spans_from(s, i).len() ==> spec_spans_from(s, i)[j].1
                <= spec_spans_from(s, i)[k].0,
    decreases s.len() - i + 1,
{
    if i <= s.len() {
        lemma_run_end(s, i);
        let e = run_end(s, i);
        lemma_spans(s, e + 1);
        let rest = spec_spans_from(s, e + 1);
        assert forall|k: int| 0 <= k < spec_spans_from(s, i).len() implies {
            let p = #[trigger] spec_spans_from(s, i)[k];
            i <= p.0 < p.1 <= s.len()
        } by {
            if is_part(s, i, e) {
                if k > 0 {
                    assert(spec_spans_from(s, i)[k] == rest[k - 1]);
                }
            }
        }
        assert forall|j: int, k: int|
            #![trigger spec_spans_from(s, i)[j], spec_spans_from(s, i)[k]]
            0 <= j < k < spec_spans_from(s, i).len() implies spec_spans_from(s, i)[j].1
            <= spec_spans_from(s, i)[k].0 by {
            if is_part(s, i, e) {
                assert(spec_spans_from(s, i)[k] == rest[k - 1]);
                if j > 0 {
                    assert(spec_spans_from(s, i)[j] == rest[j - 1]);
                }
            }
        }
    }
}

/// Whether a path starts at the root.
pub open spec fn absolute(s: Seq<char>) -> bool {
    s.len() > 0 && s[0] == '/'
}

/// Whether a path starts with a single dot.
pub open spec fn dotted(s: Seq<char>) -> bool {
    s.len() > 0 && s[0] == '.' && (s.len() == 1 || s[1] == '/')
}

/// How many characters stand for a slash or a dot in front.
pub open spec fn head_len(s: Seq<char>) -> int {
    if absolute(s) || dotted(s) {
        1
    } else {
        0
    }
}

/// The components of a path: `/` or `.` in front where it has one, then the rest.
pub open spec fn spec_components(s: Seq<char>) -> Seq<Seq<char>> {
    s.take(head_len(s)).map_values(|c: char| seq![c]) + spec_spans(s).map_values(
        |p: (int, int)| s.subrange(p.0, p.1),
    )
}

/// The path without its last component, if there is one that is not the root.
pub open spec fn spec_parent(s: Seq<char>) -> Option<Seq<char>> {
    let spans = spec_spans(s);
    if spans.len() == 0 {
        if dotted(s) {
            Some(Seq::empty())
        } else {
            None
        }
    } else if spans.len() == 1 {
        Some(s.take(head_len(s)))
    } else {
        Some(s.take(spans[spans.len() - 2].1))
    }
}

/// The last component of a path, if it names a file or a directory.
pub open spec fn spec_file_name(s: Seq<char>) -> Option<Seq<char>> {
    let spans = spec_spans(s);
    if spans.len() == 0 {
        None
    } else {
        let name = s.subrange(spans.last().0, spans.last().1);
        if name == seq!['.', '.'] {
            None
        } else {
            Some(name)
        }
    }
}

/// What follows the last dot of the file name, where the dot does not stand in front.
pub open spec fn spec_extension(s: Seq<char>) -> Option<Seq<char>> {
    match spec_file_name(s) {
        Some(name) => match text::spec_rfind(name, '.') {
            Some(i) => if i == 0 {
                None
            } else {
                Some(name.skip(i + 1))
            },
            None => None,
        },
        None => None,
    }
}

/// A path relative to a base; an absolute path stands for itself.
pub open spec fn spec_join(base: Seq<char>, p: Seq<char>) -> Seq<char> {
    if absolute(p) || base.len() == 0 {
        p
    } else if base.last() == '/' {
        base + p
    } else {
        base + "/"@ + p
    }
}

/// Whether the components of `base` are the first components of `s`.
pub open spec fn spec_starts_with(s: Seq<char>, base: Seq<char>) -> bool {
    spec_components(base).len() <= spec_components(s).len() && spec_components(s).take(
        spec_components(base).len() as int,
    ) == spec_components(base)
}

/// The components of `s` that follow those of `base`, as they are written in `s`.
pub open spec fn spec_strip_prefix(s: Seq<char>, base: Seq<char>) -> Option<Seq<char>> {
    let spans = spec_spans(s);
    let skipped = spec_components(base).len();
    if !spec_starts_with(s, base) {
        None
    } else {
        let end = if spans.len() == 0 {
            head_len(s)
        } else {
            spans.last().1
        };
        if skipped == 0 {
            Some(s.take(end))
        } else if skipped - head_len(s) >= spans.len() {
            Some(Seq::empty())
        } else {
            Some(s.subrange(spans[skipped - head_len(s)].0, end))
        }
    }
}

/// The names that are left when each `..` takes the name before it away, and a slash or a dot
/// in front is dropped.
pub open spec fn spec_names(parts: Seq<Seq<char>>) -> Seq<Seq<char>>
    decreases parts.len(),
{
    if parts.len() == 0 {
        Seq::empty()
    } else {
        let before = spec_names(parts.drop_last());
        if parts.last() == seq!['/'] || parts.last() == seq!['.'] {
            before
        } else if parts.last() == seq!['.', '.'] {
            if before.len() == 0 {
                before
            } else {
                before.drop_last()
            }
        } else {
            before.push(parts.last())
        }
    }
}

/// The path with `.` and `..` components resolved, names separated by single slashes.
pub open spec fn spec_normalize(s: Seq<char>) -> Seq<char> {
    text::spec_join(spec_names(spec_components(s)), "/"@)
}

// ── Reading paths ────────────────────────────────────────────────────

/// The spans of a path as integers of the specification.
pub open spec fn ints(v: Seq<(usize, usize)>) -> Seq<(int, int)> {
    v.map_values(|p: (usize, usize)| (p.0 as int, p.1 as int))
}

fn spans(s: &[char]) -> (r: Vec<(usize, usize)>)
    ensures
        ints(r@) == spec_spans(s@),
        forall|k: int| 0 <= k < r@.len() ==> (#[trigger] r@[k]).0 < r@[k].1 <= s@.len(),
{
    let mut out: Vec<(usize, usize)> = Vec::new();
    let mut start: usize = 0;
    let n: usize = s.len();
    assert(ints(out@) + spec_spans_from(s@, 0) =~= spec_spans(s@));
    loop
        invariant_except_break
            n == s@.len(),
            start <= n,
            ints(out@) + spec_spans_from(s@, start as int) == spec_spans(s@),
        ensures
            ints(out@) == spec_spans(s@),
        decreases n - start,
    {
        let ghost done = ints(out@);
        let ghost e = run_end(s@, start as int);
        proof {
            lemma_run_end(s@, start as int);
        }
        let mut end: usize = start;
        while end < n && s[end] != '/'
            invariant
                n == s@.len(),
                start <= end <= n,
                e == run_end(s@, end as int),
            decreases n - end,
        {
            end = end + 1;
        }
        if start < end && !(end == start + 1 && s[start] == '.') {
            out.push((start, end));
            assert(ints(out@) =~= done.push((start as int, end as int)));
            assert(done + (seq![(start as int, end as int)] + spec_spans_from(s@, end + 1))
                =~= ints(out@) + spec_spans_from(s@, end + 1));
        }
        if end == n {
            assert(ints(out@) + spec_spans_from(s@, end + 1) =~= ints(out@));
            break;
        }
        start = end + 1;
    }
    proof {
        lemma_spans(s@, 0);
        assert forall|k: int| 0 <= k < out@.len() implies (#[trigger] out@[k]).0 < out@[k].1
            <= s@.len() by {
            assert(ints(out@)[k] == spec_spans_from(s@, 0)[k]);
        }
    }
    out
}

/// Whether a path starts at the root.
pub fn is_absolute(s: &[char]) -> (r: bool)
    ensures
        r == absolute(s@),
{
    s.len() > 0 && s[0] == '/'
}

fn head(s: &[char]) -> (r: usize)
    ensures
        r == head_len(s@),
        r <= s@.len(),
{
    if is_absolute(s) || (s.len() > 0 && s[0] == '.' && (s.len() == 1 || s[1] == '/')) {
        1
    } else {
        0
    }
}

/// The components of a path.
pub fn components<'a>(s: &'a [char]) -> (r: Vec<&'a [char]>)
    ensures
        text::slices(r@) == spec_components(s@),
{
    let mut out: Vec<&'a [char]> = Vec::new();
    let h = head(s);
    if h == 1 {
        let first = slice_subrange(s, 0, 1);
        out.push(first);
        assert(first@ =~= seq![s@[0]]);
    }
    let ghost front = s@.take(h as int).map_values(|c: char| seq![c]);
    assert(text::slices(out@) =~= front);
    let list = spans(s);
    let ghost parts = spec_spans(s@).map_values(|p: (int, int)| s@.subrange(p.0, p.1));
    for i in 0..list.len()
        invariant
            ints(list@) == spec_spans(s@),
            forall|k: int| 0 <= k < list@.len() ==> (#[trigger] list@[k]).0 < list@[k].1
                <= s@.len(),
            parts == spec_spans(s@).map_values(|p: (int, int)| s@.subrange(p.0, p.1)),
            text::slices(out@) == front + parts.take(i as int),
    {
        let ghost done = text::slices(out@);
        let (a, b) = list[i];
        assert(ints(list@)[i as int] == (a as int, b as int));
        let part = slice_subrange(s, a, b);
        out.push(part);
        assert(text::slices(out@) =~= done.push(part@));
        assert(part@ == parts[i as int]);
        assert(done.push(part@) =~= front + parts.take(i + 1));
    }
    assert(list@.len() == parts.len()) by {
        assert(ints(list@).len() == list@.len());
    }
    assert(parts.take(parts.len() as int) =~= parts);
    out
}

/// The path without its last component.
pub fn parent<'a>(s: &'a [char]) -> (r: Option<&'a [char]>)
    ensures
        match r {
            Some(p) => spec_parent(s@) == Some(p@),
            None => spec_parent(s@) is None,
        },
{
    let list = spans(s);
    let n: usize = list.len();
    assert(ints(list@).len() == n);
    let h = head(s);
    if n == 0 {
        if h == 1 && s[0] == '.' {
            let p = slice_subrange(s, 0, 0);
            assert(p@ =~= Seq::empty());
            Some(p)
        } else {
            None
        }
    } else if n == 1 {
        assert(s@.subrange(0, h as int) =~= s@.take(h as int));
        Some(slice_subrange(s, 0, h))
    } else {
        let end: usize = list[n - 2].1;
        assert(ints(list@)[n - 2].1 == end);
        assert(s@.subrange(0, end as int) =~= s@.take(end as int));
        Some(slice_subrange(s, 0, end))
    }
}

/// The last component of a path, if it names a file or a directory.
pub fn file_name<'a>(s: &'a [char]) -> (r: Option<&'a [char]>)
    ensures
        match r {
            Some(p) => spec_file_name(s@) == Some(p@),
            None => spec_file_name(s@) is None,
        },
{
    let list = spans(s);
    let n: usize = list.len();
    assert(ints(list@).len() == n);
    if n == 0 {
        return None;
    }
    let (a, b) = list[n - 1];
    assert(ints(list@)[n - 1] == (a as int, b as int));
    let name = slice_subrange(s, a, b);
    if name.len() == 2 && name[0] == '.' && name[1] == '.' {
        assert(name@ =~= seq!['.', '.']);
        None
    } else {
        Some(name)
    }
}

/// What follows the last dot of the file name, where the dot does not stand in front.
pub fn extension<'a>(s: &'a [char]) -> (r: Option<&'a [char]>)
    ensures
        match r {
            Some(p) => spec_extension(s@) == Some(p@),
            None => spec_extension(s@) is None,
        },
{
    match file_name(s) {
        Some(name) => match text::rfind(name, '.') {
            Some(i) => if i == 0 {
                None
            } else {
                let n: usize = name.len();
                assert(name@.subrange(i + 1, n as int) =~= name@.skip(i + 1));
                Some(slice_subrange(name, i + 1, n))
            },
            None => None,
        },
        None => None,
    }
}

/// The extension of a path, or nothing where it has none.
pub open spec fn extension_or_empty(s: Seq<char>) -> Seq<char> {
    match spec_extension(s) {
        Some(e) => e,
        None => Seq::empty(),
    }
}

/// The extension of a path, or an empty string where it has none.
pub fn extension_of(s: &str) -> (r: String)
    ensures
        r@ == extension_or_empty(s@),
{
    let chars = text::chars_of(s);
    match extension(chars.as_slice()) {
        Some(e) => text::string_of(e),
        None => String::new(),
    }
}

/// A path relative to a base; an absolute path stands for itself.
pub fn join(base: &[char], p: &[char]) -> (r: String)
    ensures
        r@ == spec_join(base@, p@),
{
    if is_absolute(p) || base.len() == 0 {
        text::string_of(p)
    } else if base[base.len() - 1] == '/' {
        text::string_of(base).concat(text::string_of(p).as_str())
    } else {
        text::string_of(base).concat("/").concat(text::string_of(p).as_str())
    }
}

fn leading_components(parts: &Vec<&[char]>, front: &Vec<&[char]>) -> (r: bool)
    ensures
        r == (front@.len() <= parts@.len() && text::slices(parts@).take(front@.len() as int)
            == text::slices(front@)),
{
    if front.len() > parts.len() {
        return false;
    }
    for i in 0..front.len()
        invariant
            front@.len() <= parts@.len(),
            forall|k: int| 0 <= k < i ==> parts@[k]@ == front@[k]@,
    {
        if !text::same_chars(parts[i], front[i]) {
            assert(text::slices(parts@).take(front@.len() as int)[i as int] != text::slices(
                front@,
            )[i as int]);
            return false;
        }
    }
    assert(text::slices(parts@).take(front@.len() as int) =~= text::slices(front@));
    true
}

/// Whether the components of `base` are the first components of `s`.
pub fn starts_with(s: &[char], base: &[char]) -> (r: bool)
    ensures
        r == spec_starts_with(s@, base@),
{
    let parts = components(s);
    let front = components(base);
    assert(text::slices(parts@).len() == parts@.len());
    assert(text::slices(front@).len() == front@.len());
    leading_components(&parts, &front)
}

/// The components of `s` that follow those of `base`, as they are written in `s`.
pub fn strip_prefix<'a>(s: &'a [char], base: &[char]) -> (r: Option<&'a [char]>)
    ensures
        match r {
            Some(p) => spec_strip_prefix(s@, base@) == Some(p@),
            None => spec_strip_prefix(s@, base@) is None,
        },
{
    if !starts_with(s, base) {
        return None;
    }
    let front = components(base);
    let skipped: usize = front.len();
    assert(text::slices(front@).len() == skipped);
    let list = spans(s);
    let n: usize = list.len();
    assert(ints(list@).len() == n);
    let h = head(s);
    let end: usize = if n == 0 {
        h
    } else {
        list[n - 1].1
    };
    assert(n > 0 ==> ints(list@)[n - 1].1 == end);
    if skipped == 0 {
        assert(s@.subrange(0, end as int) =~= s@.take(end as int));
        return Some(slice_subrange(s, 0, end));
    }
    let k: usize = skipped - h;
    if k >= n {
        let p = slice_subrange(s, 0, 0);
        assert(p@ =~= Seq::empty());
        return Some(p);
    }
    let start: usize = list[k].0;
    proof {
        lemma_spans(s@, 0);
        assert(ints(list@)[k as int] == spec_spans(s@)[k as int]);
        assert(ints(list@)[n - 1] == spec_spans(s@)[n - 1]);
    }
    Some(slice_subrange(s, start, end))
}

/// The path with `.` and `..` components resolved, names separated by single slashes.
pub fn normalize(s: &[char]) -> (r: String)
    ensures
        r@ == spec_normalize(s@),
{
    let parts = components(s);
    let ghost all = text::slices(parts@);
    let mut names: Vec<String> = Vec::new();
    assert(text::texts(names@) =~= Seq::empty());
    for i in 0..parts.len()
        invariant
            all == text::slices(parts@),
            text::texts(names@) == spec_names(all.take(i as int)),
    {
        let part = parts[i];
        let ghost before = text::texts(names@);
        proof {
            assert(all.take(i + 1).drop_last() =~= all.take(i as int));
            assert(all.take(i + 1).last() == part@);
        }
        let single = part.len() == 1 && (part[0] == '/' || part[0] == '.');
        assert(single == (part@ == seq!['/'] || part@ == seq!['.'])) by {
            if single {
                assert(part@ =~= seq!['/'] || part@ =~= seq!['.']);
            }
        }
        let up = part.len() == 2 && part[0] == '.' && part[1] == '.';
        assert(up == (part@ == seq!['.', '.'])) by {
            if up {
                assert(part@ =~= seq!['.', '.']);
            }
        }
        if single {
        } else if up {
            if names.len() > 0 {
                names.pop();
                assert(text::texts(names@) =~= before.drop_last());
            }
        } else {
            names.push(text::string_of(part));
            assert(text::texts(names@) =~= before.push(part@));
        }
    }
    assert(all.take(all.len() as int) =~= all);
    text::join(names.as_slice(), "/")
}

// ── Laws ─────────────────────────────────────────────────────────────

/// Whether a text is a name: not empty, without slashes, and neither `.` nor `..`.
pub open spec fn plain(name: Seq<char>) -> bool {
    &&& name.len() > 0
    &&& forall|i: int| 0 <= i < name.len() ==> #[trigger] name[i] != '/'
    &&& name != seq!['.']
    &&& name != seq!['.', '.']
}

/// Whether all texts of a list are names.
pub open spec fn all_plain(list: Seq<Seq<char>>) -> bool {
    forall|i: int| 0 <= i < list.len() ==> plain(#[trigger] list[i])
}

/// The texts of spans.
pub open spec fn span_texts(s: Seq<char>, i: int) -> Seq<Seq<char>> {
    spec_spans_from(s, i).map_values(|p: (int, int)| s.subrange(p.0, p.1))
}

/// A component that is not in front is not empty, has no slash, and is no single dot.
proof fn lemma_span_texts(s: Seq<char>, i: int)
    requires
        0 <= i,
    ensures
        forall|k: int|
            0 <= k < span_texts(s, i).len() ==> {
                let t = #[trigger] span_texts(s, i)[k];
                t.len() > 0 && t != seq!['.'] && forall|j: int| 0 <= j < t.len() ==> t[j] != '/'
            },
    decreases s.len() - i + 1,
{
    if i <= s.len() {
        lemma_run_end(s, i);
        let e = run_end(s, i);
        lemma_span_texts(s, e + 1);
        let rest = span_texts(s, e + 1);
        let first = s.subrange(i, e);
        if is_part(s, i, e) {
            assert(first[0] == s[i]);
            assert forall|j: int| 0 <= j < first.len() implies first[j] != '/' by {
                assert(first[j] == s[i + j]);
            }
            assert(span_texts(s, i) =~= seq![first] + rest);
        } else {
            assert(span_texts(s, i) =~= rest);
        }
        assert forall|k: int| 0 <= k < span_texts(s, i).len() implies {
            let t = #[trigger] span_texts(s, i)[k];
            t.len() > 0 && t != seq!['.'] && forall|j: int| 0 <= j < t.len() ==> t[j] != '/'
        } by {
            if is_part(s, i, e) && k > 0 {
                assert(span_texts(s, i)[k] == rest[k - 1]);
            }
        }
    }
}

/// What is left of components is names.
proof fn lemma_names_plain(list: Seq<Seq<char>>)
    requires
        forall|k: int|
            0 <= k < list.len() ==> {
                let t = #[trigger] list[k];
                t == seq!['/'] || (t.len() > 0 && forall|j: int| 0 <= j < t.len() ==> t[j] != '/')
            },
    ensures
        all_plain(spec_names(list)),
    decreases list.len(),
{
    if list.len() > 0 {
        assert forall|k: int| 0 <= k < list.drop_last().len() implies {
            let t = #[trigger] list.drop_last()[k];
            t == seq!['/'] || (t.len() > 0 && forall|j: int| 0 <= j < t.len() ==> t[j] != '/')
        } by {
            assert(list.drop_last()[k] == list[k]);
        }
        lemma_names_plain(list.drop_last());
    }
}

/// Names stay as they are.
proof fn lemma_names_stay(list: Seq<Seq<char>>)
    requires
        all_plain(list),
    ensures
        spec_names(list) == list,
    decreases list.len(),
{
    if list.len() > 0 {
        assert forall|i: int| 0 <= i < list.drop_last().len() implies plain(
            #[trigger] list.drop_last()[i],
        ) by {
            assert(list.drop_last()[i] == list[i]);
        }
        lemma_names_stay(list.drop_last());
        let last = list.last();
        assert(plain(list[list.len() - 1]));
        assert(last != seq!['/']) by {
            if last == seq!['/'] {
                assert(last[0] == '/');
            }
        }
        assert(list =~= list.drop_last().push(last));
    } else {
        assert(list =~= Seq::empty());
    }
}

proof fn lemma_run_end_at(s: Seq<char>, i: int, e: int)
    requires
        0 <= i <= e <= s.len(),
        forall|k: int| i <= k < e ==> s[k] != '/',
        e == s.len() || s[e] == '/',
    ensures
        run_end(s, i) == e,
    decreases e - i,
{
    if i < e {
        lemma_run_end_at(s, i + 1, e);
    }
}

/// Joined names come apart again.
proof fn lemma_spans_of_joined(front: Seq<char>, list: Seq<Seq<char>>)
    requires
        list.len() > 0,
        all_plain(list),
    ensures
        span_texts(front + text::spec_join(list, "/"@), front.len() as int) == list,
    decreases list.len(),
{
    reveal_strlit("/");
    assert("/"@ =~= seq!['/']);
    let s = front + text::spec_join(list, "/"@);
    let i = front.len() as int;
    let first = list[0];
    let e = i + first.len();
    assert(plain(list[0]));
    if list.len() == 1 {
        assert(s =~= front + first);
        assert forall|k: int| i <= k < e implies s[k] != '/' by {
            assert(s[k] == first[k - i]);
        }
        lemma_run_end_at(s, i, e);
        assert(spec_spans_from(s, e + 1) =~= Seq::empty());
        assert(s.subrange(i, e) =~= first);
        assert(is_part(s, i, e)) by {
            if first.len() == 1 {
                assert(first =~= seq![first[0]]);
            }
            assert(s[i] == first[0]);
        }
        assert(span_texts(s, i) =~= list);
    } else {
        let rest = list.drop_first();
        text::lemma_join_first(list, "/"@);
        let next = front + first + "/"@;
        assert(s =~= next + text::spec_join(rest, "/"@));
        assert forall|k: int| i <= k < e implies s[k] != '/' by {
            assert(s[k] == first[k - i]);
        }
        assert(s[e] == '/');
        lemma_run_end_at(s, i, e);
        assert(s.subrange(i, e) =~= first);
        assert(is_part(s, i, e)) by {
            if first.len() == 1 {
                assert(first =~= seq![first[0]]);
            }
            assert(s[i] == first[0]);
        }
        assert forall|k: int| 0 <= k < rest.len() implies plain(#[trigger] rest[k]) by {
            assert(rest[k] == list[k + 1]);
        }
        lemma_spans_of_joined(next, rest);
        assert(next.len() == e + 1);
        assert(span_texts(s, i) =~= seq![first] + span_texts(s, e + 1));
        assert(list =~= seq![first] + rest);
    }
}

/// The components of joined names are the names.
pub proof fn lemma_components_of_joined(list: Seq<Seq<char>>)
    requires
        all_plain(list),
    ensures
        spec_components(text::spec_join(list, "/"@)) == list,
        !absolute(text::spec_join(list, "/"@)),
{
    let s = text::spec_join(list, "/"@);
    if list.len() == 0 {
        assert(s =~= Seq::empty());
        assert(spec_spans_from(s, 1) =~= Seq::empty());
        assert(spec_spans(s) =~= Seq::empty());
        assert(spec_components(s) =~= list);
    } else {
        reveal_strlit("/");
        lemma_spans_of_joined(Seq::empty(), list);
        assert(Seq::<char>::empty() + s =~= s);
        let first = list[0];
        assert(plain(list[0]));
        if list.len() > 1 {
            text::lemma_join_first(list, "/"@);
        }
        assert(forall|k: int| 0 <= k < first.len() ==> s[k] == first[k]);
        assert(s.len() >= first.len());
        assert(!dotted(s)) by {
            if s[0] == '.' {
                if first.len() == 1 {
                    assert(first =~= seq!['.']);
                } else {
                    assert(s[1] == first[1]);
                }
            }
        }
        assert(s.take(0).map_values(|c: char| seq![c]) =~= Seq::empty());
        assert(spec_components(s) =~= list);
    }
}

/// A normalized path has only names as components, no slash in front, and stays as it is when
/// it is normalized again.
pub proof fn law_normalizing_is_final(s: Seq<char>)
    ensures
        all_plain(spec_components(spec_normalize(s))),
        !absolute(spec_normalize(s)),
        spec_normalize(spec_normalize(s)) == spec_normalize(s),
{
    let parts = spec_components(s);
    let names = spec_names(parts);
    lemma_span_texts(s, 0);
    assert forall|k: int| 0 <= k < parts.len() implies {
        let t = #[trigger] parts[k];
        t == seq!['/'] || (t.len() > 0 && forall|j: int| 0 <= j < t.len() ==> t[j] != '/')
    } by {
        let h = head_len(s);
        if k < h {
            assert(parts[k] == seq![s[0]]);
        } else {
            assert(parts[k] == span_texts(s, 0)[k - h]);
        }
    }
    lemma_names_plain(parts);
    lemma_components_of_joined(names);
    lemma_names_stay(names);
}

/// Whether a text is what stands between two slashes: not empty and without slashes.
pub open spec fn segment(t: Seq<char>) -> bool {
    t.len() > 0 && forall|i: int| 0 <= i < t.len() ==> #[trigger] t[i] != '/'
}

/// Whether all texts of a list stand between slashes.
pub open spec fn all_segments(list: Seq<Seq<char>>) -> bool {
    forall|i: int| 0 <= i < list.len() ==> segment(#[trigger] list[i])
}

/// A list without its single dots.
spec fn undotted(list: Seq<Seq<char>>) -> Seq<Seq<char>>
    decreases list.len(),
{
    if list.len() == 0 {
        Seq::empty()
    } else if list[0] == seq!['.'] {
        undotted(list.drop_first())
    } else {
        seq![list[0]] + undotted(list.drop_first())
    }
}

proof fn lemma_spans_of_segments(front: Seq<char>, list: Seq<Seq<char>>)
    requires
        list.len() > 0,
        all_segments(list),
    ensures
        span_texts(front + text::spec_join(list, "/"@), front.len() as int) == undotted(list),
    decreases list.len(),
{
    reveal_strlit("/");
    assert("/"@ =~= seq!['/']);
    let s = front + text::spec_join(list, "/"@);
    let i = front.len() as int;
    let first = list[0];
    let e = i + first.len();
    assert(segment(list[0]));
    let rest = list.drop_first();
    let next = front + first + "/"@;
    if list.len() == 1 {
        assert(s =~= front + first);
    } else {
        text::lemma_join_first(list, "/"@);
        assert(s =~= next + text::spec_join(rest, "/"@));
        assert(s[e] == '/');
    }
    assert forall|k: int| i <= k < e implies s[k] != '/' by {
        assert(s[k] == first[k - i]);
    }
    lemma_run_end_at(s, i, e);
    assert(s.subrange(i, e) =~= first);
    assert(s[i] == first[0]);
    assert(is_part(s, i, e) <==> first != seq!['.']) by {
        if first.len() == 1 {
            assert(first =~= seq![first[0]]);
        }
    }
    if list.len() == 1 {
        assert(spec_spans_from(s, e + 1) =~= Seq::empty());
        assert(rest =~= Seq::empty());
        assert(undotted(rest) =~= Seq::empty());
        assert(span_texts(s, i) =~= undotted(list));
    } else {
        assert forall|k: int| 0 <= k < rest.len() implies segment(#[trigger] rest[k]) by {
            assert(rest[k] == list[k + 1]);
        }
        lemma_spans_of_segments(next, rest);
        assert(next.len() == e + 1);
        if is_part(s, i, e) {
            assert(span_texts(s, i) =~= seq![first] + span_texts(s, e + 1));
        } else {
            assert(span_texts(s, i) =~= span_texts(s, e + 1));
        }
    }
}

proof fn lemma_names_concat(a: Seq<Seq<char>>, b: Seq<Seq<char>>, c: Seq<Seq<char>>)
    requires
        spec_names(a) == spec_names(b),
    ensures
        spec_names(a + c) == spec_names(b + c),
    decreases c.len(),
{
    if c.len() == 0 {
        assert(a + c =~= a);
        assert(b + c =~= b);
    } else {
        lemma_names_concat(a, b, c.drop_last());
        assert((a + c).drop_last() =~= a + c.drop_last());
        assert((b + c).drop_last() =~= b + c.drop_last());
        assert((a + c).last() == c.last() && (b + c).last() == c.last());
    }
}

proof fn lemma_names_undotted(list: Seq<Seq<char>>)
    ensures
        spec_names(undotted(list)) == spec_names(list),
    decreases list.len(),
{
    if list.len() > 0 {
        let rest = list.drop_first();
        let first = seq![list[0]];
        lemma_names_undotted(rest);
        assert(list =~= first + rest);
        if list[0] == seq!['.'] {
            assert(first.drop_last() =~= Seq::empty());
            assert(spec_names(first) == spec_names(Seq::empty()));
            lemma_names_concat(first, Seq::empty(), rest);
            assert(Seq::empty() + rest =~= rest);
        } else {
            lemma_names_prepended(first, undotted(rest), rest);
        }
    }
}

spec fn names_onto(names: Seq<Seq<char>>, list: Seq<Seq<char>>) -> Seq<Seq<char>>
    decreases list.len(),
{
    if list.len() == 0 {
        names
    } else if list[0] == seq!['/'] || list[0] == seq!['.'] {
        names_onto(names, list.drop_first())
    } else if list[0] == seq!['.', '.'] {
        names_onto(
            if names.len() == 0 {
                names
            } else {
                names.drop_last()
            },
            list.drop_first(),
        )
    } else {
        names_onto(names.push(list[0]), list.drop_first())
    }
}

proof fn lemma_names_onto(a: Seq<Seq<char>>, list: Seq<Seq<char>>)
    ensures
        spec_names(a + list) == names_onto(spec_names(a), list),
    decreases list.len(),
{
    if list.len() == 0 {
        assert(a + list =~= a);
    } else {
        let b = a.push(list[0]);
        assert(a + list =~= b + list.drop_first());
        assert(b.drop_last() =~= a);
        lemma_names_onto(b, list.drop_first());
    }
}

proof fn lemma_onto_undotted(names: Seq<Seq<char>>, list: Seq<Seq<char>>)
    ensures
        names_onto(names, undotted(list)) == names_onto(names, list),
    decreases list.len(),
{
    if list.len() > 0 {
        let rest = list.drop_first();
        if list[0] == seq!['.'] {
            lemma_onto_undotted(names, rest);
        } else {
            let u = undotted(list);
            assert(u[0] == list[0]);
            assert(u.drop_first() =~= undotted(rest));
            lemma_onto_undotted(names, rest);
            lemma_onto_undotted(names.push(list[0]), rest);
            lemma_onto_undotted(names.drop_last(), rest);
        }
    }
}

proof fn lemma_names_prepended(
    first: Seq<Seq<char>>,
    a: Seq<Seq<char>>,
    list: Seq<Seq<char>>,
)
    requires
        a == undotted(list),
    ensures
        spec_names(first + a) == spec_names(first + list),
{
    lemma_names_onto(first, a);
    lemma_names_onto(first, list);
    lemma_onto_undotted(spec_names(first), list);
}

proof fn lemma_normalize_segments(list: Seq<Seq<char>>)
    requires
        list.len() > 0,
        all_segments(list),
    ensures
        spec_normalize(text::spec_join(list, "/"@)) == text::spec_join(spec_names(list), "/"@),
{
    reveal_strlit("/");
    let s = text::spec_join(list, "/"@);
    lemma_spans_of_segments(Seq::empty(), list);
    assert(Seq::<char>::empty() + s =~= s);
    lemma_names_undotted(list);
    let first = list[0];
    assert(segment(list[0]));
    if list.len() > 1 {
        text::lemma_join_first(list, "/"@);
    }
    assert(s.len() >= first.len());
    assert(s[0] == first[0]);
    let head = s.take(head_len(s)).map_values(|c: char| seq![c]);
    let spans = span_texts(s, 0);
    assert(spec_components(s) =~= head + spans);
    if dotted(s) {
        assert(head =~= seq![seq!['.']]);
        assert(head.drop_last() =~= Seq::empty());
        assert(spec_names(head) == spec_names(Seq::empty()));
        lemma_names_concat(head, Seq::empty(), spans);
        assert(Seq::empty() + spans =~= spans);
    } else {
        assert(head =~= Seq::empty());
        assert(head + spans =~= spans);
    }
}

/// Normalizing leaves names as they are, drops a single dot wherever it stands, and takes the name
/// before two dots away with them; at the start of a path two dots are dropped.
pub proof fn law_normalizing(dirs: Seq<Seq<char>>, gone: Seq<char>, rest: Seq<Seq<char>>)
    requires
        all_plain(dirs),
        plain(gone),
        all_plain(rest),
        rest.len() > 0,
    ensures
        spec_normalize(text::spec_join(dirs + rest, "/"@)) == text::spec_join(dirs + rest, "/"@),
        spec_normalize(text::spec_join(dirs + seq![seq!['.']] + rest, "/"@)) == text::spec_join(
            dirs + rest,
            "/"@,
        ),
        spec_normalize(text::spec_join(dirs + seq![gone, seq!['.', '.']] + rest, "/"@))
            == text::spec_join(dirs + rest, "/"@),
        spec_normalize(text::spec_join(seq![seq!['.', '.']] + rest, "/"@)) == text::spec_join(
            rest,
            "/"@,
        ),
{
    let all = dirs + rest;
    lemma_plain_concat(dirs, rest);
    lemma_names_stay(all);
    lemma_names_stay(dirs);
    lemma_names_stay(rest);
    lemma_plain_segments(all);
    lemma_normalize_segments(all);
    let dot = seq![seq!['.']];
    let up = seq![gone, seq!['.', '.']];
    let two = seq![seq!['.', '.']];
    assert(segment(seq!['.'])) by {
        assert(forall|i: int| 0 <= i < 1 ==> #[trigger] seq!['.'][i] != '/');
    }
    assert(segment(seq!['.', '.']));
    lemma_plain_segments(dirs);
    lemma_plain_segments(rest);
    assert(all_segments(dirs + dot + rest)) by {
        assert forall|i: int| 0 <= i < (dirs + dot + rest).len() implies segment(
            #[trigger] (dirs + dot + rest)[i],
        ) by {
            if i < dirs.len() {
                assert((dirs + dot + rest)[i] == dirs[i]);
            } else if i > dirs.len() {
                assert((dirs + dot + rest)[i] == rest[i - dirs.len() - 1]);
            }
        }
    }
    lemma_normalize_segments(dirs + dot + rest);
    assert((dirs + dot).drop_last() =~= dirs);
    assert(spec_names(dirs + dot) == spec_names(dirs));
    lemma_names_concat(dirs + dot, dirs, rest);
    assert(all_segments(dirs + up + rest)) by {
        assert forall|i: int| 0 <= i < (dirs + up + rest).len() implies segment(
            #[trigger] (dirs + up + rest)[i],
        ) by {
            if i < dirs.len() {
                assert((dirs + up + rest)[i] == dirs[i]);
            } else if i > dirs.len() + 1 {
                assert((dirs + up + rest)[i] == rest[i - dirs.len() - 2]);
            }
        }
    }
    lemma_normalize_segments(dirs + up + rest);
    let one = dirs.push(gone);
    lemma_names_stay(one);
    assert((dirs + up).drop_last() =~= one);
    assert((dirs + up).last() == seq!['.', '.']);
    assert(seq!['.', '.'].len() == 2);
    assert(one.drop_last() =~= dirs);
    assert(spec_names(dirs + up) == spec_names(dirs)) by {
        assert(seq!['.', '.'] != seq!['/'] && seq!['.', '.'] != seq!['.']);
    }
    lemma_names_concat(dirs + up, dirs, rest);
    assert(all_segments(two + rest)) by {
        assert forall|i: int| 0 <= i < (two + rest).len() implies segment(
            #[trigger] (two + rest)[i],
        ) by {
            if i > 0 {
                assert((two + rest)[i] == rest[i - 1]);
            }
        }
    }
    lemma_normalize_segments(two + rest);
    assert(two.drop_last() =~= Seq::empty());
    assert(spec_names(two.drop_last()) =~= Seq::empty());
    assert(two.last() == seq!['.', '.']);
    assert(seq!['.', '.'] != seq!['/'] && seq!['.', '.'] != seq!['.']);
    assert(spec_names(two) =~= Seq::empty());
    lemma_names_concat(two, Seq::empty(), rest);
    assert(Seq::empty() + rest =~= rest);
}

proof fn lemma_plain_segments(list: Seq<Seq<char>>)
    requires
        all_plain(list),
    ensures
        all_segments(list),
{
    assert forall|i: int| 0 <= i < list.len() implies segment(#[trigger] list[i]) by {
        assert(plain(list[i]));
    }
}

proof fn lemma_plain_concat(a: Seq<Seq<char>>, b: Seq<Seq<char>>)
    requires
        all_plain(a),
        all_plain(b),
    ensures
        all_plain(a + b),
{
    assert forall|i: int| 0 <= i < (a + b).len() implies plain(#[trigger] (a + b)[i]) by {
        if i < a.len() {
            assert((a + b)[i] == a[i]);
        } else {
            assert((a + b)[i] == b[i - a.len()]);
        }
    }
}

proof fn lemma_run_end_front(a: Seq<char>, b: Seq<char>, i: int)
    requires
        0 <= i <= a.len(),
        b.len() > 0,
        b[0] == '/',
    ensures
        run_end(a + b, i) == run_end(a, i),
    decreases a.len() - i,
{
    if i < a.len() {
        assert((a + b)[i] == a[i]);
        if a[i] != '/' {
            lemma_run_end_front(a, b, i + 1);
        }
    } else {
        assert((a + b)[i] == b[0]);
    }
}

proof fn lemma_spans_of_child(a: Seq<char>, name: Seq<char>, i: int)
    requires
        0 <= i <= a.len(),
        plain(name),
    ensures
        spec_spans_from(a + seq!['/'] + name, i) == spec_spans_from(a, i).push(
            ((a.len() + 1) as int, (a.len() + 1 + name.len()) as int),
        ),
    decreases a.len() - i,
{
    let s = a + seq!['/'] + name;
    let b = seq!['/'] + name;
    assert(s =~= a + b);
    lemma_run_end(a, i);
    lemma_run_end(s, i);
    lemma_run_end_front(a, b, i);
    let e = run_end(a, i);
    assert(is_part(s, i, e) == is_part(a, i, e)) by {
        if i < e {
            assert(s[i] == a[i]);
        }
    }
    if e < a.len() {
        lemma_spans_of_child(a, name, e + 1);
        let rest = spec_spans_from(a, e + 1);
        let more = ((a.len() + 1) as int, (a.len() + 1 + name.len()) as int);
        if is_part(a, i, e) {
            assert(seq![(i, e)] + rest.push(more) =~= (seq![(i, e)] + rest).push(more));
        }
    } else {
        let n = (a.len() + 1) as int;
        let m = (a.len() + 1 + name.len()) as int;
        assert forall|k: int| n <= k < m implies s[k] != '/' by {
            assert(s[k] == name[k - n]);
        }
        lemma_run_end_at(s, n, m);
        assert(s[n] == name[0]);
        assert(is_part(s, n, m)) by {
            if name.len() == 1 {
                assert(name =~= seq![name[0]]);
            }
        }
        assert(spec_spans_from(s, m + 1) =~= Seq::empty());
        assert(spec_spans_from(s, n) =~= seq![(n, m)]);
        assert(spec_spans_from(a, e + 1) =~= Seq::empty());
        assert(spec_spans_from(s, i) =~= spec_spans_from(a, i).push((n, m)));
    }
}

proof fn lemma_spans_of_names(dirs: Seq<Seq<char>>, name: Seq<char>)
    requires
        all_plain(dirs),
        plain(name),
    ensures
        ({
            let s = text::spec_join(dirs.push(name), "/"@);
            let d = text::spec_join(dirs, "/"@);
            &&& spec_spans(s).len() == dirs.len() + 1
            &&& spec_spans(s).last().1 == s.len()
            &&& spec_spans(s).last().0 == s.len() - name.len()
            &&& dirs.len() > 0 ==> s == d + seq!['/'] + name && spec_spans(s)[dirs.len() - 1].1
                == d.len()
            &&& dirs.len() == 0 ==> s == name
        }),
    decreases dirs.len(),
{
    reveal_strlit("/");
    assert("/"@ =~= seq!['/']);
    let all = dirs.push(name);
    let s = text::spec_join(all, "/"@);
    let d = text::spec_join(dirs, "/"@);
    assert(all.drop_last() =~= dirs);
    if dirs.len() == 0 {
        assert(s == name);
        lemma_run_end_at(s, 0, s.len() as int);
        assert(is_part(s, 0, s.len() as int)) by {
            if name.len() == 1 {
                assert(name =~= seq![name[0]]);
            }
        }
        assert(spec_spans_from(s, (s.len() + 1) as int) =~= Seq::empty());
        assert(spec_spans(s) =~= seq![(0int, s.len() as int)]);
    } else {
        let front = dirs.drop_last();
        assert(dirs =~= front.push(dirs.last()));
        assert(all_plain(front)) by {
            assert forall|i: int| 0 <= i < front.len() implies plain(#[trigger] front[i]) by {
                assert(front[i] == dirs[i]);
            }
        }
        assert(plain(dirs[dirs.len() - 1]));
        lemma_spans_of_names(front, dirs.last());
        assert(s == d + seq!['/'] + name);
        lemma_spans_of_child(d, name, 0);
    }
}

/// The path of names in a directory has the directory for its parent and the last name for its
/// file name. What follows the last dot of the name is its extension, unless the dot is in front.
pub proof fn law_parent_and_file_name(dirs: Seq<Seq<char>>, stem: Seq<char>, ext: Seq<char>)
    requires
        all_plain(dirs),
        stem.len() > 0,
        text::without(ext, '.'),
        plain(stem + seq!['.'] + ext),
    ensures
        ({
            let name = stem + seq!['.'] + ext;
            let s = text::spec_join(dirs.push(name), "/"@);
            &&& spec_parent(s) == Some(text::spec_join(dirs, "/"@))
            &&& spec_file_name(s) == Some(name)
            &&& spec_extension(s) == Some(ext)
            &&& extension_or_empty(s) == ext
        }),
{
    let name = stem + seq!['.'] + ext;
    law_parent_of_names(dirs, name);
    text::lemma_rfind(name, '.');
    match text::spec_rfind(name, '.') {
        Some(i) => {
            assert(i == stem.len()) by {
                assert(name[stem.len() as int] == '.');
                if i > stem.len() {
                    assert(name[i] == ext[i - stem.len() - 1]);
                }
            }
            assert(name.skip(i + 1) =~= ext);
        },
        None => {
            assert(name[stem.len() as int] == '.');
        },
    }
}

/// The path of names in a directory has the directory for its parent and the last name for its
/// file name. A name without a dot, or with its only dot in front, has no extension.
pub proof fn law_parent_of_names(dirs: Seq<Seq<char>>, name: Seq<char>)
    requires
        all_plain(dirs),
        plain(name),
    ensures
        spec_parent(text::spec_join(dirs.push(name), "/"@)) == Some(text::spec_join(dirs, "/"@)),
        spec_file_name(text::spec_join(dirs.push(name), "/"@)) == Some(name),
        text::without(name.skip(1), '.') ==> spec_extension(
            text::spec_join(dirs.push(name), "/"@),
        ) is None,
{
    let s = text::spec_join(dirs.push(name), "/"@);
    lemma_spans_of_names(dirs, name);
    let spans = spec_spans(s);
    assert(s.subrange(spans.last().0, spans.last().1) =~= name);
    assert(all_plain(dirs.push(name))) by {
        assert forall|i: int| 0 <= i < dirs.push(name).len() implies plain(
            #[trigger] dirs.push(name)[i],
        ) by {
            if i < dirs.len() {
                assert(dirs.push(name)[i] == dirs[i]);
            }
        }
    }
    lemma_components_of_joined(dirs.push(name));
    if dirs.len() == 0 {
        assert(!dotted(s)) by {
            if s[0] == '.' && s.len() == 1 {
                assert(name =~= seq!['.']);
            }
        }
        assert(s.take(0) =~= text::spec_join(dirs, "/"@));
    } else {
        assert(s.take(text::spec_join(dirs, "/"@).len() as int) =~= text::spec_join(dirs, "/"@));
    }
    text::lemma_rfind(name, '.');
    if text::without(name.skip(1), '.') {
        match text::spec_rfind(name, '.') {
            Some(i) => {
                if i > 0 {
                    assert(name.skip(1)[i - 1] == '.');
                }
            },
            None => {},
        }
    }
}

/// A path is put behind a directory with one slash between them.
pub proof fn law_join(base: Seq<char>, p: Seq<char>)
    requires
        base.len() > 0,
        p.len() == 0 || p[0] != '/',
    ensures
        base.last() != '/' ==> spec_join(base, p) == base + seq!['/'] + p,
        base.last() == '/' ==> spec_join(base, p) == base + p,
        spec_join(Seq::empty(), p) == p,
        spec_join(base, seq!['/'] + p) == seq!['/'] + p,
{
    reveal_strlit("/");
    assert("/"@ =~= seq!['/']);
}

proof fn lemma_joined_spans(front: Seq<char>, list: Seq<Seq<char>>, k: int)
    requires
        all_plain(list),
        0 <= k < list.len(),
    ensures
        ({
            let s = front + text::spec_join(list, "/"@);
            let spans = spec_spans_from(s, front.len() as int);
            &&& spans.len() == list.len()
            &&& spans[k].0 == s.len() - text::spec_join(list.skip(k), "/"@).len()
            &&& spans.last().1 == s.len()
        }),
    decreases list.len(),
{
    reveal_strlit("/");
    assert("/"@ =~= seq!['/']);
    let s = front + text::spec_join(list, "/"@);
    let i = front.len() as int;
    let first = list[0];
    let e = i + first.len();
    assert(plain(list[0]));
    assert(is_part(first, 0, first.len() as int)) by {
        if first.len() == 1 {
            assert(first =~= seq![first[0]]);
        }
    }
    let rest = list.drop_first();
    let next = front + first + "/"@;
    if list.len() > 1 {
        text::lemma_join_first(list, "/"@);
        assert(s =~= next + text::spec_join(rest, "/"@));
        assert(s[e] == '/');
    } else {
        assert(s =~= front + first);
    }
    assert forall|j: int| i <= j < e implies s[j] != '/' by {
        assert(s[j] == first[j - i]);
    }
    assert(s[i] == first[0]);
    lemma_run_end_at(s, i, e);
    assert(list.skip(0) =~= list);
    if list.len() == 1 {
        assert(spec_spans_from(s, e + 1) =~= Seq::empty());
    } else {
        assert forall|j: int| 0 <= j < rest.len() implies plain(#[trigger] rest[j]) by {
            assert(rest[j] == list[j + 1]);
        }
        lemma_joined_spans(next, rest, if k > 0 {
            k - 1
        } else {
            0
        });
        assert(next.len() == e + 1);
        if k > 0 {
            assert(rest.skip(k - 1) =~= list.skip(k));
        }
    }
}

proof fn lemma_rooted(list: Seq<Seq<char>>)
    requires
        all_plain(list),
        list.len() > 0,
    ensures
        ({
            let s = "/"@ + text::spec_join(list, "/"@);
            &&& spec_spans(s) == spec_spans_from(s, 1)
            &&& spec_components(s) == seq![seq!['/']] + list
            &&& absolute(s)
        }),
{
    reveal_strlit("/");
    assert("/"@ =~= seq!['/']);
    let s = "/"@ + text::spec_join(list, "/"@);
    lemma_run_end_at(s, 0, 0);
    lemma_spans_of_joined("/"@, list);
    assert(spec_spans(s) =~= spec_spans_from(s, 1));
    assert(s.take(1).map_values(|c: char| seq![c]) =~= seq![seq!['/']]);
    assert(spec_components(s) =~= seq![seq!['/']] + list);
}

/// What lies in a directory is what follows the path of the directory and a slash; what does not
/// start with the names of the directory does not lie in it.
pub proof fn law_paths_in_a_directory(dirs: Seq<Seq<char>>, rest: Seq<Seq<char>>)
    requires
        all_plain(dirs),
        all_plain(rest),
        dirs.len() > 0,
        rest.len() > 0,
    ensures
        spec_strip_prefix(
            "/"@ + text::spec_join(dirs + rest, "/"@),
            "/"@ + text::spec_join(dirs, "/"@),
        ) == Some(text::spec_join(rest, "/"@)),
        rest.len() >= dirs.len() && rest.take(dirs.len() as int) != dirs ==> spec_strip_prefix(
            "/"@ + text::spec_join(rest, "/"@),
            "/"@ + text::spec_join(dirs, "/"@),
        ) is None,
{
    reveal_strlit("/");
    let list = dirs + rest;
    assert forall|j: int| 0 <= j < list.len() implies plain(#[trigger] list[j]) by {
        if j < dirs.len() {
            assert(list[j] == dirs[j]);
        } else {
            assert(list[j] == rest[j - dirs.len()]);
        }
    }
    let s = "/"@ + text::spec_join(list, "/"@);
    let n = dirs.len() as int;
    lemma_rooted(list);
    lemma_rooted(dirs);
    lemma_rooted(rest);
    lemma_joined_spans("/"@, list, n);
    assert(list.skip(n) =~= rest);
    text::lemma_join_concat(dirs, rest, "/"@);
    let parts = seq![seq!['/']] + list;
    assert(parts.take(n + 1) =~= seq![seq!['/']] + dirs);
    assert(s.subrange(s.len() - text::spec_join(rest, "/"@).len(), s.len() as int)
        =~= text::spec_join(rest, "/"@));
    if rest.len() >= n && rest.take(n) != dirs {
        let others = seq![seq!['/']] + rest;
        let own = seq![seq!['/']] + dirs;
        if others.take(n + 1) == own {
            assert forall|j: int| 0 <= j < n implies rest.take(n)[j] == dirs[j] by {
                assert(others.take(n + 1)[j + 1] == own[j + 1]);
            }
            assert(rest.take(n) =~= dirs);
        }
    }
}

/// What lies below a name is what follows the name and a slash; a path that starts with another name
/// does not lie below it.
pub proof fn law_paths_below_a_name(name: Seq<char>, rest: Seq<Seq<char>>)
    requires
        plain(name),
        all_plain(rest),
        rest.len() > 0,
    ensures
        spec_strip_prefix(text::spec_join(seq![name] + rest, "/"@), name) == Some(
            text::spec_join(rest, "/"@),
        ),
        rest[0] != name ==> spec_strip_prefix(text::spec_join(rest, "/"@), name) is None,
{
    reveal_strlit("/");
    let one = seq![name];
    let list = one + rest;
    assert forall|j: int| 0 <= j < list.len() implies plain(#[trigger] list[j]) by {
        if j > 0 {
            assert(list[j] == rest[j - 1]);
        }
    }
    let s = text::spec_join(list, "/"@);
    assert(text::spec_join(one, "/"@) == name);
    lemma_components_of_joined(list);
    lemma_components_of_joined(one);
    lemma_components_of_joined(rest);
    lemma_joined_spans(Seq::empty(), list, 1);
    assert(Seq::<char>::empty() + s =~= s);
    assert(list.skip(1) =~= rest);
    text::lemma_join_concat(one, rest, "/"@);
    assert(list.take(1) =~= one);
    assert(s.subrange(s.len() - text::spec_join(rest, "/"@).len(), s.len() as int)
        =~= text::spec_join(rest, "/"@));
    lemma_joined_head(list);
    if rest[0] != name {
        assert(rest.take(1)[0] == rest[0]);
        assert(one[0] == name);
    }
}

proof fn lemma_joined_head(list: Seq<Seq<char>>)
    requires
        all_plain(list),
        list.len() > 0,
    ensures
        head_len(text::spec_join(list, "/"@)) == 0,
{
    let s = text::spec_join(list, "/"@);
    lemma_components_of_joined(list);
    lemma_joined_spans(Seq::empty(), list, 0);
    assert(Seq::<char>::empty() + s =~= s);
    assert(spec_components(s).len() == list.len());
}

} // verus!
