//! Stable sorting: the order in which the elements of a list come, least key first.

use crate::text;
use vstd::prelude::*;
use vstd::utf8;

verus! {

/// A key that lists can be sorted by.
pub trait Key: Sized {
    /// Whether the key comes before another, or is level with it.
    spec fn at_most(self, other: Self) -> bool;

    /// Any two keys can be compared.
    proof fn lemma_total(a: Self, b: Self)
        ensures
            a.at_most(b) || b.at_most(a),
    ;

    /// Comparisons can be chained.
    proof fn lemma_chain(a: Self, b: Self, c: Self)
        requires
            a.at_most(b),
            b.at_most(c),
        ensures
            a.at_most(c),
    ;

    /// Whether the key comes before another, or is level with it.
    fn not_after(&self, other: &Self) -> (r: bool)
        ensures
            r == self.at_most(*other),
    ;
}

impl Key for usize {
    open spec fn at_most(self, other: Self) -> bool {
        self <= other
    }

    proof fn lemma_total(a: Self, b: Self) {
    }

    proof fn lemma_chain(a: Self, b: Self, c: Self) {
    }

    fn not_after(&self, other: &Self) -> (r: bool) {
        *self <= *other
    }
}

/// A number that comes the earlier the larger it is.
#[derive(Debug, Clone, Copy)]
pub struct Descending(pub i64);

impl Key for Descending {
    open spec fn at_most(self, other: Self) -> bool {
        self.0 >= other.0
    }

    proof fn lemma_total(a: Self, b: Self) {
    }

    proof fn lemma_chain(a: Self, b: Self, c: Self) {
    }

    fn not_after(&self, other: &Self) -> (r: bool) {
        self.0 >= other.0
    }
}

/// Whether one run of bytes comes before another, or is equal to it: byte by byte, and a run
/// before any that it begins.
pub open spec fn bytes_at_most(a: Seq<u8>, b: Seq<u8>) -> bool
    decreases a.len(),
{
    if a.len() == 0 {
        true
    } else if b.len() == 0 {
        false
    } else if a[0] != b[0] {
        a[0] < b[0]
    } else {
        bytes_at_most(a.drop_first(), b.drop_first())
    }
}

proof fn lemma_bytes_total(a: Seq<u8>, b: Seq<u8>)
    ensures
        bytes_at_most(a, b) || bytes_at_most(b, a),
    decreases a.len(),
{
    if a.len() > 0 && b.len() > 0 && a[0] == b[0] {
        lemma_bytes_total(a.drop_first(), b.drop_first());
    }
}

proof fn lemma_bytes_chain(a: Seq<u8>, b: Seq<u8>, c: Seq<u8>)
    requires
        bytes_at_most(a, b),
        bytes_at_most(b, c),
    ensures
        bytes_at_most(a, c),
    decreases a.len(),
{
    if a.len() > 0 && a[0] == b[0] && b[0] == c[0] {
        lemma_bytes_chain(a.drop_first(), b.drop_first(), c.drop_first());
    }
}

impl Key for String {
    /// Strings are ordered by their bytes.
    open spec fn at_most(self, other: Self) -> bool {
        bytes_at_most(utf8::encode_utf8(self@), utf8::encode_utf8(other@))
    }

    proof fn lemma_total(a: Self, b: Self) {
        lemma_bytes_total(utf8::encode_utf8(a@), utf8::encode_utf8(b@));
    }

    proof fn lemma_chain(a: Self, b: Self, c: Self) {
        lemma_bytes_chain(
            utf8::encode_utf8(a@),
            utf8::encode_utf8(b@),
            utf8::encode_utf8(c@),
        );
    }

    fn not_after(&self, other: &Self) -> (r: bool) {
        let x = self.as_str().as_bytes();
        let y = other.as_str().as_bytes();
        let mut i: usize = 0;
        assert(x@.skip(0) =~= x@);
        assert(y@.skip(0) =~= y@);
        while i < x.len() && i < y.len()
            invariant
                x@ == utf8::encode_utf8(self@),
                y@ == utf8::encode_utf8(other@),
                i <= x@.len(),
                i <= y@.len(),
                bytes_at_most(x@, y@) == bytes_at_most(x@.skip(i as int), y@.skip(i as int)),
            decreases x@.len() - i,
        {
            assert(x@.skip(i as int).drop_first() =~= x@.skip(i + 1));
            assert(y@.skip(i as int).drop_first() =~= y@.skip(i + 1));
            if x[i] != y[i] {
                return x[i] < y[i];
            }
            i = i + 1;
        }
        i == x.len()
    }
}

/// Whether element `a` of a list comes before element `b`: by its key, or, where the keys are
/// level, by its place.
pub open spec fn precedes<K: Key>(keys: Seq<K>, a: int, b: int) -> bool {
    keys[a].at_most(keys[b]) && (!keys[b].at_most(keys[a]) || a < b)
}

/// Whether each of the indices comes before all that follow it.
pub open spec fn rising<K: Key>(keys: Seq<K>, order: Seq<usize>) -> bool {
    forall|i: int, j: int|
        #![trigger order[i], order[j]]
        0 <= i < j < order.len() ==> precedes(keys, order[i] as int, order[j] as int)
}

/// Whether an index occurs in a list.
pub open spec fn listed(order: Seq<usize>, k: int) -> bool {
    exists|j: int| 0 <= j < order.len() && #[trigger] order[j] == k
}

/// Whether `order` lists every index of `keys` once, each before all that come after it.
pub open spec fn sorts<K: Key>(keys: Seq<K>, order: Seq<usize>) -> bool {
    &&& order.len() == keys.len()
    &&& forall|k: int| 0 <= k < keys.len() ==> #[trigger] listed(order, k)
    &&& forall|i: int| 0 <= i < order.len() ==> #[trigger] order[i] < keys.len()
    &&& rising(keys, order)
}

proof fn lemma_precedes_chain<K: Key>(keys: Seq<K>, a: int, b: int, c: int)
    requires
        precedes(keys, a, b),
        precedes(keys, b, c),
    ensures
        precedes(keys, a, c),
{
    K::lemma_chain(keys[a], keys[b], keys[c]);
    if keys[c].at_most(keys[a]) {
        K::lemma_chain(keys[b], keys[c], keys[a]);
        K::lemma_chain(keys[c], keys[a], keys[b]);
    }
}

/// Two rising lists, every index of the first below every index of the second, as one.
fn merge<K: Key>(keys: &[K], a: &Vec<usize>, b: &Vec<usize>, lo: usize, hi: usize) -> (r: Vec<
    usize,
>)
    requires
        hi <= keys@.len(),
        forall|i: int| 0 <= i < a@.len() ==> lo <= #[trigger] a@[i] < hi,
        forall|i: int| 0 <= i < b@.len() ==> lo <= #[trigger] b@[i] < hi,
        forall|i: int, j: int|
            #![trigger a@[i], b@[j]]
            0 <= i < a@.len() && 0 <= j < b@.len() ==> a@[i] < b@[j],
        rising(keys@, a@),
        rising(keys@, b@),
    ensures
        r@.len() == a@.len() + b@.len(),
        forall|i: int| 0 <= i < r@.len() ==> lo <= #[trigger] r@[i] < hi,
        forall|x: int| listed(a@, x) || listed(b@, x) ==> #[trigger] listed(r@, x),
        rising(keys@, r@),
{
    let mut out: Vec<usize> = Vec::new();
    let mut i: usize = 0;
    let mut j: usize = 0;
    while i < a.len() || j < b.len()
        invariant
            hi <= keys@.len(),
            forall|i: int| 0 <= i < a@.len() ==> lo <= #[trigger] a@[i] < hi,
            forall|i: int| 0 <= i < b@.len() ==> lo <= #[trigger] b@[i] < hi,
            forall|i: int, j: int|
                #![trigger a@[i], b@[j]]
                0 <= i < a@.len() && 0 <= j < b@.len() ==> a@[i] < b@[j],
            rising(keys@, a@),
            rising(keys@, b@),
            i <= a@.len(),
            j <= b@.len(),
            out@.len() == i + j,
            forall|k: int| 0 <= k < out@.len() ==> lo <= #[trigger] out@[k] < hi,
            forall|k: int| 0 <= k < i ==> listed(out@, #[trigger] a@[k] as int),
            forall|k: int| 0 <= k < j ==> listed(out@, #[trigger] b@[k] as int),
            rising(keys@, out@),
            forall|k: int, m: int|
                #![trigger out@[k], a@[m]]
                0 <= k < out@.len() && i <= m < a@.len() ==> precedes(
                    keys@,
                    out@[k] as int,
                    a@[m] as int,
                ),
            forall|k: int, m: int|
                #![trigger out@[k], b@[m]]
                0 <= k < out@.len() && j <= m < b@.len() ==> precedes(
                    keys@,
                    out@[k] as int,
                    b@[m] as int,
                ),
        decreases a@.len() - i + b@.len() - j,
    {
        let ghost before = out@;
        let take_first = j == b.len() || (i < a.len() && keys[a[i]].not_after(&keys[b[j]]));
        let x: usize = if take_first {
            a[i]
        } else {
            b[j]
        };
        out.push(x);
        assert forall|k: int| 0 <= k < before.len() implies #[trigger] out@[k] == before[k] by {}
        assert(out@[before.len() as int] == x);
        proof {
            if i < a@.len() && j < b@.len() {
                K::lemma_total(keys@[a@[i as int] as int], keys@[b@[j as int] as int]);
                if take_first {
                    assert(precedes(keys@, a@[i as int] as int, b@[j as int] as int));
                    assert forall|m: int| j <= m < b@.len() implies precedes(
                        keys@,
                        x as int,
                        #[trigger] b@[m] as int,
                    ) by {
                        if m > j {
                            lemma_precedes_chain(
                                keys@,
                                x as int,
                                b@[j as int] as int,
                                b@[m] as int,
                            );
                        }
                    }
                } else {
                    assert(precedes(keys@, b@[j as int] as int, a@[i as int] as int));
                    assert forall|m: int| i <= m < a@.len() implies precedes(
                        keys@,
                        x as int,
                        #[trigger] a@[m] as int,
                    ) by {
                        if m > i {
                            lemma_precedes_chain(
                                keys@,
                                x as int,
                                a@[i as int] as int,
                                a@[m] as int,
                            );
                        }
                    }
                }
            }
        }
        assert forall|y: int| listed(before, y) implies #[trigger] listed(out@, y) by {
            let k = choose|k: int| 0 <= k < before.len() && #[trigger] before[k] == y;
            assert(out@[k] == y);
        }
        assert(listed(out@, x as int));
        if take_first {
            i = i + 1;
        } else {
            j = j + 1;
        }
    }
    out
}

fn sort_range<K: Key>(keys: &[K], lo: usize, hi: usize) -> (r: Vec<usize>)
    requires
        lo <= hi <= keys@.len(),
    ensures
        r@.len() == hi - lo,
        forall|i: int| 0 <= i < r@.len() ==> lo <= #[trigger] r@[i] < hi,
        forall|k: int| lo <= k < hi ==> #[trigger] listed(r@, k),
        rising(keys@, r@),
    decreases hi - lo,
{
    if hi == lo {
        return Vec::new();
    }
    if hi - lo == 1 {
        let mut one: Vec<usize> = Vec::new();
        one.push(lo);
        assert(one@[0] == lo);
        return one;
    }
    let mid: usize = lo + (hi - lo) / 2;
    let a = sort_range(keys, lo, mid);
    let b = sort_range(keys, mid, hi);
    let r = merge(keys, &a, &b, lo, hi);
    assert forall|k: int| lo <= k < hi implies #[trigger] listed(r@, k) by {
        assert(listed(a@, k) || listed(b@, k));
    }
    r
}

/// The order of a list: the places of its elements, least key first, level keys as they stand.
pub fn order<K: Key>(keys: &[K]) -> (r: Vec<usize>)
    ensures
        sorts(keys@, r@),
{
    sort_range(keys, 0, keys.len())
}

/// Whether text `a` of a list comes before text `b`: by its bytes, or, where they are equal,
/// by its place.
pub open spec fn text_precedes(names: Seq<Seq<char>>, a: int, b: int) -> bool {
    let x = utf8::encode_utf8(names[a]);
    let y = utf8::encode_utf8(names[b]);
    bytes_at_most(x, y) && (!bytes_at_most(y, x) || a < b)
}

/// Whether `order` lists every place of a list of texts once, in the order of their bytes.
pub open spec fn sorts_texts(names: Seq<Seq<char>>, order: Seq<usize>) -> bool {
    &&& order.len() == names.len()
    &&& forall|k: int| 0 <= k < names.len() ==> #[trigger] listed(order, k)
    &&& forall|i: int| 0 <= i < order.len() ==> #[trigger] order[i] < names.len()
    &&& forall|i: int, j: int|
        #![trigger order[i], order[j]]
        0 <= i < j < order.len() ==> text_precedes(names, order[i] as int, order[j] as int)
}

/// The order of a list of texts: their places, by their bytes, equal texts as they stand.
pub fn order_texts(names: &[String]) -> (r: Vec<usize>)
    ensures
        sorts_texts(text::texts(names@), r@),
{
    let r = order(names);
    assert forall|i: int, j: int| #![trigger r@[i], r@[j]] 0 <= i < j < r@.len() implies text_precedes(
        text::texts(names@),
        r@[i] as int,
        r@[j] as int,
    ) by {
        assert(precedes(names@, r@[i] as int, r@[j] as int));
    }
    r
}

/// What an order lists first comes before everything else.
pub proof fn law_first_is_least<K: Key>(keys: Seq<K>, order: Seq<usize>)
    requires
        sorts(keys, order),
        keys.len() > 0,
    ensures
        order[0] < keys.len(),
        forall|j: int|
            0 <= j < keys.len() ==> keys[order[0] as int].at_most(#[trigger] keys[j]),
{
    assert forall|j: int| 0 <= j < keys.len() implies keys[order[0] as int].at_most(
        #[trigger] keys[j],
    ) by {
        assert(listed(order, j));
        let i = choose|i: int| 0 <= i < order.len() && #[trigger] order[i] == j;
        if i == 0 {
            K::lemma_total(keys[j], keys[j]);
        } else {
            assert(precedes(keys, order[0] as int, order[i] as int));
        }
    }
}

/// An order lists level elements as they stand, and any others with the lesser key first.
pub proof fn law_order_is_stable<K: Key>(keys: Seq<K>, order: Seq<usize>, i: int, j: int)
    requires
        sorts(keys, order),
        0 <= i < j < order.len(),
    ensures
        keys[order[i] as int].at_most(keys[order[j] as int]),
        keys[order[j] as int].at_most(keys[order[i] as int]) ==> order[i] < order[j],
{
    assert(precedes(keys, order[i] as int, order[j] as int));
}

} // verus!
