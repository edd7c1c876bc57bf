//! Sets and tallies of names that remember the order in which the names came.

use crate::text;
use vstd::hash_map::StringHashMap;
use vstd::hash_set::StringHashSet;
use vstd::prelude::*;

verus! {

// ── Sets ─────────────────────────────────────────────────────────────

/// A set of names in the order in which they were inserted.
pub struct NameSet {
    list: Vec<String>,
    set: StringHashSet,
}

impl View for NameSet {
    type V = Seq<Seq<char>>;

    closed spec fn view(&self) -> Seq<Seq<char>> {
        text::texts(self.list@)
    }
}

/// The list with a name at its end, unless it holds the name already.
pub open spec fn spec_insert(list: Seq<Seq<char>>, name: Seq<char>) -> Seq<Seq<char>> {
    if list.contains(name) {
        list
    } else {
        list.push(name)
    }
}

/// The distinct names of a list, in the order of their first occurrence.
pub open spec fn distinct(list: Seq<Seq<char>>) -> Seq<Seq<char>>
    decreases list.len(),
{
    if list.len() == 0 {
        Seq::empty()
    } else {
        spec_insert(distinct(list.drop_last()), list.last())
    }
}

impl NameSet {
    /// Whether the list and the hash set hold the same names, each once.
    pub closed spec fn wf(self) -> bool {
        &&& forall|t: Seq<char>| #[trigger]
            self.set@.contains(t) <==> text::texts(self.list@).contains(t)
        &&& text::texts(self.list@).no_duplicates()
    }

    /// An empty set.
    pub fn new() -> (r: Self)
        ensures
            r.wf(),
            r@ == Seq::<Seq<char>>::empty(),
    {
        let list: Vec<String> = Vec::new();
        assert(text::texts(list@) =~= Seq::empty());
        NameSet { list, set: StringHashSet::new() }
    }

    /// Adds a name; says whether it was new.
    pub fn insert(&mut self, name: String) -> (r: bool)
        requires
            old(self).wf(),
        ensures
            final(self).wf(),
            r == !old(self)@.contains(name@),
            final(self)@ == spec_insert(old(self)@, name@),
    {
        let ghost before = text::texts(self.list@);
        if self.set.contains(name.as_str()) {
            return false;
        }
        let copy = name.clone();
        self.set.insert(copy);
        self.list.push(name);
        proof {
            let after = text::texts(self.list@);
            assert(after =~= before.push(name@));
            assert forall|t: Seq<char>| #[trigger] self.set@.contains(t) <==> after.contains(
                t,
            ) by {
                if before.contains(t) {
                    let k = before.index_of(t);
                    assert(after[k] == t);
                }
                if t == name@ {
                    assert(after[before.len() as int] == t);
                }
                if after.contains(t) {
                    let k = after.index_of(t);
                    if k < before.len() {
                        assert(before[k] == t);
                    }
                }
            }
        }
        true
    }

    /// The distinct names of a list.
    pub fn from_list(names: &[String]) -> (r: Self)
        ensures
            r.wf(),
            r@ == distinct(text::texts(names@)),
    {
        let mut out = NameSet::new();
        let ghost all = text::texts(names@);
        assert(all.take(0) =~= Seq::empty());
        for i in 0..names.len()
            invariant
                out.wf(),
                all == text::texts(names@),
                out@ == distinct(all.take(i as int)),
        {
            assert(all.take(i + 1).drop_last() =~= all.take(i as int));
            assert(all.take(i + 1).last() == names@[i as int]@);
            out.insert(names[i].clone());
        }
        assert(all.take(all.len() as int) =~= all);
        out
    }

    /// Whether a name is in the set.
    pub fn contains(&self, name: &str) -> (r: bool)
        requires
            self.wf(),
        ensures
            r == self@.contains(name@),
    {
        self.set.contains(name)
    }

    /// How many names the set has.
    pub fn len(&self) -> (r: usize)
        ensures
            r == self@.len(),
    {
        self.list.len()
    }

    /// The name at a place in the order.
    pub fn get(&self, i: usize) -> (r: &str)
        requires
            i < self@.len(),
        ensures
            r@ == self@[i as int],
    {
        self.list[i].as_str()
    }
}

/// `distinct` keeps every name of a list, and each once.
pub proof fn law_distinct(list: Seq<Seq<char>>)
    ensures
        distinct(list).no_duplicates(),
        forall|t: Seq<char>| #[trigger] distinct(list).contains(t) <==> list.contains(t),
    decreases list.len(),
{
    if list.len() > 0 {
        let front = list.drop_last();
        law_distinct(front);
        let d = distinct(front);
        let r = distinct(list);
        assert forall|t: Seq<char>| #[trigger] r.contains(t) <==> list.contains(t) by {
            if r.contains(t) {
                let k = r.index_of(t);
                if k < d.len() {
                    assert(d[k] == t);
                    assert(d.contains(t));
                    assert(front.contains(t));
                    let m = front.index_of(t);
                    assert(list[m] == t);
                } else {
                    assert(list[list.len() - 1] == t);
                }
            }
            if list.contains(t) {
                let k = list.index_of(t);
                if k < front.len() {
                    assert(front[k] == t);
                    assert(d.contains(t));
                    let m = d.index_of(t);
                    assert(r[m] == t);
                } else if d.contains(t) {
                    assert(r == d);
                } else {
                    assert(r[d.len() as int] == t);
                }
            }
        }
    }
}

// ── Tallies ──────────────────────────────────────────────────────────

/// How often each of a number of names came, in the order of their first occurrence.
pub struct Tally {
    names: Vec<String>,
    counts: Vec<u32>,
    index: StringHashMap<usize>,
}

/// A name and how often it came.
pub type Entry = (Seq<char>, u32);

/// The place of the entry with a name.
pub open spec fn place_of(entries: Seq<Entry>, name: Seq<char>) -> Option<int>
    decreases entries.len(),
{
    if entries.len() == 0 {
        None
    } else if entries.last().0 == name {
        Some(entries.len() - 1)
    } else {
        place_of(entries.drop_last(), name)
    }
}

/// The entries with one more occurrence of a name, counted modulo 2^32.
pub open spec fn spec_bump(entries: Seq<Entry>, name: Seq<char>) -> Seq<Entry> {
    match place_of(entries, name) {
        Some(i) => entries.update(i, (name, entries[i].1.wrapping_add(1))),
        None => entries.push((name, 1u32)),
    }
}

/// The tally of a list of names.
pub open spec fn tally_of(items: Seq<Seq<char>>) -> Seq<Entry>
    decreases items.len(),
{
    if items.len() == 0 {
        Seq::empty()
    } else {
        spec_bump(tally_of(items.drop_last()), items.last())
    }
}

/// How often a name occurs in a list.
pub open spec fn occurrences(items: Seq<Seq<char>>, name: Seq<char>) -> nat
    decreases items.len(),
{
    if items.len() == 0 {
        0
    } else {
        occurrences(items.drop_last(), name) + if items.last() == name {
            1nat
        } else {
            0
        }
    }
}

/// `place_of` finds an entry with the name, if there is one.
pub proof fn lemma_place_of(entries: Seq<Entry>, name: Seq<char>)
    ensures
        match place_of(entries, name) {
            Some(i) => 0 <= i < entries.len() && entries[i].0 == name,
            None => forall|i: int| 0 <= i < entries.len() ==> (#[trigger] entries[i]).0 != name,
        },
    decreases entries.len(),
{
    if entries.len() > 0 && entries.last().0 != name {
        lemma_place_of(entries.drop_last(), name);
        assert forall|i: int| place_of(entries, name) is None && 0 <= i < entries.len() implies (
        #[trigger] entries[i]).0 != name by {
            if i < entries.len() - 1 {
                assert(entries.drop_last()[i] == entries[i]);
            }
        }
    }
}

impl View for Tally {
    type V = Seq<Entry>;

    closed spec fn view(&self) -> Seq<Entry> {
        Seq::new(self.names@.len(), |i: int| (self.names@[i]@, self.counts@[i]))
    }
}

impl Tally {
    /// Whether every name has one count and is found by the index.
    pub closed spec fn wf(self) -> bool {
        &&& self.names@.len() == self.counts@.len()
        &&& forall|i: int|
            0 <= i < self.names@.len() ==> self.index@.contains_key(
                #[trigger] self.names@[i]@,
            ) && self.index@[self.names@[i]@] == i
        &&& forall|t: Seq<char>| #[trigger]
            self.index@.contains_key(t) ==> self.index@[t] < self.names@.len()
                && self.names@[self.index@[t] as int]@ == t
    }

    proof fn lemma_find(&self, name: Seq<char>)
        requires
            self.wf(),
        ensures
            match place_of(self@, name) {
                Some(i) => self.index@.contains_key(name) && self.index@[name] == i,
                None => !self.index@.contains_key(name),
            },
    {
        lemma_place_of(self@, name);
        match place_of(self@, name) {
            Some(i) => {
                assert(self@[i].0 == self.names@[i]@);
            },
            None => {
                if self.index@.contains_key(name) {
                    let i = self.index@[name] as int;
                    assert(self@[i].0 == self.names@[i]@);
                }
            },
        }
    }

    /// An empty tally.
    pub fn new() -> (r: Self)
        ensures
            r.wf(),
            r@ == Seq::<Entry>::empty(),
    {
        let r = Tally { names: Vec::new(), counts: Vec::new(), index: StringHashMap::new() };
        assert(r@ =~= Seq::empty());
        r
    }

    /// Counts one more occurrence of a name.
    pub fn bump(&mut self, name: String)
        requires
            old(self).wf(),
        ensures
            final(self).wf(),
            final(self)@ == spec_bump(old(self)@, name@),
    {
        let ghost before = *self;
        proof {
            self.lemma_find(name@);
        }
        match self.index.get(name.as_str()) {
            Some(i) => {
                let i: usize = *i;
                let count: u32 = self.counts[i].wrapping_add(1);
                self.counts.set(i, count);
                assert(self@ =~= spec_bump(before@, name@));
            },
            None => {
                let n: usize = self.names.len();
                let copy = name.clone();
                self.index.insert(copy, n);
                self.names.push(name);
                self.counts.push(1);
                assert(self@ =~= spec_bump(before@, name@));
                assert forall|i: int| 0 <= i < self.names@.len() implies self.index@.contains_key(
                    #[trigger] self.names@[i]@,
                ) && self.index@[self.names@[i]@] == i by {
                    if i < n {
                        assert(self.names@[i] == before.names@[i]);
                        assert(before.index@.contains_key(before.names@[i]@));
                    }
                }
                assert forall|t: Seq<char>| #[trigger] self.index@.contains_key(t) implies
                    self.index@[t] < self.names@.len() && self.names@[self.index@[t] as int]@
                    == t by {
                    if t != name@ {
                        assert(before.index@.contains_key(t));
                        assert(self.names@[before.index@[t] as int]
                            == before.names@[before.index@[t] as int]);
                    }
                }
            },
        }
    }

    /// How often a name came, if it came at all.
    pub fn get(&self, name: &str) -> (r: Option<u32>)
        requires
            self.wf(),
        ensures
            match r {
                Some(c) => match place_of(self@, name@) {
                    Some(i) => self@[i].1 == c,
                    None => false,
                },
                None => place_of(self@, name@) is None,
            },
    {
        proof {
            self.lemma_find(name@);
        }
        match self.index.get(name) {
            Some(i) => Some(self.counts[*i]),
            None => None,
        }
    }

    /// How many names the tally has.
    pub fn len(&self) -> (r: usize)
        ensures
            r == self@.len(),
    {
        self.names.len()
    }

    /// The name and the count at a place.
    pub fn entry(&self, i: usize) -> (r: (&str, u32))
        requires
            self.wf(),
            i < self@.len(),
        ensures
            (r.0@, r.1) == self@[i as int],
    {
        (self.names[i].as_str(), self.counts[i])
    }
}

/// A tally has one entry for each name of the list, with the number of its occurrences modulo
/// 2^32.
pub proof fn law_tally_counts_occurrences(items: Seq<Seq<char>>, name: Seq<char>)
    ensures
        match place_of(tally_of(items), name) {
            Some(i) => items.contains(name) && tally_of(items)[i].1 == occurrences(items, name)
                % 0x1_0000_0000,
            None => !items.contains(name) && occurrences(items, name) == 0,
        },
    decreases items.len(),
{
    lemma_tally(items, name);
}

proof fn lemma_place_unique(entries: Seq<Entry>, i: int)
    requires
        forall|a: int, b: int|
            #![trigger entries[a], entries[b]]
            0 <= a < b < entries.len() ==> entries[a].0 != entries[b].0,
        0 <= i < entries.len(),
    ensures
        place_of(entries, entries[i].0) == Some(i),
{
    lemma_place_of(entries, entries[i].0);
}

proof fn lemma_tally(items: Seq<Seq<char>>, name: Seq<char>)
    ensures
        forall|a: int, b: int|
            #![trigger tally_of(items)[a], tally_of(items)[b]]
            0 <= a < b < tally_of(items).len() ==> tally_of(items)[a].0 != tally_of(items)[b].0,
        match place_of(tally_of(items), name) {
            Some(i) => items.contains(name) && tally_of(items)[i].1 == occurrences(items, name)
                % 0x1_0000_0000,
            None => !items.contains(name) && occurrences(items, name) == 0,
        },
    decreases items.len(),
{
    if items.len() > 0 {
        let front = items.drop_last();
        let last = items.last();
        lemma_tally(front, name);
        let before = tally_of(front);
        let after = tally_of(items);
        lemma_place_of(before, last);
        lemma_place_of(before, name);
        lemma_place_of(after, name);
        assert forall|a: int, b: int|
            #![trigger after[a], after[b]]
            0 <= a < b < after.len() implies after[a].0 != after[b].0 by {
            if b < before.len() {
                assert(before[a].0 != before[b].0);
            } else {
                assert(before[a].0 != last);
            }
        }
        assert(items.contains(name) <==> front.contains(name) || name == last) by {
            if front.contains(name) {
                let k = front.index_of(name);
                assert(items[k] == name);
            }
            if name == last {
                assert(items[items.len() - 1] == name);
            }
            if items.contains(name) {
                let k = items.index_of(name);
                if k < front.len() {
                    assert(front[k] == name);
                }
            }
        }
        match place_of(before, last) {
            Some(i) => {
                assert(after[i].0 == last);
                if name == last {
                    lemma_place_unique(after, i);
                    lemma_tally_step(occurrences(front, name), before[i].1);
                } else {
                    match place_of(before, name) {
                        Some(k) => {
                            assert(after[k] == before[k]);
                            lemma_place_unique(after, k);
                        },
                        None => {
                            match place_of(after, name) {
                                Some(k) => {
                                    assert(k != i);
                                    assert(after[k] == before[k]);
                                },
                                None => {},
                            }
                        },
                    }
                }
            },
            None => {
                let n = before.len() as int;
                assert(after[n] == (last, 1u32));
                if name == last {
                    lemma_place_unique(after, n);
                    match place_of(before, name) {
                        Some(k) => {
                            assert(false);
                        },
                        None => {},
                    }
                } else {
                    match place_of(before, name) {
                        Some(k) => {
                            assert(after[k] == before[k]);
                            lemma_place_unique(after, k);
                        },
                        None => {
                            match place_of(after, name) {
                                Some(k) => {
                                    assert(k != n);
                                    assert(after[k] == before[k]);
                                },
                                None => {},
                            }
                        },
                    }
                }
            },
        }
    }
}

proof fn lemma_tally_step(n: nat, c: u32)
    requires
        c == n % 0x1_0000_0000,
    ensures
        c.wrapping_add(1) == (n + 1) % 0x1_0000_0000,
{
}

} // verus!
