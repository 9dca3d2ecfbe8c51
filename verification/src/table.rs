//! A table from texts to values, kept in the order of its keys.

use crate::text::{is_less, less, less_irreflexive, less_total, less_transitive, same};
use vstd::prelude::*;

verus! {

/// A table from texts to values, kept in the order of its keys.
#[derive(Debug)]
pub struct Table<V> {
    entries: Vec<(String, V)>,
}

/// Whether the keys are in strictly ascending order.
pub open spec fn ascending(keys: Seq<Seq<char>>) -> bool {
    forall|i: int, j: int| 0 <= i < j < keys.len() ==> less(#[trigger] keys[i], #[trigger] keys[j])
}

/// In an ascending sequence no text occurs twice.
pub proof fn lemma_ascending_distinct(keys: Seq<Seq<char>>)
    requires
        ascending(keys),
    ensures
        keys.no_duplicates(),
{
    assert forall|i: int, j: int| 0 <= i < keys.len() && 0 <= j < keys.len() && i != j implies keys[i]
        != keys[j] by {
        broadcast use less_irreflexive;

        if i < j {
            assert(less(keys[i], keys[j]));
        } else {
            assert(less(keys[j], keys[i]));
        }
    }
}

/// Two ascending sequences with the same elements are equal.
pub proof fn lemma_ascending_unique(a: Seq<Seq<char>>, b: Seq<Seq<char>>)
    requires
        ascending(a),
        ascending(b),
        a.to_set() == b.to_set(),
    ensures
        a == b,
    decreases a.len(),
{
    broadcast use {less_irreflexive, less_transitive};

    if a.len() == 0 {
        if b.len() > 0 {
            assert(b.to_set().contains(b[0]));
            assert(a.to_set().contains(b[0]));
        }
        assert(a =~= b);
    } else {
        assert(a.to_set().contains(a[0]));
        assert(b.to_set().contains(a[0]));
        assert(b.to_set().contains(b[0]));
        assert(a.to_set().contains(b[0]));
        assert(a[0] == b[0]) by {
            if a[0] != b[0] {
                let i = choose|i: int| 0 <= i < b.len() && b[i] == a[0];
                let j = choose|j: int| 0 <= j < a.len() && a[j] == b[0];
                assert(less(b[0], b[i]));
                assert(less(a[0], a[j]));
            }
        }
        let ra = a.skip(1);
        let rb = b.skip(1);
        assert(ra.to_set() =~= rb.to_set()) by {
            assert forall|x: Seq<char>| ra.to_set().contains(x) <==> rb.to_set().contains(x) by {
                if ra.to_set().contains(x) {
                    lemma_rest(a, b, x);
                }
                if rb.to_set().contains(x) {
                    lemma_rest(b, a, x);
                }
            }
        }
        assert(ascending(ra)) by {
            assert forall|i: int, j: int| 0 <= i < j < ra.len() implies less(
                #[trigger] ra[i],
                #[trigger] ra[j],
            ) by {
                assert(ra[i] == a[i + 1] && ra[j] == a[j + 1]);
            }
        }
        assert(ascending(rb)) by {
            assert forall|i: int, j: int| 0 <= i < j < rb.len() implies less(
                #[trigger] rb[i],
                #[trigger] rb[j],
            ) by {
                assert(rb[i] == b[i + 1] && rb[j] == b[j + 1]);
            }
        }
        lemma_ascending_unique(ra, rb);
        assert(a =~= seq![a[0]] + ra);
        assert(b =~= seq![b[0]] + rb);
    }
}

/// Where a text belongs in an ascending sequence that does not have it.
proof fn slot(keys: Seq<Seq<char>>, x: Seq<char>) -> (i: int)
    requires
        ascending(keys),
        !keys.contains(x),
    ensures
        0 <= i <= keys.len(),
        forall|j: int| 0 <= j < i ==> less(#[trigger] keys[j], x),
        forall|j: int| i <= j < keys.len() ==> less(x, #[trigger] keys[j]),
    decreases keys.len(),
{
    broadcast use less_transitive;

    if keys.len() == 0 {
        0
    } else {
        let last = keys.last();
        let front = keys.drop_last();
        assert(keys[keys.len() - 1] == last);
        less_total(last, x);
        if less(last, x) {
            assert forall|j: int| 0 <= j < keys.len() implies less(#[trigger] keys[j], x) by {
                if j < keys.len() - 1 {
                    assert(less(keys[j], keys[keys.len() - 1]));
                }
            }
            keys.len() as int
        } else {
            assert(ascending(front)) by {
                assert forall|i: int, j: int| 0 <= i < j < front.len() implies less(
                    #[trigger] front[i],
                    #[trigger] front[j],
                ) by {
                    assert(front[i] == keys[i] && front[j] == keys[j]);
                }
            }
            assert(!front.contains(x)) by {
                if front.contains(x) {
                    let j = choose|j: int| 0 <= j < front.len() && front[j] == x;
                    assert(keys[j] == x);
                }
            }
            let i = slot(front, x);
            assert forall|j: int| 0 <= j < i implies less(#[trigger] keys[j], x) by {
                assert(front[j] == keys[j]);
            }
            assert forall|j: int| i <= j < keys.len() implies less(x, #[trigger] keys[j]) by {
                if j < front.len() {
                    assert(front[j] == keys[j]);
                }
            }
            i
        }
    }
}

/// The elements of a finite set can be listed in ascending order.
pub proof fn lemma_listable(s: Set<Seq<char>>) -> (keys: Seq<Seq<char>>)
    requires
        s.finite(),
    ensures
        ascending(keys),
        keys.to_set() == s,
    decreases s.len(),
{
    if s.is_empty() {
        let keys = Seq::<Seq<char>>::empty();
        assert(keys.to_set() =~= s);
        keys
    } else {
        let x = s.choose();
        let rest = lemma_listable(s.remove(x));
        assert(!rest.contains(x)) by {
            if rest.contains(x) {
                assert(rest.to_set().contains(x));
            }
        }
        let i = slot(rest, x);
        let keys = rest.insert(i, x);
        assert forall|a: int, b: int| 0 <= a < b < keys.len() implies less(
            #[trigger] keys[a],
            #[trigger] keys[b],
        ) by {
            let ra = if a < i { a } else { a - 1 };
            let rb = if b < i { b } else { b - 1 };
            if a != i && b != i {
                assert(less(rest[ra], rest[rb]));
            } else if a == i {
                assert(less(x, rest[rb]));
            } else {
                assert(less(rest[ra], x));
            }
        }
        assert forall|y: Seq<char>| keys.to_set().contains(y) <==> s.contains(y) by {
            if s.contains(y) && y != x {
                assert(rest.to_set().contains(y));
                let j = choose|j: int| 0 <= j < rest.len() && rest[j] == y;
                let k = if j < i { j } else { j + 1 };
                assert(keys[k] == y);
            }
            if y == x {
                assert(keys[i] == x);
            }
            if keys.to_set().contains(y) && y != x {
                let k = choose|k: int| 0 <= k < keys.len() && keys[k] == y;
                let j = if k < i { k } else { k - 1 };
                assert(rest[j] == y);
                assert(rest.to_set().contains(y));
            }
        }
        assert(keys.to_set() =~= s);
        keys
    }
}

proof fn lemma_rest(a: Seq<Seq<char>>, b: Seq<Seq<char>>, x: Seq<char>)
    requires
        a.len() > 0,
        b.len() > 0,
        a[0] == b[0],
        ascending(a),
        a.to_set() == b.to_set(),
        a.skip(1).to_set().contains(x),
    ensures
        b.skip(1).to_set().contains(x),
{
    broadcast use less_irreflexive;

    let i = choose|i: int| 0 <= i < a.skip(1).len() && a.skip(1)[i] == x;
    assert(a[i + 1] == x);
    assert(less(a[0], a[i + 1]));
    assert(a.to_set().contains(x));
    assert(b.to_set().contains(x));
    let j = choose|j: int| 0 <= j < b.len() && b[j] == x;
    assert(j > 0);
    assert(b.skip(1)[j - 1] == x);
}

impl<V> Table<V> {
    /// The keys, in order.
    pub closed spec fn keys(&self) -> Seq<Seq<char>> {
        self.entries@.map_values(|e: (String, V)| e.0@)
    }

    /// The values, in the order of their keys.
    pub closed spec fn values(&self) -> Seq<V> {
        self.entries@.map_values(|e: (String, V)| e.1)
    }

    /// Whether the keys are in order, each occurring once.
    pub open spec fn wf(&self) -> bool {
        ascending(self.keys()) && self.values().len() == self.keys().len()
    }
}

impl<V> View for Table<V> {
    type V = Map<Seq<char>, V>;

    open spec fn view(&self) -> Map<Seq<char>, V> {
        Map::new(
            |k: Seq<char>| self.keys().contains(k),
            |k: Seq<char>| self.values()[self.keys().index_of(k)],
        )
    }
}

/// The entry at index `i` is what the table holds under the key at `i`.
pub proof fn lemma_entry<V>(t: Table<V>, i: int)
    requires
        t.wf(),
        0 <= i < t.keys().len(),
    ensures
        t@.dom().contains(t.keys()[i]),
        t@[t.keys()[i]] == t.values()[i],
{
    let k = t.keys()[i];
    assert(t.keys().contains(k));
    lemma_ascending_distinct(t.keys());
    let j = t.keys().index_of(k);
    assert(0 <= j < t.keys().len() && t.keys()[j] == k);
}

impl<V> Table<V> {
    /// An empty table.
    pub fn new() -> (out: Self)
        ensures
            out.wf(),
            out@ == Map::<Seq<char>, V>::empty(),
    {
        let out = Table { entries: Vec::new() };
        assert(out.keys() =~= Seq::<Seq<char>>::empty());
        assert(out@ =~= Map::<Seq<char>, V>::empty());
        out
    }

    /// The number of entries.
    pub fn len(&self) -> (out: usize)
        ensures
            out == self.keys().len(),
    {
        self.entries.len()
    }

    /// The key at index `i`.
    pub fn key(&self, i: usize) -> (out: &String)
        requires
            i < self.keys().len(),
        ensures
            out@ == self.keys()[i as int],
    {
        &self.entries[i].0
    }

    /// The value at index `i`.
    pub fn value(&self, i: usize) -> (out: &V)
        requires
            i < self.keys().len(),
        ensures
            *out == self.values()[i as int],
    {
        &self.entries[i].1
    }

    /// The index of the first key that does not come before `key`.
    fn position(&self, key: &str) -> (out: usize)
        requires
            self.wf(),
        ensures
            out <= self.keys().len(),
            forall|i: int| 0 <= i < out ==> less(#[trigger] self.keys()[i], key@),
            forall|i: int| out <= i < self.keys().len() ==> !less(#[trigger] self.keys()[i], key@),
    {
        let mut lo: usize = 0;
        let mut hi: usize = self.entries.len();
        while lo < hi
            invariant
                self.wf(),
                lo <= hi <= self.entries@.len(),
                forall|i: int| 0 <= i < lo ==> less(#[trigger] self.keys()[i], key@),
                forall|i: int|
                    hi <= i < self.keys().len() ==> !less(#[trigger] self.keys()[i], key@),
            decreases hi - lo,
        {
            let mid: usize = lo + (hi - lo) / 2;
            assert(self.keys()[mid as int] == self.entries@[mid as int].0@);
            if is_less(self.entries[mid].0.as_str(), key) {
                assert forall|i: int| 0 <= i < mid + 1 implies less(
                    #[trigger] self.keys()[i],
                    key@,
                ) by {
                    if i < mid {
                        assert(less(self.keys()[i], self.keys()[mid as int]));
                        less_transitive(self.keys()[i], self.keys()[mid as int], key@);
                    }
                }
                lo = mid + 1;
            } else {
                assert forall|i: int| mid <= i < self.keys().len() implies !less(
                    #[trigger] self.keys()[i],
                    key@,
                ) by {
                    if i > mid && less(self.keys()[i], key@) {
                        assert(less(self.keys()[mid as int], self.keys()[i]));
                        less_transitive(self.keys()[mid as int], self.keys()[i], key@);
                    }
                }
                hi = mid;
            }
        }
        lo
    }

    /// Whether the key at index `at` is `key`; if not, the table does not hold it.
    fn is_at(&self, at: usize, key: &str) -> (out: bool)
        requires
            self.wf(),
            at <= self.keys().len(),
            forall|i: int| 0 <= i < at ==> less(#[trigger] self.keys()[i], key@),
            forall|i: int| at <= i < self.keys().len() ==> !less(#[trigger] self.keys()[i], key@),
        ensures
            out == self@.dom().contains(key@),
            out ==> at < self.keys().len() && self.keys()[at as int] == key@ && self@[key@]
                == self.values()[at as int],
            !out ==> forall|i: int|
                at <= i < self.keys().len() ==> less(key@, #[trigger] self.keys()[i]),
    {
        broadcast use less_irreflexive;

        if at < self.entries.len() && same(self.entries[at].0.as_str(), key) {
            assert(self.keys()[at as int] == key@);
            proof {
                lemma_entry(*self, at as int);
            }
            true
        } else {
            assert forall|i: int| at <= i < self.keys().len() implies less(
                key@,
                #[trigger] self.keys()[i],
            ) by {
                assert(self.keys()[at as int] == self.entries@[at as int].0@);
                less_total(self.keys()[at as int], key@);
                assert(less(key@, self.keys()[at as int]));
                if i > at {
                    assert(less(self.keys()[at as int], self.keys()[i]));
                    less_transitive(key@, self.keys()[at as int], self.keys()[i]);
                }
            }
            assert(!self.keys().contains(key@)) by {
                if self.keys().contains(key@) {
                    let i = choose|i: int| 0 <= i < self.keys().len() && self.keys()[i] == key@;
                    if i < at {
                        assert(less(self.keys()[i], key@));
                    } else {
                        assert(less(key@, self.keys()[i]));
                    }
                }
            }
            false
        }
    }

    /// What the table holds under `key`.
    pub fn get(&self, key: &str) -> (out: Option<&V>)
        requires
            self.wf(),
        ensures
            match out {
                Some(v) => self@.dom().contains(key@) && self@[key@] == *v,
                None => !self@.dom().contains(key@),
            },
    {
        let at = self.position(key);
        if self.is_at(at, key) {
            Some(&self.entries[at].1)
        } else {
            None
        }
    }

    /// Whether the table holds something under `key`.
    pub fn contains(&self, key: &str) -> (out: bool)
        requires
            self.wf(),
        ensures
            out == self@.dom().contains(key@),
    {
        let at = self.position(key);
        self.is_at(at, key)
    }

    /// Puts `value` under `key`, replacing what was there.
    pub fn insert(&mut self, key: String, value: V)
        requires
            old(self).wf(),
        ensures
            final(self).wf(),
            final(self)@ == old(self)@.insert(key@, value),
    {
        broadcast use less_irreflexive;

        let ghost before = *self;
        let ghost k = key@;
        let ghost v = value;
        let at = self.position(key.as_str());
        if self.is_at(at, key.as_str()) {
            self.entries.remove(at);
            self.entries.insert(at, (key, value));
            assert(self.keys() =~= before.keys());
            assert(self.values() =~= before.values().update(at as int, v));
            assert(self@ =~= before@.insert(k, v)) by {
                assert forall|x: Seq<char>| #[trigger] self@.dom().contains(x) implies self@[x]
                    == before@.insert(k, v)[x] by {
                    let i = choose|i: int| 0 <= i < self.keys().len() && self.keys()[i] == x;
                    lemma_entry(*self, i);
                    lemma_entry(before, i);
                    if x == k {
                        lemma_ascending_distinct(before.keys());
                        assert(i == at);
                    }
                }
            }
        } else {
            self.entries.insert(at, (key, value));
            assert(self.keys() =~= before.keys().insert(at as int, k));
            assert(self.values() =~= before.values().insert(at as int, v));
            assert(self.wf()) by {
                assert forall|i: int, j: int| 0 <= i < j < self.keys().len() implies less(
                    #[trigger] self.keys()[i],
                    #[trigger] self.keys()[j],
                ) by {
                    let bi = if i < at { i } else { i - 1 };
                    let bj = if j < at { j } else { j - 1 };
                    if i != at && j != at {
                        assert(less(before.keys()[bi], before.keys()[bj]));
                    } else if i == at {
                        assert(less(k, before.keys()[bj]));
                    } else {
                        assert(less(before.keys()[bi], k));
                    }
                }
            }
            assert(self@ =~= before@.insert(k, v)) by {
                assert forall|x: Seq<char>|
                    #[trigger] self@.dom().contains(x) <==> before@.insert(k, v).dom().contains(
                        x,
                    ) by {
                    if before.keys().contains(x) {
                        let i = choose|i: int|
                            0 <= i < before.keys().len() && before.keys()[i] == x;
                        let ni = if i < at { i } else { i + 1 };
                        assert(self.keys()[ni] == x);
                    }
                    if x == k {
                        assert(self.keys()[at as int] == x);
                    }
                    if self.keys().contains(x) && x != k {
                        let i = choose|i: int| 0 <= i < self.keys().len() && self.keys()[i] == x;
                        let bi = if i < at { i } else { i - 1 };
                        assert(before.keys()[bi] == x);
                    }
                }
                assert forall|x: Seq<char>| #[trigger] self@.dom().contains(x) implies self@[x]
                    == before@.insert(k, v)[x] by {
                    let i = choose|i: int| 0 <= i < self.keys().len() && self.keys()[i] == x;
                    lemma_entry(*self, i);
                    if i != at {
                        let bi = if i < at { i } else { i - 1 };
                        lemma_entry(before, bi);
                        lemma_ascending_distinct(self.keys());
                        assert(x != k);
                    }
                }
            }
        }
    }

    /// Takes what is under `key` out of the table.
    pub fn remove(&mut self, key: &str)
        requires
            old(self).wf(),
        ensures
            final(self).wf(),
            final(self)@ == old(self)@.remove(key@),
    {
        let ghost before = *self;
        let at = self.position(key);
        if self.is_at(at, key) {
            self.entries.remove(at);
            assert(self.keys() =~= before.keys().remove(at as int));
            assert(self.values() =~= before.values().remove(at as int));
            assert(self.wf()) by {
                assert forall|i: int, j: int| 0 <= i < j < self.keys().len() implies less(
                    #[trigger] self.keys()[i],
                    #[trigger] self.keys()[j],
                ) by {
                    let bi = if i < at { i } else { i + 1 };
                    let bj = if j < at { j } else { j + 1 };
                    assert(less(before.keys()[bi], before.keys()[bj]));
                }
            }
            assert(self@ =~= before@.remove(key@)) by {
                lemma_ascending_distinct(before.keys());
                assert forall|x: Seq<char>|
                    #[trigger] self@.dom().contains(x) <==> before@.remove(key@).dom().contains(
                        x,
                    ) by {
                    if before.keys().contains(x) && x != key@ {
                        let i = choose|i: int|
                            0 <= i < before.keys().len() && before.keys()[i] == x;
                        let ni = if i < at { i } else { i - 1 };
                        assert(self.keys()[ni] == x);
                    }
                    if self.keys().contains(x) {
                        let i = choose|i: int| 0 <= i < self.keys().len() && self.keys()[i] == x;
                        let bi = if i < at { i } else { i + 1 };
                        assert(before.keys()[bi] == x);
                    }
                }
                assert forall|x: Seq<char>| #[trigger] self@.dom().contains(x) implies self@[x]
                    == before@.remove(key@)[x] by {
                    let i = choose|i: int| 0 <= i < self.keys().len() && self.keys()[i] == x;
                    lemma_entry(*self, i);
                    let bi = if i < at { i } else { i + 1 };
                    lemma_entry(before, bi);
                }
            }
        } else {
            assert(self@ =~= before@.remove(key@));
        }
    }
}

} // verus!
