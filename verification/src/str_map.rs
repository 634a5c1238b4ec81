//! A map keyed by text that keeps its entries in ascending key order.

use crate::text;
use vstd::prelude::*;

verus! {

/// `keys` lists `dom` in ascending order, each key once.
pub open spec fn enumerates(keys: Seq<Seq<char>>, dom: Set<Seq<char>>) -> bool {
    &&& forall|i: int, j: int| 0 <= i < j < keys.len() ==> text::before(#[trigger] keys[i], #[trigger] keys[j])
    &&& forall|k: Seq<char>| #[trigger] dom.contains(k) <==> keys.contains(k)
}

/// Without its last key, a list enumerates the other keys.
proof fn lemma_enumerates_fewer(keys: Seq<Seq<char>>, dom: Set<Seq<char>>)
    requires
        enumerates(keys, dom),
        keys.len() > 0,
    ensures
        enumerates(keys.drop_last(), dom.remove(keys.last())),
{
    let fewer = keys.drop_last();
    let last = keys.last();
    assert forall|k: Seq<char>| #[trigger] dom.remove(last).contains(k) <==> fewer.contains(k) by {
        if fewer.contains(k) {
            let j = choose|j: int| 0 <= j < fewer.len() && fewer[j] == k;
            assert(keys[j] == k);
            assert(text::before(keys[j], keys[keys.len() - 1]));
            text::lemma_before_irreflexive(k);
            assert(dom.contains(k));
        }
        if dom.remove(last).contains(k) {
            assert(dom.contains(k));
            let j = choose|j: int| 0 <= j < keys.len() && keys[j] == k;
            assert(fewer[j] == k);
        }
    }
}

/// There is one list in ascending order only.
pub proof fn lemma_enumerates_unique(a: Seq<Seq<char>>, b: Seq<Seq<char>>, dom: Set<Seq<char>>)
    requires
        enumerates(a, dom),
        enumerates(b, dom),
    ensures
        a == b,
    decreases a.len(),
{
    if a.len() == 0 || b.len() == 0 {
        if a.len() > 0 {
            assert(a.contains(a[0]));
            assert(dom.contains(a[0]));
        }
        if b.len() > 0 {
            assert(b.contains(b[0]));
            assert(dom.contains(b[0]));
        }
        assert(a =~= b);
    } else {
        let x = a.last();
        let y = b.last();
        assert(a.contains(a[a.len() - 1]));
        assert(b.contains(b[b.len() - 1]));
        assert(dom.contains(x) && dom.contains(y));
        if x != y {
            let i = choose|i: int| 0 <= i < a.len() && a[i] == y;
            let j = choose|j: int| 0 <= j < b.len() && b[j] == x;
            assert(text::before(a[i], a[a.len() - 1]));
            assert(text::before(b[j], b[b.len() - 1]));
            text::lemma_before_asymmetric(x, y);
        }
        lemma_enumerates_fewer(a, dom);
        lemma_enumerates_fewer(b, dom);
        lemma_enumerates_unique(a.drop_last(), b.drop_last(), dom.remove(x));
        assert(a =~= a.drop_last().push(x));
        assert(b =~= b.drop_last().push(x));
    }
}

/// A map from text to `V`, ordered by key.
#[derive(Debug, PartialEq, Eq)]
pub struct StrMap<V> {
    entries: Vec<(String, V)>,
}

impl<V> StrMap<V> {
    /// The keys ascend strictly.
    #[verifier::type_invariant]
    spec fn ascending(self) -> bool {
        ascending_entries(self.entries@)
    }
}

spec fn ascending_entries<V>(entries: Seq<(String, V)>) -> bool {
    forall|i: int, j: int|
        0 <= i < j < entries.len() ==> text::before((#[trigger] entries[i]).0@, (#[trigger] entries[j]).0@)
}

spec fn holds<V>(entries: Seq<(String, V)>, k: Seq<char>) -> bool {
    exists|i: int| 0 <= i < entries.len() && (#[trigger] entries[i]).0@ == k
}

spec fn slot<V>(entries: Seq<(String, V)>, k: Seq<char>) -> int {
    choose|i: int| 0 <= i < entries.len() && (#[trigger] entries[i]).0@ == k
}

spec fn contents<V: DeepView>(entries: Seq<(String, V)>) -> Map<Seq<char>, V::V> {
    Map::new(|k: Seq<char>| holds(entries, k), |k: Seq<char>| entries[slot(entries, k)].1.deep_view())
}

proof fn lemma_slot<V>(entries: Seq<(String, V)>, i: int)
    requires
        ascending_entries(entries),
        0 <= i < entries.len(),
    ensures
        holds(entries, entries[i].0@),
        slot(entries, entries[i].0@) == i,
{
    let k = entries[i].0@;
    assert(holds(entries, k));
    let j = slot(entries, k);
    text::lemma_before_irreflexive(k);
    if i < j {
        assert(text::before(entries[i].0@, entries[j].0@));
    } else if j < i {
        assert(text::before(entries[j].0@, entries[i].0@));
    }
}

impl<V: DeepView> View for StrMap<V> {
    type V = Map<Seq<char>, V::V>;

    closed spec fn view(&self) -> Map<Seq<char>, V::V> {
        contents(self.entries@)
    }
}

impl<V: DeepView> DeepView for StrMap<V> {
    type V = Map<Seq<char>, V::V>;

    open spec fn deep_view(&self) -> Map<Seq<char>, V::V> {
        self.view()
    }
}

impl<V: DeepView> StrMap<V> {
    /// The map that holds nothing.
    pub fn new() -> (r: Self)
        ensures
            r@ == Map::<Seq<char>, V::V>::empty(),
    {
        let r = StrMap { entries: Vec::new() };
        assert(r@ =~= Map::<Seq<char>, V::V>::empty());
        r
    }

    /// The first position whose key does not come before `key`.
    fn lower_bound(&self, key: &str) -> (r: usize)
        ensures
            r <= self.entries@.len(),
            forall|i: int| 0 <= i < r ==> text::before((#[trigger] self.entries@[i]).0@, key@),
            r < self.entries@.len() ==> !text::before(self.entries@[r as int].0@, key@),
            forall|i: int|
                r < i < self.entries@.len() ==> text::before(key@, (#[trigger] self.entries@[i]).0@),
    {
        proof {
            use_type_invariant(self);
        }
        let mut i: usize = 0;
        while i < self.entries.len() && text::comes_before(self.entries[i].0.as_str(), key)
            invariant
                i <= self.entries@.len(),
                forall|j: int| 0 <= j < i ==> text::before((#[trigger] self.entries@[j]).0@, key@),
            decreases self.entries@.len() - i,
        {
            i += 1;
        }
        proof {
            if i < self.entries@.len() {
                let here = self.entries@[i as int].0@;
                text::lemma_before_total(here, key@);
                assert forall|j: int| i < j < self.entries@.len() implies text::before(
                    key@,
                    (#[trigger] self.entries@[j]).0@,
                ) by {
                    if here != key@ {
                        text::lemma_before_transitive(key@, here, self.entries@[j].0@);
                    }
                }
            }
        }
        i
    }

    /// Whether the entry at `i`, a lower bound of `key`, is `key`'s.
    fn is_at(&self, i: usize, key: &str) -> (r: bool)
        requires
            i <= self.entries@.len(),
            forall|j: int| 0 <= j < i ==> text::before((#[trigger] self.entries@[j]).0@, key@),
            forall|j: int|
                i < j < self.entries@.len() ==> text::before(key@, (#[trigger] self.entries@[j]).0@),
        ensures
            r == self@.contains_key(key@),
            r ==> i < self.entries@.len() && self.entries@[i as int].0@ == key@
                && self@[key@] == self.entries@[i as int].1.deep_view(),
    {
        proof {
            use_type_invariant(self);
            text::lemma_before_irreflexive(key@);
        }
        if i < self.entries.len() && text::same_text(self.entries[i].0.as_str(), key) {
            proof {
                lemma_slot(self.entries@, i as int);
            }
            true
        } else {
            assert(!holds(self.entries@, key@));
            false
        }
    }

    /// The value under `key`.
    pub fn get(&self, key: &str) -> (r: Option<&V>)
        ensures
            match r {
                Some(v) => self@.contains_key(key@) && self@[key@] == v.deep_view(),
                None => !self@.contains_key(key@),
            },
    {
        let i = self.lower_bound(key);
        if self.is_at(i, key) {
            Some(&self.entries[i].1)
        } else {
            None
        }
    }

    /// The key and the value of the entry under `key`.
    pub fn get_key_value(&self, key: &str) -> (r: Option<(&str, &V)>)
        ensures
            match r {
                Some((k, v)) => k@ == key@ && self@.contains_key(key@) && self@[key@]
                    == v.deep_view(),
                None => !self@.contains_key(key@),
            },
    {
        let i = self.lower_bound(key);
        if self.is_at(i, key) {
            Some((self.entries[i].0.as_str(), &self.entries[i].1))
        } else {
            None
        }
    }

    /// Whether there is a value under `key`.
    pub fn contains_key(&self, key: &str) -> (r: bool)
        ensures
            r == self@.contains_key(key@),
    {
        let i = self.lower_bound(key);
        self.is_at(i, key)
    }

    /// Puts `value` under `key`, in place of what was there.
    pub fn insert(&mut self, key: String, value: V)
        ensures
            final(self)@ == old(self)@.insert(key@, value.deep_view()),
    {
        let i = self.lower_bound(key.as_str());
        let found = self.is_at(i, key.as_str());
        let ghost was = self.entries@;
        proof {
            use_type_invariant(&*self);
        }
        let mut entries: Vec<(String, V)> = Vec::new();
        std::mem::swap(&mut entries, &mut self.entries);
        if found {
            entries.remove(i);
        }
        let ghost k = key@;
        let ghost v = value.deep_view();
        entries.insert(i, (key, value));
        proof {
            let now = entries@;
            text::lemma_before_total(was[i as int].0@, k);
            assert(ascending_entries(now));
            assert forall|x: Seq<char>| #[trigger] holds(now, x) <==> (holds(was, x) || x == k) by {
                if holds(was, x) {
                    let j = slot(was, x);
                    if j < i {
                        assert(now[j] == was[j]);
                    } else if found {
                        if j > i {
                            assert(now[j] == was[j]);
                        } else {
                            assert(now[i as int].0@ == k);
                        }
                    } else {
                        assert(now[j + 1] == was[j]);
                    }
                }
                if x == k {
                    assert(now[i as int].0@ == k);
                }
                if holds(now, x) && x != k {
                    let j = slot(now, x);
                    if j < i {
                        assert(now[j] == was[j]);
                    } else if found {
                        assert(now[j] == was[j]);
                    } else {
                        assert(now[j] == was[j - 1]);
                    }
                }
            }
            assert forall|x: Seq<char>| holds(now, x) implies #[trigger] contents(now)[x]
                == contents(was).insert(k, v)[x] by {
                if x == k {
                    lemma_slot(now, i as int);
                } else {
                    let j = slot(was, x);
                    if j < i {
                        assert(now[j] == was[j]);
                        lemma_slot(now, j);
                    } else if found {
                        assert(now[j] == was[j]);
                        lemma_slot(now, j);
                    } else {
                        assert(now[j + 1] == was[j]);
                        lemma_slot(now, j + 1);
                    }
                }
            }
            assert(contents(now) =~= contents(was).insert(k, v));
        }
        self.entries = entries;
    }

    /// Takes out what is under `key`.
    pub fn remove(&mut self, key: &str) -> (r: Option<V>)
        ensures
            final(self)@ == old(self)@.remove(key@),
            match r {
                Some(v) => old(self)@.contains_key(key@) && old(self)@[key@] == v.deep_view(),
                None => !old(self)@.contains_key(key@),
            },
    {
        let i = self.lower_bound(key);
        let found = self.is_at(i, key);
        let ghost was = self.entries@;
        proof {
            use_type_invariant(&*self);
        }
        if !found {
            assert(contents(was).remove(key@) =~= contents(was));
            return None;
        }
        let mut entries: Vec<(String, V)> = Vec::new();
        std::mem::swap(&mut entries, &mut self.entries);
        let gone = entries.remove(i);
        proof {
            let now = entries@;
            assert(ascending_entries(now));
            assert forall|x: Seq<char>| #[trigger] holds(now, x) <==> (holds(was, x) && x != key@) by {
                if holds(was, x) && x != key@ {
                    let j = slot(was, x);
                    if j < i {
                        assert(now[j] == was[j]);
                    } else {
                        assert(now[j - 1] == was[j]);
                    }
                }
                if holds(now, x) {
                    let j = slot(now, x);
                    text::lemma_before_irreflexive(key@);
                    if j < i {
                        assert(now[j] == was[j]);
                    } else {
                        assert(now[j] == was[j + 1]);
                    }
                }
            }
            assert forall|x: Seq<char>| holds(now, x) implies #[trigger] contents(now)[x]
                == contents(was)[x] by {
                let j = slot(was, x);
                if j < i {
                    assert(now[j] == was[j]);
                    lemma_slot(now, j);
                } else {
                    assert(now[j - 1] == was[j]);
                    lemma_slot(now, j - 1);
                }
            }
            assert(contents(now) =~= contents(was).remove(key@));
        }
        self.entries = entries;
        Some(gone.1)
    }

    /// Puts the entries of `more` into this map, except where there is a value under
    /// the same key already.
    pub fn extend_missing(&mut self, more: StrMap<V>)
        ensures
            final(self)@ == more@.union_prefer_right(old(self)@),
    {
        let keys = more.keys();
        let ghost given = more@;
        let ghost start = self@;
        let ghost ks = text::views(keys@);
        let mut more = more;
        for i in 0..keys.len()
            invariant
                ks == text::views(keys@),
                enumerates(ks, given.dom()),
                forall|k: Seq<char>| !ks.take(i as int).contains(k) ==> (#[trigger] more@.contains_key(
                    k,
                ) <==> given.contains_key(k)),
                forall|k: Seq<char>| !ks.take(i as int).contains(k) && #[trigger] more@.contains_key(k)
                    ==> more@[k] == given[k],
                forall|k: Seq<char>| #[trigger] self@.contains_key(k) <==> start.contains_key(k)
                    || ks.take(i as int).contains(k),
                forall|k: Seq<char>| #[trigger] self@.contains_key(k) ==> self@[k] == (
                if start.contains_key(k) {
                    start[k]
                } else {
                    given[k]
                }),
        {
            let key = keys[i].as_str();
            assert(ks[i as int] == key@);
            assert(ks.contains(key@));
            assert(given.dom().contains(key@));
            proof {
                if ks.take(i as int).contains(key@) {
                    let j = choose|j: int| 0 <= j < i && ks.take(i as int)[j] == key@;
                    text::lemma_before_irreflexive(key@);
                    assert(text::before(ks[j], ks[i as int]));
                }
                assert(!ks.take(i as int).contains(key@));
                assert(more@.contains_key(key@));
                assert forall|k: Seq<char>| #[trigger] ks.take(i + 1).contains(k) <==> (ks.take(
                    i as int,
                ).contains(k) || k == key@) by {
                    text::lemma_take_contains(ks, i as int, k);
                }
            }
            if !self.contains_key(key) {
                if let Some(value) = more.remove(key) {
                    self.insert(text::owned(key), value);
                }
            }
        }
        assert(ks.take(ks.len() as int) =~= ks);
        assert forall|k: Seq<char>| ks.contains(k) <==> #[trigger] given.contains_key(k) by {
            assert(given.dom().contains(k) <==> ks.contains(k));
        }
        assert(self@ =~= given.union_prefer_right(start));
    }

    /// The keys, ascending.
    pub fn keys(&self) -> (r: Vec<String>)
        ensures
            enumerates(text::views(r@), self@.dom()),
    {
        proof {
            use_type_invariant(self);
        }
        let mut r: Vec<String> = Vec::new();
        for i in 0..self.entries.len()
            invariant
                r@.len() == i,
                forall|j: int| 0 <= j < i ==> (#[trigger] r@[j])@ == self.entries@[j].0@,
        {
            r.push(self.entries[i].0.clone());
        }
        proof {
            let ks = text::views(r@);
            assert forall|k: Seq<char>| #[trigger] self@.dom().contains(k) <==> ks.contains(k) by {
                if holds(self.entries@, k) {
                    let i = slot(self.entries@, k);
                    assert(ks[i] == k);
                }
                if ks.contains(k) {
                    let i = choose|i: int| 0 <= i < ks.len() && ks[i] == k;
                    assert(r@[i]@ == self.entries@[i].0@);
                    assert(holds(self.entries@, k));
                }
            }
            assert forall|i: int, j: int| 0 <= i < j < ks.len() implies text::before(
                #[trigger] ks[i],
                #[trigger] ks[j],
            ) by {
                assert(r@[i]@ == self.entries@[i].0@);
                assert(r@[j]@ == self.entries@[j].0@);
            }
        }
        r
    }

    /// The entries, ascending by key.
    pub fn into_entries(self) -> (r: Vec<(String, V)>)
        ensures
            enumerates(r@.map_values(|entry: (String, V)| entry.0@), self@.dom()),
            forall|i: int|
                0 <= i < r@.len() ==> self@[(#[trigger] r@[i]).0@] == r@[i].1.deep_view(),
    {
        proof {
            use_type_invariant(&self);
            let entries = self.entries@;
            let keys = entries.map_values(|entry: (String, V)| entry.0@);
            assert forall|k: Seq<char>| #[trigger] self@.dom().contains(k) <==> keys.contains(k) by {
                if holds(entries, k) {
                    assert(keys[slot(entries, k)] == k);
                }
                if keys.contains(k) {
                    let i = choose|i: int| 0 <= i < keys.len() && keys[i] == k;
                    assert(entries[i].0@ == k);
                }
            }
            assert forall|i: int| 0 <= i < entries.len() implies self@[(#[trigger] entries[i]).0@]
                == entries[i].1.deep_view() by {
                lemma_slot(entries, i);
            }
        }
        self.entries
    }

    /// Whether the map holds nothing.
    pub fn is_empty(&self) -> (r: bool)
        ensures
            r == (self@ == Map::<Seq<char>, V::V>::empty()),
    {
        proof {
            use_type_invariant(self);
            if self.entries@.len() == 0 {
                assert(self@ =~= Map::<Seq<char>, V::V>::empty());
            } else {
                lemma_slot(self.entries@, 0);
                assert(self@.contains_key(self.entries@[0].0@));
            }
        }
        self.entries.len() == 0
    }
}

impl StrMap<String> {
    /// A map with the same texts under the same keys.
    pub fn copied(&self) -> (r: Self)
        ensures
            r@ == self@,
    {
        let mut r: StrMap<String> = StrMap::new();
        r.extend(self);
        assert(r@ =~= self@);
        r
    }

    /// Puts every entry of `more` into this map, in place of what was under
    /// the same key.
    pub fn extend(&mut self, more: &StrMap<String>)
        ensures
            final(self)@ == old(self)@.union_prefer_right(more@),
    {
        let keys = more.keys();
        let ghost start = self@;
        let ghost ks = text::views(keys@);
        for i in 0..keys.len()
            invariant
                ks == text::views(keys@),
                enumerates(ks, more@.dom()),
                forall|k: Seq<char>| #[trigger] self@.contains_key(k) <==> start.contains_key(k)
                    || ks.take(i as int).contains(k),
                forall|k: Seq<char>| #[trigger] self@.contains_key(k) ==> self@[k] == (
                if ks.take(i as int).contains(k) {
                    more@[k]
                } else {
                    start[k]
                }),
        {
            let key = keys[i].as_str();
            assert(ks[i as int] == key@);
            assert(ks.contains(key@));
            assert(more@.dom().contains(key@));
            if let Some(value) = more.get(key) {
                self.insert(text::owned(key), value.clone());
            }
            proof {
                assert forall|k: Seq<char>| #[trigger] ks.take(i + 1).contains(k) <==> (ks.take(
                    i as int,
                ).contains(k) || k == key@) by {
                    text::lemma_take_contains(ks, i as int, k);
                }
            }
        }
        assert(ks.take(ks.len() as int) =~= ks);
        assert forall|k: Seq<char>| ks.contains(k) <==> #[trigger] more@.contains_key(k) by {
            assert(more@.dom().contains(k) <==> ks.contains(k));
        }
        assert(self@ =~= start.union_prefer_right(more@));
    }
}

} // verus!
