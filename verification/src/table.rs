//! A small insertion-ordered table keyed by values compared through their
//! views, used for the per-host and per-flow state of a capture.

use vstd::prelude::*;

verus! {

/// Keys that can be compared for equality of their views.
pub trait SameKey: View + Sized {
    fn same_key(&self, other: &Self) -> (b: bool)
        ensures
            b == (self@ == other@),
    ;
}

impl SameKey for String {
    fn same_key(&self, other: &Self) -> (b: bool) {
        *self == *other
    }
}

impl SameKey for u16 {
    fn same_key(&self, other: &Self) -> (b: bool) {
        *self == *other
    }
}

/// Each key's value in a list of (key, value) entries.
pub open spec fn entries_map<K: View, V: View>(s: Seq<(K, V)>) -> Map<K::V, V::V> {
    Map::new(
        |k: K::V| exists|i: int| 0 <= i < s.len() && s[i].0@ == k,
        |k: K::V| s[choose|i: int| 0 <= i < s.len() && s[i].0@ == k].1@,
    )
}

/// No key view occurs twice among the entries.
pub open spec fn unique_keys<K: View, V>(s: Seq<(K, V)>) -> bool {
    forall|i: int, j: int| 0 <= i < s.len() && 0 <= j < s.len() && i != j ==> s[i].0@ != s[j].0@
}

proof fn lemma_entry_lookup<K: View, V: View>(s: Seq<(K, V)>, i: int)
    requires
        unique_keys(s),
        0 <= i < s.len(),
    ensures
        entries_map(s).contains_key(s[i].0@),
        entries_map(s)[s[i].0@] == s[i].1@,
{
    let k = s[i].0@;
    assert(exists|j: int| 0 <= j < s.len() && s[j].0@ == k);
    let w = choose|j: int| 0 <= j < s.len() && s[j].0@ == k;
    assert(w == i);
}

proof fn lemma_entry_replace<K: View, V: View>(s0: Seq<(K, V)>, s1: Seq<(K, V)>, idx: int)
    requires
        unique_keys(s0),
        0 <= idx <= s0.len(),
        idx < s0.len() ==> s1.len() == s0.len() && s0[idx].0@ == s1[idx].0@,
        idx == s0.len() ==> s1.len() == s0.len() + 1 && forall|j: int|
            0 <= j < s0.len() ==> s0[j].0@ != s1[idx].0@,
        forall|j: int| 0 <= j < s0.len() && j != idx ==> s1[j] == s0[j],
    ensures
        unique_keys(s1),
        entries_map(s1) == entries_map(s0).insert(s1[idx].0@, s1[idx].1@),
{
    let kv = s1[idx].0@;
    let vv = s1[idx].1@;
    assert(unique_keys(s1)) by {
        assert forall|i: int, j: int|
            0 <= i < s1.len() && 0 <= j < s1.len() && i != j implies s1[i].0@ != s1[j].0@ by {
            if i != idx && j != idx {
                assert(s1[i] == s0[i] && s1[j] == s0[j]);
            } else if i == idx && idx < s0.len() {
                assert(s1[j] == s0[j]);
            } else if j == idx && idx < s0.len() {
                assert(s1[i] == s0[i]);
            } else if i == idx {
                assert(s1[j] == s0[j]);
            } else {
                assert(s1[i] == s0[i]);
            }
        }
    }
    assert(entries_map(s1) =~= entries_map(s0).insert(kv, vv)) by {
        assert forall|kk: K::V| #![auto]
            entries_map(s1).contains_key(kk) <==> entries_map(s0).insert(kv, vv).contains_key(kk) by {
            if entries_map(s1).contains_key(kk) {
                let w = choose|w: int| 0 <= w < s1.len() && s1[w].0@ == kk;
                if w != idx {
                    assert(s0[w].0@ == kk);
                }
            }
            if entries_map(s0).contains_key(kk) {
                let w = choose|w: int| 0 <= w < s0.len() && s0[w].0@ == kk;
                if w == idx {
                    assert(s1[idx].0@ == kk);
                } else {
                    assert(s1[w].0@ == kk);
                }
            }
            if kk == kv {
                assert(s1[idx].0@ == kk);
            }
        }
        assert forall|kk: K::V| #![auto]
            entries_map(s1).contains_key(kk) implies entries_map(s1)[kk] == entries_map(
                s0,
            ).insert(kv, vv)[kk] by {
            let w = choose|w: int| 0 <= w < s1.len() && s1[w].0@ == kk;
            lemma_entry_lookup(s1, w);
            if w != idx {
                lemma_entry_lookup(s0, w);
            }
        }
    }
}

/// A table from keys to values, in the order the keys were first put.
pub struct Table<K: View, V: View> {
    entries: Vec<(K, V)>,
}

impl<K: View, V: View> Table<K, V> {
    #[verifier::type_invariant]
    spec fn inv(self) -> bool {
        unique_keys(self.entries@)
    }

    /// The keys in the order they were first put.
    pub closed spec fn key_order(&self) -> Seq<K::V> {
        self.entries@.map_values(|e: (K, V)| e.0@)
    }
}

impl<K: View, V: View> View for Table<K, V> {
    type V = Map<K::V, V::V>;

    closed spec fn view(&self) -> Map<K::V, V::V> {
        entries_map(self.entries@)
    }
}

impl<K: SameKey, V: View> Table<K, V> {
    /// An empty table.
    pub fn new() -> (t: Self)
        ensures
            t@ == Map::<K::V, V::V>::empty(),
            t.key_order() == Seq::<K::V>::empty(),
    {
        let t = Table { entries: Vec::new() };
        assert(t@ =~= Map::<K::V, V::V>::empty());
        assert(t.key_order() =~= Seq::<K::V>::empty());
        t
    }

    /// The number of keys; the key order lists each key of the table once.
    pub fn len(&self) -> (n: usize)
        ensures
            n == self.key_order().len(),
            self.key_order().no_duplicates(),
            forall|k: K::V| self@.contains_key(k) <==> self.key_order().contains(k),
    {
        proof {
            use_type_invariant(self);
            let s = self.entries@;
            let o = self.key_order();
            assert forall|k: K::V| self@.contains_key(k) <==> o.contains(k) by {
                if self@.contains_key(k) {
                    let i = choose|i: int| 0 <= i < s.len() && s[i].0@ == k;
                    assert(o[i] == k);
                }
                if o.contains(k) {
                    let i = choose|i: int| 0 <= i < o.len() && o[i] == k;
                    assert(s[i].0@ == k);
                }
            }
        }
        self.entries.len()
    }

    fn position(&self, k: &K) -> (r: Option<usize>)
        ensures
            r matches Some(i) ==> i < self.entries@.len() && self.entries@[i as int].0@ == k@,
            r is None ==> forall|j: int| 0 <= j < self.entries@.len() ==> self.entries@[j].0@ != k@,
    {
        let mut i: usize = 0;
        while i < self.entries.len()
            invariant
                i <= self.entries@.len(),
                forall|j: int| 0 <= j < i ==> self.entries@[j].0@ != k@,
            decreases self.entries@.len() - i,
        {
            if self.entries[i].0.same_key(k) {
                return Some(i);
            }
            i = i + 1;
        }
        None
    }

    /// The value of key `k`, if it has one.
    pub fn get(&self, k: &K) -> (r: Option<&V>)
        ensures
            r is Some <==> self@.contains_key(k@),
            r matches Some(v) ==> v@ == self@[k@],
    {
        proof {
            use_type_invariant(self);
        }
        match self.position(k) {
            Some(i) => {
                proof {
                    lemma_entry_lookup(self.entries@, i as int);
                }
                Some(&self.entries[i].1)
            },
            None => None,
        }
    }

    /// The entry at place `i` of the key order.
    pub fn entry_at(&self, i: usize) -> (r: (&K, &V))
        requires
            i < self.key_order().len(),
        ensures
            r.0@ == self.key_order()[i as int],
            self@.contains_key(r.0@),
            self@[r.0@] == r.1@,
    {
        proof {
            use_type_invariant(self);
            lemma_entry_lookup(self.entries@, i as int);
        }
        (&self.entries[i].0, &self.entries[i].1)
    }

    /// Sets the value of key `k`; a new key goes to the end of the order.
    pub fn put(&mut self, k: K, v: V)
        ensures
            final(self)@ == old(self)@.insert(k@, v@),
            old(self)@.contains_key(k@) ==> final(self).key_order() == old(self).key_order(),
            !old(self)@.contains_key(k@) ==> final(self).key_order() == old(self).key_order().push(
                k@,
            ),
    {
        proof {
            use_type_invariant(&*self);
        }
        let mut entries: Vec<(K, V)> = Vec::new();
        std::mem::swap(&mut entries, &mut self.entries);
        let ghost s0 = entries@;
        let ghost kv = k@;
        let found = self.position_in(&entries, &k);
        match found {
            Some(i) => {
                proof {
                    lemma_entry_lookup(s0, i as int);
                }
                entries.set(i, (k, v));
                proof {
                    lemma_entry_replace(s0, entries@, i as int);
                    assert(entries@.map_values(|e: (K, V)| e.0@) =~= s0.map_values(
                        |e: (K, V)| e.0@,
                    ));
                }
            },
            None => {
                entries.push((k, v));
                proof {
                    lemma_entry_replace(s0, entries@, s0.len() as int);
                    assert(!entries_map(s0).contains_key(kv));
                    assert(entries@.map_values(|e: (K, V)| e.0@) =~= s0.map_values(
                        |e: (K, V)| e.0@,
                    ).push(kv));
                }
            },
        }
        self.entries = entries;
    }

    /// Sets the value of key `k` and returns the value it replaces; a new
    /// key goes to the end of the order.
    pub fn replace(&mut self, k: K, v: V) -> (prev: Option<V>)
        ensures
            final(self)@ == old(self)@.insert(k@, v@),
            old(self)@.contains_key(k@) ==> final(self).key_order() == old(self).key_order(),
            !old(self)@.contains_key(k@) ==> final(self).key_order() == old(self).key_order().push(
                k@,
            ),
            prev is Some <==> old(self)@.contains_key(k@),
            prev matches Some(p) ==> p@ == old(self)@[k@],
    {
        proof {
            use_type_invariant(&*self);
        }
        let mut entries: Vec<(K, V)> = Vec::new();
        std::mem::swap(&mut entries, &mut self.entries);
        let ghost s0 = entries@;
        let ghost kv = k@;
        let found = self.position_in(&entries, &k);
        let prev = match found {
            Some(i) => {
                proof {
                    lemma_entry_lookup(s0, i as int);
                }
                let (_, old_v) = entries.remove(i);
                entries.insert(i, (k, v));
                proof {
                    assert forall|j: int| 0 <= j < s0.len() && j != i implies entries@[j] == s0[j] by {
                        if j < i {
                        } else {
                        }
                    }
                    lemma_entry_replace(s0, entries@, i as int);
                    assert(entries@.map_values(|e: (K, V)| e.0@) =~= s0.map_values(
                        |e: (K, V)| e.0@,
                    ));
                }
                Some(old_v)
            },
            None => {
                entries.push((k, v));
                proof {
                    lemma_entry_replace(s0, entries@, s0.len() as int);
                    assert(!entries_map(s0).contains_key(kv));
                    assert(entries@.map_values(|e: (K, V)| e.0@) =~= s0.map_values(
                        |e: (K, V)| e.0@,
                    ).push(kv));
                }
                None
            },
        };
        self.entries = entries;
        prev
    }

    fn position_in(&self, entries: &Vec<(K, V)>, k: &K) -> (r: Option<usize>)
        ensures
            r matches Some(i) ==> i < entries@.len() && entries@[i as int].0@ == k@,
            r is None ==> forall|j: int| 0 <= j < entries@.len() ==> entries@[j].0@ != k@,
    {
        let mut i: usize = 0;
        while i < entries.len()
            invariant
                i <= entries@.len(),
                forall|j: int| 0 <= j < i ==> entries@[j].0@ != k@,
            decreases entries@.len() - i,
        {
            if entries[i].0.same_key(k) {
                return Some(i);
            }
            i = i + 1;
        }
        None
    }
}

/// A set of 16-bit identifiers (cipher suites, groups), in the order they
/// were first added.
pub struct IdSet {
    items: Vec<u16>,
}

impl IdSet {
    #[verifier::type_invariant]
    spec fn inv(self) -> bool {
        self.items@.no_duplicates()
    }

    /// The identifiers in the order they were first added.
    pub closed spec fn order(&self) -> Seq<u16> {
        self.items@
    }
}

impl View for IdSet {
    type V = Set<u16>;

    closed spec fn view(&self) -> Set<u16> {
        self.items@.to_set()
    }
}

impl IdSet {
    /// An empty set.
    pub fn new() -> (s: Self)
        ensures
            s@ == Set::<u16>::empty(),
            s.order() == Seq::<u16>::empty(),
    {
        let s = IdSet { items: Vec::new() };
        assert(s@ =~= Set::<u16>::empty());
        s
    }

    /// Adds `x`; an identifier already present keeps its place.
    pub fn insert(&mut self, x: u16)
        ensures
            final(self)@ == old(self)@.insert(x),
            old(self)@.contains(x) ==> final(self).order() == old(self).order(),
            !old(self)@.contains(x) ==> final(self).order() == old(self).order().push(x),
    {
        proof {
            use_type_invariant(&*self);
        }
        let mut i: usize = 0;
        while i < self.items.len()
            invariant
                i <= self.items@.len(),
                forall|j: int| 0 <= j < i ==> self.items@[j] != x,
            decreases self.items@.len() - i,
        {
            if self.items[i] == x {
                assert(self.items@.to_set().insert(x) =~= self.items@.to_set());
                return;
            }
            i = i + 1;
        }
        let mut items: Vec<u16> = Vec::new();
        std::mem::swap(&mut items, &mut self.items);
        let ghost s0 = items@;
        items.push(x);
        assert(items@.no_duplicates());
        proof {
            s0.lemma_push_to_set_commute(x);
        }
        self.items = items;
    }

    /// The identifiers in the order they were first added.
    pub fn to_vec(&self) -> (v: Vec<u16>)
        ensures
            v@ == self.order(),
            v@.to_set() == self@,
    {
        self.items.clone()
    }
}

/// A set of values told apart by their views, in the order they were first
/// added.
pub struct DistinctSet<T: SameKey> {
    items: Vec<T>,
}

impl<T: SameKey> DistinctSet<T> {
    #[verifier::type_invariant]
    spec fn inv(self) -> bool {
        self.order().no_duplicates()
    }

    /// The views of the values in the order they were first added.
    pub closed spec fn order(&self) -> Seq<T::V> {
        self.items@.map_values(|x: T| x@)
    }
}

impl<T: SameKey> View for DistinctSet<T> {
    type V = Set<T::V>;

    closed spec fn view(&self) -> Set<T::V> {
        self.order().to_set()
    }
}

impl<T: SameKey> DistinctSet<T> {
    /// An empty set.
    pub fn new() -> (s: Self)
        ensures
            s@ == Set::<T::V>::empty(),
            s.order() == Seq::<T::V>::empty(),
    {
        let s = DistinctSet { items: Vec::new() };
        assert(s.order() =~= Seq::<T::V>::empty());
        assert(s@ =~= Set::<T::V>::empty());
        s
    }

    /// The number of values.
    pub fn len(&self) -> (n: usize)
        ensures
            n == self.order().len(),
            n == self@.len(),
            self.order().no_duplicates(),
    {
        proof {
            use_type_invariant(self);
            self.order().unique_seq_to_set();
        }
        self.items.len()
    }

    /// The value at place `i` of the order.
    pub fn get(&self, i: usize) -> (x: &T)
        requires
            i < self.order().len(),
        ensures
            x@ == self.order()[i as int],
    {
        &self.items[i]
    }

    /// Adds `x` unless a value with the same view is present.
    pub fn insert(&mut self, x: T)
        ensures
            final(self)@ == old(self)@.insert(x@),
            old(self)@.contains(x@) ==> final(self).order() == old(self).order(),
            !old(self)@.contains(x@) ==> final(self).order() == old(self).order().push(x@),
    {
        proof {
            use_type_invariant(&*self);
        }
        let ghost o0 = self.order();
        let mut i: usize = 0;
        while i < self.items.len()
            invariant
                i <= self.items@.len(),
                o0 == self.items@.map_values(|y: T| y@),
                forall|j: int| 0 <= j < i ==> o0[j] != x@,
            decreases self.items@.len() - i,
        {
            if self.items[i].same_key(&x) {
                assert(o0[i as int] == x@);
                assert(o0.to_set().insert(x@) =~= o0.to_set());
                return;
            }
            i = i + 1;
        }
        let mut items: Vec<T> = Vec::new();
        std::mem::swap(&mut items, &mut self.items);
        let ghost xv = x@;
        items.push(x);
        proof {
            assert(items@.map_values(|y: T| y@) =~= o0.push(xv));
            o0.lemma_push_to_set_commute(xv);
            assert(!o0.contains(xv));
        }
        self.items = items;
    }
}

} // verus!
