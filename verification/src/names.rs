//! Ordering strings as Rust orders them (lexicographically by character) and
//! keeping a sorted set of names.

use vstd::prelude::*;

verus! {

/// `a` sorts strictly before `b`: at the first differing character `a` has
/// the smaller code point, or `a` is a proper prefix of `b` (the order of
/// `String`'s `Ord`, which is the byte order of UTF-8).
pub open spec fn seq_lt(a: Seq<char>, b: Seq<char>) -> bool
    decreases a.len(),
{
    if a.len() == 0 {
        b.len() > 0
    } else if b.len() == 0 {
        false
    } else if a[0] != b[0] {
        (a[0] as int) < (b[0] as int)
    } else {
        seq_lt(a.drop_first(), b.drop_first())
    }
}

/// No string sorts before itself.
pub proof fn lemma_seq_lt_irreflexive(a: Seq<char>)
    ensures
        !seq_lt(a, a),
    decreases a.len(),
{
    if a.len() > 0 {
        lemma_seq_lt_irreflexive(a.drop_first());
    }
}

/// The order is asymmetric.
pub proof fn lemma_seq_lt_asymmetric(a: Seq<char>, b: Seq<char>)
    ensures
        seq_lt(a, b) ==> !seq_lt(b, a),
    decreases a.len(),
{
    if a.len() > 0 && b.len() > 0 {
        lemma_seq_lt_asymmetric(a.drop_first(), b.drop_first());
    }
}

/// The order is transitive.
pub proof fn lemma_seq_lt_transitive(a: Seq<char>, b: Seq<char>, c: Seq<char>)
    ensures
        seq_lt(a, b) && seq_lt(b, c) ==> seq_lt(a, c),
    decreases a.len(),
{
    if a.len() > 0 && b.len() > 0 && c.len() > 0 {
        lemma_seq_lt_transitive(a.drop_first(), b.drop_first(), c.drop_first());
    }
}

/// Of two distinct strings one sorts before the other.
pub proof fn lemma_seq_lt_total(a: Seq<char>, b: Seq<char>)
    ensures
        a != b ==> seq_lt(a, b) || seq_lt(b, a),
    decreases a.len(),
{
    if a.len() == 0 && b.len() == 0 {
        assert(a =~= b);
    }
    if a.len() > 0 && b.len() > 0 {
        lemma_seq_lt_total(a.drop_first(), b.drop_first());
        if a[0] == b[0] && a.drop_first() == b.drop_first() {
            assert(a.drop_first().len() == a.len() - 1);
            assert(b.drop_first().len() == b.len() - 1);
            assert(a.len() == b.len());
            assert(a =~= b) by {
                assert forall|i: int| 0 <= i < a.len() implies a[i] == b[i] by {
                    if i > 0 {
                        assert(a[i] == a.drop_first()[i - 1]);
                        assert(b[i] == b.drop_first()[i - 1]);
                    }
                }
            }
        }
    }
}

fn chars_of(s: &str) -> (v: Vec<char>)
    ensures
        v@ == s@,
{
    let mut v: Vec<char> = Vec::new();
    for c in it: s.chars()
        invariant
            it.seq() == s@,
            v@ == s@.take(it.index() as int),
    {
        proof {
            assert(s@.skip(it.index() as int)[0] == c);
            assert(s@[it.index() as int] == c);
            assert(s@.take(it.index() + 1) =~= s@.take(it.index() as int).push(c));
        }
        v.push(c);
    }
    assert(s@.take(s@.len() as int) =~= s@);
    v
}

/// Whether `a` sorts strictly before `b`.
pub fn str_lt(a: &str, b: &str) -> (r: bool)
    ensures
        r == seq_lt(a@, b@),
{
    let va = chars_of(a);
    let vb = chars_of(b);
    let mut i: usize = 0;
    assert(va@.skip(0) =~= va@);
    assert(vb@.skip(0) =~= vb@);
    while i < va.len() && i < vb.len()
        invariant
            i <= va@.len(),
            i <= vb@.len(),
            va@ == a@,
            vb@ == b@,
            seq_lt(va@, vb@) == seq_lt(va@.skip(i as int), vb@.skip(i as int)),
        decreases va@.len() - i,
    {
        proof {
            assert(va@.skip(i as int)[0] == va@[i as int]);
            assert(vb@.skip(i as int)[0] == vb@[i as int]);
            assert(va@.skip(i as int).drop_first() =~= va@.skip(i + 1));
            assert(vb@.skip(i as int).drop_first() =~= vb@.skip(i + 1));
        }
        let ca = va[i];
        let cb = vb[i];
        if ca != cb {
            return ca < cb;
        }
        i = i + 1;
    }
    proof {
        assert(va@.skip(i as int).len() == 0 || vb@.skip(i as int).len() == 0);
    }
    i == va.len() && i < vb.len()
}

/// A set of names kept in ascending order (as a `BTreeSet<String>` iterates).
pub struct SortedNames {
    names: Vec<String>,
}

/// Each name sorts strictly before the next.
pub open spec fn strictly_sorted(s: Seq<Seq<char>>) -> bool {
    forall|i: int, j: int| 0 <= i < j < s.len() ==> seq_lt(s[i], s[j])
}

impl SortedNames {
    #[verifier::type_invariant]
    spec fn inv(self) -> bool {
        strictly_sorted(self.names@.map_values(|x: String| x@))
    }

    /// The names in ascending order.
    pub closed spec fn order(&self) -> Seq<Seq<char>> {
        self.names@.map_values(|x: String| x@)
    }
}

impl View for SortedNames {
    type V = Set<Seq<char>>;

    closed spec fn view(&self) -> Set<Seq<char>> {
        self.order().to_set()
    }
}

impl SortedNames {
    /// An empty set.
    pub fn new() -> (s: Self)
        ensures
            s@ == Set::<Seq<char>>::empty(),
            s.order() == Seq::<Seq<char>>::empty(),
    {
        let s = SortedNames { names: Vec::new() };
        assert(s.order() =~= Seq::<Seq<char>>::empty());
        assert(s@ =~= Set::<Seq<char>>::empty());
        s
    }

    /// The number of names.
    pub fn len(&self) -> (n: usize)
        ensures
            n == self.order().len(),
            n == self@.len(),
            self@ == self.order().to_set(),
            strictly_sorted(self.order()),
    {
        proof {
            use_type_invariant(self);
            let o = self.order();
            assert forall|i: int, j: int| 0 <= i < o.len() && 0 <= j < o.len() && i != j implies o[i]
                != o[j] by {
                if i < j {
                    lemma_seq_lt_irreflexive(o[i]);
                } else {
                    lemma_seq_lt_irreflexive(o[j]);
                }
            }
            o.unique_seq_to_set();
        }
        self.names.len()
    }

    /// The name at place `i` of the order.
    pub fn get(&self, i: usize) -> (s: &String)
        requires
            i < self.order().len(),
        ensures
            s@ == self.order()[i as int],
    {
        &self.names[i]
    }

    /// Adds a name; the order stays ascending.
    pub fn insert(&mut self, name: String)
        ensures
            final(self)@ == old(self)@.insert(name@),
            strictly_sorted(final(self).order()),
    {
        proof {
            use_type_invariant(&*self);
        }
        let ghost o0 = self.order();
        let mut i: usize = 0;
        let mut stop = false;
        while i < self.names.len() && !stop
            invariant
                i <= self.names@.len(),
                o0 == self.names@.map_values(|x: String| x@),
                strictly_sorted(o0),
                forall|j: int| 0 <= j < i ==> seq_lt(o0[j], name@),
                stop ==> i < o0.len() && !seq_lt(o0[i as int], name@),
            decreases self.names@.len() - i + (if stop { 0int } else { 1int }),
        {
            if !str_lt(self.names[i].as_str(), name.as_str()) {
                stop = true;
            } else {
                i = i + 1;
            }
        }
        if i < self.names.len() && self.names[i] == name {
            assert(o0[i as int] == name@);
            assert(o0.to_set().insert(name@) =~= o0.to_set());
            proof {
                use_type_invariant(&*self);
            }
            return;
        }
        let mut names: Vec<String> = Vec::new();
        std::mem::swap(&mut names, &mut self.names);
        let ghost nv = name@;
        names.insert(i, name);
        let ghost o1 = names@.map_values(|x: String| x@);
        proof {
            assert(o1 =~= o0.insert(i as int, nv));
            if i < o0.len() {
                assert(!seq_lt(o0[i as int], nv));
                assert(o0[i as int] != nv);
                lemma_seq_lt_total(nv, o0[i as int]);
                assert(seq_lt(nv, o0[i as int]));
            }
            assert forall|a: int, b: int| 0 <= a < b < o1.len() implies seq_lt(o1[a], o1[b]) by {
                if b < i {
                } else if a < i && b == i {
                } else if a < i && b > i {
                    lemma_seq_lt_transitive(o0[a], nv, o0[b - 1]);
                } else if a == i {
                    if b - 1 > i {
                        lemma_seq_lt_transitive(nv, o0[i as int], o0[b - 1]);
                    }
                } else {
                }
            }
            assert(o1.to_set() =~= o0.to_set().insert(nv)) by {
                assert forall|x: Seq<char>| o1.to_set().contains(x) <==> o0.to_set().insert(nv).contains(
                    x,
                ) by {
                    if o1.to_set().contains(x) {
                        let w = choose|w: int| 0 <= w < o1.len() && o1[w] == x;
                        if w < i {
                            assert(o0[w] == x);
                        } else if w > i {
                            assert(o0[w - 1] == x);
                        }
                    }
                    if o0.to_set().contains(x) {
                        let w = choose|w: int| 0 <= w < o0.len() && o0[w] == x;
                        if w < i {
                            assert(o1[w] == x);
                        } else {
                            assert(o1[w + 1] == x);
                        }
                    }
                    if x == nv {
                        assert(o1[i as int] == x);
                    }
                }
            }
        }
        self.names = names;
        proof {
            use_type_invariant(&*self);
        }
    }
}

} // verus!
