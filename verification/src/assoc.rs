//! A map that is kept as a list of its entries.

use vstd::prelude::*;

verus! {

/// A key of a map: keys are the same when their views are.
pub trait Key: Sized + View {
    fn same(&self, other: &Self) -> (r: bool)
        ensures
            r == (self@ == other@),
    ;
}

impl Key for String {
    fn same(&self, other: &Self) -> (r: bool) {
        *self == *other
    }
}

/// Maps keys to values.
#[derive(Debug)]
pub struct AssocMap<K: Key, V: View> {
    entries: Vec<(K, V)>,
}

/// The map that the entries make, where later ones replace earlier ones.
pub open spec fn map_of<K: View, V: View>(s: Seq<(K, V)>) -> Map<K::V, V::V>
    decreases s.len(),
{
    if s.len() == 0 {
        Map::empty()
    } else {
        map_of(s.drop_last()).insert(s.last().0@, s.last().1@)
    }
}

/// No key occurs twice.
pub open spec fn distinct<K: View, V>(s: Seq<(K, V)>) -> bool {
    forall|i: int, j: int| 0 <= i < j < s.len() ==> (#[trigger] s[i]).0@ != (#[trigger] s[j]).0@
}

pub proof fn lemma_map_of<K: View, V: View>(s: Seq<(K, V)>)
    requires
        distinct(s),
    ensures
        forall|i: int|
            0 <= i < s.len() ==> map_of(s).dom().contains((#[trigger] s[i]).0@) && map_of(
                s,
            )[s[i].0@] == s[i].1@,
        forall|k: K::V| #[trigger]
            map_of(s).dom().contains(k) ==> exists|i: int|
                0 <= i < s.len() && (#[trigger] s[i]).0@ == k,
    decreases s.len(),
{
    if s.len() > 0 {
        let t = s.drop_last();
        lemma_map_of(t);
        assert forall|i: int| 0 <= i < s.len() implies map_of(s).dom().contains(
            (#[trigger] s[i]).0@,
        ) && map_of(s)[s[i].0@] == s[i].1@ by {
            if i < t.len() {
                assert(t[i] == s[i]);
                assert(s[i].0@ != s[s.len() - 1].0@);
            }
        }
        assert forall|k: K::V| #[trigger] map_of(s).dom().contains(k) implies exists|i: int|
            0 <= i < s.len() && (#[trigger] s[i]).0@ == k by {
            if k == s.last().0@ {
                assert(s[s.len() - 1].0@ == k);
            } else {
                assert(map_of(t).dom().contains(k));
                let i = choose|i: int| 0 <= i < t.len() && (#[trigger] t[i]).0@ == k;
                assert(s[i].0@ == k);
            }
        }
    }
}

/// Two maps are the same when the entries of one describe the other.
proof fn lemma_map_is<K: View, V: View>(s: Seq<(K, V)>, m: Map<K::V, V::V>)
    requires
        distinct(s),
        forall|i: int|
            0 <= i < s.len() ==> m.dom().contains((#[trigger] s[i]).0@) && m[s[i].0@] == s[i].1@,
        forall|k: K::V| #[trigger]
            m.dom().contains(k) ==> exists|i: int| 0 <= i < s.len() && (#[trigger] s[i]).0@ == k,
    ensures
        map_of(s) == m,
{
    lemma_map_of(s);
    assert(map_of(s) =~= m) by {
        assert forall|k: K::V| map_of(s).dom().contains(k) == m.dom().contains(k) by {
            if map_of(s).dom().contains(k) {
                let i = choose|i: int| 0 <= i < s.len() && (#[trigger] s[i]).0@ == k;
                assert(m.dom().contains(s[i].0@));
            }
            if m.dom().contains(k) {
                let i = choose|i: int| 0 <= i < s.len() && (#[trigger] s[i]).0@ == k;
                assert(map_of(s).dom().contains(s[i].0@));
            }
        }
        assert forall|k: K::V| map_of(s).dom().contains(k) implies map_of(s)[k] == m[k] by {
            let i = choose|i: int| 0 <= i < s.len() && (#[trigger] s[i]).0@ == k;
            assert(map_of(s)[s[i].0@] == s[i].1@);
            assert(m[s[i].0@] == s[i].1@);
        }
    }
}

impl<K: Key, V: View> View for AssocMap<K, V> {
    type V = Map<K::V, V::V>;

    closed spec fn view(&self) -> Map<K::V, V::V> {
        map_of(self.entries@)
    }
}

impl<K: Key, V: View> AssocMap<K, V> {
    #[verifier::type_invariant]
    spec fn inv(self) -> bool {
        distinct(self.entries@)
    }

    /// The entries in the order in which their keys were last put in.
    pub closed spec fn listed(&self) -> Seq<(K, V)> {
        self.entries@
    }

    /// The entries describe the map, and no key occurs twice among them.
    pub fn check_listed(&self)
        ensures
            distinct(self.listed()),
            map_of(self.listed()) == self@,
    {
        proof {
            use_type_invariant(&*self);
        }
    }

    pub fn new() -> (r: Self)
        ensures
            r@ == Map::<K::V, V::V>::empty(),
    {
        AssocMap { entries: Vec::new() }
    }

    /// How many entries there are.
    pub fn len(&self) -> (r: usize)
        ensures
            r == self.listed().len(),
    {
        self.entries.len()
    }

    /// The value of the entry at position `i`.
    pub fn value_at(&self, i: usize) -> (r: &V)
        requires
            i < self.listed().len(),
        ensures
            *r == self.listed()[i as int].1,
    {
        &self.entries[i].1
    }

    fn find(&self, key: &K) -> (r: Option<usize>)
        ensures
            match r {
                Some(i) => i < self.entries@.len() && self.entries@[i as int].0@ == key@,
                None => !self@.dom().contains(key@),
            },
    {
        proof {
            use_type_invariant(&*self);
        }
        let mut i: usize = 0;
        while i < self.entries.len()
            invariant
                i <= self.entries@.len(),
                forall|j: int| 0 <= j < i ==> (#[trigger] self.entries@[j]).0@ != key@,
            decreases self.entries@.len() - i,
        {
            if self.entries[i].0.same(key) {
                return Some(i);
            }
            i += 1;
        }
        proof {
            lemma_map_of(self.entries@);
        }
        None
    }

    /// The value of a key.
    pub fn get(&self, key: &K) -> (r: Option<&V>)
        ensures
            match r {
                Some(v) => self@.dom().contains(key@) && self@[key@] == v@,
                None => !self@.dom().contains(key@),
            },
    {
        match self.find(key) {
            Some(i) => {
                proof {
                    use_type_invariant(&*self);
                    lemma_map_of(self.entries@);
                    assert(self@[self.entries@[i as int].0@] == self.entries@[i as int].1@);
                }
                Some(&self.entries[i].1)
            },
            None => None,
        }
    }

    /// Gives a key a value; returns the one it had.
    pub fn insert(&mut self, key: K, value: V) -> (r: Option<V>)
        ensures
            final(self)@ == old(self)@.insert(key@, value@),
            match r {
                Some(v) => old(self)@.dom().contains(key@) && old(self)@[key@] == v@,
                None => !old(self)@.dom().contains(key@),
            },
    {
        match self.remove(&key) {
            Some(v) => {
                self.push(key, value);
                assert(self@ =~= old(self)@.insert(key@, value@));
                Some(v)
            },
            None => {
                self.push(key, value);
                None
            },
        }
    }

    fn push(&mut self, key: K, value: V)
        requires
            !old(self)@.dom().contains(key@),
        ensures
            final(self)@ == old(self)@.insert(key@, value@),
    {
        proof {
            use_type_invariant(&*self);
        }
        let ghost before = self.entries@;
        proof {
            lemma_map_of(before);
        }
        let mut entries: Vec<(K, V)> = Vec::new();
        std::mem::swap(&mut entries, &mut self.entries);
        entries.push((key, value));
        proof {
            assert(entries@.drop_last() =~= before);
            assert forall|i: int| 0 <= i < before.len() implies (#[trigger] before[i]).0@
                != key@ by {
                assert(map_of(before).dom().contains(before[i].0@));
            }
            assert forall|i: int, j: int| 0 <= i < j < entries@.len() implies (
            #[trigger] entries@[i]).0@ != (#[trigger] entries@[j]).0@ by {
                assert(entries@[i] == before[i]);
                if j < before.len() {
                    assert(entries@[j] == before[j]);
                }
            }
        }
        self.entries = entries;
    }

    /// Takes a key out; returns the value it had.
    pub fn remove(&mut self, key: &K) -> (r: Option<V>)
        ensures
            final(self)@ == old(self)@.remove(key@),
            match r {
                Some(v) => old(self)@.dom().contains(key@) && old(self)@[key@] == v@,
                None => !old(self)@.dom().contains(key@),
            },
    {
        match self.find(key) {
            Some(i) => {
                proof {
                    use_type_invariant(&*self);
                }
                let ghost before = self.entries@;
                let mut entries: Vec<(K, V)> = Vec::new();
                std::mem::swap(&mut entries, &mut self.entries);
                let (_, v) = entries.remove(i);
                proof {
                    let m = map_of(before).remove(key@);
                    let after = entries@;
                    lemma_map_of(before);
                    assert(before[i as int].0@ == key@);
                    assert(map_of(before)[before[i as int].0@] == v@);
                    assert forall|j: int| 0 <= j < after.len() implies m.dom().contains(
                        (#[trigger] after[j]).0@,
                    ) && m[after[j].0@] == after[j].1@ by {
                        let b = if j < i {
                            j
                        } else {
                            j + 1
                        };
                        assert(after[j] == before[b]);
                        if b < i {
                            assert(before[b].0@ != before[i as int].0@);
                        } else {
                            assert(before[i as int].0@ != before[b].0@);
                        }
                    }
                    assert forall|k: K::V| #[trigger] m.dom().contains(k) implies exists|j: int|
                        0 <= j < after.len() && (#[trigger] after[j]).0@ == k by {
                        assert(map_of(before).dom().contains(k));
                        let b = choose|b: int| 0 <= b < before.len() && (#[trigger] before[b]).0@
                            == k;
                        let j = if b < i {
                            b
                        } else {
                            b - 1
                        };
                        assert(b != i);
                        assert(after[j] == before[b]);
                    }
                    lemma_map_is(after, m);
                }
                self.entries = entries;
                Some(v)
            },
            None => {
                assert(self@ =~= self@.remove(key@));
                None
            },
        }
    }
}

} // verus!
