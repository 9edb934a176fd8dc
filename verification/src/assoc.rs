//! A small association map from path strings to values.
//!
//! Backed by a vector of pairs with pairwise-distinct keys; its view is the
//! mathematical map from key views to values.

use crate::paths::str_eq;
use vstd::prelude::*;

verus! {

/// The map a pair sequence denotes: later pairs win, though under
/// [`AssocMap::inv`] keys never repeat.
pub open spec fn map_of<V>(s: Seq<(String, V)>) -> Map<Seq<char>, V>
    decreases s.len(),
{
    if s.len() == 0 {
        Map::empty()
    } else {
        map_of(s.drop_last()).insert(s.last().0@, s.last().1)
    }
}

/// Whether the pair sequence has pairwise-distinct keys.
pub open spec fn keys_distinct<V>(s: Seq<(String, V)>) -> bool {
    forall|i: int, j: int| 0 <= i < j < s.len() ==> (#[trigger] s[i]).0@ != (#[trigger] s[j]).0@
}

pub proof fn lemma_map_of_contains<V>(s: Seq<(String, V)>, n: Seq<char>)
    ensures
        map_of(s).contains_key(n) <==> exists|i: int|
            0 <= i < s.len() && (#[trigger] s[i]).0@ == n,
    decreases s.len(),
{
    if s.len() > 0 {
        lemma_map_of_contains(s.drop_last(), n);
        if map_of(s).contains_key(n) {
            if s.last().0@ == n {
                assert(s[s.len() - 1].0@ == n);
            } else {
                let i = choose|i: int| 0 <= i < s.drop_last().len() && (#[trigger] s.drop_last()[i]).0@
                    == n;
                assert(s[i].0@ == n);
            }
        }
        if exists|i: int| 0 <= i < s.len() && (#[trigger] s[i]).0@ == n {
            let i = choose|i: int| 0 <= i < s.len() && (#[trigger] s[i]).0@ == n;
            if i < s.len() - 1 {
                assert(s.drop_last()[i].0@ == n);
            }
        }
    }
}

pub proof fn lemma_map_of_get<V>(s: Seq<(String, V)>, i: int)
    requires
        keys_distinct(s),
        0 <= i < s.len(),
    ensures
        map_of(s).contains_key(s[i].0@),
        map_of(s)[s[i].0@] == s[i].1,
    decreases s.len(),
{
    lemma_map_of_contains(s, s[i].0@);
    if i < s.len() - 1 {
        assert(s.drop_last()[i] == s[i]);
        lemma_map_of_get(s.drop_last(), i);
        assert(s[i].0@ != s.last().0@);
    }
}

proof fn lemma_map_of_remove<V>(s: Seq<(String, V)>, i: int)
    requires
        keys_distinct(s),
        0 <= i < s.len(),
    ensures
        map_of(s.remove(i)) == map_of(s).remove(s[i].0@),
    decreases s.len(),
{
    let n = s[i].0@;
    if i == s.len() - 1 {
        assert(s.remove(i) =~= s.drop_last());
        lemma_map_of_contains(s.drop_last(), n);
        assert(map_of(s.drop_last()) =~= map_of(s.drop_last()).remove(n));
        assert(map_of(s).remove(n) =~= map_of(s.drop_last()).remove(n));
    } else {
        assert(s.remove(i).drop_last() =~= s.drop_last().remove(i));
        assert(s.remove(i).last() == s.last());
        lemma_map_of_remove(s.drop_last(), i);
        assert(s.drop_last()[i] == s[i]);
        assert(map_of(s.remove(i)) == map_of(s.drop_last().remove(i)).insert(
            s.last().0@,
            s.last().1,
        ));
        assert(s.last().0@ != n);
        assert(map_of(s.drop_last()).remove(n).insert(s.last().0@, s.last().1) =~= map_of(
            s.drop_last(),
        ).insert(s.last().0@, s.last().1).remove(n));
    }
}

/// An association map from path strings to values.
pub struct AssocMap<V> {
    pairs: Vec<(String, V)>,
}

impl<V> AssocMap<V> {
    /// The pair sequence, in insertion order.
    pub closed spec fn pairs_spec(&self) -> Seq<(String, V)> {
        self.pairs@
    }

    /// The map this association holds.
    pub open spec fn view(&self) -> Map<Seq<char>, V> {
        map_of(self.pairs_spec())
    }

    /// Keys are pairwise distinct.
    pub open spec fn inv(&self) -> bool {
        keys_distinct(self.pairs_spec())
    }

    /// Constructs an empty map.
    pub fn new() -> (r: Self)
        ensures
            r.inv(),
            r@ == Map::<Seq<char>, V>::empty(),
            r.pairs_spec() == Seq::<(String, V)>::empty(),
    {
        let r = AssocMap { pairs: Vec::new() };
        proof {
            assert(r@ =~= Map::<Seq<char>, V>::empty());
            assert(r.pairs_spec() =~= Seq::<(String, V)>::empty());
        }
        r
    }

    /// The number of pairs held.
    pub fn len(&self) -> (r: usize)
        ensures
            r == self.pairs_spec().len(),
    {
        self.pairs.len()
    }

    /// The key of the pair at a position.
    pub fn key_at(&self, i: usize) -> (r: &String)
        requires
            i < self.pairs_spec().len(),
        ensures
            r@ == self.pairs_spec()[i as int].0@,
    {
        &self.pairs[i].0
    }

    /// The value of the pair at a position.
    pub fn val_at(&self, i: usize) -> (r: &V)
        requires
            self.inv(),
            i < self.pairs_spec().len(),
        ensures
            *r == self.pairs_spec()[i as int].1,
            self@.contains_key(self.pairs_spec()[i as int].0@),
            self@[self.pairs_spec()[i as int].0@] == *r,
    {
        proof {
            lemma_map_of_get(self.pairs@, i as int);
        }
        &self.pairs[i].1
    }

    /// The position of a key, if it is present.
    fn find(&self, name: &str) -> (r: Option<usize>)
        requires
            self.inv(),
        ensures
            match r {
                Option::Some(i) => i < self.pairs_spec().len() && self.pairs_spec()[i as int].0@
                    == name@ && self@.contains_key(name@) && self@[name@]
                    == self.pairs_spec()[i as int].1,
                Option::None => !self@.contains_key(name@),
            },
    {
        let n = self.pairs.len();
        let mut i: usize = 0;
        while i < n
            invariant
                self.inv(),
                n == self.pairs_spec().len(),
                0 <= i <= n,
                forall|j: int| 0 <= j < i ==> (#[trigger] self.pairs_spec()[j]).0@ != name@,
            decreases n - i,
        {
            if str_eq(self.pairs[i].0.as_str(), name) {
                proof {
                    lemma_map_of_get(self.pairs@, i as int);
                }
                return Option::Some(i);
            }
            i += 1;
        }
        proof {
            lemma_map_of_contains(self.pairs@, name@);
        }
        Option::None
    }

    /// Whether the key is present.
    pub fn contains(&self, name: &str) -> (r: bool)
        requires
            self.inv(),
        ensures
            r == self@.contains_key(name@),
    {
        match self.find(name) {
            Option::Some(_) => true,
            Option::None => false,
        }
    }

    /// Looks a key up.
    pub fn get(&self, name: &str) -> (r: Option<&V>)
        requires
            self.inv(),
        ensures
            match r {
                Option::Some(v) => self@.contains_key(name@) && *v == self@[name@],
                Option::None => !self@.contains_key(name@),
            },
    {
        match self.find(name) {
            Option::Some(i) => Option::Some(&self.pairs[i].1),
            Option::None => Option::None,
        }
    }

    /// Binds a fresh key, refusing one already present.
    pub fn insert_new(&mut self, name: String, value: V) -> (r: bool)
        requires
            old(self).inv(),
        ensures
            final(self).inv(),
            r == !old(self)@.contains_key(name@),
            r ==> final(self)@ == old(self)@.insert(name@, value),
            !r ==> *final(self) == *old(self),
    {
        match self.find(name.as_str()) {
            Option::Some(_) => false,
            Option::None => {
                self.pairs.push((name, value));
                proof {
                    assert(self.pairs@.drop_last() =~= old(self).pairs@);
                    assert(forall|j: int| 0 <= j < old(self).pairs@.len() ==> (
                    #[trigger] old(self).pairs@[j]).0@ != name@) by {
                        lemma_map_of_contains(old(self).pairs@, name@);
                    }
                }
                true
            },
        }
    }

    /// Binds a key, replacing any existing binding.
    pub fn set(&mut self, name: String, value: V)
        requires
            old(self).inv(),
        ensures
            final(self).inv(),
            final(self)@ == old(self)@.insert(name@, value),
    {
        self.remove(name.as_str());
        let inserted = self.insert_new(name, value);
        proof {
            assert(inserted);
            assert(old(self)@.remove(name@).insert(name@, value) =~= old(self)@.insert(
                name@,
                value,
            ));
            assert(old(self)@.insert(name@, value) =~= old(self)@.insert(name@, value));
        }
    }

    /// Unbinds a key, handing back its value.
    pub fn remove(&mut self, name: &str) -> (r: Option<V>)
        requires
            old(self).inv(),
        ensures
            final(self).inv(),
            final(self).pairs_spec().len() <= old(self).pairs_spec().len(),
            match r {
                Option::Some(v) => old(self)@.contains_key(name@) && v == old(self)@[name@]
                    && final(self)@ == old(self)@.remove(name@),
                Option::None => !old(self)@.contains_key(name@) && *final(self) == *old(self),
            },
    {
        match self.find(name) {
            Option::Some(i) => {
                let (_, v) = self.pairs.remove(i);
                proof {
                    lemma_map_of_remove(old(self).pairs@, i as int);
                    assert(keys_distinct(self.pairs@)) by {
                        assert(forall|a: int| 0 <= a < self.pairs@.len() ==> #[trigger] self.pairs@[a]
                            == (if a < i {
                                old(self).pairs@[a]
                            } else {
                                old(self).pairs@[a + 1]
                            }));
                    }
                }
                Option::Some(v)
            },
            Option::None => Option::None,
        }
    }
}

impl<V: Copy> AssocMap<V> {
    /// The values, in pair order.
    pub fn values(&self) -> (r: Vec<V>)
        ensures
            r@.len() == self.pairs_spec().len(),
            forall|j: int| 0 <= j < r@.len() ==> r@[j] == (#[trigger] self.pairs_spec()[j]).1,
    {
        let n = self.pairs.len();
        let mut r: Vec<V> = Vec::new();
        let mut i: usize = 0;
        while i < n
            invariant
                n == self.pairs_spec().len(),
                0 <= i <= n,
                r@.len() == i,
                forall|j: int| 0 <= j < i ==> r@[j] == (#[trigger] self.pairs_spec()[j]).1,
            decreases n - i,
        {
            r.push(self.pairs[i].1);
            i += 1;
        }
        r
    }
}

} // verus!
