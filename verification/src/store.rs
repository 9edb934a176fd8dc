//! A slotted arena with stable, versioned keys.
//!
//! Keys stay valid until their entry is explicitly removed; a slot freed by a
//! removal may be reused, but the reused slot hands out a key with a higher
//! version, so a removed key never matches a later entry.

use vstd::prelude::*;

verus! {

/// A stable handle for a value in an [`Arena`].
#[derive(Debug, Clone, Copy, PartialEq, Eq, Hash, Structural)]
pub struct EntryKey {
    /// The slot the value lives in.
    pub index: usize,
    /// The slot's version when the value was inserted.
    pub version: u64,
}

struct Slot<T> {
    version: u64,
    value: Option<T>,
}

/// How many slots of the sequence hold a value.
spec fn count_occupied<T>(s: Seq<Slot<T>>) -> nat
    decreases s.len(),
{
    if s.len() == 0 {
        0
    } else {
        count_occupied(s.drop_last()) + (if s.last().value is Some {
            1nat
        } else {
            0nat
        })
    }
}

proof fn lemma_count_push<T>(s: Seq<Slot<T>>, slot: Slot<T>)
    ensures
        count_occupied(s.push(slot)) == count_occupied(s) + (if slot.value is Some {
            1nat
        } else {
            0nat
        }),
{
    assert(s.push(slot).drop_last() =~= s);
}

proof fn lemma_count_pos<T>(s: Seq<Slot<T>>, i: int)
    requires
        0 <= i < s.len(),
        s[i].value is Some,
    ensures
        count_occupied(s) >= 1,
    decreases s.len(),
{
    if i < s.len() - 1 {
        lemma_count_pos(s.drop_last(), i);
    }
}

proof fn lemma_count_update<T>(s: Seq<Slot<T>>, i: int, slot: Slot<T>)
    requires
        0 <= i < s.len(),
    ensures
        count_occupied(s.update(i, slot)) == count_occupied(s) + (if slot.value is Some {
            1nat
        } else {
            0nat
        }) - (if s[i].value is Some {
            1nat
        } else {
            0nat
        }),
    decreases s.len(),
{
    let t = s.update(i, slot);
    if i == s.len() - 1 {
        assert(t.drop_last() =~= s.drop_last());
    } else {
        assert(t.drop_last() =~= s.drop_last().update(i, slot));
        lemma_count_update(s.drop_last(), i, slot);
    }
}

/// A slotted arena mapping stable keys to values.
pub struct Arena<T> {
    slots: Vec<Slot<T>>,
    free: Vec<usize>,
    live: usize,
}

impl<T> Arena<T> {
    /// Whether `k` currently addresses a value.
    closed spec fn key_live(&self, k: EntryKey) -> bool {
        &&& k.index < self.slots@.len()
        &&& self.slots@[k.index as int].version == k.version
        &&& self.slots@[k.index as int].value is Some
    }

    /// The key-to-value mapping this arena holds.
    pub closed spec fn view(&self) -> Map<EntryKey, T> {
        Map::new(|k: EntryKey| self.key_live(k), |k: EntryKey| self.slots@[k.index as int].value->0)
    }

    /// The number of live entries; removal always shrinks it.
    pub closed spec fn spec_len(&self) -> nat {
        self.live as nat
    }

    /// Whether `k` was ever handed out: it is live now, or its slot has
    /// moved past its version. A fresh key is never a known one.
    pub closed spec fn key_known(&self, k: EntryKey) -> bool {
        k.index < self.slots@.len() && (k.version < self.slots@[k.index as int].version || (
        k.version == self.slots@[k.index as int].version && self.slots@[k.index as int].value
            is Some))
    }

    /// The live count never exceeds the machine's address range.
    pub proof fn lemma_len_bound(&self)
        ensures
            self.spec_len() <= usize::MAX,
    {
    }

    /// A live key is a known one.
    pub proof fn lemma_contains_known(&self, k: EntryKey)
        requires
            self@.contains_key(k),
        ensures
            self.key_known(k),
    {
    }

    /// Internal consistency of the slot vector, free list and live counter.
    pub closed spec fn inv(&self) -> bool {
        &&& self.live == count_occupied(self.slots@)
        &&& forall|j: int| 0 <= j < self.free@.len() ==> (#[trigger] self.free@[j]) < self.slots@.len()
            && self.slots@[self.free@[j] as int].value is None
        &&& self.free@.no_duplicates()
        &&& forall|i: int| 0 <= i < self.slots@.len() && (#[trigger] self.slots@[i]).value is Some
            ==> self.slots@[i].version < u64::MAX
    }

    /// Constructs an empty arena.
    pub fn new() -> (r: Self)
        ensures
            r.inv(),
            r@ == Map::<EntryKey, T>::empty(),
            r.spec_len() == 0,
    {
        let r = Arena { slots: Vec::new(), free: Vec::new(), live: 0 };
        proof {
            assert(r@ =~= Map::<EntryKey, T>::empty());
        }
        r
    }

    /// The number of live entries.
    pub fn len(&self) -> (r: usize)
        ensures
            r == self.spec_len(),
    {
        self.live
    }

    /// Inserts a value and hands back a fresh key for it.
    pub fn insert(&mut self, value: T) -> (k: EntryKey)
        requires
            old(self).inv(),
            old(self).spec_len() < usize::MAX,
        ensures
            final(self).inv(),
            !old(self)@.contains_key(k),
            !old(self).key_known(k),
            final(self).key_known(k),
            forall|q: EntryKey| old(self).key_known(q) ==> final(self).key_known(q),
            final(self)@ == old(self)@.insert(k, value),
            final(self).spec_len() == old(self).spec_len() + 1,
    {
        loop
            invariant
                self.inv(),
                self.slots@ == old(self).slots@,
                self.live == old(self).live,
                old(self).spec_len() < usize::MAX,
            decreases self.free@.len(),
        {
            let ghost pre = *self;
            match self.free.pop() {
                Some(index) => {
                    let version = self.slots[index].version;
                    if version == u64::MAX {
                        // This slot cannot hand out a fresh version any
                        // more; retire it and look for another.
                        continue;
                    }
                    let k = EntryKey { index, version };
                    let slot = &mut self.slots[index];
                    slot.value = Some(value);
                    self.live += 1;
                    proof {
                        lemma_count_update(pre.slots@, index as int, self.slots@[index as int]);
                        assert(self.slots@ =~= pre.slots@.update(
                            index as int,
                            self.slots@[index as int],
                        ));
                        assert(self@ =~= old(self)@.insert(k, value)) by {
                            assert(forall|q: EntryKey| q != k ==> (old(self).key_live(q)
                                == self.key_live(q)));
                        }
                    }
                    return k;
                },
                None => {
                    let index = self.slots.len();
                    let k = EntryKey { index, version: 0 };
                    self.slots.push(Slot { version: 0, value: Some(value) });
                    self.live += 1;
                    proof {
                        lemma_count_push(pre.slots@, self.slots@.last());
                        assert(self@ =~= old(self)@.insert(k, value)) by {
                            assert(forall|q: EntryKey| q != k ==> (old(self).key_live(q)
                                == self.key_live(q)));
                        }
                    }
                    return k;
                },
            }
        }
    }

    /// Looks a key up.
    pub fn get(&self, k: EntryKey) -> (r: Option<&T>)
        ensures
            match r {
                Option::Some(v) => self@.contains_key(k) && *v == self@[k],
                Option::None => !self@.contains_key(k),
            },
    {
        if k.index < self.slots.len() {
            let slot = &self.slots[k.index];
            if slot.version == k.version {
                match &slot.value {
                    Some(v) => Option::Some(v),
                    None => Option::None,
                }
            } else {
                Option::None
            }
        } else {
            Option::None
        }
    }

    /// Whether the key addresses a live entry.
    pub fn contains(&self, k: EntryKey) -> (r: bool)
        ensures
            r == self@.contains_key(k),
    {
        match self.get(k) {
            Option::Some(_) => true,
            Option::None => false,
        }
    }

    /// Whether `k`'s slot is reserved for it: emptied by [`Arena::take`] and
    /// still awaiting [`Arena::put_back`].
    pub closed spec fn key_vacant(&self, k: EntryKey) -> bool {
        &&& k.index < self.slots@.len()
        &&& self.slots@[k.index as int].version == k.version
        &&& self.slots@[k.index as int].value is None
        &&& self.slots@[k.index as int].version < u64::MAX
        &&& forall|j: int| 0 <= j < self.free@.len() ==> (#[trigger] self.free@[j]) != k.index
    }

    /// Takes the value a key addresses out for modification, leaving the
    /// slot reserved so [`Arena::put_back`] can restore it under the same
    /// key.
    pub fn take(&mut self, k: EntryKey) -> (v: T)
        requires
            old(self).inv(),
            old(self)@.contains_key(k),
        ensures
            final(self).inv(),
            v == old(self)@[k],
            final(self)@ == old(self)@.remove(k),
            final(self).key_vacant(k),
            final(self).spec_len() == old(self).spec_len() - 1,
            forall|q: EntryKey| q != k && old(self).key_known(q) ==> final(self).key_known(q),
    {
        proof {
            lemma_count_pos(old(self).slots@, k.index as int);
        }
        let slot = &mut self.slots[k.index];
        let v = slot.value.take();
        self.live = self.live - 1;
        proof {
            lemma_count_update(old(self).slots@, k.index as int, self.slots@[k.index as int]);
            assert(self.slots@ =~= old(self).slots@.update(
                k.index as int,
                self.slots@[k.index as int],
            ));
            assert(final(self)@ =~= old(self)@.remove(k)) by {
                assert(forall|q: EntryKey| q != k ==> (old(self).key_live(q) == final(self).key_live(q)));
            }
            assert(forall|j: int| 0 <= j < old(self).free@.len() ==> (#[trigger] old(self).free@[j]) != k.index);
        }
        v.unwrap()
    }

    /// Restores a value to the slot [`Arena::take`] reserved for its key.
    pub fn put_back(&mut self, k: EntryKey, value: T)
        requires
            old(self).inv(),
            old(self).key_vacant(k),
            old(self).spec_len() < usize::MAX,
        ensures
            final(self).inv(),
            final(self)@ == old(self)@.insert(k, value),
            final(self).spec_len() == old(self).spec_len() + 1,
            final(self).key_known(k),
            forall|q: EntryKey| old(self).key_known(q) ==> final(self).key_known(q),
    {
        let slot = &mut self.slots[k.index];
        slot.value = Some(value);
        self.live = self.live + 1;
        proof {
            lemma_count_update(old(self).slots@, k.index as int, self.slots@[k.index as int]);
            assert(self.slots@ =~= old(self).slots@.update(
                k.index as int,
                self.slots@[k.index as int],
            ));
            assert(final(self)@ =~= old(self)@.insert(k, value)) by {
                assert(forall|q: EntryKey| q != k ==> (old(self).key_live(q) == final(self).key_live(q)));
            }
        }
    }

    /// Removes the value a key addresses, invalidating the key.
    pub fn remove(&mut self, k: EntryKey) -> (r: Option<T>)
        requires
            old(self).inv(),
        ensures
            final(self).inv(),
            forall|q: EntryKey| old(self).key_known(q) ==> final(self).key_known(q),
            match r {
                Option::Some(v) => old(self)@.contains_key(k) && v == old(self)@[k] && final(self)@ == old(self)@.remove(k) && final(self).spec_len() == old(self).spec_len() - 1,
                Option::None => !old(self)@.contains_key(k) && *final(self) == *old(self),
            },
    {
        if k.index >= self.slots.len() {
            return Option::None;
        }
        if self.slots[k.index].version != k.version || self.slots[k.index].value.is_none() {
            return Option::None;
        }
        proof {
            lemma_count_pos(self.slots@, k.index as int);
        }
        {
            let slot = &mut self.slots[k.index];
            let v = slot.value.take();
            slot.version = slot.version + 1;
            self.live = self.live - 1;
            self.free.push(k.index);
            proof {
                lemma_count_update(old(self).slots@, k.index as int, self.slots@[k.index as int]);
                assert(self.slots@ =~= old(self).slots@.update(
                    k.index as int,
                    self.slots@[k.index as int],
                ));
                assert(final(self)@ =~= old(self)@.remove(k)) by {
                    assert(forall|q: EntryKey| q != k ==> (old(self).key_live(q) == final(self).key_live(q)));
                }
                assert(forall|j: int| 0 <= j < old(self).free@.len() ==> #[trigger] old(self).free@[j] != k.index);
            }
            v
        }
    }
}

} // verus!
