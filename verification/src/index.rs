//! The in-memory index: from each live key to the record that holds its value.

use vstd::prelude::*;
use crate::pointer::Pointer;

verus! {

/// One live key and the place of its record.
#[derive(Debug)]
pub struct Entry {
    pub key: String,
    pub ptr: Pointer,
}

/// The keys that have a mapping, each with the pointer to its latest `Set`
/// record. A key occurs at most once.
///
/// The view is the map from keys to pointers. Entries are walked in the order
/// in which their keys first entered; `order` names that order.
pub struct Index {
    entries: Vec<Entry>,
}

impl View for Index {
    type V = Map<Seq<char>, Pointer>;

    closed spec fn view(&self) -> Map<Seq<char>, Pointer> {
        Map::new(
            |k: Seq<char>| self.order().contains(k),
            |k: Seq<char>| self.entries@[self.order().index_of(k)].ptr,
        )
    }
}

impl Index {
    /// No key occurs twice.
    pub closed spec fn wf(self) -> bool {
        self.order().no_duplicates()
    }

    /// The keys in the order in which a walk visits them.
    pub closed spec fn order(self) -> Seq<Seq<char>> {
        Seq::new(self.entries@.len(), |i: int| self.entries@[i].key@)
    }

    /// The walk order lists every key of the map once and nothing else.
    pub proof fn order_lists_keys(self)
        requires
            self.wf(),
        ensures
            self.order().no_duplicates(),
            forall|k: Seq<char>| self.order().contains(k) <==> #[trigger] self@.contains_key(k),
    {
    }

    proof fn slot_found(self, i: int)
        requires
            self.order().no_duplicates(),
            0 <= i < self.entries@.len(),
        ensures
            self@.contains_key(self.order()[i]),
            self@[self.order()[i]] == self.entries@[i].ptr,
            self.order().index_of(self.order()[i]) == i,
    {
        let k = self.order()[i];
        assert(self.order().contains(k));
        let j = self.order().index_of(k);
        assert(0 <= j < self.order().len() && self.order()[j] == k);
        if j != i {
            assert(self.order()[i] == self.order()[j]);
        }
    }

    /// An index without keys.
    pub fn new() -> (index: Index)
        ensures
            index.wf(),
            index@ == Map::<Seq<char>, Pointer>::empty(),
            index.order() == Seq::<Seq<char>>::empty(),
    {
        let index = Index { entries: Vec::new() };
        proof {
            assert(index.order() =~= Seq::<Seq<char>>::empty());
            assert forall|k: Seq<char>| !index@.contains_key(k) by {
                if index.order().contains(k) {
                    let j = index.order().index_of(k);
                    assert(0 <= j < index.order().len());
                }
            }
            assert(index@ =~= Map::<Seq<char>, Pointer>::empty());
        }
        index
    }

    /// The number of live keys.
    pub fn len(&self) -> (n: usize)
        ensures
            n == self.order().len(),
    {
        self.entries.len()
    }

    fn find(&self, key: &String) -> (slot: Option<usize>)
        ensures
            match slot {
                Some(i) => i < self.entries@.len() && self.order()[i as int] == key@,
                None => !self.order().contains(key@),
            },
    {
        let mut i: usize = 0;
        while i < self.entries.len()
            invariant
                i <= self.entries@.len(),
                forall|j: int| 0 <= j < i ==> self.order()[j] != key@,
            decreases self.entries@.len() - i,
        {
            if self.entries[i].key == *key {
                return Some(i);
            }
            i += 1;
        }
        proof {
            if self.order().contains(key@) {
                let j = self.order().index_of(key@);
                assert(0 <= j < self.order().len() && self.order()[j] == key@);
            }
        }
        None
    }

    /// The pointer of `key`, if the key is live.
    pub fn get(&self, key: &String) -> (found: Option<Pointer>)
        requires
            self.wf(),
        ensures
            found == (if self@.contains_key(key@) {
                Some(self@[key@])
            } else {
                None
            }),
    {
        match self.find(key) {
            Some(i) => {
                proof {
                    self.slot_found(i as int);
                }
                Some(self.entries[i].ptr)
            },
            None => None,
        }
    }

    /// Whether `key` is live.
    pub fn contains_key(&self, key: &String) -> (found: bool)
        requires
            self.wf(),
        ensures
            found == self@.contains_key(key@),
    {
        self.get(key).is_some()
    }

    /// Maps `key` to `ptr` and returns the pointer that it replaces, if any.
    /// A new key is walked last; a replaced key keeps its place.
    pub fn insert(&mut self, key: String, ptr: Pointer) -> (previous: Option<Pointer>)
        requires
            old(self).wf(),
        ensures
            final(self).wf(),
            final(self)@ == old(self)@.insert(key@, ptr),
            previous == (if old(self)@.contains_key(key@) {
                Some(old(self)@[key@])
            } else {
                None
            }),
            final(self).order() == (if old(self)@.contains_key(key@) {
                old(self).order()
            } else {
                old(self).order().push(key@)
            }),
    {
        let ghost before = *self;
        let slot = self.find(&key);
        match slot {
            Some(i) => {
                proof {
                    before.slot_found(i as int);
                }
                let previous = self.entries[i].ptr;
                self.entries.set(i, Entry { key, ptr });
                proof {
                    assert(self.order() =~= before.order());
                    assert forall|k: Seq<char>| #[trigger]
                        self@.contains_key(k) implies self@[k] == before@.insert(key@, ptr)[k] by {
                        let j = self.order().index_of(k);
                        assert(0 <= j < self.order().len() && self.order()[j] == k);
                    }
                    assert(self@ =~= before@.insert(key@, ptr));
                }
                Some(previous)
            },
            None => {
                self.entries.push(Entry { key, ptr });
                proof {
                    let n = before.entries@.len() as int;
                    assert(self.order() =~= before.order().push(key@));
                    assert(self.order().no_duplicates()) by {
                        assert forall|i: int, j: int|
                            0 <= i < self.order().len() && 0 <= j < self.order().len() && i
                                != j implies self.order()[i] != self.order()[j] by {
                            if i < n && j < n {
                                assert(before.order()[i] != before.order()[j]);
                            } else if i < n {
                                assert(before.order()[i] == self.order()[i]);
                                assert(before.order().contains(before.order()[i]));
                            } else if j < n {
                                assert(before.order()[j] == self.order()[j]);
                                assert(before.order().contains(before.order()[j]));
                            }
                        }
                    }
                    assert forall|k: Seq<char>|
                        self@.contains_key(k) == before@.insert(key@, ptr).contains_key(k) by {
                        if self.order().contains(k) {
                            let j = self.order().index_of(k);
                            assert(0 <= j < self.order().len() && self.order()[j] == k);
                            if j < n {
                                assert(before.order()[j] == k);
                            }
                        }
                        if before.order().contains(k) {
                            let j = before.order().index_of(k);
                            assert(0 <= j < n && before.order()[j] == k);
                            assert(self.order()[j] == k);
                        }
                        if k == key@ {
                            assert(self.order()[n] == k);
                        }
                    }
                    assert forall|k: Seq<char>| #[trigger]
                        self@.contains_key(k) implies self@[k] == before@.insert(key@, ptr)[k] by {
                        let j = self.order().index_of(k);
                        assert(0 <= j < self.order().len() && self.order()[j] == k);
                        if j < n {
                            assert(before.order()[j] == k);
                            before.slot_found(j);
                        }
                    }
                    assert(self@ =~= before@.insert(key@, ptr));
                }
                None
            },
        }
    }

    /// Erases `key` and returns the pointer that it had, if any. The other
    /// keys keep their order.
    pub fn remove(&mut self, key: &String) -> (previous: Option<Pointer>)
        requires
            old(self).wf(),
        ensures
            final(self).wf(),
            final(self)@ == old(self)@.remove(key@),
            previous == (if old(self)@.contains_key(key@) {
                Some(old(self)@[key@])
            } else {
                None
            }),
            final(self).order() == (if old(self)@.contains_key(key@) {
                old(self).order().remove(old(self).order().index_of(key@))
            } else {
                old(self).order()
            }),
    {
        let ghost before = *self;
        match self.find(key) {
            Some(i) => {
                proof {
                    before.slot_found(i as int);
                }
                let gone = self.entries.remove(i);
                proof {
                    let n = before.entries@.len() as int;
                    assert(self.order() =~= before.order().remove(i as int));
                    assert(self.order().no_duplicates()) by {
                        assert forall|a: int, b: int|
                            0 <= a < self.order().len() && 0 <= b < self.order().len() && a
                                != b implies self.order()[a] != self.order()[b] by {
                            let a0 = if a < i { a } else { a + 1 };
                            let b0 = if b < i { b } else { b + 1 };
                            assert(self.order()[a] == before.order()[a0]);
                            assert(self.order()[b] == before.order()[b0]);
                        }
                    }
                    assert forall|k: Seq<char>|
                        self@.contains_key(k) == before@.remove(key@).contains_key(k) by {
                        if self.order().contains(k) {
                            let j = self.order().index_of(k);
                            assert(0 <= j < self.order().len() && self.order()[j] == k);
                            let j0 = if j < i { j } else { j + 1 };
                            assert(before.order()[j0] == k);
                        }
                        if before.order().contains(k) && k != key@ {
                            let j = before.order().index_of(k);
                            assert(0 <= j < n && before.order()[j] == k);
                            let j1 = if j < i { j } else { j - 1 };
                            assert(self.order()[j1] == k);
                        }
                    }
                    assert forall|k: Seq<char>| #[trigger]
                        self@.contains_key(k) implies self@[k] == before@.remove(key@)[k] by {
                        let j = self.order().index_of(k);
                        assert(0 <= j < self.order().len() && self.order()[j] == k);
                        let j0 = if j < i { j } else { j + 1 };
                        assert(before.order()[j0] == k);
                        before.slot_found(j0);
                    }
                    assert(self@ =~= before@.remove(key@));
                }
                Some(gone.ptr)
            },
            None => {
                proof {
                    assert(self@ =~= before@.remove(key@));
                }
                None
            },
        }
    }

    /// The live keys with their pointers, in walk order.
    pub fn pairs(&self) -> (all: Vec<Entry>)
        requires
            self.wf(),
        ensures
            all@.len() == self.order().len(),
            forall|i: int|
                0 <= i < all@.len() ==> #[trigger] all@[i].key@ == self.order()[i] && all@[i].ptr
                    == self@[self.order()[i]],
    {
        let mut all: Vec<Entry> = Vec::new();
        let mut i: usize = 0;
        while i < self.entries.len()
            invariant
                i <= self.entries@.len(),
                self.order().no_duplicates(),
                all@.len() == i,
                forall|j: int|
                    0 <= j < i ==> #[trigger] all@[j].key@ == self.order()[j] && all@[j].ptr
                        == self@[self.order()[j]],
            decreases self.entries@.len() - i,
        {
            proof {
                self.slot_found(i as int);
            }
            all.push(Entry { key: self.entries[i].key.clone(), ptr: self.entries[i].ptr });
            i += 1;
        }
        all
    }
}

} // verus!
