//! The index of the store: for each key that is held, the place of the
//! entry that gave the key its value.

use crate::partition::LogPointer;
use crate::replay::is_listing;
use vstd::hash_map::StringHashMap;
use vstd::prelude::*;

verus! {

broadcast use vstd::hash_map::group_hash_map_axioms;

/// One key of the index, with the place of its entry.
pub struct IndexSlot {
    key: String,
    ptr: LogPointer,
}

/// The index. The keys are kept in a row, and a hash map leads from each key
/// to its position in the row.
pub struct Index {
    slots: Vec<IndexSlot>,
    positions: StringHashMap<usize>,
}

impl View for Index {
    type V = Map<Seq<char>, LogPointer>;

    closed spec fn view(&self) -> Map<Seq<char>, LogPointer> {
        Map::new(
            |key: Seq<char>| self.positions@.contains_key(key),
            |key: Seq<char>| self.slots@[self.positions@[key] as int].ptr,
        )
    }
}

impl Index {
    /// What always holds of an index: the hash map leads from each key of
    /// the row to its position, and holds nothing else.
    pub closed spec fn wf(&self) -> bool {
        &&& self.positions@.dom().finite()
        &&& forall|i: int|
            0 <= i < self.slots@.len() ==> self.positions@.contains_key(
                (#[trigger] self.slots@[i]).key@,
            ) && self.positions@[self.slots@[i].key@] == i
        &&& forall|key: Seq<char>| #[trigger]
            self.positions@.contains_key(key) ==> self.positions@[key] < self.slots@.len()
                && self.slots@[self.positions@[key] as int].key@ == key
    }

    /// The keys of the index, in the order of the row.
    pub closed spec fn order(&self) -> Seq<Seq<char>> {
        Seq::new(self.slots@.len(), |i: int| self.slots@[i].key@)
    }

    /// The row holds each key of the index once, and nothing else.
    pub proof fn lemma_order(&self)
        requires
            self.wf(),
        ensures
            self@.dom().finite(),
            self.order().len() == self@.dom().len(),
            forall|i: int|
                0 <= i < self.order().len() ==> self@.contains_key(#[trigger] self.order()[i]),
            forall|i: int, j: int|
                0 <= i < j < self.order().len() ==> #[trigger] self.order()[i]
                    != #[trigger] self.order()[j],
            forall|key: Seq<char>| #[trigger]
                self@.contains_key(key) ==> exists|i: int|
                    0 <= i < self.order().len() && self.order()[i] == key,
    {
        assert(self@.dom() =~= self.positions@.dom());
        assert forall|i: int| 0 <= i < self.order().len() implies self@.contains_key(
            #[trigger] self.order()[i],
        ) by {
            assert(self.positions@.contains_key(self.slots@[i].key@));
        }
        assert forall|i: int, j: int|
            0 <= i < j < self.order().len() implies #[trigger] self.order()[i]
            != #[trigger] self.order()[j] by {
            assert(self.positions@[self.slots@[i].key@] == i);
            assert(self.positions@[self.slots@[j].key@] == j);
        }
        assert forall|key: Seq<char>| #[trigger] self@.contains_key(key) implies exists|i: int|
            0 <= i < self.order().len() && self.order()[i] == key by {
            let i = self.positions@[key] as int;
            assert(self.order()[i] == key);
        }
        Self::lemma_count(self.order(), self@.dom());
    }

    /// A row that holds each key of a set once, and nothing else, is as long
    /// as the set is large.
    proof fn lemma_count(order: Seq<Seq<char>>, keys: Set<Seq<char>>)
        requires
            keys.finite(),
            forall|i: int| 0 <= i < order.len() ==> keys.contains(#[trigger] order[i]),
            forall|i: int, j: int|
                0 <= i < j < order.len() ==> #[trigger] order[i] != #[trigger] order[j],
            forall|key: Seq<char>| #[trigger]
                keys.contains(key) ==> exists|i: int| 0 <= i < order.len() && order[i] == key,
        ensures
            order.len() == keys.len(),
        decreases order.len(),
    {
        if order.len() == 0 {
            assert(keys =~= Set::empty());
        } else {
            let last = order.last();
            let rest = order.drop_last();
            let fewer = keys.remove(last);
            assert forall|key: Seq<char>| #[trigger] fewer.contains(key) implies exists|i: int|
                0 <= i < rest.len() && rest[i] == key by {
                let i = choose|i: int| 0 <= i < order.len() && order[i] == key;
                assert(rest[i] == key);
            }
            assert forall|i: int| 0 <= i < rest.len() implies fewer.contains(
                #[trigger] rest[i],
            ) by {
                assert(rest[i] == order[i]);
                assert(order[i] != order[order.len() - 1]);
            }
            assert forall|i: int, j: int| 0 <= i < j < rest.len() implies #[trigger] rest[i]
                != #[trigger] rest[j] by {
                assert(rest[i] == order[i]);
                assert(rest[j] == order[j]);
            }
            Self::lemma_count(rest, fewer);
            assert(keys.contains(order[order.len() - 1]));
        }
    }

    /// An index that holds no key.
    pub fn new() -> (index: Index)
        ensures
            index.wf(),
            index@ == Map::<Seq<char>, LogPointer>::empty(),
    {
        let index = Index { slots: Vec::new(), positions: StringHashMap::new() };
        assert(index@ =~= Map::<Seq<char>, LogPointer>::empty());
        index
    }

    /// The number of keys in the index.
    pub fn len(&self) -> (n: usize)
        requires
            self.wf(),
        ensures
            n == self@.dom().len(),
            self@.dom().finite(),
    {
        proof {
            self.lemma_order();
        }
        self.slots.len()
    }

    /// The place that the index holds for `key`.
    pub fn get(&self, key: &String) -> (r: Option<LogPointer>)
        requires
            self.wf(),
        ensures
            match r {
                Some(ptr) => self@.contains_key(key@) && self@[key@] == ptr,
                None => !self@.contains_key(key@),
            },
    {
        match self.positions.get(key.as_str()) {
            Some(i) => Some(self.slots[*i].ptr),
            None => None,
        }
    }

    /// Whether the index holds `key`.
    pub fn contains_key(&self, key: &String) -> (b: bool)
        requires
            self.wf(),
        ensures
            b == self@.contains_key(key@),
    {
        self.positions.contains_key(key.as_str())
    }

    /// Makes the index hold `ptr` for `key`, whether it held the key or not.
    pub fn insert(&mut self, key: String, ptr: LogPointer)
        requires
            old(self).wf(),
        ensures
            final(self).wf(),
            final(self)@ == old(self)@.insert(key@, ptr),
    {
        let found = match self.positions.get(key.as_str()) {
            Some(i) => Some(*i),
            None => None,
        };
        match found {
            Some(i) => {
                self.slots[i].ptr = ptr;
                proof {
                    assert forall|j: int|
                        0 <= j < self.slots@.len() implies self.positions@.contains_key(
                        (#[trigger] self.slots@[j]).key@,
                    ) && self.positions@[self.slots@[j].key@] == j by {
                        assert(self.slots@[j].key@ == old(self).slots@[j].key@);
                    }
                    assert(self@ =~= old(self)@.insert(key@, ptr));
                }
            },
            None => {
                let n = self.slots.len();
                self.positions.insert(key.clone(), n);
                self.slots.push(IndexSlot { key, ptr });
                proof {
                    assert forall|j: int|
                        0 <= j < self.slots@.len() implies self.positions@.contains_key(
                        (#[trigger] self.slots@[j]).key@,
                    ) && self.positions@[self.slots@[j].key@] == j by {
                        if j < n {
                            assert(self.slots@[j] == old(self).slots@[j]);
                        }
                    }
                    assert forall|k: Seq<char>| #[trigger]
                        self.positions@.contains_key(k) implies self.positions@[k]
                        < self.slots@.len() && self.slots@[self.positions@[k] as int].key@ == k by {
                        if k != key@ {
                            assert(old(self).positions@.contains_key(k));
                            let at = old(self).positions@[k] as int;
                            assert(self.slots@[at] == old(self).slots@[at]);
                        }
                    }
                    assert(self@ =~= old(self)@.insert(key@, ptr));
                }
            },
        }
    }

    /// Takes `key` out of the index. Returns whether the index held it.
    pub fn remove(&mut self, key: &String) -> (held: bool)
        requires
            old(self).wf(),
        ensures
            final(self).wf(),
            held == old(self)@.contains_key(key@),
            final(self)@ == old(self)@.remove(key@),
    {
        let found = match self.positions.get(key.as_str()) {
            Some(i) => Some(*i),
            None => None,
        };
        match found {
            None => {
                assert(self@ =~= old(self)@.remove(key@));
                false
            },
            Some(i) => {
                let last = self.slots.len() - 1;
                let _ = self.slots.swap_remove(i);
                self.positions.remove(key.as_str());
                if i != last {
                    let moved = self.slots[i].key.clone();
                    self.positions.insert(moved, i);
                }
                proof {
                    let before = old(self).slots@;
                    let after = self.slots@;
                    assert(before[i as int].key@ == key@);
                    assert forall|j: int| 0 <= j < after.len() implies self.positions@.contains_key(
                        (#[trigger] after[j]).key@,
                    ) && self.positions@[after[j].key@] == j by {
                        if j == i {
                            assert(after[j] == before[last as int]);
                        } else {
                            assert(after[j] == before[j]);
                            assert(old(self).positions@[before[j].key@] == j);
                            assert(old(self).positions@[before[last as int].key@] == last);
                        }
                    }
                    assert forall|k: Seq<char>| #[trigger]
                        self.positions@.contains_key(k) implies self.positions@[k] < after.len()
                        && after[self.positions@[k] as int].key@ == k by {
                        if i != last && k == before[last as int].key@ {
                            assert(after[i as int] == before[last as int]);
                        } else {
                            assert(old(self).positions@.contains_key(k));
                            let j = old(self).positions@[k] as int;
                            assert(before[j].key@ == k);
                            assert(j != i);
                            assert(j != last);
                            assert(after[j] == before[j]);
                        }
                    }
                    assert forall|k: Seq<char>| self@.contains_key(k) implies self@[k] == old(
                        self,
                    )@.remove(key@)[k] by {
                        if i != last && k == before[last as int].key@ {
                            assert(after[i as int] == before[last as int]);
                        } else {
                            let j = old(self).positions@[k] as int;
                            assert(before[j].key@ == k);
                            assert(j != last);
                            assert(after[j] == before[j]);
                        }
                    }
                    assert(self@ =~= old(self)@.remove(key@));
                }
                true
            },
        }
    }

    /// The places that the index holds, in the order of the row.
    pub fn pointers(&self) -> (ptrs: Vec<LogPointer>)
        requires
            self.wf(),
        ensures
            is_listing(self.order(), ptrs@, self@),
    {
        let mut ptrs: Vec<LogPointer> = Vec::new();
        let mut i: usize = 0;
        while i < self.slots.len()
            invariant
                self.wf(),
                i <= self.slots@.len(),
                ptrs@.len() == i,
                forall|j: int| 0 <= j < i ==> #[trigger] ptrs@[j] == self.slots@[j].ptr,
            decreases self.slots@.len() - i,
        {
            ptrs.push(self.slots[i].ptr);
            i = i + 1;
        }
        proof {
            self.lemma_order();
            assert forall|j: int| 0 <= j < ptrs@.len() implies ptrs@[j] == self@[(
            #[trigger] self.order()[j])] by {
                assert(self.positions@[self.slots@[j].key@] == j);
            }
        }
        ptrs
    }
}

} // verus!
