//! A directory from `u32` keys to slots of an arena: the keys are kept in
//! ascending order and found by binary search.

use vstd::prelude::*;

verus! {

/// Each key is below the next.
pub open spec fn ascending(keys: Seq<u32>) -> bool {
    forall|i: int, j: int| 0 <= i < j < keys.len() ==> keys[i] < keys[j]
}

/// Whether `key` occurs in `keys`.
pub open spec fn listed(keys: Seq<u32>, key: u32) -> bool {
    exists|i: int| 0 <= i < keys.len() && keys[i] == key
}

/// A place at which `key` occurs in `keys`.
pub open spec fn place_of(keys: Seq<u32>, key: u32) -> int {
    choose|i: int| 0 <= i < keys.len() && keys[i] == key
}

/// In an ascending sequence a key occurs at one place only.
pub proof fn lemma_place_of(keys: Seq<u32>, i: int)
    requires
        ascending(keys),
        0 <= i < keys.len(),
    ensures
        listed(keys, keys[i]),
        place_of(keys, keys[i]) == i,
{
    let p = place_of(keys, keys[i]);
    if p < i {
        assert(keys[p] < keys[i]);
    } else if i < p {
        assert(keys[i] < keys[p]);
    }
}

/// In an ascending sequence of `u32` keys, the key at a place is no smaller
/// than the place.
pub proof fn lemma_ascending_bound(keys: Seq<u32>, i: int)
    requires
        ascending(keys),
        0 <= i < keys.len(),
    ensures
        i <= keys[i],
    decreases i,
{
    if i > 0 {
        lemma_ascending_bound(keys, i - 1);
        assert(keys[i - 1] < keys[i]);
    }
}

/// A map from `u32` keys to slots.
#[derive(Debug)]
pub struct Directory {
    keys: Vec<u32>,
    slots: Vec<usize>,
}

impl View for Directory {
    type V = Map<u32, usize>;

    open spec fn view(&self) -> Map<u32, usize> {
        Map::new(
            |k: u32| listed(self.ordered_keys(), k),
            |k: u32| self.ordered_slots()[place_of(self.ordered_keys(), k)],
        )
    }
}

impl Directory {
    /// The keys, in ascending order.
    pub closed spec fn ordered_keys(&self) -> Seq<u32> {
        self.keys@
    }

    /// The slot of each key, in the order of the keys.
    pub closed spec fn ordered_slots(&self) -> Seq<usize> {
        self.slots@
    }

    /// Every key has its slot, and the keys ascend.
    pub open spec fn wf(&self) -> bool {
        &&& self.ordered_keys().len() == self.ordered_slots().len()
        &&& ascending(self.ordered_keys())
    }

    /// The key at each place of the order maps to the slot at that place.
    pub proof fn lemma_entry(&self, i: int)
        requires
            self.wf(),
            0 <= i < self.ordered_keys().len(),
        ensures
            self@.contains_key(self.ordered_keys()[i]),
            self@[self.ordered_keys()[i]] == self.ordered_slots()[i],
    {
        lemma_place_of(self.ordered_keys(), i);
    }

    /// The keys of the directory are those of the ascending order, each
    /// once.
    pub proof fn lemma_domain(&self)
        requires
            self.wf(),
        ensures
            self@.dom() == self.ordered_keys().to_set(),
            self@.dom().finite(),
            self@.dom().len() == self.ordered_keys().len(),
    {
        let keys = self.ordered_keys();
        assert(self@.dom() =~= keys.to_set());
        assert(keys.no_duplicates()) by {
            assert forall|i: int, j: int| 0 <= i < keys.len() && 0 <= j < keys.len() && i
                != j implies keys[i] != keys[j] by {
                if i < j {
                    assert(keys[i] < keys[j]);
                } else {
                    assert(keys[j] < keys[i]);
                }
            }
        }
        keys.unique_seq_to_set();
        vstd::seq_lib::seq_to_set_is_finite(keys);
    }

    /// A directory holds at most 2^32 keys.
    pub proof fn lemma_len_bound(&self)
        requires
            self.wf(),
        ensures
            self.ordered_keys().len() <= 0x1_0000_0000,
    {
        let n = self.ordered_keys().len() as int;
        if n > 0 {
            lemma_ascending_bound(self.ordered_keys(), n - 1);
        }
    }

    /// An empty directory.
    pub fn new() -> (d: Self)
        ensures
            d.wf(),
            d@ == Map::<u32, usize>::empty(),
            d.ordered_keys() == Seq::<u32>::empty(),
    {
        let d = Directory { keys: Vec::new(), slots: Vec::new() };
        proof {
            assert(d@ =~= Map::<u32, usize>::empty());
        }
        d
    }

    /// The number of keys.
    pub fn len(&self) -> (n: usize)
        requires
            self.wf(),
        ensures
            n == self.ordered_keys().len(),
    {
        self.keys.len()
    }

    /// The key at place `i` of the ascending order.
    pub fn key_at(&self, i: usize) -> (key: u32)
        requires
            self.wf(),
            i < self.ordered_keys().len(),
        ensures
            key == self.ordered_keys()[i as int],
            self@.contains_key(key),
    {
        proof {
            self.lemma_entry(i as int);
        }
        self.keys[i]
    }

    /// The number of keys that are below `key`.
    fn rank_of(&self, key: u32) -> (pos: usize)
        requires
            self.wf(),
        ensures
            pos <= self.ordered_keys().len(),
            forall|i: int| 0 <= i < pos ==> self.ordered_keys()[i] < key,
            forall|i: int| pos <= i < self.ordered_keys().len() ==> key <= self.ordered_keys()[i],
    {
        let mut lo: usize = 0;
        let mut hi: usize = self.keys.len();
        while lo < hi
            invariant
                self.wf(),
                lo <= hi <= self.keys@.len(),
                forall|i: int| 0 <= i < lo ==> self.keys@[i] < key,
                forall|i: int| hi <= i < self.keys@.len() ==> key <= self.keys@[i],
            decreases hi - lo,
        {
            let mid: usize = lo + (hi - lo) / 2;
            if self.keys[mid] < key {
                assert forall|i: int| 0 <= i < mid + 1 implies self.keys@[i] < key by {
                    if i < mid {
                        assert(self.keys@[i] < self.keys@[mid as int]);
                    }
                }
                lo = mid + 1;
            } else {
                assert forall|i: int| mid <= i < self.keys@.len() implies key <= self.keys@[i] by {
                    if mid < i {
                        assert(self.keys@[mid as int] < self.keys@[i]);
                    }
                }
                hi = mid;
            }
        }
        lo
    }

    /// The slot of `key`, if the directory holds the key.
    pub fn get(&self, key: u32) -> (slot: Option<usize>)
        requires
            self.wf(),
        ensures
            slot is Some <==> self@.contains_key(key),
            slot is Some ==> slot->Some_0 == self@[key],
    {
        let pos: usize = self.rank_of(key);
        if pos < self.keys.len() && self.keys[pos] == key {
            proof {
                self.lemma_entry(pos as int);
            }
            Some(self.slots[pos])
        } else {
            None
        }
    }

    /// Whether the directory holds `key`.
    pub fn contains_key(&self, key: u32) -> (found: bool)
        requires
            self.wf(),
        ensures
            found == self@.contains_key(key),
    {
        self.get(key).is_some()
    }

    /// Enters `key` with `slot`. The other entries stay, and the keys stay
    /// in ascending order.
    pub fn insert(&mut self, key: u32, slot: usize)
        requires
            old(self).wf(),
            !old(self)@.contains_key(key),
        ensures
            final(self).wf(),
            final(self)@ == old(self)@.insert(key, slot),
            final(self).ordered_keys().len() == old(self).ordered_keys().len() + 1,
            exists|pos: int|
                0 <= pos <= old(self).ordered_keys().len() && final(self).ordered_keys() == old(
                    self,
                ).ordered_keys().insert(pos, key),
    {
        let pos: usize = self.rank_of(key);
        let ghost keys0 = self.keys@;
        let ghost slots0 = self.slots@;
        let ghost before = *self;
        proof {
            if pos < keys0.len() && keys0[pos as int] == key {
                before.lemma_entry(pos as int);
            }
        }
        self.keys.insert(pos, key);
        self.slots.insert(pos, slot);
        proof {
            let keys1 = self.keys@;
            let slots1 = self.slots@;
            assert(keys1 == keys0.insert(pos as int, key));
            assert forall|i: int, j: int| 0 <= i < j < keys1.len() implies keys1[i] < keys1[j] by {
                if i < pos && j > pos {
                    assert(keys0[i] < key);
                    assert(key <= keys0[j - 1]);
                } else if i < pos && j < pos {
                    assert(keys0[i] < keys0[j]);
                } else if i > pos {
                    assert(keys0[i - 1] < keys0[j - 1]);
                } else if i == pos {
                    assert(key <= keys0[j - 1]);
                    assert(keys0[j - 1] != key) by {
                        before.lemma_entry(j - 1);
                    }
                } else {
                    assert(j == pos);
                    assert(keys0[i] < key);
                }
            }
            assert forall|k: u32| self@.contains_key(k) <==> #[trigger] before@.insert(
                key,
                slot,
            ).contains_key(k) by {
                if listed(keys1, k) {
                    let i = place_of(keys1, k);
                    if i < pos {
                        assert(keys0[i] == k);
                    } else if i > pos {
                        assert(keys0[i - 1] == k);
                    }
                }
                if listed(keys0, k) {
                    let i = place_of(keys0, k);
                    if i < pos {
                        assert(keys1[i] == k);
                    } else {
                        assert(keys1[i + 1] == k);
                    }
                }
                if k == key {
                    assert(keys1[pos as int] == k);
                }
            }
            assert forall|k: u32| self@.contains_key(k) implies #[trigger] self@[k]
                == before@.insert(key, slot)[k] by {
                let i = place_of(keys1, k);
                lemma_place_of(keys1, i);
                if i < pos {
                    lemma_place_of(keys0, i);
                    assert(slots1[i] == slots0[i]);
                } else if i > pos {
                    lemma_place_of(keys0, i - 1);
                    assert(keys0[i - 1] == k);
                    assert(slots1[i] == slots0[i - 1]);
                } else {
                    assert(slots1[i] == slot);
                }
            }
            assert(self@ =~= before@.insert(key, slot));
        }
    }
}

} // verus!
