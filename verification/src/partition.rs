//! Disjoint sets of `u32` keys: a directory from keys to the slots of a
//! forest, with union by rank and path compression underneath.

use crate::directory::Directory;
use crate::forest::{compressed, compressed_twice, lemma_root_of, loser, winner, Forest};
use crate::forest::{lemma_roots_bound, roots};
use vstd::prelude::*;
use vstd::relations::injective_on;
use vstd::set_lib::{lemma_len_subset, lemma_map_size};

verus! {

/// A partition as its users see it: the root of each key's set, the rank of
/// each key, and the number of sets.
pub struct PartitionView {
    pub root: Map<u32, u32>,
    pub rank: Map<u32, u32>,
    pub count: int,
}

impl PartitionView {
    /// The partition of no keys.
    pub open spec fn empty() -> Self {
        PartitionView { root: Map::empty(), rank: Map::empty(), count: 0 }
    }

    /// Whether `key` is registered.
    pub open spec fn contains(self, key: u32) -> bool {
        self.root.contains_key(key)
    }

    /// The keys that are their own root: one for each set.
    pub open spec fn roots(self) -> Set<u32> {
        Set::new(|k: u32| self.root.contains_key(k) && self.root[k] == k)
    }

    /// The keys are finitely many and every key has a rank; the root of a
    /// key is a registered key that is its own root; and the count is the
    /// number of roots.
    pub open spec fn wf(self) -> bool {
        &&& self.root.dom().finite()
        &&& self.count == self.roots().len()
        &&& self.rank.dom() == self.root.dom()
        &&& forall|k: u32|
            self.root.contains_key(k) ==> self.root.contains_key(#[trigger] self.root[k])
                && self.root[self.root[k]] == self.root[k]
    }

    /// Whether `a` and `b` are in one set.
    pub open spec fn same_set(self, a: u32, b: u32) -> bool {
        self.root[a] == self.root[b]
    }

    /// The partition with `key` added as a set of its own, of rank 1.
    pub open spec fn with_singleton(self, key: u32) -> Self {
        PartitionView {
            root: self.root.insert(key, key),
            rank: self.rank.insert(key, 1u32),
            count: self.count + 1,
        }
    }

    /// The root that stays a root when the sets of `a` and `b` are united:
    /// the one of higher rank, and the root of `a` on a tie.
    pub open spec fn winner(self, a: u32, b: u32) -> u32 {
        if self.rank[self.root[a]] >= self.rank[self.root[b]] {
            self.root[a]
        } else {
            self.root[b]
        }
    }

    /// The root that is attached under the other when the sets of `a` and
    /// `b` are united.
    pub open spec fn loser(self, a: u32, b: u32) -> u32 {
        if self.rank[self.root[a]] >= self.rank[self.root[b]] {
            self.root[b]
        } else {
            self.root[a]
        }
    }

    /// Whether uniting the sets of `a` and `b` raises the winner's rank:
    /// the sets are distinct and their roots have one rank.
    pub open spec fn raises_rank(self, a: u32, b: u32) -> bool {
        self.root[a] != self.root[b] && self.rank[self.root[a]] == self.rank[self.root[b]]
    }

    /// Uniting the sets of `a` and `b` pushes no rank past `u32::MAX`.
    pub open spec fn union_fits(self, a: u32, b: u32) -> bool {
        self.raises_rank(a, b) ==> self.rank[self.root[a]] < u32::MAX
    }

    /// The partition after the sets of `a` and `b` are united. Nothing
    /// changes when they are one set already. Otherwise the keys of the
    /// loser's set get the winner as their root, the winner's rank grows by
    /// one if both roots had one rank, and there is one set fewer.
    pub open spec fn union(self, a: u32, b: u32) -> Self {
        if self.same_set(a, b) {
            self
        } else {
            let w = self.winner(a, b);
            let l = self.loser(a, b);
            PartitionView {
                root: Map::new(
                    |k: u32| self.root.contains_key(k),
                    |k: u32|
                        if self.root[k] == l {
                            w
                        } else {
                            self.root[k]
                        },
                ),
                rank: if self.raises_rank(a, b) {
                    self.rank.insert(w, (self.rank[w] + 1) as u32)
                } else {
                    self.rank
                },
                count: self.count - 1,
            }
        }
    }

    /// A union keeps a well-formed partition well-formed, over the same
    /// keys.
    pub proof fn lemma_union_wf(self, a: u32, b: u32)
        requires
            self.wf(),
            self.contains(a),
            self.contains(b),
        ensures
            self.union(a, b).wf(),
            self.union(a, b).root.dom() == self.root.dom(),
            !self.same_set(a, b) ==> {
                &&& self.winner(a, b) != self.loser(a, b)
                &&& self.contains(self.winner(a, b))
                &&& self.contains(self.loser(a, b))
                &&& self.root[self.winner(a, b)] == self.winner(a, b)
                &&& self.root[self.loser(a, b)] == self.loser(a, b)
            },
    {
        let after = self.union(a, b);
        assert(self.contains(self.root[a]) && self.root[self.root[a]] == self.root[a]);
        assert(self.contains(self.root[b]) && self.root[self.root[b]] == self.root[b]);
        assert(after.root.dom() =~= self.root.dom());
        assert(after.rank.dom() =~= self.rank.dom());
        if !self.same_set(a, b) {
            let w = self.winner(a, b);
            let l = self.loser(a, b);
            assert forall|k: u32| after.root.contains_key(k) implies after.root.contains_key(
                #[trigger] after.root[k],
            ) && after.root[after.root[k]] == after.root[k] by {
                assert(self.contains(self.root[k]) && self.root[self.root[k]] == self.root[k]);
            }
            self.lemma_roots_finite();
            assert(after.roots() =~= self.roots().remove(l)) by {
                assert forall|k: u32| after.roots().contains(k) <==> self.roots().remove(
                    l,
                ).contains(k) by {
                    if self.root.contains_key(k) {
                        assert(self.contains(self.root[k]));
                    }
                }
            }
            assert(self.roots().contains(l));
        }
    }

    /// The roots are finitely many.
    pub proof fn lemma_roots_finite(self)
        requires
            self.root.dom().finite(),
        ensures
            self.roots().finite(),
            self.roots().len() <= self.root.dom().len(),
    {
        lemma_len_subset(self.roots(), self.root.dom());
    }

    /// A key that is registered as a set of its own keeps a well-formed
    /// partition well-formed.
    pub proof fn lemma_with_singleton_wf(self, key: u32)
        requires
            self.wf(),
            !self.contains(key),
        ensures
            self.with_singleton(key).wf(),
    {
        let after = self.with_singleton(key);
        self.lemma_roots_finite();
        assert(after.rank.dom() =~= after.root.dom());
        assert(after.roots() =~= self.roots().insert(key));
        assert forall|k: u32| after.root.contains_key(k) implies after.root.contains_key(
            #[trigger] after.root[k],
        ) && after.root[after.root[k]] == after.root[k] by {
            if k != key {
                assert(self.contains(self.root[k]));
            }
        }
    }

    /// Keys that are in one set stay in one set through a union.
    pub proof fn lemma_union_keeps_together(self, a: u32, b: u32, x: u32, y: u32)
        requires
            self.contains(x),
            self.contains(y),
            self.same_set(x, y),
        ensures
            self.union(a, b).same_set(x, y),
    {
    }

    /// Uniting two keys is uniting their roots.
    pub proof fn lemma_union_of_roots(self, a: u32, b: u32)
        requires
            self.wf(),
            self.contains(a),
            self.contains(b),
        ensures
            self.union(self.root[a], self.root[b]) == self.union(a, b),
    {
        assert(self.contains(self.root[a]) && self.root[self.root[a]] == self.root[a]);
        assert(self.contains(self.root[b]) && self.root[self.root[b]] == self.root[b]);
    }
}

/// Disjoint sets of `u32` keys.
#[derive(Debug)]
pub struct Partition {
    index: Directory,
    keys: Vec<u32>,
    forest: Forest,
}

impl View for Partition {
    type V = PartitionView;

    open spec fn view(&self) -> PartitionView {
        PartitionView {
            root: Map::new(|k: u32| self.contains(k), |k: u32| self.root(k)),
            rank: Map::new(|k: u32| self.contains(k), |k: u32| self.rank(k)),
            count: self.links().sets(),
        }
    }
}

impl Partition {
    /// The directory from each key to its slot.
    pub closed spec fn directory(&self) -> Directory {
        self.index
    }

    /// The key of each slot.
    pub closed spec fn slot_keys(&self) -> Seq<u32> {
        self.keys@
    }

    /// The forest over the slots.
    pub closed spec fn links(&self) -> Forest {
        self.forest
    }

    /// Keys and slots correspond one to one, and the slots form a forest.
    pub open spec fn wf(&self) -> bool {
        &&& self.directory().wf()
        &&& self.links().wf()
        &&& self.slot_keys().len() == self.links().size()
        &&& self.slot_keys().len() == self.directory().ordered_keys().len()
        &&& forall|s: int|
            0 <= s < self.slot_keys().len() ==> self.directory()@.contains_key(
                #[trigger] self.slot_keys()[s],
            ) && self.directory()@[self.slot_keys()[s]] == s
        &&& forall|k: u32|
            self.directory()@.contains_key(k) ==> 0 <= #[trigger] self.directory()@[k]
                < self.slot_keys().len() && self.slot_keys()[self.directory()@[k] as int] == k
    }

    /// Whether `key` is registered.
    pub open spec fn contains(&self, key: u32) -> bool {
        self.directory()@.contains_key(key)
    }

    /// The slot of a registered key.
    pub open spec fn slot(&self, key: u32) -> int {
        self.directory()@[key] as int
    }

    /// The number of registered keys.
    pub open spec fn size(&self) -> nat {
        self.slot_keys().len()
    }

    /// The root of the set that holds `key`.
    pub open spec fn root(&self, key: u32) -> u32 {
        self.slot_keys()[self.links().root(self.slot(key))]
    }

    /// The rank of `key`.
    pub open spec fn rank(&self, key: u32) -> u32 {
        self.links().ranks()[self.slot(key)]
    }

    /// The key that `key` links to: itself, for a root.
    pub open spec fn parent(&self, key: u32) -> u32 {
        self.slot_keys()[self.links().parents()[self.slot(key)] as int]
    }

    /// The slot that each slot links to; a root links to itself.
    pub open spec fn pointers(&self) -> Seq<usize> {
        self.links().parents()
    }

    /// The links after path compression from `slot`: every slot on the way
    /// from `slot` to its root links straight to the root.
    pub open spec fn compressed_from(&self, slot: int) -> Seq<usize> {
        compressed(self.links().parents(), self.links().ranks(), slot)
    }

    /// The links after path compression from slot `a` and then from slot
    /// `b`.
    pub open spec fn compressed_from_both(&self, a: int, b: int) -> Seq<usize> {
        compressed_twice(self.links().parents(), self.links().ranks(), a, b)
    }

    /// Ranks are no higher than unions can have made them.
    pub open spec fn balanced(&self) -> bool {
        self.links().balanced()
    }

    /// The same keys in the same slots.
    pub open spec fn same_keys(&self, other: &Self) -> bool {
        &&& self.directory() == other.directory()
        &&& self.slot_keys() == other.slot_keys()
    }

    /// The root of a registered key is a registered key that is its own
    /// root, and its slot is the root of the key's slot.
    pub proof fn lemma_root(&self, key: u32)
        requires
            self.wf(),
            self.contains(key),
        ensures
            self.contains(self.root(key)),
            self.root(self.root(key)) == self.root(key),
            self.slot(self.root(key)) == self.links().root(self.slot(key)),
            0 <= self.slot(self.root(key)) < self.size(),
            self.rank(key) <= self.rank(self.root(key)),
            self.parent(key) == key <==> self.root(key) == key,
    {
        lemma_root_of(self.links().parents(), self.links().ranks(), self.slot(key));
        let r = self.links().root(self.slot(key));
        lemma_root_of(self.links().parents(), self.links().ranks(), r);
        assert(self.slot(self.slot_keys()[r]) == r);
        let p = self.links().parents()[self.slot(key)] as int;
        assert(self.slot(self.slot_keys()[p]) == p);
    }

    /// The registered keys are finitely many: as many as there are slots.
    pub proof fn lemma_domain(&self)
        requires
            self.wf(),
        ensures
            self@.root.dom().finite(),
            self@.root.dom().len() == self.size(),
    {
        self.directory().lemma_domain();
        assert(self@.root.dom() =~= self.directory()@.dom());
    }

    /// The view of a well-formed partition is well-formed.
    pub proof fn lemma_view_wf(&self)
        requires
            self.wf(),
        ensures
            self@.wf(),
    {
        self.lemma_domain();
        let parents = self.links().parents();
        let ranks = self.links().ranks();
        let keys = self.slot_keys();
        let key_of = |s: int| keys[s];
        lemma_roots_bound(parents);
        assert(injective_on(key_of, roots(parents))) by {
            assert forall|s: int, t: int|
                roots(parents).contains(s) && roots(parents).contains(t) && #[trigger] key_of(s)
                    == #[trigger] key_of(t) implies s == t by {
                assert(self.slot(keys[s]) == s);
                assert(self.slot(keys[t]) == t);
            }
        }
        assert(roots(parents).map(key_of) =~= self@.roots()) by {
            assert forall|k: u32| roots(parents).map(key_of).contains(k) <==> self@.roots().contains(
                k,
            ) by {
                if roots(parents).map(key_of).contains(k) {
                    let s = choose|s: int| roots(parents).contains(s) && key_of(s) == k;
                    assert(self.slot(keys[s]) == s);
                    lemma_root_of(parents, ranks, s);
                }
                if self@.roots().contains(k) {
                    let s = self.slot(k);
                    lemma_root_of(parents, ranks, s);
                    let r = self.links().root(s);
                    assert(self.slot(keys[r]) == r);
                    assert(roots(parents).contains(s));
                    assert(key_of(s) == k);
                }
            }
        }
        lemma_map_size(roots(parents), self@.roots(), key_of);
        assert(self@.rank.dom() =~= self@.root.dom());
        assert forall|k: u32| self@.root.contains_key(k) implies self@.root.contains_key(
            #[trigger] self@.root[k],
        ) && self@.root[self@.root[k]] == self@.root[k] by {
            self.lemma_root(k);
        }
    }

    /// In a balanced partition every union fits.
    pub proof fn lemma_balanced_fits(&self, a: u32, b: u32)
        requires
            self.wf(),
            self.balanced(),
            self.contains(a),
            self.contains(b),
        ensures
            self@.union_fits(a, b),
    {
        self.directory().lemma_len_bound();
        self.links().lemma_balanced_fits(self.slot(a), self.slot(b));
        self.lemma_root(a);
        self.lemma_root(b);
    }

    /// The partition of no keys.
    pub fn new() -> (p: Self)
        ensures
            p.wf(),
            p.balanced(),
            p@ == PartitionView::empty(),
            p.size() == 0,
            p.directory().ordered_keys() == Seq::<u32>::empty(),
    {
        let p = Partition { index: Directory::new(), keys: Vec::new(), forest: Forest::new() };
        proof {
            assert(p@.root =~= Map::<u32, u32>::empty());
            assert(p@.rank =~= Map::<u32, u32>::empty());
        }
        p
    }

    /// The number of registered keys.
    pub fn len(&self) -> (n: usize)
        requires
            self.wf(),
        ensures
            n == self.size(),
    {
        self.keys.len()
    }

    /// The number of disjoint sets.
    pub fn count(&self) -> (n: usize)
        ensures
            n == self@.count,
    {
        self.forest.set_count()
    }

    /// Whether `key` is registered.
    pub fn contains_key(&self, key: u32) -> (found: bool)
        requires
            self.wf(),
        ensures
            found == self.contains(key),
    {
        self.index.contains_key(key)
    }

    /// The slot of `key`, if it is registered.
    pub fn slot_of(&self, key: u32) -> (slot: Option<usize>)
        requires
            self.wf(),
        ensures
            slot is Some <==> self.contains(key),
            slot is Some ==> slot->Some_0 == self.slot(key) && slot->Some_0 < self.size(),
    {
        self.index.get(key)
    }

    /// The key of a slot.
    pub fn key_of(&self, slot: usize) -> (key: u32)
        requires
            self.wf(),
            slot < self.size(),
        ensures
            key == self.slot_keys()[slot as int],
            self.contains(key),
            self.slot(key) == slot,
    {
        self.keys[slot]
    }

    /// The registered key at place `i` of the ascending order of the keys.
    pub fn key_in_order(&self, i: usize) -> (key: u32)
        requires
            self.wf(),
            i < self.size(),
        ensures
            key == self.directory().ordered_keys()[i as int],
            self.contains(key),
    {
        self.index.key_at(i)
    }

    /// Registers `key` as a set of its own, of rank 1, and returns its slot.
    pub fn insert(&mut self, key: u32) -> (slot: usize)
        requires
            old(self).wf(),
            !old(self).contains(key),
        ensures
            final(self).wf(),
            final(self)@ == old(self)@.with_singleton(key),
            slot == old(self).size(),
            final(self).slot_keys() == old(self).slot_keys().push(key),
            final(self).pointers() == old(self).pointers().push(slot),
            final(self).directory()@ == old(self).directory()@.insert(key, slot),
            exists|pos: int|
                0 <= pos <= old(self).size() && final(self).directory().ordered_keys() == old(
                    self,
                ).directory().ordered_keys().insert(pos, key),
            old(self).balanced() ==> final(self).balanced(),
    {
        let ghost before = *self;
        let slot: usize = self.forest.add();
        self.keys.push(key);
        self.index.insert(key, slot);
        proof {
            assert forall|k: u32| self.contains(k) implies 0 <= #[trigger] self.directory()@[k]
                < self.slot_keys().len() && self.slot_keys()[self.directory()@[k] as int]
                == k by {
                if k != key {
                    assert(before.directory()@.contains_key(k));
                }
            }
            assert forall|k: u32| before.contains(k) implies self.root(k) == before.root(k) by {
                lemma_root_of(before.links().parents(), before.links().ranks(), before.slot(k));
            }
            assert(self.root(key) == key);
            assert(self@.root =~= before@.with_singleton(key).root);
            assert(self@.rank =~= before@.with_singleton(key).rank);
        }
        slot
    }

    /// The slot of the root of the set that holds the key of `slot`. Links
    /// are shortened on the way; no set, rank or key changes.
    pub fn find_slot(&mut self, slot: usize) -> (r: usize)
        requires
            old(self).wf(),
            slot < old(self).size(),
        ensures
            final(self).wf(),
            final(self).same_keys(old(self)),
            final(self)@ == old(self)@,
            final(self).pointers() == old(self).compressed_from(slot as int),
            r < old(self).size(),
            r == old(self).slot(old(self).root(old(self).slot_keys()[slot as int])),
            old(self).slot_keys()[r as int] == old(self).root(old(self).slot_keys()[slot as int]),
            old(self).balanced() ==> final(self).balanced(),
    {
        let ghost before = *self;
        let r: usize = self.forest.find(slot);
        proof {
            assert(before.slot(before.slot_keys()[slot as int]) == slot);
            assert(before.slot(before.slot_keys()[r as int]) == r);
            assert(self@.root =~= before@.root);
            assert(self@.rank =~= before@.rank);
        }
        r
    }

    /// The root of the set that holds `key`. Links are shortened on the way;
    /// no set, rank or key changes.
    pub fn find(&mut self, key: u32) -> (root: u32)
        requires
            old(self).wf(),
            old(self).contains(key),
        ensures
            final(self).wf(),
            final(self).same_keys(old(self)),
            final(self)@ == old(self)@,
            final(self).pointers() == old(self).compressed_from(old(self).slot(key)),
            root == old(self)@.root[key],
            old(self).balanced() ==> final(self).balanced(),
    {
        let slot: usize = self.index.get(key).unwrap();
        let r: usize = self.find_slot(slot);
        self.keys[r]
    }

    /// The root of the set that holds `key`, found without touching the
    /// links.
    pub fn root_key(&self, key: u32) -> (root: u32)
        requires
            self.wf(),
            self.contains(key),
        ensures
            root == self@.root[key],
    {
        let slot: usize = self.index.get(key).unwrap();
        let r: usize = self.forest.root_at(slot);
        self.keys[r]
    }

    /// The key that `key` links to: itself, for a root.
    pub fn parent_key(&self, key: u32) -> (parent: u32)
        requires
            self.wf(),
            self.contains(key),
        ensures
            parent == self.parent(key),
    {
        let slot: usize = self.index.get(key).unwrap();
        let p: usize = self.forest.parent_of(slot);
        self.keys[p]
    }

    /// The rank of `key`.
    pub fn rank_of(&self, key: u32) -> (rank: u32)
        requires
            self.wf(),
            self.contains(key),
        ensures
            rank == self@.rank[key],
    {
        let slot: usize = self.index.get(key).unwrap();
        self.forest.rank_of(slot)
    }

    /// Raises the rank of the root `key` by one. No set changes.
    pub fn bump_rank(&mut self, key: u32)
        requires
            old(self).wf(),
            old(self).contains(key),
            old(self)@.root[key] == key,
            old(self)@.rank[key] < u32::MAX,
        ensures
            final(self).wf(),
            final(self).same_keys(old(self)),
            final(self).pointers() == old(self).pointers(),
            final(self)@.root == old(self)@.root,
            final(self)@.rank == old(self)@.rank.insert(key, (old(self)@.rank[key] + 1) as u32),
            final(self)@.count == old(self)@.count,
    {
        let ghost before = *self;
        let slot: usize = self.index.get(key).unwrap();
        proof {
            before.lemma_root(key);
        }
        self.forest.bump_rank(slot);
        proof {
            assert(self@.root =~= before@.root);
            assert forall|k: u32| self.contains(k) implies #[trigger] self.rank(k)
                == before@.rank.insert(key, (before@.rank[key] + 1) as u32)[k] by {
                if k != key {
                    assert(before.slot(k) != slot);
                }
            }
            assert(self@.rank =~= before@.rank.insert(key, (before@.rank[key] + 1) as u32));
        }
    }

    /// Whether the keys of slots `a` and `b` are in one set.
    pub fn same_set_slots(&mut self, a: usize, b: usize) -> (same: bool)
        requires
            old(self).wf(),
            a < old(self).size(),
            b < old(self).size(),
        ensures
            final(self).wf(),
            final(self).same_keys(old(self)),
            final(self)@ == old(self)@,
            final(self).pointers() == old(self).compressed_from_both(a as int, b as int),
            same == old(self)@.same_set(old(self).slot_keys()[a as int], old(self).slot_keys()[b as int]),
            old(self).balanced() ==> final(self).balanced(),
    {
        let ghost before = *self;
        let same = self.forest.same_set(a, b);
        proof {
            lemma_root_of(before.links().parents(), before.links().ranks(), a as int);
            lemma_root_of(before.links().parents(), before.links().ranks(), b as int);
            let ra = before.links().root(a as int);
            let rb = before.links().root(b as int);
            assert(before.slot(before.slot_keys()[a as int]) == a);
            assert(before.slot(before.slot_keys()[b as int]) == b);
            assert(before.slot(before.slot_keys()[ra]) == ra);
            assert(before.slot(before.slot_keys()[rb]) == rb);
            assert(self@.root =~= before@.root);
            assert(self@.rank =~= before@.rank);
        }
        same
    }

    /// Whether `a` and `b` are in one set.
    pub fn same_set(&mut self, a: u32, b: u32) -> (same: bool)
        requires
            old(self).wf(),
            old(self).contains(a),
            old(self).contains(b),
        ensures
            final(self).wf(),
            final(self).same_keys(old(self)),
            final(self)@ == old(self)@,
            final(self).pointers() == old(self).compressed_from_both(
                old(self).slot(a),
                old(self).slot(b),
            ),
            same == old(self)@.same_set(a, b),
            old(self).balanced() ==> final(self).balanced(),
    {
        let sa: usize = self.index.get(a).unwrap();
        let sb: usize = self.index.get(b).unwrap();
        self.same_set_slots(sa, sb)
    }

    /// Unites the sets that hold the keys of slots `a` and `b`. Returns
    /// `None` when they were one set already; otherwise the slot of the root
    /// that took the other set in, followed by the slot of the root that was
    /// attached under it.
    pub fn union_slots(&mut self, a: usize, b: usize) -> (joined: Option<(usize, usize)>)
        requires
            old(self).wf(),
            a < old(self).size(),
            b < old(self).size(),
            old(self)@.union_fits(old(self).slot_keys()[a as int], old(self).slot_keys()[b as int]),
        ensures
            final(self).wf(),
            final(self).same_keys(old(self)),
            final(self)@ == old(self)@.union(
                old(self).slot_keys()[a as int],
                old(self).slot_keys()[b as int],
            ),
            joined == (if old(self)@.same_set(
                old(self).slot_keys()[a as int],
                old(self).slot_keys()[b as int],
            ) {
                None
            } else {
                Some(
                    (
                        old(self).slot(
                            old(self)@.winner(
                                old(self).slot_keys()[a as int],
                                old(self).slot_keys()[b as int],
                            ),
                        ) as usize,
                        old(self).slot(
                            old(self)@.loser(
                                old(self).slot_keys()[a as int],
                                old(self).slot_keys()[b as int],
                            ),
                        ) as usize,
                    ),
                )
            }),
            joined is Some ==> joined->Some_0.0 < old(self).size() && joined->Some_0.1 < old(
                self,
            ).size(),
            final(self).pointers() == (match joined {
                Some((w, l)) => old(self).compressed_from_both(a as int, b as int).update(
                    l as int,
                    w,
                ),
                None => old(self).compressed_from_both(a as int, b as int),
            }),
            old(self).balanced() ==> final(self).balanced(),
    {
        let ghost before = *self;
        let ghost ka = before.slot_keys()[a as int];
        let ghost kb = before.slot_keys()[b as int];
        proof {
            before.lemma_root(ka);
            before.lemma_root(kb);
            assert(before.slot(ka) == a);
            assert(before.slot(kb) == b);
        }
        let joined = self.forest.union(a, b);
        proof {
            let ra = before.links().root(a as int);
            let rb = before.links().root(b as int);
            assert(before.slot(before.slot_keys()[ra]) == ra);
            assert(before.slot(before.slot_keys()[rb]) == rb);
            if ra == rb {
                assert(self@.root =~= before@.root);
                assert(self@.rank =~= before@.rank);
            } else {
                let w = winner(before.links().ranks(), ra, rb);
                let l = loser(before.links().ranks(), ra, rb);
                let kw = before@.winner(ka, kb);
                let kl = before@.loser(ka, kb);
                assert(before.slot_keys()[w] == kw);
                assert(before.slot_keys()[l] == kl);
                let target = before@.union(ka, kb);
                assert forall|k: u32| self.contains(k) implies #[trigger] self.root(k)
                    == target.root[k] by {
                    before.lemma_root(k);
                    let rk = before.links().root(before.slot(k));
                    assert(before.slot(before.slot_keys()[rk]) == rk);
                }
                assert(self@.root =~= target.root);
                assert forall|k: u32| self.contains(k) implies #[trigger] self.rank(k)
                    == target.rank[k] by {
                    if k != kw {
                        assert(before.slot(k) != w);
                    }
                }
                assert(self@.rank =~= target.rank);
            }
        }
        joined
    }

    /// Unites the sets of `a` and `b`. Returns `None` when they were one set
    /// already; otherwise the slot of the root that took the other set in,
    /// followed by the slot of the root that was attached under it.
    pub fn union(&mut self, a: u32, b: u32) -> (joined: Option<(usize, usize)>)
        requires
            old(self).wf(),
            old(self).contains(a),
            old(self).contains(b),
            old(self)@.union_fits(a, b),
        ensures
            final(self).wf(),
            final(self).same_keys(old(self)),
            final(self)@ == old(self)@.union(a, b),
            joined == (if old(self)@.same_set(a, b) {
                None
            } else {
                Some(
                    (
                        old(self).slot(old(self)@.winner(a, b)) as usize,
                        old(self).slot(old(self)@.loser(a, b)) as usize,
                    ),
                )
            }),
            joined is Some ==> joined->Some_0.0 < old(self).size() && joined->Some_0.1 < old(
                self,
            ).size(),
            final(self).pointers() == (match joined {
                Some((w, l)) => old(self).compressed_from_both(
                    old(self).slot(a),
                    old(self).slot(b),
                ).update(l as int, w),
                None => old(self).compressed_from_both(old(self).slot(a), old(self).slot(b)),
            }),
            old(self).balanced() ==> final(self).balanced(),
    {
        let sa: usize = self.index.get(a).unwrap();
        let sb: usize = self.index.get(b).unwrap();
        self.union_slots(sa, sb)
    }
}

} // verus!
