//! Neighbour-distance clustering of fixed-width binary codes: the groups of
//! two codes that differ in one or two bits are united where no two of their
//! vertices are as far apart as the threshold.

use crate::bitmask::BitMaskingTable;
use crate::directory::{ascending, listed, Directory};
use crate::hamming_model::{pair_max, pair_min, row_max, row_min, HammingView};
use crate::hamming_proofs::{
    lemma_sweep_skips, lemma_union_of_roots, lemma_union_wf, lemma_with_vertex_wf,
};
use crate::partition::Partition;
use crate::popcount::{bit_distance, distance};
use vstd::prelude::*;

verus! {

/// The record of a code: the code, the vertices that it lists, the root of
/// its group, and its rank.
#[derive(Debug)]
pub struct VertexGroup {
    pub orig_hamming_code: u32,
    pub vertex_list: Vec<u32>,
    pub group_id: u32,
    pub rank: u32,
}

impl VertexGroup {
    /// The record of a code that is a group of its own with one vertex.
    pub fn new(id: u32, hamming_code: u32) -> (group: Self)
        ensures
            group.orig_hamming_code == hamming_code,
            group.vertex_list@ == seq![id],
            group.group_id == hamming_code,
            group.rank == 1,
    {
        let mut new_group = VertexGroup {
            orig_hamming_code: hamming_code,
            vertex_list: Vec::<u32>::new(),
            group_id: hamming_code,
            rank: 1,
        };
        new_group.vertex_list.push(id);
        new_group
    }

    /// Appends a vertex to the list.
    pub fn add(&mut self, id: u32)
        ensures
            final(self).vertex_list@ == old(self).vertex_list@.push(id),
            final(self).orig_hamming_code == old(self).orig_hamming_code,
            final(self).group_id == old(self).group_id,
            final(self).rank == old(self).rank,
    {
        self.vertex_list.push(id);
    }

    /// Sets the rank.
    pub fn update_rank(&mut self, new_rank: u32)
        ensures
            final(self).rank == new_rank,
            final(self).vertex_list@ == old(self).vertex_list@,
            final(self).orig_hamming_code == old(self).orig_hamming_code,
            final(self).group_id == old(self).group_id,
    {
        self.rank = new_rank;
    }

    /// The rank.
    pub fn get_rank(&self) -> (rank: u32)
        ensures
            rank == self.rank,
    {
        self.rank
    }
}

/// Vertices with their codes, and the groups that the codes have been
/// united into.
#[derive(Debug)]
pub struct HammingClusteringInfo {
    hamming_clusters: Partition,
    vertex_lists: Vec<Vec<u32>>,
    vertex_map: Directory,
    hamming_size: u32,
}

impl View for HammingClusteringInfo {
    type V = HammingView;

    open spec fn view(&self) -> HammingView {
        HammingView {
            groups: self.partition()@,
            members: Map::new(
                |c: u32| self.partition().contains(c),
                |c: u32| self.lists()[self.partition().slot(c)],
            ),
            codes: Map::new(
                |v: u32| self.vertex_directory()@.contains_key(v),
                |v: u32| self.partition().slot_keys()[self.vertex_directory()@[v] as int],
            ),
            width: self.width(),
        }
    }
}

impl HammingClusteringInfo {
    /// The codes and their groups.
    pub closed spec fn partition(&self) -> Partition {
        self.hamming_clusters
    }

    /// The vertices that each slot of a code lists.
    pub closed spec fn lists(&self) -> Seq<Seq<u32>> {
        Seq::new(self.vertex_lists@.len(), |s: int| self.vertex_lists@[s]@)
    }

    /// The directory from each vertex to the slot of its code.
    pub closed spec fn vertex_directory(&self) -> Directory {
        self.vertex_map
    }

    /// The width of the codes in bits.
    pub closed spec fn width(&self) -> u32 {
        self.hamming_size
    }

    /// Every code has its list, every vertex its code, and the view is
    /// well-formed.
    pub open spec fn wf(&self) -> bool {
        &&& self.partition().wf()
        &&& self.vertex_directory().wf()
        &&& self.lists().len() == self.partition().size()
        &&& forall|v: u32|
            self.vertex_directory()@.contains_key(v) ==> #[trigger] self.vertex_directory()@[v]
                < self.partition().size()
        &&& self@.wf()
    }

    /// Ranks are no higher than unions can have made them, so that no
    /// union pushes a rank past `u32::MAX`.
    pub open spec fn balanced(&self) -> bool {
        self.partition().balanced()
    }

    /// The same codes and vertices in the same places.
    pub open spec fn same_keys(&self, other: &Self) -> bool {
        &&& self.partition().same_keys(&other.partition())
        &&& self.vertex_directory() == other.vertex_directory()
        &&& self.width() == other.width()
    }

    /// Two states with the same keys, groups and lists have one view.
    proof fn lemma_same_view(&self, other: &Self)
        requires
            self.same_keys(other),
            self.partition()@ == other.partition()@,
            self.lists() == other.lists(),
        ensures
            self@ == other@,
    {
        assert(self@.members =~= other@.members);
        assert(self@.codes =~= other@.codes);
    }

    /// The list of a registered code is the list of its slot, and its
    /// vertices are registered.
    proof fn lemma_listed(&self, slot: int, j: int)
        requires
            self.wf(),
            0 <= slot < self.partition().size(),
            0 <= j < self.lists()[slot].len(),
        ensures
            self@.members[self.partition().slot_keys()[slot]] == self.lists()[slot],
            self@.codes.contains_key(self.lists()[slot][j]),
            self.vertex_directory()@.contains_key(self.lists()[slot][j]),
    {
        let c = self.partition().slot_keys()[slot];
        assert(self.partition().contains(c) && self.partition().slot(c) == slot);
        assert(self@.codes.contains_key(self@.members[c][j]));
    }

    /// No vertices and no codes, for codes of `hamming_size` bits.
    pub fn new(hamming_size: u32) -> (c: Self)
        ensures
            c.wf(),
            c.balanced(),
            c@ == HammingView::empty(hamming_size),
    {
        let c = HammingClusteringInfo {
            hamming_clusters: Partition::new(),
            vertex_lists: Vec::new(),
            vertex_map: Directory::new(),
            hamming_size: hamming_size,
        };
        proof {
            assert(c@.members =~= Map::<u32, Seq<u32>>::empty());
            assert(c@.codes =~= Map::<u32, u32>::empty());
            assert(c@.groups.rank.dom() =~= c@.groups.root.dom());
            assert(c@.members.dom() =~= c@.groups.root.dom());
            assert(c@.groups.roots() =~= Set::<u32>::empty());
        }
        c
    }

    /// Registers `vertex_id` with `hamming_code`. A vertex that is
    /// registered already is ignored. A new code becomes a group of its own;
    /// with a code that is registered, the vertex joins the list of the
    /// code's group.
    pub fn add_vertex(&mut self, vertex_id: u32, hamming_code: u32)
        requires
            old(self).wf(),
        ensures
            final(self).wf(),
            final(self)@ == old(self)@.with_vertex(vertex_id, hamming_code),
            old(self).balanced() ==> final(self).balanced(),
    {
        let ghost before = *self;
        if !self.vertex_map.contains_key(vertex_id) {
            proof {
                lemma_with_vertex_wf(before@, vertex_id, hamming_code);
            }
            match self.hamming_clusters.slot_of(hamming_code) {
                None => {
                    let slot: usize = self.hamming_clusters.insert(hamming_code);
                    let mut list: Vec<u32> = Vec::new();
                    list.push(vertex_id);
                    self.vertex_lists.push(list);
                    self.vertex_map.insert(vertex_id, slot);
                    proof {
                        let target = before@.with_vertex(vertex_id, hamming_code);
                        assert forall|c: u32| self.partition().contains(c) implies self.lists()[self.partition().slot(
                            c,
                        )] == #[trigger] target.members[c] by {
                            if c != hamming_code {
                                assert(before.partition().contains(c));
                            }
                        }
                        assert(self@.members =~= target.members);
                        assert forall|v: u32|
                            self.vertex_directory()@.contains_key(
                                v,
                            ) implies self.partition().slot_keys()[self.vertex_directory()@[v] as int]
                            == #[trigger] target.codes[v] by {
                            if v != vertex_id {
                                assert(before.vertex_directory()@.contains_key(v));
                            }
                        }
                        assert(self@.codes =~= target.codes);
                        assert forall|v: u32|
                            self.vertex_directory()@.contains_key(
                                v,
                            ) implies #[trigger] self.vertex_directory()@[v]
                            < self.partition().size() by {
                            if v != vertex_id {
                                assert(before.vertex_directory()@.contains_key(v));
                            }
                        }
                    }
                },
                Some(slot) => {
                    let r: usize = self.hamming_clusters.find_slot(slot);
                    let ghost found = *self;
                    self.vertex_lists[r].push(vertex_id);
                    self.vertex_map.insert(vertex_id, slot);
                    proof {
                        let target = before@.with_vertex(vertex_id, hamming_code);
                        let root = before@.groups.root[hamming_code];
                        assert(before.partition().slot_keys()[slot as int] == hamming_code);
                        assert(before.partition().slot(root) == r);
                        assert(self.lists() =~= before.lists().update(
                            r as int,
                            before.lists()[r as int].push(vertex_id),
                        ));
                        assert forall|c: u32| self.partition().contains(c) implies self.lists()[self.partition().slot(
                            c,
                        )] == #[trigger] target.members[c] by {
                            if c != root {
                                assert(before.partition().slot(c) != r);
                            }
                        }
                        assert(self@.members =~= target.members);
                        assert forall|v: u32|
                            self.vertex_directory()@.contains_key(
                                v,
                            ) implies self.partition().slot_keys()[self.vertex_directory()@[v] as int]
                            == #[trigger] target.codes[v] by {
                            if v != vertex_id {
                                assert(before.vertex_directory()@.contains_key(v));
                            }
                        }
                        assert(self@.codes =~= target.codes);
                        assert forall|v: u32|
                            self.vertex_directory()@.contains_key(
                                v,
                            ) implies #[trigger] self.vertex_directory()@[v]
                            < self.partition().size() by {
                            if v != vertex_id {
                                assert(before.vertex_directory()@.contains_key(v));
                            }
                        }
                    }
                },
            }
        }
    }

    /// The number of vertices, the number of codes and the number of
    /// groups.
    pub fn sizes(&self) -> (n: (usize, usize, usize))
        requires
            self.wf(),
        ensures
            n.0 == self@.codes.dom().len(),
            n.1 == self@.groups.root.dom().len(),
            n.2 == self@.groups.count,
            n.2 == self@.groups.roots().len(),
    {
        proof {
            self.vertex_directory().lemma_domain();
            self.partition().lemma_domain();
            assert(self@.codes.dom() =~= self.vertex_directory()@.dom());
        }
        (self.vertex_map.len(), self.hamming_clusters.len(), self.hamming_clusters.count())
    }

    /// The number of groups.
    pub fn groups(&self) -> (n: usize)
        requires
            self.wf(),
        ensures
            n == self@.groups.count,
            n == self@.groups.roots().len(),
    {
        self.hamming_clusters.count()
    }

    /// The rank of a registered code.
    pub fn get_rank(&self, hamming_code: u32) -> (rank: u32)
        requires
            self.wf(),
            self@.groups.contains(hamming_code),
        ensures
            rank == self@.groups.rank[hamming_code],
    {
        self.hamming_clusters.rank_of(hamming_code)
    }

    /// Raises the rank of a code that is the root of its group by one.
    pub fn incr_rank(&mut self, hamming_code: u32)
        requires
            old(self).wf(),
            old(self)@.groups.contains(hamming_code),
            old(self)@.groups.root[hamming_code] == hamming_code,
            old(self)@.groups.rank[hamming_code] < u32::MAX,
        ensures
            final(self).wf(),
            final(self)@ == old(self)@.with_rank_raised(hamming_code),
    {
        let ghost before = *self;
        self.hamming_clusters.bump_rank(hamming_code);
        proof {
            assert(self@.members =~= before@.members);
            assert(self@.codes =~= before@.codes);
            assert(self@.groups.rank.dom() =~= self@.groups.root.dom());
            assert(self@.groups.roots() =~= before@.groups.roots());
            assert forall|c: u32| self@.groups.contains(c) implies #[trigger] self@.has_vertex_of(
                c,
            ) by {
                assert(before@.has_vertex_of(c));
                let u = choose|u: u32|
                    before@.codes.contains_key(u) && #[trigger] before@.codes[u] == c;
                assert(self@.codes.contains_key(u) && self@.codes[u] == c);
            }
        }
    }

    /// The spacing of two vertices: the number of bits in which their codes
    /// differ. `None` unless both are registered.
    pub fn vertex_spacing(&self, id1: u32, id2: u32) -> (spacing: Option<u32>)
        requires
            self.wf(),
        ensures
            spacing is Some <==> self@.codes.contains_key(id1) && self@.codes.contains_key(id2),
            spacing is Some ==> spacing->Some_0 == distance(self@.codes[id1], self@.codes[id2]),
    {
        let result1 = self.vertex_map.get(id1);
        let result2 = self.vertex_map.get(id2);
        match (result1, result2) {
            (Some(slot1), Some(slot2)) => {
                let code1: u32 = self.hamming_clusters.key_of(slot1);
                let code2: u32 = self.hamming_clusters.key_of(slot2);
                Some(bit_distance(code1, code2))
            },
            _ => None,
        }
    }

    /// The smallest and the largest spacing between a vertex of the list of
    /// slot `a` and a different vertex of the list of slot `b`.
    fn slot_spacing(&self, a: usize, b: usize) -> (bounds: (u32, u32))
        requires
            self.wf(),
            a < self.partition().size(),
            b < self.partition().size(),
        ensures
            bounds.0 == pair_min(self@.codes, self.lists()[a as int], self.lists()[b as int]),
            bounds.1 == pair_max(self@.codes, self.lists()[a as int], self.lists()[b as int]),
    {
        let ghost codes = self@.codes;
        let ghost la = self.lists()[a as int];
        let ghost lb = self.lists()[b as int];
        let mut max_spacing: u32 = 0;
        let mut min_spacing: u32 = u32::MAX;
        let len_a: usize = self.vertex_lists[a].len();
        let len_b: usize = self.vertex_lists[b].len();
        let mut i: usize = 0;
        while i < len_a
            invariant
                self.wf(),
                a < self.partition().size(),
                b < self.partition().size(),
                codes == self@.codes,
                la == self.lists()[a as int],
                lb == self.lists()[b as int],
                len_a == la.len(),
                len_b == lb.len(),
                i <= len_a,
                max_spacing == pair_max(codes, la.take(i as int), lb),
                min_spacing == pair_min(codes, la.take(i as int), lb),
            decreases len_a - i,
        {
            let v1: u32 = self.vertex_lists[a][i];
            proof {
                self.lemma_listed(a as int, i as int);
            }
            let code1: u32 = self.hamming_clusters.key_of(self.vertex_map.get(v1).unwrap());
            let ghost base_max = max_spacing;
            let ghost base_min = min_spacing;
            let mut j: usize = 0;
            while j < len_b
                invariant
                    self.wf(),
                    a < self.partition().size(),
                    b < self.partition().size(),
                    codes == self@.codes,
                    la == self.lists()[a as int],
                    lb == self.lists()[b as int],
                    len_b == lb.len(),
                    i < la.len(),
                    v1 == la[i as int],
                    codes.contains_key(v1),
                    code1 == codes[v1],
                    j <= len_b,
                    max_spacing == (if row_max(codes, v1, lb.take(j as int)) > base_max {
                        row_max(codes, v1, lb.take(j as int))
                    } else {
                        base_max as nat
                    }),
                    min_spacing == (if row_min(codes, v1, lb.take(j as int)) < base_min {
                        row_min(codes, v1, lb.take(j as int))
                    } else {
                        base_min as nat
                    }),
                decreases len_b - j,
            {
                let v2: u32 = self.vertex_lists[b][j];
                proof {
                    self.lemma_listed(b as int, j as int);
                    assert(lb.take(j + 1).drop_last() =~= lb.take(j as int));
                }
                if v1 != v2 {
                    let code2: u32 = self.hamming_clusters.key_of(
                        self.vertex_map.get(v2).unwrap(),
                    );
                    let spacing: u32 = bit_distance(code1, code2);
                    if spacing > max_spacing {
                        max_spacing = spacing;
                    }
                    if spacing < min_spacing {
                        min_spacing = spacing;
                    }
                }
                j += 1;
            }
            proof {
                assert(lb.take(len_b as int) =~= lb);
                assert(la.take(i + 1).drop_last() =~= la.take(i as int));
            }
            i += 1;
        }
        proof {
            assert(la.take(len_a as int) =~= la);
        }
        (min_spacing, max_spacing)
    }

    /// The smallest and the largest spacing between a vertex that code
    /// `group1` lists and a different vertex that code `group2` lists.
    /// `None` unless both codes are registered.
    pub fn hamming_cluster_spacing(&self, group1: u32, group2: u32) -> (bounds: Option<(u32, u32)>)
        requires
            self.wf(),
        ensures
            bounds is Some <==> self@.groups.contains(group1) && self@.groups.contains(group2),
            bounds is Some ==> bounds->Some_0.0 == self@.min_spacing(group1, group2)
                && bounds->Some_0.1 == self@.max_spacing(group1, group2),
    {
        let vg1 = self.hamming_clusters.slot_of(group1);
        let vg2 = self.hamming_clusters.slot_of(group2);
        match (vg1, vg2) {
            (Some(slot1), Some(slot2)) => Some(self.slot_spacing(slot1, slot2)),
            _ => None,
        }
    }

    /// The root of the group of the code of `vertex`; `None` for a vertex
    /// that is not registered. Links are shortened on the way; nothing that
    /// the view shows changes.
    pub fn find_group(&mut self, vertex: u32) -> (root: Option<u32>)
        requires
            old(self).wf(),
        ensures
            final(self).wf(),
            final(self).same_keys(old(self)),
            final(self)@ == old(self)@,
            old(self).balanced() ==> final(self).balanced(),
            root is Some <==> old(self)@.codes.contains_key(vertex),
            root is Some ==> root->Some_0 == old(self)@.groups.root[old(self)@.codes[vertex]],
            final(self).partition().pointers() == (if old(self)@.codes.contains_key(vertex) {
                old(self).partition().compressed_from(
                    old(self).partition().slot(old(self)@.codes[vertex]),
                )
            } else {
                old(self).partition().pointers()
            }),
    {
        match self.vertex_map.get(vertex) {
            Some(slot) => {
                let ghost before = *self;
                let r: usize = self.hamming_clusters.find_slot(slot);
                proof {
                    self.lemma_same_view(&before);
                }
                Some(self.hamming_clusters.key_of(r))
            },
            None => None,
        }
    }

    /// The root of the group of `hamming_code`; `None` for a code that is
    /// not registered. Links are shortened on the way; nothing that the view
    /// shows changes, and no code is registered by asking.
    pub fn find_grouping(&mut self, hamming_code: u32) -> (root: Option<u32>)
        requires
            old(self).wf(),
        ensures
            final(self).wf(),
            final(self).same_keys(old(self)),
            final(self)@ == old(self)@,
            old(self).balanced() ==> final(self).balanced(),
            root is Some <==> old(self)@.groups.contains(hamming_code),
            root is Some ==> root->Some_0 == old(self)@.groups.root[hamming_code],
            final(self).partition().pointers() == (if old(self)@.groups.contains(hamming_code) {
                old(self).partition().compressed_from(old(self).partition().slot(hamming_code))
            } else {
                old(self).partition().pointers()
            }),
    {
        match self.hamming_clusters.slot_of(hamming_code) {
            Some(slot) => {
                let ghost before = *self;
                let r: usize = self.hamming_clusters.find_slot(slot);
                proof {
                    self.lemma_same_view(&before);
                }
                Some(self.hamming_clusters.key_of(r))
            },
            None => None,
        }
    }

    /// Whether `v1` and `v2` are registered vertices whose codes are in one
    /// group.
    pub fn vertex_same_group(&mut self, v1: u32, v2: u32) -> (same: bool)
        requires
            old(self).wf(),
        ensures
            final(self).wf(),
            final(self).same_keys(old(self)),
            final(self)@ == old(self)@,
            old(self).balanced() ==> final(self).balanced(),
            same == (old(self)@.codes.contains_key(v1) && old(self)@.codes.contains_key(v2)
                && old(self)@.groups.same_set(old(self)@.codes[v1], old(self)@.codes[v2])),
    {
        let group1 = self.find_group(v1);
        let group2 = self.find_group(v2);
        match (group1, group2) {
            (Some(g1), Some(g2)) => g1 == g2,
            _ => false,
        }
    }

    /// Whether `code1` and `code2` are registered codes of one group.
    pub fn code_same_group(&mut self, code1: u32, code2: u32) -> (same: bool)
        requires
            old(self).wf(),
        ensures
            final(self).wf(),
            final(self).same_keys(old(self)),
            final(self)@ == old(self)@,
            old(self).balanced() ==> final(self).balanced(),
            same == (old(self)@.groups.contains(code1) && old(self)@.groups.contains(code2)
                && old(self)@.groups.same_set(code1, code2)),
    {
        let group1 = self.find_grouping(code1);
        let group2 = self.find_grouping(code2);
        match (group1, group2) {
            (Some(g1), Some(g2)) => g1 == g2,
            _ => false,
        }
    }

    /// The smallest and the largest spacing between the groups of `v1` and
    /// `v2`. `None` unless both vertices are registered.
    pub fn vertex_cluster_spacing(&mut self, v1: u32, v2: u32) -> (bounds: Option<(u32, u32)>)
        requires
            old(self).wf(),
        ensures
            final(self).wf(),
            final(self).same_keys(old(self)),
            final(self)@ == old(self)@,
            old(self).balanced() ==> final(self).balanced(),
            bounds is Some <==> old(self)@.codes.contains_key(v1) && old(self)@.codes.contains_key(
                v2,
            ),
            bounds is Some ==> {
                let g1 = old(self)@.groups.root[old(self)@.codes[v1]];
                let g2 = old(self)@.groups.root[old(self)@.codes[v2]];
                bounds->Some_0.0 == old(self)@.min_spacing(g1, g2) && bounds->Some_0.1 == old(
                    self,
                )@.max_spacing(g1, g2)
            },
    {
        let result1 = self.find_group(v1);
        let result2 = self.find_group(v2);
        match (result1, result2) {
            (Some(group1), Some(group2)) => {
                proof {
                    let hv = self@;
                    assert(hv.groups.contains(hv.codes[v1]));
                    assert(hv.groups.contains(hv.codes[v2]));
                    assert(hv.groups.contains(group1));
                    assert(hv.groups.contains(group2));
                }
                self.hamming_cluster_spacing(group1, group2)
            },
            _ => None,
        }
    }

    /// Moves the list of slot `from` to the end of the list of slot `to`.
    fn combine_groups(&mut self, from: usize, to: usize)
        requires
            from < old(self).vertex_lists@.len(),
            to < old(self).vertex_lists@.len(),
            from != to,
        ensures
            final(self).hamming_clusters == old(self).hamming_clusters,
            final(self).vertex_map == old(self).vertex_map,
            final(self).hamming_size == old(self).hamming_size,
            final(self).lists() == old(self).lists().update(
                to as int,
                old(self).lists()[to as int] + old(self).lists()[from as int],
            ).update(from as int, Seq::empty()),
    {
        let mut moved: Vec<u32> = Vec::new();
        self.vertex_lists.set_and_swap(from, &mut moved);
        self.vertex_lists[to].append(&mut moved);
        proof {
            assert(self.lists() =~= old(self).lists().update(
                to as int,
                old(self).lists()[to as int] + old(self).lists()[from as int],
            ).update(from as int, Seq::empty()));
        }
    }

    /// Unites the groups of the codes of slots `a` and `b`.
    fn unite_slots(&mut self, a: usize, b: usize)
        requires
            old(self).wf(),
            a < old(self).partition().size(),
            b < old(self).partition().size(),
            old(self)@.groups.union_fits(
                old(self).partition().slot_keys()[a as int],
                old(self).partition().slot_keys()[b as int],
            ),
        ensures
            final(self).wf(),
            final(self).same_keys(old(self)),
            final(self)@ == old(self)@.union(
                old(self).partition().slot_keys()[a as int],
                old(self).partition().slot_keys()[b as int],
            ),
            old(self).balanced() ==> final(self).balanced(),
    {
        let ghost before = *self;
        let ghost ka = before.partition().slot_keys()[a as int];
        let ghost kb = before.partition().slot_keys()[b as int];
        proof {
            assert(before.partition().contains(ka) && before.partition().contains(kb));
            lemma_union_wf(before@, ka, kb);
            before@.groups.lemma_union_wf(ka, kb);
        }
        match self.hamming_clusters.union_slots(a, b) {
            None => {
                proof {
                    self.lemma_same_view(&before);
                }
            },
            Some((w, l)) => {
                self.combine_groups(l, w);
                proof {
                    let target = before@.union(ka, kb);
                    let kw = before@.groups.winner(ka, kb);
                    let kl = before@.groups.loser(ka, kb);
                    assert(before.partition().contains(kw) && before.partition().contains(kl));
                    assert forall|c: u32| self.partition().contains(c) implies self.lists()[self.partition().slot(
                        c,
                    )] == #[trigger] target.members[c] by {
                        assert(before.partition().slot_keys()[before.partition().slot(c)] == c);
                    }
                    assert(self@.members =~= target.members);
                    assert(self@.codes =~= target.codes);
                }
            },
        }
    }

    /// Unites the groups of `code1` and `code2`: the root of lower rank is
    /// attached under the root of higher rank and hands its vertices over;
    /// on a tie the root of `code2` is attached under the root of `code1`,
    /// whose rank grows by one. Nothing changes when the two are in one
    /// group already.
    pub fn union_by_code(&mut self, code1: u32, code2: u32)
        requires
            old(self).wf(),
            old(self)@.groups.contains(code1),
            old(self)@.groups.contains(code2),
            old(self).balanced() || old(self)@.groups.union_fits(code1, code2),
        ensures
            final(self).wf(),
            final(self).same_keys(old(self)),
            final(self)@ == old(self)@.union(code1, code2),
            old(self).balanced() ==> final(self).balanced(),
    {
        proof {
            if self.balanced() {
                self.partition().lemma_balanced_fits(code1, code2);
            }
        }
        let slot1: usize = self.hamming_clusters.slot_of(code1).unwrap();
        let slot2: usize = self.hamming_clusters.slot_of(code2).unwrap();
        self.unite_slots(slot1, slot2);
    }

    /// Unites the groups of the codes of `v1` and `v2`; nothing changes
    /// unless both vertices are registered.
    pub fn union_by_vertex(&mut self, v1: u32, v2: u32)
        requires
            old(self).wf(),
            old(self).balanced() || (old(self)@.codes.contains_key(v1) && old(
                self,
            )@.codes.contains_key(v2) ==> old(self)@.groups.union_fits(
                old(self)@.codes[v1],
                old(self)@.codes[v2],
            )),
        ensures
            final(self).wf(),
            final(self).same_keys(old(self)),
            final(self)@ == (if old(self)@.codes.contains_key(v1) && old(self)@.codes.contains_key(
                v2,
            ) {
                old(self)@.union(old(self)@.codes[v1], old(self)@.codes[v2])
            } else {
                old(self)@
            }),
            old(self).balanced() ==> final(self).balanced(),
    {
        let lookup1 = self.vertex_map.get(v1);
        let lookup2 = self.vertex_map.get(v2);
        match (lookup1, lookup2) {
            (Some(slot1), Some(slot2)) => {
                proof {
                    if self.balanced() {
                        self.partition().lemma_balanced_fits(self@.codes[v1], self@.codes[v2]);
                    }
                }
                self.unite_slots(slot1, slot2);
            },
            _ => {},
        }
    }

    /// Lets `code` look at its neighbour `code ^ mask`.
    fn step(&mut self, code: u32, mask: u32, max_dist: u32)
        requires
            old(self).wf(),
            old(self).balanced(),
            old(self)@.groups.contains(code),
        ensures
            final(self).wf(),
            final(self).balanced(),
            final(self).same_keys(old(self)),
            final(self)@ == old(self)@.step(code, mask, max_dist),
    {
        let ghost before = *self;
        let dest: u32 = code ^ mask;
        let code_slot: usize = self.hamming_clusters.slot_of(code).unwrap();
        match self.hamming_clusters.slot_of(dest) {
            None => {},
            Some(dest_slot) => {
                let source: usize = self.hamming_clusters.find_slot(code_slot);
                let target: usize = self.hamming_clusters.find_slot(dest_slot);
                proof {
                    self.lemma_same_view(&before);
                    assert(before.partition().slot_keys()[code_slot as int] == code);
                    assert(before.partition().slot_keys()[dest_slot as int] == dest);
                }
                if source != target {
                    let bounds = self.slot_spacing(source, target);
                    let spacing: u32 = bounds.1;
                    proof {
                        let hv = self@;
                        let rc = hv.groups.root[code];
                        let rd = hv.groups.root[dest];
                        assert(self.partition().slot_keys()[source as int] == rc);
                        assert(self.partition().slot_keys()[target as int] == rd);
                        assert(hv.groups.contains(rc) && hv.groups.contains(rd));
                        assert(self.partition().slot(rc) == source);
                        assert(self.partition().slot(rd) == target);
                        assert(spacing == hv.max_spacing(rc, rd));
                    }
                    if spacing < max_dist {
                        proof {
                            let hv = self@;
                            self.partition().lemma_balanced_fits(
                                hv.groups.root[code],
                                hv.groups.root[dest],
                            );
                            lemma_union_of_roots(hv, code, dest);
                        }
                        self.unite_slots(source, target);
                    }
                }
            },
        }
    }

    /// Lets `code` look at its neighbours under the masks of `table`, in
    /// turn.
    fn visit(&mut self, code: u32, table: &BitMaskingTable, max_dist: u32)
        requires
            old(self).wf(),
            old(self).balanced(),
            old(self)@.groups.contains(code),
        ensures
            final(self).wf(),
            final(self).balanced(),
            final(self).same_keys(old(self)),
            final(self)@ == old(self)@.visit(code, table@, 0, max_dist),
    {
        let ghost goal = self@.visit(code, table@, 0, max_dist);
        let count: usize = table.len();
        let mut i: usize = 0;
        while i < count
            invariant
                self.wf(),
                self.balanced(),
                self.same_keys(old(self)),
                self@.groups.contains(code),
                count == table@.len(),
                i <= count,
                goal == self@.visit(code, table@, i as int, max_dist),
            decreases count - i,
        {
            let mask: u32 = table.get_mask(i);
            self.step(code, mask, max_dist);
            i += 1;
        }
    }

    /// One clustering pass: every registered code, in ascending order,
    /// looks at the codes that differ from it in one bit, then at those that
    /// differ in two bits. Where such a neighbour is registered and in
    /// another group, and the largest spacing between a vertex of the one
    /// group and a vertex of the other is below `max_dist`, the two groups
    /// are united.
    pub fn do_cluster(&mut self, max_dist: u32)
        requires
            old(self).wf(),
            old(self).balanced(),
        ensures
            final(self).wf(),
            final(self).balanced(),
            final(self).same_keys(old(self)),
            final(self)@ == old(self)@.clustered(max_dist),
            final(self)@.same_keys(old(self)@),
    {
        proof {
            crate::hamming_proofs::lemma_sweep_wf(self@, 0, max_dist);
        }
        let one_bit_bitmask = BitMaskingTable::new_one_bit(self.hamming_size);
        let two_bit_bitmask = BitMaskingTable::new_two_bit(self.hamming_size);
        let ghost goal = self@.clustered(max_dist);
        let ghost keys = self.partition().directory().ordered_keys();
        let count: usize = self.hamming_clusters.len();
        let mut i: usize = 0;
        while i < count
            invariant
                self.wf(),
                self.balanced(),
                self.same_keys(old(self)),
                keys == self.partition().directory().ordered_keys(),
                count == keys.len(),
                i <= count,
                one_bit_bitmask@ == crate::bitmask::one_bit_masks(self.width() as nat),
                two_bit_bitmask@ == crate::bitmask::two_bit_masks(self.width() as nat),
                goal == self@.sweep(
                    if i == 0 {
                        0
                    } else {
                        keys[i - 1] + 1
                    },
                    max_dist,
                ),
            decreases count - i,
        {
            let key: u32 = self.hamming_clusters.key_in_order(i);
            proof {
                let from: int = if i == 0 {
                    0
                } else {
                    keys[i - 1] + 1
                };
                if i > 0 {
                    assert(keys[i - 1] < keys[i as int]);
                }
                assert forall|c: u32| from <= c < key implies !self@.groups.contains(c) by {
                    if self@.groups.contains(c) {
                        assert(listed(keys, c));
                        let at = choose|at: int| 0 <= at < keys.len() && keys[at] == c;
                        if at < i {
                            if at < i - 1 {
                                assert(keys[at] < keys[i - 1]);
                            }
                        } else if at > i {
                            assert(keys[i as int] < keys[at]);
                        }
                    }
                }
                lemma_sweep_skips(self@, from, key as int, max_dist);
            }
            self.visit(key, &one_bit_bitmask, max_dist);
            self.visit(key, &two_bit_bitmask, max_dist);
            i += 1;
        }
        proof {
            let from: int = if i == 0 {
                0
            } else {
                keys[i - 1] + 1
            };
            assert forall|c: u32| from <= c < 0x1_0000_0000 implies !self@.groups.contains(c) by {
                if self@.groups.contains(c) {
                    assert(listed(keys, c));
                    let at = choose|at: int| 0 <= at < keys.len() && keys[at] == c;
                    if at < i - 1 {
                        assert(keys[at] < keys[i - 1]);
                    }
                }
            }
            lemma_sweep_skips(self@, from, 0x1_0000_0000, max_dist);
        }
    }

    /// The record of every registered code, in ascending order of the
    /// codes: the code, the vertices it lists, the root of its group, and
    /// its rank.
    pub fn summary(&self) -> (records: Vec<VertexGroup>)
        requires
            self.wf(),
        ensures
            records@.len() == self.partition().size(),
            forall|i: int|
                #![trigger records@[i]]
                0 <= i < records@.len() ==> {
                    let code = self.partition().directory().ordered_keys()[i];
                    &&& self@.groups.contains(code)
                    &&& records@[i].orig_hamming_code == code
                    &&& records@[i].vertex_list@ == self@.members[code]
                    &&& records@[i].group_id == self@.groups.root[code]
                    &&& records@[i].rank == self@.groups.rank[code]
                },
    {
        let mut records: Vec<VertexGroup> = Vec::new();
        let count: usize = self.hamming_clusters.len();
        let mut i: usize = 0;
        while i < count
            invariant
                self.wf(),
                count == self.partition().size(),
                i <= count,
                records@.len() == i,
                forall|k: int|
                    #![trigger records@[k]]
                    0 <= k < i ==> {
                        let code = self.partition().directory().ordered_keys()[k];
                        &&& self@.groups.contains(code)
                        &&& records@[k].orig_hamming_code == code
                        &&& records@[k].vertex_list@ == self@.members[code]
                        &&& records@[k].group_id == self@.groups.root[code]
                        &&& records@[k].rank == self@.groups.rank[code]
                    },
            decreases count - i,
        {
            let code: u32 = self.hamming_clusters.key_in_order(i);
            let slot: usize = self.hamming_clusters.slot_of(code).unwrap();
            let mut vertex_list: Vec<u32> = Vec::new();
            let members: usize = self.vertex_lists[slot].len();
            let mut j: usize = 0;
            while j < members
                invariant
                    slot < self.vertex_lists@.len(),
                    members == self.vertex_lists@[slot as int]@.len(),
                    j <= members,
                    vertex_list@ == self.vertex_lists@[slot as int]@.take(j as int),
                decreases members - j,
            {
                vertex_list.push(self.vertex_lists[slot][j]);
                proof {
                    assert(self.vertex_lists@[slot as int]@.take(j + 1)
                        =~= self.vertex_lists@[slot as int]@.take(j as int).push(
                        self.vertex_lists@[slot as int]@[j as int],
                    ));
                }
                j += 1;
            }
            proof {
                assert(self.vertex_lists@[slot as int]@.take(members as int)
                    =~= self.vertex_lists@[slot as int]@);
            }
            let record = VertexGroup {
                orig_hamming_code: code,
                vertex_list: vertex_list,
                group_id: self.hamming_clusters.root_key(code),
                rank: self.hamming_clusters.rank_of(code),
            };
            records.push(record);
            i += 1;
        }
        records
    }
}

} // verus!
