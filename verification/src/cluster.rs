//! Minimum-spacing k-clustering of a weighted graph: edges are taken by
//! ascending weight and their endpoints united until `k` groups are left.

use crate::partition::{Partition, PartitionView};
use crate::sorting::{sorted_by_weight, stable_sort_by_weight, stable_sort_of};
use vstd::prelude::*;

verus! {

/// The record of a vertex: its id, the id of the vertex it links to in the
/// forest (itself, for a root), and its rank.
#[derive(Debug, Clone, Copy, PartialEq, Eq)]
pub struct VertexInfo {
    pub vertex_id: u32,
    pub group_id: u32,
    pub rank: u32,
}

impl VertexInfo {
    /// The record of a vertex that is a group of its own.
    pub fn new(id: u32) -> (info: Self)
        ensures
            info == (VertexInfo { vertex_id: id, group_id: id, rank: 1 }),
    {
        VertexInfo { vertex_id: id, group_id: id, rank: 1 }
    }
}

/// A weighted edge between two vertices.
#[derive(Debug, Clone, Copy, PartialEq, Eq)]
pub struct Edge {
    pub weight: i32,
    pub start_id: u32,
    pub end_id: u32,
}

impl Edge {
    /// The edge from `start` to `end` of weight `weight`.
    pub fn new(start: u32, end: u32, weight: i32) -> (edge: Self)
        ensures
            edge == (Edge { weight: weight, start_id: start, end_id: end }),
    {
        Edge { start_id: start, end_id: end, weight: weight }
    }
}

/// Whether the endpoints of `e` are in different groups.
pub open spec fn crossing(groups: PartitionView, e: Edge) -> bool {
    groups.root[e.start_id] != groups.root[e.end_id]
}

/// The groups after the edges from place `from` on are taken in turn, the
/// endpoints of each united, for as long as there are more than `k` groups.
pub open spec fn united_down_to(groups: PartitionView, edges: Seq<Edge>, k: int, from: int)
    -> PartitionView
    decreases edges.len() - from,
{
    if from < 0 || from >= edges.len() || groups.count <= k {
        groups
    } else {
        united_down_to(groups.union(edges[from].start_id, edges[from].end_id), edges, k, from + 1)
    }
}

/// `d` is the spacing of the groups over the sorted `edges`: the least
/// weight of an edge between two groups; where no edge runs between two
/// groups, the weight of the last edge; and zero without edges.
pub open spec fn is_spacing(groups: PartitionView, edges: Seq<Edge>, d: i32) -> bool {
    if edges.len() == 0 {
        d == 0
    } else if exists|i: int| 0 <= i < edges.len() && crossing(groups, edges[i]) {
        &&& exists|i: int| 0 <= i < edges.len() && crossing(groups, edges[i]) && edges[i].weight == d
        &&& forall|i: int| 0 <= i < edges.len() && crossing(groups, edges[i]) ==> d <= edges[i].weight
    } else {
        d == edges.last().weight
    }
}

/// The links after a vertex is registered: a vertex that is new gets the
/// next slot and links to itself.
pub open spec fn links_with(links: Seq<usize>, fresh: bool) -> Seq<usize> {
    if fresh {
        links.push(links.len() as usize)
    } else {
        links
    }
}

/// A clustering as its users see it: the groups of the vertices and the
/// edges in their current order.
pub struct ClusteringView {
    pub groups: PartitionView,
    pub edges: Seq<Edge>,
}

/// The vertices and edges of a weighted graph, and the groups that the
/// vertices have been united into.
#[derive(Debug)]
pub struct ClusteringInfo {
    vertices: Partition,
    edges: Vec<Edge>,
}

impl View for ClusteringInfo {
    type V = ClusteringView;

    open spec fn view(&self) -> ClusteringView {
        ClusteringView { groups: self.partition()@, edges: self.edge_list() }
    }
}

impl ClusteringInfo {
    /// The vertices and their groups.
    pub closed spec fn partition(&self) -> Partition {
        self.vertices
    }

    /// The edges in their current order.
    pub closed spec fn edge_list(&self) -> Seq<Edge> {
        self.edges@
    }

    /// The groups are well-formed and balanced, and both ends of every edge
    /// are registered vertices.
    pub open spec fn wf(&self) -> bool {
        &&& self.partition().wf()
        &&& self.partition().balanced()
        &&& forall|i: int|
            #![trigger self.edge_list()[i]]
            0 <= i < self.edge_list().len() ==> self.partition().contains(
                self.edge_list()[i].start_id,
            ) && self.partition().contains(self.edge_list()[i].end_id)
    }

    /// Whether `vertex_id` is registered.
    pub open spec fn contains(&self, vertex_id: u32) -> bool {
        self@.groups.contains(vertex_id)
    }

    /// A graph without vertices or edges.
    pub fn new() -> (c: Self)
        ensures
            c.wf(),
            c@.groups == PartitionView::empty(),
            c@.edges == Seq::<Edge>::empty(),
    {
        ClusteringInfo { vertices: Partition::new(), edges: Vec::<Edge>::new() }
    }

    /// The number of vertices and the number of edges.
    pub fn size(&self) -> (n: (usize, usize))
        requires
            self.wf(),
        ensures
            n.0 == self@.groups.root.dom().len(),
            n.1 == self@.edges.len(),
    {
        proof {
            self.partition().lemma_domain();
        }
        (self.vertices.len(), self.edges.len())
    }

    /// The number of groups.
    pub fn groups(&self) -> (n: usize)
        requires
            self.wf(),
        ensures
            n == self@.groups.count,
            n == self@.groups.roots().len(),
    {
        proof {
            self.partition().lemma_view_wf();
        }
        self.vertices.count()
    }

    /// The record of `vertex_id`, if the vertex is registered.
    pub fn vertex(&self, vertex_id: u32) -> (info: Option<VertexInfo>)
        requires
            self.wf(),
        ensures
            info is Some <==> self.contains(vertex_id),
            info is Some ==> info->Some_0 == (VertexInfo {
                vertex_id: vertex_id,
                group_id: self.partition().parent(vertex_id),
                rank: self@.groups.rank[vertex_id],
            }),
    {
        if self.vertices.contains_key(vertex_id) {
            let mut info = VertexInfo::new(vertex_id);
            info.group_id = self.vertices.parent_key(vertex_id);
            info.rank = self.vertices.rank_of(vertex_id);
            Some(info)
        } else {
            None
        }
    }

    /// Registers `vertex_id` as a group of its own, unless it is registered
    /// already.
    pub fn add_vertex(&mut self, vertex_id: u32)
        requires
            old(self).wf(),
        ensures
            final(self).wf(),
            final(self)@.edges == old(self)@.edges,
            final(self)@.groups == (if old(self).contains(vertex_id) {
                old(self)@.groups
            } else {
                old(self)@.groups.with_singleton(vertex_id)
            }),
            final(self).partition().pointers() == links_with(
                old(self).partition().pointers(),
                !old(self).contains(vertex_id),
            ),
            final(self).partition().size() == final(self).partition().pointers().len(),
            !old(self).contains(vertex_id) ==> final(self).partition().slot(vertex_id) == old(
                self,
            ).partition().size(),
            forall|v: u32|
                old(self).contains(v) ==> #[trigger] final(self).partition().slot(v) == old(
                    self,
                ).partition().slot(v),
    {
        if !self.vertices.contains_key(vertex_id) {
            let ghost before = *self;
            let _slot = self.vertices.insert(vertex_id);
            proof {
                assert forall|i: int|
                    #![trigger self.edge_list()[i]]
                    0 <= i < self.edge_list().len() implies self.partition().contains(
                    self.edge_list()[i].start_id,
                ) && self.partition().contains(self.edge_list()[i].end_id) by {
                    assert(before.partition().contains(before.edge_list()[i].start_id));
                }
            }
        }
    }

    /// Registers both ends as vertices, where they are new, and appends the
    /// edge between them.
    pub fn add_edge(&mut self, start: u32, end: u32, weight: i32)
        requires
            old(self).wf(),
        ensures
            final(self).wf(),
            final(self)@.edges == old(self)@.edges.push(
                Edge { weight: weight, start_id: start, end_id: end },
            ),
            final(self)@.groups == ({
                let first = if old(self).contains(start) {
                    old(self)@.groups
                } else {
                    old(self)@.groups.with_singleton(start)
                };
                if first.contains(end) {
                    first
                } else {
                    first.with_singleton(end)
                }
            }),
            final(self).partition().pointers() == links_with(
                links_with(old(self).partition().pointers(), !old(self).contains(start)),
                !old(self).contains(end) && start != end,
            ),
            forall|v: u32|
                old(self).contains(v) ==> #[trigger] final(self).partition().slot(v) == old(
                    self,
                ).partition().slot(v),
    {
        self.add_vertex(start);
        assert(self.contains(start));
        self.add_vertex(end);
        assert(self.contains(start) && self.contains(end));
        let edge = Edge::new(start, end, weight);
        let ghost before = *self;
        self.edges.push(edge);
        proof {
            assert(self.edge_list() == before.edge_list().push(edge));
            assert forall|i: int|
                #![trigger self.edge_list()[i]]
                0 <= i < self.edge_list().len() implies self.partition().contains(
                self.edge_list()[i].start_id,
            ) && self.partition().contains(self.edge_list()[i].end_id) by {
                if i < before.edge_list().len() {
                    assert(before.partition().contains(before.edge_list()[i].start_id));
                }
            }
        }
    }

    /// The root of the group of `vertex_id`. Links are shortened on the way;
    /// no group changes.
    pub fn find_grouping(&mut self, vertex_id: u32) -> (root: u32)
        requires
            old(self).wf(),
            old(self).contains(vertex_id),
        ensures
            final(self).wf(),
            final(self)@ == old(self)@,
            final(self).partition().same_keys(&old(self).partition()),
            final(self).partition().pointers() == old(self).partition().compressed_from(
                old(self).partition().slot(vertex_id),
            ),
            root == old(self)@.groups.root[vertex_id],
    {
        let ghost before = *self;
        let root = self.vertices.find(vertex_id);
        proof {
            assert forall|i: int|
                #![trigger self.edge_list()[i]]
                0 <= i < self.edge_list().len() implies self.partition().contains(
                self.edge_list()[i].start_id,
            ) && self.partition().contains(self.edge_list()[i].end_id) by {
                assert(before.partition().contains(before.edge_list()[i].start_id));
            }
        }
        root
    }

    /// Whether `node1` and `node2` are in one group.
    pub fn same_group(&mut self, node1: u32, node2: u32) -> (same: bool)
        requires
            old(self).wf(),
            old(self).contains(node1),
            old(self).contains(node2),
        ensures
            final(self).wf(),
            final(self)@ == old(self)@,
            final(self).partition().same_keys(&old(self).partition()),
            final(self).partition().pointers() == old(self).partition().compressed_from_both(
                old(self).partition().slot(node1),
                old(self).partition().slot(node2),
            ),
            same == old(self)@.groups.same_set(node1, node2),
    {
        let ghost before = *self;
        let same = self.vertices.same_set(node1, node2);
        proof {
            assert forall|i: int|
                #![trigger self.edge_list()[i]]
                0 <= i < self.edge_list().len() implies self.partition().contains(
                self.edge_list()[i].start_id,
            ) && self.partition().contains(self.edge_list()[i].end_id) by {
                assert(before.partition().contains(before.edge_list()[i].start_id));
            }
        }
        same
    }

    /// Unites the groups of `node1` and `node2`: the root of lower rank is
    /// attached under the root of higher rank; on a tie the root of `node2`
    /// is attached under the root of `node1`, whose rank grows by one.
    /// Nothing changes when the two are in one group already.
    pub fn union(&mut self, node1: u32, node2: u32)
        requires
            old(self).wf(),
            old(self).contains(node1),
            old(self).contains(node2),
        ensures
            final(self).wf(),
            final(self)@.edges == old(self)@.edges,
            final(self)@.groups == old(self)@.groups.union(node1, node2),
            final(self).partition().same_keys(&old(self).partition()),
            final(self).partition().pointers() == ({
                let links = old(self).partition().compressed_from_both(
                    old(self).partition().slot(node1),
                    old(self).partition().slot(node2),
                );
                if old(self)@.groups.same_set(node1, node2) {
                    links
                } else {
                    links.update(
                        old(self).partition().slot(old(self)@.groups.loser(node1, node2)),
                        old(self).partition().slot(
                            old(self)@.groups.winner(node1, node2),
                        ) as usize,
                    )
                }
            }),
    {
        let ghost before = *self;
        proof {
            before.partition().lemma_balanced_fits(node1, node2);
        }
        let _joined = self.vertices.union(node1, node2);
        proof {
            assert forall|i: int|
                #![trigger self.edge_list()[i]]
                0 <= i < self.edge_list().len() implies self.partition().contains(
                self.edge_list()[i].start_id,
            ) && self.partition().contains(self.edge_list()[i].end_id) by {
                assert(before.partition().contains(before.edge_list()[i].start_id));
            }
        }
    }

    /// Unites groups along the edges, lightest first, until `k` groups are
    /// left, and returns the spacing of the groups: the least weight of an
    /// edge between two of them. The edges are left sorted by weight, with
    /// edges of one weight in the order they had.
    pub fn cluster(&mut self, k: usize) -> (distance: i32)
        requires
            old(self).wf(),
        ensures
            final(self).wf(),
            stable_sort_of(final(self)@.edges, old(self)@.edges),
            final(self)@.groups == united_down_to(
                old(self)@.groups,
                final(self)@.edges,
                k as int,
                0,
            ),
            is_spacing(final(self)@.groups, final(self)@.edges, distance),
            final(self).partition().same_keys(&old(self).partition()),
            final(self)@.groups.root.dom() == old(self)@.groups.root.dom(),
            forall|x: u32, y: u32|
                old(self).contains(x) && old(self).contains(y) && #[trigger] old(
                    self,
                )@.groups.same_set(x, y) ==> final(self)@.groups.same_set(x, y),
    {
        let ghost before = *self;
        let sorted = stable_sort_by_weight(&self.edges);
        self.edges = sorted;
        proof {
            Self::lemma_same_edges(before.edge_list(), self.edge_list(), before.partition());
        }
        let ghost edges = self.edge_list();
        let ghost goal = united_down_to(before@.groups, edges, k as int, 0);
        let mut cur_distance: i32 = 0;
        let num_edges: usize = self.edges.len();
        let mut index: usize = 0;
        let mut found: bool = false;
        while index < num_edges && !found
            invariant
                self.wf(),
                self.partition().same_keys(&before.partition()),
                forall|x: u32, y: u32|
                    before.contains(x) && before.contains(y) && #[trigger] before@.groups.same_set(
                        x,
                        y,
                    ) ==> self@.groups.same_set(x, y),
                self.edge_list() == edges,
                sorted_by_weight(edges),
                num_edges == edges.len(),
                index <= num_edges,
                found ==> index < num_edges,
                goal == united_down_to(self@.groups, edges, k as int, index as int),
                forall|j: int| 0 <= j < index ==> !crossing(self@.groups, #[trigger] edges[j]),
                found ==> self@.groups.count <= k && crossing(self@.groups, edges[index as int])
                    && cur_distance == edges[index as int].weight,
                !found ==> cur_distance == (if index == 0 {
                    0i32
                } else {
                    edges[index - 1].weight
                }),
            decreases (num_edges - index) * 2 + (if found { 0int } else { 1int }),
        {
            let ghost groups = self@.groups;
            cur_distance = self.edges[index].weight;
            let start: u32 = self.edges[index].start_id;
            let end: u32 = self.edges[index].end_id;
            assert(self.partition().contains(self.edge_list()[index as int].start_id));
            if self.vertices.count() > k {
                self.union(start, end);
                proof {
                    assert forall|x: u32, y: u32|
                        before.contains(x) && before.contains(y) && #[trigger] before@.groups.same_set(
                            x,
                            y,
                        ) implies self@.groups.same_set(x, y) by {
                        groups.lemma_union_keeps_together(start, end, x, y);
                    }
                    assert forall|j: int| 0 <= j < index + 1 implies !crossing(
                        self@.groups,
                        #[trigger] edges[j],
                    ) by {
                        assert(self.partition().contains(self.edge_list()[j].start_id));
                        if j < index {
                            assert(!crossing(groups, edges[j]));
                            groups.lemma_union_keeps_together(
                                start,
                                end,
                                edges[j].start_id,
                                edges[j].end_id,
                            );
                        }
                    }
                }
                index += 1;
            } else if self.same_group(start, end) {
                index += 1;
            } else {
                found = true;
            }
        }
        proof {
            let groups = self@.groups;
            assert(groups.root.dom() =~= before@.groups.root.dom());
            if found {
                assert forall|i: int| 0 <= i < edges.len() && crossing(groups, edges[i]) implies cur_distance
                    <= edges[i].weight by {
                    if i < index {
                        assert(!crossing(groups, edges[i]));
                    }
                }
            }
        }
        cur_distance
    }

    /// A stable sort keeps both ends of every edge registered.
    proof fn lemma_same_edges(before: Seq<Edge>, after: Seq<Edge>, vertices: Partition)
        requires
            stable_sort_of(after, before),
            forall|i: int|
                #![trigger before[i]]
                0 <= i < before.len() ==> vertices.contains(before[i].start_id)
                    && vertices.contains(before[i].end_id),
        ensures
            forall|i: int|
                #![trigger after[i]]
                0 <= i < after.len() ==> vertices.contains(after[i].start_id)
                    && vertices.contains(after[i].end_id),
    {
        assert forall|i: int|
            #![trigger after[i]]
            0 <= i < after.len() implies vertices.contains(after[i].start_id)
            && vertices.contains(after[i].end_id) by {
            let e = after[i];
            let pred = crate::sorting::weight_is(e.weight);
            assert(pred(e));
            after.lemma_filter_contains(pred, i);
            assert(before.filter(pred) == after.filter(pred));
            before.lemma_filter_contains_rev(pred, e);
            let j = choose|j: int| 0 <= j < before.len() && before[j] == e;
            assert(vertices.contains(before[j].start_id));
        }
    }
}

} // verus!
