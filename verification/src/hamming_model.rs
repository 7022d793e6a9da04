//! The mathematical model of neighbour-distance clustering: groups of
//! codes, their member lists, and what a clustering pass does to them.

use crate::bitmask::{one_bit_masks, two_bit_masks};
use crate::partition::PartitionView;
use crate::popcount::distance;
use vstd::prelude::*;

verus! {

/// The bit distance of the codes of the vertices at place `i` of `la` and
/// place `j` of `lb`.
pub open spec fn dist_at(codes: Map<u32, u32>, la: Seq<u32>, lb: Seq<u32>, i: int, j: int) -> nat {
    distance(codes[la[i]], codes[lb[j]])
}

/// The largest bit distance from vertex `x` to a vertex of `lb` other than
/// `x`; zero where there is none.
pub open spec fn row_max(codes: Map<u32, u32>, x: u32, lb: Seq<u32>) -> nat
    decreases lb.len(),
{
    if lb.len() == 0 {
        0
    } else {
        let rest = row_max(codes, x, lb.drop_last());
        let y = lb.last();
        if x != y && distance(codes[x], codes[y]) > rest {
            distance(codes[x], codes[y])
        } else {
            rest
        }
    }
}

/// The largest bit distance between a vertex of `la` and a different vertex
/// of `lb`; zero where there is no such pair.
pub open spec fn pair_max(codes: Map<u32, u32>, la: Seq<u32>, lb: Seq<u32>) -> nat
    decreases la.len(),
{
    if la.len() == 0 {
        0
    } else {
        let rest = pair_max(codes, la.drop_last(), lb);
        let row = row_max(codes, la.last(), lb);
        if row > rest {
            row
        } else {
            rest
        }
    }
}

/// The smallest bit distance from vertex `x` to a vertex of `lb` other than
/// `x`; `u32::MAX` where there is none.
pub open spec fn row_min(codes: Map<u32, u32>, x: u32, lb: Seq<u32>) -> nat
    decreases lb.len(),
{
    if lb.len() == 0 {
        u32::MAX as nat
    } else {
        let rest = row_min(codes, x, lb.drop_last());
        let y = lb.last();
        if x != y && distance(codes[x], codes[y]) < rest {
            distance(codes[x], codes[y])
        } else {
            rest
        }
    }
}

/// The smallest bit distance between a vertex of `la` and a different vertex
/// of `lb`; `u32::MAX` where there is no such pair.
pub open spec fn pair_min(codes: Map<u32, u32>, la: Seq<u32>, lb: Seq<u32>) -> nat
    decreases la.len(),
{
    if la.len() == 0 {
        u32::MAX as nat
    } else {
        let rest = pair_min(codes, la.drop_last(), lb);
        let row = row_min(codes, la.last(), lb);
        if row < rest {
            row
        } else {
            rest
        }
    }
}

/// `row_max` is an upper bound that some vertex of `lb` attains, unless it
/// is zero.
pub proof fn lemma_row_max(codes: Map<u32, u32>, x: u32, lb: Seq<u32>)
    ensures
        forall|j: int|
            0 <= j < lb.len() && x != lb[j] ==> #[trigger] distance(codes[x], codes[lb[j]])
                <= row_max(codes, x, lb),
        row_max(codes, x, lb) == 0 || exists|j: int|
            0 <= j < lb.len() && x != lb[j] && #[trigger] distance(codes[x], codes[lb[j]])
                == row_max(codes, x, lb),
    decreases lb.len(),
{
    if lb.len() > 0 {
        let front = lb.drop_last();
        lemma_row_max(codes, x, front);
        assert forall|j: int| 0 <= j < lb.len() && x != lb[j] implies #[trigger] distance(
            codes[x],
            codes[lb[j]],
        ) <= row_max(codes, x, lb) by {
            if j < front.len() {
                assert(front[j] == lb[j]);
            }
        }
        if row_max(codes, x, lb) != 0 {
            if row_max(codes, x, lb) == row_max(codes, x, front) {
                let j = choose|j: int|
                    0 <= j < front.len() && x != front[j] && #[trigger] distance(
                        codes[x],
                        codes[front[j]],
                    ) == row_max(codes, x, front);
                assert(lb[j] == front[j]);
            } else {
                let j = lb.len() - 1;
                assert(distance(codes[x], codes[lb[j]]) == row_max(codes, x, lb));
            }
        }
    }
}

/// `pair_max` is an upper bound that some pair of different vertices
/// attains, unless it is zero.
pub proof fn lemma_pair_max(codes: Map<u32, u32>, la: Seq<u32>, lb: Seq<u32>)
    ensures
        forall|i: int, j: int|
            0 <= i < la.len() && 0 <= j < lb.len() && la[i] != lb[j] ==> #[trigger] dist_at(
                codes,
                la,
                lb,
                i,
                j,
            ) <= pair_max(codes, la, lb),
        pair_max(codes, la, lb) == 0 || exists|i: int, j: int|
            0 <= i < la.len() && 0 <= j < lb.len() && la[i] != lb[j] && #[trigger] dist_at(
                codes,
                la,
                lb,
                i,
                j,
            ) == pair_max(codes, la, lb),
    decreases la.len(),
{
    if la.len() > 0 {
        let front = la.drop_last();
        let x = la.last();
        lemma_pair_max(codes, front, lb);
        lemma_row_max(codes, x, lb);
        assert forall|i: int, j: int|
            0 <= i < la.len() && 0 <= j < lb.len() && la[i] != lb[j] implies #[trigger] dist_at(
            codes,
            la,
            lb,
            i,
            j,
        ) <= pair_max(codes, la, lb) by {
            if i < front.len() {
                assert(front[i] == la[i]);
                assert(dist_at(codes, front, lb, i, j) <= pair_max(codes, front, lb));
            } else {
                assert(distance(codes[x], codes[lb[j]]) <= row_max(codes, x, lb));
            }
        }
        if pair_max(codes, la, lb) != 0 {
            if pair_max(codes, la, lb) == pair_max(codes, front, lb) {
                let (i, j) = choose|i: int, j: int|
                    0 <= i < front.len() && 0 <= j < lb.len() && front[i] != lb[j]
                        && #[trigger] dist_at(codes, front, lb, i, j) == pair_max(
                        codes,
                        front,
                        lb,
                    );
                assert(la[i] == front[i]);
                assert(dist_at(codes, la, lb, i, j) == pair_max(codes, la, lb));
            } else {
                let j = choose|j: int|
                    0 <= j < lb.len() && x != lb[j] && #[trigger] distance(codes[x], codes[lb[j]])
                        == row_max(codes, x, lb);
                assert(dist_at(codes, la, lb, la.len() - 1, j) == pair_max(codes, la, lb));
            }
        }
    }
}

/// `row_min` is a lower bound that some vertex of `lb` attains, unless it
/// is `u32::MAX`.
pub proof fn lemma_row_min(codes: Map<u32, u32>, x: u32, lb: Seq<u32>)
    ensures
        row_min(codes, x, lb) <= u32::MAX,
        forall|j: int|
            0 <= j < lb.len() && x != lb[j] ==> row_min(codes, x, lb) <= #[trigger] distance(
                codes[x],
                codes[lb[j]],
            ),
        row_min(codes, x, lb) == u32::MAX || exists|j: int|
            0 <= j < lb.len() && x != lb[j] && #[trigger] distance(codes[x], codes[lb[j]])
                == row_min(codes, x, lb),
    decreases lb.len(),
{
    if lb.len() > 0 {
        let front = lb.drop_last();
        lemma_row_min(codes, x, front);
        assert forall|j: int| 0 <= j < lb.len() && x != lb[j] implies row_min(codes, x, lb)
            <= #[trigger] distance(codes[x], codes[lb[j]]) by {
            if j < front.len() {
                assert(front[j] == lb[j]);
            }
        }
        if row_min(codes, x, lb) != u32::MAX {
            if row_min(codes, x, lb) == row_min(codes, x, front) {
                let j = choose|j: int|
                    0 <= j < front.len() && x != front[j] && #[trigger] distance(
                        codes[x],
                        codes[front[j]],
                    ) == row_min(codes, x, front);
                assert(lb[j] == front[j]);
            } else {
                let j = lb.len() - 1;
                assert(distance(codes[x], codes[lb[j]]) == row_min(codes, x, lb));
            }
        }
    }
}

/// `pair_min` is a lower bound that some pair of different vertices
/// attains, unless it is `u32::MAX`.
pub proof fn lemma_pair_min(codes: Map<u32, u32>, la: Seq<u32>, lb: Seq<u32>)
    ensures
        pair_min(codes, la, lb) <= u32::MAX,
        forall|i: int, j: int|
            0 <= i < la.len() && 0 <= j < lb.len() && la[i] != lb[j] ==> pair_min(codes, la, lb)
                <= #[trigger] dist_at(codes, la, lb, i, j),
        pair_min(codes, la, lb) == u32::MAX || exists|i: int, j: int|
            0 <= i < la.len() && 0 <= j < lb.len() && la[i] != lb[j] && #[trigger] dist_at(
                codes,
                la,
                lb,
                i,
                j,
            ) == pair_min(codes, la, lb),
    decreases la.len(),
{
    if la.len() > 0 {
        let front = la.drop_last();
        let x = la.last();
        lemma_pair_min(codes, front, lb);
        lemma_row_min(codes, x, lb);
        assert forall|i: int, j: int|
            0 <= i < la.len() && 0 <= j < lb.len() && la[i] != lb[j] implies pair_min(
            codes,
            la,
            lb,
        ) <= #[trigger] dist_at(codes, la, lb, i, j) by {
            if i < front.len() {
                assert(front[i] == la[i]);
                assert(pair_min(codes, front, lb) <= dist_at(codes, front, lb, i, j));
            } else {
                assert(row_min(codes, x, lb) <= distance(codes[x], codes[lb[j]]));
            }
        }
        if pair_min(codes, la, lb) != u32::MAX {
            if pair_min(codes, la, lb) == pair_min(codes, front, lb) {
                let (i, j) = choose|i: int, j: int|
                    0 <= i < front.len() && 0 <= j < lb.len() && front[i] != lb[j]
                        && #[trigger] dist_at(codes, front, lb, i, j) == pair_min(
                        codes,
                        front,
                        lb,
                    );
                assert(la[i] == front[i]);
                assert(dist_at(codes, la, lb, i, j) == pair_min(codes, la, lb));
            } else {
                let j = choose|j: int|
                    0 <= j < lb.len() && x != lb[j] && #[trigger] distance(codes[x], codes[lb[j]])
                        == row_min(codes, x, lb);
                assert(dist_at(codes, la, lb, la.len() - 1, j) == pair_min(codes, la, lb));
            }
        }
    }
}

/// Lists that hold more vertices are at least as far apart.
pub proof fn lemma_pair_max_grows(
    codes: Map<u32, u32>,
    la: Seq<u32>,
    lb: Seq<u32>,
    la2: Seq<u32>,
    lb2: Seq<u32>,
)
    requires
        forall|x: u32| la.contains(x) ==> la2.contains(x),
        forall|x: u32| lb.contains(x) ==> lb2.contains(x),
    ensures
        pair_max(codes, la, lb) <= pair_max(codes, la2, lb2),
{
    lemma_pair_max(codes, la, lb);
    lemma_pair_max(codes, la2, lb2);
    if pair_max(codes, la, lb) != 0 {
        let (i, j) = choose|i: int, j: int|
            0 <= i < la.len() && 0 <= j < lb.len() && la[i] != lb[j] && #[trigger] dist_at(
                codes,
                la,
                lb,
                i,
                j,
            ) == pair_max(codes, la, lb);
        assert(la.contains(la[i]));
        assert(lb.contains(lb[j]));
        let i2 = choose|i2: int| 0 <= i2 < la2.len() && la2[i2] == la[i];
        let j2 = choose|j2: int| 0 <= j2 < lb2.len() && lb2[j2] == lb[j];
        assert(dist_at(codes, la2, lb2, i2, j2) <= pair_max(codes, la2, lb2));
    }
}

/// The groups of codes as the users of a clustering see them.
pub struct HammingView {
    /// The root and the rank of every code, and the number of groups.
    pub groups: PartitionView,
    /// The member vertices of every code: those of its whole group for a
    /// root, none for another code.
    pub members: Map<u32, Seq<u32>>,
    /// The code of every vertex.
    pub codes: Map<u32, u32>,
    /// The width of the codes in bits.
    pub width: u32,
}

impl HammingView {
    /// No vertices and no codes.
    pub open spec fn empty(width: u32) -> Self {
        HammingView {
            groups: PartitionView::empty(),
            members: Map::empty(),
            codes: Map::empty(),
            width: width,
        }
    }

    /// Every vertex is listed once, with the root of its code; a code that
    /// is not a root lists nothing; and every code is the code of a vertex.
    pub open spec fn wf(self) -> bool {
        &&& self.groups.wf()
        &&& self.members.dom() == self.groups.root.dom()
        &&& forall|v: u32|
            self.codes.contains_key(v) ==> self.groups.contains(#[trigger] self.codes[v])
        &&& forall|c: u32|
            #![trigger self.members[c]]
            self.groups.contains(c) && self.members[c].len() > 0 ==> self.groups.root[c] == c
        &&& forall|c: u32, j: int|
            #![trigger self.members[c][j]]
            self.groups.contains(c) && 0 <= j < self.members[c].len() ==> self.codes.contains_key(
                self.members[c][j],
            ) && self.groups.root[self.codes[self.members[c][j]]] == c
        &&& forall|v: u32|
            #![trigger self.codes[v]]
            self.codes.contains_key(v) ==> self.members[self.groups.root[self.codes[v]]].contains(v)
        &&& forall|c: u32|
            #![trigger self.members[c]]
            self.groups.contains(c) ==> self.members[c].no_duplicates()
        &&& forall|c: u32| self.groups.contains(c) ==> #[trigger] self.has_vertex_of(c)
    }

    /// Whether some vertex is registered with code `c`.
    pub open spec fn has_vertex_of(self, c: u32) -> bool {
        exists|v: u32| self.codes.contains_key(v) && #[trigger] self.codes[v] == c
    }

    /// The root of a group lists a vertex, and no other code lists any.
    pub proof fn lemma_root_lists(self, c: u32)
        requires
            self.wf(),
            self.groups.contains(c),
        ensures
            self.members[c].len() > 0 <==> self.groups.root[c] == c,
    {
        if self.groups.root[c] == c {
            assert(self.has_vertex_of(c));
            let v = choose|v: u32| self.codes.contains_key(v) && #[trigger] self.codes[v] == c;
            assert(self.members[self.groups.root[self.codes[v]]].contains(v));
        }
    }

    /// The view after vertex `v` is registered with `code`. A vertex that is
    /// registered already changes nothing. A new code becomes a group of
    /// its own that lists `v`; with a code that is registered, `v` is
    /// appended to the list of the code's group.
    pub open spec fn with_vertex(self, v: u32, code: u32) -> Self {
        if self.codes.contains_key(v) {
            self
        } else if !self.groups.contains(code) {
            HammingView {
                groups: self.groups.with_singleton(code),
                members: self.members.insert(code, seq![v]),
                codes: self.codes.insert(v, code),
                width: self.width,
            }
        } else {
            let r = self.groups.root[code];
            HammingView {
                groups: self.groups,
                members: self.members.insert(r, self.members[r].push(v)),
                codes: self.codes.insert(v, code),
                width: self.width,
            }
        }
    }

    /// The view after the groups of codes `a` and `b` are united: the
    /// members of the root that loses are appended to those of the root
    /// that wins.
    pub open spec fn union(self, a: u32, b: u32) -> Self {
        if self.groups.same_set(a, b) {
            self
        } else {
            let w = self.groups.winner(a, b);
            let l = self.groups.loser(a, b);
            HammingView {
                groups: self.groups.union(a, b),
                members: self.members.insert(w, self.members[w] + self.members[l]).insert(
                    l,
                    Seq::empty(),
                ),
                codes: self.codes,
                width: self.width,
            }
        }
    }

    /// The view after the rank of `code` is raised by one.
    pub open spec fn with_rank_raised(self, code: u32) -> Self {
        HammingView {
            groups: PartitionView {
                root: self.groups.root,
                rank: self.groups.rank.insert(code, (self.groups.rank[code] + 1) as u32),
                count: self.groups.count,
            },
            members: self.members,
            codes: self.codes,
            width: self.width,
        }
    }

    /// The bit distance of the codes of two vertices.
    pub open spec fn spacing(self, v1: u32, v2: u32) -> nat {
        distance(self.codes[v1], self.codes[v2])
    }

    /// The largest spacing between a member of code `a` and a different
    /// member of code `b`.
    pub open spec fn max_spacing(self, a: u32, b: u32) -> nat {
        pair_max(self.codes, self.members[a], self.members[b])
    }

    /// The smallest spacing between a member of code `a` and a different
    /// member of code `b`.
    pub open spec fn min_spacing(self, a: u32, b: u32) -> nat {
        pair_min(self.codes, self.members[a], self.members[b])
    }

    /// The view after code `c` has looked at its neighbour `c ^ mask`: where
    /// the neighbour is a registered code of another group, and the largest
    /// spacing between the two groups is below `d`, the groups are united.
    pub open spec fn step(self, c: u32, mask: u32, d: u32) -> Self {
        let dest = c ^ mask;
        if !self.groups.contains(dest) || self.groups.same_set(c, dest) {
            self
        } else if self.max_spacing(self.groups.root[c], self.groups.root[dest]) < d {
            self.union(c, dest)
        } else {
            self
        }
    }

    /// The view after code `c` has looked at its neighbours under the masks
    /// from place `from` on, in turn.
    pub open spec fn visit(self, c: u32, masks: Seq<u32>, from: int, d: u32) -> Self
        decreases masks.len() - from,
    {
        if from < 0 || from >= masks.len() {
            self
        } else {
            self.step(c, masks[from], d).visit(c, masks, from + 1, d)
        }
    }

    /// The view after code `c` has looked at all its neighbours: under the
    /// one-bit masks first, then under the two-bit masks.
    pub open spec fn visit_code(self, c: u32, d: u32) -> Self {
        self.visit(c, one_bit_masks(self.width as nat), 0, d).visit(
            c,
            two_bit_masks(self.width as nat),
            0,
            d,
        )
    }

    /// The view after the registered codes from `from` up have looked at
    /// their neighbours, in ascending order.
    pub open spec fn sweep(self, from: int, d: u32) -> Self
        decreases 0x1_0000_0000 - from,
    {
        if from < 0 || from > u32::MAX {
            self
        } else if self.groups.contains(from as u32) {
            self.visit_code(from as u32, d).sweep(from + 1, d)
        } else {
            self.sweep(from + 1, d)
        }
    }

    /// The view after one clustering pass with threshold `d`.
    pub open spec fn clustered(self, d: u32) -> Self {
        self.sweep(0, d)
    }

    /// Whether `mask` is one of the masks that a pass looks under.
    pub open spec fn is_mask(self, mask: u32) -> bool {
        one_bit_masks(self.width as nat).contains(mask) || two_bit_masks(
            self.width as nat,
        ).contains(mask)
    }

    /// Code `c` and its neighbour `c ^ mask` have nothing left to unite:
    /// they are in one group, or their groups are `d` apart or more.
    pub open spec fn pair_settled(self, c: u32, mask: u32, d: u32) -> bool {
        let dest = c ^ mask;
        self.groups.contains(c) && self.groups.contains(dest) && !self.groups.same_set(c, dest)
            ==> self.max_spacing(self.groups.root[c], self.groups.root[dest]) >= d
    }

    /// No code has a neighbour left to unite with.
    pub open spec fn settled(self, d: u32) -> bool {
        forall|c: u32, mask: u32| self.is_mask(mask) ==> #[trigger] self.pair_settled(c, mask, d)
    }

    /// No group holds two different vertices that are `d` apart or more.
    pub open spec fn tight(self, d: u32) -> bool {
        forall|x: u32, y: u32|
            #![trigger self.codes[x], self.codes[y]]
            self.codes.contains_key(x) && self.codes.contains_key(y) && x != y
                && self.groups.same_set(self.codes[x], self.codes[y]) ==> self.spacing(x, y) < d
    }

    /// The same registered codes, vertices and width.
    pub open spec fn same_keys(self, other: Self) -> bool {
        &&& self.groups.root.dom() == other.groups.root.dom()
        &&& self.codes == other.codes
        &&& self.width == other.width
    }
}

} // verus!
