//! A forest of disjoint sets over the slots `0..n`: union by rank with path
//! compression, on a flat array of parent links.

use vstd::prelude::*;
use vstd::set_lib::*;

verus! {

/// Parent links and ranks form a forest: every link stays inside the array
/// and leads to a slot of strictly higher rank, except a root's link, which
/// leads to the root itself.
pub open spec fn links_ok(parent: Seq<usize>, rank: Seq<u32>) -> bool {
    &&& parent.len() == rank.len()
    &&& forall|i: int| 0 <= i < parent.len() ==> 0 <= #[trigger] parent[i] < parent.len()
    &&& forall|i: int|
        0 <= i < parent.len() && parent[i] != i ==> rank[i] < #[trigger] rank[parent[i] as int]
}

/// The root that the parent links lead to from slot `i`.
pub open spec fn root_of(parent: Seq<usize>, rank: Seq<u32>, i: int) -> int
    decreases u32::MAX - rank[i],
    when links_ok(parent, rank) && 0 <= i < parent.len()
{
    if parent[i] == i {
        i
    } else {
        root_of(parent, rank, parent[i] as int)
    }
}

/// The slots that are their own parent.
pub open spec fn roots(parent: Seq<usize>) -> Set<int> {
    Set::new(|i: int| 0 <= i < parent.len() && parent[i] == i)
}

/// Whether slot `j` lies on the way from slot `i` to its root, both ends
/// included.
pub open spec fn on_path(parent: Seq<usize>, rank: Seq<u32>, i: int, j: int) -> bool
    decreases u32::MAX - rank[i],
    when links_ok(parent, rank) && 0 <= i < parent.len()
{
    j == i || (parent[i] != i && on_path(parent, rank, parent[i] as int, j))
}

/// The links after path compression from slot `i`: every slot on the way
/// from `i` to its root links straight to the root, and no other link
/// changes.
pub open spec fn compressed(parent: Seq<usize>, rank: Seq<u32>, i: int) -> Seq<usize> {
    Seq::new(
        parent.len(),
        |j: int|
            if on_path(parent, rank, i, j) {
                root_of(parent, rank, i) as usize
            } else {
                parent[j]
            },
    )
}

/// The links after path compression from slot `a` and then from slot `b`.
pub open spec fn compressed_twice(parent: Seq<usize>, rank: Seq<u32>, a: int, b: int) -> Seq<
    usize,
> {
    compressed(compressed(parent, rank, a), rank, b)
}

/// Of two distinct roots, the one that stays a root when they are united: the
/// one of higher rank, and the first on a tie.
pub open spec fn winner(rank: Seq<u32>, ra: int, rb: int) -> int {
    if rank[ra] >= rank[rb] {
        ra
    } else {
        rb
    }
}

/// Of two distinct roots, the one that is attached under the other.
pub open spec fn loser(rank: Seq<u32>, ra: int, rb: int) -> int {
    if rank[ra] >= rank[rb] {
        rb
    } else {
        ra
    }
}

/// The ranks after two distinct roots are united: the winner's rank grows by
/// one when the ranks were equal, and nothing else changes.
pub open spec fn ranks_after_union(rank: Seq<u32>, ra: int, rb: int) -> Seq<u32> {
    if rank[ra] == rank[rb] {
        rank.update(ra, (rank[ra] + 1) as u32)
    } else {
        rank
    }
}

/// The root of a slot is a root inside the array, of rank no lower than the
/// slot's, and strictly higher unless the slot is the root.
pub proof fn lemma_root_of(parent: Seq<usize>, rank: Seq<u32>, i: int)
    requires
        links_ok(parent, rank),
        0 <= i < parent.len(),
    ensures
        0 <= root_of(parent, rank, i) < parent.len(),
        parent[root_of(parent, rank, i)] == root_of(parent, rank, i),
        root_of(parent, rank, root_of(parent, rank, i)) == root_of(parent, rank, i),
        rank[i] <= rank[root_of(parent, rank, i)],
        parent[i] != i ==> rank[i] < rank[root_of(parent, rank, i)],
        parent[i] == i <==> root_of(parent, rank, i) == i,
    decreases u32::MAX - rank[i],
{
    if parent[i] != i {
        lemma_root_of(parent, rank, parent[i] as int);
    }
}

/// A slot on the way from `i` to its root is a slot of no lower rank and of
/// the same root.
pub proof fn lemma_on_path(parent: Seq<usize>, rank: Seq<u32>, i: int, j: int)
    requires
        links_ok(parent, rank),
        0 <= i < parent.len(),
        on_path(parent, rank, i, j),
    ensures
        0 <= j < parent.len(),
        rank[i] <= rank[j],
        root_of(parent, rank, j) == root_of(parent, rank, i),
    decreases u32::MAX - rank[i],
{
    if j != i {
        lemma_on_path(parent, rank, parent[i] as int, j);
    }
}

/// What is on the way from a slot on the way from `i` is on the way from
/// `i`.
pub proof fn lemma_on_path_trans(parent: Seq<usize>, rank: Seq<u32>, i: int, a: int, b: int)
    requires
        links_ok(parent, rank),
        0 <= i < parent.len(),
        on_path(parent, rank, i, a),
        on_path(parent, rank, a, b),
    ensures
        on_path(parent, rank, i, b),
    decreases u32::MAX - rank[i],
{
    if a != i {
        lemma_on_path_trans(parent, rank, parent[i] as int, a, b);
    }
}

/// There are no more roots than slots.
pub proof fn lemma_roots_bound(parent: Seq<usize>)
    ensures
        roots(parent).finite(),
        roots(parent).len() <= parent.len(),
{
    lemma_int_range(0, parent.len() as int);
    lemma_len_subset(roots(parent), set_int_range(0, parent.len() as int));
}

/// Pointing a slot straight at its root keeps the forest a forest.
proof fn lemma_compress_ok(parent: Seq<usize>, rank: Seq<u32>, x: int)
    requires
        links_ok(parent, rank),
        0 <= x < parent.len(),
    ensures
        links_ok(parent.update(x, root_of(parent, rank, x) as usize), rank),
{
    lemma_root_of(parent, rank, x);
}

/// Pointing a slot straight at its root changes no slot's root.
proof fn lemma_compress_root(parent: Seq<usize>, rank: Seq<u32>, x: int, j: int)
    requires
        links_ok(parent, rank),
        0 <= x < parent.len(),
        0 <= j < parent.len(),
    ensures
        root_of(parent.update(x, root_of(parent, rank, x) as usize), rank, j) == root_of(
            parent,
            rank,
            j,
        ),
    decreases u32::MAX - rank[j],
{
    let r = root_of(parent, rank, x);
    let after = parent.update(x, r as usize);
    lemma_root_of(parent, rank, x);
    lemma_compress_ok(parent, rank, x);
    if j == x {
        if r != x {
            assert(after[r] == r);
            assert(root_of(after, rank, r) == r);
            assert(root_of(after, rank, x) == root_of(after, rank, after[x] as int));
        }
    } else if parent[j] != j {
        lemma_compress_root(parent, rank, x, parent[j] as int);
        assert(root_of(after, rank, j) == root_of(after, rank, after[j] as int));
    }
}

/// Raising the rank of a root keeps the forest a forest.
proof fn lemma_bump_ok(parent: Seq<usize>, rank: Seq<u32>, w: int)
    requires
        links_ok(parent, rank),
        0 <= w < parent.len(),
        parent[w] == w,
        rank[w] < u32::MAX,
    ensures
        links_ok(parent, rank.update(w, (rank[w] + 1) as u32)),
{
    let after = rank.update(w, (rank[w] + 1) as u32);
    assert forall|i: int| 0 <= i < parent.len() && parent[i] != i implies after[i] < #[trigger] after[parent[i] as int] by {
        assert(rank[i] < rank[parent[i] as int]);
    }
}

/// Raising the rank of a root changes no slot's root.
proof fn lemma_bump_root(parent: Seq<usize>, rank: Seq<u32>, w: int, j: int)
    requires
        links_ok(parent, rank),
        0 <= w < parent.len(),
        parent[w] == w,
        rank[w] < u32::MAX,
        0 <= j < parent.len(),
    ensures
        root_of(parent, rank.update(w, (rank[w] + 1) as u32), j) == root_of(parent, rank, j),
    decreases u32::MAX - rank[j],
{
    let after = rank.update(w, (rank[w] + 1) as u32);
    lemma_bump_ok(parent, rank, w);
    if parent[j] != j {
        lemma_bump_root(parent, rank, w, parent[j] as int);
        assert(root_of(parent, after, j) == root_of(parent, after, parent[j] as int));
    }
}

/// Attaching a root under a root of higher rank keeps the forest a forest.
proof fn lemma_link_ok(parent: Seq<usize>, rank: Seq<u32>, w: int, l: int)
    requires
        links_ok(parent, rank),
        0 <= w < parent.len(),
        0 <= l < parent.len(),
        parent[w] == w,
        parent[l] == l,
        rank[l] < rank[w],
    ensures
        links_ok(parent.update(l, w as usize), rank),
{
    let after = parent.update(l, w as usize);
    assert forall|i: int| 0 <= i < after.len() && after[i] != i implies rank[i] < #[trigger] rank[after[i] as int] by {
        if i != l {
            assert(rank[i] < rank[parent[i] as int]);
        }
    }
}

/// Attaching the root `l` under the root `w` moves to `w` the slots whose root
/// was `l`, and no others.
proof fn lemma_link_root(parent: Seq<usize>, rank: Seq<u32>, w: int, l: int, j: int)
    requires
        links_ok(parent, rank),
        0 <= w < parent.len(),
        0 <= l < parent.len(),
        parent[w] == w,
        parent[l] == l,
        rank[l] < rank[w],
        0 <= j < parent.len(),
    ensures
        root_of(parent.update(l, w as usize), rank, j) == (if root_of(parent, rank, j) == l {
            w
        } else {
            root_of(parent, rank, j)
        }),
    decreases u32::MAX - rank[j],
{
    let after = parent.update(l, w as usize);
    lemma_link_ok(parent, rank, w, l);
    if j == l {
        assert(after[w] == w);
        assert(root_of(after, rank, w) == w);
        assert(root_of(after, rank, l) == root_of(after, rank, after[l] as int));
    } else if parent[j] != j {
        lemma_link_root(parent, rank, w, l, parent[j] as int);
        assert(root_of(after, rank, j) == root_of(after, rank, after[j] as int));
    }
}

/// Disjoint sets over the slots `0..len()`.
#[derive(Debug)]
pub struct Forest {
    parent: Vec<usize>,
    rank: Vec<u32>,
    count: usize,
}

impl Forest {
    /// The parent link of every slot; a root links to itself.
    pub closed spec fn parents(&self) -> Seq<usize> {
        self.parent@
    }

    /// The rank of every slot.
    pub closed spec fn ranks(&self) -> Seq<u32> {
        self.rank@
    }

    /// The number of disjoint sets, as counted by the forest.
    pub closed spec fn sets(&self) -> int {
        self.count as int
    }

    /// The number of slots.
    pub open spec fn size(&self) -> nat {
        self.parents().len()
    }

    /// The links form a forest and the counter holds the number of roots.
    pub open spec fn wf(&self) -> bool {
        &&& links_ok(self.parents(), self.ranks())
        &&& self.sets() == roots(self.parents()).len()
    }

    /// The root of the set that holds slot `i`.
    pub open spec fn root(&self, i: int) -> int {
        root_of(self.parents(), self.ranks(), i)
    }

    /// Whether slot `i` is the root of its set.
    pub open spec fn is_root(&self, i: int) -> bool {
        self.parents()[i] == i
    }

    /// Ranks are no higher than unions can have made them: with `u` unions
    /// done, no rank is above `u + 1`, and the ranks of two distinct roots
    /// add up to `u + 2` at most.
    pub open spec fn balanced(&self) -> bool {
        let unions = self.size() - self.sets();
        &&& forall|i: int| 0 <= i < self.size() ==> #[trigger] self.ranks()[i] <= unions + 1
        &&& forall|a: int, b: int|
            #![trigger self.ranks()[a], self.ranks()[b]]
            0 <= a < self.size() && 0 <= b < self.size() && a != b && self.is_root(a)
                && self.is_root(b) ==> self.ranks()[a] + self.ranks()[b] <= unions + 2
    }

    /// Uniting the sets of `a` and `b` would not push a rank past `u32::MAX`.
    pub open spec fn union_fits(&self, a: int, b: int) -> bool {
        self.root(a) != self.root(b) && self.ranks()[self.root(a)] == self.ranks()[self.root(b)]
            ==> self.ranks()[self.root(a)] < u32::MAX
    }

    /// In a balanced forest of at most 2^32 slots every union fits.
    pub proof fn lemma_balanced_fits(&self, a: int, b: int)
        requires
            self.wf(),
            self.balanced(),
            self.size() <= 0x1_0000_0000,
            0 <= a < self.size(),
            0 <= b < self.size(),
        ensures
            self.union_fits(a, b),
    {
        lemma_root_of(self.parents(), self.ranks(), a);
        lemma_root_of(self.parents(), self.ranks(), b);
        lemma_roots_bound(self.parents());
        let ra = self.root(a);
        let rb = self.root(b);
        if ra != rb {
            assert(self.ranks()[ra] + self.ranks()[rb] <= self.size() - self.sets() + 2);
        }
    }

    /// An empty forest.
    pub fn new() -> (f: Self)
        ensures
            f.wf(),
            f.balanced(),
            f.size() == 0,
            f.sets() == 0,
    {
        let f = Forest { parent: Vec::new(), rank: Vec::new(), count: 0 };
        proof {
            assert(roots(f.parents()) =~= Set::<int>::empty());
        }
        f
    }

    /// The number of slots.
    pub fn len(&self) -> (n: usize)
        requires
            self.wf(),
        ensures
            n == self.size(),
    {
        self.parent.len()
    }

    /// The number of disjoint sets.
    pub fn set_count(&self) -> (n: usize)
        ensures
            n == self.sets(),
    {
        self.count
    }

    /// Adds a slot as a set of its own, of rank 1, and returns the slot.
    pub fn add(&mut self) -> (slot: usize)
        requires
            old(self).wf(),
        ensures
            final(self).wf(),
            slot == old(self).size(),
            final(self).parents() == old(self).parents().push(slot),
            final(self).ranks() == old(self).ranks().push(1u32),
            final(self).sets() == old(self).sets() + 1,
            final(self).root(slot as int) == slot,
            forall|j: int|
                0 <= j < old(self).size() ==> #[trigger] final(self).root(j) == old(self).root(j),
            old(self).balanced() ==> final(self).balanced(),
    {
        let slot: usize = self.parent.len();
        let ghost before = *self;
        self.parent.push(slot);
        self.rank.push(1);
        let grown: usize = self.parent.len();
        proof {
            lemma_roots_bound(before.parents());
            assert(roots(self.parents()) =~= roots(before.parents()).insert(slot as int));
        }
        self.count = self.count + 1;
        proof {
            assert forall|j: int| 0 <= j < before.size() implies #[trigger] self.root(j)
                == before.root(j) by {
                Self::lemma_add_root(before.parents(), before.ranks(), j);
            }
            if before.size() > 0 {
                Self::lemma_add_root(before.parents(), before.ranks(), 0);
            } else {
                assert(links_ok(self.parents(), self.ranks()));
            }
            if before.balanced() {
                assert forall|i: int| 0 <= i < self.size() implies #[trigger] self.ranks()[i]
                    <= self.size() - self.sets() + 1 by {
                    if i < before.size() {
                        assert(before.ranks()[i] <= before.size() - before.sets() + 1);
                    }
                }
                assert forall|a: int, b: int|
                    #![trigger self.ranks()[a], self.ranks()[b]]
                    0 <= a < self.size() && 0 <= b < self.size() && a != b && self.is_root(a)
                        && self.is_root(b) implies self.ranks()[a] + self.ranks()[b] <= self.size()
                        - self.sets() + 2 by {
                    if a < before.size() && b < before.size() {
                        assert(before.ranks()[a] + before.ranks()[b] <= before.size()
                            - before.sets() + 2);
                    } else if a < before.size() {
                        assert(before.ranks()[a] <= before.size() - before.sets() + 1);
                    } else {
                        assert(before.ranks()[b] <= before.size() - before.sets() + 1);
                    }
                }
            }
        }
        slot
    }

    /// A slot added at the end changes no earlier slot's root.
    proof fn lemma_add_root(parent: Seq<usize>, rank: Seq<u32>, j: int)
        requires
            links_ok(parent, rank),
            0 <= j < parent.len(),
            parent.len() <= usize::MAX,
        ensures
            links_ok(parent.push(parent.len() as usize), rank.push(1u32)),
            root_of(parent.push(parent.len() as usize), rank.push(1u32), j) == root_of(
                parent,
                rank,
                j,
            ),
        decreases u32::MAX - rank[j],
    {
        let parent2 = parent.push(parent.len() as usize);
        let rank2 = rank.push(1u32);
        assert forall|i: int| 0 <= i < parent2.len() && parent2[i] != i implies rank2[i]
            < #[trigger] rank2[parent2[i] as int] by {
            assert(rank[i] < rank[parent[i] as int]);
        }
        if parent[j] != j {
            Self::lemma_add_root(parent, rank, parent[j] as int);
            assert(root_of(parent2, rank2, j) == root_of(parent2, rank2, parent2[j] as int));
        }
    }

    /// The rank of slot `i`.
    pub fn rank_of(&self, i: usize) -> (r: u32)
        requires
            self.wf(),
            i < self.size(),
        ensures
            r == self.ranks()[i as int],
    {
        self.rank[i]
    }

    /// The slot that slot `i` links to: itself, for a root.
    pub fn parent_of(&self, i: usize) -> (p: usize)
        requires
            self.wf(),
            i < self.size(),
        ensures
            p == self.parents()[i as int],
            p < self.size(),
    {
        self.parent[i]
    }

    /// Raises the rank of the root `i` by one.
    pub fn bump_rank(&mut self, i: usize)
        requires
            old(self).wf(),
            i < old(self).size(),
            old(self).is_root(i as int),
            old(self).ranks()[i as int] < u32::MAX,
        ensures
            final(self).wf(),
            final(self).parents() == old(self).parents(),
            final(self).ranks() == old(self).ranks().update(
                i as int,
                (old(self).ranks()[i as int] + 1) as u32,
            ),
            final(self).sets() == old(self).sets(),
            forall|j: int|
                0 <= j < old(self).size() ==> #[trigger] final(self).root(j) == old(self).root(j),
    {
        let ghost before = *self;
        let r: u32 = self.rank[i];
        self.rank.set(i, r + 1);
        proof {
            lemma_bump_ok(before.parents(), before.ranks(), i as int);
            assert forall|j: int| 0 <= j < before.size() implies #[trigger] self.root(j)
                == before.root(j) by {
                lemma_bump_root(before.parents(), before.ranks(), i as int, j);
            }
        }
    }

    /// The root of the set that holds slot `i`, found without touching the
    /// links.
    pub fn root_at(&self, i: usize) -> (r: usize)
        requires
            self.wf(),
            i < self.size(),
        ensures
            r == self.root(i as int),
            r < self.size(),
            self.is_root(r as int),
    {
        let mut r: usize = i;
        while self.parent[r] != r
            invariant
                self.wf(),
                r < self.size(),
                self.root(r as int) == self.root(i as int),
            decreases u32::MAX - self.ranks()[r as int],
        {
            r = self.parent[r];
        }
        r
    }

    /// The root of the set that holds slot `i`. Every slot on the way from
    /// `i` to the root is linked straight to the root; no set changes.
    pub fn find(&mut self, i: usize) -> (r: usize)
        requires
            old(self).wf(),
            i < old(self).size(),
        ensures
            final(self).wf(),
            r == old(self).root(i as int),
            r < old(self).size(),
            final(self).is_root(r as int),
            final(self).size() == old(self).size(),
            final(self).parents() == compressed(old(self).parents(), old(self).ranks(), i as int),
            final(self).ranks() == old(self).ranks(),
            final(self).sets() == old(self).sets(),
            roots(final(self).parents()) == roots(old(self).parents()),
            forall|j: int|
                0 <= j < old(self).size() ==> #[trigger] final(self).root(j) == old(self).root(j),
            old(self).balanced() ==> final(self).balanced(),
    {
        let r: usize = self.root_at(i);
        let ghost before = *self;
        let ghost links = before.parents();
        let ghost ranks = before.ranks();
        let mut cur: usize = i;
        while cur != r
            invariant
                links_ok(self.parents(), self.ranks()),
                self.ranks() == ranks,
                self.sets() == before.sets(),
                self.size() == before.size(),
                roots(self.parents()) == roots(links),
                before.wf(),
                links == before.parents(),
                ranks == before.ranks(),
                i < self.size(),
                cur < self.size(),
                r < self.size(),
                r == before.root(i as int),
                self.root(cur as int) == r,
                on_path(links, ranks, i as int, cur as int),
                forall|j: int|
                    0 <= j < before.size() ==> #[trigger] self.root(j) == before.root(j),
                forall|j: int|
                    0 <= j < before.size() ==> #[trigger] self.parents()[j] == (if on_path(
                        links,
                        ranks,
                        i as int,
                        j,
                    ) && !on_path(links, ranks, cur as int, j) {
                        r
                    } else {
                        links[j]
                    }),
            decreases u32::MAX - self.ranks()[cur as int],
        {
            let next: usize = self.parent[cur];
            let ghost mid = *self;
            proof {
                lemma_root_of(mid.parents(), mid.ranks(), cur as int);
                lemma_compress_ok(mid.parents(), mid.ranks(), cur as int);
                assert(next == links[cur as int]);
                assert(before.root(cur as int) == r);
                lemma_root_of(links, ranks, cur as int);
                assert(on_path(links, ranks, next as int, next as int));
                assert(on_path(links, ranks, cur as int, next as int));
                lemma_on_path_trans(links, ranks, i as int, cur as int, next as int);
            }
            self.parent.set(cur, r);
            proof {
                assert(self.parents() == mid.parents().update(cur as int, r));
                assert(roots(self.parents()) =~= roots(mid.parents()));
                assert forall|j: int| 0 <= j < before.size() implies #[trigger] self.root(j)
                    == before.root(j) by {
                    lemma_compress_root(mid.parents(), mid.ranks(), cur as int, j);
                    assert(mid.root(j) == before.root(j));
                }
                assert(mid.root(cur as int) == mid.root(next as int));
                assert(self.root(next as int) == before.root(next as int));
                assert forall|j: int| 0 <= j < before.size() implies #[trigger] self.parents()[j]
                    == (if on_path(links, ranks, i as int, j) && !on_path(
                    links,
                    ranks,
                    next as int,
                    j,
                ) {
                    r
                } else {
                    links[j]
                }) by {
                    if j == cur {
                        if on_path(links, ranks, next as int, cur as int) {
                            lemma_on_path(links, ranks, next as int, cur as int);
                        }
                    }
                }
            }
            cur = next;
        }
        proof {
            lemma_root_of(self.parents(), self.ranks(), r as int);
            lemma_root_of(links, ranks, i as int);
            assert forall|j: int| 0 <= j < before.size() implies self.parents()[j] == compressed(
                links,
                ranks,
                i as int,
            )[j] by {
                if on_path(links, ranks, r as int, j) {
                    assert(j == r);
                }
            }
            assert(self.parents() =~= compressed(links, ranks, i as int));
            if before.balanced() {
                assert forall|a: int, b: int|
                    #![trigger self.ranks()[a], self.ranks()[b]]
                    0 <= a < self.size() && 0 <= b < self.size() && a != b && self.is_root(a)
                        && self.is_root(b) implies self.ranks()[a] + self.ranks()[b] <= self.size()
                        - self.sets() + 2 by {
                    assert(roots(self.parents()).contains(a));
                    assert(roots(before.parents()).contains(a));
                    assert(roots(self.parents()).contains(b));
                    assert(roots(before.parents()).contains(b));
                    assert(before.ranks()[a] + before.ranks()[b] <= before.size() - before.sets()
                        + 2);
                }
            }
        }
        r
    }

    /// Whether slots `a` and `b` are in one set.
    pub fn same_set(&mut self, a: usize, b: usize) -> (same: bool)
        requires
            old(self).wf(),
            a < old(self).size(),
            b < old(self).size(),
        ensures
            final(self).wf(),
            same == (old(self).root(a as int) == old(self).root(b as int)),
            final(self).size() == old(self).size(),
            final(self).parents() == compressed_twice(
                old(self).parents(),
                old(self).ranks(),
                a as int,
                b as int,
            ),
            final(self).ranks() == old(self).ranks(),
            final(self).sets() == old(self).sets(),
            roots(final(self).parents()) == roots(old(self).parents()),
            forall|j: int|
                0 <= j < old(self).size() ==> #[trigger] final(self).root(j) == old(self).root(j),
            old(self).balanced() ==> final(self).balanced(),
    {
        let ra: usize = self.find(a);
        let rb: usize = self.find(b);
        ra == rb
    }

    /// Unites the sets of slots `a` and `b`. Returns `None`, with no set
    /// changed, when they were one set already; otherwise the root that took
    /// the other set in, followed by the root that was attached under it.
    pub fn union(&mut self, a: usize, b: usize) -> (joined: Option<(usize, usize)>)
        requires
            old(self).wf(),
            a < old(self).size(),
            b < old(self).size(),
            old(self).union_fits(a as int, b as int),
        ensures
            final(self).wf(),
            final(self).size() == old(self).size(),
            old(self).balanced() ==> final(self).balanced(),
            old(self).root(a as int) == old(self).root(b as int) ==> {
                &&& joined is None
                &&& final(self).parents() == compressed_twice(
                    old(self).parents(),
                    old(self).ranks(),
                    a as int,
                    b as int,
                )
                &&& final(self).ranks() == old(self).ranks()
                &&& final(self).sets() == old(self).sets()
                &&& roots(final(self).parents()) == roots(old(self).parents())
                &&& forall|j: int|
                    0 <= j < old(self).size() ==> #[trigger] final(self).root(j) == old(self).root(
                        j,
                    )
            },
            old(self).root(a as int) != old(self).root(b as int) ==> {
                let ra = old(self).root(a as int);
                let rb = old(self).root(b as int);
                let w = winner(old(self).ranks(), ra, rb);
                let l = loser(old(self).ranks(), ra, rb);
                &&& joined == Some((w as usize, l as usize))
                &&& final(self).parents() == compressed_twice(
                    old(self).parents(),
                    old(self).ranks(),
                    a as int,
                    b as int,
                ).update(l, w as usize)
                &&& final(self).ranks() == ranks_after_union(old(self).ranks(), ra, rb)
                &&& final(self).sets() == old(self).sets() - 1
                &&& roots(final(self).parents()) == roots(old(self).parents()).remove(l)
                &&& forall|j: int|
                    0 <= j < old(self).size() ==> #[trigger] final(self).root(j) == (if old(
                        self,
                    ).root(j) == l {
                        w
                    } else {
                        old(self).root(j)
                    })
            },
    {
        let ghost before = *self;
        let ra: usize = self.find(a);
        let ghost mid = *self;
        let rb: usize = self.find(b);
        if ra == rb {
            return None;
        }
        let ghost found = *self;
        proof {
            assert(roots(mid.parents()).contains(ra as int));
            assert(roots(found.parents()).contains(ra as int));
            assert(found.union_fits(a as int, b as int));
        }
        let rank_a: u32 = self.rank[ra];
        let rank_b: u32 = self.rank[rb];
        let (w, l): (usize, usize) = if rank_a >= rank_b {
            (ra, rb)
        } else {
            (rb, ra)
        };
        if rank_a == rank_b {
            self.bump_rank(w);
        }
        let ghost bumped = *self;
        proof {
            lemma_roots_bound(bumped.parents());
            lemma_link_ok(bumped.parents(), bumped.ranks(), w as int, l as int);
        }
        self.parent.set(l, w);
        proof {
            assert(self.parents() == bumped.parents().update(l as int, w));
            assert(roots(self.parents()) =~= roots(bumped.parents()).remove(l as int));
            assert(roots(bumped.parents()).contains(l as int));
        }
        self.count = self.count - 1;
        proof {
            assert forall|j: int| 0 <= j < before.size() implies #[trigger] self.root(j) == (
            if before.root(j) == l {
                w as int
            } else {
                before.root(j)
            }) by {
                lemma_link_root(bumped.parents(), bumped.ranks(), w as int, l as int, j);
                assert(bumped.root(j) == found.root(j));
                assert(found.root(j) == before.root(j));
            }
            if before.balanced() {
                assert(found.balanced());
                let unions = found.size() - found.sets();
                assert forall|i: int| 0 <= i < self.size() implies #[trigger] self.ranks()[i]
                    <= unions + 2 by {
                    assert(found.ranks()[i] <= unions + 1);
                }
                assert forall|x: int, y: int|
                    #![trigger self.ranks()[x], self.ranks()[y]]
                    0 <= x < self.size() && 0 <= y < self.size() && x != y && self.is_root(x)
                        && self.is_root(y) implies self.ranks()[x] + self.ranks()[y] <= unions
                    + 3 by {
                    assert(found.is_root(x) && found.is_root(y));
                    assert(found.ranks()[x] + found.ranks()[y] <= unions + 2);
                    if x == w {
                        assert(found.ranks()[w as int] + found.ranks()[l as int] <= unions + 2);
                    }
                    if y == w {
                        assert(found.ranks()[w as int] + found.ranks()[l as int] <= unions + 2);
                    }
                }
            }
        }
        Some((w, l))
    }
}

} // verus!
