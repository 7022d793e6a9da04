//! What holds of disjoint sets and of clustering, whatever the keys and
//! whatever was done before.

use crate::bitmask::bit;
use crate::cluster::{crossing, united_down_to, ClusteringInfo, Edge};
use crate::hamming_model::{dist_at, lemma_pair_max, lemma_pair_min, HammingView};
use crate::hamming_proofs::{
    lemma_sweep_keeps_tight, lemma_sweep_of_settled, lemma_sweep_settles, lemma_sweep_wf,
};
use crate::hammingcluster::HammingClusteringInfo;
use crate::partition::{Partition, PartitionView};
use crate::popcount::{distance, popcount};
use crate::sorting::{lemma_stable_sort_unique, stable_sort_of};
use vstd::prelude::*;

verus! {

/// The groups after the keys are registered in turn, each as a group of its
/// own.
pub open spec fn registered(groups: PartitionView, keys: Seq<u32>) -> PartitionView
    decreases keys.len(),
{
    if keys.len() == 0 {
        groups
    } else {
        registered(groups, keys.drop_last()).with_singleton(keys.last())
    }
}

/// The groups after the pairs are united in turn.
pub open spec fn united(groups: PartitionView, pairs: Seq<(u32, u32)>) -> PartitionView
    decreases pairs.len(),
{
    if pairs.len() == 0 {
        groups
    } else {
        united(groups, pairs.drop_last()).union(pairs.last().0, pairs.last().1)
    }
}

/// The number of pairs that are in different groups when their turn to be
/// united comes.
pub open spec fn effective_unions(groups: PartitionView, pairs: Seq<(u32, u32)>) -> nat
    decreases pairs.len(),
{
    if pairs.len() == 0 {
        0
    } else {
        let before = united(groups, pairs.drop_last());
        effective_unions(groups, pairs.drop_last()) + (if before.same_set(
            pairs.last().0,
            pairs.last().1,
        ) {
            0nat
        } else {
            1nat
        })
    }
}

/// The root of a key is its own root: finding the root of what a find
/// returned returns it again.
pub proof fn law_find_idempotent(sets: Partition, x: u32)
    requires
        sets.wf(),
        sets@.contains(x),
    ensures
        sets@.contains(sets@.root[x]),
        sets@.root[sets@.root[x]] == sets@.root[x],
{
    sets.lemma_view_wf();
}

/// In a graph, the root of a vertex is its own root.
pub proof fn law_find_grouping_idempotent(graph: ClusteringInfo, x: u32)
    requires
        graph.wf(),
        graph@.groups.contains(x),
    ensures
        graph@.groups.contains(graph@.groups.root[x]),
        graph@.groups.root[graph@.groups.root[x]] == graph@.groups.root[x],
{
    graph.partition().lemma_view_wf();
}

/// Among codes, the root of a code is its own root.
pub proof fn law_find_code_idempotent(codes: HammingClusteringInfo, x: u32)
    requires
        codes.wf(),
        codes@.groups.contains(x),
    ensures
        codes@.groups.contains(codes@.groups.root[x]),
        codes@.groups.root[codes@.groups.root[x]] == codes@.groups.root[x],
{
}

/// Being in one group is an equivalence: every key is in one group with
/// itself; if `x` is with `y` then `y` is with `x`; and if `x` is with `y`
/// and `y` with `z`, then `x` is with `z`.
pub proof fn law_same_group_equivalence(groups: PartitionView, x: u32, y: u32, z: u32)
    ensures
        groups.same_set(x, x),
        groups.same_set(x, y) ==> groups.same_set(y, x),
        groups.same_set(x, y) && groups.same_set(y, z) ==> groups.same_set(x, z),
{
}

/// A union unites: afterwards the two keys are in one group, and so is
/// every pair of keys that was in one group before.
pub proof fn law_union_unites(groups: PartitionView, a: u32, b: u32, x: u32, y: u32)
    requires
        groups.wf(),
        groups.contains(a),
        groups.contains(b),
        groups.contains(x),
        groups.contains(y),
    ensures
        groups.union(a, b).same_set(a, b),
        groups.same_set(x, y) ==> groups.union(a, b).same_set(x, y),
        groups.union(a, b).same_set(x, y) ==> groups.same_set(x, y) || (groups.same_set(x, a)
            && groups.same_set(y, b)) || (groups.same_set(x, b) && groups.same_set(y, a)),
{
    groups.lemma_union_wf(a, b);
}

/// Registering keys, each as a group of its own, raises the count of groups
/// by their number.
pub proof fn law_singletons_count(groups: PartitionView, keys: Seq<u32>)
    ensures
        registered(groups, keys).count == groups.count + keys.len(),
    decreases keys.len(),
{
    if keys.len() > 0 {
        law_singletons_count(groups, keys.drop_last());
    }
}

/// Each union of two different groups lowers the number of groups by one,
/// and a union inside one group leaves it unchanged: after a sequence of
/// unions the count is lower by the number of unions that had something to
/// unite.
pub proof fn law_group_count(groups: PartitionView, pairs: Seq<(u32, u32)>)
    ensures
        united(groups, pairs).count == groups.count - effective_unions(groups, pairs),
    decreases pairs.len(),
{
    if pairs.len() > 0 {
        law_group_count(groups, pairs.drop_last());
    }
}

/// From `n` single vertices, `n` less the number of effective unions are
/// left.
pub proof fn law_count_from_singletons(keys: Seq<u32>, pairs: Seq<(u32, u32)>)
    ensures
        united(registered(PartitionView::empty(), keys), pairs).count == keys.len()
            - effective_unions(registered(PartitionView::empty(), keys), pairs),
{
    law_singletons_count(PartitionView::empty(), keys);
    law_group_count(registered(PartitionView::empty(), keys), pairs);
}

/// Union by rank: a union raises one rank at most, by one, and only that of
/// the root that takes the other in when both roots had one rank. No other
/// rank changes, and no rank changes in a union inside one group.
pub proof fn law_union_by_rank(groups: PartitionView, a: u32, b: u32, k: u32)
    requires
        groups.wf(),
        groups.contains(a),
        groups.contains(b),
        groups.contains(k),
        groups.union_fits(a, b),
    ensures
        groups.union(a, b).rank[k] == (if groups.raises_rank(a, b) && k == groups.winner(a, b) {
            groups.rank[k] + 1
        } else {
            groups.rank[k] as int
        }),
        groups.raises_rank(a, b) <==> !groups.same_set(a, b) && groups.rank[groups.root[a]]
            == groups.rank[groups.root[b]],
        !groups.same_set(a, b) ==> groups.union(a, b).root[groups.winner(a, b)] == groups.winner(
            a,
            b,
        ) && groups.rank[groups.loser(a, b)] <= groups.rank[groups.winner(a, b)],
{
    groups.lemma_union_wf(a, b);
}

/// Uniting along the edges from place `from` on leaves `k` groups, unless
/// there were no more than `k`, when nothing changes, or the edges run out
/// first, when no edge runs between two groups any more.
pub proof fn law_united_down_to(groups: PartitionView, edges: Seq<Edge>, k: int, from: int)
    requires
        groups.wf(),
        0 <= from <= edges.len(),
        forall|i: int|
            #![trigger edges[i]]
            0 <= i < edges.len() ==> groups.contains(edges[i].start_id) && groups.contains(
                edges[i].end_id,
            ),
        forall|i: int| 0 <= i < from ==> !crossing(groups, #[trigger] edges[i]),
    ensures
        united_down_to(groups, edges, k, from).wf(),
        united_down_to(groups, edges, k, from).root.dom() == groups.root.dom(),
        united_down_to(groups, edges, k, from).count <= groups.count,
        groups.count <= k ==> united_down_to(groups, edges, k, from) == groups,
        groups.count > k ==> united_down_to(groups, edges, k, from).count >= k,
        united_down_to(groups, edges, k, from).count > k ==> forall|i: int|
            0 <= i < edges.len() ==> !crossing(
                united_down_to(groups, edges, k, from),
                #[trigger] edges[i],
            ),
    decreases edges.len() - from,
{
    if from < edges.len() && groups.count > k {
        let start = edges[from].start_id;
        let end = edges[from].end_id;
        let next = groups.union(start, end);
        groups.lemma_union_wf(start, end);
        assert forall|i: int|
            #![trigger edges[i]]
            0 <= i < edges.len() implies next.contains(edges[i].start_id) && next.contains(
            edges[i].end_id,
        ) by {}
        assert forall|i: int| 0 <= i < from + 1 implies !crossing(next, #[trigger] edges[i]) by {
            if i < from {
                assert(!crossing(groups, edges[i]));
                groups.lemma_union_keeps_together(start, end, edges[i].start_id, edges[i].end_id);
            }
        }
        law_united_down_to(next, edges, k, from + 1);
    }
}

/// A sequence of edges has one stable sort by weight only: what `cluster`
/// says of the order of the edges leaves no choice.
pub proof fn law_stable_sort_unique(r1: Seq<Edge>, r2: Seq<Edge>, s: Seq<Edge>)
    requires
        stable_sort_of(r1, s),
        stable_sort_of(r2, s),
    ensures
        r1 == r2,
{
    lemma_stable_sort_unique(r1, r2, s);
}

/// A one-bit mask has exactly one bit set.
pub proof fn law_one_bit_mask(i: nat)
    requires
        i < 32,
    ensures
        popcount(bit(i)) == 1,
    decreases i,
{
    let s: u32 = i as u32;
    if i == 0 {
        assert(1u32 << 0u32 == 1u32) by (bit_vector);
        assert(popcount(0u32) == 0);
        assert(1u32 / 2 == 0u32);
    } else {
        assert((1u32 << s) % 2 == 0 && (1u32 << s) / 2 == 1u32 << ((s - 1) as u32) && (1u32 << s)
            != 0) by (bit_vector)
            requires
                0 < s < 32,
        ;
        law_one_bit_mask((i - 1) as nat);
    }
}

/// A two-bit mask has exactly two bits set.
pub proof fn law_two_bit_mask(i: nat, j: nat)
    requires
        i < j < 32,
    ensures
        popcount(bit(i) | bit(j)) == 2,
    decreases i,
{
    let s: u32 = i as u32;
    let t: u32 = j as u32;
    if i == 0 {
        assert(((1u32 << 0u32) | (1u32 << t)) % 2 == 1 && ((1u32 << 0u32) | (1u32 << t)) / 2
            == 1u32 << ((t - 1) as u32) && ((1u32 << 0u32) | (1u32 << t)) != 0) by (bit_vector)
            requires
                0 < t < 32,
        ;
        law_one_bit_mask((j - 1) as nat);
    } else {
        assert(((1u32 << s) | (1u32 << t)) % 2 == 0 && ((1u32 << s) | (1u32 << t)) / 2 == (1u32 << (
        (s - 1) as u32)) | (1u32 << ((t - 1) as u32)) && ((1u32 << s) | (1u32 << t)) != 0)
            by (bit_vector)
            requires
                0 < s < t < 32,
        ;
        law_two_bit_mask((i - 1) as nat, (j - 1) as nat);
    }
}

/// The bit distance of two codes does not depend on their order, a code is
/// at distance zero from itself, and the code that a mask leads to is as
/// far away as the mask has bits set.
pub proof fn law_distance(a: u32, b: u32, mask: u32)
    ensures
        distance(a, b) == distance(b, a),
        distance(a, a) == 0,
        distance(a, a ^ mask) == popcount(mask),
{
    assert(a ^ b == b ^ a) by (bit_vector);
    assert(a ^ a == 0u32) by (bit_vector);
    assert(a ^ (a ^ mask) == mask) by (bit_vector);
}

/// The spacing of two groups bounds the spacing of their vertices: no two
/// different vertices, one listed by `a` and one by `b`, are closer than
/// the smallest spacing or farther apart than the largest. Each bound is
/// the spacing of such a pair, unless there is no such pair, when the
/// smallest is `u32::MAX` and the largest is zero.
pub proof fn law_cluster_spacing(codes: HammingView, a: u32, b: u32)
    ensures
        forall|i: int, j: int|
            0 <= i < codes.members[a].len() && 0 <= j < codes.members[b].len()
                && codes.members[a][i] != codes.members[b][j] ==> codes.min_spacing(a, b)
                <= #[trigger] dist_at(codes.codes, codes.members[a], codes.members[b], i, j)
                <= codes.max_spacing(a, b),
        codes.max_spacing(a, b) == 0 || exists|i: int, j: int|
            0 <= i < codes.members[a].len() && 0 <= j < codes.members[b].len()
                && codes.members[a][i] != codes.members[b][j] && #[trigger] dist_at(
                codes.codes,
                codes.members[a],
                codes.members[b],
                i,
                j,
            ) == codes.max_spacing(a, b),
        codes.min_spacing(a, b) == u32::MAX || exists|i: int, j: int|
            0 <= i < codes.members[a].len() && 0 <= j < codes.members[b].len()
                && codes.members[a][i] != codes.members[b][j] && #[trigger] dist_at(
                codes.codes,
                codes.members[a],
                codes.members[b],
                i,
                j,
            ) == codes.min_spacing(a, b),
{
    lemma_pair_max(codes.codes, codes.members[a], codes.members[b]);
    lemma_pair_min(codes.codes, codes.members[a], codes.members[b]);
}

/// The root of a group lists the vertices of the whole group, one at
/// least, and a code that is no root lists none.
pub proof fn law_roots_list_the_groups(codes: HammingView, c: u32, v: u32)
    requires
        codes.wf(),
        codes.groups.contains(c),
        codes.codes.contains_key(v),
    ensures
        codes.members[c].len() > 0 <==> codes.groups.root[c] == c,
        codes.members[c].contains(v) <==> codes.groups.root[codes.codes[v]] == c,
        codes.members[c].no_duplicates(),
{
    codes.lemma_root_lists(c);
    if codes.members[c].contains(v) {
        let j = choose|j: int| 0 <= j < codes.members[c].len() && codes.members[c][j] == v;
        assert(codes.groups.root[codes.codes[codes.members[c][j]]] == c);
    }
}

/// A clustering pass leaves nothing to unite: afterwards any two
/// neighbouring codes are in one group, or their groups are as far apart as
/// the threshold.
pub proof fn law_pass_settles(codes: HammingView, max_dist: u32)
    requires
        codes.wf(),
    ensures
        codes.clustered(max_dist).wf(),
        codes.clustered(max_dist).settled(max_dist),
{
    let after = codes.clustered(max_dist);
    lemma_sweep_wf(codes, 0, max_dist);
    assert forall|c: u32, mask: u32| after.is_mask(mask) implies #[trigger] after.pair_settled(
        c,
        mask,
        max_dist,
    ) by {
        lemma_sweep_settles(codes, 0, max_dist, c, mask);
    }
}

/// A clustering pass keeps the groups tight: where no group held two
/// different vertices as far apart as the threshold before, none does
/// after.
pub proof fn law_pass_keeps_groups_tight(codes: HammingView, max_dist: u32)
    requires
        codes.wf(),
        codes.tight(max_dist),
    ensures
        codes.clustered(max_dist).tight(max_dist),
{
    lemma_sweep_keeps_tight(codes, 0, max_dist);
}

/// A second clustering pass with the same threshold changes nothing: not
/// the groups, their number, the ranks or the member lists.
pub proof fn law_second_pass_changes_nothing(codes: HammingView, max_dist: u32)
    requires
        codes.wf(),
    ensures
        codes.clustered(max_dist).clustered(max_dist) == codes.clustered(max_dist),
        codes.clustered(max_dist).clustered(max_dist).groups.count == codes.clustered(
            max_dist,
        ).groups.count,
{
    law_pass_settles(codes, max_dist);
    lemma_sweep_of_settled(codes.clustered(max_dist), 0, max_dist);
}

/// A clustering pass only ever unites: codes that were in one group stay in
/// one group, and no code or vertex comes or goes.
pub proof fn law_pass_keeps_together(codes: HammingView, max_dist: u32, x: u32, y: u32)
    requires
        codes.wf(),
        codes.groups.contains(x),
        codes.groups.contains(y),
        codes.groups.same_set(x, y),
    ensures
        codes.clustered(max_dist).same_keys(codes),
        codes.clustered(max_dist).groups.same_set(x, y),
{
    lemma_sweep_wf(codes, 0, max_dist);
    crate::hamming_proofs::lemma_sweep_keeps_together(codes, 0, max_dist, x, y);
}

} // verus!
