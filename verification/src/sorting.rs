//! A stable merge sort of edges by weight.

use crate::cluster::Edge;
use vstd::prelude::*;

verus! {

/// The test "has weight `w`".
pub open spec fn weight_is(w: i32) -> spec_fn(Edge) -> bool {
    |e: Edge| e.weight == w
}

/// No edge is heavier than a later one.
pub open spec fn sorted_by_weight(s: Seq<Edge>) -> bool {
    forall|i: int, j: int| 0 <= i < j < s.len() ==> s[i].weight <= s[j].weight
}

/// `r` holds the edges of `s` by ascending weight, and the edges of one
/// weight in the order they have in `s`.
pub open spec fn stable_sort_of(r: Seq<Edge>, s: Seq<Edge>) -> bool {
    &&& sorted_by_weight(r)
    &&& r.len() == s.len()
    &&& forall|w: i32| #[trigger] r.filter(weight_is(w)) == s.filter(weight_is(w))
}

/// A sequence without an edge of weight `w` has nothing to keep for `w`.
proof fn lemma_no_weight(s: Seq<Edge>, w: i32)
    requires
        forall|i: int| 0 <= i < s.len() ==> s[i].weight != w,
    ensures
        s.filter(weight_is(w)) == Seq::<Edge>::empty(),
    decreases s.len(),
{
    if s.len() == 0 {
        reveal(Seq::filter);
    } else {
        lemma_no_weight(s.drop_last(), w);
        s.drop_last().lemma_filter_push(s.last(), weight_is(w));
        assert(s.drop_last().push(s.last()) =~= s);
    }
}

/// A sequence has one stable sort only.
pub proof fn lemma_stable_sort_unique(r1: Seq<Edge>, r2: Seq<Edge>, s: Seq<Edge>)
    requires
        stable_sort_of(r1, s),
        stable_sort_of(r2, s),
    ensures
        r1 == r2,
{
    lemma_sorted_same_kept(r1, r2);
}

/// Two sorted sequences that keep the same edges of every weight, in the
/// same order, are one sequence.
proof fn lemma_sorted_same_kept(r1: Seq<Edge>, r2: Seq<Edge>)
    requires
        sorted_by_weight(r1),
        sorted_by_weight(r2),
        r1.len() == r2.len(),
        forall|w: i32| #[trigger] r1.filter(weight_is(w)) == r2.filter(weight_is(w)),
    ensures
        r1 == r2,
    decreases r1.len(),
{
    if r1.len() == 0 {
        assert(r1 =~= r2);
    } else {
        let e1 = r1.last();
        let e2 = r2.last();
        let f1 = r1.drop_last();
        let f2 = r2.drop_last();
        assert(f1.push(e1) =~= r1);
        assert(f2.push(e2) =~= r2);
        f1.lemma_filter_push(e1, weight_is(e1.weight));
        f2.lemma_filter_push(e2, weight_is(e2.weight));
        // Each last edge has the heaviest weight of both sequences.
        assert(e2.weight >= e1.weight) by {
            let kept = r2.filter(weight_is(e1.weight));
            assert(kept == r1.filter(weight_is(e1.weight)));
            assert(kept.last() == e1);
            assert(kept.contains(e1));
            r2.lemma_filter_contains_rev(weight_is(e1.weight), e1);
            let at = choose|at: int| 0 <= at < r2.len() && r2[at] == e1;
            if at < r2.len() - 1 {
                assert(r2[at].weight <= r2[r2.len() - 1].weight);
            }
        }
        assert(e1.weight >= e2.weight) by {
            let kept = r1.filter(weight_is(e2.weight));
            assert(kept == r2.filter(weight_is(e2.weight)));
            assert(kept.last() == e2);
            assert(kept.contains(e2));
            r1.lemma_filter_contains_rev(weight_is(e2.weight), e2);
            let at = choose|at: int| 0 <= at < r1.len() && r1[at] == e2;
            if at < r1.len() - 1 {
                assert(r1[at].weight <= r1[r1.len() - 1].weight);
            }
        }
        let top = e1.weight;
        assert(r1.filter(weight_is(top)).last() == e1);
        assert(r2.filter(weight_is(top)).last() == e2);
        assert(e1 == e2);
        assert forall|w: i32| #[trigger] f1.filter(weight_is(w)) == f2.filter(weight_is(w)) by {
            f1.lemma_filter_push(e1, weight_is(w));
            f2.lemma_filter_push(e2, weight_is(w));
            assert(r1.filter(weight_is(w)) == r2.filter(weight_is(w)));
            if w == top {
                assert(f1.filter(weight_is(w)) =~= r1.filter(weight_is(w)).drop_last());
                assert(f2.filter(weight_is(w)) =~= r2.filter(weight_is(w)).drop_last());
            }
        }
        assert forall|i: int, j: int| 0 <= i < j < f1.len() implies f1[i].weight
            <= f1[j].weight by {
            assert(r1[i].weight <= r1[j].weight);
        }
        assert forall|i: int, j: int| 0 <= i < j < f2.len() implies f2[i].weight
            <= f2[j].weight by {
            assert(r2[i].weight <= r2[j].weight);
        }
        lemma_sorted_same_kept(f1, f2);
        assert(r1 =~= r2);
    }
}

/// Merges two sorted vectors; among edges of one weight, those of `a` come
/// first.
fn merge(a: &Vec<Edge>, b: &Vec<Edge>) -> (r: Vec<Edge>)
    requires
        sorted_by_weight(a@),
        sorted_by_weight(b@),
    ensures
        sorted_by_weight(r@),
        r@.len() == a@.len() + b@.len(),
        forall|w: i32|
            #[trigger] r@.filter(weight_is(w)) == a@.filter(weight_is(w)) + b@.filter(
                weight_is(w),
            ),
{
    let mut r: Vec<Edge> = Vec::new();
    let mut i: usize = 0;
    let mut j: usize = 0;
    proof {
        assert forall|w: i32|
            #[trigger] r@.filter(weight_is(w)) == a@.take(0).filter(weight_is(w)) + b@.take(
                0,
            ).filter(weight_is(w)) by {
            lemma_no_weight(r@, w);
            lemma_no_weight(a@.take(0), w);
            lemma_no_weight(b@.take(0), w);
        }
    }
    while i < a.len() || j < b.len()
        invariant
            i <= a.len(),
            j <= b.len(),
            r@.len() == i + j,
            sorted_by_weight(a@),
            sorted_by_weight(b@),
            sorted_by_weight(r@),
            forall|x: int| 0 <= x < r@.len() && i < a.len() ==> r@[x].weight <= a@[i as int].weight,
            forall|x: int| 0 <= x < r@.len() && j < b.len() ==> r@[x].weight <= b@[j as int].weight,
            forall|y: int| 0 <= y < j && i < a.len() ==> b@[y].weight < a@[i as int].weight,
            forall|w: i32|
                #[trigger] r@.filter(weight_is(w)) == a@.take(i as int).filter(weight_is(w))
                    + b@.take(j as int).filter(weight_is(w)),
        decreases a.len() - i + b.len() - j,
    {
        let ghost r0 = r@;
        if j >= b.len() || (i < a.len() && a[i].weight <= b[j].weight) {
            let e: Edge = a[i];
            r.push(e);
            proof {
                assert(a@.take(i + 1) =~= a@.take(i as int).push(e));
                assert forall|w: i32|
                    #[trigger] r@.filter(weight_is(w)) == a@.take(i + 1).filter(weight_is(w))
                        + b@.take(j as int).filter(weight_is(w)) by {
                    r0.lemma_filter_push(e, weight_is(w));
                    a@.take(i as int).lemma_filter_push(e, weight_is(w));
                    if e.weight == w {
                        lemma_no_weight(b@.take(j as int), w);
                        assert(r@.filter(weight_is(w)) =~= a@.take(i + 1).filter(weight_is(w))
                            + b@.take(j as int).filter(weight_is(w)));
                    }
                }
                assert forall|x: int, y: int| 0 <= x < y < r@.len() implies r@[x].weight
                    <= r@[y].weight by {
                    if y < r0.len() {
                        assert(r0[x].weight <= r0[y].weight);
                    }
                }
            }
            i += 1;
        } else {
            let e: Edge = b[j];
            r.push(e);
            proof {
                assert(b@.take(j + 1) =~= b@.take(j as int).push(e));
                assert forall|w: i32|
                    #[trigger] r@.filter(weight_is(w)) == a@.take(i as int).filter(weight_is(w))
                        + b@.take(j + 1).filter(weight_is(w)) by {
                    r0.lemma_filter_push(e, weight_is(w));
                    b@.take(j as int).lemma_filter_push(e, weight_is(w));
                    if e.weight == w {
                        assert(r@.filter(weight_is(w)) =~= a@.take(i as int).filter(weight_is(w))
                            + b@.take(j + 1).filter(weight_is(w)));
                    }
                }
                assert forall|x: int, y: int| 0 <= x < y < r@.len() implies r@[x].weight
                    <= r@[y].weight by {
                    if y < r0.len() {
                        assert(r0[x].weight <= r0[y].weight);
                    }
                }
            }
            j += 1;
        }
    }
    proof {
        assert(a@.take(i as int) =~= a@);
        assert(b@.take(j as int) =~= b@);
    }
    r
}

/// The stable sort of the edges at `lo..hi`.
fn sort_range(v: &Vec<Edge>, lo: usize, hi: usize) -> (r: Vec<Edge>)
    requires
        lo <= hi <= v.len(),
    ensures
        stable_sort_of(r@, v@.subrange(lo as int, hi as int)),
    decreases hi - lo,
{
    let ghost part = v@.subrange(lo as int, hi as int);
    if hi - lo <= 1 {
        let mut r: Vec<Edge> = Vec::new();
        if lo < hi {
            r.push(v[lo]);
        }
        proof {
            assert(r@ =~= part);
        }
        r
    } else {
        let mid: usize = lo + (hi - lo) / 2;
        let left = sort_range(v, lo, mid);
        let right = sort_range(v, mid, hi);
        let r = merge(&left, &right);
        proof {
            let low = v@.subrange(lo as int, mid as int);
            let high = v@.subrange(mid as int, hi as int);
            assert(part =~= low + high);
            assert forall|w: i32| #[trigger] r@.filter(weight_is(w)) == part.filter(
                weight_is(w),
            ) by {
                Seq::filter_distributes_over_add(low, high, weight_is(w));
            }
        }
        r
    }
}

/// The edges by ascending weight; edges of one weight keep their order.
pub fn stable_sort_by_weight(edges: &Vec<Edge>) -> (r: Vec<Edge>)
    ensures
        stable_sort_of(r@, edges@),
{
    let r = sort_range(edges, 0, edges.len());
    proof {
        assert(edges@.subrange(0, edges@.len() as int) =~= edges@);
    }
    r
}

} // verus!
