//! What holds of the model of neighbour-distance clustering: its steps keep
//! it well-formed, and a pass leaves nothing for a second pass to do.

use crate::hamming_model::{dist_at, lemma_pair_max, lemma_pair_max_grows, pair_max, HammingView};
use crate::popcount::distance;
use vstd::prelude::*;

verus! {

/// Registering a vertex keeps the view well-formed.
pub proof fn lemma_with_vertex_wf(hv: HammingView, v: u32, code: u32)
    requires
        hv.wf(),
    ensures
        hv.with_vertex(v, code).wf(),
{
    let after = hv.with_vertex(v, code);
    if !hv.codes.contains_key(v) {
        assert forall|c: u32, j: int| hv.groups.contains(c) && 0 <= j < hv.members[c].len() implies v
            != #[trigger] hv.members[c][j] by {}
        if !hv.groups.contains(code) {
            hv.groups.lemma_with_singleton_wf(code);
            assert(after.groups.rank.dom() =~= after.groups.root.dom());
            assert(after.members.dom() =~= after.groups.root.dom());
            assert forall|k: u32| after.groups.root.contains_key(k) implies after.groups.root.contains_key(
                #[trigger] after.groups.root[k],
            ) && after.groups.root[after.groups.root[k]] == after.groups.root[k] by {
                if k != code {
                    assert(hv.groups.contains(hv.groups.root[k]));
                }
            }
            assert forall|c: u32, j: int|
                #![trigger after.members[c][j]]
                after.groups.contains(c) && 0 <= j < after.members[c].len() implies after.codes.contains_key(
                after.members[c][j],
            ) && after.groups.root[after.codes[after.members[c][j]]] == c by {
                if c != code {
                    let u = hv.members[c][j];
                    assert(hv.codes.contains_key(u));
                    assert(hv.groups.contains(hv.codes[u]));
                }
            }
            assert forall|u: u32|
                #![trigger after.codes[u]]
                after.codes.contains_key(u) implies after.members[after.groups.root[after.codes[u]]].contains(
                u,
            ) by {
                if u == v {
                    assert(after.members[code][0] == v);
                } else {
                    assert(hv.groups.contains(hv.codes[u]));
                    let r = hv.groups.root[hv.codes[u]];
                    assert(hv.groups.contains(r));
                    assert(hv.members[r].contains(u));
                }
            }
            assert forall|c: u32|
                #![trigger after.members[c]]
                after.groups.contains(c) && after.members[c].len() > 0 implies after.groups.root[c]
                == c by {
                if c != code {
                    assert(hv.members[c].len() > 0);
                }
            }
            assert forall|c: u32|
                #![trigger after.members[c]]
                after.groups.contains(c) implies after.members[c].no_duplicates() by {
                if c != code {
                    assert(hv.members[c].no_duplicates());
                }
            }
            assert forall|u: u32| after.codes.contains_key(u) implies after.groups.contains(
                #[trigger] after.codes[u],
            ) by {
                if u != v {
                    assert(hv.groups.contains(hv.codes[u]));
                }
            }
            assert forall|c: u32| after.groups.contains(c) implies #[trigger] after.has_vertex_of(
                c,
            ) by {
                if c == code {
                    assert(after.codes.contains_key(v) && after.codes[v] == c);
                } else {
                    assert(hv.has_vertex_of(c));
                    let u = choose|u: u32| hv.codes.contains_key(u) && #[trigger] hv.codes[u] == c;
                    assert(after.codes.contains_key(u) && after.codes[u] == c);
                }
            }
        } else {
            let r = hv.groups.root[code];
            assert(hv.groups.contains(r) && hv.groups.root[r] == r);
            assert(after.members.dom() =~= after.groups.root.dom());
            assert forall|c: u32, j: int|
                #![trigger after.members[c][j]]
                after.groups.contains(c) && 0 <= j < after.members[c].len() implies after.codes.contains_key(
                after.members[c][j],
            ) && after.groups.root[after.codes[after.members[c][j]]] == c by {
                if c == r && j == hv.members[r].len() {
                } else {
                    let u = hv.members[c][j];
                    assert(hv.codes.contains_key(u));
                }
            }
            assert forall|u: u32|
                #![trigger after.codes[u]]
                after.codes.contains_key(u) implies after.members[after.groups.root[after.codes[u]]].contains(
                u,
            ) by {
                if u == v {
                    assert(after.members[r][hv.members[r].len() as int] == v);
                } else {
                    let ru = hv.groups.root[hv.codes[u]];
                    assert(hv.members[ru].contains(u));
                    let i = choose|i: int| 0 <= i < hv.members[ru].len() && hv.members[ru][i] == u;
                    assert(after.members[ru][i] == u);
                }
            }
            assert forall|c: u32|
                #![trigger after.members[c]]
                after.groups.contains(c) && after.members[c].len() > 0 implies after.groups.root[c]
                == c by {
                if c != r {
                    assert(hv.members[c].len() > 0);
                }
            }
            assert forall|c: u32|
                #![trigger after.members[c]]
                after.groups.contains(c) implies after.members[c].no_duplicates() by {
                assert(hv.members[c].no_duplicates());
                if c == r {
                    assert forall|i: int, j: int|
                        0 <= i < after.members[r].len() && 0 <= j < after.members[r].len() && i
                            != j implies after.members[r][i] != after.members[r][j] by {
                        if i < hv.members[r].len() && j < hv.members[r].len() {
                        } else if i < hv.members[r].len() {
                            assert(v != hv.members[r][i]);
                        } else {
                            assert(v != hv.members[r][j]);
                        }
                    }
                }
            }
            assert forall|u: u32| after.codes.contains_key(u) implies after.groups.contains(
                #[trigger] after.codes[u],
            ) by {
                if u != v {
                    assert(hv.groups.contains(hv.codes[u]));
                }
            }
            assert forall|c: u32| after.groups.contains(c) implies #[trigger] after.has_vertex_of(
                c,
            ) by {
                if c == code {
                    assert(after.codes.contains_key(v) && after.codes[v] == c);
                } else {
                    assert(hv.has_vertex_of(c));
                    let u = choose|u: u32| hv.codes.contains_key(u) && #[trigger] hv.codes[u] == c;
                    assert(after.codes.contains_key(u) && after.codes[u] == c);
                }
            }
        }
    }
}

/// Uniting two groups keeps the view well-formed, over the same codes and
/// vertices.
pub proof fn lemma_union_wf(hv: HammingView, a: u32, b: u32)
    requires
        hv.wf(),
        hv.groups.contains(a),
        hv.groups.contains(b),
    ensures
        hv.union(a, b).wf(),
        hv.union(a, b).same_keys(hv),
{
    let after = hv.union(a, b);
    hv.groups.lemma_union_wf(a, b);
    if !hv.groups.same_set(a, b) {
        let w = hv.groups.winner(a, b);
        let l = hv.groups.loser(a, b);
        let mw = hv.members[w];
        let ml = hv.members[l];
        assert(after.members.dom() =~= after.groups.root.dom());
        assert(after.members[w] == mw + ml);
        assert(after.members[l] == Seq::<u32>::empty());
        assert forall|c: u32|
            #![trigger after.members[c]]
            after.groups.contains(c) && after.members[c].len() > 0 implies after.groups.root[c]
            == c by {
            if c != w && c != l {
                assert(hv.members[c].len() > 0);
            }
        }
        assert forall|c: u32, j: int|
            #![trigger after.members[c][j]]
            after.groups.contains(c) && 0 <= j < after.members[c].len() implies after.codes.contains_key(
            after.members[c][j],
        ) && after.groups.root[after.codes[after.members[c][j]]] == c by {
            if c == w {
                if j < mw.len() {
                    let u = hv.members[w][j];
                    assert(hv.codes.contains_key(u));
                    assert(hv.groups.contains(hv.codes[u]));
                } else {
                    let u = hv.members[l][j - mw.len()];
                    assert(hv.codes.contains_key(u));
                    assert(hv.groups.contains(hv.codes[u]));
                }
            } else if c != l {
                let u = hv.members[c][j];
                assert(hv.codes.contains_key(u));
                assert(hv.groups.contains(hv.codes[u]));
            }
        }
        assert forall|u: u32|
            #![trigger after.codes[u]]
            after.codes.contains_key(u) implies after.members[after.groups.root[after.codes[u]]].contains(
            u,
        ) by {
            assert(hv.groups.contains(hv.codes[u]));
            let r = hv.groups.root[hv.codes[u]];
            assert(hv.groups.contains(r));
            assert(hv.members[r].contains(u));
            let i = choose|i: int| 0 <= i < hv.members[r].len() && hv.members[r][i] == u;
            if r == l {
                assert(after.members[w][mw.len() + i] == u);
            } else if r == w {
                assert(after.members[w][i] == u);
            } else {
                assert(after.members[r][i] == u);
            }
        }
        assert forall|c: u32|
            #![trigger after.members[c]]
            after.groups.contains(c) implies after.members[c].no_duplicates() by {
            assert(hv.members[c].no_duplicates());
            if c == w {
                assert(hv.members[l].no_duplicates());
                assert forall|i: int, j: int|
                    0 <= i < after.members[w].len() && 0 <= j < after.members[w].len() && i
                        != j implies after.members[w][i] != after.members[w][j] by {
                    if i < mw.len() && j < mw.len() {
                    } else if i >= mw.len() && j >= mw.len() {
                        assert(ml[i - mw.len()] != ml[j - mw.len()]);
                    } else if i < mw.len() {
                        let x = hv.members[w][i];
                        let y = hv.members[l][j - mw.len()];
                        assert(hv.groups.root[hv.codes[x]] == w);
                        assert(hv.groups.root[hv.codes[y]] == l);
                    } else {
                        let x = hv.members[w][j];
                        let y = hv.members[l][i - mw.len()];
                        assert(hv.groups.root[hv.codes[x]] == w);
                        assert(hv.groups.root[hv.codes[y]] == l);
                    }
                }
            }
        }
        assert forall|u: u32| after.codes.contains_key(u) implies after.groups.contains(
            #[trigger] after.codes[u],
        ) by {
            assert(hv.groups.contains(hv.codes[u]));
        }
        assert forall|c: u32| after.groups.contains(c) implies #[trigger] after.has_vertex_of(
            c,
        ) by {
            assert(hv.has_vertex_of(c));
            let u = choose|u: u32| hv.codes.contains_key(u) && #[trigger] hv.codes[u] == c;
            assert(after.codes.contains_key(u) && after.codes[u] == c);
        }
    }
}

/// A pair of neighbours that has nothing left to unite stays so when two
/// groups are united.
pub proof fn lemma_union_keeps_settled(hv: HammingView, a: u32, b: u32, c: u32, mask: u32, d: u32)
    requires
        hv.wf(),
        hv.groups.contains(a),
        hv.groups.contains(b),
        hv.pair_settled(c, mask, d),
    ensures
        hv.union(a, b).pair_settled(c, mask, d),
{
    let after = hv.union(a, b);
    let dest = c ^ mask;
    hv.groups.lemma_union_wf(a, b);
    if !hv.groups.same_set(a, b) && after.groups.contains(c) && after.groups.contains(dest)
        && !after.groups.same_set(c, dest) {
        let w = hv.groups.winner(a, b);
        let l = hv.groups.loser(a, b);
        let rc = hv.groups.root[c];
        let rd = hv.groups.root[dest];
        let rc2 = after.groups.root[c];
        let rd2 = after.groups.root[dest];
        assert(hv.groups.contains(rc) && hv.groups.contains(rd));
        let mw = hv.members[w];
        let ml = hv.members[l];
        assert(after.members[w] == mw + ml);
        assert forall|x: u32| hv.members[rc].contains(x) implies after.members[rc2].contains(x) by {
            let i = choose|i: int| 0 <= i < hv.members[rc].len() && hv.members[rc][i] == x;
            if rc == l {
                assert(after.members[w][mw.len() + i] == x);
            } else if rc == w {
                assert(after.members[w][i] == x);
            } else {
                assert(after.members[rc][i] == x);
            }
        }
        assert forall|x: u32| hv.members[rd].contains(x) implies after.members[rd2].contains(x) by {
            let i = choose|i: int| 0 <= i < hv.members[rd].len() && hv.members[rd][i] == x;
            if rd == l {
                assert(after.members[w][mw.len() + i] == x);
            } else if rd == w {
                assert(after.members[w][i] == x);
            } else {
                assert(after.members[rd][i] == x);
            }
        }
        lemma_pair_max_grows(
            hv.codes,
            hv.members[rc],
            hv.members[rd],
            after.members[rc2],
            after.members[rd2],
        );
    }
}

/// A step keeps the view well-formed, over the same codes and vertices.
pub proof fn lemma_step_wf(hv: HammingView, c: u32, mask: u32, d: u32)
    requires
        hv.wf(),
        hv.groups.contains(c),
    ensures
        hv.step(c, mask, d).wf(),
        hv.step(c, mask, d).same_keys(hv),
{
    if hv.groups.contains(c ^ mask) {
        lemma_union_wf(hv, c, c ^ mask);
    }
}

/// A step leaves settled what was settled.
pub proof fn lemma_step_keeps_settled(
    hv: HammingView,
    c: u32,
    mask: u32,
    d: u32,
    c2: u32,
    mask2: u32,
)
    requires
        hv.wf(),
        hv.groups.contains(c),
        hv.pair_settled(c2, mask2, d),
    ensures
        hv.step(c, mask, d).pair_settled(c2, mask2, d),
{
    if hv.groups.contains(c ^ mask) {
        lemma_union_keeps_settled(hv, c, c ^ mask, c2, mask2, d);
    }
}

/// A step settles the pair that it looks at.
pub proof fn lemma_step_settles(hv: HammingView, c: u32, mask: u32, d: u32)
    requires
        hv.wf(),
        hv.groups.contains(c),
    ensures
        hv.step(c, mask, d).pair_settled(c, mask, d),
{
    let dest = c ^ mask;
    if hv.groups.contains(dest) && !hv.groups.same_set(c, dest) {
        hv.groups.lemma_union_wf(c, dest);
    }
}

/// A visit keeps the view well-formed, over the same codes and vertices.
pub proof fn lemma_visit_wf(hv: HammingView, c: u32, masks: Seq<u32>, from: int, d: u32)
    requires
        hv.wf(),
        hv.groups.contains(c),
    ensures
        hv.visit(c, masks, from, d).wf(),
        hv.visit(c, masks, from, d).same_keys(hv),
    decreases masks.len() - from,
{
    if 0 <= from < masks.len() {
        lemma_step_wf(hv, c, masks[from], d);
        lemma_visit_wf(hv.step(c, masks[from], d), c, masks, from + 1, d);
    }
}

/// A visit leaves settled what was settled.
pub proof fn lemma_visit_keeps_settled(
    hv: HammingView,
    c: u32,
    masks: Seq<u32>,
    from: int,
    d: u32,
    c2: u32,
    mask2: u32,
)
    requires
        hv.wf(),
        hv.groups.contains(c),
        hv.pair_settled(c2, mask2, d),
    ensures
        hv.visit(c, masks, from, d).pair_settled(c2, mask2, d),
    decreases masks.len() - from,
{
    if 0 <= from < masks.len() {
        lemma_step_wf(hv, c, masks[from], d);
        lemma_step_keeps_settled(hv, c, masks[from], d, c2, mask2);
        lemma_visit_keeps_settled(hv.step(c, masks[from], d), c, masks, from + 1, d, c2, mask2);
    }
}

/// A visit settles the code with its neighbours under the masks it looks
/// under.
pub proof fn lemma_visit_settles(
    hv: HammingView,
    c: u32,
    masks: Seq<u32>,
    from: int,
    d: u32,
    at: int,
)
    requires
        hv.wf(),
        hv.groups.contains(c),
        0 <= from <= at < masks.len(),
    ensures
        hv.visit(c, masks, from, d).pair_settled(c, masks[at], d),
    decreases masks.len() - from,
{
    let next = hv.step(c, masks[from], d);
    lemma_step_wf(hv, c, masks[from], d);
    if at == from {
        lemma_step_settles(hv, c, masks[from], d);
        lemma_visit_keeps_settled(next, c, masks, from + 1, d, c, masks[at]);
    } else {
        lemma_visit_settles(next, c, masks, from + 1, d, at);
    }
}

/// The visit of a code keeps the view well-formed, over the same codes and
/// vertices.
pub proof fn lemma_visit_code_wf(hv: HammingView, c: u32, d: u32)
    requires
        hv.wf(),
        hv.groups.contains(c),
    ensures
        hv.visit_code(c, d).wf(),
        hv.visit_code(c, d).same_keys(hv),
{
    let ones = crate::bitmask::one_bit_masks(hv.width as nat);
    let twos = crate::bitmask::two_bit_masks(hv.width as nat);
    lemma_visit_wf(hv, c, ones, 0, d);
    lemma_visit_wf(hv.visit(c, ones, 0, d), c, twos, 0, d);
}

/// The visit of a code leaves settled what was settled.
pub proof fn lemma_visit_code_keeps_settled(hv: HammingView, c: u32, d: u32, c2: u32, mask2: u32)
    requires
        hv.wf(),
        hv.groups.contains(c),
        hv.pair_settled(c2, mask2, d),
    ensures
        hv.visit_code(c, d).pair_settled(c2, mask2, d),
{
    let ones = crate::bitmask::one_bit_masks(hv.width as nat);
    let twos = crate::bitmask::two_bit_masks(hv.width as nat);
    lemma_visit_wf(hv, c, ones, 0, d);
    lemma_visit_keeps_settled(hv, c, ones, 0, d, c2, mask2);
    lemma_visit_keeps_settled(hv.visit(c, ones, 0, d), c, twos, 0, d, c2, mask2);
}

/// The visit of a code settles it with all its neighbours.
pub proof fn lemma_visit_code_settles(hv: HammingView, c: u32, d: u32, mask: u32)
    requires
        hv.wf(),
        hv.groups.contains(c),
        hv.is_mask(mask),
    ensures
        hv.visit_code(c, d).pair_settled(c, mask, d),
{
    let ones = crate::bitmask::one_bit_masks(hv.width as nat);
    let twos = crate::bitmask::two_bit_masks(hv.width as nat);
    let mid = hv.visit(c, ones, 0, d);
    lemma_visit_wf(hv, c, ones, 0, d);
    if ones.contains(mask) {
        let at = choose|at: int| 0 <= at < ones.len() && ones[at] == mask;
        lemma_visit_settles(hv, c, ones, 0, d, at);
        lemma_visit_keeps_settled(mid, c, twos, 0, d, c, mask);
    } else {
        let at = choose|at: int| 0 <= at < twos.len() && twos[at] == mask;
        lemma_visit_settles(mid, c, twos, 0, d, at);
    }
}

/// A sweep keeps the view well-formed, over the same codes and vertices.
pub proof fn lemma_sweep_wf(hv: HammingView, from: int, d: u32)
    requires
        hv.wf(),
    ensures
        hv.sweep(from, d).wf(),
        hv.sweep(from, d).same_keys(hv),
    decreases 0x1_0000_0000 - from,
{
    if 0 <= from <= u32::MAX {
        if hv.groups.contains(from as u32) {
            lemma_visit_code_wf(hv, from as u32, d);
            lemma_sweep_wf(hv.visit_code(from as u32, d), from + 1, d);
        } else {
            lemma_sweep_wf(hv, from + 1, d);
        }
    }
}

/// A sweep leaves settled what was settled.
pub proof fn lemma_sweep_keeps_settled(hv: HammingView, from: int, d: u32, c2: u32, mask2: u32)
    requires
        hv.wf(),
        hv.pair_settled(c2, mask2, d),
    ensures
        hv.sweep(from, d).pair_settled(c2, mask2, d),
    decreases 0x1_0000_0000 - from,
{
    if 0 <= from <= u32::MAX {
        if hv.groups.contains(from as u32) {
            lemma_visit_code_wf(hv, from as u32, d);
            lemma_visit_code_keeps_settled(hv, from as u32, d, c2, mask2);
            lemma_sweep_keeps_settled(hv.visit_code(from as u32, d), from + 1, d, c2, mask2);
        } else {
            lemma_sweep_keeps_settled(hv, from + 1, d, c2, mask2);
        }
    }
}

/// A sweep settles every code from `from` up with all its neighbours.
pub proof fn lemma_sweep_settles(hv: HammingView, from: int, d: u32, c: u32, mask: u32)
    requires
        hv.wf(),
        0 <= from <= c,
        hv.is_mask(mask),
    ensures
        hv.sweep(from, d).pair_settled(c, mask, d),
    decreases 0x1_0000_0000 - from,
{
    if hv.groups.contains(from as u32) {
        let next = hv.visit_code(from as u32, d);
        lemma_visit_code_wf(hv, from as u32, d);
        if from == c {
            lemma_visit_code_settles(hv, c, d, mask);
            lemma_sweep_keeps_settled(next, from + 1, d, c, mask);
        } else {
            lemma_sweep_settles(next, from + 1, d, c, mask);
        }
    } else {
        if from == c {
            lemma_sweep_wf(hv, from + 1, d);
        } else {
            lemma_sweep_settles(hv, from + 1, d, c, mask);
        }
    }
}

/// A sweep passes over a stretch without registered codes.
pub proof fn lemma_sweep_skips(hv: HammingView, from: int, to: int, d: u32)
    requires
        0 <= from <= to <= 0x1_0000_0000,
        forall|c: u32| from <= c < to ==> !hv.groups.contains(c),
    ensures
        hv.sweep(from, d) == hv.sweep(to, d),
    decreases to - from,
{
    if from < to {
        assert(!hv.groups.contains(from as u32));
        lemma_sweep_skips(hv, from + 1, to, d);
    }
}

/// Uniting the groups of two codes is uniting the groups of their roots.
pub proof fn lemma_union_of_roots(hv: HammingView, a: u32, b: u32)
    requires
        hv.wf(),
        hv.groups.contains(a),
        hv.groups.contains(b),
    ensures
        hv.union(hv.groups.root[a], hv.groups.root[b]) == hv.union(a, b),
{
    hv.groups.lemma_union_of_roots(a, b);
    assert(hv.groups.contains(hv.groups.root[a]));
    assert(hv.groups.contains(hv.groups.root[b]));
}

/// A visit leaves in one group what was in one group.
pub proof fn lemma_visit_keeps_together(
    hv: HammingView,
    c: u32,
    masks: Seq<u32>,
    from: int,
    d: u32,
    x: u32,
    y: u32,
)
    requires
        hv.wf(),
        hv.groups.contains(c),
        hv.groups.contains(x),
        hv.groups.contains(y),
        hv.groups.same_set(x, y),
    ensures
        hv.visit(c, masks, from, d).groups.same_set(x, y),
    decreases masks.len() - from,
{
    if 0 <= from < masks.len() {
        lemma_step_wf(hv, c, masks[from], d);
        lemma_visit_keeps_together(hv.step(c, masks[from], d), c, masks, from + 1, d, x, y);
    }
}

/// A sweep leaves in one group what was in one group.
pub proof fn lemma_sweep_keeps_together(hv: HammingView, from: int, d: u32, x: u32, y: u32)
    requires
        hv.wf(),
        hv.groups.contains(x),
        hv.groups.contains(y),
        hv.groups.same_set(x, y),
    ensures
        hv.sweep(from, d).groups.same_set(x, y),
    decreases 0x1_0000_0000 - from,
{
    if 0 <= from <= u32::MAX {
        if hv.groups.contains(from as u32) {
            let c = from as u32;
            let ones = crate::bitmask::one_bit_masks(hv.width as nat);
            let twos = crate::bitmask::two_bit_masks(hv.width as nat);
            lemma_visit_wf(hv, c, ones, 0, d);
            lemma_visit_keeps_together(hv, c, ones, 0, d, x, y);
            lemma_visit_keeps_together(hv.visit(c, ones, 0, d), c, twos, 0, d, x, y);
            lemma_visit_code_wf(hv, c, d);
            lemma_sweep_keeps_together(hv.visit_code(c, d), from + 1, d, x, y);
        } else {
            lemma_sweep_keeps_together(hv, from + 1, d, x, y);
        }
    }
}

/// Uniting two groups that are less than `d` apart keeps every group free
/// of vertices that are `d` apart or more.
pub proof fn lemma_union_keeps_tight(hv: HammingView, a: u32, b: u32, d: u32)
    requires
        hv.wf(),
        hv.groups.contains(a),
        hv.groups.contains(b),
        hv.tight(d),
        !hv.groups.same_set(a, b) ==> hv.max_spacing(hv.groups.root[a], hv.groups.root[b]) < d,
    ensures
        hv.union(a, b).tight(d),
{
    let after = hv.union(a, b);
    if !hv.groups.same_set(a, b) {
        hv.groups.lemma_union_wf(a, b);
        let ra = hv.groups.root[a];
        let rb = hv.groups.root[b];
        let la = hv.members[ra];
        let lb = hv.members[rb];
        lemma_pair_max(hv.codes, la, lb);
        assert forall|x: u32, y: u32|
            #![trigger after.codes[x], after.codes[y]]
            after.codes.contains_key(x) && after.codes.contains_key(y) && x != y
                && after.groups.same_set(after.codes[x], after.codes[y]) implies after.spacing(
            x,
            y,
        ) < d by {
            let cx = hv.codes[x];
            let cy = hv.codes[y];
            assert(hv.groups.contains(cx) && hv.groups.contains(cy));
            let rx = hv.groups.root[cx];
            let ry = hv.groups.root[cy];
            if rx != ry {
                assert(hv.members[rx].contains(x));
                assert(hv.members[ry].contains(y));
                let i = choose|i: int| 0 <= i < hv.members[rx].len() && hv.members[rx][i] == x;
                let j = choose|j: int| 0 <= j < hv.members[ry].len() && hv.members[ry][j] == y;
                if rx == ra {
                    assert(ry == rb);
                    assert(dist_at(hv.codes, la, lb, i, j) <= pair_max(hv.codes, la, lb));
                } else {
                    assert(rx == rb && ry == ra);
                    assert(dist_at(hv.codes, la, lb, j, i) <= pair_max(hv.codes, la, lb));
                    let p = hv.codes[x];
                    let q = hv.codes[y];
                    assert(p ^ q == q ^ p) by (bit_vector);
                    assert(distance(p, q) == distance(q, p));
                }
            } else {
                assert(hv.spacing(x, y) < d);
            }
        }
    }
}

/// A visit keeps every group free of vertices that are `d` apart or more.
pub proof fn lemma_visit_keeps_tight(hv: HammingView, c: u32, masks: Seq<u32>, from: int, d: u32)
    requires
        hv.wf(),
        hv.groups.contains(c),
        hv.tight(d),
    ensures
        hv.visit(c, masks, from, d).tight(d),
    decreases masks.len() - from,
{
    if 0 <= from < masks.len() {
        let dest = c ^ masks[from];
        lemma_step_wf(hv, c, masks[from], d);
        if hv.groups.contains(dest) && !hv.groups.same_set(c, dest) && hv.max_spacing(
            hv.groups.root[c],
            hv.groups.root[dest],
        ) < d {
            lemma_union_keeps_tight(hv, c, dest, d);
        }
        lemma_visit_keeps_tight(hv.step(c, masks[from], d), c, masks, from + 1, d);
    }
}

/// A sweep keeps every group free of vertices that are `d` apart or more.
pub proof fn lemma_sweep_keeps_tight(hv: HammingView, from: int, d: u32)
    requires
        hv.wf(),
        hv.tight(d),
    ensures
        hv.sweep(from, d).tight(d),
    decreases 0x1_0000_0000 - from,
{
    if 0 <= from <= u32::MAX {
        if hv.groups.contains(from as u32) {
            let c = from as u32;
            let ones = crate::bitmask::one_bit_masks(hv.width as nat);
            let twos = crate::bitmask::two_bit_masks(hv.width as nat);
            lemma_visit_wf(hv, c, ones, 0, d);
            lemma_visit_keeps_tight(hv, c, ones, 0, d);
            lemma_visit_keeps_tight(hv.visit(c, ones, 0, d), c, twos, 0, d);
            lemma_visit_code_wf(hv, c, d);
            lemma_sweep_keeps_tight(hv.visit_code(c, d), from + 1, d);
        } else {
            lemma_sweep_keeps_tight(hv, from + 1, d);
        }
    }
}

/// A visit changes nothing in a view that is settled.
pub proof fn lemma_visit_of_settled(hv: HammingView, c: u32, masks: Seq<u32>, from: int, d: u32)
    requires
        hv.groups.contains(c),
        forall|at: int| 0 <= at < masks.len() ==> hv.pair_settled(c, #[trigger] masks[at], d),
    ensures
        hv.visit(c, masks, from, d) == hv,
    decreases masks.len() - from,
{
    if 0 <= from < masks.len() {
        assert(hv.pair_settled(c, masks[from], d));
        assert(hv.step(c, masks[from], d) == hv);
        lemma_visit_of_settled(hv, c, masks, from + 1, d);
    }
}

/// A sweep changes nothing in a view that is settled.
pub proof fn lemma_sweep_of_settled(hv: HammingView, from: int, d: u32)
    requires
        hv.settled(d),
    ensures
        hv.sweep(from, d) == hv,
    decreases 0x1_0000_0000 - from,
{
    if 0 <= from <= u32::MAX {
        if hv.groups.contains(from as u32) {
            let c = from as u32;
            let ones = crate::bitmask::one_bit_masks(hv.width as nat);
            let twos = crate::bitmask::two_bit_masks(hv.width as nat);
            assert forall|at: int| 0 <= at < ones.len() implies hv.pair_settled(
                c,
                #[trigger] ones[at],
                d,
            ) by {
                assert(ones.contains(ones[at]));
                assert(hv.is_mask(ones[at]));
            }
            assert forall|at: int| 0 <= at < twos.len() implies hv.pair_settled(
                c,
                #[trigger] twos[at],
                d,
            ) by {
                assert(twos.contains(twos[at]));
                assert(hv.is_mask(twos[at]));
            }
            lemma_visit_of_settled(hv, c, ones, 0, d);
            lemma_visit_of_settled(hv, c, twos, 0, d);
        }
        lemma_sweep_of_settled(hv, from + 1, d);
    }
}

} // verus!
