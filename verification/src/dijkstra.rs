//! The relaxation engines: a classic label-setting shortest-path search
//! and a meeting-in-the-middle bidirectional variant, both verified
//! against [`crate::walks::is_shortest`].

use crate::frontier::{entry_le, Frontier};
use crate::graph::{has_edge, invert, lemma_inverted_has_edge, rows_view, wf_graph, Edge};
use crate::walks::{
    connects, is_shortest, lemma_connects_concat, lemma_connects_flip, lemma_connects_self,
    lemma_connects_step, lemma_cost_nonneg, lemma_cost_reverse_take, lemma_cost_split,
    lemma_walk_weights_nonneg, valid_walk, walk_cost,
};
use vstd::prelude::*;

verus! {

/// The sum of a distance table, used (together with the frontier size) as
/// the termination measure of a search: every relaxation strictly lowers
/// one entry.
pub open spec fn dist_total(dist: Seq<usize>) -> int
    decreases dist.len(),
{
    if dist.len() == 0 {
        0
    } else {
        dist_total(dist.drop_last()) + dist.last()
    }
}

proof fn lemma_dist_total_update(dist: Seq<usize>, i: int, v: usize)
    requires
        0 <= i < dist.len(),
    ensures
        dist_total(dist.update(i, v)) == dist_total(dist) - dist[i] + v,
    decreases dist.len(),
{
    if i == dist.len() - 1 {
        assert(dist.update(i, v).drop_last() =~= dist.drop_last());
        assert(dist.update(i, v).last() == v);
    } else {
        lemma_dist_total_update(dist.drop_last(), i, v);
        assert(dist.update(i, v).drop_last() =~= dist.drop_last().update(i, v));
        assert(dist.update(i, v).last() == dist.last());
    }
}

/// The termination measure of one search direction.
pub open spec fn phi(dist: Seq<usize>, fr: Seq<(usize, usize)>) -> int {
    dist_total(dist) + fr.len()
}

/// Every finite table entry is the cost of an actual walk from the root.
pub open spec fn inv_dist_sound(g: Seq<Seq<Edge>>, s: int, dist: Seq<usize>) -> bool {
    forall|v: int|
        0 <= v < dist.len() && (#[trigger] dist[v]) != usize::MAX ==> connects(
            g,
            s,
            v,
            dist[v] as int,
        )
}

/// Every frontier entry names a valid node, carries the cost of an actual
/// walk to it, and never beats the table (the table is monotonically
/// non-increasing and is updated on every push).
pub open spec fn inv_frontier_sound(
    g: Seq<Seq<Edge>>,
    s: int,
    dist: Seq<usize>,
    fr: Seq<(usize, usize)>,
) -> bool {
    forall|k: int|
        0 <= k < fr.len() ==> {
            &&& (#[trigger] fr[k]).1 < dist.len()
            &&& fr[k].0 < usize::MAX
            &&& connects(g, s, fr[k].1 as int, fr[k].0 as int)
            &&& dist[fr[k].1 as int] <= fr[k].0
        }
}

/// Every finite, not-yet-settled table entry still has its matching
/// frontier entry pending.
pub open spec fn inv_pending(dist: Seq<usize>, fr: Seq<(usize, usize)>, settled: Set<int>) -> bool {
    forall|v: int|
        0 <= v < dist.len() && (#[trigger] dist[v]) != usize::MAX && !settled.contains(v)
            ==> fr.contains((dist[v], v as usize))
}

/// Settled nodes carry their final distance: no walk from the root can
/// beat the table entry.
pub open spec fn inv_settled(
    g: Seq<Seq<Edge>>,
    s: int,
    dist: Seq<usize>,
    settled: Set<int>,
) -> bool {
    forall|v: int|
        #[trigger] settled.contains(v) ==> {
            &&& 0 <= v < dist.len()
            &&& dist[v] != usize::MAX
            &&& forall|c2: int| connects(g, s, v, c2) ==> c2 >= dist[v]
        }
}

/// Every outgoing edge of a settled node has been relaxed (or its
/// candidate cost exceeds the representable range).
pub open spec fn inv_relaxed(g: Seq<Seq<Edge>>, dist: Seq<usize>, settled: Set<int>) -> bool {
    forall|u: int, j: int|
        settled.contains(u) && 0 <= j < g[u].len() ==> {
            ||| dist[u] + (#[trigger] g[u][j]).cost >= usize::MAX
            ||| dist[g[u][j].node as int] <= dist[u] + g[u][j].cost
        }
}

/// The complete invariant of one search direction rooted at `s`.
pub open spec fn search_inv(
    g: Seq<Seq<Edge>>,
    s: int,
    dist: Seq<usize>,
    fr: Seq<(usize, usize)>,
    settled: Set<int>,
) -> bool {
    &&& wf_graph(g)
    &&& 0 <= s < g.len()
    &&& dist.len() == g.len()
    &&& dist.len() <= usize::MAX
    &&& dist[s] == 0
    &&& inv_dist_sound(g, s, dist)
    &&& inv_frontier_sound(g, s, dist, fr)
    &&& inv_pending(dist, fr, settled)
    &&& inv_settled(g, s, dist, settled)
    &&& inv_relaxed(g, dist, settled)
}

/// A witness position on a walk: everything before `k` is settled, the
/// table is bounded by the walk's prefix costs up to `k`, and `k` is
/// either unsettled or the walk's end.
pub open spec fn bound_point(
    dist: Seq<usize>,
    settled: Set<int>,
    p: Seq<int>,
    ws: Seq<int>,
    k: int,
) -> bool {
    &&& 0 <= k < p.len()
    &&& forall|i: int| 0 <= i < k ==> settled.contains(#[trigger] p[i])
    &&& forall|i: int| 0 <= i <= k ==> dist[#[trigger] p[i]] <= walk_cost(ws.take(i))
    &&& (!settled.contains(p[k]) || k == p.len() - 1)
}

/// The central lemma of the search: along any representable-cost walk
/// from the root there is a position whose table entry already undercuts
/// the walk, reached over settled nodes only.
#[verifier::rlimit(50)]
proof fn lemma_walk_bound(
    g: Seq<Seq<Edge>>,
    s: int,
    dist: Seq<usize>,
    settled: Set<int>,
    p: Seq<int>,
    ws: Seq<int>,
)
    requires
        wf_graph(g),
        0 <= s < g.len(),
        dist.len() == g.len(),
        dist[s] == 0,
        inv_relaxed(g, dist, settled),
        valid_walk(g, p, ws),
        p[0] == s,
        walk_cost(ws) < usize::MAX,
    ensures
        exists|k: int| #[trigger] bound_point(dist, settled, p, ws, k),
    decreases p.len(),
{
    lemma_walk_weights_nonneg(g, p, ws);
    if p.len() == 1 {
        assert(ws.take(0).len() == 0);
        assert(bound_point(dist, settled, p, ws, 0));
    } else {
        let p0 = p.drop_last();
        let ws0 = ws.drop_last();
        assert forall|i: int| 0 <= i < ws0.len() implies has_edge(
            g,
            p0[i],
            p0[i + 1],
            #[trigger] ws0[i],
        ) by {
            assert(has_edge(g, p[i], p[i + 1], ws[i]));
        }
        assert(valid_walk(g, p0, ws0));
        assert(ws.last() >= 0);
        assert(walk_cost(ws) == walk_cost(ws0) + ws.last());
        lemma_walk_bound(g, s, dist, settled, p0, ws0);
        let k0 = choose|k: int| #[trigger] bound_point(dist, settled, p0, ws0, k);
        if !settled.contains(p0[k0]) {
            assert forall|i: int| 0 <= i <= k0 implies dist[#[trigger] p[i]] <= walk_cost(
                ws.take(i),
            ) by {
                assert(p[i] == p0[i]);
                assert(dist[p0[i]] <= walk_cost(ws0.take(i)));
                assert(ws.take(i) =~= ws0.take(i));
            }
            assert forall|i: int| 0 <= i < k0 implies settled.contains(#[trigger] p[i]) by {
                assert(p[i] == p0[i]);
            }
            assert(bound_point(dist, settled, p, ws, k0));
        } else {
            let m = p.len() - 2;
            assert(k0 == m);
            let u = p[m];
            let v = p[m + 1];
            let w = ws[m];
            assert(has_edge(g, u, v, w));
            let j = choose|j: int|
                0 <= j < g[u].len() && (#[trigger] g[u][j]).node == v && g[u][j].cost == w;
            assert(ws0.take(m) =~= ws0);
            assert(p0[m] == u && dist[p0[m]] <= walk_cost(ws0.take(m)));
            assert(dist[u] <= walk_cost(ws0));
            assert(settled.contains(u) && 0 <= j < g[u].len());
            assert(dist[u] + g[u][j].cost >= usize::MAX || dist[g[u][j].node as int] <= dist[u]
                + g[u][j].cost);
            assert(dist[u] + w <= walk_cost(ws0) + w);
            assert(dist[v] <= walk_cost(ws));
            let k = p.len() - 1;
            assert(ws.take(k) =~= ws);
            assert forall|i: int| 0 <= i < k implies settled.contains(#[trigger] p[i]) by {
                assert(p[i] == p0[i]);
            }
            assert forall|i: int| 0 <= i <= k implies dist[#[trigger] p[i]] <= walk_cost(
                ws.take(i),
            ) by {
                if i < k {
                    assert(p[i] == p0[i]);
                    assert(dist[p0[i]] <= walk_cost(ws0.take(i)));
                    assert(ws.take(i) =~= ws0.take(i));
                }
            }
            assert(bound_point(dist, settled, p, ws, k));
        }
    }
}

/// If every pending frontier cost is at least `dist[u]`, then no walk
/// from the root to `u` beats `dist[u]`: the node can be settled.
proof fn lemma_reach_lower_bound(
    g: Seq<Seq<Edge>>,
    s: int,
    dist: Seq<usize>,
    fr: Seq<(usize, usize)>,
    settled: Set<int>,
    u: int,
    c2: int,
)
    requires
        search_inv(g, s, dist, fr, settled),
        0 <= u < dist.len(),
        dist[u] != usize::MAX,
        forall|k: int| 0 <= k < fr.len() ==> (#[trigger] fr[k]).0 >= dist[u],
        connects(g, s, u, c2),
    ensures
        c2 >= dist[u],
{
    if c2 < usize::MAX {
        let (p, ws): (Seq<int>, Seq<int>) = choose|p: Seq<int>, ws: Seq<int>|
            #[trigger] valid_walk(g, p, ws) && p[0] == s && p.last() == u && walk_cost(ws) == c2;
        lemma_walk_weights_nonneg(g, p, ws);
        lemma_walk_bound(g, s, dist, settled, p, ws);
        let k = choose|k: int| #[trigger] bound_point(dist, settled, p, ws, k);
        if settled.contains(p[k]) {
            assert(k == p.len() - 1);
            assert(p[k] == u);
            assert(connects(g, s, u, c2) ==> c2 >= dist[u]);
        } else {
            let x = p[k];
            lemma_cost_split(ws, k);
            assert forall|i: int| 0 <= i < ws.skip(k).len() implies (#[trigger] ws.skip(k)[i])
                >= 0 by {
                assert(ws.skip(k)[i] == ws[k + i]);
            }
            lemma_cost_nonneg(ws.skip(k));
            assert(dist[x] <= walk_cost(ws.take(k)));
            assert(walk_cost(ws.take(k)) <= c2);
            assert(0 <= x < g.len());
            assert(dist[x] != usize::MAX);
            assert(fr.contains((dist[x], x as usize)));
            let idx = choose|idx: int| 0 <= idx < fr.len() && fr[idx] == (dist[x], x as usize);
            assert(fr[idx].0 >= dist[u]);
        }
    }
}

/// Removing one entry keeps every other occurrence in the sequence.
proof fn lemma_remove_keeps(fr: Seq<(usize, usize)>, k: int, x: (usize, usize))
    requires
        0 <= k < fr.len(),
        fr.contains(x),
        x != fr[k],
    ensures
        fr.remove(k).contains(x),
{
    let idx = choose|i: int| 0 <= i < fr.len() && fr[i] == x;
    fr.remove_ensures(k);
    if idx < k {
        assert(fr.remove(k)[idx] == x);
    } else {
        assert(fr.remove(k)[idx - 1] == x);
    }
}

/// Every entry left after a removal was already present before.
proof fn lemma_remove_subset(fr: Seq<(usize, usize)>, k: int)
    requires
        0 <= k < fr.len(),
    ensures
        forall|l: int| 0 <= l < fr.remove(k).len() ==> fr.contains(#[trigger] fr.remove(k)[l]),
{
    fr.remove_ensures(k);
    assert forall|l: int| 0 <= l < fr.remove(k).len() implies fr.contains(
        #[trigger] fr.remove(k)[l],
    ) by {
        if l < k {
            assert(fr.remove(k)[l] == fr[l]);
        } else {
            assert(fr.remove(k)[l] == fr[l + 1]);
        }
    }
}

/// What one relaxation step does, given that the least pending entry,
/// the one at `kp`, was popped.  A stale entry -- superseded, its cost
/// above the table -- is discarded with nothing else touched.  A fresh
/// one has every outgoing edge of its node relaxed: each target entry
/// drops to the minimum of its old value and popped cost plus weight, a
/// candidate entry is pushed exactly for the improvements, and every
/// other table entry is unchanged.
pub open spec fn step_effect(
    g: Seq<Seq<Edge>>,
    d0: Seq<usize>,
    d1: Seq<usize>,
    f0: Seq<(usize, usize)>,
    f1: Seq<(usize, usize)>,
    kp: int,
) -> bool {
    let c = f0[kp].0;
    let p = f0[kp].1 as int;
    if c > d0[p] {
        // Stale: discarded, with table and remaining frontier unchanged.
        &&& d1 == d0
        &&& f1 == f0.remove(kp)
    } else {
        // Fresh: every outgoing edge is relaxed ...
        &&& forall|j: int|
            0 <= j < g[p].len() ==> (c + (#[trigger] g[p][j]).cost >= usize::MAX || d1[g[p][j].node
                as int] <= c + g[p][j].cost)
        // ... every change is such an improvement (so unlisted entries
        // are unchanged, and each target ends at the minimum) ...
        &&& forall|v: int|
            0 <= v < d0.len() ==> (#[trigger] d1[v]) == d0[v] || (d1[v] < d0[v] && exists|j: int|
                0 <= j < g[p].len() && (#[trigger] g[p][j]).node as int == v && d1[v] == c + g[p][
                    j
                ].cost)
        // ... each improved entry is pending under its new cost ...
        &&& forall|v: int|
            0 <= v < d0.len() && (#[trigger] d1[v]) < d0[v] ==> f1.contains((d1[v], v as usize))
        // ... and the frontier grew only by improving candidates.
        &&& exists|pushed: Seq<(usize, usize)>|
            #[trigger] (f0.remove(kp) + pushed) == f1 && forall|l: int|
                0 <= l < pushed.len() ==> ((#[trigger] pushed[l]).0 < d0[pushed[l].1 as int]
                    && exists|j: int|
                    0 <= j < g[p].len() && (#[trigger] g[p][j]).node == pushed[l].1 && pushed[l].0
                        == c + g[p][j].cost)
    }
}

/// One relaxation step of a search rooted at `root` over `adj_list`: pops
/// the least pending entry, short-circuits when it names `goal` (whose
/// optimal cost it then returns), discards stale entries, and otherwise
/// settles the popped node and relaxes its outgoing edges.
#[verifier::rlimit(100)]
fn dijkstra_step(
    adj_list: &Vec<Vec<Edge>>,
    goal: usize,
    fr: &mut Frontier,
    dist: &mut Vec<usize>,
    Ghost(root): Ghost<int>,
    Ghost(settled): Ghost<Set<int>>,
) -> (r: (Option<usize>, Ghost<Set<int>>))
    requires
        search_inv(rows_view(adj_list@), root, old(dist)@, old(fr)@, settled),
        goal < adj_list@.len(),
        !settled.contains(goal as int),
    ensures
        final(dist)@.len() == old(dist)@.len(),
        // The table is monotonically non-increasing.
        forall|v: int| 0 <= v < old(dist)@.len() ==> final(dist)@[v] <= old(dist)@[v],
        // Whenever the least pending entry names the goal, the step
        // short-circuits and returns its cost.
        forall|kp: int|
            0 <= kp < old(fr)@.len() && (#[trigger] old(fr)@[kp]).1 == goal && (forall|l: int|
                0 <= l < old(fr)@.len() ==> entry_le(old(fr)@[kp], old(fr)@[l])) ==> r.0
                == Option::Some(old(fr)@[kp].0),
        match r.0 {
            Option::Some(c) => {
                &&& c < usize::MAX
                &&& connects(rows_view(adj_list@), root, goal as int, c as int)
                &&& forall|c2: int|
                    connects(rows_view(adj_list@), root, goal as int, c2) ==> c2 >= c
                &&& final(dist)@ == old(dist)@
                &&& exists|kp: int|
                    0 <= kp < old(fr)@.len() && #[trigger] old(fr)@[kp] == (c, goal) && final(fr)@
                        == old(fr)@.remove(kp)
            },
            Option::None => {
                &&& search_inv(rows_view(adj_list@), root, final(dist)@, final(fr)@, r.1@)
                &&& !r.1@.contains(goal as int)
                &&& (old(fr)@.len() == 0 ==> final(fr)@ == old(fr)@ && final(dist)@ == old(dist)@
                    && r.1@ == settled)
                &&& (old(fr)@.len() > 0 ==> phi(final(dist)@, final(fr)@) < phi(
                    old(dist)@,
                    old(fr)@,
                ))
                &&& (old(fr)@.len() > 0 ==> exists|kp: int|
                    0 <= kp < old(fr)@.len() && (forall|l: int|
                        0 <= l < old(fr)@.len() ==> entry_le(old(fr)@[kp], old(fr)@[l]))
                        && #[trigger] step_effect(
                        rows_view(adj_list@),
                        old(dist)@,
                        final(dist)@,
                        old(fr)@,
                        final(fr)@,
                        kp,
                    ))
            },
        },
{
    let ghost g = rows_view(adj_list@);
    let ghost fr0 = fr@;
    let ghost dist0 = dist@;
    let popped = fr.pop_min();
    match popped {
        Option::None => (Option::None, Ghost(settled)),
        Option::Some((c, pos)) => {
            let ghost kp = choose|k: int|
                0 <= k < fr0.len() && fr0[k] == (c, pos) && fr@ == fr0.remove(k);
            proof {
                assert(fr0[kp].1 < dist0.len() && fr0[kp].0 < usize::MAX && connects(
                    g,
                    root,
                    pos as int,
                    c as int,
                ) && dist0[pos as int] <= c);
                fr0.remove_ensures(kp);
                lemma_remove_subset(fr0, kp);
            }
            if pos == goal {
                proof {
                    assert(dist0[goal as int] != usize::MAX);
                    assert(fr0.contains((dist0[goal as int], goal)));
                    let idx = choose|i: int|
                        0 <= i < fr0.len() && fr0[i] == (dist0[goal as int], goal);
                    assert(entry_le((c, pos), fr0[idx]));
                    assert(c == dist0[goal as int]);
                    assert forall|k: int| 0 <= k < fr0.len() implies (#[trigger] fr0[k]).0
                        >= dist0[goal as int] by {
                        assert(entry_le((c, pos), fr0[k]));
                    }
                    assert forall|c2: int| connects(g, root, goal as int, c2) implies c2 >= c by {
                        lemma_reach_lower_bound(g, root, dist0, fr0, settled, goal as int, c2);
                    }
                    // Any least pending entry naming the goal carries this
                    // very cost: two lexicographic minima are equal.
                    assert forall|kp2: int|
                        0 <= kp2 < fr0.len() && (#[trigger] fr0[kp2]).1 == goal && (forall|l: int|
                            0 <= l < fr0.len() ==> entry_le(fr0[kp2], fr0[l]))
                        implies fr0[kp2].0 == c by {
                        assert(entry_le(fr0[kp2], fr0[kp]));
                        assert(entry_le((c, pos), fr0[kp2]));
                    }
                    assert(fr0[kp] == (c, goal));
                }
                return (Option::Some(c), Ghost(settled));
            }
            let dpos = dist[pos];
            if c > dpos {
                proof {
                    assert(inv_pending(dist@, fr@, settled)) by {
                        assert forall|v: int|
                            0 <= v < dist@.len() && (#[trigger] dist@[v]) != usize::MAX
                                && !settled.contains(v) implies fr@.contains(
                            (dist@[v], v as usize),
                        ) by {
                            assert(fr0.contains((dist0[v], v as usize)));
                            if v == pos as int {
                                assert(dist0[v] != c);
                            } else {
                                assert(v as usize != pos);
                            }
                            lemma_remove_keeps(fr0, kp, (dist0[v], v as usize));
                        }
                    }
                    assert(search_inv(g, root, dist@, fr@, settled));
                    // The discarded entry was stale: nothing else changed.
                    assert(fr0[kp] == (c, pos) && c > dist0[pos as int]);
                    assert(step_effect(g, dist0, dist@, fr0, fr@, kp));
                    // No least pending entry names the goal: the popped
                    // minimum would have to equal it.
                    assert forall|kp2: int|
                        0 <= kp2 < fr0.len() && (#[trigger] fr0[kp2]).1 == goal implies !(
                    forall|l: int| 0 <= l < fr0.len() ==> entry_le(fr0[kp2], fr0[l])) by {
                        if forall|l: int| 0 <= l < fr0.len() ==> entry_le(fr0[kp2], fr0[l]) {
                            assert(entry_le(fr0[kp2], fr0[kp]));
                            assert(entry_le((c, pos), fr0[kp2]));
                            assert(fr0[kp2].1 == pos);
                        }
                    }
                }
                return (Option::None, Ghost(settled));
            }
            // The popped entry is fresh: its cost equals the table entry,
            // and no walk from the root can beat it, so the node settles.
            proof {
                assert(c == dist0[pos as int]);
                assert forall|k: int| 0 <= k < fr0.len() implies (#[trigger] fr0[k]).0 >= dist0[pos as int] by {
                    assert(entry_le((c, pos), fr0[k]));
                }
            }
            let ghost settled2 = settled.insert(pos as int);
            proof {
                assert forall|c2: int| connects(g, root, pos as int, c2) implies c2 >= dist0[pos as int] by {
                    lemma_reach_lower_bound(g, root, dist0, fr0, settled, pos as int, c2);
                }
                assert(inv_settled(g, root, dist0, settled2));
                assert(inv_pending(dist@, fr@, settled2)) by {
                    assert forall|v: int|
                        0 <= v < dist@.len() && (#[trigger] dist@[v]) != usize::MAX
                            && !settled2.contains(v) implies fr@.contains((dist@[v], v as usize)) by {
                        assert(v != pos as int);
                        assert(v as usize != pos);
                        assert(fr0.contains((dist0[v], v as usize)));
                        lemma_remove_keeps(fr0, kp, (dist0[v], v as usize));
                    }
                }
            }
            let ghost fr_pop = fr@;
            proof {
                assert(fr@.take(fr_pop.len() as int) =~= fr_pop);
            }
            let row_len = adj_list[pos].len();
            let mut j: usize = 0;
            while j < row_len
                invariant
                    g == rows_view(adj_list@),
                    wf_graph(g),
                    0 <= root < g.len(),
                    dist@.len() == g.len(),
                    dist@.len() <= usize::MAX,
                    dist@[root] == 0,
                    pos < g.len(),
                    goal < g.len(),
                    pos != goal,
                    c < usize::MAX,
                    row_len == g[pos as int].len(),
                    j <= row_len,
                    settled2 == settled.insert(pos as int),
                    !settled2.contains(goal as int),
                    dist@[pos as int] == c,
                    inv_dist_sound(g, root, dist@),
                    inv_frontier_sound(g, root, dist@, fr@),
                    inv_pending(dist@, fr@, settled2),
                    inv_settled(g, root, dist@, settled2),
                    forall|u: int, jj: int|
                        settled.contains(u) && 0 <= jj < g[u].len() ==> {
                            ||| dist@[u] + (#[trigger] g[u][jj]).cost >= usize::MAX
                            ||| dist@[g[u][jj].node as int] <= dist@[u] + g[u][jj].cost
                        },
                    forall|jj: int|
                        0 <= jj < j ==> {
                            ||| c + (#[trigger] g[pos as int][jj]).cost >= usize::MAX
                            ||| dist@[g[pos as int][jj].node as int] <= c + g[pos as int][jj].cost
                        },
                    dist@.len() == dist0.len(),
                    forall|v: int|
                        0 <= v < dist@.len() ==> (#[trigger] dist@[v]) == dist0[v] || (dist@[v]
                            < dist0[v] && exists|jj: int|
                            0 <= jj < row_len && (#[trigger] g[pos as int][jj]).node as int == v
                                && dist@[v] == c + g[pos as int][jj].cost),
                    forall|v: int|
                        0 <= v < dist@.len() && (#[trigger] dist@[v]) < dist0[v] ==> fr@.contains(
                            (dist@[v], v as usize),
                        ),
                    fr_pop.len() <= fr@.len(),
                    fr@.take(fr_pop.len() as int) == fr_pop,
                    forall|l: int|
                        fr_pop.len() <= l < fr@.len() ==> ((#[trigger] fr@[l]).0 < dist0[fr@[l].1
                            as int] && exists|jj: int|
                            0 <= jj < row_len && (#[trigger] g[pos as int][jj]).node == fr@[l].1
                                && fr@[l].0 == c + g[pos as int][jj].cost),
                    phi(dist@, fr@) < phi(dist0, fr0),
                decreases row_len - j,
            {
                let e = adj_list[pos][j];
                proof {
                    assert(g[pos as int] == adj_list@[pos as int]@);
                    assert(g[pos as int][j as int] == e);
                    assert(e.node < g.len());
                }
                if e.cost <= usize::MAX - 1 - c {
                    let cand = c + e.cost;
                    let dnext = dist[e.node];
                    if cand < dnext {
                        let ghost dist1 = dist@;
                        let ghost fr1 = fr@;
                        dist[e.node] = cand;
                        fr.push(cand, e.node);
                        proof {
                            let v = e.node as int;
                            assert(dist@ =~= dist1.update(v, cand));
                            assert(fr@ == fr1.push((cand, e.node)));
                            assert(has_edge(g, pos as int, v, e.cost as int));
                            assert(connects(g, root, pos as int, c as int));
                            lemma_connects_step(
                                g,
                                root,
                                pos as int,
                                c as int,
                                v,
                                e.cost as int,
                            );
                            assert(connects(g, root, v, cand as int));
                            // The updated node cannot be settled: its new
                            // cost would beat a final distance.
                            assert(!settled2.contains(v));
                            lemma_dist_total_update(dist1, v, cand);
                            assert(inv_dist_sound(g, root, dist@)) by {
                                assert forall|x: int|
                                    0 <= x < dist@.len() && (#[trigger] dist@[x])
                                        != usize::MAX implies connects(g, root, x, dist@[x] as int) by {
                                    if x != v {
                                        assert(dist@[x] == dist1[x]);
                                    }
                                }
                            }
                            assert(inv_settled(g, root, dist@, settled2)) by {
                                assert forall|x: int| #[trigger] settled2.contains(x) implies {
                                    &&& 0 <= x < dist@.len()
                                    &&& dist@[x] != usize::MAX
                                    &&& forall|c2: int| connects(g, root, x, c2) ==> c2 >= dist@[x]
                                } by {
                                    assert(x != v);
                                    assert(dist@[x] == dist1[x]);
                                }
                            }
                            assert forall|u: int, jj: int|
                                settled.contains(u) && 0 <= jj < g[u].len() implies {
                                ||| dist@[u] + (#[trigger] g[u][jj]).cost >= usize::MAX
                                ||| dist@[g[u][jj].node as int] <= dist@[u] + g[u][jj].cost
                            } by {
                                assert(settled2.contains(u));
                                assert(u != v);
                                assert(dist@[u] == dist1[u]);
                                assert(dist1[u] + g[u][jj].cost >= usize::MAX || dist1[g[u][jj].node as int]
                                    <= dist1[u] + g[u][jj].cost);
                                if dist1[u] + g[u][jj].cost < usize::MAX {
                                    let tgt = g[u][jj].node as int;
                                    if tgt == v {
                                        assert(dist@[tgt] == cand && cand < dist1[tgt]);
                                    } else {
                                        assert(dist@[tgt] == dist1[tgt]);
                                    }
                                }
                            }
                            assert forall|jj: int| 0 <= jj < j + 1 implies {
                                ||| c + (#[trigger] g[pos as int][jj]).cost >= usize::MAX
                                ||| dist@[g[pos as int][jj].node as int] <= c + g[pos as int][jj].cost
                            } by {
                                if jj == j {
                                    assert(g[pos as int][jj] == e);
                                    assert(dist@[v] == cand);
                                } else {
                                    assert(c + g[pos as int][jj].cost >= usize::MAX || dist1[g[pos as int][jj].node as int]
                                        <= c + g[pos as int][jj].cost);
                                    if c + g[pos as int][jj].cost < usize::MAX {
                                        let tgt = g[pos as int][jj].node as int;
                                        if tgt == v {
                                            assert(dist@[tgt] == cand && cand < dist1[tgt]);
                                        } else {
                                            assert(dist@[tgt] == dist1[tgt]);
                                        }
                                    }
                                }
                            }
                            assert(pos as int != v);
                            assert(dist@[pos as int] == c);
                            assert(root != v);
                            assert(dist@[root] == 0);
                            assert forall|k: int| 0 <= k < fr@.len() implies {
                                &&& (#[trigger] fr@[k]).1 < dist@.len()
                                &&& fr@[k].0 < usize::MAX
                                &&& connects(g, root, fr@[k].1 as int, fr@[k].0 as int)
                                &&& dist@[fr@[k].1 as int] <= fr@[k].0
                            } by {
                                if k < fr1.len() {
                                    assert(fr@[k] == fr1[k]);
                                } else {
                                    assert(fr@[k] == (cand, e.node));
                                }
                            }
                            assert(inv_pending(dist@, fr@, settled2)) by {
                                assert forall|x: int|
                                    0 <= x < dist@.len() && (#[trigger] dist@[x]) != usize::MAX
                                        && !settled2.contains(x) implies fr@.contains(
                                    (dist@[x], x as usize),
                                ) by {
                                    if x == v {
                                        assert(fr@[fr1.len() as int] == (cand, e.node));
                                    } else {
                                        assert(dist@[x] == dist1[x]);
                                        assert(fr1.contains((dist1[x], x as usize)));
                                        let ix = choose|i: int|
                                            0 <= i < fr1.len() && fr1[i] == (dist1[x], x as usize);
                                        assert(fr@[ix] == (dist1[x], x as usize));
                                    }
                                }
                            }
                            // The change record: the updated entry is an
                            // improvement justified by edge j, all other
                            // entries carry their old record.
                            assert forall|x: int|
                                0 <= x < dist@.len() implies (#[trigger] dist@[x]) == dist0[x] || (
                            dist@[x] < dist0[x] && exists|jj: int|
                                0 <= jj < row_len && (#[trigger] g[pos as int][jj]).node as int
                                    == x && dist@[x] == c + g[pos as int][jj].cost) by {
                                if x == v {
                                    assert(dist1[x] == dist0[x] || dist1[x] < dist0[x]);
                                    assert(dist@[x] == cand && cand < dist1[x]);
                                    assert((g[pos as int][j as int]).node as int == x && dist@[x]
                                        == c + g[pos as int][j as int].cost);
                                } else {
                                    assert(dist@[x] == dist1[x]);
                                }
                            }
                            assert forall|x: int|
                                0 <= x < dist@.len() && (#[trigger] dist@[x]) < dist0[x] implies
                                fr@.contains((dist@[x], x as usize)) by {
                                if x == v {
                                    assert(fr@[fr1.len() as int] == (cand, e.node));
                                } else {
                                    assert(dist@[x] == dist1[x]);
                                    assert(fr1.contains((dist1[x], x as usize)));
                                    let ix = choose|i: int|
                                        0 <= i < fr1.len() && fr1[i] == (dist1[x], x as usize);
                                    assert(fr@[ix] == (dist1[x], x as usize));
                                }
                            }
                            assert(fr@.take(fr_pop.len() as int) =~= fr1.take(
                                fr_pop.len() as int,
                            ));
                            assert forall|l: int|
                                fr_pop.len() <= l < fr@.len() implies ((#[trigger] fr@[l]).0
                                    < dist0[fr@[l].1 as int] && exists|jj: int|
                                    0 <= jj < row_len && (#[trigger] g[pos as int][jj]).node
                                        == fr@[l].1 && fr@[l].0 == c + g[pos as int][jj].cost) by {
                                if l < fr1.len() {
                                    assert(fr@[l] == fr1[l]);
                                } else {
                                    assert(fr@[l] == (cand, e.node));
                                    assert(dist1[v] <= dist0[v]);
                                    assert((g[pos as int][j as int]).node == e.node && cand == c
                                        + g[pos as int][j as int].cost);
                                }
                            }
                        }
                    } else {
                        proof {
                            assert(dist@[e.node as int] <= c + e.cost);
                        }
                    }
                } else {
                    proof {
                        assert(c + e.cost >= usize::MAX);
                    }
                }
                j = j + 1;
            }
            proof {
                assert(inv_relaxed(g, dist@, settled2)) by {
                    assert forall|u: int, jj: int|
                        settled2.contains(u) && 0 <= jj < g[u].len() implies {
                        ||| dist@[u] + (#[trigger] g[u][jj]).cost >= usize::MAX
                        ||| dist@[g[u][jj].node as int] <= dist@[u] + g[u][jj].cost
                    } by {
                        if u == pos as int {
                            assert(dist@[u] == c);
                        } else {
                            assert(settled.contains(u));
                        }
                    }
                }
                assert(search_inv(g, root, dist@, fr@, settled2));
                // Assemble the step's stated effect: the popped entry was
                // fresh, the relaxation record comes from the loop, and
                // the frontier grew exactly by the pushed candidates.
                assert(fr0[kp] == (c, pos) && !(c > dist0[pos as int]));
                let pushed = fr@.skip(fr_pop.len() as int);
                assert((fr0.remove(kp) + pushed) =~= fr@);
                assert forall|l: int|
                    0 <= l < pushed.len() implies ((#[trigger] pushed[l]).0 < dist0[pushed[l].1
                        as int] && exists|jj: int|
                        0 <= jj < g[pos as int].len() && (#[trigger] g[pos as int][jj]).node
                            == pushed[l].1 && pushed[l].0 == c + g[pos as int][jj].cost) by {
                    assert(pushed[l] == fr@[fr_pop.len() + l]);
                }
                assert(step_effect(g, dist0, dist@, fr0, fr@, kp));
                // No least pending entry named the goal: the popped
                // minimum would have to equal it.
                assert forall|kp2: int|
                    0 <= kp2 < fr0.len() && (#[trigger] fr0[kp2]).1 == goal implies !(forall|l: int|
                    0 <= l < fr0.len() ==> entry_le(fr0[kp2], fr0[l])) by {
                    if forall|l: int| 0 <= l < fr0.len() ==> entry_le(fr0[kp2], fr0[l]) {
                        assert(entry_le(fr0[kp2], fr0[kp]));
                        assert(entry_le((c, pos), fr0[kp2]));
                        assert(fr0[kp2].1 == pos);
                    }
                }
            }
            (Option::None, Ghost(settled2))
        },
    }
}

proof fn lemma_dist_total_nonneg(dist: Seq<usize>)
    ensures
        dist_total(dist) >= 0,
    decreases dist.len(),
{
    if dist.len() > 0 {
        lemma_dist_total_nonneg(dist.drop_last());
    }
}

/// With an exhausted frontier and the goal not settled, the goal is
/// unreachable within representable cost.
proof fn lemma_exhausted(
    g: Seq<Seq<Edge>>,
    s: int,
    dist: Seq<usize>,
    fr: Seq<(usize, usize)>,
    settled: Set<int>,
    goal: int,
)
    requires
        search_inv(g, s, dist, fr, settled),
        fr.len() == 0,
        0 <= goal < g.len(),
        !settled.contains(goal),
    ensures
        forall|c2: int| connects(g, s, goal, c2) ==> c2 >= usize::MAX,
{
    assert forall|c2: int| connects(g, s, goal, c2) implies c2 >= usize::MAX by {
        if c2 < usize::MAX {
            let (p, ws): (Seq<int>, Seq<int>) = choose|p: Seq<int>, ws: Seq<int>|
                #[trigger] valid_walk(g, p, ws) && p[0] == s && p.last() == goal && walk_cost(ws)
                    == c2;
            lemma_walk_weights_nonneg(g, p, ws);
            lemma_walk_bound(g, s, dist, settled, p, ws);
            let k = choose|k: int| #[trigger] bound_point(dist, settled, p, ws, k);
            if settled.contains(p[k]) {
                assert(p[k] == goal);
            } else {
                let x = p[k];
                lemma_cost_split(ws, k);
                assert forall|i: int| 0 <= i < ws.skip(k).len() implies (#[trigger] ws.skip(k)[i])
                    >= 0 by {
                    assert(ws.skip(k)[i] == ws[k + i]);
                }
                lemma_cost_nonneg(ws.skip(k));
                assert(dist[x] <= walk_cost(ws.take(k)));
                assert(dist[x] != usize::MAX);
                assert(fr.contains((dist[x], x as usize)));
            }
        }
    }
}

/// The classic label-setting shortest-path search from `start`, stopping
/// as soon as `goal` is popped.  Returns the least cost of any walk from
/// `start` to `goal`, or nothing when the goal is unreachable (the normal
/// outcome for an exhausted search space, not an error).
pub fn dijkstra(adj_list: &Vec<Vec<Edge>>, start: usize, goal: usize) -> (r: Option<usize>)
    requires
        wf_graph(rows_view(adj_list@)),
        start < adj_list@.len(),
        goal < adj_list@.len(),
    ensures
        is_shortest(rows_view(adj_list@), start as int, goal as int, r),
{
    let ghost g = rows_view(adj_list@);
    let n = adj_list.len();
    let mut dist: Vec<usize> = Vec::new();
    while dist.len() < n
        invariant
            dist@.len() <= n,
            forall|k: int| 0 <= k < dist@.len() ==> (#[trigger] dist@[k]) == usize::MAX,
        decreases n - dist.len(),
    {
        dist.push(usize::MAX);
    }
    dist[start] = 0;
    let mut fr = Frontier::new();
    fr.push(0, start);
    let ghost mut settled = Set::<int>::empty();
    proof {
        lemma_connects_self(g, start as int);
        assert(fr@.len() == 1 && fr@[0] == (0usize, start));
        assert(fr@.contains((0usize, start)));
        assert(inv_pending(dist@, fr@, settled)) by {
            assert forall|v: int|
                0 <= v < dist@.len() && (#[trigger] dist@[v]) != usize::MAX && !settled.contains(
                    v,
                ) implies fr@.contains((dist@[v], v as usize)) by {
                assert(v == start as int);
            }
        }
        assert(search_inv(g, start as int, dist@, fr@, settled));
    }
    while !fr.is_empty()
        invariant
            g == rows_view(adj_list@),
            n == g.len(),
            start < n,
            goal < n,
            search_inv(g, start as int, dist@, fr@, settled),
            !settled.contains(goal as int),
        decreases phi(dist@, fr@),
    {
        proof {
            lemma_dist_total_nonneg(dist@);
        }
        let (res, s2) = dijkstra_step(
            adj_list,
            goal,
            &mut fr,
            &mut dist,
            Ghost(start as int),
            Ghost(settled),
        );
        proof {
            settled = s2@;
        }
        match res {
            Option::Some(c) => {
                return Option::Some(c);
            },
            Option::None => {},
        }
        proof {
            lemma_dist_total_nonneg(dist@);
        }
    }
    proof {
        lemma_exhausted(g, start as int, dist@, fr@, settled, goal as int);
    }
    Option::None
}

/// The meeting bound of the bidirectional search: with `cf` and `cb`
/// bounding every pending cost of the forward and the backward frontier,
/// and `m` the cheapest combined total `dist_f[v] + dist_b[v]` over nodes
/// reached from both sides, `m <= cf + cb` proves that `m` undercuts
/// every walk from `s` to `t` — no unexplored frontier entry in either
/// direction can yield a cheaper combined path.
#[verifier::rlimit(100)]
proof fn lemma_meeting_bound(
    g: Seq<Seq<Edge>>,
    gi: Seq<Seq<Edge>>,
    s: int,
    t: int,
    dist_f: Seq<usize>,
    fr_f: Seq<(usize, usize)>,
    settled_f: Set<int>,
    dist_b: Seq<usize>,
    fr_b: Seq<(usize, usize)>,
    settled_b: Set<int>,
    cf: usize,
    cb: usize,
    m: usize,
    c2: int,
)
    requires
        search_inv(g, s, dist_f, fr_f, settled_f),
        search_inv(gi, t, dist_b, fr_b, settled_b),
        gi.len() == g.len(),
        forall|u: int, v: int, w: int| #[trigger] has_edge(gi, u, v, w) <==> has_edge(g, v, u, w),
        !settled_f.contains(t),
        !settled_b.contains(s),
        0 <= t < g.len(),
        forall|k: int| 0 <= k < fr_f.len() ==> (#[trigger] fr_f[k]).0 >= cf,
        forall|k: int| 0 <= k < fr_b.len() ==> (#[trigger] fr_b[k]).0 >= cb,
        m <= cf + cb,
        m < usize::MAX,
        forall|v: int|
            0 <= v < g.len() && (#[trigger] dist_f[v]) != usize::MAX && dist_b[v] != usize::MAX
                ==> m <= dist_f[v] + dist_b[v],
        connects(g, s, t, c2),
    ensures
        c2 >= m,
{
    if c2 < usize::MAX {
        let (p, ws): (Seq<int>, Seq<int>) = choose|p: Seq<int>, ws: Seq<int>|
            #[trigger] valid_walk(g, p, ws) && p[0] == s && p.last() == t && walk_cost(ws) == c2;
        lemma_walk_weights_nonneg(g, p, ws);
        lemma_walk_bound(g, s, dist_f, settled_f, p, ws);
        let k = choose|k: int| #[trigger] bound_point(dist_f, settled_f, p, ws, k);
        assert(!settled_f.contains(p[k]));
        crate::walks::lemma_walk_reverse(g, gi, p, ws);
        let pr = p.reverse();
        let wsr = ws.reverse();
        crate::walks::lemma_cost_reverse(ws);
        assert(pr[0] == t && pr.last() == s && walk_cost(wsr) == c2);
        lemma_walk_weights_nonneg(gi, pr, wsr);
        lemma_walk_bound(gi, t, dist_b, settled_b, pr, wsr);
        let kb = choose|k: int| #[trigger] bound_point(dist_b, settled_b, pr, wsr, k);
        assert(!settled_b.contains(pr[kb]));
        let j = p.len() - 1 - kb;
        assert(pr[kb] == p[j]);
        // The forward table undercuts the walk's prefix at k, the
        // backward table its suffix at j; both are representable.
        assert(dist_f[p[k]] <= walk_cost(ws.take(k)));
        assert(dist_b[p[j]] <= walk_cost(wsr.take(kb)));
        lemma_cost_reverse_take(ws, kb);
        assert(ws.len() - kb == j);
        assert(walk_cost(wsr.take(kb)) == walk_cost(ws.skip(j)));
        crate::walks::lemma_cost_parts(ws, k);
        crate::walks::lemma_cost_parts(ws, j);
        assert(dist_f[p[k]] <= c2 < usize::MAX);
        assert(0 <= p[k] < g.len());
        assert(fr_f.contains((dist_f[p[k]], p[k] as usize)));
        let idf = choose|i: int| 0 <= i < fr_f.len() && fr_f[i] == (dist_f[p[k]], p[k] as usize);
        assert(cf <= dist_f[p[k]]);
        assert(dist_b[p[j]] <= c2 < usize::MAX);
        assert(0 <= p[j] < gi.len());
        assert(fr_b.contains((dist_b[p[j]], p[j] as usize)));
        let idb = choose|i: int| 0 <= i < fr_b.len() && fr_b[i] == (dist_b[p[j]], p[j] as usize);
        assert(cb <= dist_b[p[j]]);
        if k <= j {
            // Disjoint prefix and suffix: the walk costs at least cf + cb.
            crate::walks::lemma_cost_disjoint_parts(ws, k, j);
            assert(c2 >= walk_cost(ws.take(k)) + walk_cost(ws.skip(j)));
            assert(c2 >= cf + cb);
        } else {
            // The searches overlap at p[j]: reached from both sides, its
            // combined total undercuts the walk, and m undercuts it.
            assert(dist_f[p[j]] <= walk_cost(ws.take(j)));
            assert(dist_f[p[j]] != usize::MAX);
            assert(dist_b[p[j]] != usize::MAX);
            assert(m <= dist_f[p[j]] + dist_b[p[j]]);
            assert(c2 == walk_cost(ws.take(j)) + walk_cost(ws.skip(j)));
        }
    }
}

/// The bidirectional termination test: scans every node reached from both
/// sides, takes the cheapest combined total, and compares it against the
/// sum of both frontiers' minimum pending costs (peek only, no pop).
/// Returns the proven shortest distance when the bound holds.
fn check_stop(
    dist_f: &Vec<usize>,
    dist_b: &Vec<usize>,
    fr_f: &Frontier,
    fr_b: &Frontier,
    Ghost(g): Ghost<Seq<Seq<Edge>>>,
    Ghost(gi): Ghost<Seq<Seq<Edge>>>,
    Ghost(s): Ghost<int>,
    Ghost(t): Ghost<int>,
    Ghost(settled_f): Ghost<Set<int>>,
    Ghost(settled_b): Ghost<Set<int>>,
) -> (r: Option<usize>)
    requires
        search_inv(g, s, dist_f@, fr_f@, settled_f),
        search_inv(gi, t, dist_b@, fr_b@, settled_b),
        gi.len() == g.len(),
        forall|u: int, v: int, w: int| #[trigger] has_edge(gi, u, v, w) <==> has_edge(g, v, u, w),
        !settled_f.contains(t),
        !settled_b.contains(s),
        0 <= t < g.len(),
    ensures
        match r {
            Option::Some(c) => {
                &&& c < usize::MAX
                &&& connects(g, s, t, c as int)
                &&& forall|c2: int| connects(g, s, t, c2) ==> c2 >= c
            },
            Option::None => true,
        },
{
    let cf = match fr_f.min_cost() {
        Option::None => {
            return Option::None;
        },
        Option::Some(x) => x,
    };
    let cb = match fr_b.min_cost() {
        Option::None => {
            return Option::None;
        },
        Option::Some(x) => x,
    };
    let n = dist_f.len();
    let mut best: Option<usize> = Option::None;
    let mut i: usize = 0;
    while i < n
        invariant
            n == dist_f@.len(),
            n == dist_b@.len(),
            i <= n,
            match best {
                Option::Some(m) => {
                    &&& m < usize::MAX
                    &&& exists|v: int|
                        0 <= v < n && (#[trigger] dist_f@[v]) != usize::MAX && dist_b@[v]
                            != usize::MAX && dist_f@[v] + dist_b@[v] == m
                    &&& forall|v: int|
                        0 <= v < i && (#[trigger] dist_f@[v]) != usize::MAX && dist_b@[v]
                            != usize::MAX ==> m <= dist_f@[v] + dist_b@[v]
                },
                Option::None => forall|v: int|
                    0 <= v < i && (#[trigger] dist_f@[v]) != usize::MAX && dist_b@[v]
                        != usize::MAX ==> dist_f@[v] + dist_b@[v] >= usize::MAX,
            },
        decreases n - i,
    {
        let dfv = dist_f[i];
        let dbv = dist_b[i];
        if dfv != usize::MAX && dbv != usize::MAX && dbv < usize::MAX - dfv {
            let sum = dfv + dbv;
            best = match best {
                Option::None => Option::Some(sum),
                Option::Some(m) => if sum < m {
                    Option::Some(sum)
                } else {
                    Option::Some(m)
                },
            };
        }
        i = i + 1;
    }
    match best {
        Option::None => Option::None,
        Option::Some(m) => {
            let bound_holds = if cb >= usize::MAX - cf {
                true  // cf + cb exceeds every representable total
            } else {
                m <= cf + cb
            };
            if bound_holds {
                proof {
                    let v = choose|v: int|
                        0 <= v < n && (#[trigger] dist_f@[v]) != usize::MAX && dist_b@[v]
                            != usize::MAX && dist_f@[v] + dist_b@[v] == m;
                    assert(connects(g, s, v, dist_f@[v] as int));
                    assert(connects(gi, t, v, dist_b@[v] as int));
                    crate::walks::lemma_connects_flip(g, gi, v, t, dist_b@[v] as int);
                    assert(connects(g, v, t, dist_b@[v] as int));
                    lemma_connects_concat(g, s, v, t, dist_f@[v] as int, dist_b@[v] as int);
                    assert(connects(g, s, t, m as int));
                    assert forall|c2: int| connects(g, s, t, c2) implies c2 >= m by {
                        lemma_meeting_bound(
                            g,
                            gi,
                            s,
                            t,
                            dist_f@,
                            fr_f@,
                            settled_f,
                            dist_b@,
                            fr_b@,
                            settled_b,
                            cf,
                            cb,
                            m,
                            c2,
                        );
                    }
                }
                Option::Some(m)
            } else {
                Option::None
            }
        },
    }
}

/// The meeting-in-the-middle variant: a forward search from `start` over
/// the graph and a backward search from `goal` over its inversion expand
/// in lockstep, with the termination test run after every step.  The
/// result agrees with [`dijkstra`] on every input: both satisfy
/// [`is_shortest`], which pins the answer down.
pub fn dijkstra_bidir(adj_list: &Vec<Vec<Edge>>, start: usize, goal: usize) -> (r: Option<usize>)
    requires
        wf_graph(rows_view(adj_list@)),
        start < adj_list@.len(),
        goal < adj_list@.len(),
    ensures
        is_shortest(rows_view(adj_list@), start as int, goal as int, r),
{
    let ghost g = rows_view(adj_list@);
    let adj_inv = invert(adj_list);
    let ghost gi = rows_view(adj_inv@);
    proof {
        lemma_inverted_has_edge(gi, g);
    }
    let n = adj_list.len();
    let mut dist_f: Vec<usize> = Vec::new();
    while dist_f.len() < n
        invariant
            dist_f@.len() <= n,
            forall|k: int| 0 <= k < dist_f@.len() ==> (#[trigger] dist_f@[k]) == usize::MAX,
        decreases n - dist_f.len(),
    {
        dist_f.push(usize::MAX);
    }
    let mut dist_b: Vec<usize> = Vec::new();
    while dist_b.len() < n
        invariant
            dist_b@.len() <= n,
            forall|k: int| 0 <= k < dist_b@.len() ==> (#[trigger] dist_b@[k]) == usize::MAX,
        decreases n - dist_b.len(),
    {
        dist_b.push(usize::MAX);
    }
    dist_f[start] = 0;
    dist_b[goal] = 0;
    let mut fr_f = Frontier::new();
    let mut fr_b = Frontier::new();
    fr_f.push(0, start);
    fr_b.push(0, goal);
    let ghost mut settled_f = Set::<int>::empty();
    let ghost mut settled_b = Set::<int>::empty();
    proof {
        lemma_connects_self(g, start as int);
        lemma_connects_self(gi, goal as int);
        assert(fr_f@.len() == 1 && fr_f@[0] == (0usize, start));
        assert(fr_f@.contains((0usize, start)));
        assert(fr_b@.len() == 1 && fr_b@[0] == (0usize, goal));
        assert(fr_b@.contains((0usize, goal)));
        assert(inv_pending(dist_f@, fr_f@, settled_f)) by {
            assert forall|v: int|
                0 <= v < dist_f@.len() && (#[trigger] dist_f@[v]) != usize::MAX
                    && !settled_f.contains(v) implies fr_f@.contains((dist_f@[v], v as usize)) by {
                assert(v == start as int);
            }
        }
        assert(inv_pending(dist_b@, fr_b@, settled_b)) by {
            assert forall|v: int|
                0 <= v < dist_b@.len() && (#[trigger] dist_b@[v]) != usize::MAX
                    && !settled_b.contains(v) implies fr_b@.contains((dist_b@[v], v as usize)) by {
                assert(v == goal as int);
            }
        }
        assert(search_inv(g, start as int, dist_f@, fr_f@, settled_f));
        assert(search_inv(gi, goal as int, dist_b@, fr_b@, settled_b));
    }
    let mut f_empty = fr_f.is_empty();
    let mut b_empty = fr_b.is_empty();
    while !f_empty || !b_empty
        invariant
            g == rows_view(adj_list@),
            gi == rows_view(adj_inv@),
            n == g.len(),
            gi.len() == g.len(),
            forall|u: int, v: int, w: int|
                #[trigger] has_edge(gi, u, v, w) <==> has_edge(g, v, u, w),
            start < n,
            goal < n,
            search_inv(g, start as int, dist_f@, fr_f@, settled_f),
            search_inv(gi, goal as int, dist_b@, fr_b@, settled_b),
            !settled_f.contains(goal as int),
            !settled_b.contains(start as int),
            f_empty == (fr_f@.len() == 0),
            b_empty == (fr_b@.len() == 0),
        decreases phi(dist_f@, fr_f@) + phi(dist_b@, fr_b@),
    {
        let ghost phi_f0 = phi(dist_f@, fr_f@);
        let ghost phi_b0 = phi(dist_b@, fr_b@);
        let (rf, sf2) = dijkstra_step(
            adj_list,
            goal,
            &mut fr_f,
            &mut dist_f,
            Ghost(start as int),
            Ghost(settled_f),
        );
        proof {
            settled_f = sf2@;
        }
        match rf {
            Option::Some(c) => {
                return Option::Some(c);
            },
            Option::None => {},
        }
        let stop_f = check_stop(
            &dist_f,
            &dist_b,
            &fr_f,
            &fr_b,
            Ghost(g),
            Ghost(gi),
            Ghost(start as int),
            Ghost(goal as int),
            Ghost(settled_f),
            Ghost(settled_b),
        );
        match stop_f {
            Option::Some(c) => {
                return Option::Some(c);
            },
            Option::None => {},
        }
        let (rb, sb2) = dijkstra_step(
            &adj_inv,
            start,
            &mut fr_b,
            &mut dist_b,
            Ghost(goal as int),
            Ghost(settled_b),
        );
        proof {
            settled_b = sb2@;
        }
        match rb {
            Option::Some(c) => {
                // The backward search found the optimal cost of reaching
                // `start` from `goal` over the inverted graph, which is
                // the optimal cost from `start` to `goal` over the graph.
                proof {
                    crate::walks::lemma_connects_flip(g, gi, start as int, goal as int, c as int);
                    assert forall|c2: int| connects(g, start as int, goal as int, c2) implies c2
                        >= c by {
                        crate::walks::lemma_connects_flip(g, gi, start as int, goal as int, c2);
                    }
                }
                return Option::Some(c);
            },
            Option::None => {},
        }
        let stop_b = check_stop(
            &dist_f,
            &dist_b,
            &fr_f,
            &fr_b,
            Ghost(g),
            Ghost(gi),
            Ghost(start as int),
            Ghost(goal as int),
            Ghost(settled_f),
            Ghost(settled_b),
        );
        match stop_b {
            Option::Some(c) => {
                return Option::Some(c);
            },
            Option::None => {},
        }
        f_empty = fr_f.is_empty();
        b_empty = fr_b.is_empty();
        proof {
            lemma_dist_total_nonneg(dist_f@);
            lemma_dist_total_nonneg(dist_b@);
        }
    }
    proof {
        lemma_exhausted(g, start as int, dist_f@, fr_f@, settled_f, goal as int);
    }
    Option::None
}

} // verus!
