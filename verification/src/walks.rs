//! The specification of shortest-path cost: walks through a graph, their
//! cost, and what it means for a search result to be the minimum-cost
//! answer.  Both search strategies are verified against [`is_shortest`].

use crate::graph::{has_edge, wf_graph, Edge};
use vstd::assert_seqs_equal;
use vstd::prelude::*;

verus! {

/// `p` lists the nodes of a walk through `g` (at least the start node) and
/// `ws` the cost of each edge taken; step `i` moves from `p[i]` to
/// `p[i + 1]` along an edge of cost `ws[i]`.  Nodes and edges may repeat.
pub open spec fn valid_walk(g: Seq<Seq<Edge>>, p: Seq<int>, ws: Seq<int>) -> bool {
    &&& p.len() >= 1
    &&& ws.len() == p.len() - 1
    &&& 0 <= p[0] < g.len()
    &&& forall|i: int| 0 <= i < ws.len() ==> has_edge(g, p[i], p[i + 1], #[trigger] ws[i])
}

/// The total cost of a walk: the sum of its edge costs.
pub open spec fn walk_cost(ws: Seq<int>) -> int
    decreases ws.len(),
{
    if ws.len() == 0 {
        0
    } else {
        walk_cost(ws.drop_last()) + ws.last()
    }
}

/// There is a walk from `s` to `t` in `g` whose total cost is `c`.
pub open spec fn connects(g: Seq<Seq<Edge>>, s: int, t: int, c: int) -> bool {
    exists|p: Seq<int>, ws: Seq<int>|
        #[trigger] valid_walk(g, p, ws) && p[0] == s && p.last() == t && walk_cost(ws) == c
}

/// `r` is the correct search answer for the pair `(s, t)`: the least cost
/// of any walk from `s` to `t` when one of representable cost exists, and
/// "unreachable" exactly when every walk (if any) costs at least
/// `usize::MAX`, the sentinel that stands for infinity.
pub open spec fn is_shortest(g: Seq<Seq<Edge>>, s: int, t: int, r: Option<usize>) -> bool {
    match r {
        Option::Some(c) => {
            &&& c < usize::MAX
            &&& connects(g, s, t, c as int)
            &&& forall|c2: int| connects(g, s, t, c2) ==> c2 >= c
        },
        Option::None => forall|c2: int| connects(g, s, t, c2) ==> c2 >= usize::MAX,
    }
}

/// Every edge cost of a valid walk is non-negative.
pub proof fn lemma_walk_weights_nonneg(g: Seq<Seq<Edge>>, p: Seq<int>, ws: Seq<int>)
    requires
        valid_walk(g, p, ws),
    ensures
        forall|i: int| 0 <= i < ws.len() ==> #[trigger] ws[i] >= 0,
{
    assert forall|i: int| 0 <= i < ws.len() implies #[trigger] ws[i] >= 0 by {
        assert(has_edge(g, p[i], p[i + 1], ws[i]));
    }
}

/// The cost of a sequence of non-negative edge costs is non-negative.
pub proof fn lemma_cost_nonneg(ws: Seq<int>)
    requires
        forall|i: int| 0 <= i < ws.len() ==> #[trigger] ws[i] >= 0,
    ensures
        walk_cost(ws) >= 0,
    decreases ws.len(),
{
    if ws.len() > 0 {
        lemma_cost_nonneg(ws.drop_last());
    }
}

/// Splitting a walk at position `k` splits its cost.
pub proof fn lemma_cost_split(ws: Seq<int>, k: int)
    requires
        0 <= k <= ws.len(),
    ensures
        walk_cost(ws) == walk_cost(ws.take(k)) + walk_cost(ws.skip(k)),
    decreases ws.len(),
{
    if k == ws.len() {
        assert_seqs_equal!(ws.take(k) == ws);
        assert(ws.skip(k).len() == 0);
    } else {
        let ws0 = ws.drop_last();
        lemma_cost_split(ws0, k);
        assert_seqs_equal!(ws.take(k) == ws0.take(k));
        assert_seqs_equal!(ws.skip(k).drop_last() == ws0.skip(k));
        assert(ws.skip(k).last() == ws.last());
    }
}

/// Appending walks adds their costs.
pub proof fn lemma_cost_append(a: Seq<int>, b: Seq<int>)
    ensures
        walk_cost(a + b) == walk_cost(a) + walk_cost(b),
{
    lemma_cost_split(a + b, a.len() as int);
    assert_seqs_equal!((a + b).take(a.len() as int) == a);
    assert_seqs_equal!((a + b).skip(a.len() as int) == b);
}

/// The cost of a walk read front to back: first edge plus the rest.
pub proof fn lemma_cost_front(ws: Seq<int>)
    requires
        ws.len() >= 1,
    ensures
        walk_cost(ws) == ws[0] + walk_cost(ws.drop_first()),
    decreases ws.len(),
{
    if ws.len() == 1 {
        assert(ws.drop_first().len() == 0);
        assert(walk_cost(ws.drop_first()) == 0);
        assert(ws.drop_last().len() == 0);
        assert(walk_cost(ws) == walk_cost(ws.drop_last()) + ws.last());
        assert(ws.last() == ws[0]);
    } else {
        let ws0 = ws.drop_last();
        lemma_cost_front(ws0);
        assert_seqs_equal!(ws.drop_first().drop_last() == ws0.drop_first());
        assert(ws.drop_first().last() == ws.last());
        assert(ws0[0] == ws[0]);
        assert(ws.drop_first().len() > 0);
        assert(walk_cost(ws.drop_first()) == walk_cost(ws.drop_first().drop_last())
            + ws.drop_first().last());
    }
}

/// Reversing a walk keeps its cost.
pub proof fn lemma_cost_reverse(ws: Seq<int>)
    ensures
        walk_cost(ws.reverse()) == walk_cost(ws),
    decreases ws.len(),
{
    if ws.len() > 0 {
        lemma_cost_reverse(ws.drop_first());
        assert_seqs_equal!(ws.reverse().drop_last() == ws.drop_first().reverse());
        assert(ws.reverse().last() == ws[0]);
        lemma_cost_front(ws);
    }
}

/// The first `k` edges of the reversed walk are the reversed last `k`
/// edges of the walk, so the costs agree.
pub proof fn lemma_cost_reverse_take(ws: Seq<int>, k: int)
    requires
        0 <= k <= ws.len(),
    ensures
        walk_cost(ws.reverse().take(k)) == walk_cost(ws.skip(ws.len() - k)),
{
    assert_seqs_equal!(ws.reverse().take(k) == ws.skip(ws.len() - k).reverse());
    lemma_cost_reverse(ws.skip(ws.len() - k));
}

/// With non-negative edge costs, a walk costs at least each of its parts.
pub proof fn lemma_cost_parts(ws: Seq<int>, k: int)
    requires
        forall|i: int| 0 <= i < ws.len() ==> #[trigger] ws[i] >= 0,
        0 <= k <= ws.len(),
    ensures
        walk_cost(ws) == walk_cost(ws.take(k)) + walk_cost(ws.skip(k)),
        0 <= walk_cost(ws.take(k)),
        0 <= walk_cost(ws.skip(k)),
        walk_cost(ws.take(k)) <= walk_cost(ws),
        walk_cost(ws.skip(k)) <= walk_cost(ws),
{
    lemma_cost_split(ws, k);
    assert forall|i: int| 0 <= i < ws.take(k).len() implies (#[trigger] ws.take(k)[i]) >= 0 by {
        assert(ws.take(k)[i] == ws[i]);
    }
    assert forall|i: int| 0 <= i < ws.skip(k).len() implies (#[trigger] ws.skip(k)[i]) >= 0 by {
        assert(ws.skip(k)[i] == ws[k + i]);
    }
    lemma_cost_nonneg(ws.take(k));
    lemma_cost_nonneg(ws.skip(k));
}

/// With non-negative edge costs, a prefix up to `k` and a suffix from a
/// later position `j` cover disjoint parts of the walk.
pub proof fn lemma_cost_disjoint_parts(ws: Seq<int>, k: int, j: int)
    requires
        forall|i: int| 0 <= i < ws.len() ==> #[trigger] ws[i] >= 0,
        0 <= k <= j <= ws.len(),
    ensures
        walk_cost(ws.take(k)) + walk_cost(ws.skip(j)) <= walk_cost(ws),
{
    lemma_cost_parts(ws, k);
    let mid = ws.skip(k);
    assert forall|i: int| 0 <= i < mid.len() implies (#[trigger] mid[i]) >= 0 by {
        assert(mid[i] == ws[k + i]);
    }
    lemma_cost_parts(mid, j - k);
    assert(mid.skip(j - k) =~= ws.skip(j));
}

/// A node connects to itself at cost zero.
pub proof fn lemma_connects_self(g: Seq<Seq<Edge>>, s: int)
    requires
        0 <= s < g.len(),
    ensures
        connects(g, s, s, 0),
{
    let p = seq![s];
    let ws = Seq::<int>::empty();
    assert(valid_walk(g, p, ws) && p[0] == s && p.last() == s && walk_cost(ws) == 0);
}

/// Extending a walk by one edge.
pub proof fn lemma_connects_step(g: Seq<Seq<Edge>>, s: int, u: int, c: int, v: int, w: int)
    requires
        connects(g, s, u, c),
        has_edge(g, u, v, w),
    ensures
        connects(g, s, v, c + w),
{
    let (p, ws): (Seq<int>, Seq<int>) = choose|p: Seq<int>, ws: Seq<int>|
        #[trigger] valid_walk(g, p, ws) && p[0] == s && p.last() == u && walk_cost(ws) == c;
    let p2 = p.push(v);
    let ws2 = ws.push(w);
    assert_seqs_equal!(ws2.drop_last() == ws);
    assert forall|i: int| 0 <= i < ws2.len() implies has_edge(g, p2[i], p2[i + 1], #[trigger] ws2[i]) by {
        if i < ws.len() {
            assert(has_edge(g, p[i], p[i + 1], ws[i]));
        } else {
            assert(p2[i] == p.last());
        }
    }
    assert(valid_walk(g, p2, ws2) && p2[0] == s && p2.last() == v && walk_cost(ws2) == c + w);
}

/// Concatenating a walk from `s` to `m` with a walk from `m` to `t`.
pub proof fn lemma_connects_concat(g: Seq<Seq<Edge>>, s: int, m: int, t: int, a: int, b: int)
    requires
        connects(g, s, m, a),
        connects(g, m, t, b),
    ensures
        connects(g, s, t, a + b),
{
    let (p1, ws1): (Seq<int>, Seq<int>) = choose|p: Seq<int>, ws: Seq<int>|
        #[trigger] valid_walk(g, p, ws) && p[0] == s && p.last() == m && walk_cost(ws) == a;
    let (p2, ws2): (Seq<int>, Seq<int>) = choose|p: Seq<int>, ws: Seq<int>|
        #[trigger] valid_walk(g, p, ws) && p[0] == m && p.last() == t && walk_cost(ws) == b;
    let p = p1 + p2.drop_first();
    let ws = ws1 + ws2;
    assert(p.len() == p1.len() + p2.len() - 1);
    assert forall|i: int| 0 <= i < ws.len() implies has_edge(g, p[i], p[i + 1], #[trigger] ws[i]) by {
        if i < ws1.len() {
            assert(p[i] == p1[i] && p[i + 1] == p1[i + 1]);
            assert(has_edge(g, p1[i], p1[i + 1], ws1[i]));
        } else {
            let i2 = i - ws1.len();
            assert(ws[i] == ws2[i2]);
            if i2 == 0 {
                assert(p[i] == p1.last());
            } else {
                assert(p[i] == p2.drop_first()[i - p1.len()]);
                assert(p[i] == p2[i2]);
            }
            assert(p[i + 1] == p2.drop_first()[i + 1 - p1.len()]);
            assert(p[i + 1] == p2[i2 + 1]);
            assert(has_edge(g, p2[i2], p2[i2 + 1], ws2[i2]));
        }
    }
    if p2.len() == 1 {
        assert(p.last() == p1.last());
    } else {
        assert(p.last() == p2.drop_first().last());
        assert(p.last() == p2.last());
    }
    lemma_cost_append(ws1, ws2);
    assert(valid_walk(g, p, ws) && p[0] == s && p.last() == t && walk_cost(ws) == a + b);
}

/// Every connection cost is non-negative.
pub proof fn lemma_connects_nonneg(g: Seq<Seq<Edge>>, s: int, t: int, c: int)
    requires
        connects(g, s, t, c),
    ensures
        c >= 0,
{
    let (p, ws): (Seq<int>, Seq<int>) = choose|p: Seq<int>, ws: Seq<int>|
        #[trigger] valid_walk(g, p, ws) && p[0] == s && p.last() == t && walk_cost(ws) == c;
    lemma_walk_weights_nonneg(g, p, ws);
    lemma_cost_nonneg(ws);
}

/// Reversing a walk through `g` yields a walk through any graph `h` that
/// carries exactly the flipped edges of `g`.
pub proof fn lemma_walk_reverse(g: Seq<Seq<Edge>>, h: Seq<Seq<Edge>>, p: Seq<int>, ws: Seq<int>)
    requires
        valid_walk(g, p, ws),
        wf_graph(g),
        h.len() == g.len(),
        forall|u: int, v: int, w: int| #[trigger] has_edge(h, u, v, w) <==> has_edge(g, v, u, w),
    ensures
        valid_walk(h, p.reverse(), ws.reverse()),
{
    let n = p.len() as int;
    let pr = p.reverse();
    let wsr = ws.reverse();
    if n >= 2 {
        assert(has_edge(g, p[n - 2], p[n - 1], ws[n - 2]));
        assert(pr[0] == p[n - 1]);
    }
    assert forall|i: int| 0 <= i < wsr.len() implies has_edge(h, pr[i], pr[i + 1], #[trigger] wsr[i]) by {
        let k = n - 2 - i;
        assert(wsr[i] == ws[k]);
        assert(pr[i] == p[k + 1]);
        assert(pr[i + 1] == p[k]);
        assert(has_edge(g, p[k], p[k + 1], ws[k]));
    }
}

/// Connections flip direction between a graph and its edge-flipped mate.
pub proof fn lemma_connects_flip(g: Seq<Seq<Edge>>, h: Seq<Seq<Edge>>, s: int, t: int, c: int)
    requires
        wf_graph(g),
        wf_graph(h),
        h.len() == g.len(),
        forall|u: int, v: int, w: int| #[trigger] has_edge(h, u, v, w) <==> has_edge(g, v, u, w),
    ensures
        connects(g, s, t, c) <==> connects(h, t, s, c),
{
    if connects(g, s, t, c) {
        let (p, ws): (Seq<int>, Seq<int>) = choose|p: Seq<int>, ws: Seq<int>|
            #[trigger] valid_walk(g, p, ws) && p[0] == s && p.last() == t && walk_cost(ws) == c;
        lemma_walk_reverse(g, h, p, ws);
        lemma_cost_reverse(ws);
        assert(p.reverse()[0] == p.last());
        assert(p.reverse().last() == p[0]);
        assert(valid_walk(h, p.reverse(), ws.reverse()) && walk_cost(ws.reverse()) == c);
    }
    if connects(h, t, s, c) {
        let (p, ws): (Seq<int>, Seq<int>) = choose|p: Seq<int>, ws: Seq<int>|
            #[trigger] valid_walk(h, p, ws) && p[0] == t && p.last() == s && walk_cost(ws) == c;
        assert forall|u: int, v: int, w: int| #[trigger] has_edge(g, u, v, w) <==> has_edge(
            h,
            v,
            u,
            w,
        ) by {
            assert(has_edge(h, v, u, w) <==> has_edge(g, u, v, w));
        }
        lemma_walk_reverse(h, g, p, ws);
        lemma_cost_reverse(ws);
        assert(p.reverse()[0] == p.last());
        assert(p.reverse().last() == p[0]);
        assert(valid_walk(g, p.reverse(), ws.reverse()) && walk_cost(ws.reverse()) == c);
    }
}

/// The distance of a node to itself is zero: the empty walk connects it at
/// cost zero, and no walk costs less.
pub proof fn lemma_shortest_self(g: Seq<Seq<Edge>>, s: int, r: Option<usize>)
    requires
        0 <= s < g.len(),
        is_shortest(g, s, s, r),
    ensures
        r == Option::Some(0usize),
{
    lemma_connects_self(g, s);
    match r {
        Option::Some(c) => {
            assert(c <= 0);
        },
        Option::None => {
            assert(0 >= usize::MAX as int);  // contradiction
        },
    }
}

/// The search answer is a function of the inputs alone: any two results
/// that both satisfy [`is_shortest`] for the same graph and node pair are
/// equal.  In particular the label-setting and the bidirectional strategy
/// agree, and two runs on identical input yield identical output.
pub proof fn lemma_shortest_unique(
    g: Seq<Seq<Edge>>,
    s: int,
    t: int,
    r1: Option<usize>,
    r2: Option<usize>,
)
    requires
        is_shortest(g, s, t, r1),
        is_shortest(g, s, t, r2),
    ensures
        r1 == r2,
{
    match (r1, r2) {
        (Option::Some(c1), Option::Some(c2)) => {
            assert(c1 <= c2 && c2 <= c1);
        },
        (Option::Some(c1), Option::None) => {
            assert(c1 as int >= usize::MAX as int);  // contradiction
        },
        (Option::None, Option::Some(c2)) => {
            assert(c2 as int >= usize::MAX as int);  // contradiction
        },
        (Option::None, Option::None) => {},
    }
}

/// When no walk at all leads from `s` to `t`, the answer is "unreachable".
pub proof fn lemma_shortest_unreachable(g: Seq<Seq<Edge>>, s: int, t: int, r: Option<usize>)
    requires
        is_shortest(g, s, t, r),
        forall|c: int| !connects(g, s, t, c),
    ensures
        r == Option::<usize>::None,
{
}

/// The triangle inequality: going through any intermediate node `m` can
/// never beat the direct shortest distance.
pub proof fn lemma_shortest_triangle(
    g: Seq<Seq<Edge>>,
    s: int,
    m: int,
    t: int,
    a: usize,
    b: usize,
    c: usize,
)
    requires
        is_shortest(g, s, t, Option::Some(a)),
        is_shortest(g, s, m, Option::Some(b)),
        is_shortest(g, m, t, Option::Some(c)),
    ensures
        a <= b + c,
{
    lemma_connects_concat(g, s, m, t, b as int, c as int);
}

} // verus!
