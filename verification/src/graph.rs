//! The graph model: adjacency lists of weighted directed edges, and graph
//! inversion (flipping every edge) for backward search.

use vstd::multiset::Multiset;
use vstd::prelude::*;

verus! {

/// A directed edge, owned by its source's adjacency entry: the target node
/// id and the non-negative cost of moving along the edge.
#[derive(Debug, PartialEq, Eq, Structural, Clone, Copy)]
pub struct Edge {
    pub node: usize,
    pub cost: usize,
}

/// The mathematical view of an adjacency list: one edge sequence per node.
pub open spec fn rows_view(g: Seq<Vec<Edge>>) -> Seq<Seq<Edge>> {
    g.map_values(|r: Vec<Edge>| r@)
}

/// A well-formed graph: every edge target is a valid node id.
pub open spec fn wf_graph(g: Seq<Seq<Edge>>) -> bool {
    forall|i: int, j: int|
        0 <= i < g.len() && 0 <= j < g[i].len() ==> (#[trigger] g[i][j]).node < g.len()
}

/// The graph has an edge from `u` to `v` of cost `w`.
pub open spec fn has_edge(g: Seq<Seq<Edge>>, u: int, v: int, w: int) -> bool {
    &&& 0 <= u < g.len()
    &&& exists|j: int|
        0 <= j < g[u].len() && (#[trigger] g[u][j]).node == v && g[u][j].cost == w
}

/// The multiset of (source, target, cost) triples contributed by one
/// adjacency row.
pub open spec fn row_edges(u: int, row: Seq<Edge>) -> Multiset<(int, int, int)>
    decreases row.len(),
{
    if row.len() == 0 {
        Multiset::empty()
    } else {
        row_edges(u, row.drop_last()).insert((u, row.last().node as int, row.last().cost as int))
    }
}

/// The multiset of edge triples of the first `n` rows.
pub open spec fn edges_upto(g: Seq<Seq<Edge>>, n: int) -> Multiset<(int, int, int)>
    decreases n,
{
    if n <= 0 {
        Multiset::empty()
    } else {
        edges_upto(g, n - 1).add(row_edges(n - 1, g[n - 1]))
    }
}

/// The multiset of all (source, target, cost) triples of the graph.
/// Multi-edges are preserved: each occurrence counts.
pub open spec fn edge_multiset(g: Seq<Seq<Edge>>) -> Multiset<(int, int, int)> {
    edges_upto(g, g.len() as int)
}

/// `h` is the inversion of `g`: same node count, and for every edge u -> v
/// of cost c in `g` there is exactly one matching edge v -> u of cost c in
/// `h` (and nothing else).  Adjacency-list order is left open.
pub open spec fn inverted_of(h: Seq<Seq<Edge>>, g: Seq<Seq<Edge>>) -> bool {
    &&& h.len() == g.len()
    &&& forall|u: int, v: int, w: int|
        #[trigger] edge_multiset(h).count((u, v, w)) == edge_multiset(g).count((v, u, w))
}

/// A triple sits in a row's edge multiset exactly when the row holds a
/// matching edge.
proof fn lemma_row_edges_mem(u: int, row: Seq<Edge>, t: (int, int, int))
    ensures
        row_edges(u, row).count(t) > 0 <==> (t.0 == u && exists|j: int|
            0 <= j < row.len() && (#[trigger] row[j]).node == t.1 && row[j].cost == t.2),
    decreases row.len(),
{
    broadcast use vstd::multiset::group_multiset_axioms;

    if row.len() > 0 {
        lemma_row_edges_mem(u, row.drop_last(), t);
        let last = (u, row.last().node as int, row.last().cost as int);
        if t == last {
            assert(row[row.len() - 1].node == t.1 && row[row.len() - 1].cost == t.2);
        } else {
            if t.0 == u && exists|j: int|
                0 <= j < row.len() && (#[trigger] row[j]).node == t.1 && row[j].cost == t.2 {
                let j = choose|j: int|
                    0 <= j < row.len() && (#[trigger] row[j]).node == t.1 && row[j].cost == t.2;
                assert(j < row.len() - 1);
                assert(row.drop_last()[j] == row[j]);
            }
            assert forall|j: int|
                0 <= j < row.drop_last().len() && (#[trigger] row.drop_last()[j]).node == t.1
                    && row.drop_last()[j].cost == t.2 implies row[j].node == t.1 && row[j].cost
                == t.2 by {}
        }
    }
}

/// A triple sits in the multiset of the first `n` rows exactly when one of
/// those rows holds a matching edge.
proof fn lemma_edges_upto_mem(g: Seq<Seq<Edge>>, n: int, t: (int, int, int))
    requires
        0 <= n <= g.len(),
    ensures
        edges_upto(g, n).count(t) > 0 <==> (0 <= t.0 < n && exists|j: int|
            0 <= j < g[t.0].len() && (#[trigger] g[t.0][j]).node == t.1 && g[t.0][j].cost == t.2),
    decreases n,
{
    broadcast use vstd::multiset::group_multiset_axioms;

    if n > 0 {
        lemma_edges_upto_mem(g, n - 1, t);
        lemma_row_edges_mem(n - 1, g[n - 1], t);
    }
}

/// Membership in the edge multiset coincides with [`has_edge`].
pub proof fn lemma_edge_multiset_has_edge(g: Seq<Seq<Edge>>, u: int, v: int, w: int)
    ensures
        edge_multiset(g).count((u, v, w)) > 0 <==> has_edge(g, u, v, w),
{
    lemma_edges_upto_mem(g, g.len() as int, (u, v, w));
}

/// An inverted graph carries exactly the flipped edges of the original.
pub proof fn lemma_inverted_has_edge(h: Seq<Seq<Edge>>, g: Seq<Seq<Edge>>)
    requires
        inverted_of(h, g),
    ensures
        forall|u: int, v: int, w: int| #[trigger] has_edge(h, u, v, w) <==> has_edge(g, v, u, w),
{
    assert forall|u: int, v: int, w: int| #[trigger] has_edge(h, u, v, w) <==> has_edge(
        g,
        v,
        u,
        w,
    ) by {
        lemma_edge_multiset_has_edge(h, u, v, w);
        lemma_edge_multiset_has_edge(g, v, u, w);
        assert(edge_multiset(h).count((u, v, w)) == edge_multiset(g).count((v, u, w)));
    }
}

/// An inverted graph is well-formed: every target of a flipped edge was a
/// source in the original, hence a valid node id.
pub proof fn lemma_inverted_wf(h: Seq<Seq<Edge>>, g: Seq<Seq<Edge>>)
    requires
        inverted_of(h, g),
    ensures
        wf_graph(h),
{
    lemma_inverted_has_edge(h, g);
    assert forall|i: int, j: int| 0 <= i < h.len() && 0 <= j < h[i].len() implies (
    #[trigger] h[i][j]).node < h.len() by {
        let v = h[i][j].node as int;
        let w = h[i][j].cost as int;
        assert(has_edge(h, i, v, w));
        assert(has_edge(g, v, i, w));
    }
}

/// Inverting twice restores the original edge multiset, whatever order the
/// adjacency lists ended up in.
pub proof fn lemma_invert_involutive(g: Seq<Seq<Edge>>, g1: Seq<Seq<Edge>>, g2: Seq<Seq<Edge>>)
    requires
        inverted_of(g1, g),
        inverted_of(g2, g1),
    ensures
        edge_multiset(g2) == edge_multiset(g),
{
    broadcast use vstd::multiset::group_multiset_axioms;

    assert forall|t: (int, int, int)| #[trigger] edge_multiset(g2).count(t) == edge_multiset(
        g,
    ).count(t) by {
        assert(edge_multiset(g2).count((t.0, t.1, t.2)) == edge_multiset(g1).count(
            (t.1, t.0, t.2),
        ));
        assert(edge_multiset(g1).count((t.1, t.0, t.2)) == edge_multiset(g).count(
            (t.0, t.1, t.2),
        ));
    }
    assert(edge_multiset(g2) =~= edge_multiset(g));
}

/// Appending an edge to one row inserts its triple into the graph's edge
/// multiset.
proof fn lemma_edges_upto_update_push(g: Seq<Seq<Edge>>, n: int, k: int, e: Edge)
    requires
        0 <= k < g.len(),
        0 <= n <= g.len(),
    ensures
        edges_upto(g.update(k, g[k].push(e)), n) == if k < n {
            edges_upto(g, n).insert((k, e.node as int, e.cost as int))
        } else {
            edges_upto(g, n)
        },
    decreases n,
{
    broadcast use vstd::multiset::group_multiset_axioms;

    let g2 = g.update(k, g[k].push(e));
    if n > 0 {
        lemma_edges_upto_update_push(g, n - 1, k, e);
        if k == n - 1 {
            assert(g2[n - 1] == g[k].push(e));
            assert(g[k].push(e).drop_last() =~= g[k]);
            assert(row_edges(n - 1, g2[n - 1]) == row_edges(n - 1, g[n - 1]).insert(
                (k, e.node as int, e.cost as int),
            ));
            assert(edges_upto(g2, n) =~= edges_upto(g, n).insert((k, e.node as int, e.cost as int)));
        } else {
            assert(g2[n - 1] == g[n - 1]);
            if k < n - 1 {
                assert(edges_upto(g2, n) =~= edges_upto(g, n).insert(
                    (k, e.node as int, e.cost as int),
                ));
            }
        }
    }
}

/// The edge-multiset effect of one push during inversion.
pub proof fn lemma_edge_multiset_update_push(g: Seq<Seq<Edge>>, k: int, e: Edge)
    requires
        0 <= k < g.len(),
    ensures
        edge_multiset(g.update(k, g[k].push(e))) == edge_multiset(g).insert(
            (k, e.node as int, e.cost as int),
        ),
{
    lemma_edges_upto_update_push(g, g.len() as int, k, e);
}

/// The loop invariant of [`invert`]: the edge multiset built so far is the
/// flip of the first `i` rows plus the first `j` edges of row `i`.
spec fn partial_counts(h: Seq<Seq<Edge>>, g: Seq<Seq<Edge>>, i: int, j: int) -> bool {
    forall|u: int, v: int, w: int|
        #[trigger] edge_multiset(h).count((u, v, w)) == edges_upto(g, i).add(
            row_edges(i, g[i].take(j)),
        ).count((v, u, w))
}

/// Derives the reverse graph: same node count, and every edge u -> v of
/// cost c becomes v -> u of cost c.  Multi-edges are preserved, not
/// merged, and no deduplication takes place.
pub fn invert(adj_list: &Vec<Vec<Edge>>) -> (r: Vec<Vec<Edge>>)
    requires
        wf_graph(rows_view(adj_list@)),
    ensures
        r@.len() == adj_list@.len(),
        inverted_of(rows_view(r@), rows_view(adj_list@)),
        wf_graph(rows_view(r@)),
{
    broadcast use vstd::multiset::group_multiset_axioms;

    let ghost g = rows_view(adj_list@);
    let n = adj_list.len();
    let mut inverted: Vec<Vec<Edge>> = Vec::new();
    while inverted.len() < n
        invariant
            inverted@.len() <= n,
            forall|k: int| 0 <= k < inverted@.len() ==> (#[trigger] inverted@[k])@.len() == 0,
        decreases n - inverted.len(),
    {
        inverted.push(Vec::new());
    }
    proof {
        assert forall|u: int, v: int, w: int|
            #[trigger] edge_multiset(rows_view(inverted@)).count((u, v, w)) == 0 by {
            lemma_edge_multiset_has_edge(rows_view(inverted@), u, v, w);
            if edge_multiset(rows_view(inverted@)).count((u, v, w)) > 0 {
                assert(has_edge(rows_view(inverted@), u, v, w));
                let j = choose|j: int|
                    0 <= j < rows_view(inverted@)[u].len() && (#[trigger] rows_view(
                        inverted@,
                    )[u][j]).node == v && rows_view(inverted@)[u][j].cost == w;
                assert(rows_view(inverted@)[u] == inverted@[u]@);
            }
        }
        assert(partial_counts(rows_view(inverted@), g, 0, 0));
    }
    let mut i: usize = 0;
    while i < n
        invariant
            i <= n,
            n == adj_list@.len(),
            g == rows_view(adj_list@),
            wf_graph(g),
            inverted@.len() == n,
            partial_counts(rows_view(inverted@), g, i as int, 0),
        decreases n - i,
    {
        let row_len = adj_list[i].len();
        let mut j: usize = 0;
        while j < row_len
            invariant
                i < n,
                j <= row_len,
                n == adj_list@.len(),
                g == rows_view(adj_list@),
                wf_graph(g),
                row_len == adj_list@[i as int]@.len(),
                inverted@.len() == n,
                partial_counts(rows_view(inverted@), g, i as int, j as int),
            decreases row_len - j,
        {
            let e = adj_list[i][j];
            proof {
                assert(g[i as int] == adj_list@[i as int]@);
                assert(g[i as int][j as int] == e);
                assert(e.node < n);
            }
            let flipped = Edge { node: i, cost: e.cost };
            let ghost old_inverted = inverted@;
            inverted[e.node].push(flipped);
            proof {
                let hv_old = rows_view(old_inverted);
                let hv_new = rows_view(inverted@);
                assert(hv_new =~= hv_old.update(e.node as int, hv_old[e.node as int].push(flipped)));
                lemma_edge_multiset_update_push(hv_old, e.node as int, flipped);
                let gi = g[i as int];
                assert(gi.take(j + 1).drop_last() =~= gi.take(j as int));
                assert(gi.take(j + 1).last() == gi[j as int]);
                assert(row_edges(i as int, gi.take(j + 1)) == row_edges(i as int, gi.take(j as int))
                    .insert((i as int, e.node as int, e.cost as int)));
                assert forall|u: int, v: int, w: int|
                    #[trigger] edge_multiset(hv_new).count((u, v, w)) == edges_upto(
                    g,
                    i as int,
                ).add(row_edges(i as int, gi.take(j + 1))).count((v, u, w)) by {
                    assert(edge_multiset(hv_new).count((u, v, w)) == edge_multiset(hv_old).insert(
                        (e.node as int, i as int, e.cost as int),
                    ).count((u, v, w)));
                }
            }
            j = j + 1;
        }
        proof {
            assert(g[i as int].take(row_len as int) =~= g[i as int]);
            assert(edges_upto(g, i + 1) == edges_upto(g, i as int).add(
                row_edges(i as int, g[i as int]),
            ));
            assert(g[i + 1].take(0).len() == 0);
            assert(row_edges(i + 1, g[i + 1].take(0)) == Multiset::<(int, int, int)>::empty());
            assert(partial_counts(rows_view(inverted@), g, i + 1, 0));
        }
        i = i + 1;
    }
    proof {
        assert(g.len() == n);
        assert(g[n as int].take(0).len() == 0);
        assert forall|u: int, v: int, w: int|
            #[trigger] edge_multiset(rows_view(inverted@)).count((u, v, w)) == edge_multiset(
            g,
        ).count((v, u, w)) by {
            assert(edge_multiset(rows_view(inverted@)).count((u, v, w)) == edges_upto(
                g,
                n as int,
            ).add(row_edges(n as int, g[n as int].take(0))).count((v, u, w)));
        }
        assert(inverted_of(rows_view(inverted@), g));
        lemma_inverted_wf(rows_view(inverted@), g);
    }
    inverted
}

} // verus!
