//! The mathematics of adjacency lists: edges, walks, reachability and the
//! graph that an edge list describes.
//!
//! A graph is a map from each vertex to the sequence of its neighbours, in
//! the order in which the edges were added.

use vstd::prelude::*;

use crate::sorted::lemma_push_contains;

verus! {

/// `v` occurs among the neighbours of the vertex `u`.
pub open spec fn has_edge(g: Map<usize, Seq<usize>>, u: usize, v: usize) -> bool {
    g.contains_key(u) && g[u].contains(v)
}

/// Every neighbour is itself a vertex.
pub open spec fn closed(g: Map<usize, Seq<usize>>) -> bool {
    forall|u: usize, v: usize| #[trigger] has_edge(g, u, v) ==> g.contains_key(v)
}

/// Every edge is stored on both of its ends.
pub open spec fn symmetric(g: Map<usize, Seq<usize>>) -> bool {
    forall|u: usize, v: usize| #[trigger] has_edge(g, u, v) ==> has_edge(g, v, u)
}

/// The invariant of an undirected graph.
pub open spec fn wf(g: Map<usize, Seq<usize>>) -> bool {
    &&& g.dom().finite()
    &&& closed(g)
    &&& symmetric(g)
}

/// The graph on the vertices `vs` that has no edge.
pub open spec fn isolated(vs: Set<usize>) -> Map<usize, Seq<usize>> {
    Map::new(|u: usize| vs.contains(u), |u: usize| Seq::<usize>::empty())
}

/// The graph `g` with one more edge between the vertices `s` and `d`: `d`
/// is appended to the neighbours of `s`, then `s` to those of `d`.
pub open spec fn with_edge(g: Map<usize, Seq<usize>>, s: usize, d: usize) -> Map<
    usize,
    Seq<usize>,
> {
    let g1 = g.insert(s, g[s].push(d));
    g1.insert(d, g1[d].push(s))
}

/// `u` is one of the two ends of the edge `e`.
pub open spec fn touches(e: (usize, usize), u: usize) -> bool {
    e.0 == u || e.1 == u
}

/// The vertices that occur in an edge list.
pub open spec fn endpoints(edges: Seq<(usize, usize)>) -> Set<usize> {
    Set::new(|u: usize| exists|i: int| 0 <= i < edges.len() && #[trigger] touches(edges[i], u))
}

/// The neighbours that an edge list gives the vertex `u`: the other end of
/// each edge at `u`, in the order of the list. A loop at `u` counts twice.
pub open spec fn incident(edges: Seq<(usize, usize)>, u: usize) -> Seq<usize>
    decreases edges.len(),
{
    if edges.len() == 0 {
        Seq::empty()
    } else {
        let e = edges.last();
        let before = incident(edges.drop_last(), u);
        let first = if e.0 == u {
            before.push(e.1)
        } else {
            before
        };
        if e.1 == u {
            first.push(e.0)
        } else {
            first
        }
    }
}

/// The graph on the vertices `vs` after the edges of `edges` were added in
/// order.
pub open spec fn with_edges(vs: Set<usize>, edges: Seq<(usize, usize)>) -> Map<usize, Seq<usize>> {
    Map::new(|u: usize| vs.contains(u), |u: usize| incident(edges, u))
}

/// The graph that an edge list describes.
pub open spec fn of_edges(edges: Seq<(usize, usize)>) -> Map<usize, Seq<usize>> {
    with_edges(endpoints(edges), edges)
}

/// The sum of the lengths of all neighbour sequences.
pub open spec fn degree_sum(g: Map<usize, Seq<usize>>) -> nat
    decreases g.dom().len(),
    when g.dom().finite()
{
    if g.dom().len() == 0 {
        0
    } else {
        let k = g.dom().choose();
        g[k].len() + degree_sum(g.remove(k))
    }
}

/// The number of undirected edges: each is stored twice.
pub open spec fn edge_count(g: Map<usize, Seq<usize>>) -> nat {
    degree_sum(g) / 2
}

/// A non-empty sequence of vertices in which each is followed by one of its
/// neighbours.
pub open spec fn is_walk(g: Map<usize, Seq<usize>>, w: Seq<usize>) -> bool {
    &&& w.len() > 0
    &&& forall|i: int| 0 <= i < w.len() - 1 ==> has_edge(g, #[trigger] w[i], w[i + 1])
}

/// A walk from `s` to `t`.
pub open spec fn walk_between(g: Map<usize, Seq<usize>>, w: Seq<usize>, s: usize, t: usize) -> bool {
    &&& is_walk(g, w)
    &&& w[0] == s
    &&& w.last() == t
}

/// Some walk leads from `s` to `t`.
pub open spec fn reachable(g: Map<usize, Seq<usize>>, s: usize, t: usize) -> bool {
    exists|w: Seq<usize>| walk_between(g, w, s, t)
}

/// The vertices together with everything that occurs as a neighbour.
pub open spec fn mentioned(g: Map<usize, Seq<usize>>) -> Set<usize> {
    Set::new(|v: usize| g.contains_key(v) || exists|u: usize| has_edge(g, u, v))
}

/// A finite graph mentions finitely many vertices.
pub proof fn lemma_mentioned_finite(g: Map<usize, Seq<usize>>)
    requires
        g.dom().finite(),
    ensures
        mentioned(g).finite(),
    decreases g.dom().len(),
{
    if g.dom().len() == 0 {
        assert forall|v: usize| !mentioned(g).contains(v) by {
            if mentioned(g).contains(v) && !g.contains_key(v) {
                let u = choose|u: usize| has_edge(g, u, v);
                assert(g.contains_key(u));
            }
        }
        assert(mentioned(g) =~= Set::empty());
    } else {
        let k = g.dom().choose();
        let g0 = g.remove(k);
        lemma_mentioned_finite(g0);
        vstd::seq_lib::seq_to_set_is_finite(g[k]);
        let big = mentioned(g0).insert(k).union(g[k].to_set());
        assert forall|v: usize| mentioned(g).contains(v) implies big.contains(v) by {
            if g.contains_key(v) {
                if v != k {
                    assert(g0.contains_key(v));
                }
            } else {
                let u = choose|u: usize| has_edge(g, u, v);
                if u != k {
                    assert(has_edge(g0, u, v));
                }
            }
        }
        vstd::set_lib::lemma_len_subset(mentioned(g), big);
    }
}

/// A sequence without repetitions is no longer than a finite set that
/// holds all its elements.
pub proof fn lemma_distinct_bounded(s: Seq<usize>, set: Set<usize>)
    requires
        s.no_duplicates(),
        set.finite(),
        forall|v: usize| s.contains(v) ==> set.contains(v),
    ensures
        s.len() <= set.len(),
{
    s.unique_seq_to_set();
    assert(s.to_set().subset_of(set));
    vstd::set_lib::lemma_len_subset(s.to_set(), set);
}

/// Every vertex is reached from itself.
pub proof fn lemma_reachable_self(g: Map<usize, Seq<usize>>, u: usize)
    ensures
        reachable(g, u, u),
{
    assert(walk_between(g, seq![u], u, u));
}

/// What is reached from a neighbour of `u` is reached from `u`.
pub proof fn lemma_reachable_prepend(g: Map<usize, Seq<usize>>, u: usize, v: usize, t: usize)
    requires
        has_edge(g, u, v),
        reachable(g, v, t),
    ensures
        reachable(g, u, t),
{
    let w = choose|w: Seq<usize>| walk_between(g, w, v, t);
    let w2 = seq![u] + w;
    assert forall|i: int| 0 <= i < w2.len() - 1 implies has_edge(g, #[trigger] w2[i], w2[i + 1]) by {
        if i > 0 {
            assert(has_edge(g, w[i - 1], w[i - 1 + 1]));
        }
    }
    assert(walk_between(g, w2, u, t));
}

/// What is reached from `s` has every neighbour reached from `s`.
pub proof fn lemma_reachable_step(g: Map<usize, Seq<usize>>, s: usize, u: usize, v: usize)
    requires
        reachable(g, s, u),
        has_edge(g, u, v),
    ensures
        reachable(g, s, v),
{
    let w = choose|w: Seq<usize>| walk_between(g, w, s, u);
    let w2 = w.push(v);
    assert forall|i: int| 0 <= i < w2.len() - 1 implies has_edge(g, #[trigger] w2[i], w2[i + 1]) by {
        if i < w.len() - 1 {
            assert(has_edge(g, w[i], w[i + 1]));
        }
    }
    assert(walk_between(g, w2, s, v));
}

/// A walk that starts at a vertex reached from `s` ends at a vertex
/// reached from `s`.
pub proof fn lemma_reachable_along(g: Map<usize, Seq<usize>>, s: usize, w: Seq<usize>)
    requires
        is_walk(g, w),
        reachable(g, s, w[0]),
    ensures
        reachable(g, s, w.last()),
    decreases w.len(),
{
    if w.len() > 1 {
        let w0 = w.drop_last();
        assert forall|i: int| 0 <= i < w0.len() - 1 implies has_edge(
            g,
            #[trigger] w0[i],
            w0[i + 1],
        ) by {
            assert(has_edge(g, w[i], w[i + 1]));
        }
        lemma_reachable_along(g, s, w0);
        let last = w.len() - 2;
        assert(has_edge(g, w[last], w[last + 1]));
        lemma_reachable_step(g, s, w0.last(), w.last());
    }
}

/// What is reached from a vertex reached from `a` is reached from `a`.
pub proof fn lemma_reachable_trans(g: Map<usize, Seq<usize>>, a: usize, b: usize, c: usize)
    requires
        reachable(g, a, b),
        reachable(g, b, c),
    ensures
        reachable(g, a, c),
{
    let w = choose|w: Seq<usize>| walk_between(g, w, b, c);
    lemma_reachable_along(g, a, w);
}

/// A walk that starts in a set which holds the neighbours of each of its
/// vertices ends in that set.
pub proof fn lemma_walk_stays(g: Map<usize, Seq<usize>>, set: Set<usize>, w: Seq<usize>)
    requires
        is_walk(g, w),
        set.contains(w[0]),
        forall|u: usize, v: usize| set.contains(u) && #[trigger] has_edge(g, u, v) ==> set.contains(v),
    ensures
        set.contains(w.last()),
    decreases w.len(),
{
    if w.len() > 1 {
        let w0 = w.drop_last();
        assert forall|i: int| 0 <= i < w0.len() - 1 implies has_edge(
            g,
            #[trigger] w0[i],
            w0[i + 1],
        ) by {
            assert(has_edge(g, w[i], w[i + 1]));
        }
        lemma_walk_stays(g, set, w0);
        let last = w.len() - 2;
        assert(has_edge(g, w[last], w[last + 1]));
    }
}

/// Adding an edge between two vertices adds that edge, in both directions,
/// and nothing else.
pub proof fn lemma_with_edge(g: Map<usize, Seq<usize>>, s: usize, d: usize)
    requires
        g.contains_key(s),
        g.contains_key(d),
    ensures
        with_edge(g, s, d).dom() == g.dom(),
        forall|u: usize, v: usize| #[trigger]
            has_edge(with_edge(g, s, d), u, v) <==> (has_edge(g, u, v) || (u == s && v == d) || (u
                == d && v == s)),
        wf(g) ==> wf(with_edge(g, s, d)),
{
    let g1 = g.insert(s, g[s].push(d));
    let g2 = with_edge(g, s, d);
    assert(g2.dom() =~= g.dom());
    assert forall|u: usize, v: usize| #[trigger]
        has_edge(g2, u, v) <==> (has_edge(g, u, v) || (u == s && v == d) || (u == d && v
            == s)) by {
        lemma_push_contains(g[s], d, v);
        lemma_push_contains(g1[d], s, v);
    }
    if wf(g) {
        assert forall|u: usize, v: usize| #[trigger] has_edge(g2, u, v) implies g2.contains_key(
            v,
        ) && has_edge(g2, v, u) by {
            if has_edge(g, u, v) {
                assert(has_edge(g, v, u));
            }
        }
    }
}

/// The degree sum may be taken apart at any vertex.
pub proof fn lemma_degree_sum_remove(g: Map<usize, Seq<usize>>, k: usize)
    requires
        g.dom().finite(),
        g.contains_key(k),
    ensures
        degree_sum(g) == g[k].len() + degree_sum(g.remove(k)),
    decreases g.dom().len(),
{
    let c = g.dom().choose();
    if c != k {
        lemma_degree_sum_remove(g.remove(c), k);
        lemma_degree_sum_remove(g.remove(k), c);
        assert(g.remove(c).remove(k) =~= g.remove(k).remove(c));
    }
}

/// Replacing the neighbours of one vertex changes the degree sum by the
/// difference of the lengths.
pub proof fn lemma_degree_sum_insert(g: Map<usize, Seq<usize>>, k: usize, s: Seq<usize>)
    requires
        g.dom().finite(),
    ensures
        degree_sum(g.insert(k, s)) == degree_sum(g.remove(k)) + s.len(),
        g.contains_key(k) ==> degree_sum(g.insert(k, s)) == degree_sum(g) - g[k].len() + s.len(),
{
    lemma_degree_sum_remove(g.insert(k, s), k);
    assert(g.insert(k, s).remove(k) =~= g.remove(k));
    if g.contains_key(k) {
        lemma_degree_sum_remove(g, k);
    }
}

/// A graph without edges has degree sum zero.
pub proof fn lemma_degree_sum_isolated(vs: Set<usize>)
    requires
        vs.finite(),
    ensures
        degree_sum(isolated(vs)) == 0,
    decreases vs.len(),
{
    let g = isolated(vs);
    assert(g.dom() =~= vs);
    if vs.len() != 0 {
        let k = g.dom().choose();
        assert(g.remove(k) =~= isolated(vs.remove(k)));
        lemma_degree_sum_isolated(vs.remove(k));
    }
}

/// Each added edge raises the degree sum by two.
pub proof fn lemma_degree_sum_with_edge(g: Map<usize, Seq<usize>>, s: usize, d: usize)
    requires
        g.dom().finite(),
        g.contains_key(s),
        g.contains_key(d),
    ensures
        degree_sum(with_edge(g, s, d)) == degree_sum(g) + 2,
{
    let g1 = g.insert(s, g[s].push(d));
    lemma_degree_sum_insert(g, s, g[s].push(d));
    lemma_degree_sum_insert(g1, d, g1[d].push(s));
}

/// Adding the last edge of a list to the graph of the edges before it gives
/// the graph of the whole list.
pub proof fn lemma_with_edges_step(vs: Set<usize>, edges: Seq<(usize, usize)>)
    requires
        edges.len() > 0,
        vs.contains(edges.last().0),
        vs.contains(edges.last().1),
    ensures
        with_edges(vs, edges) == with_edge(
            with_edges(vs, edges.drop_last()),
            edges.last().0,
            edges.last().1,
        ),
{
    let e = edges.last();
    let g0 = with_edges(vs, edges.drop_last());
    assert(with_edges(vs, edges) =~= with_edge(g0, e.0, e.1));
}

/// The graph of an edge list is well formed and stores each edge twice.
pub proof fn lemma_with_edges(vs: Set<usize>, edges: Seq<(usize, usize)>)
    requires
        vs.finite(),
        endpoints(edges).subset_of(vs),
    ensures
        wf(with_edges(vs, edges)),
        degree_sum(with_edges(vs, edges)) == 2 * edges.len(),
    decreases edges.len(),
{
    let g = with_edges(vs, edges);
    assert(g.dom() =~= vs);
    if edges.len() == 0 {
        assert(g =~= isolated(vs));
        lemma_degree_sum_isolated(vs);
        assert forall|u: usize, v: usize| !has_edge(g, u, v) by {
            if has_edge(g, u, v) {
                let i = choose|i: int| 0 <= i < g[u].len() && g[u][i] == v;
            }
        }
    } else {
        let e = edges.last();
        let before = edges.drop_last();
        let last = edges.len() - 1;
        assert(touches(edges[last], e.0) && touches(edges[last], e.1));
        assert(endpoints(edges).contains(e.0));
        assert(endpoints(edges).contains(e.1));
        assert forall|u: usize| endpoints(before).contains(u) implies vs.contains(u) by {
            let i = choose|i: int| 0 <= i < before.len() && #[trigger] touches(before[i], u);
            assert(touches(edges[i], u));
            assert(endpoints(edges).contains(u));
        }
        lemma_with_edges(vs, before);
        let g0 = with_edges(vs, before);
        assert(g0.dom() =~= vs);
        lemma_with_edges_step(vs, edges);
        lemma_with_edge(g0, e.0, e.1);
        lemma_degree_sum_with_edge(g0, e.0, e.1);
    }
}

/// An edge list has finitely many ends.
pub proof fn lemma_endpoints_finite(edges: Seq<(usize, usize)>)
    ensures
        endpoints(edges).finite(),
    decreases edges.len(),
{
    if edges.len() == 0 {
        assert(endpoints(edges) =~= Set::empty());
    } else {
        let before = edges.drop_last();
        let e = edges.last();
        lemma_endpoints_finite(before);
        let last = edges.len() - 1;
        assert forall|u: usize| endpoints(edges).contains(u) <==> endpoints(before).insert(
            e.0,
        ).insert(e.1).contains(u) by {
            if endpoints(edges).contains(u) {
                let i = choose|i: int| 0 <= i < edges.len() && #[trigger] touches(edges[i], u);
                if i < last {
                    assert(touches(before[i], u));
                }
            }
            if endpoints(before).contains(u) {
                let i = choose|i: int| 0 <= i < before.len() && #[trigger] touches(before[i], u);
                assert(touches(edges[i], u));
            }
            if u == e.0 || u == e.1 {
                assert(touches(edges[last], u));
            }
        }
        assert(endpoints(edges) =~= endpoints(before).insert(e.0).insert(e.1));
    }
}

/// The graph that an edge list describes keeps the invariant of an
/// undirected graph, and has as many edges as the list, whatever loops or
/// repeated edges the list holds.
pub proof fn lemma_of_edges(edges: Seq<(usize, usize)>)
    ensures
        wf(of_edges(edges)),
        of_edges(edges).dom() == endpoints(edges),
        degree_sum(of_edges(edges)) == 2 * edges.len(),
        edge_count(of_edges(edges)) == edges.len(),
{
    lemma_endpoints_finite(edges);
    lemma_with_edges(endpoints(edges), edges);
    assert(of_edges(edges).dom() =~= endpoints(edges));
}

} // verus!
