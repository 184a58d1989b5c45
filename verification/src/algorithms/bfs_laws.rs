//! What holds of every breadth-first tree: it is a tree of shortest paths
//! over exactly the vertices that can be reached, and the graph and the
//! source determine it.

use vstd::prelude::*;

use crate::adjacency::{has_edge, is_walk, reachable, walk_between};
use crate::algorithms::bfs::{
    is_bfs_run, is_bfs_tree, is_tree_path, names, slot_before, tree_wf, Run,
};

verus! {

/// Each vertex in the order of a finished search is in the tree, and each
/// vertex in the tree has a place in the order.
proof fn lemma_run_place(
    g: Map<usize, Seq<usize>>,
    s: usize,
    t: Map<usize, (Option<usize>, usize)>,
    r: Run,
    v: usize,
) -> (i: int)
    requires
        is_bfs_run(g, s, t, r),
        t.contains_key(v),
    ensures
        0 <= i < r.order.len(),
        r.order[i] == v,
        i == 0 <==> v == s,
        i == 0 <==> t[v].0 is None,
{
    let i = choose|i: int| 0 <= i < r.order.len() && r.order[i] == v;
    if i > 0 {
        assert(r.order[i] != r.order[0]);
        assert(t[r.order[i]].0 == Some(r.order[r.by[i]]));
    }
    i
}

/// In a breadth-first tree the source is the one root, at distance 0, and
/// every other vertex lies one step farther from the source than its
/// parent.
pub proof fn lemma_bfs_tree_wf(
    g: Map<usize, Seq<usize>>,
    s: usize,
    t: Map<usize, (Option<usize>, usize)>,
)
    requires
        is_bfs_tree(g, s, t),
    ensures
        t.contains_key(s),
        t[s] == (None::<usize>, 0usize),
        forall|v: usize| t.contains_key(v) && v != s ==> t[v].0 is Some,
        tree_wf(t),
{
    let r = choose|r: Run| is_bfs_run(g, s, t, r);
    assert(r.order[0] == s);
    assert(r.order.contains(s));
    assert forall|v: usize| #[trigger] t.contains_key(v) implies match t[v].0 {
        None => t[v].1 == 0,
        Some(p) => t.contains_key(p) && t[v].1 == t[p].1 + 1,
    } by {
        let i = lemma_run_place(g, s, t, r, v);
        if i > 0 {
            assert(t[r.order[i]].0 == Some(r.order[r.by[i]]));
            assert(r.order.contains(r.order[r.by[i]]));
        }
    }
    assert forall|a: usize, b: usize|
        #![trigger t.contains_key(a), t.contains_key(b)]
        t.contains_key(a) && t.contains_key(b) && t[a].0 is None && t[b].0 is None implies a
        == b by {
        let i = lemma_run_place(g, s, t, r, a);
        let j = lemma_run_place(g, s, t, r, b);
    }
    assert forall|v: usize| t.contains_key(v) && v != s implies t[v].0 is Some by {
        let i = lemma_run_place(g, s, t, r, v);
    }
}

/// The way that a breadth-first tree gives from its root to a vertex
/// starts at the source, ends at that vertex, and follows edges of the
/// graph.
pub proof fn lemma_bfs_path_is_walk(
    g: Map<usize, Seq<usize>>,
    s: usize,
    t: Map<usize, (Option<usize>, usize)>,
    p: Seq<usize>,
    target: usize,
)
    requires
        is_bfs_tree(g, s, t),
        is_tree_path(t, p, target),
    ensures
        p[0] == s,
        p.last() == target,
        is_walk(g, p),
        walk_between(g, p, s, target),
{
    let r = choose|r: Run| is_bfs_run(g, s, t, r);
    let i0 = lemma_run_place(g, s, t, r, p[0]);
    assert forall|i: int| 0 <= i < p.len() - 1 implies has_edge(g, #[trigger] p[i], p[i + 1]) by {
        let v = p[i + 1];
        assert(t.contains_key(v) && t[v].0 == Some(p[i]));
        let m = lemma_run_place(g, s, t, r, v);
        assert(names(g, r.order, r.by[m], r.at[m], r.order[m]));
        assert(t[r.order[m]].0 == Some(r.order[r.by[m]]));
        assert(g[p[i]][r.at[m]] == v);
    }
}

/// A tree gives one way from its root to a vertex.
pub proof fn lemma_tree_path_unique(
    t: Map<usize, (Option<usize>, usize)>,
    p: Seq<usize>,
    q: Seq<usize>,
    target: usize,
)
    requires
        is_tree_path(t, p, target),
        is_tree_path(t, q, target),
    ensures
        p == q,
    decreases p.len(),
{
    if p.len() == 1 {
        if q.len() > 1 {
            assert(t[q[q.len() - 1]].0 == Some(q[q.len() - 2]));
        }
        assert(p =~= q);
    } else {
        assert(t[p[p.len() - 1]].0 == Some(p[p.len() - 2]));
        if q.len() > 1 {
            assert(t[q[q.len() - 1]].0 == Some(q[q.len() - 2]));
        }
        let p0 = p.drop_last();
        let q0 = q.drop_last();
        assert forall|i: int| 0 < i < p0.len() implies t.contains_key(#[trigger] p0[i]) && t[p0[i]].0
            == Some(p0[i - 1]) by {
            assert(t.contains_key(p[i]) && t[p[i]].0 == Some(p[i - 1]));
        }
        assert forall|i: int| 0 < i < q0.len() implies t.contains_key(#[trigger] q0[i]) && t[q0[i]].0
            == Some(q0[i - 1]) by {
            assert(t.contains_key(q[i]) && t[q[i]].0 == Some(q[i - 1]));
        }
        lemma_tree_path_unique(t, p0, q0, p0.last());
        assert(p =~= p0.push(target));
        assert(q =~= q0.push(target));
    }
}

/// Vertices that were found later are not nearer to the source.
proof fn lemma_run_monotone(
    g: Map<usize, Seq<usize>>,
    s: usize,
    t: Map<usize, (Option<usize>, usize)>,
    r: Run,
    i1: int,
    i2: int,
)
    requires
        is_bfs_run(g, s, t, r),
        0 <= i1 <= i2 < r.order.len(),
    ensures
        t[r.order[i1]].1 <= t[r.order[i2]].1,
    decreases i2,
{
    if i1 == i2 {
    } else if i1 == 0 {
    } else {
        let a = r.order[i1];
        let b = r.order[i2];
        assert(slot_before(r.by[i1], r.at[i1], r.by[i2], r.at[i2]));
        assert(0 <= r.by[i1] < i1);
        assert(0 <= r.by[i2] < i2);
        lemma_run_monotone(g, s, t, r, r.by[i1], r.by[i2]);
    }
}

/// A walk from the source ends at a vertex of the tree, and is at least
/// as long as the distance recorded for that vertex.
proof fn lemma_run_walk(
    g: Map<usize, Seq<usize>>,
    s: usize,
    t: Map<usize, (Option<usize>, usize)>,
    r: Run,
    w: Seq<usize>,
)
    requires
        is_bfs_run(g, s, t, r),
        is_walk(g, w),
        w[0] == s,
    ensures
        t.contains_key(w.last()),
        t[w.last()].1 <= w.len() - 1,
    decreases w.len(),
{
    let n = r.order.len() as int;
    if w.len() == 1 {
        assert(r.order.contains(r.order[0]));
    } else {
        let w0 = w.drop_last();
        assert forall|i: int| 0 <= i < w0.len() - 1 implies has_edge(
            g,
            #[trigger] w0[i],
            w0[i + 1],
        ) by {
            assert(has_edge(g, w[i], w[i + 1]));
        }
        lemma_run_walk(g, s, t, r, w0);
        let u = w0.last();
        let v = w.last();
        let last = w.len() - 2;
        assert(has_edge(g, w[last], w[last + 1]));
        let a = lemma_run_place(g, s, t, r, u);
        let c = choose|c: int| 0 <= c < g[u].len() && g[u][c] == v;
        assert(names(g, r.order, a, c, v));
        assert(slot_before(a, c, n, 0));
        assert(r.order.contains(v));
        let i = lemma_run_place(g, s, t, r, v);
        if i > 0 {
            assert(names(g, r.order, a, c, r.order[i]));
            assert(!slot_before(a, c, r.by[i], r.at[i]));
            assert(0 <= r.by[i] < i);
            assert(t[r.order[i]].1 == t[r.order[r.by[i]]].1 + 1);
            lemma_run_monotone(g, s, t, r, r.by[i], a);
        }
    }
}

/// To each vertex of the tree leads a walk from the source that is as
/// long as the distance recorded for the vertex.
proof fn lemma_run_reaches(
    g: Map<usize, Seq<usize>>,
    s: usize,
    t: Map<usize, (Option<usize>, usize)>,
    r: Run,
    i: int,
) -> (w: Seq<usize>)
    requires
        is_bfs_run(g, s, t, r),
        0 <= i < r.order.len(),
    ensures
        walk_between(g, w, s, r.order[i]),
        w.len() == t[r.order[i]].1 + 1,
    decreases i,
{
    if i == 0 {
        seq![s]
    } else {
        let v = r.order[i];
        assert(names(g, r.order, r.by[i], r.at[i], v));
        assert(0 <= r.by[i] < i);
        assert(t[v].1 == t[r.order[r.by[i]]].1 + 1);
        let w0 = lemma_run_reaches(g, s, t, r, r.by[i]);
        let w = w0.push(v);
        assert forall|m: int| 0 <= m < w.len() - 1 implies has_edge(g, #[trigger] w[m], w[m + 1]) by {
            if m < w0.len() - 1 {
                assert(has_edge(g, w0[m], w0[m + 1]));
            } else {
                assert(w[m] == r.order[r.by[i]]);
                assert(g[r.order[r.by[i]]][r.at[i]] == v);
            }
        }
        w
    }
}

/// A breadth-first tree holds exactly the vertices that can be reached
/// from the source, and the distance it records for a vertex is the length
/// of a shortest walk from the source to it.
pub proof fn lemma_bfs_shortest(
    g: Map<usize, Seq<usize>>,
    s: usize,
    t: Map<usize, (Option<usize>, usize)>,
)
    requires
        is_bfs_tree(g, s, t),
    ensures
        forall|v: usize| t.contains_key(v) <==> reachable(g, s, v),
        forall|v: usize, w: Seq<usize>| #[trigger]
            walk_between(g, w, s, v) ==> t[v].1 + 1 <= w.len(),
        forall|v: usize|
            t.contains_key(v) ==> exists|w: Seq<usize>| #[trigger]
                walk_between(g, w, s, v) && w.len() == t[v].1 + 1,
{
    let r = choose|r: Run| is_bfs_run(g, s, t, r);
    assert forall|v: usize| t.contains_key(v) implies reachable(g, s, v) && exists|w: Seq<usize>| #[trigger]
        walk_between(g, w, s, v) && w.len() == t[v].1 + 1 by {
        let i = lemma_run_place(g, s, t, r, v);
        let w = lemma_run_reaches(g, s, t, r, i);
        assert(walk_between(g, w, s, v) && w.len() == t[v].1 + 1);
    }
    assert forall|v: usize| reachable(g, s, v) implies t.contains_key(v) by {
        let w = choose|w: Seq<usize>| walk_between(g, w, s, v);
        lemma_run_walk(g, s, t, r, w);
    }
    assert forall|v: usize, w: Seq<usize>| #[trigger] walk_between(g, w, s, v) implies t[v].1 + 1
        <= w.len() by {
        lemma_run_walk(g, s, t, r, w);
    }
}

/// Two finished searches of one graph from one source found the same
/// vertices in the same order, as far as `m`.
proof fn lemma_orders_agree(
    g: Map<usize, Seq<usize>>,
    s: usize,
    t1: Map<usize, (Option<usize>, usize)>,
    r1: Run,
    t2: Map<usize, (Option<usize>, usize)>,
    r2: Run,
    m: int,
)
    requires
        is_bfs_run(g, s, t1, r1),
        is_bfs_run(g, s, t2, r2),
        0 <= m <= r1.order.len(),
        m <= r2.order.len(),
    ensures
        forall|i: int| 0 <= i < m ==> r1.order[i] == r2.order[i],
    decreases m,
{
    if m > 0 {
        lemma_orders_agree(g, s, t1, r1, t2, r2, m - 1);
        let q = m - 1;
        let n1 = r1.order.len() as int;
        let n2 = r2.order.len() as int;
        if q > 0 {
            let v = r1.order[q];
            let j = r1.by[q];
            let k = r1.at[q];
            assert(names(g, r1.order, j, k, v) && 0 <= j < q);
            assert(names(g, r2.order, j, k, v));
            assert(slot_before(j, k, n2, 0));
            assert(r2.order.contains(v));
            let m2 = choose|i: int| 0 <= i < n2 && r2.order[i] == v;
            let v2 = r2.order[q];
            let j2 = r2.by[q];
            let k2 = r2.at[q];
            assert(names(g, r2.order, j2, k2, v2) && 0 <= j2 < q);
            assert(names(g, r1.order, j2, k2, v2));
            assert(slot_before(j2, k2, n1, 0));
            assert(r1.order.contains(v2));
            let m1 = choose|i: int| 0 <= i < n1 && r1.order[i] == v2;
            if m2 < q {
                assert(r1.order[m2] == r1.order[q]);
            }
            if m1 < q {
                assert(r2.order[m1] == r2.order[q]);
            }
            if m2 > q {
                assert(m1 != q);
                assert(slot_before(r1.by[q], r1.at[q], r1.by[m1], r1.at[m1]));
                assert(names(g, r1.order, j2, k2, r1.order[m1]));
                assert(!slot_before(j2, k2, r1.by[m1], r1.at[m1]));
                assert(slot_before(r2.by[q], r2.at[q], r2.by[m2], r2.at[m2]));
                assert(names(g, r2.order, j, k, r2.order[m2]));
                assert(!slot_before(j, k, r2.by[m2], r2.at[m2]));
                assert(false);
            }
        }
    }
}

/// Two finished searches of one graph from one source have the same
/// record of vertices and parents.
proof fn lemma_runs_agree(
    g: Map<usize, Seq<usize>>,
    s: usize,
    t1: Map<usize, (Option<usize>, usize)>,
    r1: Run,
    t2: Map<usize, (Option<usize>, usize)>,
    r2: Run,
)
    requires
        is_bfs_run(g, s, t1, r1),
        is_bfs_run(g, s, t2, r2),
    ensures
        r1.order == r2.order,
        forall|i: int| 0 < i < r1.order.len() ==> r1.by[i] == r2.by[i],
{
    let n1 = r1.order.len() as int;
    let n2 = r2.order.len() as int;
    if n1 > n2 {
        lemma_orders_agree(g, s, t1, r1, t2, r2, n2);
        let v = r1.order[n2];
        let j = r1.by[n2];
        let k = r1.at[n2];
        assert(names(g, r1.order, j, k, v) && 0 <= j < n2);
        assert(names(g, r2.order, j, k, v));
        assert(slot_before(j, k, n2, 0));
        assert(r2.order.contains(v));
        let m2 = choose|i: int| 0 <= i < n2 && r2.order[i] == v;
        assert(r1.order[m2] == r1.order[n2]);
        assert(false);
    }
    if n2 > n1 {
        lemma_orders_agree(g, s, t1, r1, t2, r2, n1);
        let v = r2.order[n1];
        let j = r2.by[n1];
        let k = r2.at[n1];
        assert(names(g, r2.order, j, k, v) && 0 <= j < n1);
        assert(names(g, r1.order, j, k, v));
        assert(slot_before(j, k, n1, 0));
        assert(r1.order.contains(v));
        let m1 = choose|i: int| 0 <= i < n1 && r1.order[i] == v;
        assert(r2.order[m1] == r2.order[n1]);
        assert(false);
    }
    lemma_orders_agree(g, s, t1, r1, t2, r2, n1);
    assert(r1.order =~= r2.order);
    assert forall|i: int| 0 < i < n1 implies r1.by[i] == r2.by[i] by {
        let v = r1.order[i];
        assert(names(g, r1.order, r1.by[i], r1.at[i], v));
        assert(names(g, r2.order, r2.by[i], r2.at[i], r2.order[i]));
        assert(names(g, r1.order, r2.by[i], r2.at[i], r1.order[i]));
        assert(names(g, r2.order, r1.by[i], r1.at[i], r2.order[i]));
        assert(!slot_before(r2.by[i], r2.at[i], r1.by[i], r1.at[i]));
        assert(!slot_before(r1.by[i], r1.at[i], r2.by[i], r2.at[i]));
    }
}

/// Two finished searches of one graph from one source recorded the same
/// parent and distance for the vertex found `i`-th.
proof fn lemma_entries_agree(
    g: Map<usize, Seq<usize>>,
    s: usize,
    t1: Map<usize, (Option<usize>, usize)>,
    r1: Run,
    t2: Map<usize, (Option<usize>, usize)>,
    r2: Run,
    i: int,
)
    requires
        is_bfs_run(g, s, t1, r1),
        is_bfs_run(g, s, t2, r2),
        0 <= i < r1.order.len(),
    ensures
        t1[r1.order[i]] == t2[r1.order[i]],
    decreases i,
{
    lemma_runs_agree(g, s, t1, r1, t2, r2);
    if i > 0 {
        let v = r1.order[i];
        assert(v == r2.order[i]);
        assert(0 <= r1.by[i] < i);
        assert(t1[v].0 == Some(r1.order[r1.by[i]]));
        assert(t2[v].0 == Some(r2.order[r2.by[i]]));
        assert(t1[v].1 == t1[r1.order[r1.by[i]]].1 + 1);
        assert(t2[v].1 == t2[r2.order[r2.by[i]]].1 + 1);
        lemma_entries_agree(g, s, t1, r1, t2, r2, r1.by[i]);
    }
}

/// A graph and a source have one breadth-first tree: a search that is run
/// again on the same graph from the same source gives the same tree.
pub proof fn lemma_bfs_unique(
    g: Map<usize, Seq<usize>>,
    s: usize,
    t1: Map<usize, (Option<usize>, usize)>,
    t2: Map<usize, (Option<usize>, usize)>,
)
    requires
        is_bfs_tree(g, s, t1),
        is_bfs_tree(g, s, t2),
    ensures
        t1 == t2,
{
    let r1 = choose|r: Run| is_bfs_run(g, s, t1, r);
    let r2 = choose|r: Run| is_bfs_run(g, s, t2, r);
    lemma_runs_agree(g, s, t1, r1, t2, r2);
    assert forall|v: usize| t1.contains_key(v) implies #[trigger] t1[v] == t2[v] by {
        let i = lemma_run_place(g, s, t1, r1, v);
        lemma_entries_agree(g, s, t1, r1, t2, r2, i);
    }
    assert(t1.dom() =~= t2.dom());
    assert(t1 =~= t2);
}

} // verus!
