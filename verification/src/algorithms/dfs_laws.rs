//! What holds of every depth-first search: the intervals between discovery
//! and finish nest, the trees follow edges of the graph, and a search from
//! one vertex discovers exactly what can be reached from it.

use vstd::prelude::*;

use crate::adjacency::{
    closed, has_edge, lemma_reachable_prepend, lemma_reachable_self, lemma_walk_stays, reachable,
    walk_between,
};
use crate::algorithms::dfs::{
    dfs_each, dfs_forest, dfs_result, dfs_visit, unvisited, DfsNode, Search,
};
use crate::sorted::{ascending, lemma_ascending_exists};

verus! {

/// The intervals of two vertices lie apart or one inside the other.
pub open spec fn nested_or_apart(a: DfsNode, b: DfsNode) -> bool {
    ||| a.finished < b.discovered
    ||| b.finished < a.discovered
    ||| (a.discovered < b.discovered && b.finished < a.finished)
    ||| (b.discovered < a.discovered && a.finished < b.finished)
}

/// The search `st` can go on over `g`: it knows only vertices of the
/// graph, every neighbour in the graph is a vertex, and the clock has room
/// for the two ticks of each vertex still to be discovered.
pub open spec fn searchable(g: Map<usize, Seq<usize>>, st: Search) -> bool {
    &&& g.dom().finite()
    &&& closed(g)
    &&& forall|w: usize| st.nodes.contains_key(w) ==> g.contains_key(w)
    &&& st.clock + 2 * unvisited(g, st) <= usize::MAX
}

/// The vertex `w` was discovered between the searches `a` and `b`.
pub open spec fn fresh(a: Search, b: Search, w: usize) -> bool {
    b.nodes.contains_key(w) && !a.nodes.contains_key(w)
}

/// The search `b` arose from the search `a` by whole visits: the records
/// of `a` are untouched, and the vertices discovered since are finished,
/// within the time that passed, with intervals that nest or lie apart.
pub open spec fn explored(g: Map<usize, Seq<usize>>, a: Search, b: Search) -> bool {
    &&& forall|w: usize| #[trigger]
        a.nodes.contains_key(w) ==> b.nodes.contains_key(w) && b.nodes[w] == a.nodes[w]
    &&& forall|w: usize| #[trigger] b.nodes.contains_key(w) ==> g.contains_key(w)
    &&& unvisited(g, b) <= unvisited(g, a)
    &&& b.clock + 2 * unvisited(g, b) == a.clock + 2 * unvisited(g, a)
    &&& forall|w: usize| #[trigger]
        fresh(a, b, w) ==> a.clock <= b.nodes[w].discovered < b.nodes[w].finished < b.clock
    &&& forall|w1: usize, w2: usize|
        #![trigger fresh(a, b, w1), fresh(a, b, w2)]
        fresh(a, b, w1) && fresh(a, b, w2) && w1 != w2 ==> nested_or_apart(
            b.nodes[w1],
            b.nodes[w2],
        )
}

/// Discovering a vertex of the graph leaves one vertex less to discover.
pub proof fn lemma_discover(g: Map<usize, Seq<usize>>, st: Search, u: usize, parent: Option<usize>)
    requires
        g.dom().finite(),
        g.contains_key(u),
        !st.nodes.contains_key(u),
    ensures
        unvisited(g, st.discover(u, parent)) == unvisited(g, st) - 1,
        unvisited(g, st) > 0,
{
    let left = g.dom().difference(st.nodes.dom());
    assert(left.contains(u));
    assert(g.dom().difference(st.discover(u, parent).nodes.dom()) =~= left.remove(u));
}

/// Whole visits after whole visits are whole visits.
pub proof fn lemma_explored_trans(g: Map<usize, Seq<usize>>, a: Search, b: Search, c: Search)
    requires
        explored(g, a, b),
        explored(g, b, c),
    ensures
        explored(g, a, c),
{
    assert forall|w: usize| #[trigger] a.nodes.contains_key(w) implies c.nodes.contains_key(w)
        && c.nodes[w] == a.nodes[w] by {
        assert(b.nodes.contains_key(w));
    }
    assert forall|w: usize| #[trigger] fresh(a, c, w) implies a.clock <= c.nodes[w].discovered
        < c.nodes[w].finished < c.clock by {
        if b.nodes.contains_key(w) {
            assert(fresh(a, b, w));
        } else {
            assert(fresh(b, c, w));
        }
    }
    assert forall|w1: usize, w2: usize|
        #![trigger fresh(a, c, w1), fresh(a, c, w2)]
        fresh(a, c, w1) && fresh(a, c, w2) && w1 != w2 implies nested_or_apart(
        c.nodes[w1],
        c.nodes[w2],
    ) by {
        if b.nodes.contains_key(w1) {
            assert(fresh(a, b, w1));
        } else {
            assert(fresh(b, c, w1));
        }
        if b.nodes.contains_key(w2) {
            assert(fresh(a, b, w2));
        } else {
            assert(fresh(b, c, w2));
        }
    }
}

/// Discovering a vertex, exploring what lies below it by whole visits and
/// finishing it is a whole visit, whose interval encloses the others.
pub proof fn lemma_explored_wrap(
    g: Map<usize, Seq<usize>>,
    st: Search,
    u: usize,
    parent: Option<usize>,
    below: Search,
)
    requires
        searchable(g, st),
        g.contains_key(u),
        !st.nodes.contains_key(u),
        explored(g, st.discover(u, parent), below),
    ensures
        searchable(g, st.discover(u, parent)),
        explored(g, st, below.finish(u)),
        below.finish(u).nodes[u] == (DfsNode {
            parent,
            discovered: st.clock as usize,
            finished: below.clock as usize,
        }),
        st.clock < below.clock <= usize::MAX,
{
    let st1 = st.discover(u, parent);
    let st3 = below.finish(u);
    lemma_discover(g, st, u, parent);
    assert(st1.nodes.contains_key(u));
    assert(below.nodes.contains_key(u) && below.nodes[u] == st1.nodes[u]);
    assert(st3.nodes.dom() =~= below.nodes.dom());
    assert(unvisited(g, st3) == unvisited(g, below));
    assert forall|w: usize| #[trigger] st.nodes.contains_key(w) implies st3.nodes.contains_key(w)
        && st3.nodes[w] == st.nodes[w] by {
        assert(st1.nodes.contains_key(w));
    }
    assert forall|w: usize| #[trigger] fresh(st, st3, w) implies st.clock
        <= st3.nodes[w].discovered < st3.nodes[w].finished < st3.clock by {
        if w != u {
            assert(fresh(st1, below, w));
        }
    }
    assert forall|w1: usize, w2: usize|
        #![trigger fresh(st, st3, w1), fresh(st, st3, w2)]
        fresh(st, st3, w1) && fresh(st, st3, w2) && w1 != w2 implies nested_or_apart(
        st3.nodes[w1],
        st3.nodes[w2],
    ) by {
        if w1 != u {
            assert(fresh(st1, below, w1));
        }
        if w2 != u {
            assert(fresh(st1, below, w2));
        }
    }
}

/// A visit is a whole visit: it discovers its vertex at the time on the
/// clock and finishes it at the last tick.
pub proof fn lemma_dfs_visit(g: Map<usize, Seq<usize>>, st: Search, u: usize, parent: Option<usize>)
    requires
        searchable(g, st),
        g.contains_key(u),
        !st.nodes.contains_key(u),
    ensures
        explored(g, st, dfs_visit(g, st, u, parent)),
        searchable(g, dfs_visit(g, st, u, parent)),
        fresh(st, dfs_visit(g, st, u, parent), u),
        dfs_visit(g, st, u, parent).nodes[u] == (DfsNode {
            parent,
            discovered: st.clock as usize,
            finished: (dfs_visit(g, st, u, parent).clock - 1) as usize,
        }),
        dfs_visit(g, st, u, parent).clock <= usize::MAX + 1,
    decreases unvisited(g, st), 0nat, 0nat,
{
    let st1 = st.discover(u, parent);
    lemma_discover(g, st, u, parent);
    assert forall|w: usize| st1.nodes.contains_key(w) implies g.contains_key(w) by {}
    lemma_dfs_each(g, st1, u, 0);
    let below = dfs_each(g, st1, u, 0);
    lemma_explored_wrap(g, st, u, parent, below);
}

/// Looking at the neighbours of a vertex in turn is a sequence of whole
/// visits.
pub proof fn lemma_dfs_each(g: Map<usize, Seq<usize>>, st: Search, u: usize, i: int)
    requires
        searchable(g, st),
        0 <= i,
    ensures
        explored(g, st, dfs_each(g, st, u, i)),
        searchable(g, dfs_each(g, st, u, i)),
    decreases unvisited(g, st), 1nat, (if g.contains_key(u) && 0 <= i <= g[u].len() {
        g[u].len() - i
    } else {
        0
    }),
{
    if !g.contains_key(u) || i >= g[u].len() {
    } else if st.nodes.contains_key(g[u][i]) {
        lemma_dfs_each(g, st, u, i + 1);
    } else {
        let v = g[u][i];
        assert(has_edge(g, u, v));
        lemma_dfs_visit(g, st, v, Some(u));
        let after = dfs_visit(g, st, v, Some(u));
        lemma_dfs_each(g, after, u, i + 1);
        lemma_explored_trans(g, st, after, dfs_each(g, after, u, i + 1));
    }
}

/// Every vertex discovered between `a` and `b` hangs in a tree: its parent
/// is a neighbour that was discovered before it and finished after it, or
/// is `owner`, the vertex from which the exploration set out. Without an
/// owner a vertex may be a root, which has no parent.
pub open spec fn hung(g: Map<usize, Seq<usize>>, a: Search, b: Search, owner: Option<usize>) -> bool {
    forall|w: usize| #[trigger]
        fresh(a, b, w) ==> match b.nodes[w].parent {
            Some(p) => {
                &&& has_edge(g, p, w)
                &&& b.nodes.contains_key(p)
                &&& (owner == Some(p) || (fresh(a, b, p) && b.nodes[p].discovered
                    < b.nodes[w].discovered && b.nodes[w].finished < b.nodes[p].finished))
            },
            None => owner is None,
        }
}

/// Every neighbour of a vertex discovered between `a` and `b` is
/// discovered in `b`.
pub open spec fn enclosed(g: Map<usize, Seq<usize>>, a: Search, b: Search) -> bool {
    forall|w: usize, v: usize|
        fresh(a, b, w) && #[trigger] has_edge(g, w, v) ==> b.nodes.contains_key(v)
}

/// Every vertex discovered between `a` and `b` can be reached from `u`.
pub open spec fn within_reach(g: Map<usize, Seq<usize>>, a: Search, b: Search, u: usize) -> bool {
    forall|w: usize| #[trigger] fresh(a, b, w) ==> reachable(g, u, w)
}

/// Trees that grew one after the other under the same owner, or as whole
/// trees, hang as one forest.
proof fn lemma_hung_trans(
    g: Map<usize, Seq<usize>>,
    a: Search,
    b: Search,
    c: Search,
    owner: Option<usize>,
)
    requires
        explored(g, a, b),
        explored(g, b, c),
        hung(g, a, b, owner),
        hung(g, b, c, owner),
        enclosed(g, a, b),
        enclosed(g, b, c),
    ensures
        hung(g, a, c, owner),
        enclosed(g, a, c),
{
    assert forall|w: usize| #[trigger] fresh(a, c, w) implies match c.nodes[w].parent {
        Some(p) => {
            &&& has_edge(g, p, w)
            &&& c.nodes.contains_key(p)
            &&& (owner == Some(p) || (fresh(a, c, p) && c.nodes[p].discovered
                < c.nodes[w].discovered && c.nodes[w].finished < c.nodes[p].finished))
        },
        None => owner is None,
    } by {
        if b.nodes.contains_key(w) {
            assert(fresh(a, b, w));
            if let Some(p) = b.nodes[w].parent {
                assert(b.nodes.contains_key(p));
            }
        } else {
            assert(fresh(b, c, w));
        }
    }
    assert forall|w: usize, v: usize| fresh(a, c, w) && #[trigger] has_edge(g, w, v) implies c.nodes.contains_key(
        v,
    ) by {
        if b.nodes.contains_key(w) {
            assert(fresh(a, b, w));
            assert(b.nodes.contains_key(v));
        } else {
            assert(fresh(b, c, w));
        }
    }
}

/// A visit grows one tree below its vertex, over vertices that can be
/// reached from it, and leaves no neighbour of theirs undiscovered.
pub proof fn lemma_dfs_visit_links(
    g: Map<usize, Seq<usize>>,
    st: Search,
    u: usize,
    parent: Option<usize>,
)
    requires
        searchable(g, st),
        g.contains_key(u),
        !st.nodes.contains_key(u),
        parent matches Some(q) ==> has_edge(g, q, u) && st.nodes.contains_key(q),
    ensures
        hung(g, st, dfs_visit(g, st, u, parent), parent),
        enclosed(g, st, dfs_visit(g, st, u, parent)),
        within_reach(g, st, dfs_visit(g, st, u, parent), u),
        forall|w: usize| #[trigger]
            fresh(st, dfs_visit(g, st, u, parent), w) && w != u ==> dfs_visit(
                g,
                st,
                u,
                parent,
            ).nodes[w].parent is Some,
    decreases unvisited(g, st), 0nat, 0nat,
{
    let st1 = st.discover(u, parent);
    let below = dfs_each(g, st1, u, 0);
    let st3 = below.finish(u);
    lemma_discover(g, st, u, parent);
    assert forall|w: usize| st1.nodes.contains_key(w) implies g.contains_key(w) by {}
    lemma_dfs_each(g, st1, u, 0);
    lemma_explored_wrap(g, st, u, parent, below);
    lemma_dfs_each_links(g, st1, u, 0);
    lemma_reachable_self(g, u);
    assert(st1.nodes.contains_key(u));
    assert(below.nodes.contains_key(u) && below.nodes[u] == st1.nodes[u]);
    assert forall|w: usize| #[trigger] fresh(st, st3, w) implies (match st3.nodes[w].parent {
        Some(p) => {
            &&& has_edge(g, p, w)
            &&& st3.nodes.contains_key(p)
            &&& (parent == Some(p) || (fresh(st, st3, p) && st3.nodes[p].discovered
                < st3.nodes[w].discovered && st3.nodes[w].finished < st3.nodes[p].finished))
        },
        None => parent is None,
    }) && reachable(g, u, w) && (w != u ==> st3.nodes[w].parent is Some) by {
        if w != u {
            assert(fresh(st1, below, w));
            assert(st1.clock <= below.nodes[w].discovered < below.nodes[w].finished < below.clock);
            let p = below.nodes[w].parent->0;
            if p != u {
                assert(fresh(st1, below, p));
                assert(fresh(st, st3, p));
            } else {
                assert(fresh(st, st3, u));
            }
        }
    }
    assert forall|w: usize, v: usize| fresh(st, st3, w) && #[trigger] has_edge(g, w, v) implies st3.nodes.contains_key(
        v,
    ) by {
        if w != u {
            assert(fresh(st1, below, w));
            assert(below.nodes.contains_key(v));
        } else {
            let k = choose|k: int| 0 <= k < g[u].len() && g[u][k] == v;
            assert(below.nodes.contains_key(g[u][k]));
        }
    }
}

/// Looking at the neighbours of a discovered vertex `u` from position `i`
/// on grows trees below `u`, over vertices that can be reached from `u`,
/// and leaves none of those neighbours undiscovered.
pub proof fn lemma_dfs_each_links(g: Map<usize, Seq<usize>>, st: Search, u: usize, i: int)
    requires
        searchable(g, st),
        g.contains_key(u),
        st.nodes.contains_key(u),
        0 <= i <= g[u].len(),
    ensures
        hung(g, st, dfs_each(g, st, u, i), Some(u)),
        enclosed(g, st, dfs_each(g, st, u, i)),
        within_reach(g, st, dfs_each(g, st, u, i), u),
        forall|k: int| i <= k < g[u].len() ==> dfs_each(g, st, u, i).nodes.contains_key(#[trigger] g[u][k]),
    decreases unvisited(g, st), 1nat, g[u].len() - i,
{
    let r = dfs_each(g, st, u, i);
    if i >= g[u].len() {
    } else if st.nodes.contains_key(g[u][i]) {
        lemma_dfs_each(g, st, u, i + 1);
        lemma_dfs_each_links(g, st, u, i + 1);
        assert forall|k: int| i <= k < g[u].len() implies r.nodes.contains_key(#[trigger] g[u][k]) by {
            if k == i {
                assert(st.nodes.contains_key(g[u][i]));
            }
        }
    } else {
        let v = g[u][i];
        assert(has_edge(g, u, v));
        lemma_dfs_visit(g, st, v, Some(u));
        lemma_dfs_visit_links(g, st, v, Some(u));
        let after = dfs_visit(g, st, v, Some(u));
        assert(after.nodes.contains_key(u));
        lemma_dfs_each(g, after, u, i + 1);
        lemma_dfs_each_links(g, after, u, i + 1);
        lemma_explored_trans(g, st, after, r);
        lemma_hung_trans(g, st, after, r, Some(u));
        assert forall|w: usize| #[trigger] fresh(st, r, w) implies reachable(g, u, w) by {
            if after.nodes.contains_key(w) {
                assert(fresh(st, after, w));
                lemma_reachable_prepend(g, u, v, w);
            } else {
                assert(fresh(after, r, w));
            }
        }
        assert forall|k: int| i <= k < g[u].len() implies r.nodes.contains_key(#[trigger] g[u][k]) by {
            if k == i {
                assert(fresh(st, after, v));
                assert(after.nodes.contains_key(v));
            }
        }
    }
}

/// Growing a forest is a sequence of whole visits, which discovers each
/// vertex of the list from `i` on, and hangs every vertex in a tree.
pub proof fn lemma_dfs_forest(g: Map<usize, Seq<usize>>, st: Search, order: Seq<usize>, i: int)
    requires
        searchable(g, st),
        0 <= i,
        forall|j: int| 0 <= j < order.len() ==> g.contains_key(#[trigger] order[j]),
    ensures
        explored(g, st, dfs_forest(g, st, order, i)),
        searchable(g, dfs_forest(g, st, order, i)),
        hung(g, st, dfs_forest(g, st, order, i), None),
        enclosed(g, st, dfs_forest(g, st, order, i)),
        forall|j: int| i <= j < order.len() ==> dfs_forest(g, st, order, i).nodes.contains_key(#[trigger] order[j]),
    decreases order.len() - i,
{
    let r = dfs_forest(g, st, order, i);
    if i >= order.len() {
    } else if st.nodes.contains_key(order[i]) {
        lemma_dfs_forest(g, st, order, i + 1);
        assert forall|j: int| i <= j < order.len() implies r.nodes.contains_key(#[trigger] order[j]) by {
            if j == i {
                assert(st.nodes.contains_key(order[i]));
            }
        }
    } else {
        let v = order[i];
        lemma_dfs_visit(g, st, v, None);
        lemma_dfs_visit_links(g, st, v, None);
        let after = dfs_visit(g, st, v, None);
        lemma_dfs_forest(g, after, order, i + 1);
        lemma_explored_trans(g, st, after, r);
        lemma_hung_trans(g, st, after, r, None);
        assert forall|j: int| i <= j < order.len() implies r.nodes.contains_key(#[trigger] order[j]) by {
            if j == i {
                assert(fresh(st, after, v));
                assert(after.nodes.contains_key(v));
            }
        }
    }
}

/// The search that has not begun can go on over any finite graph whose
/// neighbours are vertices and whose vertices leave the clock room.
pub proof fn lemma_start_searchable(g: Map<usize, Seq<usize>>)
    requires
        g.dom().finite(),
        closed(g),
        2 * g.dom().len() <= usize::MAX,
    ensures
        searchable(g, Search::start()),
        unvisited(g, Search::start()) == g.dom().len(),
{
    assert(g.dom().difference(Search::start().nodes.dom()) =~= g.dom());
}

/// The records of a whole search: discovery precedes finish, two intervals
/// nest or lie apart, and every vertex but a root has as parent a
/// neighbour whose interval encloses its own.
pub open spec fn is_dfs_forest(g: Map<usize, Seq<usize>>, m: Map<usize, DfsNode>) -> bool {
    &&& forall|w: usize| #[trigger] m.contains_key(w) ==> m[w].discovered < m[w].finished
    &&& forall|w1: usize, w2: usize|
        #![trigger m.contains_key(w1), m.contains_key(w2)]
        m.contains_key(w1) && m.contains_key(w2) && w1 != w2 ==> nested_or_apart(m[w1], m[w2])
    &&& forall|w: usize| #[trigger]
        m.contains_key(w) ==> match m[w].parent {
            Some(p) => {
                &&& has_edge(g, p, w)
                &&& m.contains_key(p)
                &&& m[p].discovered < m[w].discovered
                &&& m[w].finished < m[p].finished
            },
            None => true,
        }
    &&& forall|w: usize, v: usize| m.contains_key(w) && #[trigger] has_edge(g, w, v) ==> m.contains_key(v)
}

proof fn lemma_whole_search(g: Map<usize, Seq<usize>>, b: Search)
    requires
        explored(g, Search::start(), b),
        hung(g, Search::start(), b, None),
        enclosed(g, Search::start(), b),
    ensures
        is_dfs_forest(g, b.nodes),
{
    let a = Search::start();
    let m = b.nodes;
    assert forall|w: usize| #[trigger] m.contains_key(w) implies fresh(a, b, w) by {}
    assert forall|w: usize| #[trigger] m.contains_key(w) implies m[w].discovered < m[w].finished by {
        assert(fresh(a, b, w));
    }
    assert forall|w1: usize, w2: usize|
        #![trigger m.contains_key(w1), m.contains_key(w2)]
        m.contains_key(w1) && m.contains_key(w2) && w1 != w2 implies nested_or_apart(
        m[w1],
        m[w2],
    ) by {
        assert(fresh(a, b, w1) && fresh(a, b, w2));
    }
    assert forall|w: usize| #[trigger] m.contains_key(w) implies match m[w].parent {
        Some(p) => {
            &&& has_edge(g, p, w)
            &&& m.contains_key(p)
            &&& m[p].discovered < m[w].discovered
            &&& m[w].finished < m[p].finished
        },
        None => true,
    } by {
        assert(fresh(a, b, w));
    }
    assert forall|w: usize, v: usize| m.contains_key(w) && #[trigger] has_edge(g, w, v) implies m.contains_key(
        v,
    ) by {
        assert(fresh(a, b, w));
    }
}

/// A depth-first search from a vertex `s` discovers exactly what can be
/// reached from `s`. The intervals of any two vertices nest or lie apart.
/// `s` is the one root, discovered at time 0; every other vertex has as
/// parent a neighbour whose interval encloses its own.
pub proof fn lemma_dfs_tree(g: Map<usize, Seq<usize>>, s: usize)
    requires
        g.dom().finite(),
        closed(g),
        2 * g.dom().len() <= usize::MAX,
        g.contains_key(s),
    ensures
        is_dfs_forest(g, dfs_result(g, Some(s))),
        forall|v: usize| dfs_result(g, Some(s)).contains_key(v) <==> reachable(g, s, v),
        dfs_result(g, Some(s))[s].parent is None,
        dfs_result(g, Some(s))[s].discovered == 0,
        forall|v: usize|
            dfs_result(g, Some(s)).contains_key(v) && v != s ==> (
            #[trigger] dfs_result(g, Some(s))[v]).parent is Some,
{
    let a = Search::start();
    let b = dfs_visit(g, a, s, None);
    let m = b.nodes;
    lemma_start_searchable(g);
    lemma_dfs_visit(g, a, s, None);
    lemma_dfs_visit_links(g, a, s, None);
    lemma_whole_search(g, b);
    assert forall|v: usize| m.contains_key(v) implies reachable(g, s, v) by {
        assert(fresh(a, b, v));
    }
    assert forall|v: usize| reachable(g, s, v) implies m.contains_key(v) by {
        let w = choose|w: Seq<usize>| walk_between(g, w, s, v);
        assert(fresh(a, b, s));
        lemma_walk_stays(g, m.dom(), w);
    }
    assert forall|v: usize| m.contains_key(v) && v != s implies (#[trigger] m[v]).parent is Some by {
        assert(fresh(a, b, v));
    }
}

/// A depth-first search without a source discovers every vertex of the
/// graph. The intervals of any two vertices nest or lie apart, and every
/// vertex but the roots has as parent a neighbour whose interval encloses
/// its own.
pub proof fn lemma_dfs_whole(g: Map<usize, Seq<usize>>)
    requires
        g.dom().finite(),
        closed(g),
        2 * g.dom().len() <= usize::MAX,
    ensures
        is_dfs_forest(g, dfs_result(g, None)),
        dfs_result(g, None).dom() == g.dom(),
{
    let a = Search::start();
    let order = ascending(g.dom());
    let b = dfs_forest(g, a, order, 0);
    lemma_ascending_exists(g.dom());
    lemma_start_searchable(g);
    assert forall|j: int| 0 <= j < order.len() implies g.contains_key(#[trigger] order[j]) by {
        assert(order.contains(order[j]));
    }
    lemma_dfs_forest(g, a, order, 0);
    lemma_whole_search(g, b);
    assert forall|v: usize| g.contains_key(v) implies b.nodes.contains_key(v) by {
        assert(order.contains(v));
        let j = choose|j: int| 0 <= j < order.len() && order[j] == v;
        assert(b.nodes.contains_key(order[j]));
    }
    assert(b.nodes.dom() =~= g.dom());
}

} // verus!
