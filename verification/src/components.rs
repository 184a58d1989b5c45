//! Connected components: the forest that arises when the two ends of every
//! edge are merged, and the vertices grouped by their representative.

use vstd::prelude::*;

use crate::adjacency::{
    has_edge, lemma_reachable_self, lemma_reachable_step, lemma_reachable_trans,
    lemma_walk_stays, reachable, walk_between, wf,
};
use crate::disjoint_set::Forest;
use crate::sorted::{
    ascending, increasing, lemma_ascending_exists, lemma_push_contains, lists,
};

verus! {

/// The index of the vertex `v` in the list `nodes`.
pub open spec fn place(nodes: Seq<usize>, v: usize) -> int {
    choose|j: int| 0 <= j < nodes.len() && nodes[j] == v
}

/// The slot `(j, c)` comes before the slot `(i, k)`: an earlier vertex, or
/// the same vertex and an earlier neighbour.
pub open spec fn earlier(j: int, c: int, i: int, k: int) -> bool {
    j < i || (j == i && c < k)
}

/// The forest over the indices of `nodes` after the two ends of every edge
/// before the slot `(i, k)` were merged: the vertices are taken in the
/// order of `nodes`, the neighbours of each in the order of its list, and
/// the vertex is merged with the neighbour.
pub open spec fn forest_upto(g: Map<usize, Seq<usize>>, nodes: Seq<usize>, i: int, k: int) -> Forest
    decreases i, k,
{
    if i < 0 || k < 0 {
        Forest::fresh(nodes.len())
    } else if k > 0 {
        forest_upto(g, nodes, i, k - 1).union(i, place(nodes, g[nodes[i]][k - 1]))
    } else if i > 0 {
        forest_upto(g, nodes, i - 1, g[nodes[i - 1]].len() as int)
    } else {
        Forest::fresh(nodes.len())
    }
}

/// The forest over the indices of the vertices, taken in increasing order,
/// after the two ends of every edge were merged.
pub open spec fn component_forest(g: Map<usize, Seq<usize>>) -> Forest {
    forest_upto(g, ascending(g.dom()), g.dom().len() as int, 0)
}

/// The vertices among the first `i` of `nodes` whose representative in `f`
/// is `rep`, in the order of `nodes`.
pub open spec fn class_upto(nodes: Seq<usize>, f: Forest, rep: int, i: int) -> Seq<usize>
    decreases i,
{
    if i <= 0 {
        Seq::empty()
    } else if f.root(i - 1) == rep {
        class_upto(nodes, f, rep, i - 1).push(nodes[i - 1])
    } else {
        class_upto(nodes, f, rep, i - 1)
    }
}

/// The vertices whose representative in `f` is `rep`.
pub open spec fn class(nodes: Seq<usize>, f: Forest, rep: int) -> Seq<usize> {
    class_upto(nodes, f, rep, nodes.len() as int)
}

/// The indices below `m` that represent a vertex, in increasing order.
pub open spec fn reps_upto(nodes: Seq<usize>, f: Forest, m: int) -> Seq<int>
    decreases m,
{
    if m <= 0 {
        Seq::empty()
    } else if class(nodes, f, m - 1).len() > 0 {
        reps_upto(nodes, f, m - 1).push(m - 1)
    } else {
        reps_upto(nodes, f, m - 1)
    }
}

/// The classes of the indices below `m` that are not empty, in the order
/// of the indices.
pub open spec fn classes_upto(nodes: Seq<usize>, f: Forest, m: int) -> Seq<Seq<usize>>
    decreases m,
{
    if m <= 0 {
        Seq::empty()
    } else if class(nodes, f, m - 1).len() > 0 {
        classes_upto(nodes, f, m - 1).push(class(nodes, f, m - 1))
    } else {
        classes_upto(nodes, f, m - 1)
    }
}

/// The connected components of `g`: the vertices grouped by their
/// representative in the component forest. The groups stand in the order
/// of the representatives' indices, the vertices of a group in increasing
/// order.
pub open spec fn components_of(g: Map<usize, Seq<usize>>) -> Seq<Seq<usize>> {
    classes_upto(ascending(g.dom()), component_forest(g), g.dom().len() as int)
}

/// A listing of the vertices gives each vertex one index.
pub proof fn lemma_place(nodes: Seq<usize>, set: Set<usize>, v: usize)
    requires
        lists(nodes, set),
        set.contains(v),
    ensures
        0 <= place(nodes, v) < nodes.len(),
        nodes[place(nodes, v)] == v,
        forall|j: int| 0 <= j < nodes.len() && nodes[j] == v ==> j == place(nodes, v),
{
    assert(nodes.contains(v));
    let p = place(nodes, v);
    assert forall|j: int| 0 <= j < nodes.len() && nodes[j] == v implies j == p by {
        if j < p {
            assert(nodes[j] < nodes[p]);
        }
        if p < j {
            assert(nodes[p] < nodes[j]);
        }
    }
}

/// After the ends of the edges before a slot were merged, two vertices
/// share a set only if one can be reached from the other, and the two ends
/// of each such edge share a set.
pub proof fn lemma_forest_upto(g: Map<usize, Seq<usize>>, nodes: Seq<usize>, i: int, k: int)
    requires
        wf(g),
        lists(nodes, g.dom()),
        nodes.len() <= usize::MAX,
        0 <= i <= nodes.len(),
        0 <= k,
        i < nodes.len() ==> k <= g[nodes[i]].len(),
        i == nodes.len() ==> k == 0,
    ensures
        forest_upto(g, nodes, i, k).wf(),
        forest_upto(g, nodes, i, k).len() == nodes.len(),
        forall|a: int, b: int|
            0 <= a < nodes.len() && 0 <= b < nodes.len() && #[trigger] forest_upto(
                g,
                nodes,
                i,
                k,
            ).same_set(a, b) ==> reachable(g, nodes[a], nodes[b]),
        forall|j: int, c: int|
            0 <= j < nodes.len() && 0 <= c < g[nodes[j]].len() && #[trigger] earlier(j, c, i, k)
                ==> forest_upto(g, nodes, i, k).same_set(j, place(nodes, g[nodes[j]][c])),
    decreases i, k,
{
    let n = nodes.len() as int;
    let f = forest_upto(g, nodes, i, k);
    assert forall|j: int| 0 <= j < n implies g.contains_key(#[trigger] nodes[j]) by {
        assert(nodes.contains(nodes[j]));
    }
    if k > 0 {
        let f0 = forest_upto(g, nodes, i, k - 1);
        lemma_forest_upto(g, nodes, i, k - 1);
        let u = nodes[i];
        let v = g[u][k - 1];
        assert(has_edge(g, u, v));
        assert(has_edge(g, v, u));
        lemma_place(nodes, g.dom(), v);
        let y = place(nodes, v);
        f0.lemma_union(i, y);
        f0.lemma_root(i);
        f0.lemma_root(y);
        lemma_reachable_self(g, u);
        lemma_reachable_step(g, u, u, v);
        lemma_reachable_self(g, v);
        lemma_reachable_step(g, v, v, u);
        assert forall|a: int, b: int|
            0 <= a < n && 0 <= b < n && #[trigger] f.same_set(a, b) implies reachable(
            g,
            nodes[a],
            nodes[b],
        ) by {
            if f0.same_set(a, b) {
            } else if f0.same_set(a, i) && f0.same_set(y, b) {
                lemma_reachable_trans(g, nodes[a], u, v);
                lemma_reachable_trans(g, nodes[a], v, nodes[b]);
            } else {
                assert(f0.same_set(a, y) && f0.same_set(i, b));
                lemma_reachable_trans(g, nodes[a], v, u);
                lemma_reachable_trans(g, nodes[a], u, nodes[b]);
            }
        }
        assert forall|j: int, c: int|
            0 <= j < n && 0 <= c < g[nodes[j]].len() && #[trigger] earlier(
                j,
                c,
                i,
                k,
            ) implies f.same_set(j, place(nodes, g[nodes[j]][c])) by {
            let t = g[nodes[j]][c];
            assert(has_edge(g, nodes[j], t));
            lemma_place(nodes, g.dom(), t);
            if earlier(j, c, i, k - 1) {
                assert(f0.same_set(j, place(nodes, t)));
            } else {
                assert(j == i && c == k - 1);
                assert(f0.same_set(i, i) && f0.same_set(y, y));
            }
        }
    } else if i > 0 {
        lemma_forest_upto(g, nodes, i - 1, g[nodes[i - 1]].len() as int);
        assert forall|j: int, c: int|
            0 <= j < n && 0 <= c < g[nodes[j]].len() && #[trigger] earlier(
                j,
                c,
                i,
                k,
            ) implies f.same_set(j, place(nodes, g[nodes[j]][c])) by {
            assert(earlier(j, c, i - 1, g[nodes[i - 1]].len() as int));
        }
    } else {
        Forest::lemma_fresh(nodes.len());
        assert forall|a: int, b: int|
            0 <= a < n && 0 <= b < n && #[trigger] f.same_set(a, b) implies reachable(
            g,
            nodes[a],
            nodes[b],
        ) by {
            assert(f.root(a) == a && f.root(b) == b);
            lemma_reachable_self(g, nodes[a]);
        }
    }
}

/// After the two ends of every edge of a graph were merged, two vertices
/// share a set exactly if one can be reached from the other.
pub proof fn lemma_component_forest(g: Map<usize, Seq<usize>>, nodes: Seq<usize>)
    requires
        wf(g),
        lists(nodes, g.dom()),
        nodes.len() <= usize::MAX,
    ensures
        forest_upto(g, nodes, nodes.len() as int, 0).wf(),
        forest_upto(g, nodes, nodes.len() as int, 0).len() == nodes.len(),
        forall|a: int, b: int|
            0 <= a < nodes.len() && 0 <= b < nodes.len() ==> (#[trigger] forest_upto(
                g,
                nodes,
                nodes.len() as int,
                0,
            ).same_set(a, b) <==> reachable(g, nodes[a], nodes[b])),
{
    let n = nodes.len() as int;
    let f = forest_upto(g, nodes, n, 0);
    lemma_forest_upto(g, nodes, n, 0);
    assert forall|a: int, b: int|
        0 <= a < n && 0 <= b < n && reachable(g, nodes[a], nodes[b]) implies #[trigger] f.same_set(
        a,
        b,
    ) by {
        let w = choose|w: Seq<usize>| walk_between(g, w, nodes[a], nodes[b]);
        let mates = Set::new(
            |v: usize| g.contains_key(v) && f.root(place(nodes, v)) == f.root(a),
        );
        assert(nodes.contains(nodes[a]));
        lemma_place(nodes, g.dom(), nodes[a]);
        assert forall|u: usize, v: usize| mates.contains(u) && #[trigger] has_edge(
            g,
            u,
            v,
        ) implies mates.contains(v) by {
            lemma_place(nodes, g.dom(), u);
            lemma_place(nodes, g.dom(), v);
            let j = place(nodes, u);
            let c = choose|c: int| 0 <= c < g[u].len() && g[u][c] == v;
            assert(earlier(j, c, n, 0));
            assert(f.same_set(j, place(nodes, g[nodes[j]][c])));
        }
        lemma_walk_stays(g, mates, w);
        assert(nodes.contains(nodes[b]));
        lemma_place(nodes, g.dom(), nodes[b]);
    }
}

/// After the two ends of every edge of a graph were merged, two vertices
/// have the same representative exactly if they lie in one connected
/// component: if one can be reached from the other.
pub proof fn lemma_same_component(g: Map<usize, Seq<usize>>, u: usize, v: usize)
    requires
        wf(g),
        g.dom().len() <= usize::MAX,
        g.contains_key(u),
        g.contains_key(v),
    ensures
        component_forest(g).wf(),
        component_forest(g).same_set(
            place(ascending(g.dom()), u),
            place(ascending(g.dom()), v),
        ) <==> reachable(g, u, v),
{
    let nodes = ascending(g.dom());
    lemma_ascending_exists(g.dom());
    lemma_component_forest(g, nodes);
    lemma_place(nodes, g.dom(), u);
    lemma_place(nodes, g.dom(), v);
    let a = place(nodes, u);
    let b = place(nodes, v);
    assert(component_forest(g).same_set(a, b) <==> reachable(g, nodes[a], nodes[b]));
}

/// The vertex `v` stands at index `j` and has the representative `rep`.
pub open spec fn is_member(nodes: Seq<usize>, f: Forest, rep: int, j: int, v: usize) -> bool {
    nodes[j] == v && f.root(j) == rep
}

/// A class holds, in increasing order, exactly the vertices with its
/// representative.
pub proof fn lemma_class_upto(nodes: Seq<usize>, f: Forest, rep: int, i: int)
    requires
        increasing(nodes),
        0 <= i <= nodes.len(),
    ensures
        increasing(class_upto(nodes, f, rep, i)),
        forall|v: usize|
            class_upto(nodes, f, rep, i).contains(v) <==> exists|j: int|
                0 <= j < i && #[trigger] is_member(nodes, f, rep, j, v),
    decreases i,
{
    let c = class_upto(nodes, f, rep, i);
    if i > 0 {
        let c0 = class_upto(nodes, f, rep, i - 1);
        lemma_class_upto(nodes, f, rep, i - 1);
        let x = nodes[i - 1];
        if f.root(i - 1) == rep {
            assert forall|a: int, b: int| 0 <= a < b < c.len() implies c[a] < c[b] by {
                if b == c.len() - 1 {
                    assert(c0.contains(c0[a]));
                    let j = choose|j: int| 0 <= j < i - 1 && #[trigger] is_member(nodes, f, rep, j, c0[a]);
                    assert(nodes[j] < nodes[i - 1]);
                }
            }
            assert forall|v: usize| c.contains(v) <==> exists|j: int|
                0 <= j < i && #[trigger] is_member(nodes, f, rep, j, v) by {
                lemma_push_contains(c0, x, v);
                if c0.contains(v) {
                    let j = choose|j: int| 0 <= j < i - 1 && #[trigger] is_member(nodes, f, rep, j, v);
                    assert(is_member(nodes, f, rep, j, v));
                }
                if v == x {
                    assert(is_member(nodes, f, rep, i - 1, v));
                }
                if exists|j: int| 0 <= j < i && #[trigger] is_member(nodes, f, rep, j, v) {
                    let j = choose|j: int| 0 <= j < i && #[trigger] is_member(nodes, f, rep, j, v);
                    if j < i - 1 {
                        assert(is_member(nodes, f, rep, j, v));
                    }
                }
            }
        } else {
            assert forall|v: usize| c.contains(v) <==> exists|j: int|
                0 <= j < i && #[trigger] is_member(nodes, f, rep, j, v) by {
                if c0.contains(v) {
                    let j = choose|j: int| 0 <= j < i - 1 && #[trigger] is_member(nodes, f, rep, j, v);
                    assert(is_member(nodes, f, rep, j, v));
                }
                if exists|j: int| 0 <= j < i && #[trigger] is_member(nodes, f, rep, j, v) {
                    let j = choose|j: int| 0 <= j < i && #[trigger] is_member(nodes, f, rep, j, v);
                    assert(j < i - 1);
                    assert(is_member(nodes, f, rep, j, v));
                }
            }
        }
    } else {
        assert forall|v: usize| !c.contains(v) by {
            if c.contains(v) {
                let k = choose|k: int| 0 <= k < c.len() && c[k] == v;
            }
        }
    }
}

/// The classes that are not empty stand in the order of their
/// representatives, each once.
pub proof fn lemma_classes_upto(nodes: Seq<usize>, f: Forest, m: int)
    ensures
        classes_upto(nodes, f, m).len() == reps_upto(nodes, f, m).len(),
        forall|c: int|
            0 <= c < reps_upto(nodes, f, m).len() ==> {
                &&& 0 <= (#[trigger] reps_upto(nodes, f, m)[c]) < m
                &&& classes_upto(nodes, f, m)[c] == class(nodes, f, reps_upto(nodes, f, m)[c])
                &&& classes_upto(nodes, f, m)[c].len() > 0
            },
        forall|c1: int, c2: int|
            0 <= c1 < c2 < reps_upto(nodes, f, m).len() ==> reps_upto(nodes, f, m)[c1] < reps_upto(
                nodes,
                f,
                m,
            )[c2],
        forall|rep: int|
            0 <= rep < m && class(nodes, f, rep).len() > 0 ==> reps_upto(nodes, f, m).contains(rep),
    decreases m,
{
    let rs = reps_upto(nodes, f, m);
    if m > 0 {
        let rs0 = reps_upto(nodes, f, m - 1);
        lemma_classes_upto(nodes, f, m - 1);
        assert forall|rep: int| 0 <= rep < m && class(nodes, f, rep).len() > 0 implies rs.contains(
            rep,
        ) by {
            if rep < m - 1 {
                assert(rs0.contains(rep));
                let c = choose|c: int| 0 <= c < rs0.len() && rs0[c] == rep;
                assert(rs[c] == rep);
            } else {
                assert(rs[rs.len() - 1] == rep);
            }
        }
    }
}

/// The vertex `v` stands at position `k` of the component `c`.
pub open spec fn holds(cs: Seq<Seq<usize>>, c: int, k: int, v: usize) -> bool {
    0 <= c < cs.len() && 0 <= k < cs[c].len() && cs[c][k] == v
}

/// The connected components divide the vertices: no component is empty,
/// every vertex stands in a component, and two vertices stand in the
/// same component exactly if one can be reached from the other.
pub proof fn lemma_components(g: Map<usize, Seq<usize>>)
    requires
        wf(g),
        g.dom().len() <= usize::MAX,
    ensures
        forall|c: int|
            0 <= c < components_of(g).len() ==> (#[trigger] components_of(g)[c]).len() > 0
                && increasing(components_of(g)[c]),
        forall|c: int, k: int, v: usize| #[trigger]
            holds(components_of(g), c, k, v) ==> g.contains_key(v),
        forall|v: usize|
            g.contains_key(v) ==> exists|c: int, k: int| #[trigger] holds(components_of(g), c, k, v),
        forall|c1: int, k1: int, v1: usize, c2: int, k2: int, v2: usize|
            #![trigger holds(components_of(g), c1, k1, v1), holds(components_of(g), c2, k2, v2)]
            holds(components_of(g), c1, k1, v1) && holds(components_of(g), c2, k2, v2) ==> (c1 == c2
                <==> reachable(g, v1, v2)),
{
    let nodes = ascending(g.dom());
    lemma_ascending_exists(g.dom());
    let n = nodes.len() as int;
    let f = component_forest(g);
    let cs = components_of(g);
    let rs = reps_upto(nodes, f, n);
    lemma_component_forest(g, nodes);
    lemma_classes_upto(nodes, f, n);
    assert forall|c: int| 0 <= c < cs.len() implies (#[trigger] cs[c]).len() > 0 && increasing(
        cs[c],
    ) by {
        assert(0 <= rs[c] < n);
        lemma_class_upto(nodes, f, rs[c], n);
    }
    assert forall|c: int, k: int, v: usize| #[trigger] holds(cs, c, k, v) implies {
        let j = place(nodes, v);
        &&& g.contains_key(v)
        &&& 0 <= j < n
        &&& nodes[j] == v
        &&& f.root(j) == rs[c]
    } by {
        assert(0 <= rs[c] < n);
        lemma_class_upto(nodes, f, rs[c], n);
        assert(cs[c].contains(v));
        let j = choose|j: int| 0 <= j < n && #[trigger] is_member(nodes, f, rs[c], j, v);
        assert(nodes.contains(nodes[j]));
        lemma_place(nodes, g.dom(), v);
    }
    assert forall|v: usize| g.contains_key(v) implies exists|c: int, k: int| #[trigger]
        holds(cs, c, k, v) by {
        lemma_place(nodes, g.dom(), v);
        let j = place(nodes, v);
        f.lemma_root(j);
        let rep = f.root(j);
        lemma_class_upto(nodes, f, rep, n);
        assert(is_member(nodes, f, rep, j, v));
        assert(class(nodes, f, rep).contains(v));
        let k = choose|k: int| 0 <= k < class(nodes, f, rep).len() && class(nodes, f, rep)[k] == v;
        assert(rs.contains(rep));
        let c = choose|c: int| 0 <= c < rs.len() && rs[c] == rep;
        assert(0 <= rs[c] < n);
        assert(holds(cs, c, k, v));
    }
    assert forall|c1: int, k1: int, v1: usize, c2: int, k2: int, v2: usize|
        #![trigger holds(cs, c1, k1, v1), holds(cs, c2, k2, v2)]
        holds(cs, c1, k1, v1) && holds(cs, c2, k2, v2) implies (c1 == c2 <==> reachable(
        g,
        v1,
        v2,
    )) by {
        let j1 = place(nodes, v1);
        let j2 = place(nodes, v2);
        assert(f.same_set(j1, j2) <==> reachable(g, nodes[j1], nodes[j2]));
        if c1 < c2 {
            assert(rs[c1] < rs[c2]);
        }
        if c2 < c1 {
            assert(rs[c2] < rs[c1]);
        }
    }
}

} // verus!
