//! Undirected graphs stored as adjacency lists.

use std::collections::HashMap;
use std::collections::HashSet;
use vstd::prelude::*;
use vstd::std_specs::hash::spec_hash_keys_iter;
use vstd::std_specs::hash::spec_keys_iter;
use vstd::std_specs::iter::IteratorSpec;

use crate::adjacency::{
    degree_sum, edge_count, endpoints, has_edge, isolated, lemma_degree_sum_remove,
    lemma_with_edge, lemma_with_edges, lemma_with_edges_step, of_edges, reachable, touches, wf,
    with_edge, with_edges,
};
use crate::components::{
    class, class_upto, classes_upto, component_forest, components_of, forest_upto, holds,
    lemma_components, lemma_place,
};
use crate::error::GraphError;
use crate::sorted::{ascending, increasing, lemma_ascending, lists, position, sort_distinct};

pub use crate::disjoint_set::DisjointSet;

verus! {

broadcast use vstd::std_specs::hash::group_hash_axioms;

/// An undirected graph: for each vertex the list of its neighbours, in the
/// order in which the edges were added.
pub struct Graph {
    pub adj_list: HashMap<usize, Vec<usize>>,
}

impl View for Graph {
    type V = Map<usize, Seq<usize>>;

    open spec fn view(&self) -> Map<usize, Seq<usize>> {
        Map::new(|u: usize| self.adj_list@.contains_key(u), |u: usize| self.adj_list@[u]@)
    }
}

/// The contents of a vector of vectors.
pub open spec fn views(r: Seq<Vec<usize>>) -> Seq<Seq<usize>> {
    Seq::new(r.len(), |i: int| r[i]@)
}

/// Tells whether `x` occurs in `list`.
fn occurs(list: &Vec<usize>, x: usize) -> (r: bool)
    ensures
        r == list@.contains(x),
{
    let mut i: usize = 0;
    while i < list.len()
        invariant
            i <= list@.len(),
            forall|j: int| 0 <= j < i ==> list@[j] != x,
        decreases list@.len() - i,
    {
        if list[i] == x {
            return true;
        }
        i += 1;
    }
    false
}

impl Graph {
    /// Every neighbour is a vertex, and every edge is stored on both ends.
    pub open spec fn wf(&self) -> bool {
        wf(self@)
    }

    /// The vertices in increasing order.
    pub open spec fn nodes(&self) -> Seq<usize> {
        ascending(self@.dom())
    }

    /// The vertices are the keys of the adjacency lists, and there are
    /// finitely many of them.
    pub proof fn lemma_view(&self)
        ensures
            self@.dom() == self.adj_list@.dom(),
            self@.dom().finite(),
            self@.dom().len() == self.adj_list@.len(),
    {
        assert(self@.dom() =~= self.adj_list@.dom());
    }

    /// Tells whether the graph keeps its invariant, which holds of every
    /// graph that was made by `new`, `add_edge` and `from_edge_list`, and
    /// may fail where the adjacency lists were written by hand.
    pub fn is_wf(&self) -> (ok: bool)
        ensures
            ok == self.wf(),
    {
        let ghost g = self@;
        proof {
            self.lemma_view();
        }
        for u in it: self.adj_list.keys()
            invariant
                g == self@,
                g.dom().finite(),
                it.seq() == spec_keys_iter(&self.adj_list).remaining(),
                forall|j: int, v: usize|
                    0 <= j < it.index() && #[trigger] has_edge(g, *it.seq()[j], v)
                        ==> g.contains_key(v) && has_edge(g, v, *it.seq()[j]),
        {
            let ghost at = it.index();
            proof {
                let s = spec_keys_iter(&self.adj_list).remaining();
                assert(s.unref()[at] == *s[at]);
                assert(s.unref().to_set().contains(*u));
                assert(g.contains_key(*u));
            }
            let neighbours = self.adj_list.get(u).unwrap();
            let mut k: usize = 0;
            while k < neighbours.len()
                invariant
                    g == self@,
                    g.contains_key(*u),
                    neighbours@ == g[*u],
                    k <= neighbours@.len(),
                    forall|c: int|
                        0 <= c < k ==> g.contains_key(#[trigger] neighbours@[c]) && has_edge(
                            g,
                            neighbours@[c],
                            *u,
                        ),
                decreases neighbours@.len() - k,
            {
                let v = neighbours[k];
                proof {
                    assert(g[*u][k as int] == v);
                    assert(has_edge(g, *u, v));
                }
                match self.adj_list.get(&v) {
                    None => {
                        return false;
                    },
                    Some(back) => {
                        if !occurs(back, *u) {
                            proof {
                                assert(!has_edge(g, v, *u));
                            }
                            return false;
                        }
                    },
                }
                k += 1;
            }
            proof {
                assert forall|v: usize| #[trigger] has_edge(g, *u, v) implies g.contains_key(v)
                    && has_edge(g, v, *u) by {
                    let c = choose|c: int| 0 <= c < g[*u].len() && g[*u][c] == v;
                    assert(neighbours@[c] == v);
                }
            }
        }
        proof {
            let s = spec_keys_iter(&self.adj_list).remaining();
            assert forall|u: usize, v: usize| #[trigger] has_edge(g, u, v) implies g.contains_key(
                v,
            ) && has_edge(g, v, u) by {
                assert(s.unref().to_set().contains(u));
                let j = choose|j: int| 0 <= j < s.unref().len() && s.unref()[j] == u;
                assert(*s[j] == u);
                assert(has_edge(g, *s[j], v));
            }
        }
        true
    }

    /// Creates the graph on the given vertices that has no edge.
    pub fn new(vertices: HashSet<usize>) -> (g: Self)
        ensures
            g@ == isolated(vertices@),
            g.wf(),
    {
        let mut adj_list: HashMap<usize, Vec<usize>> = HashMap::new();
        for vertex in it: vertices.iter()
            invariant
                it.seq() == spec_hash_keys_iter(&vertices).remaining(),
                forall|u: usize|
                    adj_list@.contains_key(u) <==> exists|j: int|
                        0 <= j < it.index() && *#[trigger] it.seq()[j] == u,
                forall|u: usize| adj_list@.contains_key(u) ==> (#[trigger] adj_list@[u])@.len() == 0,
        {
            let ghost before = adj_list@;
            let ghost at = it.index();
            adj_list.insert(*vertex, Vec::new());
            proof {
                assert forall|u: usize| adj_list@.contains_key(u) implies exists|j: int|
                    0 <= j < at + 1 && *#[trigger] it.seq()[j] == u by {
                    if u == *vertex {
                        assert(*it.seq()[at] == u);
                    } else {
                        let j = choose|j: int| 0 <= j < at && *#[trigger] it.seq()[j] == u;
                        assert(*it.seq()[j] == u);
                    }
                }
            }
        }
        let g = Graph { adj_list };
        proof {
            let s = spec_hash_keys_iter(&vertices).remaining();
            assert forall|u: usize| g.adj_list@.contains_key(u) <==> vertices@.contains(u) by {
                if g.adj_list@.contains_key(u) {
                    let j = choose|j: int| 0 <= j < s.len() && *#[trigger] s[j] == u;
                    assert(s.unref()[j] == u);
                    assert(s.unref().to_set().contains(u));
                }
                if vertices@.contains(u) {
                    assert(s.unref().to_set().contains(u));
                    let j = choose|j: int| 0 <= j < s.unref().len() && s.unref()[j] == u;
                    assert(*s[j] == u);
                }
            }
            assert forall|u: usize| g@.contains_key(u) implies #[trigger] g@[u]
                == Seq::<usize>::empty() by {
                assert(g.adj_list@[u]@ =~= Seq::<usize>::empty());
            }
            assert(g@ =~= isolated(vertices@));
            g.lemma_view();
            assert(vertices@ =~= g@.dom());
            lemma_with_edges(vertices@, Seq::empty());
            assert(g@ =~= with_edges(vertices@, Seq::empty()));
        }
        g
    }

    /// Adds an undirected edge between two vertices of the graph: `dest`
    /// becomes the last neighbour of `src`, then `src` the last neighbour of
    /// `dest`. An end that is not a vertex is refused, and the graph stays
    /// as it was.
    pub fn add_edge(&mut self, src: usize, dest: usize) -> (r: Result<(), GraphError>)
        ensures
            r is Ok <==> old(self)@.contains_key(src) && old(self)@.contains_key(dest),
            r is Ok ==> final(self)@ == with_edge(old(self)@, src, dest),
            r is Err ==> r == Err::<(), GraphError>(GraphError::InvalidNode) && *final(self) == *old(
                self,
            ),
            old(self).wf() ==> final(self).wf(),
    {
        if !self.adj_list.contains_key(&src) || !self.adj_list.contains_key(&dest) {
            return Err(GraphError::InvalidNode);
        }
        let ghost g0 = self@;
        let mut from_src = self.adj_list.remove(&src).unwrap();
        from_src.push(dest);
        self.adj_list.insert(src, from_src);
        let ghost g1 = self@;
        proof {
            assert(g1 =~= g0.insert(src, g0[src].push(dest)));
        }
        let mut from_dest = self.adj_list.remove(&dest).unwrap();
        from_dest.push(src);
        self.adj_list.insert(dest, from_dest);
        proof {
            assert(self@ =~= g1.insert(dest, g1[dest].push(src)));
            lemma_with_edge(g0, src, dest);
        }
        Ok(())
    }

    /// Returns the vertices of the graph in increasing order.
    pub fn get_nodes(&self) -> (nodes: Vec<usize>)
        ensures
            nodes@ == self.nodes(),
            lists(nodes@, self@.dom()),
            nodes@.len() == self@.dom().len(),
    {
        let mut keys: Vec<usize> = Vec::new();
        for k in it: self.adj_list.keys()
            invariant
                keys@.len() == it.index(),
                it.seq() == spec_keys_iter(&self.adj_list).remaining(),
                forall|j: int| 0 <= j < keys@.len() ==> keys@[j] == *it.seq()[j],
        {
            keys.push(*k);
        }
        proof {
            let s = spec_keys_iter(&self.adj_list).remaining();
            assert(keys@ =~= s.unref());
            assert(keys@.no_duplicates());
            self.lemma_view();
        }
        sort_distinct(&keys)
    }

    /// Returns the number of vertices.
    pub fn num_v(&self) -> (n: usize)
        ensures
            n == self@.dom().len(),
    {
        proof {
            self.lemma_view();
        }
        self.adj_list.len()
    }

    /// Returns the number of undirected edges: half the sum of the lengths
    /// of all neighbour lists. A loop counts once.
    pub fn num_e(&self) -> (n: usize)
        requires
            edge_count(self@) <= usize::MAX,
        ensures
            n == edge_count(self@),
    {
        let mut total: u128 = 0;
        let ghost mut rest = self@;
        proof {
            self.lemma_view();
            let s = spec_keys_iter(&self.adj_list).remaining();
            assert forall|j: int| 0 <= j < s.len() implies rest.contains_key(*#[trigger] s[j]) by {
                assert(s.unref()[j] == *s[j]);
                assert(s.unref().to_set().contains(*s[j]));
            }
        }
        for k in it: self.adj_list.keys()
            invariant
                it.seq() == spec_keys_iter(&self.adj_list).remaining(),
                self@.dom().finite(),
                rest.dom().finite(),
                rest.dom().len() == it.seq().len() - it.index(),
                forall|u: usize| #[trigger]
                    rest.contains_key(u) ==> self@.contains_key(u) && rest[u] == self@[u],
                forall|j: int|
                    it.index() <= j < it.seq().len() ==> rest.contains_key(*#[trigger] it.seq()[j]),
                total + degree_sum(rest) == degree_sum(self@),
                degree_sum(self@) <= 2 * usize::MAX + 1,
        {
            proof {
                let s = spec_keys_iter(&self.adj_list).remaining();
                assert(rest.contains_key(*s[it.index()]));
                lemma_degree_sum_remove(rest, *k);
                assert forall|j: int| it.index() + 1 <= j < s.len() implies rest.remove(
                    *k,
                ).contains_key(*#[trigger] s[j]) by {
                    assert(s[j] != s[it.index()]);
                }
            }
            let neighbours = self.adj_list.get(k).unwrap();
            total = total + neighbours.len() as u128;
            proof {
                rest = rest.remove(*k);
            }
        }
        proof {
            assert(rest.dom().len() == 0);
            assert(degree_sum(rest) == 0);
        }
        (total / 2) as usize
    }

    /// Builds the graph that an edge list describes: its vertices are the
    /// ends of the edges, and the edges are added in the order of the list.
    /// Loops and repeated edges are kept as they are.
    pub fn from_edge_list(adj_list: Vec<(usize, usize)>) -> (g: Self)
        ensures
            g@ == of_edges(adj_list@),
            g.wf(),
            degree_sum(g@) == 2 * adj_list@.len(),
            edge_count(g@) == adj_list@.len(),
    {
        let mut nodes: HashSet<usize> = HashSet::new();
        let mut i: usize = 0;
        while i < adj_list.len()
            invariant
                i <= adj_list@.len(),
                nodes@ == endpoints(adj_list@.take(i as int)),
            decreases adj_list@.len() - i,
        {
            let (src, dest) = adj_list[i];
            nodes.insert(src);
            nodes.insert(dest);
            proof {
                let before = adj_list@.take(i as int);
                let now = adj_list@.take(i + 1);
                assert forall|u: usize| nodes@.contains(u) <==> endpoints(now).contains(u) by {
                    if endpoints(before).contains(u) {
                        let j = choose|j: int| 0 <= j < before.len() && #[trigger] touches(before[j], u);
                        assert(touches(now[j], u));
                    }
                    if u == src || u == dest {
                        assert(touches(now[i as int], u));
                    }
                    if endpoints(now).contains(u) {
                        let j = choose|j: int| 0 <= j < now.len() && #[trigger] touches(now[j], u);
                        if j < i {
                            assert(touches(before[j], u));
                        }
                    }
                }
                assert(nodes@ =~= endpoints(now));
            }
            i += 1;
        }
        proof {
            assert(adj_list@.take(adj_list@.len() as int) =~= adj_list@);
        }
        let ghost vs = nodes@;
        let mut graph = Graph::new(nodes);
        proof {
            assert(graph@ =~= with_edges(vs, adj_list@.take(0)));
            graph.lemma_view();
            assert(vs =~= graph@.dom());
        }
        let mut i: usize = 0;
        while i < adj_list.len()
            invariant
                i <= adj_list@.len(),
                vs == endpoints(adj_list@),
                vs.finite(),
                graph@ == with_edges(vs, adj_list@.take(i as int)),
            decreases adj_list@.len() - i,
        {
            let (src, dest) = adj_list[i];
            proof {
                assert(touches(adj_list@[i as int], src) && touches(adj_list@[i as int], dest));
                assert(vs.contains(src) && vs.contains(dest));
                let now = adj_list@.take(i + 1);
                assert(now.drop_last() =~= adj_list@.take(i as int));
                assert(now.last() == adj_list@[i as int]);
                lemma_with_edges_step(vs, now);
            }
            let _ = graph.add_edge(src, dest);
            i += 1;
        }
        proof {
            assert(adj_list@.take(adj_list@.len() as int) =~= adj_list@);
            lemma_with_edges(vs, adj_list@);
        }
        graph
    }

    /// Returns the connected components of the graph.
    ///
    /// The vertices are numbered in increasing order, and the two ends of
    /// every edge are merged in a disjoint-set forest over those numbers.
    /// A component lists, in increasing order, the vertices with one
    /// representative; the components stand in the order of the
    /// representatives' numbers.
    pub fn connected_components(&self) -> (r: Vec<Vec<usize>>)
        requires
            self.wf(),
        ensures
            views(r@) == components_of(self@),
            forall|c: int| 0 <= c < r@.len() ==> (#[trigger] r@[c])@.len() > 0 && increasing(r@[c]@),
            forall|c: int, k: int, v: usize| #[trigger]
                holds(views(r@), c, k, v) ==> self@.contains_key(v),
            forall|v: usize|
                self@.contains_key(v) ==> exists|c: int, k: int| #[trigger] holds(views(r@), c, k, v),
            forall|c1: int, k1: int, v1: usize, c2: int, k2: int, v2: usize|
                #![trigger holds(views(r@), c1, k1, v1), holds(views(r@), c2, k2, v2)]
                holds(views(r@), c1, k1, v1) && holds(views(r@), c2, k2, v2) ==> (c1 == c2
                    <==> reachable(self@, v1, v2)),
    {
        let ghost g = self@;
        let nodes = self.get_nodes();
        let n = nodes.len();
        let mut disjoint_set = DisjointSet::new(n);
        proof {
            self.lemma_view();
            assert forall|j: int| 0 <= j < n implies g.contains_key(#[trigger] nodes@[j]) by {
                assert(nodes@.contains(nodes@[j]));
            }
        }
        let mut i: usize = 0;
        while i < n
            invariant
                g == self@,
                wf(g),
                n == nodes@.len(),
                i <= n,
                lists(nodes@, g.dom()),
                forall|j: int| 0 <= j < n ==> g.contains_key(#[trigger] nodes@[j]),
                disjoint_set@ == forest_upto(g, nodes@, i as int, 0),
                disjoint_set@.wf(),
                disjoint_set@.len() == n,
            decreases n - i,
        {
            let node = nodes[i];
            let neighbours = self.adj_list.get(&node).unwrap();
            let mut k: usize = 0;
            while k < neighbours.len()
                invariant
                    g == self@,
                    wf(g),
                    n == nodes@.len(),
                    i < n,
                    node == nodes@[i as int],
                    neighbours@ == g[node],
                    k <= neighbours@.len(),
                    lists(nodes@, g.dom()),
                    disjoint_set@ == forest_upto(g, nodes@, i as int, k as int),
                    disjoint_set@.wf(),
                    disjoint_set@.len() == n,
                decreases neighbours@.len() - k,
            {
                let neighbour = neighbours[k];
                proof {
                    assert(g[node][k as int] == neighbour);
                    assert(has_edge(g, node, neighbour));
                    lemma_place(nodes@, g.dom(), neighbour);
                }
                let j = position(&nodes, neighbour).unwrap();
                disjoint_set.union(i, j);
                k += 1;
            }
            i += 1;
        }
        let ghost f = disjoint_set@;
        proof {
            lemma_ascending(nodes@, g.dom());
            assert(f == component_forest(g));
        }
        let mut components: Vec<Vec<usize>> = Vec::new();
        let mut i: usize = 0;
        while i < n
            invariant
                i <= n,
                components@.len() == i,
                forall|rep: int| 0 <= rep < i ==> (#[trigger] components@[rep])@ == class_upto(nodes@, f, rep, 0),
            decreases n - i,
        {
            components.push(Vec::new());
            i += 1;
        }
        let mut i: usize = 0;
        while i < n
            invariant
                n == nodes@.len(),
                i <= n,
                components@.len() == n,
                f.wf(),
                f.len() == n,
                disjoint_set@.wf(),
                disjoint_set@.len() == n,
                forall|y: int| 0 <= y < n ==> #[trigger] disjoint_set@.root(y) == f.root(y),
                forall|rep: int|
                    0 <= rep < n ==> (#[trigger] components@[rep])@ == class_upto(
                        nodes@,
                        f,
                        rep,
                        i as int,
                    ),
            decreases n - i,
        {
            let ghost before = components@;
            let root = disjoint_set.find(i);
            proof {
                f.lemma_root(i as int);
            }
            components[root].push(nodes[i]);
            proof {
                assert forall|rep: int| 0 <= rep < n implies (#[trigger] components@[rep])@
                    == class_upto(nodes@, f, rep, i + 1) by {
                    if rep != root {
                        assert(components@[rep] == before[rep]);
                    }
                }
            }
            i += 1;
        }
        let ghost groups = components@;
        let mut result: Vec<Vec<usize>> = Vec::new();
        for c in it: components
            invariant
                n == nodes@.len(),
                it.seq() == groups,
                groups.len() == n,
                forall|rep: int| 0 <= rep < n ==> (#[trigger] groups[rep])@ == class(nodes@, f, rep),
                views(result@) == classes_upto(nodes@, f, it.index()),
        {
            let ghost before = result@;
            if c.len() > 0 {
                result.push(c);
                proof {
                    assert(views(result@) =~= views(before).push(c@));
                }
            }
        }
        proof {
            lemma_components(g);
            assert forall|c: int| 0 <= c < result@.len() implies (#[trigger] result@[c])@.len() > 0
                && increasing(result@[c]@) by {
                assert(views(result@)[c] == result@[c]@);
            }
        }
        result
    }
}

} // verus!
