//! Depth-first search with discovery and finishing times.

use std::collections::HashMap;
use vstd::prelude::*;

use crate::adjacency::{closed, has_edge, reachable};
use crate::algorithms::dfs_laws::{
    is_dfs_forest, lemma_dfs_tree, lemma_dfs_visit, lemma_dfs_whole, lemma_discover, searchable,
};
use crate::error::GraphError;
use crate::graph::Graph;
use crate::sorted::ascending;

verus! {

broadcast use vstd::std_specs::hash::group_hash_axioms;

/// What a depth-first search records for a vertex: its parent in the search
/// tree, which a root lacks, the time at which the vertex was discovered,
/// and the time at which all that lies below it was explored.
#[derive(Clone, Copy, Debug, PartialEq, Eq)]
pub struct DfsNode {
    pub parent: Option<usize>,
    pub discovered: usize,
    pub finished: usize,
}

/// The result of a depth-first search: the record of each vertex that was
/// discovered.
pub struct DfsTree {
    pub tree: HashMap<usize, DfsNode>,
}

impl View for DfsTree {
    type V = Map<usize, DfsNode>;

    open spec fn view(&self) -> Map<usize, DfsNode> {
        self.tree@
    }
}

/// A search under way: the records made so far, and the clock. A vertex
/// that is discovered and not yet finished has finishing time 0.
pub struct Search {
    pub nodes: Map<usize, DfsNode>,
    pub clock: nat,
}

impl Search {
    /// The search that has discovered nothing, at time 0.
    pub open spec fn start() -> Search {
        Search { nodes: Map::empty(), clock: 0 }
    }

    /// The vertex `u` is discovered from `parent`: it gets the time on the
    /// clock, which moves on.
    pub open spec fn discover(self, u: usize, parent: Option<usize>) -> Search {
        Search {
            nodes: self.nodes.insert(
                u,
                DfsNode { parent, discovered: self.clock as usize, finished: 0 },
            ),
            clock: self.clock + 1,
        }
    }

    /// The vertex `u` is finished: it gets the time on the clock, which
    /// moves on.
    pub open spec fn finish(self, u: usize) -> Search {
        Search {
            nodes: self.nodes.insert(
                u,
                DfsNode {
                    parent: self.nodes[u].parent,
                    discovered: self.nodes[u].discovered,
                    finished: self.clock as usize,
                },
            ),
            clock: self.clock + 1,
        }
    }
}

/// The number of vertices that the search has not discovered.
pub open spec fn unvisited(g: Map<usize, Seq<usize>>, st: Search) -> nat {
    g.dom().difference(st.nodes.dom()).len()
}

/// The search after the undiscovered vertex `u` was discovered from
/// `parent`, all that can be reached from it through undiscovered vertices
/// was explored, and `u` was finished.
pub open spec fn dfs_visit(
    g: Map<usize, Seq<usize>>,
    st: Search,
    u: usize,
    parent: Option<usize>,
) -> Search
    decreases unvisited(g, st), 0nat, 0nat,
    when g.dom().finite() && g.contains_key(u) && !st.nodes.contains_key(u)
{
    proof {
        assert(g.dom().difference(st.discover(u, parent).nodes.dom()) =~= g.dom().difference(
            st.nodes.dom(),
        ).remove(u));
    }
    dfs_each(g, st.discover(u, parent), u, 0).finish(u)
}

/// The search after the neighbours of `u` from position `i` on were
/// looked at in turn, and each that was undiscovered at its turn was
/// visited from `u`.
///
/// A visit never forgets a vertex; the test for that serves the proof of
/// termination alone.
pub open spec fn dfs_each(g: Map<usize, Seq<usize>>, st: Search, u: usize, i: int) -> Search
    decreases unvisited(g, st), 1nat, (if g.contains_key(u) && 0 <= i <= g[u].len() {
        g[u].len() - i
    } else {
        0
    }),
    when g.dom().finite() && 0 <= i
{
    if !g.contains_key(u) || i >= g[u].len() {
        st
    } else if st.nodes.contains_key(g[u][i]) {
        dfs_each(g, st, u, i + 1)
    } else {
        let after = dfs_visit(g, st, g[u][i], Some(u));
        if unvisited(g, after) <= unvisited(g, st) {
            dfs_each(g, after, u, i + 1)
        } else {
            after
        }
    }
}

/// The search after each vertex of `order` from position `i` on that was
/// undiscovered at its turn became the root of a tree.
pub open spec fn dfs_forest(g: Map<usize, Seq<usize>>, st: Search, order: Seq<usize>, i: int) -> Search
    decreases order.len() - i,
    when 0 <= i
{
    if i >= order.len() {
        st
    } else if st.nodes.contains_key(order[i]) {
        dfs_forest(g, st, order, i + 1)
    } else {
        dfs_forest(g, dfs_visit(g, st, order[i], None), order, i + 1)
    }
}

/// The records of a depth-first search of `g`: from `source` alone if one
/// is given, else from each vertex in increasing order.
pub open spec fn dfs_result(g: Map<usize, Seq<usize>>, source: Option<usize>) -> Map<usize, DfsNode> {
    match source {
        Some(s) => dfs_visit(g, Search::start(), s, None).nodes,
        None => dfs_forest(g, Search::start(), ascending(g.dom()), 0).nodes,
    }
}

/// The search that is left to do when `stack` holds the vertices that are
/// discovered and not finished, the last discovered on top, each with the
/// position of the neighbour at which its exploration goes on.
spec fn unwind(g: Map<usize, Seq<usize>>, st: Search, stack: Seq<(usize, usize)>) -> Search
    decreases stack.len(),
{
    if stack.len() == 0 {
        st
    } else {
        let (u, i) = stack.last();
        unwind(g, dfs_each(g, st, u, i as int).finish(u), stack.drop_last())
    }
}

/// The neighbours that the vertex on top of the stack has yet to show.
spec fn top_left(g: Map<usize, Seq<usize>>, stack: Seq<(usize, usize)>) -> int {
    if stack.len() > 0 && g.contains_key(stack.last().0) {
        g[stack.last().0].len() - stack.last().1
    } else {
        0
    }
}

impl DfsTree {
    /// The search that has made the records of this tree and reads
    /// `clock`.
    pub open spec fn at(&self, clock: usize) -> Search {
        Search { nodes: self@, clock: clock as nat }
    }

    /// Creates a tree without records.
    pub fn new() -> (t: Self)
        ensures
            t@ == Map::<usize, DfsNode>::empty(),
    {
        DfsTree { tree: HashMap::new() }
    }
}

/// Visits the undiscovered vertex `root` as the root of a new tree, and
/// returns the clock after the visit.
fn explore(graph: &Graph, root: usize, tree: &mut DfsTree, clock: usize) -> (next: usize)
    requires
        searchable(graph@, old(tree).at(clock)),
        graph@.contains_key(root),
        !old(tree)@.contains_key(root),
    ensures
        final(tree).at(next) == dfs_visit(graph@, old(tree).at(clock), root, None),
        searchable(graph@, final(tree).at(next)),
{
    let ghost g = graph@;
    let ghost st0 = tree.at(clock);
    let ghost goal = dfs_visit(g, st0, root, None);
    let mut clock = clock;
    let mut stack: Vec<(usize, usize)> = Vec::new();
    proof {
        lemma_discover(g, st0, root, None);
        graph.lemma_view();
    }
    tree.tree.insert(root, DfsNode { parent: None, discovered: clock, finished: 0 });
    clock += 1;
    stack.push((root, 0));
    proof {
        let st1 = st0.discover(root, None);
        assert(tree.at(clock) == st1);
        assert(stack@.drop_last() =~= Seq::<(usize, usize)>::empty());
        assert(unwind(g, dfs_each(g, st1, root, 0).finish(root), stack@.drop_last()) == goal);
    }
    while stack.len() > 0
        invariant
            g == graph@,
            g.dom().finite(),
            closed(g),
            forall|w: usize| tree@.contains_key(w) ==> g.contains_key(w),
            clock + stack@.len() + 2 * unvisited(g, tree.at(clock)) <= usize::MAX,
            forall|j: int|
                0 <= j < stack@.len() ==> g.contains_key((#[trigger] stack@[j]).0)
                    && tree@.contains_key(stack@[j].0) && stack@[j].1 <= g[stack@[j].0].len(),
            unwind(g, tree.at(clock), stack@) == goal,
        decreases 2 * unvisited(g, tree.at(clock)) + stack@.len(), top_left(g, stack@),
    {
        let ghost st = tree.at(clock);
        let ghost before = stack@;
        let top = stack.len() - 1;
        let (u, i) = stack[top];
        proof {
            assert(before.last() == (u, i));
            assert(searchable(g, st));
        }
        let neighbours = graph.adj_list.get(&u).unwrap();
        if i < neighbours.len() {
            let v = neighbours[i];
            stack[top] = (u, i + 1);
            proof {
                assert(g[u][i as int] == v);
                assert(has_edge(g, u, v));
                assert(stack@.drop_last() =~= before.drop_last());
            }
            if !tree.tree.contains_key(&v) {
                proof {
                    lemma_dfs_visit(g, st, v, Some(u));
                    lemma_discover(g, st, v, Some(u));
                }
                let ghost middle = stack@;
                tree.tree.insert(v, DfsNode { parent: Some(u), discovered: clock, finished: 0 });
                clock += 1;
                stack.push((v, 0));
                proof {
                    let st1 = st.discover(v, Some(u));
                    let after = dfs_visit(g, st, v, Some(u));
                    assert(tree.at(clock) == st1);
                    assert(stack@.drop_last() =~= middle);
                    assert(stack@.last() == (v, 0usize));
                    assert(after == dfs_each(g, st1, v, 0).finish(v));
                    assert(unwind(g, st1, stack@) == unwind(g, after, middle));
                    assert(middle.last() == (u, (i + 1) as usize));
                    assert(middle.drop_last() =~= before.drop_last());
                    assert(dfs_each(g, st, u, i as int) == dfs_each(g, after, u, i + 1));
                }
            } else {
                proof {
                    assert(dfs_each(g, st, u, i as int) == dfs_each(g, st, u, i + 1));
                }
            }
        } else {
            let node = *tree.tree.get(&u).unwrap();
            tree.tree.insert(
                u,
                DfsNode { parent: node.parent, discovered: node.discovered, finished: clock },
            );
            clock += 1;
            stack.pop();
            proof {
                assert(dfs_each(g, st, u, i as int) == st);
                assert(tree.at(clock) == st.finish(u));
                assert(stack@ =~= before.drop_last());
                assert(tree@.dom() =~= st.nodes.dom());
            }
        }
    }
    proof {
        lemma_dfs_visit(g, st0, root, None);
    }
    clock
}

/// Runs a depth-first search over `graph`.
///
/// With a source, the search explores what can be reached from it and
/// gives one tree. Without one, each vertex that is still undiscovered at
/// its turn, in increasing order, becomes the root of a further tree; the
/// clock runs on from tree to tree. The neighbours of a vertex are tried
/// in the order of its list. The clock starts at 0 and ticks once when a
/// vertex is discovered and once when it is finished.
///
/// A source that is not a vertex of the graph is refused.
pub fn dfs(graph: &Graph, source: Option<usize>) -> (r: Result<DfsTree, GraphError>)
    requires
        closed(graph@),
        2 * graph@.dom().len() <= usize::MAX,
    ensures
        match r {
            Ok(tree) => {
                &&& tree@ == dfs_result(graph@, source)
                &&& is_dfs_forest(graph@, tree@)
                &&& match source {
                    Some(s) => {
                        &&& graph@.contains_key(s)
                        &&& tree@[s].parent is None
                        &&& tree@[s].discovered == 0
                        &&& forall|v: usize| tree@.contains_key(v) <==> reachable(graph@, s, v)
                    },
                    None => tree@.dom() == graph@.dom(),
                }
            },
            Err(e) => {
                &&& e == GraphError::UnknownSource
                &&& source matches Some(s) && !graph@.contains_key(s)
            },
        },
{
    let ghost g = graph@;
    let mut tree = DfsTree::new();
    proof {
        graph.lemma_view();
        assert(g.dom().difference(tree@.dom()) =~= g.dom());
        assert(tree.at(0) == Search::start());
    }
    match source {
        Some(s) => {
            if !graph.adj_list.contains_key(&s) {
                return Err(GraphError::UnknownSource);
            }
            let _ = explore(graph, s, &mut tree, 0);
            proof {
                lemma_dfs_tree(g, s);
            }
        },
        None => {
            let nodes = graph.get_nodes();
            let mut clock: usize = 0;
            let mut i: usize = 0;
            while i < nodes.len()
                invariant
                    g == graph@,
                    i <= nodes@.len(),
                    nodes@ == ascending(g.dom()),
                    forall|j: int| 0 <= j < nodes@.len() ==> g.contains_key(#[trigger] nodes@[j]),
                    searchable(g, tree.at(clock)),
                    dfs_forest(g, tree.at(clock), nodes@, i as int) == dfs_forest(
                        g,
                        Search::start(),
                        nodes@,
                        0,
                    ),
                decreases nodes@.len() - i,
            {
                let node = nodes[i];
                if !tree.tree.contains_key(&node) {
                    clock = explore(graph, node, &mut tree, clock);
                }
                i += 1;
            }
            proof {
                lemma_dfs_whole(g);
            }
        },
    }
    Ok(tree)
}

} // verus!
