//! Breadth-first search: the tree of shortest paths from one vertex.

use std::collections::HashMap;
use std::collections::HashSet;
use std::collections::VecDeque;
use vstd::prelude::*;

use vstd::std_specs::hash::spec_hash_map_len;
use vstd::std_specs::hash::spec_keys_iter;
use vstd::std_specs::iter::IteratorSpec;

use crate::adjacency::{
    has_edge, lemma_distinct_bounded, lemma_mentioned_finite, mentioned, reachable, walk_between,
};
use crate::algorithms::bfs_laws::{lemma_bfs_shortest, lemma_bfs_tree_wf};
use crate::error::GraphError;
use crate::graph::Graph;
use crate::sorted::lemma_push_contains;

verus! {

broadcast use vstd::std_specs::hash::group_hash_axioms;

/// The record of a breadth-first search: the vertices in the order in which
/// they were found, and for each the place where it was found. That place
/// is a slot: the neighbour list of the vertex `order[by[i]]`, at position
/// `at[i]`. The source, at index 0, was found through no slot.
pub struct Run {
    pub order: Seq<usize>,
    pub by: Seq<int>,
    pub at: Seq<int>,
}

impl Run {
    /// The record that holds the source alone.
    pub open spec fn start(s: usize) -> Run {
        Run { order: seq![s], by: seq![0int], at: seq![0int] }
    }

    /// The record after `v` was found through the slot `(j, c)`.
    pub open spec fn push(self, v: usize, j: int, c: int) -> Run {
        Run { order: self.order.push(v), by: self.by.push(j), at: self.at.push(c) }
    }
}

/// The slot `(j, c)` is read before the slot `(j2, c2)`.
pub open spec fn slot_before(j: int, c: int, j2: int, c2: int) -> bool {
    j < j2 || (j == j2 && c < c2)
}

/// The slot `(j, c)` exists and holds the vertex `v`.
pub open spec fn names(g: Map<usize, Seq<usize>>, order: Seq<usize>, j: int, c: int, v: usize) -> bool {
    &&& 0 <= j < order.len()
    &&& g.contains_key(order[j])
    &&& 0 <= c < g[order[j]].len()
    &&& g[order[j]][c] == v
}

/// The state of a search from `s` that has read every slot before
/// `(head, k)` and none after it.
///
/// The tree `t` holds the vertices found so far. Each but the source was
/// found through the first slot that holds it, has the owner of that slot
/// as its parent, and lies one step farther from the source than the
/// parent. The vertices are listed in the order of the slots through which
/// they were found, and every vertex in a slot that was read has been
/// found.
pub open spec fn explored_to(
    g: Map<usize, Seq<usize>>,
    s: usize,
    t: Map<usize, (Option<usize>, usize)>,
    r: Run,
    head: int,
    k: int,
) -> bool {
    let n = r.order.len();
    &&& n > 0
    &&& r.by.len() == n
    &&& r.at.len() == n
    &&& r.order[0] == s
    &&& r.order.no_duplicates()
    &&& 0 <= head <= n
    &&& 0 <= k
    &&& forall|v: usize| t.contains_key(v) <==> r.order.contains(v)
    &&& t[s] == (None::<usize>, 0usize)
    &&& forall|i: int|
        0 < i < n ==> {
            &&& 0 <= r.by[i] < i
            &&& slot_before(r.by[i], r.at[i], head, k)
            &&& names(g, r.order, r.by[i], r.at[i], #[trigger] r.order[i])
            &&& t[r.order[i]].0 == Some(r.order[r.by[i]])
            &&& t[r.order[i]].1 == t[r.order[r.by[i]]].1 + 1
        }
    &&& forall|i: int, j: int, c: int|
        0 < i < n && #[trigger] names(g, r.order, j, c, r.order[i]) ==> !slot_before(
            j,
            c,
            r.by[i],
            r.at[i],
        )
    &&& forall|i1: int, i2: int|
        0 < i1 < i2 < n ==> #[trigger] slot_before(r.by[i1], r.at[i1], r.by[i2], r.at[i2])
    &&& forall|j: int, c: int, v: usize| #[trigger]
        names(g, r.order, j, c, v) && slot_before(j, c, head, k) ==> r.order.contains(v)
}

/// The record `r` and the tree `t` are those of a finished search from `s`.
pub open spec fn is_bfs_run(
    g: Map<usize, Seq<usize>>,
    s: usize,
    t: Map<usize, (Option<usize>, usize)>,
    r: Run,
) -> bool {
    explored_to(g, s, t, r, r.order.len() as int, 0)
}

/// `t` is the breadth-first tree of `g` from `s`.
pub open spec fn is_bfs_tree(
    g: Map<usize, Seq<usize>>,
    s: usize,
    t: Map<usize, (Option<usize>, usize)>,
) -> bool {
    exists|r: Run| is_bfs_run(g, s, t, r)
}

/// The search that has found its source and read nothing.
proof fn lemma_explore_start(g: Map<usize, Seq<usize>>, s: usize)
    ensures
        explored_to(g, s, Map::empty().insert(s, (None::<usize>, 0usize)), Run::start(s), 0, 0),
{
    let t = Map::<usize, (Option<usize>, usize)>::empty().insert(s, (None::<usize>, 0usize));
    let r = Run::start(s);
    assert forall|v: usize| t.contains_key(v) <==> r.order.contains(v) by {
        if v == s {
            assert(r.order[0] == v);
        }
    }
}

/// Reading a slot that holds a vertex not found before finds that vertex.
proof fn lemma_explore_visit(
    g: Map<usize, Seq<usize>>,
    s: usize,
    t: Map<usize, (Option<usize>, usize)>,
    r: Run,
    head: int,
    k: int,
    v: usize,
)
    requires
        explored_to(g, s, t, r, head, k),
        names(g, r.order, head, k, v),
        !r.order.contains(v),
        t[r.order[head]].1 + 1 <= usize::MAX,
    ensures
        explored_to(
            g,
            s,
            t.insert(v, (Some(r.order[head]), (t[r.order[head]].1 + 1) as usize)),
            r.push(v, head, k),
            head,
            k + 1,
        ),
{
    let n = r.order.len() as int;
    let cur = r.order[head];
    let t2 = t.insert(v, (Some(cur), (t[cur].1 + 1) as usize));
    let r2 = r.push(v, head, k);
    assert forall|i: int| 0 <= i < n implies r.order[i] != v && r2.order[i] == r.order[i] by {
        assert(r.order.contains(r.order[i]));
    }
    assert(r2.order.no_duplicates());
    assert forall|x: usize| t2.contains_key(x) <==> r2.order.contains(x) by {
        lemma_push_contains(r.order, v, x);
    }
    assert(t2[s] == t[s]);
    assert forall|i: int| 0 < i < n + 1 implies {
        &&& 0 <= r2.by[i] < i
        &&& slot_before(r2.by[i], r2.at[i], head, k + 1)
        &&& names(g, r2.order, r2.by[i], r2.at[i], #[trigger] r2.order[i])
        &&& t2[r2.order[i]].0 == Some(r2.order[r2.by[i]])
        &&& t2[r2.order[i]].1 == t2[r2.order[r2.by[i]]].1 + 1
    } by {
        if i < n {
            let x = r.order[i];
            assert(names(g, r.order, r.by[i], r.at[i], x));
            assert(slot_before(r.by[i], r.at[i], head, k));
        }
    }
    assert forall|i: int, j: int, c: int|
        0 < i < n + 1 && #[trigger] names(g, r2.order, j, c, r2.order[i]) implies !slot_before(
        j,
        c,
        r2.by[i],
        r2.at[i],
    ) by {
        if i < n {
            let x = r.order[i];
            assert(0 <= r.by[i] < i);
            if j < n {
                assert(names(g, r.order, j, c, r.order[i]));
            }
        } else {
            if slot_before(j, c, head, k) {
                assert(names(g, r.order, j, c, v));
            }
        }
    }
    assert forall|i1: int, i2: int| 0 < i1 < i2 < n + 1 implies #[trigger] slot_before(
        r2.by[i1],
        r2.at[i1],
        r2.by[i2],
        r2.at[i2],
    ) by {
        let x = r.order[i1];
        if i2 < n {
            assert(slot_before(r.by[i1], r.at[i1], r.by[i2], r.at[i2]));
        } else {
            assert(slot_before(r.by[i1], r.at[i1], head, k));
        }
    }
    assert forall|j: int, c: int, x: usize| #[trigger]
        names(g, r2.order, j, c, x) && slot_before(j, c, head, k + 1) implies r2.order.contains(
        x,
    ) by {
        lemma_push_contains(r.order, v, x);
        assert(names(g, r.order, j, c, x));
    }
}

/// Reading a slot that holds a vertex found before changes nothing.
proof fn lemma_explore_skip(
    g: Map<usize, Seq<usize>>,
    s: usize,
    t: Map<usize, (Option<usize>, usize)>,
    r: Run,
    head: int,
    k: int,
    v: usize,
)
    requires
        explored_to(g, s, t, r, head, k),
        names(g, r.order, head, k, v),
        r.order.contains(v),
    ensures
        explored_to(g, s, t, r, head, k + 1),
{
    let n = r.order.len() as int;
    assert forall|i: int| 0 < i < n implies slot_before(r.by[i], r.at[i], head, k + 1) by {
        let x = r.order[i];
        assert(slot_before(r.by[i], r.at[i], head, k));
    }
}

/// When the neighbours of the vertex at `head` are all read, the search
/// goes on with the next vertex in the order.
proof fn lemma_explore_next(
    g: Map<usize, Seq<usize>>,
    s: usize,
    t: Map<usize, (Option<usize>, usize)>,
    r: Run,
    head: int,
    k: int,
)
    requires
        explored_to(g, s, t, r, head, k),
        head < r.order.len(),
        g.contains_key(r.order[head]) ==> k >= g[r.order[head]].len(),
    ensures
        explored_to(g, s, t, r, head + 1, 0),
{
    let n = r.order.len() as int;
    assert forall|i: int| 0 < i < n implies slot_before(r.by[i], r.at[i], head + 1, 0) by {
        let x = r.order[i];
        assert(slot_before(r.by[i], r.at[i], head, k));
    }
    assert forall|j: int, c: int, v: usize| #[trigger]
        names(g, r.order, j, c, v) && slot_before(j, c, head + 1, 0) implies r.order.contains(
        v,
    ) by {
        assert(slot_before(j, c, head, k));
    }
}

/// Every entry but a root names a parent that is in the tree and lies one
/// step nearer; a root has distance 0, and there is at most one root.
pub open spec fn tree_wf(t: Map<usize, (Option<usize>, usize)>) -> bool {
    &&& forall|v: usize| #[trigger]
        t.contains_key(v) ==> match t[v].0 {
            None => t[v].1 == 0,
            Some(p) => t.contains_key(p) && t[v].1 == t[p].1 + 1,
        }
    &&& forall|a: usize, b: usize|
        #![trigger t.contains_key(a), t.contains_key(b)]
        t.contains_key(a) && t.contains_key(b) && t[a].0 is None && t[b].0 is None ==> a == b
}

/// `p` leads from the root of the tree down to `target`, each vertex being
/// the parent of the next.
pub open spec fn is_tree_path(
    t: Map<usize, (Option<usize>, usize)>,
    p: Seq<usize>,
    target: usize,
) -> bool {
    &&& p.len() > 0
    &&& p.last() == target
    &&& t.contains_key(p[0])
    &&& t[p[0]].0 is None
    &&& forall|i: int| 0 < i < p.len() ==> t.contains_key(#[trigger] p[i]) && t[p[i]].0 == Some(p[i - 1])
}

/// The result of a breadth-first search: for each vertex that was reached
/// its parent in the tree, which the source lacks, and its distance from
/// the source in edges.
pub struct BfsTree {
    pub tree: HashMap<usize, (Option<usize>, usize)>,
}

impl View for BfsTree {
    type V = Map<usize, (Option<usize>, usize)>;

    open spec fn view(&self) -> Map<usize, (Option<usize>, usize)> {
        self.tree@
    }
}

impl BfsTree {
    /// The invariant of a search tree.
    pub open spec fn wf(&self) -> bool {
        tree_wf(self@)
    }

    /// Tells whether the tree keeps its invariant, which holds of every
    /// tree that a search returned, and may fail where the entries were
    /// written by hand.
    pub fn is_wf(&self) -> (ok: bool)
        ensures
            ok == self.wf(),
    {
        let ghost t = self@;
        let mut root: Option<usize> = None;
        let ghost mut root_at: int = 0;
        for v in it: self.tree.keys()
            invariant
                t == self@,
                it.seq() == spec_keys_iter(&self.tree).remaining(),
                forall|j: int|
                    0 <= j < it.index() ==> t.contains_key(*#[trigger] it.seq()[j]) && match t[*it.seq()[j]].0 {
                        None => t[*it.seq()[j]].1 == 0 && root == Some(*it.seq()[j]),
                        Some(p) => t.contains_key(p) && t[*it.seq()[j]].1 == t[p].1 + 1,
                    },
                root matches Some(r) ==> 0 <= root_at < it.index() && *it.seq()[root_at] == r
                    && t.contains_key(r) && t[r].0 is None,
        {
            let ghost at = it.index();
            proof {
                let s = spec_keys_iter(&self.tree).remaining();
                assert(s.unref()[at] == *s[at]);
                assert(s.unref().to_set().contains(*v));
                assert(t.contains_key(*v));
            }
            let entry = *self.tree.get(v).unwrap();
            match entry.0 {
                None => {
                    if entry.1 != 0 {
                        return false;
                    }
                    match root {
                        None => {
                            root = Some(*v);
                            proof {
                                root_at = at;
                            }
                        },
                        Some(r) => {
                            proof {
                                let s = spec_keys_iter(&self.tree).remaining();
                                if r == *v {
                                    assert(s[root_at] == s[at]);
                                }
                                assert(t[r].0 is None);
                            }
                            return false;
                        },
                    }
                },
                Some(p) => {
                    match self.tree.get(&p) {
                        None => {
                            return false;
                        },
                        Some(above) => {
                            if above.1 == usize::MAX || entry.1 != above.1 + 1 {
                                return false;
                            }
                        },
                    }
                },
            }
        }
        proof {
            let s = spec_keys_iter(&self.tree).remaining();
            assert forall|v: usize| t.contains_key(v) implies exists|j: int|
                0 <= j < s.len() && *#[trigger] s[j] == v by {
                assert(s.unref().to_set().contains(v));
                let j = choose|j: int| 0 <= j < s.unref().len() && s.unref()[j] == v;
                assert(*s[j] == v);
            }
            assert forall|v: usize| #[trigger] t.contains_key(v) implies match t[v].0 {
                None => t[v].1 == 0,
                Some(p) => t.contains_key(p) && t[v].1 == t[p].1 + 1,
            } by {
                let j = choose|j: int| 0 <= j < s.len() && *#[trigger] s[j] == v;
            }
            assert forall|a: usize, b: usize|
                #![trigger t.contains_key(a), t.contains_key(b)]
                t.contains_key(a) && t.contains_key(b) && t[a].0 is None && t[b].0 is None implies a
                == b by {
                let j = choose|j: int| 0 <= j < s.len() && *#[trigger] s[j] == a;
                let k = choose|k: int| 0 <= k < s.len() && *#[trigger] s[k] == b;
            }
        }
        true
    }

    /// Creates a tree without entries.
    pub fn new() -> (t: Self)
        ensures
            t@ == Map::<usize, (Option<usize>, usize)>::empty(),
            t.wf(),
    {
        BfsTree { tree: HashMap::new() }
    }

    /// Records parent and distance of the vertex `key`, in place of what
    /// was recorded for it before.
    pub fn insert(&mut self, key: usize, value: (Option<usize>, usize))
        ensures
            final(self)@ == old(self)@.insert(key, value),
    {
        self.tree.insert(key, value);
    }

    /// Returns parent and distance of the vertex `key`, if it was reached.
    pub fn get(&self, key: &usize) -> (r: Option<&(Option<usize>, usize)>)
        ensures
            match r {
                Some(v) => self@.contains_key(*key) && *v == self@[*key],
                None => !self@.contains_key(*key),
            },
    {
        self.tree.get(key)
    }

    /// Returns the distance of `target` from the source, or
    /// `UnreachableNode` if the search did not reach it.
    pub fn get_distance(&self, target: usize) -> (r: Result<usize, GraphError>)
        ensures
            match r {
                Ok(d) => self@.contains_key(target) && d == self@[target].1,
                Err(e) => e == GraphError::UnreachableNode && !self@.contains_key(target),
            },
    {
        match self.get(&target) {
            Some(entry) => Ok(entry.1),
            None => Err(GraphError::UnreachableNode),
        }
    }

    /// Returns the vertices on the way from the source to `target`, both
    /// included, or `UnreachableNode` if the search did not reach `target`.
    pub fn get_path(&self, target: usize) -> (r: Result<Vec<usize>, GraphError>)
        requires
            self.wf(),
        ensures
            match r {
                Ok(path) => {
                    &&& self@.contains_key(target)
                    &&& is_tree_path(self@, path@, target)
                    &&& path@.len() == self@[target].1 + 1
                },
                Err(e) => e == GraphError::UnreachableNode && !self@.contains_key(target),
            },
    {
        let mut current: (Option<usize>, usize) = match self.get(&target) {
            Some(entry) => *entry,
            None => {
                return Err(GraphError::UnreachableNode);
            },
        };
        let ghost t = self@;
        let mut back: Vec<usize> = Vec::new();
        back.push(target);
        while current.0.is_some()
            invariant
                t == self@,
                tree_wf(t),
                back@.len() > 0,
                back@[0] == target,
                t.contains_key(target),
                t.contains_key(back@.last()),
                current == t[back@.last()],
                back@.len() + current.1 == t[target].1 + 1,
                forall|i: int|
                    0 < i < back@.len() ==> t.contains_key(#[trigger] back@[i - 1]) && t[back@[i
                        - 1]].0 == Some(back@[i]),
            decreases current.1,
        {
            let node = current.0.unwrap();
            back.push(node);
            current = *self.get(&node).unwrap();
        }
        let mut path: Vec<usize> = Vec::new();
        let mut i: usize = back.len();
        while i > 0
            invariant
                i <= back@.len(),
                path@.len() == back@.len() - i,
                forall|j: int| 0 <= j < path@.len() ==> path@[j] == back@[back@.len() - 1 - j],
            decreases i,
        {
            i -= 1;
            path.push(back[i]);
        }
        proof {
            let n = back@.len() as int;
            assert forall|j: int| 0 < j < path@.len() implies t.contains_key(#[trigger] path@[j])
                && t[path@[j]].0 == Some(path@[j - 1]) by {
                let m = n - j;
                assert(t.contains_key(back@[m - 1]) && t[back@[m - 1]].0 == Some(back@[m]));
            }
        }
        Ok(path)
    }
}

/// Runs a breadth-first search over `graph` from `source`.
///
/// The neighbours of a vertex are read in the order of its list, so among
/// several shortest paths the one found first by that order is kept.
/// A source that is not a vertex of the graph is refused.
pub fn bfs(graph: &Graph, source: usize) -> (r: Result<BfsTree, GraphError>)
    ensures
        match r {
            Ok(tree) => {
                &&& graph@.contains_key(source)
                &&& is_bfs_tree(graph@, source, tree@)
                &&& tree.wf()
                &&& tree@[source] == (None::<usize>, 0usize)
                &&& forall|v: usize| tree@.contains_key(v) <==> reachable(graph@, source, v)
                &&& forall|v: usize, w: Seq<usize>| #[trigger]
                    walk_between(graph@, w, source, v) ==> tree@[v].1 + 1 <= w.len()
            },
            Err(e) => e == GraphError::UnknownSource && !graph@.contains_key(source),
        },
{
    if !graph.adj_list.contains_key(&source) {
        return Err(GraphError::UnknownSource);
    }
    let ghost g = graph@;
    let mut visited: HashSet<usize> = HashSet::new();
    let mut queue: VecDeque<usize> = VecDeque::new();
    let mut bfs_tree: BfsTree = BfsTree::new();

    bfs_tree.insert(source, (None, 0));
    queue.push_back(source);
    visited.insert(source);

    let ghost mut run = Run::start(source);
    let ghost mut head: int = 0;
    proof {
        lemma_explore_start(g, source);
        graph.lemma_view();
        lemma_mentioned_finite(g);
        assert(queue@ =~= run.order.subrange(0, 1));
        assert forall|v: usize| visited@.contains(v) <==> run.order.contains(v) by {
            if v == source {
                assert(run.order[0] == v);
            }
        }
        assert(bfs_tree@.dom() =~= Set::<usize>::empty().insert(source));
        assert forall|v: usize| run.order.contains(v) implies mentioned(g).contains(v) by {
            let i = choose|i: int| 0 <= i < run.order.len() && run.order[i] == v;
            assert(v == source);
        }
        lemma_distinct_bounded(run.order, mentioned(g));
    }
    while queue.len() > 0
        invariant
            g == graph@,
            explored_to(g, source, bfs_tree@, run, head, 0),
            queue@ == run.order.subrange(head, run.order.len() as int),
            forall|v: usize| visited@.contains(v) <==> run.order.contains(v),
            forall|i: int| 0 <= i < run.order.len() ==> bfs_tree@[#[trigger] run.order[i]].1 <= i,
            bfs_tree@.dom().len() == run.order.len(),
            mentioned(g).finite(),
            forall|v: usize| run.order.contains(v) ==> mentioned(g).contains(v),
            run.order.len() <= mentioned(g).len(),
        decreases mentioned(g).len() - run.order.len(), run.order.len() - head,
    {
        let ghost n0 = run.order.len();
        let current = queue.pop_front().unwrap();
        proof {
            assert(current == run.order[head]);
            assert(run.order.contains(current));
            assert(queue@ =~= run.order.subrange(head + 1, run.order.len() as int));
        }
        let current_distance = bfs_tree.get(&current).unwrap().1;
        match graph.adj_list.get(&current) {
            Some(neighbours) => {
                let mut k: usize = 0;
                while k < neighbours.len()
                    invariant
                        g == graph@,
                        k <= neighbours@.len(),
                        g.contains_key(current),
                        neighbours@ == g[current],
                        0 <= head < run.order.len(),
                        current == run.order[head],
                        current_distance == bfs_tree@[current].1,
                        n0 <= run.order.len(),
                        explored_to(g, source, bfs_tree@, run, head, k as int),
                        queue@ == run.order.subrange(head + 1, run.order.len() as int),
                        forall|v: usize| visited@.contains(v) <==> run.order.contains(v),
                        forall|i: int|
                            0 <= i < run.order.len() ==> bfs_tree@[#[trigger] run.order[i]].1 <= i,
                        bfs_tree@.dom().len() == run.order.len(),
                        mentioned(g).finite(),
                        forall|v: usize| run.order.contains(v) ==> mentioned(g).contains(v),
                        run.order.len() <= mentioned(g).len(),
                    decreases neighbours@.len() - k,
                {
                    let neighbour = neighbours[k];
                    proof {
                        assert(names(g, run.order, head, k as int, neighbour));
                    }
                    if !visited.contains(&neighbour) {
                        proof {
                            assert(spec_hash_map_len(&bfs_tree.tree) == bfs_tree@.dom().len());
                            lemma_explore_visit(
                                g,
                                source,
                                bfs_tree@,
                                run,
                                head,
                                k as int,
                                neighbour,
                            );
                        }
                        let ghost old_run = run;
                        let ghost old_tree = bfs_tree@;
                        bfs_tree.insert(neighbour, (Some(current), current_distance + 1));
                        visited.insert(neighbour);
                        queue.push_back(neighbour);
                        proof {
                            run = run.push(neighbour, head, k as int);
                            let n = old_run.order.len() as int;
                            assert(queue@ =~= run.order.subrange(head + 1, n + 1));
                            assert forall|v: usize| visited@.contains(v) <==> run.order.contains(
                                v,
                            ) by {
                                lemma_push_contains(old_run.order, neighbour, v);
                            }
                            assert forall|i: int| 0 <= i < n + 1 implies bfs_tree@[#[trigger] run.order[i]].1
                                <= i by {
                                if i < n {
                                    assert(old_run.order.contains(old_run.order[i]));
                                    assert(old_tree[old_run.order[i]].1 <= i);
                                }
                            }
                            assert(!old_tree.dom().contains(neighbour));
                            assert(bfs_tree@.dom() =~= old_tree.dom().insert(neighbour));
                            assert(g[current][k as int] == neighbour);
                            assert(has_edge(g, current, neighbour));
                            assert forall|v: usize| run.order.contains(v) implies mentioned(
                                g,
                            ).contains(v) by {
                                lemma_push_contains(old_run.order, neighbour, v);
                            }
                            lemma_distinct_bounded(run.order, mentioned(g));
                        }
                    } else {
                        proof {
                            lemma_explore_skip(
                                g,
                                source,
                                bfs_tree@,
                                run,
                                head,
                                k as int,
                                neighbour,
                            );
                        }
                    }
                    k += 1;
                }
                proof {
                    lemma_explore_next(g, source, bfs_tree@, run, head, k as int);
                }
            },
            None => {
                proof {
                    lemma_explore_next(g, source, bfs_tree@, run, head, 0);
                }
            },
        }
        proof {
            head = head + 1;
        }
    }
    proof {
        assert(head == run.order.len());
        assert(is_bfs_run(g, source, bfs_tree@, run));
        lemma_bfs_tree_wf(g, source, bfs_tree@);
        lemma_bfs_shortest(g, source, bfs_tree@);
    }
    Ok(bfs_tree)
}

} // verus!
