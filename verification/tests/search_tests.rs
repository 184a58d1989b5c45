use std::collections::HashMap;

use netrust::algorithms::bfs;
use netrust::algorithms::dfs;
use netrust::algorithms::BfsTree;
use netrust::algorithms::DfsNode;
use netrust::algorithms::DfsTree;
use netrust::error::GraphError;
use netrust::graph::Graph;

fn sample_edges() -> Vec<(usize, usize)> {
    vec![(1, 2), (1, 5), (2, 5), (2, 3), (2, 4), (3, 4), (4, 5)]
}

fn node(parent: Option<usize>, discovered: usize, finished: usize) -> DfsNode {
    DfsNode { parent, discovered, finished }
}

#[test]
fn test_bfs() {
    let mut graph = Graph::new((1..6).collect());
    graph.add_edge(1, 2).unwrap();
    graph.add_edge(1, 5).unwrap();
    graph.add_edge(2, 5).unwrap();
    graph.add_edge(2, 3).unwrap();
    graph.add_edge(2, 4).unwrap();
    graph.add_edge(3, 4).unwrap();
    graph.add_edge(4, 5).unwrap();

    let bfs_tree: BfsTree = bfs(&graph, 1).unwrap();
    let path: Vec<usize> = bfs_tree.get_path(3).unwrap();
    assert_eq!(bfs_tree.get_distance(3).unwrap(), 2);
    assert_eq!(path, vec![1, 2, 3]);
}

#[test]
fn bfs_records_parents_and_distances() {
    let graph = Graph::from_edge_list(sample_edges());
    let tree = bfs(&graph, 1).unwrap();
    let expected = vec![
        (1, (None, 0)),
        (2, (Some(1), 1)),
        (5, (Some(1), 1)),
        (3, (Some(2), 2)),
        (4, (Some(2), 2)),
    ]
    .into_iter()
    .collect::<HashMap<usize, (Option<usize>, usize)>>();
    assert_eq!(tree.tree, expected);
}

#[test]
fn bfs_prefers_the_neighbour_that_comes_first() {
    // 4 is two steps from 1 over 3 and over 2; 3 stands first among the
    // neighbours of 1.
    let graph = Graph::from_edge_list(vec![(1, 3), (1, 2), (2, 4), (3, 4)]);
    let tree = bfs(&graph, 1).unwrap();
    assert_eq!(tree.get(&4), Some(&(Some(3), 2)));
    assert_eq!(tree.get_path(4), Ok(vec![1, 3, 4]));

    let graph = Graph::from_edge_list(vec![(1, 2), (1, 3), (2, 4), (3, 4)]);
    let tree = bfs(&graph, 1).unwrap();
    assert_eq!(tree.get(&4), Some(&(Some(2), 2)));
    assert_eq!(tree.get_path(4), Ok(vec![1, 2, 4]));
}

#[test]
fn bfs_source_has_distance_zero_and_no_parent() {
    let graph = Graph::from_edge_list(sample_edges());
    for source in 1..6 {
        let tree = bfs(&graph, source).unwrap();
        assert_eq!(tree.get(&source), Some(&(None, 0)));
        assert_eq!(tree.get_distance(source), Ok(0));
        assert_eq!(tree.get_path(source), Ok(vec![source]));
    }
}

#[test]
fn bfs_distance_is_one_more_than_the_parents() {
    let graph = Graph::from_edge_list(vec![
        (0, 1), (0, 2), (1, 3), (2, 3), (3, 4), (4, 5), (5, 0), (6, 4), (7, 6), (8, 8), (8, 0),
    ]);
    let tree = bfs(&graph, 0).unwrap();
    let mut roots = 0;
    for (v, (parent, distance)) in &tree.tree {
        match parent {
            None => {
                roots += 1;
                assert_eq!(*v, 0);
                assert_eq!(*distance, 0);
            }
            Some(p) => {
                assert_eq!(*distance, tree.get_distance(*p).unwrap() + 1);
                assert!(graph.adj_list[p].contains(v));
            }
        }
    }
    assert_eq!(roots, 1);
    assert_eq!(tree.tree.len(), 9);
    assert_eq!(tree.get_distance(7), Ok(4));
}

#[test]
fn bfs_paths_follow_edges() {
    let graph = Graph::from_edge_list(vec![
        (0, 1), (0, 2), (1, 3), (2, 3), (3, 4), (4, 5), (5, 0), (6, 4), (7, 6),
    ]);
    let tree = bfs(&graph, 0).unwrap();
    for target in 0..8 {
        let path = tree.get_path(target).unwrap();
        assert_eq!(path[0], 0);
        assert_eq!(path[path.len() - 1], target);
        assert_eq!(path.len(), tree.get_distance(target).unwrap() + 1);
        for i in 1..path.len() {
            assert!(graph.adj_list[&path[i - 1]].contains(&path[i]));
        }
    }
    assert_eq!(tree.get_path(7), Ok(vec![0, 5, 4, 6, 7]));
}

#[test]
fn bfs_twice_gives_the_same_tree() {
    let graph = Graph::from_edge_list(vec![
        (0, 1), (0, 2), (1, 3), (2, 3), (3, 4), (4, 5), (5, 0), (6, 4), (7, 6), (10, 11),
    ]);
    let first = bfs(&graph, 3).unwrap();
    let second = bfs(&graph, 3).unwrap();
    assert_eq!(first.tree, second.tree);
}

#[test]
fn bfs_reaches_only_its_own_piece() {
    let graph = Graph::from_edge_list(vec![(0, 1), (1, 2), (3, 4)]);
    let tree = bfs(&graph, 0).unwrap();
    assert_eq!(tree.tree.len(), 3);
    assert_eq!(tree.get_distance(2), Ok(2));
    assert_eq!(tree.get(&3), None);
    assert_eq!(tree.get_distance(3), Err(GraphError::UnreachableNode));
    assert_eq!(tree.get_path(4), Err(GraphError::UnreachableNode));
    assert_eq!(tree.get_distance(99), Err(GraphError::UnreachableNode));
}

#[test]
fn bfs_refuses_unknown_source() {
    let graph = Graph::from_edge_list(vec![(0, 1)]);
    assert!(matches!(bfs(&graph, 5), Err(GraphError::UnknownSource)));
}

#[test]
fn bfs_with_loops_and_repeated_edges() {
    let graph = Graph::from_edge_list(vec![(1, 1), (1, 2), (1, 2), (2, 3)]);
    let tree = bfs(&graph, 1).unwrap();
    assert_eq!(tree.get(&1), Some(&(None, 0)));
    assert_eq!(tree.get(&2), Some(&(Some(1), 1)));
    assert_eq!(tree.get(&3), Some(&(Some(2), 2)));
}

#[test]
fn bfs_on_a_long_path() {
    let edges: Vec<(usize, usize)> = (0..2000).map(|i| (i, i + 1)).collect();
    let graph = Graph::from_edge_list(edges);
    let tree = bfs(&graph, 0).unwrap();
    assert_eq!(tree.get_distance(2000), Ok(2000));
    let path = tree.get_path(2000).unwrap();
    assert_eq!(path, (0..2001).collect::<Vec<usize>>());
}

#[test]
fn bfs_tree_insert_and_get() {
    let mut tree = BfsTree::new();
    assert_eq!(tree.get(&1), None);
    tree.insert(1, (None, 0));
    tree.insert(2, (Some(1), 1));
    assert_eq!(tree.get(&1), Some(&(None, 0)));
    assert_eq!(tree.get(&2), Some(&(Some(1), 1)));
    tree.insert(2, (Some(1), 5));
    assert_eq!(tree.get(&2), Some(&(Some(1), 5)));
    assert_eq!(tree.get_distance(2), Ok(5));
    assert_eq!(tree.tree.len(), 2);
}

#[test]
fn bfs_tree_path_of_hand_made_tree() {
    let mut tree = BfsTree::new();
    tree.insert(4, (None, 0));
    tree.insert(9, (Some(4), 1));
    tree.insert(2, (Some(9), 2));
    assert_eq!(tree.get_path(2), Ok(vec![4, 9, 2]));
    assert_eq!(tree.get_path(4), Ok(vec![4]));
    assert_eq!(tree.get_path(7), Err(GraphError::UnreachableNode));
}

#[test]
fn dfs_tree_of_sample_graph() {
    let graph = Graph::from_edge_list(sample_edges());
    let tree: DfsTree = dfs(&graph, Some(1)).unwrap();
    let expected = vec![
        (1, node(None, 0, 9)),
        (2, node(Some(1), 1, 8)),
        (5, node(Some(2), 2, 7)),
        (4, node(Some(5), 3, 6)),
        (3, node(Some(4), 4, 5)),
    ]
    .into_iter()
    .collect::<HashMap<usize, DfsNode>>();
    assert_eq!(tree.tree, expected);
}

#[test]
fn dfs_forest_of_sample_graph() {
    let graph = Graph::from_edge_list(sample_edges());
    let tree = dfs(&graph, Some(1)).unwrap();
    let forest = dfs(&graph, None).unwrap();
    assert_eq!(forest.tree, tree.tree);
    assert_eq!(forest.tree.get(&5).unwrap().finished, 7);
}

#[test]
fn dfs_forest_covers_every_piece_on_one_clock() {
    let graph = Graph::from_edge_list(vec![(3, 4), (0, 1), (1, 2), (7, 7)]);
    let forest = dfs(&graph, None).unwrap();
    let expected = vec![
        (0, node(None, 0, 5)),
        (1, node(Some(0), 1, 4)),
        (2, node(Some(1), 2, 3)),
        (3, node(None, 6, 9)),
        (4, node(Some(3), 7, 8)),
        (7, node(None, 10, 11)),
    ]
    .into_iter()
    .collect::<HashMap<usize, DfsNode>>();
    assert_eq!(forest.tree, expected);
}

#[test]
fn dfs_from_a_source_stays_in_its_piece() {
    let graph = Graph::from_edge_list(vec![(3, 4), (0, 1), (1, 2)]);
    let tree = dfs(&graph, Some(4)).unwrap();
    let expected = vec![(4, node(None, 0, 3)), (3, node(Some(4), 1, 2))]
        .into_iter()
        .collect::<HashMap<usize, DfsNode>>();
    assert_eq!(tree.tree, expected);
}

#[test]
fn dfs_tries_neighbours_in_list_order() {
    let graph = Graph::from_edge_list(vec![(1, 3), (1, 2), (2, 4), (3, 4)]);
    let tree = dfs(&graph, Some(1)).unwrap();
    let expected = vec![
        (1, node(None, 0, 7)),
        (3, node(Some(1), 1, 6)),
        (4, node(Some(3), 2, 5)),
        (2, node(Some(4), 3, 4)),
    ]
    .into_iter()
    .collect::<HashMap<usize, DfsNode>>();
    assert_eq!(tree.tree, expected);
}

#[test]
fn dfs_intervals_nest_or_lie_apart() {
    let graph = Graph::from_edge_list(vec![
        (0, 1), (0, 2), (1, 3), (2, 3), (3, 4), (4, 5), (5, 0), (6, 4), (7, 6), (10, 11), (11, 12),
        (12, 10), (20, 20),
    ]);
    for source in [None, Some(0), Some(4), Some(11)] {
        let result = dfs(&graph, source).unwrap();
        for (u, a) in &result.tree {
            assert!(a.discovered < a.finished);
            for (v, b) in &result.tree {
                if u != v {
                    let apart = a.finished < b.discovered || b.finished < a.discovered;
                    let a_in_b = b.discovered < a.discovered && a.finished < b.finished;
                    let b_in_a = a.discovered < b.discovered && b.finished < a.finished;
                    assert!(apart || a_in_b || b_in_a);
                }
            }
            if let Some(p) = a.parent {
                let parent = &result.tree[&p];
                assert!(graph.adj_list[&p].contains(u));
                assert!(parent.discovered < a.discovered && a.finished < parent.finished);
            }
        }
    }
    assert_eq!(dfs(&graph, None).unwrap().tree.len(), 12);
    assert_eq!(dfs(&graph, Some(11)).unwrap().tree.len(), 3);
}

#[test]
fn dfs_times_are_the_ticks_of_one_clock() {
    let graph = Graph::from_edge_list(vec![(0, 1), (0, 2), (1, 3), (2, 3), (9, 8), (5, 5)]);
    let forest = dfs(&graph, None).unwrap();
    let mut times: Vec<usize> = Vec::new();
    for record in forest.tree.values() {
        times.push(record.discovered);
        times.push(record.finished);
    }
    times.sort();
    assert_eq!(times, (0..2 * graph.num_v()).collect::<Vec<usize>>());
}

#[test]
fn dfs_refuses_unknown_source() {
    let graph = Graph::from_edge_list(vec![(0, 1)]);
    assert!(matches!(dfs(&graph, Some(2)), Err(GraphError::UnknownSource)));
}

#[test]
fn dfs_of_the_empty_graph() {
    let graph = Graph::from_edge_list(Vec::new());
    assert_eq!(dfs(&graph, None).unwrap().tree.len(), 0);
    assert!(matches!(dfs(&graph, Some(0)), Err(GraphError::UnknownSource)));
}

#[test]
fn dfs_on_a_long_path() {
    let edges: Vec<(usize, usize)> = (0..5000).map(|i| (i, i + 1)).collect();
    let graph = Graph::from_edge_list(edges);
    let tree = dfs(&graph, Some(0)).unwrap();
    assert_eq!(tree.tree[&0], node(None, 0, 10001));
    assert_eq!(tree.tree[&5000], node(Some(4999), 5000, 5001));
}

#[test]
fn bfs_tree_is_wf_holds_of_search_results() {
    let graph = Graph::from_edge_list(sample_edges());
    for source in 1..6 {
        assert!(bfs(&graph, source).unwrap().is_wf());
    }
    assert!(BfsTree::new().is_wf());
}

#[test]
fn bfs_tree_is_wf_fails_on_hand_made_faults() {
    let mut two_roots = BfsTree::new();
    two_roots.insert(1, (None, 0));
    two_roots.insert(2, (None, 0));
    assert!(!two_roots.is_wf());

    let mut far_root = BfsTree::new();
    far_root.insert(1, (None, 3));
    assert!(!far_root.is_wf());

    let mut lost_parent = BfsTree::new();
    lost_parent.insert(1, (None, 0));
    lost_parent.insert(2, (Some(7), 1));
    assert!(!lost_parent.is_wf());

    let mut wrong_distance = BfsTree::new();
    wrong_distance.insert(1, (None, 0));
    wrong_distance.insert(2, (Some(1), 2));
    assert!(!wrong_distance.is_wf());

    let mut ring = BfsTree::new();
    ring.insert(1, (Some(2), 1));
    ring.insert(2, (Some(1), 1));
    assert!(!ring.is_wf());

    let mut full = BfsTree::new();
    full.insert(1, (Some(2), 0));
    full.insert(2, (Some(2), usize::MAX));
    assert!(!full.is_wf());
}

#[test]
fn bfs_reaches_a_neighbour_that_is_no_vertex() {
    let mut graph = Graph::new([1usize, 2].iter().cloned().collect());
    graph.add_edge(1, 2).unwrap();
    graph.adj_list.get_mut(&2).unwrap().push(9);
    let tree = bfs(&graph, 1).unwrap();
    assert_eq!(tree.get(&9), Some(&(Some(2), 2)));
    assert_eq!(tree.get_path(9), Ok(vec![1, 2, 9]));
    assert_eq!(tree.tree.len(), 3);
}
