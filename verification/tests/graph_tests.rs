use std::collections::HashMap;
use std::collections::HashSet;

use netrust::error::GraphError;
use netrust::graph::DisjointSet;
use netrust::graph::Graph;

fn sample_graph() -> Graph {
    let mut graph = Graph::new((1..6).collect());
    graph.add_edge(1, 2).unwrap();
    graph.add_edge(1, 5).unwrap();
    graph.add_edge(2, 5).unwrap();
    graph.add_edge(2, 3).unwrap();
    graph.add_edge(2, 4).unwrap();
    graph.add_edge(3, 4).unwrap();
    graph.add_edge(4, 5).unwrap();
    graph
}

#[test]
fn test_connected_components() {
    let nodes: HashSet<usize> = [0, 1, 2, 3, 4].iter().cloned().collect();
    let mut graph = Graph::new(nodes);
    graph.add_edge(0, 1).unwrap();
    graph.add_edge(1, 2).unwrap();
    graph.add_edge(3, 4).unwrap();
    let components = graph.connected_components();
    assert_eq!(components.len(), 2);
    let c_1 = components[0].clone();
    let c_2 = components[1].clone();

    assert!(c_1.contains(&0));
    assert!(c_1.contains(&1));
    assert!(c_1.contains(&2));

    assert!(c_2.contains(&3));
    assert!(c_2.contains(&4));
}

#[test]
fn test_find() {
    let mut ds: DisjointSet = DisjointSet::new(5);
    assert_eq!(ds.find(0), 0);
    assert_eq!(ds.find(4), 4);
}

#[test]
fn test_union() {
    let mut ds: DisjointSet = DisjointSet::new(5);
    ds.union(1, 0);
    assert_eq!(ds.find(0), ds.find(1));
}

#[test]
fn test_union_and_find() {
    let mut ds = DisjointSet::new(5);
    ds.union(1, 0);
    ds.union(2, 3);
    ds.union(1, 2);
    assert_eq!(ds.find(0), ds.find(3));
}

#[test]
fn test_graph() {
    let mut graph = Graph::new((1..6).collect());
    graph.add_edge(1, 2).unwrap();
    graph.add_edge(1, 5).unwrap();
    graph.add_edge(2, 5).unwrap();
    graph.add_edge(2, 3).unwrap();
    graph.add_edge(2, 4).unwrap();
    graph.add_edge(3, 4).unwrap();
    graph.add_edge(4, 5).unwrap();

    assert_eq!(graph.num_v(), 5);
    assert_eq!(graph.num_e(), 7);

    let expected = vec![
        (1, vec![2, 5]),
        (2, vec![1, 5, 3, 4]),
        (3, vec![2, 4]),
        (4, vec![2, 3, 5]),
        (5, vec![1, 2, 4]),
    ]
    .into_iter()
    .collect::<HashMap<usize, Vec<usize>>>();

    assert_eq!(graph.adj_list, expected);
}

#[test]
fn new_keeps_isolated_vertices() {
    let graph = Graph::new([7usize, 3, 11].iter().cloned().collect());
    assert_eq!(graph.num_v(), 3);
    assert_eq!(graph.num_e(), 0);
    assert_eq!(graph.adj_list.get(&7), Some(&Vec::new()));
    assert_eq!(graph.adj_list.get(&3), Some(&Vec::new()));
    assert_eq!(graph.adj_list.get(&11), Some(&Vec::new()));
}

#[test]
fn new_of_nothing_is_empty() {
    let graph = Graph::new(HashSet::new());
    assert_eq!(graph.num_v(), 0);
    assert_eq!(graph.num_e(), 0);
    assert_eq!(graph.get_nodes(), Vec::<usize>::new());
    assert_eq!(graph.connected_components(), Vec::<Vec<usize>>::new());
}

#[test]
fn add_edge_appends_on_both_sides() {
    let mut graph = Graph::new([1usize, 2, 3].iter().cloned().collect());
    assert_eq!(graph.add_edge(1, 2), Ok(()));
    assert_eq!(graph.add_edge(3, 1), Ok(()));
    assert_eq!(graph.adj_list.get(&1), Some(&vec![2, 3]));
    assert_eq!(graph.adj_list.get(&2), Some(&vec![1]));
    assert_eq!(graph.adj_list.get(&3), Some(&vec![1]));
}

#[test]
fn add_edge_refuses_unknown_source_end() {
    let mut graph = Graph::new([1usize, 2].iter().cloned().collect());
    assert_eq!(graph.add_edge(9, 1), Err(GraphError::InvalidNode));
    assert_eq!(graph.adj_list.get(&1), Some(&Vec::new()));
    assert_eq!(graph.adj_list.get(&2), Some(&Vec::new()));
    assert_eq!(graph.num_v(), 2);
}

#[test]
fn add_edge_refuses_unknown_destination_end() {
    let mut graph = Graph::new([1usize, 2].iter().cloned().collect());
    assert_eq!(graph.add_edge(1, 9), Err(GraphError::InvalidNode));
    assert_eq!(graph.adj_list.get(&1), Some(&Vec::new()));
    assert_eq!(graph.num_e(), 0);
}

#[test]
fn add_edge_keeps_loops_and_repeated_edges() {
    let mut graph = Graph::new([1usize, 2].iter().cloned().collect());
    graph.add_edge(1, 1).unwrap();
    graph.add_edge(1, 2).unwrap();
    graph.add_edge(1, 2).unwrap();
    assert_eq!(graph.adj_list.get(&1), Some(&vec![1, 1, 2, 2]));
    assert_eq!(graph.adj_list.get(&2), Some(&vec![1, 1]));
    assert_eq!(graph.num_e(), 3);
}

#[test]
fn get_nodes_is_increasing() {
    let graph = Graph::new([42usize, 7, 1000, 0, 13].iter().cloned().collect());
    assert_eq!(graph.get_nodes(), vec![0, 7, 13, 42, 1000]);
}

#[test]
fn get_nodes_of_many_vertices_is_increasing() {
    let graph = Graph::new((0..500usize).map(|i| (i * 7919) % 1009).collect());
    let nodes = graph.get_nodes();
    assert_eq!(nodes.len(), graph.num_v());
    for i in 1..nodes.len() {
        assert!(nodes[i - 1] < nodes[i]);
    }
    for v in &nodes {
        assert!(graph.adj_list.contains_key(v));
    }
}

#[test]
fn from_edge_list_sample_graph() {
    let graph = Graph::from_edge_list(vec![(1, 2), (1, 5), (2, 5), (2, 3), (2, 4), (3, 4), (4, 5)]);
    assert_eq!(graph.num_v(), 5);
    assert_eq!(graph.num_e(), 7);
    assert_eq!(graph.adj_list, sample_graph().adj_list);
}

#[test]
fn from_edge_list_counts_every_edge() {
    let edges = vec![(3, 9), (9, 4), (4, 3), (10, 11), (3, 10)];
    let graph = Graph::from_edge_list(edges.clone());
    assert_eq!(graph.num_e(), edges.len());
    assert_eq!(graph.num_v(), 5);
    assert_eq!(graph.adj_list.get(&3), Some(&vec![9, 4, 10]));
    assert_eq!(graph.adj_list.get(&9), Some(&vec![3, 4]));
    assert_eq!(graph.adj_list.get(&4), Some(&vec![9, 3]));
    assert_eq!(graph.adj_list.get(&10), Some(&vec![11, 3]));
    assert_eq!(graph.adj_list.get(&11), Some(&vec![10]));
}

#[test]
fn from_edge_list_keeps_loops_and_repeated_edges() {
    let graph = Graph::from_edge_list(vec![(5, 5), (5, 6), (6, 5)]);
    assert_eq!(graph.num_v(), 2);
    assert_eq!(graph.num_e(), 3);
    assert_eq!(graph.adj_list.get(&5), Some(&vec![5, 5, 6, 6]));
    assert_eq!(graph.adj_list.get(&6), Some(&vec![5, 5]));
}

#[test]
fn from_edge_list_of_nothing_is_empty() {
    let graph = Graph::from_edge_list(Vec::new());
    assert_eq!(graph.num_v(), 0);
    assert_eq!(graph.num_e(), 0);
}

#[test]
fn from_edge_list_is_symmetric_and_closed() {
    let graph = Graph::from_edge_list(vec![(8, 2), (2, 6), (6, 8), (1, 8), (30, 31)]);
    for (u, neighbours) in &graph.adj_list {
        for v in neighbours {
            assert!(graph.adj_list.contains_key(v));
            assert!(graph.adj_list[v].contains(u));
        }
    }
}

#[test]
fn components_of_two_pieces() {
    let graph = Graph::from_edge_list(vec![(0, 1), (1, 2), (3, 4)]);
    assert_eq!(graph.connected_components(), vec![vec![0, 1, 2], vec![3, 4]]);
}

#[test]
fn components_with_sparse_vertex_names() {
    let mut graph = Graph::new([100usize, 7, 52, 9000, 31].iter().cloned().collect());
    graph.add_edge(9000, 7).unwrap();
    graph.add_edge(52, 100).unwrap();
    let components = graph.connected_components();
    assert_eq!(components, vec![vec![7, 9000], vec![31], vec![52, 100]]);
}

#[test]
fn components_follow_the_representative() {
    // 0 and 1 stay alone until the last edge hangs them under the
    // representative of {2, 3}, which has the higher rank.
    let graph = Graph::from_edge_list(vec![(2, 3), (0, 2), (5, 4), (1, 3)]);
    let components = graph.connected_components();
    assert_eq!(components, vec![vec![0, 1, 2, 3], vec![4, 5]]);
}

#[test]
fn components_are_ordered_by_representative() {
    // Vertex 0 is merged with 3 first, which makes 0 the representative of
    // {0, 3}; then 1 is merged with 2. The piece of 0 comes first.
    let graph = Graph::from_edge_list(vec![(1, 2), (0, 3)]);
    assert_eq!(graph.connected_components(), vec![vec![0, 3], vec![1, 2]]);
}

#[test]
fn components_cover_every_vertex_once() {
    let graph = Graph::from_edge_list(vec![(1, 2), (3, 4), (5, 6), (2, 3), (7, 7), (9, 8)]);
    let components = graph.connected_components();
    let mut seen: Vec<usize> = Vec::new();
    for component in &components {
        assert!(!component.is_empty());
        for v in component {
            assert!(!seen.contains(v));
            seen.push(*v);
        }
    }
    seen.sort();
    assert_eq!(seen, graph.get_nodes());
    assert_eq!(components.len(), 4);
}

#[test]
fn disjoint_set_new_is_all_singletons() {
    let ds = DisjointSet::new(4);
    assert_eq!(ds.parent, vec![0, 1, 2, 3]);
    assert_eq!(ds.rank, vec![0, 0, 0, 0]);
}

#[test]
fn disjoint_set_of_nothing() {
    let ds = DisjointSet::new(0);
    assert_eq!(ds.parent, Vec::<usize>::new());
    assert_eq!(ds.rank, Vec::<usize>::new());
}

#[test]
fn union_on_a_tie_hangs_the_second_under_the_first() {
    let mut ds = DisjointSet::new(5);
    ds.union(1, 0);
    assert_eq!(ds.parent, vec![1, 1, 2, 3, 4]);
    assert_eq!(ds.rank, vec![0, 1, 0, 0, 0]);
}

#[test]
fn union_hangs_the_lower_rank_under_the_higher() {
    let mut ds = DisjointSet::new(5);
    ds.union(1, 0);
    ds.union(4, 1);
    assert_eq!(ds.parent, vec![1, 1, 2, 3, 1]);
    assert_eq!(ds.rank, vec![0, 1, 0, 0, 0]);
    ds.union(0, 3);
    assert_eq!(ds.parent, vec![1, 1, 2, 1, 1]);
    assert_eq!(ds.rank, vec![0, 1, 0, 0, 0]);
}

#[test]
fn union_of_one_set_changes_nothing() {
    let mut ds = DisjointSet::new(3);
    ds.union(0, 1);
    let parent = ds.parent.clone();
    let rank = ds.rank.clone();
    ds.union(1, 0);
    ds.union(1, 1);
    assert_eq!(ds.parent, parent);
    assert_eq!(ds.rank, rank);
}

#[test]
fn find_compresses_the_path() {
    let mut ds = DisjointSet::new(5);
    ds.union(1, 0);
    ds.union(2, 3);
    ds.union(1, 2);
    assert_eq!(ds.parent, vec![1, 1, 1, 2, 4]);
    assert_eq!(ds.rank, vec![0, 2, 1, 0, 0]);
    assert_eq!(ds.find(3), 1);
    assert_eq!(ds.parent, vec![1, 1, 1, 1, 4]);
    assert_eq!(ds.rank, vec![0, 2, 1, 0, 0]);
    assert_eq!(ds.find(3), 1);
    assert_eq!(ds.parent, vec![1, 1, 1, 1, 4]);
}

#[test]
fn find_compresses_a_long_chain() {
    let mut ds = DisjointSet { parent: vec![1, 2, 3, 3, 4], rank: vec![0, 1, 2, 3, 0] };
    assert_eq!(ds.find(0), 3);
    assert_eq!(ds.parent, vec![3, 3, 3, 3, 4]);
    assert_eq!(ds.rank, vec![0, 1, 2, 3, 0]);
}

#[test]
fn union_of_every_edge_joins_what_is_connected() {
    let edges: Vec<(usize, usize)> = vec![(0, 1), (1, 2), (3, 4), (6, 5), (5, 3)];
    let mut ds = DisjointSet::new(8);
    for &(u, v) in &edges {
        ds.union(u, v);
    }
    let piece = [0, 0, 0, 1, 1, 1, 1, 2];
    for u in 0..8 {
        for v in 0..8 {
            assert_eq!(ds.find(u) == ds.find(v), piece[u] == piece[v]);
        }
    }
}

#[test]
fn is_wf_holds_of_built_graphs() {
    assert!(Graph::new(HashSet::new()).is_wf());
    assert!(sample_graph().is_wf());
    assert!(Graph::from_edge_list(vec![(5, 5), (5, 6), (6, 5), (9, 1)]).is_wf());
}

#[test]
fn is_wf_fails_on_a_neighbour_that_is_no_vertex() {
    let mut graph = Graph::new([1usize, 2].iter().cloned().collect());
    graph.add_edge(1, 2).unwrap();
    graph.adj_list.get_mut(&1).unwrap().push(3);
    assert!(!graph.is_wf());
}

#[test]
fn is_wf_fails_on_an_edge_stored_on_one_end() {
    let mut graph = Graph::new([1usize, 2, 3].iter().cloned().collect());
    graph.add_edge(1, 2).unwrap();
    graph.adj_list.get_mut(&3).unwrap().push(2);
    assert!(!graph.is_wf());
    graph.adj_list.get_mut(&2).unwrap().push(3);
    assert!(graph.is_wf());
}

#[test]
fn sort_distinct_orders_its_input() {
    assert_eq!(netrust::sorted::sort_distinct(&vec![5, 3, 9, 0, 7, 1]), vec![0, 1, 3, 5, 7, 9]);
    assert_eq!(netrust::sorted::sort_distinct(&vec![2, 1]), vec![1, 2]);
    assert_eq!(netrust::sorted::sort_distinct(&vec![4]), vec![4]);
    assert_eq!(netrust::sorted::sort_distinct(&Vec::new()), Vec::<usize>::new());
}

#[test]
fn position_finds_what_is_there() {
    let list = vec![2, 3, 5, 8, 13, 21];
    for (i, x) in list.iter().enumerate() {
        assert_eq!(netrust::sorted::position(&list, *x), Some(i));
    }
    for x in [0, 1, 4, 6, 7, 9, 20, 22, usize::MAX] {
        assert_eq!(netrust::sorted::position(&list, x), None);
    }
    assert_eq!(netrust::sorted::position(&Vec::new(), 3), None);
}
