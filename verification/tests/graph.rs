use procon_lib::structure::graph::{
    has_cycle, is_connected, is_tree, AdjacencyList, EdgeList, Tree, TreeTryFromError, UndirectedAdjacencyList,
};
use procon_lib::structure::disjoint_sets::DisjointSets;
use procon_lib::traits::math::graph::{Edge, Graph, ProvideAdjacencies, ReadonlyGraph};

#[test]
fn test_is_connected() {
    let mut graph = UndirectedAdjacencyList::<i32>::of_size(3);
    graph.add_edge((0, 2));
    assert!(!is_connected(&graph));
    graph.add_edge((0, 1));
    assert!(is_connected(&graph));

    let mut graph = UndirectedAdjacencyList::<i32>::of_size(9);
    let edges = [(0, 2), (0, 3), (1, 4), (1, 5), (1, 6), (2, 7), (2, 8)];
    graph.add_edges(edges.to_vec());
    assert!(!is_connected(&graph));
}

#[test]
fn test_has_cycle() {
    let mut graph = UndirectedAdjacencyList::<i32>::of_size(4);
    graph.add_edge((0, 2));
    graph.add_edge((0, 3));
    graph.add_edge((1, 2));
    assert!(!has_cycle(&graph));
    graph.add_edge((0, 1));
    assert!(has_cycle(&graph));

    let mut graph = UndirectedAdjacencyList::<i32>::of_size(9);
    let edges = [(0, 2), (0, 3), (1, 4), (1, 5), (1, 6), (2, 7), (2, 8)];
    graph.add_edges(edges.to_vec());
    assert!(!has_cycle(&graph));
}

#[test]
fn test_tree() {
    let mut graph = UndirectedAdjacencyList::<i32>::of_size(9);
    let edges = [(0, 2), (0, 3), (1, 4), (1, 5), (1, 6), (2, 7), (2, 8)];
    graph.add_edges(edges.to_vec());
    assert!(matches!(
        Tree::try_from_graph(graph.clone()),
        Err(TreeTryFromError::NotConnected),
    ));

    graph.add_edge((0, 1));
    let tree = match Tree::try_from_graph(graph.clone()) {
        Ok(t) => t,
        Err(_) => panic!(),
    };
    assert!(is_tree(&tree).is_ok());

    graph.add_edge((1, 2));
    assert!(matches!(
        Tree::try_from_graph(graph),
        Err(TreeTryFromError::HasCycle),
    ));
}

#[test]
fn every_verdict() {
    let mut graph = UndirectedAdjacencyList::<i32>::of_size(5);
    graph.add_edges(vec![(0, 1), (1, 2), (2, 0)]);
    assert_eq!(is_tree(&graph), Err(TreeTryFromError::Both));
    graph.add_edges(vec![(2, 3), (3, 4)]);
    assert_eq!(is_tree(&graph), Err(TreeTryFromError::HasCycle));
    graph.remove_edge(2, 0);
    assert_eq!(is_tree(&graph), Ok(()));
    graph.remove_edge(3, 2);
    assert_eq!(is_tree(&graph), Err(TreeTryFromError::NotConnected));
}

#[test]
fn loops_and_parallel_edges_are_cycles() {
    let mut graph = UndirectedAdjacencyList::<i32>::of_size(2);
    assert!(!has_cycle(&graph));
    graph.add_edge((1, 1));
    assert!(has_cycle(&graph));

    let mut graph = UndirectedAdjacencyList::<i32>::of_size(3);
    graph.add_edge((1, 2));
    assert!(!has_cycle(&graph));
    graph.add_edge((2, 1));
    assert!(has_cycle(&graph));
}

#[test]
fn a_cycle_away_from_the_first_vertex() {
    let mut graph = UndirectedAdjacencyList::<i64>::of_size(7);
    graph.add_edges(vec![(0, 1), (3, 4), (4, 5), (5, 6), (6, 3)]);
    assert!(has_cycle(&graph));
    assert!(!is_connected(&graph));
}

#[test]
fn a_single_vertex_is_a_tree() {
    let graph = UndirectedAdjacencyList::<u8>::of_size(1);
    assert!(is_connected(&graph));
    assert!(!has_cycle(&graph));
    assert!(Tree::try_from_graph(graph).is_ok());
}

#[test]
fn a_path_is_a_tree() {
    let n = 50;
    let mut graph = UndirectedAdjacencyList::<u32>::of_size(n);
    for v in 1..n {
        graph.add_edge((v - 1, v, 7));
    }
    let tree = Tree::try_from_graph(graph).unwrap();
    assert_eq!(tree.size(), n);
    assert_eq!(tree.get_adjacencies(0).unwrap().len(), 1);
    assert_eq!(tree.get_adjacencies(1).unwrap().len(), 2);
    assert!(tree.get_adjacencies(n).is_none());
}

#[test]
fn undirected_edges_stand_in_both_lists() {
    let mut graph = UndirectedAdjacencyList::<i32>::of_size(3);
    graph.add_edge((0, 2, 5));
    assert_eq!(graph.get_adjacencies(0).unwrap(), &[Edge::new(0, 2, 5)]);
    assert_eq!(graph.get_adjacencies(2).unwrap(), &[Edge::new(2, 0, 5)]);
    assert!(graph.get_adjacencies(1).unwrap().is_empty());
    assert!(graph.get_adjacencies(3).is_none());
    graph.add_edge((0, 2, 6));
    graph.remove_edge_exact((2, 0, 5));
    assert_eq!(graph.get_adjacencies(0).unwrap(), &[Edge::new(0, 2, 6)]);
    assert_eq!(graph.get_adjacencies(2).unwrap(), &[Edge::new(2, 0, 6)]);
    graph.remove_edge(0, 2);
    assert!(graph.get_adjacencies(0).unwrap().is_empty());
    assert!(graph.get_adjacencies(2).unwrap().is_empty());
}

#[test]
fn edge_list_keeps_the_order() {
    let mut graph = EdgeList::<i32>::of_size(4);
    graph.add_edges(vec![(0, 1, 3), (1, 2, 4), (0, 1, 5), (2, 3, 3)]);
    assert_eq!(graph.size(), 4);
    assert_eq!(graph.edges().len(), 4);
    graph.remove_edge_exact((0, 1, 5));
    assert_eq!(graph.edges(), &[Edge::new(0, 1, 3), Edge::new(1, 2, 4), Edge::new(2, 3, 3)]);
    graph.remove_edge(1, 2);
    assert_eq!(graph.edges(), &[Edge::new(0, 1, 3), Edge::new(2, 3, 3)]);
    graph.add_edge((3, 0));
    assert_eq!(graph.edges()[2], Edge::one(3, 0));
}

#[test]
fn adjacency_list_from_edge_list() {
    let mut list = EdgeList::<i32>::of_size(3);
    list.add_edges(vec![(0, 1, 3), (2, 1, 4), (0, 2, 5)]);
    let mut graph = AdjacencyList::from_edge_list(list);
    assert_eq!(graph.size(), 3);
    assert_eq!(graph.get_adjacencies(0).unwrap(), &[Edge::new(0, 1, 3), Edge::new(0, 2, 5)]);
    assert!(graph.get_adjacencies(1).unwrap().is_empty());
    assert_eq!(graph.get_adjacencies(2).unwrap(), &[Edge::new(2, 1, 4)]);
    graph.remove_edge(0, 1);
    assert_eq!(graph.get_adjacencies(0).unwrap(), &[Edge::new(0, 2, 5)]);
    graph.remove_edge_exact((2, 1, 9));
    assert_eq!(graph.get_adjacencies(2).unwrap().len(), 1);
    graph.remove_edge_exact((2, 1, 4));
    assert!(graph.get_adjacencies(2).unwrap().is_empty());
}

#[test]
fn edges_turn_round() {
    let e = Edge::new(3, 8, -2);
    let r = e.reversed();
    assert_eq!((r.from, r.to, r.cost), (8, 3, -2));
    let one: Edge<u16> = Edge::one(1, 2);
    assert_eq!(one.cost, 1);
    let from_pair: Edge<i64> = (4, 5).into();
    assert_eq!(from_pair, Edge::new(4, 5, 1));
}

#[test]
fn verdicts_agree_with_merging_sets() {
    let mut seed: u64 = 0x2545_f491_4f6c_dd1d;
    let mut next = move |bound: usize| {
        seed ^= seed << 13;
        seed ^= seed >> 7;
        seed ^= seed << 17;
        (seed % bound as u64) as usize
    };
    for round in 0..300 {
        let n = 1 + next(8);
        let m = next(2 * n);
        let mut graph = UndirectedAdjacencyList::<i32>::of_size(n);
        let mut sets = DisjointSets::new(n);
        let mut cyclic = false;
        for _ in 0..m {
            let (a, b) = (next(n), next(n));
            graph.add_edge((a, b));
            if !sets.merge(a, b) {
                cyclic = true;
            }
        }
        let connected = sets.size() == 1;
        assert_eq!(has_cycle(&graph), cyclic, "round {}", round);
        assert_eq!(is_connected(&graph), connected, "round {}", round);
        let verdict = match (connected, cyclic) {
            (true, false) => Ok(()),
            (false, false) => Err(TreeTryFromError::NotConnected),
            (true, true) => Err(TreeTryFromError::HasCycle),
            (false, true) => Err(TreeTryFromError::Both),
        };
        assert_eq!(is_tree(&graph), verdict, "round {}", round);
        if connected && m == n - 1 {
            assert!(is_tree(&graph).is_ok());
        }
    }
}
