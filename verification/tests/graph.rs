use algos::graph::digraph::Graph;
use algos::graph::scc::SCCTrait;
use algos::graph::search::finish_order;

fn graph(n: usize, edges: &[(usize, usize)]) -> Graph {
    let mut g = Graph::new(n);
    for &(a, b) in edges {
        g.add_edge(a, b);
    }
    g
}

fn rows(g: &Graph) -> Vec<Vec<usize>> {
    (0..g.vertex_count()).map(|v| g.edges(v).clone()).collect()
}

#[test]
fn graph_new_and_edges() {
    let mut g = Graph::new(3);
    assert_eq!(g.vertex_count(), 3);
    g.add_edge(0, 2);
    g.add_edge(0, 1);
    g.add_vertices(2);
    g.add_edge(4, 0);
    assert_eq!(g.vertex_count(), 5);
    assert_eq!(rows(&g), vec![vec![2, 1], vec![], vec![], vec![], vec![0]]);
}

#[test]
fn finish_order_of_a_chain() {
    let g = graph(4, &[(3, 2), (2, 1), (1, 0)]);
    assert_eq!(finish_order(&g), vec![0, 1, 2, 3]);
    let g = graph(5, &[(0, 1), (1, 2), (2, 0), (2, 3), (3, 4)]);
    assert_eq!(finish_order(&g), vec![4, 3, 2, 1, 0]);
}

#[test]
fn scc_cycle_with_tail() {
    let g = graph(5, &[(0, 1), (1, 2), (2, 0), (2, 3), (3, 4)]);
    let s = g.scc();
    assert_eq!(s.color, vec![0, 0, 0, 1, 2]);
    assert_eq!(rows(&s.graph), vec![vec![1], vec![2], vec![]]);
}

#[test]
fn scc_edges_between_components_once() {
    let g = graph(
        6,
        &[(0, 1), (1, 0), (2, 3), (3, 2), (1, 2), (0, 3), (4, 5), (5, 4), (3, 4), (0, 5)],
    );
    let s = g.scc();
    assert_eq!(s.color, vec![0, 0, 1, 1, 2, 2]);
    assert_eq!(rows(&s.graph), vec![vec![1, 2], vec![2], vec![]]);
}

#[test]
fn scc_without_edges() {
    let s = graph(4, &[]).scc();
    assert_eq!(s.color, vec![3, 2, 1, 0]);
    assert_eq!(rows(&s.graph), vec![Vec::<usize>::new(); 4]);
    let s = graph(0, &[]).scc();
    assert!(s.color.is_empty());
    assert_eq!(s.graph.vertex_count(), 0);
}

#[test]
fn scc_one_cycle() {
    let s = graph(3, &[(0, 1), (1, 2), (2, 0)]).scc();
    assert_eq!(s.color, vec![0, 0, 0]);
    assert_eq!(rows(&s.graph), vec![Vec::<usize>::new()]);
}

#[test]
fn scc_chain_numbers_sources_first() {
    let s = graph(4, &[(3, 2), (2, 1), (1, 0)]).scc();
    assert_eq!(s.color, vec![3, 2, 1, 0]);
    assert_eq!(rows(&s.graph), vec![vec![1], vec![2], vec![3], vec![]]);
}
