use lexparse::graph::connected_component_count;
use lexparse::Matrix;

fn undirected(n: usize, edges: &[(usize, usize)]) -> Matrix<bool> {
    let mut m = vec![vec![false; n]; n];
    for &(a, b) in edges {
        m[a][b] = true;
        m[b][a] = true;
    }
    Matrix(m)
}

#[test]
fn counts_components_of_undirected_graph() {
    assert_eq!(connected_component_count(&undirected(5, &[(0, 1), (2, 3)])), 3);
    assert_eq!(connected_component_count(&undirected(4, &[(0, 3), (3, 1), (1, 2)])), 1);
    assert_eq!(connected_component_count(&undirected(1, &[])), 1);
    assert_eq!(connected_component_count(&undirected(6, &[])), 6);
}

#[test]
fn search_follows_long_paths() {
    let edges: Vec<(usize, usize)> = (0..9).map(|i| (i, i + 1)).collect();
    assert_eq!(connected_component_count(&undirected(10, &edges)), 1);
    assert_eq!(connected_component_count(&undirected(10, &edges[..4])), 6);
}

#[test]
fn directed_edges_count_searches_started() {
    let forward = Matrix(vec![
        vec![false, true, false],
        vec![false, false, false],
        vec![false, false, false],
    ]);
    assert_eq!(connected_component_count(&forward), 2);
    let backward = Matrix(vec![
        vec![false, false, false],
        vec![true, false, false],
        vec![false, false, false],
    ]);
    assert_eq!(connected_component_count(&backward), 3);
}
