use data_structures::error::StructureError;
use data_structures::graph::{Array2D, BiGraph};

fn square() -> BiGraph {
    let mut g = BiGraph::new(4);
    assert_eq!(g.add_connection(0, 1), Ok(()));
    assert_eq!(g.add_connection(1, 2), Ok(()));
    assert_eq!(g.add_connection(2, 3), Ok(()));
    assert_eq!(g.add_connection(0, 3), Ok(()));
    g
}

#[test]
fn array2d_starts_all_false() {
    let _ = Array2D::new(3);
    let g = BiGraph::new(3);
    for i in 0..3 {
        for j in 0..3 {
            assert_eq!(g.is_connected(i, j), Some(false));
        }
    }
    assert_eq!(g.vertex_count(), 3);
}

#[test]
fn add_connection_sets_both_directions() {
    let mut g = BiGraph::new(5);
    assert_eq!(g.add_connection(1, 4), Ok(()));
    assert_eq!(g.is_connected(1, 4), Some(true));
    assert_eq!(g.is_connected(4, 1), Some(true));
    assert_eq!(g.is_connected(1, 3), Some(false));
    assert_eq!(g.remove_connection(4, 1), Ok(()));
    assert_eq!(g.is_connected(1, 4), Some(false));
    assert_eq!(g.is_connected(4, 1), Some(false));
}

#[test]
fn remove_missing_connection_is_noop() {
    let mut g = BiGraph::new(4);
    assert_eq!(g.remove_connection(0, 1), Ok(()));
    assert_eq!(g.is_connected(0, 1), Some(false));
    assert_eq!(g.is_connected(1, 0), Some(false));
}

#[test]
fn connections_out_of_range_are_rejected() {
    let mut g = BiGraph::new(4);
    assert_eq!(g.add_connection(4, 0), Err(StructureError::IndexOutOfRange));
    assert_eq!(g.add_connection(0, 4), Err(StructureError::IndexOutOfRange));
    assert_eq!(g.remove_connection(0, usize::MAX), Err(StructureError::IndexOutOfRange));
    assert_eq!(g.is_connected(0, 4), None);
    for i in 0..4 {
        for j in 0..4 {
            assert_eq!(g.is_connected(i, j), Some(false));
        }
    }
}

#[test]
fn bfs_finds_vertex_on_cycle() {
    let g = square();
    assert_eq!(g.breadth_first_search(0, 2), Ok(true));
    assert_eq!(g.breadth_first_search(3, 1), Ok(true));
}

#[test]
fn bfs_on_graph_without_edges() {
    let g = BiGraph::new(4);
    assert_eq!(g.breadth_first_search(0, 2), Ok(false));
    assert_eq!(g.breadth_first_search(1, 1), Ok(true));
}

#[test]
fn bfs_does_not_cross_components() {
    let mut g = BiGraph::new(6);
    assert_eq!(g.add_connection(0, 1), Ok(()));
    assert_eq!(g.add_connection(1, 2), Ok(()));
    assert_eq!(g.add_connection(2, 0), Ok(()));
    assert_eq!(g.add_connection(3, 4), Ok(()));
    assert_eq!(g.breadth_first_search(0, 4), Ok(false));
    assert_eq!(g.breadth_first_search(4, 3), Ok(true));
    assert_eq!(g.breadth_first_search(2, 5), Ok(false));
    assert_eq!(g.remove_connection(1, 2), Ok(()));
    assert_eq!(g.remove_connection(2, 0), Ok(()));
    assert_eq!(g.breadth_first_search(0, 2), Ok(false));
}

#[test]
fn bfs_follows_long_chain() {
    let mut g = BiGraph::new(8);
    for v in 0..7 {
        assert_eq!(g.add_connection(v + 1, v), Ok(()));
    }
    assert_eq!(g.breadth_first_search(0, 7), Ok(true));
    assert_eq!(g.remove_connection(3, 4), Ok(()));
    assert_eq!(g.breadth_first_search(0, 7), Ok(false));
}

#[test]
fn bfs_rejects_vertices_out_of_range() {
    let g = square();
    assert_eq!(g.breadth_first_search(4, 0), Err(StructureError::IndexOutOfRange));
    assert_eq!(g.breadth_first_search(0, 9), Err(StructureError::IndexOutOfRange));
}
