use std::f32::consts::{E, PI};
use vectoriadb::graph::{AcndgError, AnyCastNdGraph, NdGraph, NdgError};

#[test]
fn ndg_constructors_work() {
    _ = NdGraph::new();
    for size in 1..=14 {
        _ = NdGraph::with_capacity(size);
    }
}

#[test]
fn ndg_insertion_works() {
    let mut graph = NdGraph::new();
    assert_eq!(graph.push_many(1000), 999);
    assert_eq!(graph.capacity(), 1000);

    graph = NdGraph::with_capacity(10);
    assert_eq!(graph.push_one(), 0);
}

#[test]
fn ndg_connectivity_works() {
    let mut graph = NdGraph::with_capacity(10);
    graph.push_many(graph.capacity());
    graph.connect(0, 9, E.to_bits()).unwrap();
    assert_eq!(graph.get_vertice(0, 9).unwrap().unwrap(), E.to_bits());
    graph.connect(9, 1, PI.to_bits()).unwrap();
    assert_eq!(graph.get_vertice(1, 9).unwrap().unwrap(), PI.to_bits());
    // no connection
    assert!(graph.get_vertice(1, 2).unwrap().is_none());
    // out of bound
    assert_eq!(graph.get_vertice(10, 0), Err(NdgError::ExceedBoundary(11, graph.capacity())));
}

#[test]
fn acndg_constructors_works() {
    _ = AnyCastNdGraph::new();
    for cap in 1..=14 {
        _ = AnyCastNdGraph::with_capacity(cap)
    }
}

#[test]
fn acndg_connectivity_works() {
    let mut graph = AnyCastNdGraph::new();
    graph.connect(36, 69, 0.42f32.to_bits()).unwrap();
    assert_eq!(0.42f32.to_bits(), graph.get_vertice(36, 69).unwrap().unwrap());
}

#[test]
fn connect_is_symmetric() {
    let mut g = NdGraph::new();
    g.push_many(5);
    g.connect(3, 1, 2.5f32.to_bits()).unwrap();
    assert_eq!(g.get_vertice(3, 1).unwrap(), Some(2.5f32.to_bits()));
    assert_eq!(g.get_vertice(1, 3).unwrap(), Some(2.5f32.to_bits()));
    g.connect(1, 3, 7.0f32.to_bits()).unwrap();
    assert_eq!(g.get_vertice(3, 1).unwrap(), Some(7.0f32.to_bits()));
}

#[test]
fn out_of_bounds_never_mutates() {
    let mut g = NdGraph::new();
    g.push_many(3);
    g.connect(0, 1, 1.0f32.to_bits()).unwrap();
    assert_eq!(g.connect(5, 1, 2.0f32.to_bits()), Err(NdgError::ExceedBoundary(6, 3)));
    assert_eq!(g.connect(1, 3, 2.0f32.to_bits()), Err(NdgError::ExceedBoundary(4, 3)));
    assert_eq!(g.get_vertice(0, 3), Err(NdgError::ExceedBoundary(4, 3)));
    assert_eq!(g.get_vertice(0, 1).unwrap(), Some(1.0f32.to_bits()));
    assert_eq!(g.len(), 3);
}

#[test]
fn infinity_and_nan_mean_no_edge() {
    let mut g = NdGraph::new();
    g.push_many(2);
    g.connect(0, 1, f32::INFINITY.to_bits()).unwrap();
    assert_eq!(g.get_vertice(0, 1).unwrap(), None);
    g.connect(0, 1, f32::NAN.to_bits()).unwrap();
    assert_eq!(g.get_vertice(0, 1).unwrap(), None);
    g.connect(0, 1, f32::NEG_INFINITY.to_bits()).unwrap();
    assert_eq!(g.get_vertice(0, 1).unwrap(), Some(f32::NEG_INFINITY.to_bits()));
}

#[test]
fn neighbors_cover_both_directions() {
    let mut g = NdGraph::with_capacity(2);
    assert_eq!(g.push_many(5), 4);
    assert_eq!(g.capacity(), 5);
    g.connect(2, 0, 1.0f32.to_bits()).unwrap();
    g.connect(2, 4, 3.0f32.to_bits()).unwrap();
    assert_eq!(g.get_neighbors(2), vec![0, 4]);
    assert_eq!(g.get_neighbors(4), vec![2]);
    assert_eq!(g.get_vertices(2), vec![(0, 1.0f32.to_bits()), (4, 3.0f32.to_bits())]);
    assert!(g.get_neighbors(9).is_empty());
    assert!(g.get_vertices(1).is_empty());
}

#[test]
fn adjacency_list_sizes_and_first_edge_wins() {
    let g = NdGraph::from_adj_list(vec![(1, 4, 1.0f32.to_bits()), (4, 1, 2.0f32.to_bits())]);
    assert_eq!(g.len(), 5);
    assert_eq!(g.capacity(), 5);
    assert_eq!(g.get_vertice(4, 1).unwrap(), Some(1.0f32.to_bits()));
    let empty = NdGraph::from_adj_list(vec![]);
    assert!(empty.is_empty());
}

#[test]
fn scattered_ids_get_dense_ids() {
    let mut g = AnyCastNdGraph::new();
    for i in 0..=1000u32 {
        g.connect(i + 69, i + 4069, (420f32 / i as f32).to_bits()).unwrap();
    }
    assert_eq!(g.len(), 2002);
    assert_eq!(g.get_vertice(69, 4069).unwrap(), None);
    assert_eq!(g.get_vertice(70, 4070).unwrap(), Some(420f32.to_bits()));
    assert_eq!(g.get_vertice(5, 69), Err(AcndgError::NodeNonexistence(5)));
    assert_eq!(g.get_vertice(69, 5), Err(AcndgError::NodeNonexistence(5)));
    assert!(g.get_neighbors(5).is_empty());
    assert_eq!(g.get_neighbors(70), vec![3]);
}

#[test]
fn scattered_adjacency_list_last_edge_wins() {
    let g = AnyCastNdGraph::from_adj_list(vec![
        (100, 7, 1.0f32.to_bits()),
        (7, 100, 2.0f32.to_bits()),
        (5, 100, 3.0f32.to_bits()),
    ]);
    assert_eq!(g.len(), 3);
    assert_eq!(g.capacity(), 3);
    assert_eq!(g.get_vertice(100, 7).unwrap(), Some(2.0f32.to_bits()));
    assert_eq!(g.get_vertice(100, 5).unwrap(), Some(3.0f32.to_bits()));
    assert_eq!(g.get_vertice(7, 5).unwrap(), None);
    assert_eq!(g.get_vertice(8, 5), Err(AcndgError::NodeNonexistence(8)));
    assert!(!g.is_empty());
}

#[test]
fn scattered_over_dense_keeps_ids() {
    let mut d = NdGraph::new();
    d.push_many(4);
    d.connect(0, 3, 1.0f32.to_bits()).unwrap();
    let g = AnyCastNdGraph::from(d);
    assert_eq!(g.get_vertice(3, 0).unwrap(), Some(1.0f32.to_bits()));
    assert_eq!(g.get_vertice(1, 0), Err(AcndgError::NodeNonexistence(1)));
    assert_eq!(g.get_vertices(0), vec![(3, 1.0f32.to_bits())]);
    assert_eq!(g.len(), 4);
}
