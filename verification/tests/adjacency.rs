use graph_matrix::{GraphMatrix, GraphMatrixError, GraphMatrixIterator};

fn collect_edges(g: &GraphMatrix) -> Vec<(usize, usize)> {
    let mut it = GraphMatrixIterator::new(g);
    let mut out: Vec<(usize, usize)> = Vec::new();
    while let Some(e) = it.next() {
        out.push(e);
    }
    out
}

#[test]
fn scenario_three_edges() {
    let g = GraphMatrix::from_edgelist(vec![(0, 1), (0, 2), (1, 2)]).unwrap();
    assert_eq!(g.dims(), (3, 3));
    assert_eq!(g.ne(), 3);
    assert_eq!(g.indptr(), &vec![0, 2, 3, 3]);
    assert_eq!(g.indices(), &vec![1, 2, 2]);
    assert_eq!(g.row(0).unwrap().to_vec(), vec![1, 2]);
    assert_eq!(g.row(1).unwrap().to_vec(), vec![2]);
    assert_eq!(g.row(2).unwrap().len(), 0);
    assert_eq!(g.has_index(0, 2), Ok(true));
    assert_eq!(g.has_index(2, 0), Ok(false));
}

#[test]
fn scenario_self_loop() {
    let g = GraphMatrix::from_edgelist(vec![(0, 0)]).unwrap();
    assert_eq!(g.dims(), (1, 1));
    assert_eq!(g.indptr(), &vec![0, 1]);
    assert_eq!(g.indices(), &vec![0]);
}

#[test]
fn scenario_duplicate_edge() {
    let g = GraphMatrix::from_edgelist(vec![(0, 1), (0, 1)]).unwrap();
    assert_eq!(g.ne(), 1);
    let single = GraphMatrix::from_edgelist(vec![(0, 1)]).unwrap();
    assert_eq!(g.indptr(), single.indptr());
    assert_eq!(g.indices(), single.indices());
}

#[test]
fn scenario_empty_list() {
    let r = GraphMatrix::from_edgelist(vec![]);
    assert!(matches!(r, Err(GraphMatrixError::InvalidIndex)));
}

#[test]
fn scenario_empty_middle_row() {
    let g = GraphMatrix::from_edgelist(vec![(0, 2), (2, 0)]).unwrap();
    assert_eq!(g.dims(), (3, 3));
    assert_eq!(g.row(1).unwrap().len(), 0);
    assert_eq!(g.row_len(1), Ok(0));
    assert_eq!(collect_edges(&g), vec![(0, 2), (2, 0)]);
}

#[test]
fn unsorted_input_is_normalized() {
    let g = GraphMatrix::from_edgelist(vec![(2, 0), (0, 2), (1, 1), (0, 1)]).unwrap();
    assert_eq!(g.indptr(), &vec![0, 2, 3, 4]);
    assert_eq!(g.indices(), &vec![1, 2, 1, 0]);
    assert_eq!(collect_edges(&g), vec![(0, 1), (0, 2), (1, 1), (2, 0)]);
}

#[test]
fn dims_from_largest_value() {
    let g = GraphMatrix::from_edgelist(vec![(1, 7), (3, 2)]).unwrap();
    assert_eq!(g.dims(), (8, 8));
    let h = GraphMatrix::from_edgelist(vec![(9, 0)]).unwrap();
    assert_eq!(h.dims(), (10, 10));
}

#[test]
fn dimension_overflow_is_rejected() {
    let r = GraphMatrix::from_edgelist(vec![(usize::MAX, 0)]);
    assert!(matches!(r, Err(GraphMatrixError::InvalidIndex)));
}

#[test]
fn row_out_of_bounds() {
    let g = GraphMatrix::from_edgelist(vec![(0, 1), (1, 0)]).unwrap();
    assert!(matches!(g.row(2), Err(GraphMatrixError::BoundsError)));
    assert!(matches!(g.row_len(5), Err(GraphMatrixError::BoundsError)));
    assert!(matches!(g.has_index(2, 0), Err(GraphMatrixError::BoundsError)));
}

#[test]
fn membership_of_every_stored_edge() {
    let edges = vec![(0, 3), (1, 1), (1, 4), (4, 0), (4, 4)];
    let g = GraphMatrix::from_edgelist(edges.clone()).unwrap();
    for &(r, c) in &edges {
        assert_eq!(g.has_index(r, c), Ok(true));
    }
    let (n, _) = g.dims();
    for r in 0..n {
        for c in 0..n {
            let expected = edges.contains(&(r, c));
            assert_eq!(g.has_index(r, c), Ok(expected));
        }
    }
}

#[test]
fn row_lengths_sum_to_edge_count() {
    let g = GraphMatrix::from_edgelist(vec![(0, 3), (1, 1), (1, 4), (4, 0), (4, 4)]).unwrap();
    let (n, _) = g.dims();
    let mut total: usize = 0;
    for r in 0..n {
        total += g.row_len(r).unwrap();
    }
    assert_eq!(total, g.ne());
}

#[test]
fn deduplicated_list_keeps_its_count() {
    let edges = vec![(3, 1), (0, 0), (2, 2), (1, 3)];
    let g = GraphMatrix::from_edgelist(edges).unwrap();
    assert_eq!(g.ne(), 4);
}

#[test]
fn iterator_yields_every_edge_in_order() {
    let edges = vec![(2, 1), (0, 5), (2, 0), (5, 5), (0, 1)];
    let g = GraphMatrix::from_edgelist(edges).unwrap();
    let collected = collect_edges(&g);
    assert_eq!(collected.len(), g.ne());
    assert_eq!(collected, vec![(0, 1), (0, 5), (2, 0), (2, 1), (5, 5)]);
}

#[test]
fn iterator_skips_leading_empty_rows() {
    let g = GraphMatrix::from_edgelist(vec![(2, 0)]).unwrap();
    assert_eq!(g.dims(), (3, 3));
    assert_eq!(collect_edges(&g), vec![(2, 0)]);
}

#[test]
fn iterator_stays_exhausted() {
    let g = GraphMatrix::from_edgelist(vec![(0, 1)]).unwrap();
    let mut it = GraphMatrixIterator::new(&g);
    assert_eq!(it.next(), Some((0, 1)));
    assert_eq!(it.next(), None);
    assert_eq!(it.next(), None);
}

#[test]
fn independent_iterators_restart() {
    let g = GraphMatrix::from_edgelist(vec![(0, 1), (1, 0)]).unwrap();
    let mut first = GraphMatrixIterator::new(&g);
    assert_eq!(first.next(), Some((0, 1)));
    let mut second = GraphMatrixIterator::new(&g);
    assert_eq!(second.next(), Some((0, 1)));
    assert_eq!(first.next(), Some((1, 0)));
}

#[test]
fn round_trip_reproduces_arrays() {
    let g = GraphMatrix::from_edgelist(vec![(0, 2), (4, 1), (2, 2), (0, 0), (4, 0)]).unwrap();
    let again = GraphMatrix::from_edgelist(collect_edges(&g)).unwrap();
    assert_eq!(g.indptr(), again.indptr());
    assert_eq!(g.indices(), again.indices());
}
