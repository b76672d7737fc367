use conservation_protocol::laplacian::{LaplacianError, LaplacianMatrix};
use conservation_protocol::message::{ConservationMessage, SparseEntry};

fn entry(col: usize, value: f64) -> SparseEntry {
    SparseEntry { col, value_bits: value.to_bits() }
}

fn values(bits: &[u64]) -> Vec<f64> {
    bits.iter().map(|b| f64::from_bits(*b)).collect()
}

#[test]
fn test_zeros() {
    let lap = LaplacianMatrix::zeros(3);
    assert_eq!(lap.n, 3);
    assert!(lap.rows.iter().all(|r| r.is_empty()));
}

#[test]
fn test_from_adjacency_line_graph() {
    let adjacency = vec![vec![1], vec![0, 2], vec![1]];
    let lap = LaplacianMatrix::from_adjacency(&adjacency);
    assert_eq!(lap.n, 3);
    let dense = lap.to_dense();
    assert_eq!(values(&dense[0]), vec![1.0, -1.0, 0.0]);
    assert_eq!(values(&dense[1]), vec![-1.0, 2.0, -1.0]);
    assert_eq!(values(&dense[2]), vec![0.0, -1.0, 1.0]);
}

#[test]
fn test_from_adjacency_complete_graph() {
    let adjacency = vec![vec![1, 2], vec![0, 2], vec![0, 1]];
    let lap = LaplacianMatrix::from_adjacency(&adjacency);
    let dense = lap.to_dense();
    assert_eq!(values(&dense[0]), vec![2.0, -1.0, -1.0]);
}

#[test]
fn test_degrees() {
    let adjacency = vec![vec![1, 2], vec![0], vec![0]];
    let lap = LaplacianMatrix::from_adjacency(&adjacency);
    let deg = lap.degrees();
    assert_eq!(values(&deg), vec![2.0, 1.0, 1.0]);
}

#[test]
fn test_is_complete() {
    let mut lap = LaplacianMatrix::zeros(2);
    assert!(!lap.is_complete());
    lap.rows[0] = vec![entry(0, 1.0)];
    assert!(!lap.is_complete());
    lap.rows[1] = vec![entry(1, 1.0)];
    assert!(lap.is_complete());
}

#[test]
fn test_set_row_out_of_bounds() {
    let mut lap = LaplacianMatrix::zeros(2);
    let result = lap.set_row(5, vec![]);
    assert!(matches!(result, Err(LaplacianError::IndexOutOfBounds { .. })));
}

#[test]
fn test_get_row_dense_out_of_bounds() {
    let lap = LaplacianMatrix::zeros(2);
    let row = lap.get_row_dense(5);
    assert!(values(&row).iter().all(|&x| x == 0.0));
}

#[test]
fn test_laplacian_row_sums_to_zero() {
    let adjacency = vec![vec![1, 2], vec![0, 3], vec![0, 3], vec![1, 2]];
    let lap = LaplacianMatrix::from_adjacency(&adjacency);
    for i in 0..lap.n {
        let row = values(&lap.get_row_dense(i));
        let sum: f64 = row.iter().sum();
        assert!(sum.abs() < 1e-10, "row {i} sums to {sum}");
    }
}

#[test]
fn rows_are_stably_sorted_by_column() {
    let adjacency = vec![vec![], vec![2, 0, 2], vec![1]];
    let lap = LaplacianMatrix::from_adjacency(&adjacency);
    assert_eq!(lap.rows[0], vec![]);
    assert_eq!(lap.rows[1], vec![entry(0, -1.0), entry(1, 3.0), entry(2, -1.0), entry(2, -1.0)]);
    assert_eq!(lap.rows[2], vec![entry(1, -1.0), entry(2, 1.0)]);
}

#[test]
fn self_loop_keeps_neighbour_entry_first() {
    let adjacency = vec![vec![0]];
    let lap = LaplacianMatrix::from_adjacency(&adjacency);
    assert_eq!(lap.rows[0], vec![entry(0, -1.0), entry(0, 1.0)]);
    assert_eq!(values(&lap.degrees()), vec![-1.0]);
    assert_eq!(values(&lap.get_row_dense(0)), vec![1.0]);
}

#[test]
fn set_row_replaces_only_that_row() {
    let mut lap = LaplacianMatrix::from_adjacency(&vec![vec![1], vec![0]]);
    assert_eq!(lap.set_row(1, vec![entry(1, 7.0)]), Ok(()));
    assert_eq!(lap.rows[1], vec![entry(1, 7.0)]);
    assert_eq!(lap.rows[0], vec![entry(0, 1.0), entry(1, -1.0)]);
    assert_eq!(lap.set_row(2, vec![]), Err(LaplacianError::IndexOutOfBounds { index: 2, size: 2 }));
}

#[test]
fn merge_message_reads_sender_as_row_index() {
    let mut lap = LaplacianMatrix::zeros(3);
    assert_eq!(lap.merge_message("1", vec![entry(1, 2.0)]), Ok(true));
    assert_eq!(lap.rows[1], vec![entry(1, 2.0)]);
    assert_eq!(lap.merge_message("+2", vec![entry(2, 4.0)]), Ok(true));
    assert_eq!(lap.rows[2], vec![entry(2, 4.0)]);
    assert_eq!(
        lap.merge_message("agent-1", vec![]),
        Err(LaplacianError::DimensionMismatch { expected: 3, got: 0 })
    );
    assert_eq!(
        lap.merge_message("-1", vec![]),
        Err(LaplacianError::DimensionMismatch { expected: 3, got: 0 })
    );
    assert_eq!(lap.merge_message("3", vec![]), Err(LaplacianError::IndexOutOfBounds { index: 3, size: 3 }));
    assert!(lap.rows[0].is_empty());
}

#[test]
fn diagonal_positions_find_first_diagonal_entry() {
    let mut lap = LaplacianMatrix::from_adjacency(&vec![vec![1], vec![0]]);
    lap.rows[1] = vec![entry(0, 1.0), entry(1, 2.0), entry(1, 3.0)];
    assert_eq!(lap.diagonal_positions(), vec![Some(0), Some(1)]);
    let empty = LaplacianMatrix::zeros(2);
    assert_eq!(empty.diagonal_positions(), vec![None, None]);
}

#[test]
fn nrows_and_complete_view_of_built_matrix() {
    let lap = LaplacianMatrix::from_adjacency(&vec![vec![1], vec![0], vec![]]);
    assert_eq!(lap.nrows(), 3);
    assert!(!lap.is_complete());
    assert!(LaplacianMatrix::zeros(0).is_complete());
}

#[test]
fn simple_graph_rows_are_strict_symmetric_and_match_messages() {
    let adjacency = vec![vec![3, 1], vec![0, 2], vec![1], vec![0], vec![]];
    let lap = LaplacianMatrix::from_adjacency(&adjacency);
    let dense = lap.to_dense();
    for i in 0..adjacency.len() {
        let cols: Vec<usize> = lap.rows[i].iter().map(|e| e.col).collect();
        assert!(cols.windows(2).all(|w| w[0] < w[1]));
        assert_eq!(lap.rows[i].is_empty(), adjacency[i].is_empty());
        let msg = ConservationMessage::from_adjacency("x", i, &adjacency, 1);
        assert_eq!(msg.laplacian_row, lap.rows[i]);
        for j in 0..adjacency.len() {
            assert_eq!(dense[i][j], dense[j][i]);
        }
    }
    assert_eq!(values(&dense[0]), vec![2.0, -1.0, 0.0, -1.0, 0.0]);
}

#[test]
fn diagonal_rows_lists_rows_with_a_diagonal() {
    let mut lap = LaplacianMatrix::from_adjacency(&vec![vec![1], vec![0], vec![]]);
    assert_eq!(lap.diagonal_rows(), vec![0, 1]);
    lap.rows[2] = vec![entry(0, 1.0)];
    assert_eq!(lap.diagonal_rows(), vec![0, 1]);
    lap.rows[2].push(entry(2, 4.0));
    assert_eq!(lap.diagonal_rows(), vec![0, 1, 2]);
}
