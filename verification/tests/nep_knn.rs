use fces::error::FcesError;
use fces::knn::{knn_width, neighbor_row};
use fces::nep::NepWorkspace;
use fces::types::KnnGraph;

#[test]
fn shared_columns_project_neighbour_rows() {
    let g = KnnGraph { nbrs: vec![vec![0, 1, 2], vec![1, 2, 3], vec![2, 0, 1], vec![3, 1, 0]] };
    let mut ws = NepWorkspace::new(4);
    let table = ws.shared_columns(&g, 0);
    // Row 0 is [0, 1, 2]; neighbour 0's row [0, 1, 2] maps onto itself.
    assert_eq!(table[0], vec![Some(0), Some(1), Some(2)]);
    // Neighbour 1's row [1, 2, 3]: node 1 -> column 1, node 2 -> column 2.
    assert_eq!(table[1], vec![None, Some(0), Some(1)]);
    // Neighbour 2's row [2, 0, 1].
    assert_eq!(table[2], vec![Some(1), Some(2), Some(0)]);
    // The workspace is reusable for the next row.
    let table3 = ws.shared_columns(&g, 3);
    // Row 3 is [3, 1, 0].
    assert_eq!(table3[0], vec![Some(0), Some(1), Some(2)]);
    assert_eq!(table3[1], vec![Some(2), Some(0), None]);
    assert_eq!(table3[2], vec![None, Some(1), Some(0)]);
}

#[test]
fn shared_columns_last_write_wins() {
    let g = KnnGraph { nbrs: vec![vec![0, 1, 0], vec![0, 0, 1]] };
    let mut ws = NepWorkspace::new(2);
    let table = ws.shared_columns(&g, 0);
    // Node 0 stands last at column 2 of row 0; node 1 at column 1.
    assert_eq!(table[0], vec![None, Some(1), Some(2)]);
    assert_eq!(table[1], vec![None, Some(2), Some(1)]);
}

#[test]
fn knn_width_and_rows() {
    assert_eq!(knn_width(12, 80).ok(), Some(12));
    assert_eq!(knn_width(100, 80).ok(), Some(80));
    assert!(matches!(knn_width(0, 5), Err(FcesError::InvalidInput(_))));
    assert_eq!(neighbor_row(&vec![4, 2], 3), vec![4, 2, 0]);
    assert_eq!(neighbor_row(&vec![4, 2, 7, 1], 3), vec![4, 2, 7]);
    assert_eq!(neighbor_row(&vec![(1u64 << 32) + 3], 1), vec![3]);
}
