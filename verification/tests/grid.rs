use wasm_pf::grid::{get_adjacent, idx_to_coords, manhattan};

#[test]
fn coords_are_column_and_row() {
    assert_eq!(idx_to_coords(0, 3), (0, 0));
    assert_eq!(idx_to_coords(7, 3), (1, 2));
    assert_eq!(idx_to_coords(5, 3), (2, 1));
    assert_eq!(idx_to_coords(12, 1), (0, 12));
    assert_eq!(idx_to_coords(4, 10), (4, 0));
}

#[test]
fn manhattan_adds_column_and_row_differences() {
    assert_eq!(manhattan(0, 8, 3), 4);
    assert_eq!(manhattan(8, 0, 3), 4);
    assert_eq!(manhattan(2, 6, 3), 4);
    assert_eq!(manhattan(4, 4, 3), 0);
    assert_eq!(manhattan(1, 7, 3), 2);
    assert_eq!(manhattan(0, 24, 5), 8);
}

#[test]
fn manhattan_of_far_cells_does_not_overflow() {
    assert_eq!(manhattan(usize::MAX, 0, 1), usize::MAX);
    assert_eq!(manhattan(0, usize::MAX, usize::MAX), 1);
    assert_eq!(manhattan(usize::MAX - 1, 0, usize::MAX), usize::MAX - 1);
}

#[test]
fn interior_cell_has_eight_neighbours_in_visiting_order() {
    assert_eq!(get_adjacent(4, 3, 3, true), vec![3, 0, 6, 5, 2, 8, 1, 7]);
}

#[test]
fn interior_cell_has_four_neighbours_without_diagonals() {
    assert_eq!(get_adjacent(4, 3, 3, false), vec![3, 5, 1, 7]);
}

#[test]
fn corner_cells_stay_on_the_grid() {
    assert_eq!(get_adjacent(0, 3, 3, false), vec![1, 3]);
    assert_eq!(get_adjacent(0, 3, 3, true), vec![1, 4, 3]);
    assert_eq!(get_adjacent(2, 3, 3, true), vec![1, 4, 5]);
    assert_eq!(get_adjacent(6, 3, 3, true), vec![7, 4, 3]);
    assert_eq!(get_adjacent(8, 3, 3, false), vec![7, 5]);
    assert_eq!(get_adjacent(8, 3, 3, true), vec![7, 4, 5]);
}

#[test]
fn edge_cells_never_wrap_to_the_next_row() {
    assert_eq!(get_adjacent(3, 3, 3, true), vec![4, 1, 7, 0, 6]);
    assert_eq!(get_adjacent(5, 3, 3, true), vec![4, 1, 7, 2, 8]);
    assert_eq!(get_adjacent(2, 3, 2, false), vec![1, 5]);
    assert_eq!(get_adjacent(3, 3, 2, false), vec![4, 0]);
}

#[test]
fn single_row_and_single_column() {
    assert_eq!(get_adjacent(2, 5, 1, true), vec![1, 3]);
    assert_eq!(get_adjacent(2, 1, 5, true), vec![1, 3]);
    assert_eq!(get_adjacent(0, 1, 1, true), Vec::<usize>::new());
}

#[test]
fn non_square_grid() {
    // 4 columns, 2 rows:
    // 0 1 2 3
    // 4 5 6 7
    assert_eq!(get_adjacent(5, 4, 2, true), vec![4, 0, 6, 2, 1]);
    assert_eq!(get_adjacent(2, 4, 2, true), vec![1, 5, 3, 7, 6]);
}
