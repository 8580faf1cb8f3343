use force_graph::grid::SpatialGrid;

fn sorted(mut v: Vec<usize>) -> Vec<usize> {
    v.sort();
    v
}

#[test]
fn query_of_empty_grid_is_empty() {
    let grid = SpatialGrid::new();
    assert_eq!(grid.query(0, 0), Vec::<usize>::new());
    assert_eq!(grid.query(-7, 12), Vec::<usize>::new());
}

#[test]
fn query_returns_own_cell_and_eight_neighbours() {
    let mut grid = SpatialGrid::new();
    let mut id: usize = 0;
    for cx in -2..=2 {
        for cy in -2..=2 {
            grid.insert(id, cx, cy);
            id += 1;
        }
    }
    // ids are laid out column by column: id = (cx + 2) * 5 + (cy + 2)
    let got = grid.query(0, 0);
    assert_eq!(got, vec![6, 7, 8, 11, 12, 13, 16, 17, 18]);
}

#[test]
fn query_excludes_cells_two_away() {
    let mut grid = SpatialGrid::new();
    grid.insert(0, 0, 0);
    grid.insert(1, 2, 0);
    grid.insert(2, 0, -2);
    grid.insert(3, 1, 1);
    grid.insert(4, -1, -1);
    assert_eq!(sorted(grid.query(0, 0)), vec![0, 3, 4]);
    assert_eq!(sorted(grid.query(1, 0)), vec![0, 1, 3]);
    assert_eq!(sorted(grid.query(3, 0)), vec![1]);
    assert_eq!(grid.query(5, 5), Vec::<usize>::new());
}

#[test]
fn bucket_keeps_insertion_order() {
    let mut grid = SpatialGrid::new();
    grid.insert(9, 4, 4);
    grid.insert(3, 4, 4);
    grid.insert(5, 4, 4);
    assert_eq!(grid.query(4, 4), vec![9, 3, 5]);
}

#[test]
fn query_has_no_duplicates_when_each_index_inserted_once() {
    let mut grid = SpatialGrid::new();
    let cells: Vec<(i32, i32)> = vec![(0, 0), (0, 1), (1, 1), (0, 0), (-1, 0), (5, 5), (1, -1)];
    grid.rebuild(&cells);
    let got = grid.query(0, 0);
    let mut seen = sorted(got.clone());
    seen.dedup();
    assert_eq!(seen.len(), got.len());
    assert_eq!(seen, vec![0, 1, 2, 3, 4, 6]);
}

#[test]
fn rebuild_lists_positions_in_rising_order() {
    let mut grid = SpatialGrid::new();
    grid.insert(77, 3, 3);
    let cells: Vec<(i32, i32)> = vec![(3, 3), (10, 10), (3, 3), (3, 3)];
    grid.rebuild(&cells);
    assert_eq!(grid.query(3, 3), vec![0, 2, 3]);
    assert_eq!(grid.query(10, 10), vec![1]);
    assert_eq!(grid.query(11, 9), vec![1]);
}

#[test]
fn clear_removes_every_entry() {
    let mut grid = SpatialGrid::new();
    grid.insert(0, 0, 0);
    grid.insert(1, 1, 0);
    grid.clear();
    assert_eq!(grid.query(0, 0), Vec::<usize>::new());
    grid.insert(2, 0, 0);
    assert_eq!(grid.query(0, 0), vec![2]);
}

#[test]
fn cells_at_the_rim_of_the_coordinate_range() {
    let mut grid = SpatialGrid::new();
    grid.insert(0, i32::MAX, i32::MAX);
    grid.insert(1, i32::MIN, i32::MIN);
    grid.insert(2, i32::MAX, i32::MIN);
    grid.insert(3, i32::MAX - 1, i32::MAX);
    assert_eq!(sorted(grid.query(i32::MAX, i32::MAX)), vec![0, 3]);
    assert_eq!(grid.query(i32::MIN, i32::MIN), vec![1]);
    assert_eq!(grid.query(i32::MAX, i32::MIN), vec![2]);
    assert_eq!(grid.query(i32::MIN, i32::MAX), Vec::<usize>::new());
}

#[test]
fn distinct_cells_never_share_a_bucket() {
    let mut grid = SpatialGrid::new();
    grid.insert(0, 0, 1);
    grid.insert(1, 1, 0);
    grid.insert(2, -1, 0);
    grid.insert(3, 0, -1);
    assert_eq!(grid.query(0, 3), Vec::<usize>::new());
    assert_eq!(grid.query(0, 2), vec![0]);
    assert_eq!(grid.query(2, 0), vec![1]);
    assert_eq!(grid.query(-2, 0), vec![2]);
    assert_eq!(grid.query(0, -2), vec![3]);
}
