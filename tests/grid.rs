use verlet_particles::{fill_grid, CellKey, Grid};

fn bucket(grid: &Grid, k: CellKey) -> Option<Vec<usize>> {
    grid.bucket_of(&k).cloned()
}

#[test]
fn fill_grid_files_indices_ascending_per_cell() {
    let cells: Vec<CellKey> = vec![(0, 0), (1, 0), (0, 0), (5, -3), (0, 0)];
    let mut grid = Grid::new();
    fill_grid(&mut grid, &cells);
    assert_eq!(bucket(&grid, (0, 0)), Some(vec![0, 2, 4]));
    assert_eq!(bucket(&grid, (1, 0)), Some(vec![1]));
    assert_eq!(bucket(&grid, (5, -3)), Some(vec![3]));
    assert_eq!(bucket(&grid, (2, 2)), None);
    let mut keys = grid.occupied();
    keys.sort();
    assert_eq!(keys, vec![(0, 0), (1, 0), (5, -3)]);
}

#[test]
fn refill_drops_emptied_cells() {
    let mut grid = Grid::new();
    fill_grid(&mut grid, &vec![(7, 7), (8, 8)]);
    fill_grid(&mut grid, &vec![(8, 8), (0, 1)]);
    assert_eq!(bucket(&grid, (7, 7)), None);
    assert_eq!(bucket(&grid, (8, 8)), Some(vec![0]));
    assert_eq!(bucket(&grid, (0, 1)), Some(vec![1]));
    assert_eq!(grid.occupied().len(), 2);
}

#[test]
fn empty_population_gives_empty_grid() {
    let mut grid = Grid::new();
    fill_grid(&mut grid, &vec![(3, 4)]);
    fill_grid(&mut grid, &Vec::new());
    assert!(grid.occupied().is_empty());
    assert_eq!(bucket(&grid, (3, 4)), None);
}

#[test]
fn new_grid_is_empty() {
    let grid = Grid::new();
    assert!(grid.occupied().is_empty());
    assert_eq!(bucket(&grid, (0, 0)), None);
}

#[test]
fn extreme_cell_coordinates_are_kept() {
    let cells: Vec<CellKey> = vec![(i32::MIN, i32::MAX), (i32::MAX, i32::MIN), (i32::MIN, i32::MAX)];
    let mut grid = Grid::new();
    fill_grid(&mut grid, &cells);
    assert_eq!(bucket(&grid, (i32::MIN, i32::MAX)), Some(vec![0, 2]));
    assert_eq!(bucket(&grid, (i32::MAX, i32::MIN)), Some(vec![1]));
}
