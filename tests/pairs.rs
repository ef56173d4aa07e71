use verlet_particles::{all_pairs, fill_grid, grid_pairs, neighbor, CellKey, Grid, Pair};

fn near(a: CellKey, b: CellKey) -> bool {
    let dx = a.0 as i64 - b.0 as i64;
    let dy = a.1 as i64 - b.1 as i64;
    dx.abs() <= 1 && dy.abs() <= 1
}

fn sorted_grid_pairs(cells: &Vec<CellKey>) -> Vec<Pair> {
    let mut grid = Grid::new();
    fill_grid(&mut grid, cells);
    let mut pairs = grid_pairs(&grid);
    pairs.sort();
    pairs
}

fn brute_force(cells: &Vec<CellKey>) -> Vec<Pair> {
    all_pairs(cells.len())
        .into_iter()
        .filter(|&(a, b)| near(cells[a], cells[b]))
        .collect()
}

#[test]
fn grid_pairs_exact_small_configuration() {
    let cells: Vec<CellKey> = vec![(0, 0), (0, 0), (1, 0), (3, 3), (-1, 1), (1, 1)];
    assert_eq!(
        sorted_grid_pairs(&cells),
        vec![(0, 1), (0, 2), (0, 4), (0, 5), (1, 2), (1, 4), (1, 5), (2, 5)]
    );
}

#[test]
fn grid_pairs_cover_all_eight_directions_once() {
    let mut cells: Vec<CellKey> = vec![(0, 0)];
    for dx in -1..=1 {
        for dy in -1..=1 {
            if dx != 0 || dy != 0 {
                cells.push((dx, dy));
            }
        }
    }
    let pairs = sorted_grid_pairs(&cells);
    for j in 1..cells.len() {
        assert_eq!(pairs.iter().filter(|&&p| p == (0, j)).count(), 1);
    }
    assert_eq!(pairs, brute_force(&cells));
}

#[test]
fn grid_pairs_match_brute_force_on_scattered_cells() {
    let mut state: u64 = 12345;
    let mut cells: Vec<CellKey> = Vec::new();
    for _ in 0..300 {
        state = state.wrapping_mul(6364136223846793005).wrapping_add(1442695040888963407);
        let x = ((state >> 33) % 12) as i32 - 6;
        state = state.wrapping_mul(6364136223846793005).wrapping_add(1442695040888963407);
        let y = ((state >> 33) % 12) as i32 - 6;
        cells.push((x, y));
    }
    let mut grid = Grid::new();
    fill_grid(&mut grid, &cells);
    let raw = grid_pairs(&grid);
    let mut pairs = raw.clone();
    pairs.sort();
    pairs.dedup();
    assert_eq!(pairs.len(), raw.len());
    assert_eq!(pairs, brute_force(&cells));
}

#[test]
fn distant_cells_give_no_pairs() {
    let cells: Vec<CellKey> = vec![(0, 0), (2, 0), (0, 2), (-2, -2)];
    assert!(sorted_grid_pairs(&cells).is_empty());
}

#[test]
fn pairs_at_coordinate_limits() {
    let cells: Vec<CellKey> = vec![
        (i32::MAX, i32::MAX),
        (i32::MAX - 1, i32::MAX),
        (i32::MIN, i32::MAX),
        (i32::MIN + 1, i32::MAX - 1),
    ];
    assert_eq!(sorted_grid_pairs(&cells), vec![(0, 1), (2, 3)]);
}

#[test]
fn empty_grid_gives_no_pairs() {
    assert!(sorted_grid_pairs(&Vec::new()).is_empty());
}

#[test]
fn all_pairs_lists_each_pair_once_in_order() {
    assert_eq!(all_pairs(4), vec![(0, 1), (0, 2), (0, 3), (1, 2), (1, 3), (2, 3)]);
    assert!(all_pairs(0).is_empty());
    assert!(all_pairs(1).is_empty());
    assert_eq!(all_pairs(50).len(), 50 * 49 / 2);
}

#[test]
fn neighbor_steps_in_the_four_scan_directions() {
    assert_eq!(neighbor((0, 0), 1), Some((1, 0)));
    assert_eq!(neighbor((0, 0), 2), Some((1, 1)));
    assert_eq!(neighbor((0, 0), 3), Some((0, 1)));
    assert_eq!(neighbor((0, 0), 4), Some((-1, 1)));
    assert_eq!(neighbor((-5, 7), 4), Some((-6, 8)));
}

#[test]
fn neighbor_outside_coordinate_range_is_none() {
    assert_eq!(neighbor((i32::MAX, 0), 1), None);
    assert_eq!(neighbor((i32::MAX, 0), 2), None);
    assert_eq!(neighbor((0, i32::MAX), 3), None);
    assert_eq!(neighbor((i32::MIN, 0), 4), None);
    assert_eq!(neighbor((i32::MIN, 0), 3), Some((i32::MIN, 1)));
}
