use pool_game::grid::{contact_of, Contact, Grid, WHITE_BALL};
use pool_game::table::{rack_layout, CELL_SIZE, GRID_HEIGHT, GRID_WIDTH};

#[test]
fn new_grid_covers_the_field() {
    let grid = Grid::new(GRID_WIDTH, GRID_HEIGHT, CELL_SIZE);
    assert_eq!(grid.rows(), 26);
    assert_eq!(grid.cols(), 47);
    assert_eq!(grid.cell_size(), 40);
    assert!(grid.cell(0, 0).is_empty());
    assert!(grid.cell(25, 46).is_empty());
}

#[test]
fn add_to_cell_records_in_order() {
    let mut grid = Grid::new(3, 2, 10);
    grid.add_to_cell(4, 1, 2);
    grid.add_to_cell(WHITE_BALL, 1, 2);
    grid.add_to_cell(0, 0, 0);
    assert_eq!(grid.cell(1, 2), &vec![4, WHITE_BALL]);
    assert_eq!(grid.cell(0, 0), &vec![0]);
    assert!(grid.cell(2, 3).is_empty());
}

#[test]
fn add_to_cell_off_the_grid_is_ignored() {
    let mut grid = Grid::new(3, 2, 10);
    grid.add_to_cell(1, 3, 0);
    grid.add_to_cell(1, 0, 4);
    for r in 0..grid.rows() {
        for c in 0..grid.cols() {
            assert!(grid.cell(r, c).is_empty());
        }
    }
}

#[test]
fn candidate_pairs_same_cell_and_neighbour() {
    let mut grid = Grid::new(5, 5, 40);
    grid.add_to_cell(0, 2, 2);
    grid.add_to_cell(1, 2, 2);
    grid.add_to_cell(WHITE_BALL, 2, 3);
    let pairs = grid.candidate_pairs(&vec![(2, 2), (2, 2)]);
    assert_eq!(
        pairs,
        vec![(0, 1), (0, 1), (0, WHITE_BALL), (1, 0), (1, 0), (1, WHITE_BALL)]
    );
}

#[test]
fn candidate_pairs_at_the_corner() {
    let mut grid = Grid::new(2, 2, 40);
    grid.add_to_cell(0, 0, 0);
    grid.add_to_cell(1, 1, 1);
    grid.add_to_cell(2, 2, 2);
    let pairs = grid.candidate_pairs(&vec![(0, 0), (1, 1), (2, 2)]);
    assert_eq!(
        pairs,
        vec![(0, 1), (1, 0), (1, 2), (2, 1)]
    );
}

#[test]
fn far_apart_balls_are_no_candidates() {
    let mut grid = Grid::new(10, 10, 40);
    grid.add_to_cell(0, 1, 1);
    grid.add_to_cell(1, 1, 3);
    let pairs = grid.candidate_pairs(&vec![(1, 1), (1, 3)]);
    assert!(pairs.is_empty());
}

#[test]
fn candidate_pairs_never_pair_a_ball_with_itself() {
    let mut grid = Grid::new(4, 4, 40);
    let cells = vec![(0, 0), (0, 1), (1, 1), (2, 2), (4, 4), (3, 4)];
    for (k, &(r, c)) in cells.iter().enumerate() {
        grid.add_to_cell(k, r, c);
    }
    for (a, b) in grid.candidate_pairs(&cells) {
        assert_ne!(a, b);
        let (ra, ca) = cells[a];
        let (rb, cb) = cells[b];
        assert!((ra as i64 - rb as i64).abs() <= 1 && (ca as i64 - cb as i64).abs() <= 1);
    }
}

#[test]
fn contact_of_pairs() {
    assert_eq!(contact_of((3, 5)), Contact::RedRed(3, 5));
    assert_eq!(contact_of((3, WHITE_BALL)), Contact::CueRed(3));
    assert_eq!(contact_of((WHITE_BALL, 4)), Contact::CueRed(4));
}

#[test]
fn racked_balls_are_candidates_of_their_neighbours() {
    let mut grid = Grid::new(GRID_WIDTH, GRID_HEIGHT, CELL_SIZE);
    let spots = rack_layout();
    let cells: Vec<(usize, usize)> = spots
        .iter()
        .map(|s| ((s.y / CELL_SIZE) as usize, (s.x / CELL_SIZE) as usize))
        .collect();
    for (k, &(r, c)) in cells.iter().enumerate() {
        assert!(r < grid.rows() && c < grid.cols());
        grid.add_to_cell(k, r, c);
    }
    grid.add_to_cell(WHITE_BALL, 540 / CELL_SIZE as usize, 200 / CELL_SIZE as usize);
    let pairs = grid.candidate_pairs(&cells);
    assert!(pairs.contains(&(0, 1)));
    assert!(pairs.contains(&(1, 0)));
    assert!(!pairs.iter().any(|&(_, b)| b == WHITE_BALL));
}
