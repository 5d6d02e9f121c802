use advent_of_code::year_2015::day_03::{InfiniteGrid, Position};

#[test]
fn test_grid_move_position_bad_input() {
    let mut grid = InfiniteGrid::new(1);
    grid.move_position('f');
    assert_eq!(grid.current_positions[0], Position::new());
    assert_eq!(grid.turn, 0);
}

#[test]
fn test_grid_parallel_zero() {
    let mut grid = InfiniteGrid::new(0);
    grid.move_position('^');
    assert!(grid.current_positions.is_empty());
    assert_eq!(grid.current_positions.len(), 0);
    assert_eq!(grid.past_positions.len(), 1);
}

#[test]
fn test_grid_single_position() {
    let mut grid = InfiniteGrid::new(1);
    grid.move_position('>');
    assert_eq!(grid.visited(), 2);

    let mut grid = InfiniteGrid::new(1);
    "^>v<".chars().for_each(|c| grid.move_position(c));
    assert_eq!(grid.visited(), 4);

    let mut grid = InfiniteGrid::new(1);
    "^v^v^v^v^v".chars().for_each(|c| grid.move_position(c));
    assert_eq!(grid.visited(), 2);
}

#[test]
fn test_grid_two_positions() {
    let mut grid = InfiniteGrid::new(2);
    "^v".chars().for_each(|c| grid.move_position(c));
    assert_eq!(grid.visited(), 3);

    let mut grid = InfiniteGrid::new(2);
    "^>v<".chars().for_each(|c| grid.move_position(c));
    assert_eq!(grid.visited(), 3);

    let mut grid = InfiniteGrid::new(2);
    "^v^v^v^v^v".chars().for_each(|c| grid.move_position(c));
    assert_eq!(grid.visited(), 11);
}
