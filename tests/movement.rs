use common::grid::{movement_budget_from_feet, Cell, Grid, Token};
use common::rules::{movement_cost, path, reachable_cells, steps_cost, PathStep};

fn c(x: i32, y: i32) -> Cell {
    Cell::new(x, y)
}

fn token_at(id: u64, x: i32, y: i32, budget: u32) -> Token {
    Token::new(id, format!("token{}", id), c(x, y), budget)
}

fn total(p: &[PathStep]) -> u32 {
    p.iter().map(|s| s.cost).sum()
}

#[test]
fn five_by_five_budget_three_reaches_ten_cells() {
    let grid = Grid::new(5, 5, 1);
    let t = token_at(1, 0, 0, 3);
    let r = reachable_cells(&t, &grid);
    assert_eq!(r.len(), 10);
    assert!(r.contains(&(c(3, 0), 3)));
    assert!(r.contains(&(c(0, 3), 3)));
    assert!(r.contains(&(c(0, 0), 0)));
    assert!(r.contains(&(c(1, 1), 2)));
    assert!(!r.iter().any(|(cell, _)| *cell == c(4, 0)));
    for (cell, cost) in r.iter() {
        assert_eq!(*cost, (cell.x + cell.y) as u32);
    }
}

#[test]
fn reachable_cells_are_in_row_major_order() {
    let grid = Grid::new(5, 5, 1);
    let t = token_at(1, 0, 0, 3);
    let r = reachable_cells(&t, &grid);
    let cells: Vec<Cell> = r.iter().map(|(cell, _)| *cell).collect();
    assert_eq!(
        cells,
        vec![c(0, 0), c(1, 0), c(2, 0), c(3, 0), c(0, 1), c(1, 1), c(2, 1), c(0, 2), c(1, 2), c(0, 3)]
    );
}

#[test]
fn zero_budget_reaches_only_origin() {
    let grid = Grid::new(4, 4, 1);
    let t = token_at(1, 2, 1, 0);
    assert_eq!(reachable_cells(&t, &grid), vec![(c(2, 1), 0)]);
    assert!(path(&t, &grid, c(2, 2)).is_empty());
    assert!(path(&t, &grid, c(3, 1)).is_empty());
}

#[test]
fn path_cost_matches_reachable_cost() {
    let mut grid = Grid::new(5, 5, 1);
    assert!(grid.set_cost(c(1, 0), 3));
    let t = token_at(1, 0, 0, 6);
    let r = reachable_cells(&t, &grid);
    for (cell, cost) in r.iter() {
        let p = path(&t, &grid, *cell);
        if *cell == c(0, 0) {
            assert!(p.is_empty());
        } else {
            assert!(!p.is_empty());
            assert_eq!(total(&p), *cost);
            assert_eq!(p[0].from, c(0, 0));
            assert_eq!(p[p.len() - 1].to, *cell);
            for w in p.windows(2) {
                assert_eq!(w[0].to, w[1].from);
            }
        }
    }
}

#[test]
fn expensive_cell_is_walked_around() {
    let mut grid = Grid::new(3, 3, 1);
    assert!(grid.set_cost(c(1, 0), 5));
    let t = token_at(1, 0, 0, 10);
    let p = path(&t, &grid, c(2, 0));
    assert_eq!(total(&p), 4);
    assert_eq!(p.len(), 4);
    assert!(!p.iter().any(|s| s.to == c(1, 0)));
    assert_eq!(movement_cost(&t, &grid, c(2, 0)), Some(4));
    assert_eq!(movement_cost(&t, &grid, c(1, 0)), Some(5));
}

#[test]
fn impassable_cell_is_never_reached() {
    let mut grid = Grid::new(3, 1, 1);
    assert!(grid.set_cost(c(1, 0), 0));
    let t = token_at(1, 0, 0, 5);
    assert_eq!(reachable_cells(&t, &grid), vec![(c(0, 0), 0)]);
    assert!(path(&t, &grid, c(2, 0)).is_empty());
    assert_eq!(movement_cost(&t, &grid, c(2, 0)), None);
}

#[test]
fn destination_outside_reachable_has_empty_path() {
    let grid = Grid::new(5, 5, 1);
    let t = token_at(1, 0, 0, 3);
    assert!(path(&t, &grid, c(4, 4)).is_empty());
    assert!(path(&t, &grid, c(4, 0)).is_empty());
    assert!(path(&t, &grid, c(-1, 0)).is_empty());
    assert!(path(&t, &grid, c(0, 7)).is_empty());
    assert_eq!(movement_cost(&t, &grid, c(9, 9)), None);
}

#[test]
fn repeated_queries_agree() {
    let mut grid = Grid::new(6, 4, 2);
    assert!(grid.set_cost(c(2, 1), 1));
    let t = token_at(1, 1, 1, 7);
    assert_eq!(reachable_cells(&t, &grid), reachable_cells(&t, &grid));
    assert_eq!(path(&t, &grid, c(4, 2)), path(&t, &grid, c(4, 2)));
}

#[test]
fn occupied_destination_is_excluded() {
    let mut grid = Grid::new(5, 5, 1);
    assert!(grid.set_occupant(c(1, 0), Some(2)));
    let t = token_at(1, 0, 0, 3);
    let r = reachable_cells(&t, &grid);
    assert!(!r.iter().any(|(cell, _)| *cell == c(1, 0)));
    assert!(path(&t, &grid, c(1, 0)).is_empty());
    // the occupied cell blocks passage: (2,0) is reached around it
    assert_eq!(movement_cost(&t, &grid, c(2, 0)), None);
    assert_eq!(movement_cost(&t, &grid, c(1, 1)), Some(2));
}

#[test]
fn own_cell_does_not_block() {
    let mut grid = Grid::new(3, 3, 1);
    assert!(grid.set_occupant(c(0, 0), Some(1)));
    let t = token_at(1, 0, 0, 2);
    let r = reachable_cells(&t, &grid);
    assert_eq!(r.len(), 6);
    assert!(path(&t, &grid, c(0, 0)).is_empty());
}

#[test]
fn grid_queries_check_bounds() {
    let grid = Grid::new(2, 3, 4);
    assert_eq!(grid.cost(c(1, 2)), Some(4));
    assert_eq!(grid.cost(c(2, 0)), None);
    assert_eq!(grid.cost(c(0, -1)), None);
    assert_eq!(grid.occupant(c(5, 5)), None);
    assert_eq!(grid.index(1, 2), Some(5));
    assert_eq!(grid.index(2, 2), None);
}

#[test]
fn feet_convert_to_whole_cells() {
    assert_eq!(movement_budget_from_feet(30), 6);
    assert_eq!(movement_budget_from_feet(34), 6);
    assert_eq!(movement_budget_from_feet(4), 0);
}

#[test]
fn steps_cost_sums_the_path() {
    let mut grid = Grid::new(4, 1, 2);
    assert!(grid.set_cost(c(2, 0), 5));
    let t = token_at(1, 0, 0, 20);
    let p = path(&t, &grid, c(3, 0));
    assert_eq!(steps_cost(&p), 9);
    assert_eq!(steps_cost(&Vec::new()), 0);
}
