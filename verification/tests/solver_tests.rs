use suds::Grid;
use suds::Space;
use suds::Value;

const PUZZLE: &str = "
003020600
900305001
001806400
008102900
700000008
006708200
002609500
800203009
005010300
";

const SOLUTION: &str = "
483921657
967345821
251876493
548132976
729564138
136798245
372689514
814253769
695417382
";

#[test]
fn grid_is_complete() {
    assert!(!Grid::empty().is_complete());
    assert!(Grid::new_solved().is_complete());
}

#[test]
fn grid_is_solved() {
    assert!(!Grid::empty().is_solved());
    assert!(Grid::new_solved().is_solved());
}

#[test]
fn solves_the_classic_puzzle() {
    let grid = Grid::parse(PUZZLE).unwrap();
    let solved = grid.solve().expect("the classic puzzle has a solution");
    assert!(solved.is_solved());
    let expected = Grid::parse(SOLUTION).unwrap();
    assert_eq!(solved, expected);
}

#[test]
fn solution_starts_as_expected() {
    let grid = Grid::parse(PUZZLE).unwrap();
    let solved = grid.solve().unwrap();
    let first_row = [4u8, 8, 3, 9, 2, 1, 6, 5, 7];
    for x in 0..9u8 {
        assert_eq!(solved.get(x, 0), Space::Occupied(Value::of_digit(first_row[x as usize])));
    }
}

#[test]
fn solver_keeps_the_clues() {
    let grid = Grid::parse(PUZZLE).unwrap();
    let solved = grid.duplicate().solve().unwrap();
    for y in 0..9u8 {
        for x in 0..9u8 {
            if let Space::Occupied(v) = grid.get(x, y) {
                assert_eq!(solved.get(x, y), Space::Occupied(v));
            }
        }
    }
}

#[test]
fn resolving_a_solved_grid_returns_it_unchanged() {
    let solved = Grid::parse(PUZZLE).unwrap().solve().unwrap();
    let again = solved.duplicate().solve().unwrap();
    assert_eq!(again, solved);
}

#[test]
fn empty_grid_is_solvable() {
    let solved = Grid::empty().solve().expect("an empty grid can always be solved");
    assert!(solved.is_solved());
}

#[test]
fn contradictory_grid_is_unsolvable() {
    let mut grid = Grid::parse(SOLUTION).unwrap();
    // Duplicate the first row's second value into its first cell.
    grid.set(0, 0, Value::Eight);
    assert!(grid.solve().is_none());
}

#[test]
fn backtracking_solve_matches_solve() {
    let grid = Grid::parse(PUZZLE).unwrap();
    let a = grid.duplicate().backtracking_solve().unwrap();
    let b = grid.solve().unwrap();
    assert_eq!(a, b);
}

#[test]
fn stochastic_solve_returns_a_solved_grid_unchanged() {
    let solved = Grid::parse(SOLUTION).unwrap();
    let again = solved.duplicate().stochastic_solve().unwrap();
    assert_eq!(again, solved);
}

#[test]
fn stochastic_solve_fills_a_single_gap() {
    let mut grid = Grid::parse(SOLUTION).unwrap();
    grid.set_empty(4, 4);
    let solved = grid.stochastic_solve().expect("one missing value leaves one filling");
    assert!(solved.is_solved());
    assert_eq!(solved, Grid::parse(SOLUTION).unwrap());
}

#[test]
fn attempt_fill_keeps_only_solved_outcomes() {
    let mut grid = Grid::parse(SOLUTION).unwrap();
    grid.set_empty(0, 0);
    grid.set_empty(1, 0);
    // The two gaps in row-major order want 4 then 8.
    let right = vec![Value::Four, Value::Eight];
    let filled = grid.attempt_fill(&right).expect("the right values solve the grid");
    assert_eq!(filled, Grid::parse(SOLUTION).unwrap());
    let wrong = vec![Value::Eight, Value::Four];
    assert!(grid.attempt_fill(&wrong).is_none());
    let short = vec![Value::Four];
    assert!(grid.attempt_fill(&short).is_none());
}

#[test]
fn stochastic_solve_gives_up_on_a_contradiction() {
    let mut grid = Grid::parse(SOLUTION).unwrap();
    grid.set(0, 0, Value::Eight);
    assert!(grid.stochastic_solve().is_none());
}
