use sudoku_sat::grid::Grid;
use sudoku_sat::model::SudokuSolver;
use sudoku_sat::solution::{check_solution, Outcome, Verdict};

fn digits_of(text: &str) -> Vec<u32> {
    text.chars().filter(|c| !c.is_whitespace()).map(|c| c.to_digit(10).unwrap()).collect()
}

fn grid_of(text: &str) -> Grid {
    let rows: Vec<Vec<u32>> = digits_of(text).chunks(9).map(|r| r.to_vec()).collect();
    Grid::from_rows(&rows).unwrap()
}

fn witness_of(text: &str) -> Vec<u64> {
    digits_of(text).into_iter().map(u64::from).collect()
}

fn solver_for(text: &str) -> SudokuSolver {
    let mut solver = SudokuSolver::new(&grid_of(text));
    solver.constrain();
    solver
}

const PUZZLE: &str = "530070000 600195000 098000060 800060003 400803001 700020006 060000280 000419005 000080079";
const ANSWER: &str = "534678912 672195348 198342567 859761423 426853791 713924856 961537284 287419635 345286179";

#[test]
fn classic_puzzle_with_its_answer_is_satisfiable() {
    let solver = solver_for(PUZZLE);
    match solver.sat(Verdict::Sat, &witness_of(ANSWER)) {
        Outcome::Satisfiable(s) => {
            assert_eq!(s.digits(), &digits_of(ANSWER));
            assert_eq!(s.get(0, 2), 4);
            assert_eq!(s.get(8, 0), 3);
        }
        _ => panic!("expected a solution"),
    }
}

#[test]
fn witness_that_changes_a_given_is_rejected() {
    let solver = solver_for(PUZZLE);
    // a valid completed grid, but with rows 0 and 1 swapped: it does not keep the givens
    let swapped = "672195348 534678912 198342567 859761423 426853791 713924856 961537284 287419635 345286179";
    assert!(!check_solution(solver.grid(), &witness_of(swapped)));
    assert!(matches!(solver.sat(Verdict::Sat, &witness_of(swapped)), Outcome::Indeterminate));
}

#[test]
fn witness_with_a_repeated_digit_is_rejected() {
    let empty = "0".repeat(81);
    let mut w = witness_of(ANSWER);
    w.swap(0, 1);
    let solver = solver_for(&empty);
    assert!(!check_solution(solver.grid(), &w));
    w[0] = 0;
    assert!(!check_solution(solver.grid(), &w));
    assert!(check_solution(solver.grid(), &witness_of(ANSWER)));
}

#[test]
fn witness_out_of_domain_or_short_is_rejected() {
    let solver = solver_for(&"0".repeat(81));
    let mut w = witness_of(ANSWER);
    w[40] = 10;
    assert!(!check_solution(solver.grid(), &w));
    w[40] = 5 + (1u64 << 32);
    assert!(!check_solution(solver.grid(), &w));
    let short: Vec<u64> = witness_of(ANSWER)[..80].to_vec();
    assert!(matches!(solver.sat(Verdict::Sat, &short), Outcome::Indeterminate));
}

#[test]
fn empty_grid_accepts_any_completed_grid() {
    let solver = solver_for(&"0".repeat(81));
    match solver.sat(Verdict::Sat, &witness_of(ANSWER)) {
        Outcome::Satisfiable(s) => assert_eq!(s.digits(), &digits_of(ANSWER)),
        _ => panic!("expected a solution"),
    }
}

#[test]
fn contradictory_row_has_no_solution() {
    let clash = "550070000 600195000 098000060 800060003 400803001 700020006 060000280 000419005 000080079";
    let solver = solver_for(clash);
    assert!(matches!(solver.sat(Verdict::Unsat, &Vec::new()), Outcome::Unsatisfiable));
    // whatever a solver handed back, no assignment solves it
    let mut w = witness_of(ANSWER);
    w[1] = 5;
    assert!(!check_solution(solver.grid(), &w));
    assert!(!check_solution(solver.grid(), &witness_of(ANSWER)));
}

#[test]
fn full_valid_grid_is_its_own_solution() {
    let solver = solver_for(ANSWER);
    match solver.sat(Verdict::Sat, &witness_of(ANSWER)) {
        Outcome::Satisfiable(s) => assert_eq!(s.digits(), &digits_of(ANSWER)),
        _ => panic!("expected a solution"),
    }
}

#[test]
fn full_grid_breaking_a_block_has_no_solution() {
    // columns 2 and 3 swapped: rows and columns still hold each digit once, blocks do not
    let bad = "536478912 671295348 193842567 857961423 428653791 719324856 965137284 284719635 342586179";
    let solver = solver_for(bad);
    assert!(!check_solution(solver.grid(), &witness_of(bad)));
    assert!(matches!(solver.sat(Verdict::Sat, &witness_of(bad)), Outcome::Indeterminate));
    assert!(matches!(solver.sat(Verdict::Unsat, &witness_of(bad)), Outcome::Unsatisfiable));
}

#[test]
fn undecided_solver_is_indeterminate() {
    let solver = solver_for(PUZZLE);
    assert!(matches!(solver.sat(Verdict::Unknown, &witness_of(ANSWER)), Outcome::Indeterminate));
}
