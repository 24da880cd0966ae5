use sudoku_sat::grid::{Grid, LoadError};

fn rows_of(text: &str) -> Vec<Vec<u32>> {
    let digits: Vec<u32> = text.chars().filter(|c| !c.is_whitespace()).map(|c| c.to_digit(10).unwrap()).collect();
    digits.chunks(9).map(|r| r.to_vec()).collect()
}

const PUZZLE: &str = "530070000 600195000 098000060 800060003 400803001 700020006 060000280 000419005 000080079";

#[test]
fn rows_load_in_row_major_order() {
    let g = Grid::from_rows(&rows_of(PUZZLE)).unwrap();
    assert_eq!(g.get(0, 0), 5);
    assert_eq!(g.get(0, 1), 3);
    assert_eq!(g.get(0, 2), 0);
    assert_eq!(g.get(1, 3), 1);
    assert_eq!(g.get(8, 8), 9);
}

#[test]
fn json_loads_with_whitespace() {
    let text = "[[5,3,0,0,7,0,0,0,0],\n [6,0,0,1,9,5,0,0,0],\n [0,9,8,0,0,0,0,6,0],\n [8,0,0,0,6,0,0,0,3],\n [4,0,0,8,0,3,0,0,1],\n [7,0,0,0,2,0,0,0,6],\n [0,6,0,0,0,0,2,8,0],\n [0,0,0,4,1,9,0,0,5],\n [0,0,0,0,8,0,0,7,9]]";
    let g = Grid::from_json(text).unwrap();
    assert_eq!(g.get(2, 1), 9);
    assert_eq!(g.get(6, 7), 8);
    assert_eq!(g.get(4, 4), 0);
}

#[test]
fn json_that_is_not_rows_of_numbers_is_malformed() {
    assert!(matches!(Grid::from_json("not json"), Err(LoadError::Malformed)));
    assert!(matches!(Grid::from_json("[[1,2],[\"a\"]]"), Err(LoadError::Malformed)));
    assert!(matches!(Grid::from_json("[[-1]]"), Err(LoadError::Malformed)));
}

#[test]
fn wrong_number_of_rows() {
    let mut rows = rows_of(PUZZLE);
    rows.pop();
    assert!(matches!(Grid::from_rows(&rows), Err(LoadError::WrongRowCount)));
    assert!(matches!(Grid::from_json("[]"), Err(LoadError::WrongRowCount)));
}

#[test]
fn wrong_row_length_reports_first_bad_row() {
    let mut rows = rows_of(PUZZLE);
    rows[3].push(1);
    rows[6].pop();
    assert!(matches!(Grid::from_rows(&rows), Err(LoadError::WrongRowLength(3))));
}

#[test]
fn digit_out_of_range_reports_first_bad_cell() {
    let mut rows = rows_of(PUZZLE);
    rows[2][5] = 10;
    rows[2][7] = 12;
    rows[4].pop();
    assert!(matches!(Grid::from_rows(&rows), Err(LoadError::DigitOutOfRange(2, 5))));
}
