use vstd::prelude::*;

verus! {

/// The rows that serde_json decodes from `text` as a JSON array of arrays of
/// unsigned 32-bit integers, and `None` where it refuses the text.
pub uninterp spec fn json_rows(text: Seq<char>) -> Option<Seq<Seq<u32>>>;

#[verifier::external_type_specification]
#[verifier::external_body]
pub struct ExJsonError(serde_json::Error);

/// Relies on serde_json::from_str: it decodes `text` as a JSON array of arrays
/// of `u32`, and fails on any other text.
#[verifier::external_body]
fn decode_rows(text: &str) -> (r: Result<Vec<Vec<u32>>, serde_json::Error>)
    ensures
        match r {
            Ok(v) => json_rows(text@) == Some(v.deep_view()),
            Err(_) => json_rows(text@) is None,
        },
{
    serde_json::from_str::<Vec<Vec<u32>>>(text)
}

/// Why a puzzle could not be loaded.
#[derive(Debug, Clone, Copy, PartialEq, Eq, Structural)]
pub enum LoadError {
    /// The text is not a JSON array of arrays of unsigned integers.
    Malformed,
    /// There are not exactly nine rows.
    WrongRowCount,
    /// The row with this index does not have exactly nine cells.
    WrongRowLength(usize),
    /// The cell at this row and column holds a number above nine.
    DigitOutOfRange(usize, usize),
}

/// A row of nine values, each a digit or zero.
pub open spec fn row_ok(row: Seq<u32>) -> bool {
    row.len() == 9 && forall|c: int| 0 <= c < 9 ==> row[c] <= 9
}

/// `e` is the error met first when the rows are read in order, each from left
/// to right.
pub open spec fn first_error(rows: Seq<Seq<u32>>, e: LoadError) -> bool {
    match e {
        LoadError::WrongRowLength(r) => {
            &&& r < rows.len()
            &&& rows[r as int].len() != 9
            &&& forall|q: int| 0 <= q < r ==> row_ok(#[trigger] rows[q])
        },
        LoadError::DigitOutOfRange(r, c) => {
            &&& r < rows.len()
            &&& rows[r as int].len() == 9
            &&& c < 9
            &&& rows[r as int][c as int] > 9
            &&& forall|d: int| 0 <= d < c ==> rows[r as int][d] <= 9
            &&& forall|q: int| 0 <= q < r ==> row_ok(#[trigger] rows[q])
        },
        _ => false,
    }
}

/// The cells of nine rows of nine, in row-major order.
pub open spec fn flatten(rows: Seq<Seq<u32>>) -> Seq<u32> {
    Seq::new(81, |k: int| rows[k / 9][k % 9])
}

/// A puzzle: 81 cells in row-major order, each a digit from 1 to 9 or 0 for
/// an unknown cell.
pub struct Grid {
    cells: Vec<u32>,
}

impl View for Grid {
    type V = Seq<u32>;

    closed spec fn view(&self) -> Seq<u32> {
        self.cells@
    }
}

/// 81 cells, each at most nine.
pub open spec fn grid_ok(g: Seq<u32>) -> bool {
    g.len() == 81 && forall|k: int| 0 <= k < 81 ==> g[k] <= 9
}

/// The index of cell `(row, col)` in row-major order.
pub open spec fn cell_index(row: int, col: int) -> int {
    row * 9 + col
}

impl Grid {
    pub open spec fn wf(&self) -> bool {
        grid_ok(self@)
    }

    /// Reads a puzzle from nine rows of nine numbers, 0 standing for an
    /// unknown cell.
    pub fn from_rows(rows: &Vec<Vec<u32>>) -> (r: Result<Grid, LoadError>)
        ensures
            rows.len() != 9 ==> r == Err::<Grid, LoadError>(LoadError::WrongRowCount),
            rows.len() == 9 && (forall|q: int| 0 <= q < 9 ==> row_ok(#[trigger] rows.deep_view()[q]))
                ==> (r matches Ok(g) && g.wf() && g@ == flatten(rows.deep_view())),
            rows.len() == 9 && !(forall|q: int| 0 <= q < 9 ==> row_ok(#[trigger] rows.deep_view()[q]))
                ==> (r matches Err(e) && first_error(rows.deep_view(), e)),
    {
        if rows.len() != 9 {
            return Err(LoadError::WrongRowCount);
        }
        let ghost dv = rows.deep_view();
        let mut cells: Vec<u32> = Vec::new();
        for i in 0..9usize
            invariant
                rows.len() == 9,
                dv == rows.deep_view(),
                cells@.len() == 9 * i,
                forall|q: int| 0 <= q < i ==> row_ok(#[trigger] dv[q]),
                forall|k: int| 0 <= k < 9 * i ==> cells@[k] == dv[k / 9][k % 9],
        {
            let row = &rows[i];
            assert(row@ == dv[i as int]);
            if row.len() != 9 {
                return Err(LoadError::WrongRowLength(i));
            }
            for j in 0..9usize
                invariant
                    rows.len() == 9,
                    dv == rows.deep_view(),
                    i < 9,
                    row@ == dv[i as int],
                    row@.len() == 9,
                    forall|q: int| 0 <= q < i ==> row_ok(#[trigger] dv[q]),
                    cells@.len() == 9 * i + j,
                    forall|d: int| 0 <= d < j ==> row@[d] <= 9,
                    forall|k: int| 0 <= k < 9 * i + j ==> cells@[k] == dv[k / 9][k % 9],
            {
                let v = row[j];
                if v > 9 {
                    return Err(LoadError::DigitOutOfRange(i, j));
                }
                cells.push(v);
            }
        }
        let g = Grid { cells };
        assert(g@ =~= flatten(dv));
        Ok(g)
    }

    /// Reads a puzzle from JSON text: an array of nine arrays of nine
    /// numbers, 0 standing for an unknown cell.
    pub fn from_json(text: &str) -> (r: Result<Grid, LoadError>)
        ensures
            match json_rows(text@) {
                None => r == Err::<Grid, LoadError>(LoadError::Malformed),
                Some(rows) => {
                    &&& rows.len() != 9 ==> r == Err::<Grid, LoadError>(LoadError::WrongRowCount)
                    &&& rows.len() == 9 && (forall|q: int| 0 <= q < 9 ==> row_ok(#[trigger] rows[q]))
                        ==> (r matches Ok(g) && g.wf() && g@ == flatten(rows))
                    &&& rows.len() == 9 && !(forall|q: int| 0 <= q < 9 ==> row_ok(#[trigger] rows[q]))
                        ==> (r matches Err(e) && first_error(rows, e))
                },
            },
    {
        match decode_rows(text) {
            Ok(rows) => Grid::from_rows(&rows),
            Err(_) => Err(LoadError::Malformed),
        }
    }

    /// A copy of the puzzle.
    pub fn clone_of(g: &Grid) -> (r: Grid)
        ensures
            r@ == g@,
    {
        Grid { cells: g.cells.clone() }
    }

    /// The value of cell `(row, col)`: a digit, or 0 where it is unknown.
    pub fn get(&self, row: usize, col: usize) -> (r: u32)
        requires
            self.wf(),
            row < 9,
            col < 9,
        ensures
            r == self@[cell_index(row as int, col as int)],
    {
        self.cells[row * 9 + col]
    }
}

} // verus!
