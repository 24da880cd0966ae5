use vstd::prelude::*;

use crate::grid::{cell_index, Grid};
use crate::peers::{must_be_different_to, peer_list, SIZE};

verus! {

/// Bit width of the solver variable that stands for one cell.
pub const CELL_WIDTH: u32 = 8;

/// The solver term that stands for one cell.
#[derive(Debug, Clone, Copy, PartialEq, Eq, Structural)]
pub enum Term {
    /// A constant of `CELL_WIDTH` bits that equals the given digit.
    Constant(u32),
    /// A fresh, unconstrained variable of `CELL_WIDTH` bits.
    Variable,
}

/// One assertion over the cells, each named by its row-major index.
#[derive(Debug, Clone, Copy, PartialEq, Eq, Structural)]
pub enum Constraint {
    /// The cell is at least the bound (unsigned).
    AtLeast(usize, u32),
    /// The cell is at most the bound (unsigned).
    AtMost(usize, u32),
    /// The two cells differ.
    Differ(usize, usize),
}

/// The term of a cell that holds `d` in the puzzle.
pub open spec fn term_of(d: u32) -> Term {
    if d == 0 {
        Term::Variable
    } else {
        Term::Constant(d)
    }
}

/// The bounds of each cell, in cell order: at least 1, then at most 9.
pub open spec fn domain_constraints() -> Seq<Constraint> {
    Seq::new(
        162,
        |n: int|
            if n % 2 == 0 {
                Constraint::AtLeast((n / 2) as usize, 1)
            } else {
                Constraint::AtMost((n / 2) as usize, 9)
            },
    )
}

/// For each of the first `k` cells in row-major order, one inequality with
/// each of its peers, in the order of its peer list.
pub open spec fn differ_before(k: nat) -> Seq<Constraint>
    decreases k,
{
    if k == 0 {
        Seq::empty()
    } else {
        let c = k - 1;
        differ_before((k - 1) as nat) + peer_list(c / 9, c % 9).map_values(
            |p: (int, int)| Constraint::Differ(c as usize, cell_index(p.0, p.1) as usize),
        )
    }
}

/// Twenty inequalities for each cell.
pub proof fn lemma_differ_before_len(k: nat)
    requires
        k <= 81,
    ensures
        differ_before(k).len() == 20 * k,
    decreases k,
{
    if k > 0 {
        let c = k - 1;
        lemma_differ_before_len((k - 1) as nat);
        crate::peers::lemma_peer_list_len(c / 9, c % 9);
    }
}

/// All the inequalities of the puzzle's rules.
pub open spec fn differ_constraints() -> Seq<Constraint> {
    differ_before(81)
}

/// A puzzle together with the constraint model that encodes it: one solver
/// term per cell and the assertions to submit.
pub struct SudokuSolver {
    grid: Grid,
    cells: Vec<Term>,
    constraints: Vec<Constraint>,
}

impl SudokuSolver {
    /// The puzzle the model encodes.
    pub closed spec fn grid_view(&self) -> Seq<u32> {
        self.grid@
    }

    /// The term of each cell, in row-major order.
    pub closed spec fn cells_view(&self) -> Seq<Term> {
        self.cells@
    }

    /// The assertions, in the order they are to be submitted.
    pub closed spec fn constraints_view(&self) -> Seq<Constraint> {
        self.constraints@
    }

    pub open spec fn wf(&self) -> bool {
        crate::grid::grid_ok(self.grid_view())
    }

    /// Builds one term per cell, a constant where the digit is known and a
    /// variable elsewhere, and asserts that each cell lies between 1 and 9.
    pub fn new(sudoku: &Grid) -> (r: SudokuSolver)
        requires
            sudoku.wf(),
        ensures
            r.wf(),
            r.grid_view() == sudoku@,
            r.cells_view() == sudoku@.map_values(|d: u32| term_of(d)),
            r.constraints_view() == domain_constraints(),
    {
        let mut cells: Vec<Term> = Vec::new();
        let mut constraints: Vec<Constraint> = Vec::new();
        for row in 0..SIZE
            invariant
                sudoku.wf(),
                cells@.len() == 9 * row,
                constraints@.len() == 18 * row,
                forall|k: int| 0 <= k < 9 * row ==> cells@[k] == term_of(#[trigger] sudoku@[k]),
                forall|n: int| 0 <= n < 18 * row ==> constraints@[n] == domain_constraints()[n],
        {
            for col in 0..SIZE
                invariant
                    sudoku.wf(),
                    row < 9,
                    cells@.len() == 9 * row + col,
                    constraints@.len() == 2 * (9 * row + col),
                    forall|k: int| 0 <= k < 9 * row + col ==> cells@[k] == term_of(#[trigger] sudoku@[k]),
                    forall|n: int| 0 <= n < 2 * (9 * row + col) ==> constraints@[n] == domain_constraints()[n],
            {
                let index = row * SIZE + col;
                let digit = sudoku.get(row, col);
                let value = if digit == 0 {
                    Term::Variable
                } else {
                    Term::Constant(digit)
                };
                cells.push(value);
                constraints.push(Constraint::AtLeast(index, 1));
                constraints.push(Constraint::AtMost(index, 9));
            }
        }
        let r = SudokuSolver { grid: Grid::clone_of(sudoku), cells, constraints };
        assert(r.cells_view() =~= sudoku@.map_values(|d: u32| term_of(d)));
        assert(r.constraints_view() =~= domain_constraints());
        r
    }

    /// Asserts the rules of the puzzle: each cell differs from each of its
    /// peers. Every unordered pair of peers is asserted once in each order.
    pub fn constrain(&mut self)
        ensures
            final(self).grid_view() == old(self).grid_view(),
            final(self).cells_view() == old(self).cells_view(),
            final(self).constraints_view() == old(self).constraints_view() + differ_constraints(),
            differ_constraints().len() == 81 * 20,
    {
        proof {
            lemma_differ_before_len(81);
        }
        let ghost start = self.constraints@;
        for x in 0..SIZE
            invariant
                self.grid@ == old(self).grid@,
                self.cells@ == old(self).cells@,
                start == old(self).constraints@,
                self.constraints@ == start + differ_before(9 * x as nat),
        {
            for y in 0..SIZE
                invariant
                    x < 9,
                    self.grid@ == old(self).grid@,
                    self.cells@ == old(self).cells@,
                    start == old(self).constraints@,
                    self.constraints@ == start + differ_before((9 * x + y) as nat),
            {
                let cell = x * SIZE + y;
                let peers = must_be_different_to(x, y);
                let ghost base = self.constraints@;
                let ghost mapped = peer_list(x as int, y as int).map_values(
                    |p: (int, int)| Constraint::Differ(cell as usize, cell_index(p.0, p.1) as usize),
                );
                assert(peers@.map_values(|c: (usize, usize)| crate::peers::coords(c)) == peer_list(x as int, y as int));
                for t in 0..peers.len()
                    invariant
                        x < 9,
                        y < 9,
                        cell == 9 * x + y,
                        peers@.len() == 20,
                        peers@.map_values(|c: (usize, usize)| crate::peers::coords(c)) == peer_list(x as int, y as int),
                        mapped.len() == 20,
                        mapped == peer_list(x as int, y as int).map_values(
                            |p: (int, int)| Constraint::Differ(cell as usize, cell_index(p.0, p.1) as usize),
                        ),
                        self.grid@ == old(self).grid@,
                        self.cells@ == old(self).cells@,
                        self.constraints@ == base + mapped.subrange(0, t as int),
                {
                    let (i, j) = peers[t];
                    assert(crate::peers::coords(peers@[t as int]) == peer_list(x as int, y as int)[t as int]);
                    assert(i < 9 && j < 9) by {
                        crate::peers::lemma_peer_list_in_grid(x as int, y as int, t as int);
                    }
                    self.constraints.push(Constraint::Differ(cell, i * SIZE + j));
                    assert(mapped.subrange(0, t + 1) =~= mapped.subrange(0, t as int).push(mapped[t as int]));
                }
                assert(mapped.subrange(0, 20) =~= mapped);
                assert(9 * x + y + 1 == (9 * x + y + 1) as nat);
                assert((9 * x + y) / 9 == x && (9 * x + y) % 9 == y);
                assert(differ_before((9 * x + y + 1) as nat) == differ_before((9 * x + y) as nat) + mapped);
                assert(self.constraints@ =~= start + differ_before((9 * x + y + 1) as nat));
            }
        }
    }

    /// The term of each cell, in row-major order.
    pub fn cells(&self) -> (r: &Vec<Term>)
        ensures
            r@ == self.cells_view(),
    {
        &self.cells
    }

    /// The assertions, in the order they are to be submitted.
    pub fn constraints(&self) -> (r: &Vec<Constraint>)
        ensures
            r@ == self.constraints_view(),
    {
        &self.constraints
    }

    /// The puzzle the model encodes.
    pub fn grid(&self) -> (r: &Grid)
        ensures
            r@ == self.grid_view(),
    {
        &self.grid
    }
}

} // verus!
