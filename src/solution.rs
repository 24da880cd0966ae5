use vstd::prelude::*;

use crate::grid::{cell_index, Grid};
use crate::model::SudokuSolver;
use crate::peers::{
    block_start, coords, in_grid, is_peer, lemma_peer_list_in_grid, lemma_peer_list_is_peer_set,
    must_be_different_to, peer_list, SIZE,
};

verus! {

/// What the solver answered to a satisfiability check.
#[derive(Debug, Clone, Copy, PartialEq, Eq, Structural)]
pub enum Verdict {
    /// An assignment meets every assertion.
    Sat,
    /// No assignment meets every assertion.
    Unsat,
    /// The solver could not decide.
    Unknown,
}

/// Every value is a digit from 1 to 9.
pub open spec fn in_domain(s: Seq<u32>) -> bool {
    forall|k: int| 0 <= k < s.len() ==> 1 <= #[trigger] s[k] <= 9
}

/// Every cell that the puzzle gives keeps its digit.
pub open spec fn keeps_givens(g: Seq<u32>, s: Seq<u32>) -> bool {
    forall|k: int| 0 <= k < g.len() && g[k] != 0 ==> #[trigger] s[k] == g[k]
}

/// Any two peers hold different values.
pub open spec fn peers_differ(s: Seq<u32>) -> bool {
    forall|x: int, y: int, i: int, j: int|
        in_grid(x, y) && #[trigger] is_peer(x, y, i, j) ==> s[cell_index(x, y)] != s[cell_index(i, j)]
}

/// `s` is a completed grid that solves the puzzle `g`.
pub open spec fn solves(g: Seq<u32>, s: Seq<u32>) -> bool {
    &&& s.len() == 81
    &&& in_domain(s)
    &&& keeps_givens(g, s)
    &&& peers_differ(s)
}

/// The witness values, where each fits in 32 bits.
pub open spec fn narrow(w: Seq<u64>) -> Seq<u32> {
    w.map_values(|v: u64| v as u32)
}

/// The witness is 81 values that solve the puzzle.
pub open spec fn witness_solves(g: Seq<u32>, w: Seq<u64>) -> bool {
    &&& w.len() == 81
    &&& forall|k: int| 0 <= k < 81 ==> #[trigger] w[k] <= 9
    &&& solves(g, narrow(w))
}

/// A completed grid: 81 digits in row-major order.
pub struct Solution {
    digits: Vec<u32>,
}

impl View for Solution {
    type V = Seq<u32>;

    closed spec fn view(&self) -> Seq<u32> {
        self.digits@
    }
}

impl Solution {
    /// The digit of cell `(row, col)`.
    pub fn get(&self, row: usize, col: usize) -> (r: u32)
        requires
            self@.len() == 81,
            row < 9,
            col < 9,
        ensures
            r == self@[cell_index(row as int, col as int)],
    {
        self.digits[row * SIZE + col]
    }

    /// The 81 digits, in row-major order.
    pub fn digits(&self) -> (r: &Vec<u32>)
        ensures
            r@ == self@,
    {
        &self.digits
    }
}

/// How a puzzle fared.
pub enum Outcome {
    /// The puzzle has a completion; here is one.
    Satisfiable(Solution),
    /// The puzzle has no completion.
    Unsatisfiable,
    /// No answer could be had: the solver gave up, or the assignment it handed
    /// back does not solve the puzzle.
    Indeterminate,
}

/// Tells whether the 81 witness values, in row-major order, are digits that
/// keep the given cells of `grid` and differ between any two peers.
pub fn check_solution(grid: &Grid, witness: &Vec<u64>) -> (r: bool)
    requires
        grid.wf(),
    ensures
        r == witness_solves(grid@, witness@),
{
    if witness.len() != 81 {
        return false;
    }
    let ghost s = narrow(witness@);
    for k in 0..81usize
        invariant
            grid.wf(),
            witness@.len() == 81,
            s == narrow(witness@),
            forall|m: int| 0 <= m < k ==> #[trigger] witness@[m] <= 9 && 1 <= witness@[m]
                && (grid@[m] != 0 ==> s[m] == grid@[m]),
    {
        let v = witness[k];
        if v < 1 || v > 9 {
            assert(s[k as int] == v as u32);
            return false;
        }
        let given = grid.get(k / SIZE, k % SIZE);
        assert(k / 9 * 9 + k % 9 == k);
        if given != 0 && v != given as u64 {
            assert(s[k as int] != grid@[k as int]);
            return false;
        }
    }
    assert(in_domain(s));
    assert(keeps_givens(grid@, s));
    for x in 0..SIZE
        invariant
            grid.wf(),
            witness@.len() == 81,
            s == narrow(witness@),
            forall|m: int| 0 <= m < 81 ==> #[trigger] witness@[m] <= 9 && 1 <= witness@[m],
            in_domain(s),
            keeps_givens(grid@, s),
            forall|a: int, b: int, i: int, j: int|
                0 <= a < x && 0 <= b < 9 && #[trigger] is_peer(a, b, i, j) ==> s[cell_index(a, b)] != s[cell_index(i, j)],
    {
        for y in 0..SIZE
            invariant
                x < 9,
                grid.wf(),
                witness@.len() == 81,
                s == narrow(witness@),
                forall|m: int| 0 <= m < 81 ==> #[trigger] witness@[m] <= 9 && 1 <= witness@[m],
                in_domain(s),
                keeps_givens(grid@, s),
                forall|a: int, b: int, i: int, j: int|
                    ((0 <= a < x && 0 <= b < 9) || (a == x && 0 <= b < y)) && #[trigger] is_peer(a, b, i, j)
                        ==> s[cell_index(a, b)] != s[cell_index(i, j)],
        {
            let peers = must_be_different_to(x, y);
            let own = witness[x * SIZE + y];
            proof {
                lemma_peer_list_is_peer_set(x as int, y as int);
            }
            for t in 0..peers.len()
                invariant
                    x < 9,
                    y < 9,
                    witness@.len() == 81,
                    s == narrow(witness@),
                    own == witness@[cell_index(x as int, y as int)],
                    forall|m: int| 0 <= m < 81 ==> #[trigger] witness@[m] <= 9 && 1 <= witness@[m],
                    peers@.map_values(|c: (usize, usize)| coords(c)) == peer_list(x as int, y as int),
                    forall|u: int| 0 <= u < t ==> s[cell_index(x as int, y as int)]
                        != s[cell_index(#[trigger] peer_list(x as int, y as int)[u].0, peer_list(x as int, y as int)[u].1)],
            {
                let (i, j) = peers[t];
                proof {
                    assert(coords(peers@[t as int]) == peer_list(x as int, y as int)[t as int]);
                    lemma_peer_list_in_grid(x as int, y as int, t as int);
                }
                let other = witness[i * SIZE + j];
                if own == other {
                    assert(is_peer(x as int, y as int, i as int, j as int));
                    assert(s[cell_index(x as int, y as int)] == s[cell_index(i as int, j as int)]);
                    return false;
                }
                assert(s[cell_index(x as int, y as int)] != s[cell_index(i as int, j as int)]);
            }
            proof {
                assert forall|i: int, j: int| #[trigger] is_peer(x as int, y as int, i, j)
                    implies s[cell_index(x as int, y as int)] != s[cell_index(i, j)] by {
                    let pl = peer_list(x as int, y as int);
                    assert(pl.to_set().contains((i, j)));
                    let u = choose|u: int| 0 <= u < pl.len() && pl[u] == (i, j);
                    assert(s[cell_index(x as int, y as int)] != s[cell_index(pl[u].0, pl[u].1)]);
                }
            }
        }
    }
    true
}

/// Turns witness values that are digits into a solution.
fn to_solution(witness: &Vec<u64>) -> (r: Solution)
    requires
        forall|k: int| 0 <= k < witness@.len() ==> #[trigger] witness@[k] <= 9,
    ensures
        r@ == narrow(witness@),
{
    let mut digits: Vec<u32> = Vec::new();
    for k in 0..witness.len()
        invariant
            forall|m: int| 0 <= m < witness@.len() ==> #[trigger] witness@[m] <= 9,
            digits@ == narrow(witness@).subrange(0, k as int),
    {
        digits.push(witness[k] as u32);
        assert(narrow(witness@).subrange(0, k + 1) =~= narrow(witness@).subrange(0, k as int).push(witness@[k as int] as u32));
    }
    assert(narrow(witness@).subrange(0, witness@.len() as int) =~= narrow(witness@));
    Solution { digits }
}

impl SudokuSolver {
    /// Reads the solver's answer for this model: its verdict, and for a
    /// satisfiable one the witness value of each cell in row-major order.
    /// A witness that does not solve the puzzle is not handed on.
    pub fn sat(&self, verdict: Verdict, witness: &Vec<u64>) -> (r: Outcome)
        requires
            self.wf(),
        ensures
            verdict == Verdict::Unsat ==> r is Unsatisfiable,
            verdict == Verdict::Unknown ==> r is Indeterminate,
            verdict == Verdict::Sat && witness_solves(self.grid_view(), witness@)
                ==> (r matches Outcome::Satisfiable(s) && s@ == narrow(witness@)),
            verdict == Verdict::Sat && !witness_solves(self.grid_view(), witness@) ==> r is Indeterminate,
            r matches Outcome::Satisfiable(s) ==> solves(self.grid_view(), s@),
    {
        match verdict {
            Verdict::Unsat => Outcome::Unsatisfiable,
            Verdict::Unknown => Outcome::Indeterminate,
            Verdict::Sat => {
                if check_solution(self.grid(), witness) {
                    Outcome::Satisfiable(to_solution(witness))
                } else {
                    Outcome::Indeterminate
                }
            },
        }
    }
}

/// In a solution no row, no column and no block holds a digit twice.
pub proof fn lemma_rows_columns_blocks(g: Seq<u32>, s: Seq<u32>)
    requires
        solves(g, s),
    ensures
        forall|r: int, c: int, d: int|
            0 <= r < 9 && 0 <= c < 9 && 0 <= d < 9 && c != d
                ==> #[trigger] s[cell_index(r, c)] != #[trigger] s[cell_index(r, d)],
        forall|c: int, r: int, q: int|
            0 <= c < 9 && 0 <= r < 9 && 0 <= q < 9 && r != q
                ==> #[trigger] s[cell_index(r, c)] != #[trigger] s[cell_index(q, c)],
        forall|r: int, c: int, q: int, d: int|
            in_grid(r, c) && in_grid(q, d) && (r, c) != (q, d) && block_start(r) == block_start(q)
                && block_start(c) == block_start(d)
                ==> #[trigger] s[cell_index(r, c)] != #[trigger] s[cell_index(q, d)],
{
    assert forall|r: int, c: int, d: int|
        0 <= r < 9 && 0 <= c < 9 && 0 <= d < 9 && c != d implies #[trigger] s[cell_index(r, c)]
            != #[trigger] s[cell_index(r, d)] by {
        assert(is_peer(r, c, r, d));
    }
    assert forall|c: int, r: int, q: int|
        0 <= c < 9 && 0 <= r < 9 && 0 <= q < 9 && r != q implies #[trigger] s[cell_index(r, c)]
            != #[trigger] s[cell_index(q, c)] by {
        assert(is_peer(r, c, q, c));
    }
    assert forall|r: int, c: int, q: int, d: int|
        in_grid(r, c) && in_grid(q, d) && (r, c) != (q, d) && block_start(r) == block_start(q)
            && block_start(c) == block_start(d) implies #[trigger] s[cell_index(r, c)]
            != #[trigger] s[cell_index(q, d)] by {
        assert(is_peer(r, c, q, d));
    }
}

/// A puzzle that gives the same digit to two peers has no solution.
pub proof fn lemma_clashing_givens_unsolvable(g: Seq<u32>, s: Seq<u32>, x: int, y: int, i: int, j: int)
    requires
        g.len() == 81,
        in_grid(x, y),
        is_peer(x, y, i, j),
        g[cell_index(x, y)] != 0,
        g[cell_index(x, y)] == g[cell_index(i, j)],
    ensures
        !solves(g, s),
{
    if solves(g, s) {
        assert(s[cell_index(x, y)] == g[cell_index(x, y)]);
        assert(s[cell_index(i, j)] == g[cell_index(i, j)]);
    }
}

/// A puzzle with every cell given is solved by itself alone, and only when
/// its digits already keep the rules.
pub proof fn lemma_full_grid(g: Seq<u32>, s: Seq<u32>)
    requires
        g.len() == 81,
        forall|k: int| 0 <= k < 81 ==> #[trigger] g[k] != 0,
    ensures
        solves(g, s) ==> s == g,
        solves(g, g) <==> (in_domain(g) && peers_differ(g)),
{
    if solves(g, s) {
        assert(s =~= g);
    }
}

} // verus!
