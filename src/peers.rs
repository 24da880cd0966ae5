use vstd::prelude::*;

verus! {

/// Number of rows (and of columns) of the grid.
pub const SIZE: usize = 9;

/// Side of one block.
pub const BLOCK: usize = 3;

/// The first row (or column) of the block that holds row (or column) `i`.
pub open spec fn block_start(i: int) -> int {
    i - i % 3
}

/// A coordinate of the grid.
pub open spec fn in_grid(i: int, j: int) -> bool {
    0 <= i < 9 && 0 <= j < 9
}

/// `(i, j)` must hold another value than `(x, y)`: it is another cell of the
/// same row, column or block.
pub open spec fn is_peer(x: int, y: int, i: int, j: int) -> bool {
    &&& in_grid(i, j)
    &&& !(i == x && j == y)
    &&& (i == x || j == y || (block_start(i) == block_start(x) && block_start(j) == block_start(y)))
}

/// The set of peers of `(x, y)`.
pub open spec fn peer_set(x: int, y: int) -> Set<(int, int)> {
    Set::new(|c: (int, int)| is_peer(x, y, c.0, c.1))
}

/// The peers of `(x, y)` in row `i`, among its first `n` columns, left to right.
pub open spec fn row_peers(x: int, y: int, i: int, n: nat) -> Seq<(int, int)>
    decreases n,
{
    if n == 0 {
        Seq::empty()
    } else {
        let rest = row_peers(x, y, i, (n - 1) as nat);
        if is_peer(x, y, i, n - 1) {
            rest.push((i, n - 1))
        } else {
            rest
        }
    }
}

/// The peers of `(x, y)` in the first `m` rows, in row-major order.
pub open spec fn peers_before(x: int, y: int, m: nat) -> Seq<(int, int)>
    decreases m,
{
    if m == 0 {
        Seq::empty()
    } else {
        peers_before(x, y, (m - 1) as nat) + row_peers(x, y, m - 1, 9)
    }
}

/// All peers of `(x, y)`, in row-major order.
pub open spec fn peer_list(x: int, y: int) -> Seq<(int, int)> {
    peers_before(x, y, 9)
}

/// The coordinates of a pair of indices, as integers.
pub open spec fn coords(c: (usize, usize)) -> (int, int) {
    (c.0 as int, c.1 as int)
}

/// Returns the cells that must not hold the value of cell `(x, y)`: the other
/// cells of its row, its column and its block, each once, in row-major order.
pub fn must_be_different_to(x: usize, y: usize) -> (r: Vec<(usize, usize)>)
    requires
        x < SIZE,
        y < SIZE,
    ensures
        r@.map_values(|c: (usize, usize)| coords(c)) == peer_list(x as int, y as int),
        r@.len() == 20,
{
    let x_sub = x - x % BLOCK;
    let y_sub = y - y % BLOCK;
    let mut result: Vec<(usize, usize)> = Vec::new();
    for i in 0..SIZE
        invariant
            x < 9,
            y < 9,
            x_sub == block_start(x as int),
            y_sub == block_start(y as int),
            result@.map_values(|c: (usize, usize)| coords(c)) == peers_before(x as int, y as int, i as nat),
    {
        for j in 0..SIZE
            invariant
                x < 9,
                y < 9,
                i < 9,
                x_sub == block_start(x as int),
                y_sub == block_start(y as int),
                result@.map_values(|c: (usize, usize)| coords(c))
                    == peers_before(x as int, y as int, i as nat) + row_peers(x as int, y as int, i as int, j as nat),
        {
            let in_block = i >= x_sub && i < x_sub + BLOCK && j >= y_sub && j < y_sub + BLOCK;
            let ghost before = result@;
            if x == i && y == j {
            } else if in_block || x == i || y == j {
                result.push((i, j));
                assert(result@.map_values(|c: (usize, usize)| coords(c))
                    == before.map_values(|c: (usize, usize)| coords(c)).push((i as int, j as int)));
            }
        }
    }
    proof {
        lemma_peer_list_len(x as int, y as int);
    }
    result
}

/// The number of peers of `(x, y)` in row `i`.
proof fn lemma_row_len(x: int, y: int, i: int)
    requires
        in_grid(x, y),
        0 <= i < 9,
    ensures
        row_peers(x, y, i, 9).len() == if i == x {
            8int
        } else if block_start(i) == block_start(x) {
            3int
        } else {
            1int
        },
{
    reveal_with_fuel(row_peers, 10);
}

/// Every cell has twenty entries in its peer list.
pub proof fn lemma_peer_list_len(x: int, y: int)
    requires
        in_grid(x, y),
    ensures
        peer_list(x, y).len() == 20,
{
    reveal_with_fuel(peers_before, 10);
    lemma_row_len(x, y, 0);
    lemma_row_len(x, y, 1);
    lemma_row_len(x, y, 2);
    lemma_row_len(x, y, 3);
    lemma_row_len(x, y, 4);
    lemma_row_len(x, y, 5);
    lemma_row_len(x, y, 6);
    lemma_row_len(x, y, 7);
    lemma_row_len(x, y, 8);
    assert(peers_before(x, y, 9).len() == 20);
}

/// The row-major position of a cell.
pub open spec fn rank(c: (int, int)) -> int {
    c.0 * 9 + c.1
}

/// The cells of `s` come in strictly increasing row-major order.
pub open spec fn ascending(s: Seq<(int, int)>) -> bool {
    forall|a: int, b: int| 0 <= a < b < s.len() ==> #[trigger] rank(s[a]) < #[trigger] rank(s[b])
}

proof fn lemma_row_peers(x: int, y: int, i: int, n: nat)
    requires
        n <= 9,
    ensures
        forall|c: (int, int)|
            row_peers(x, y, i, n).contains(c) <==> (c.0 == i && 0 <= c.1 < n && is_peer(x, y, c.0, c.1)),
        forall|t: int|
            0 <= t < row_peers(x, y, i, n).len() ==> (#[trigger] row_peers(x, y, i, n)[t]).0 == i
                && 0 <= row_peers(x, y, i, n)[t].1 < n,
        ascending(row_peers(x, y, i, n)),
    decreases n,
{
    if n > 0 {
        let n1 = (n - 1) as nat;
        lemma_row_peers(x, y, i, n1);
        let rest = row_peers(x, y, i, n1);
        let s = row_peers(x, y, i, n);
        assert forall|c: (int, int)| s.contains(c) <==> (c.0 == i && 0 <= c.1 < n && is_peer(x, y, c.0, c.1)) by {
            if is_peer(x, y, i, n - 1) {
                assert(s == rest.push((i, n - 1)));
                if s.contains(c) {
                    let t = choose|t: int| 0 <= t < s.len() && s[t] == c;
                    if t < rest.len() {
                        assert(rest[t] == c);
                        assert(rest.contains(c));
                    } else {
                        assert(c == (i, n - 1));
                    }
                }
                if c.0 == i && 0 <= c.1 < n && is_peer(x, y, c.0, c.1) {
                    if c.1 < n - 1 {
                        assert(rest.contains(c));
                        let t = choose|t: int| 0 <= t < rest.len() && rest[t] == c;
                        assert(s[t] == c);
                    } else {
                        assert(s[rest.len() as int] == c);
                    }
                }
            } else {
                assert(s == rest);
            }
        }
    }
}

proof fn lemma_peers_before(x: int, y: int, m: nat)
    requires
        m <= 9,
    ensures
        forall|c: (int, int)|
            peers_before(x, y, m).contains(c) <==> (0 <= c.0 < m && is_peer(x, y, c.0, c.1)),
        forall|t: int|
            0 <= t < peers_before(x, y, m).len() ==> 0 <= (#[trigger] peers_before(x, y, m)[t]).0 < m
                && 0 <= peers_before(x, y, m)[t].1 < 9,
        ascending(peers_before(x, y, m)),
    decreases m,
{
    if m > 0 {
        let m1 = (m - 1) as nat;
        lemma_peers_before(x, y, m1);
        lemma_row_peers(x, y, m - 1, 9);
        let a = peers_before(x, y, m1);
        let b = row_peers(x, y, m - 1, 9);
        let s = a + b;
        assert forall|c: (int, int)| s.contains(c) <==> (0 <= c.0 < m && is_peer(x, y, c.0, c.1)) by {
            if s.contains(c) {
                let t = choose|t: int| 0 <= t < s.len() && s[t] == c;
                if t < a.len() {
                    assert(a.contains(c));
                } else {
                    assert(b[t - a.len()] == c);
                    assert(b.contains(c));
                }
            }
            if 0 <= c.0 < m && is_peer(x, y, c.0, c.1) {
                if c.0 < m - 1 {
                    assert(a.contains(c));
                    let t = choose|t: int| 0 <= t < a.len() && a[t] == c;
                    assert(s[t] == c);
                } else {
                    assert(b.contains(c));
                    let t = choose|t: int| 0 <= t < b.len() && b[t] == c;
                    assert(s[a.len() + t] == c);
                }
            }
        }
        assert forall|t: int| 0 <= t < s.len() implies 0 <= (#[trigger] s[t]).0 < m && 0 <= s[t].1 < 9 by {
            if t >= a.len() {
                assert(s[t] == b[t - a.len()]);
            }
        }
        assert forall|p: int, q: int| 0 <= p < q < s.len() implies #[trigger] rank(s[p]) < #[trigger] rank(s[q]) by {
            if q < a.len() {
            } else if p >= a.len() {
                assert(s[p] == b[p - a.len()]);
                assert(s[q] == b[q - a.len()]);
            } else {
                assert(s[q] == b[q - a.len()]);
                assert(s[p].0 < m - 1);
            }
        }
    }
}

/// Each entry of the peer list of a cell lies in the grid and is a peer of it.
pub proof fn lemma_peer_list_in_grid(x: int, y: int, t: int)
    requires
        0 <= t < peer_list(x, y).len(),
    ensures
        is_peer(x, y, peer_list(x, y)[t].0, peer_list(x, y)[t].1),
        in_grid(peer_list(x, y)[t].0, peer_list(x, y)[t].1),
{
    lemma_peers_before(x, y, 9);
    assert(peer_list(x, y).contains(peer_list(x, y)[t]));
}

/// The peer list of a cell holds each of its peers exactly once.
pub proof fn lemma_peer_list_is_peer_set(x: int, y: int)
    ensures
        peer_list(x, y).no_duplicates(),
        peer_list(x, y).to_set() == peer_set(x, y),
{
    lemma_peers_before(x, y, 9);
    let s = peer_list(x, y);
    assert forall|a: int, b: int| 0 <= a < s.len() && 0 <= b < s.len() && a != b implies s[a] != s[b] by {
        if a < b {
            assert(rank(s[a]) < rank(s[b]));
        } else {
            assert(rank(s[b]) < rank(s[a]));
        }
    }
    assert(s.to_set() =~= peer_set(x, y));
}

/// A cell is a peer of another exactly when the other is a peer of it.
pub proof fn lemma_peer_symmetric(x: int, y: int, i: int, j: int)
    requires
        in_grid(x, y),
        in_grid(i, j),
    ensures
        peer_set(x, y).contains((i, j)) <==> peer_set(i, j).contains((x, y)),
{
}

/// Every cell has exactly twenty peers.
pub proof fn lemma_peer_count(x: int, y: int)
    requires
        in_grid(x, y),
    ensures
        peer_set(x, y).len() == 20,
        peer_set(x, y).finite(),
{
    lemma_peer_list_is_peer_set(x, y);
    lemma_peer_list_len(x, y);
    peer_list(x, y).unique_seq_to_set();
}

/// No cell is a peer of itself.
pub proof fn lemma_peer_irreflexive(x: int, y: int)
    ensures
        !peer_set(x, y).contains((x, y)),
{
}

} // verus!
