//! Distance estimates: the capability the search is generic over, and the
//! Manhattan distance.

use crate::state::{cell_index, goal_tiles, in_grid, is_permutation, span, State, N};
use vstd::prelude::*;

verus! {

/// An estimate of the number of slides that remain, as the search needs it:
/// never negative, zero exactly on the ordered board, and dropping by at
/// most one per slide.
pub trait Heuristic {
    /// The estimate as a function of the board.
    spec fn value(&self, s: State) -> int;

    /// Computes the estimate for `s`.
    fn estimate(&self, s: &State) -> (h: i32)
        requires
            s.wf(),
        ensures
            h == self.value(*s),
    ;

    /// The estimate is never negative.
    proof fn lemma_nonnegative(&self, s: State)
        requires
            s.wf(),
        ensures
            self.value(s) >= 0,
    ;

    /// The estimate is zero on the ordered board and nowhere else.
    proof fn lemma_zero_iff_goal(&self, s: State)
        requires
            s.wf(),
        ensures
            self.value(s) == 0 <==> s.is_goal(),
    ;

    /// One slide lowers the estimate by at most one.
    proof fn lemma_consistent(&self, s: State, next: State)
        requires
            s.wf(),
            s.slides_to(next),
        ensures
            self.value(s) <= self.value(next) + 1,
    ;
}

/// Steps between cell `k` and the home cell of tile `v`; nothing for the blank.
pub open spec fn tile_distance(k: int, v: int) -> int {
    if v == 0 {
        0
    } else {
        span(k / (N as int), (v - 1) / (N as int)) + span(k % (N as int), (v - 1) % (N as int))
    }
}

/// Sum of the tile distances over the first `n` cells.
pub open spec fn manhattan_upto(tiles: Seq<int>, n: int) -> int
    decreases n,
{
    if n <= 0 {
        0
    } else {
        manhattan_upto(tiles, n - 1) + tile_distance(n - 1, tiles[n - 1])
    }
}

/// Manhattan distance of a board: the sum, over all tiles but the blank, of
/// the row and column offsets between the tile's cell and its home cell.
pub open spec fn manhattan(tiles: Seq<int>) -> int {
    manhattan_upto(tiles, tiles.len() as int)
}

/// Distance between two coordinates on one axis.
fn gap(a: usize, b: usize) -> (d: usize)
    ensures
        d == span(a as int, b as int),
{
    if a >= b {
        a - b
    } else {
        b - a
    }
}

/// The Manhattan distance of `state` from the ordered board.
pub fn distancia_manhattan(state: &State) -> (distance: i32)
    requires
        state.wf(),
    ensures
        distance == manhattan(state@),
        distance >= 0,
        distance == 0 <==> state.is_goal(),
{
    let mut distance: i32 = 0;
    for i in 0..N
        invariant
            state.wf(),
            distance == manhattan_upto(state@, i * N),
    {
        for j in 0..N
            invariant
                state.wf(),
                0 <= i < N,
                distance == manhattan_upto(state@, i * N + j),
        {
            let value = state.cell(i, j).unwrap();
            let ghost k = i * N + j;
            assert(k / (N as int) == i && k % (N as int) == j);
            assert(0 <= state@[k] < N * N);
            if value != 0 {
                let target_x = (value - 1) as usize / N;
                let target_y = (value - 1) as usize % N;
                let steps = gap(i, target_x) + gap(j, target_y);
                assert(steps == tile_distance(k, state@[k]));
                proof {
                    lemma_manhattan_bounded(state@, k + 1);
                }
                distance += steps as i32;
            }
        }
    }
    proof {
        lemma_manhattan_nonnegative(state@, state@.len() as int);
        lemma_manhattan_zero_iff_goal(*state);
    }
    distance
}

/// The Manhattan distance as a [`Heuristic`].
#[derive(Clone, Copy, Debug)]
pub struct Manhattan;

impl Heuristic for Manhattan {
    open spec fn value(&self, s: State) -> int {
        manhattan(s@)
    }

    fn estimate(&self, s: &State) -> (h: i32) {
        distancia_manhattan(s)
    }

    proof fn lemma_nonnegative(&self, s: State) {
        lemma_manhattan_nonnegative(s@, s@.len() as int);
    }

    proof fn lemma_zero_iff_goal(&self, s: State) {
        lemma_manhattan_zero_iff_goal(s);
    }

    proof fn lemma_consistent(&self, s: State, next: State) {
        lemma_manhattan_consistent(s, next);
    }
}

/// The Manhattan distance of any grid is at least zero.
pub proof fn lemma_manhattan_nonnegative(tiles: Seq<int>, n: int)
    ensures
        manhattan_upto(tiles, n) >= 0,
    decreases n,
{
    if n > 0 {
        lemma_manhattan_nonnegative(tiles, n - 1);
    }
}

/// No tile of a permutation is more than `2 * (N - 1)` steps from home, so
/// the sum over `n` cells is at most `n` times that.
pub proof fn lemma_manhattan_bounded(tiles: Seq<int>, n: int)
    requires
        is_permutation(tiles),
        0 <= n <= N * N,
    ensures
        manhattan_upto(tiles, n) <= 2 * (N - 1) * n,
        manhattan_upto(tiles, n) <= 2 * (N - 1) * N * N,
    decreases n,
{
    if n > 0 {
        lemma_manhattan_bounded(tiles, n - 1);
        assert(0 <= tiles[n - 1] < N * N);
        assert(tile_distance(n - 1, tiles[n - 1]) <= 2 * (N - 1));
        assert(2 * (N - 1) * n == 2 * (N - 1) * (n - 1) + 2 * (N - 1)) by (nonlinear_arith);
    }
    assert(2 * (N - 1) * n <= 2 * (N - 1) * (N * N)) by (nonlinear_arith)
        requires
            0 <= n <= N * N,
            N >= 1,
    ;
    assert(2 * (N - 1) * (N * N) == 2 * (N - 1) * N * N) by (nonlinear_arith);
}

/// The Manhattan distance of the ordered board is zero.
pub proof fn lemma_manhattan_goal()
    ensures
        manhattan(goal_tiles()) == 0,
{
    lemma_goal_prefix(goal_tiles().len() as int);
}

proof fn lemma_goal_prefix(n: int)
    requires
        n <= N * N,
    ensures
        manhattan_upto(goal_tiles(), n) == 0,
    decreases n,
{
    if n > 0 {
        lemma_goal_prefix(n - 1);
    }
}

/// A sum of tile distances that is zero has only zero terms.
proof fn lemma_zero_terms(tiles: Seq<int>, n: int, k: int)
    requires
        manhattan_upto(tiles, n) == 0,
        0 <= k < n,
    ensures
        tile_distance(k, tiles[k]) == 0,
    decreases n,
{
    lemma_manhattan_nonnegative(tiles, n - 1);
    if k < n - 1 {
        lemma_zero_terms(tiles, n - 1, k);
    }
}

/// Two grids that agree on the first `n` cells have the same partial sum.
proof fn lemma_prefix_agree(a: Seq<int>, b: Seq<int>, n: int)
    requires
        forall|k: int| 0 <= k < n ==> a[k] == b[k],
    ensures
        manhattan_upto(a, n) == manhattan_upto(b, n),
    decreases n,
{
    if n > 0 {
        lemma_prefix_agree(a, b, n - 1);
    }
}

/// Among states, the Manhattan distance is zero on the ordered board only.
pub proof fn lemma_manhattan_zero_iff_goal(s: State)
    requires
        s.wf(),
    ensures
        manhattan(s@) == 0 <==> s.is_goal(),
{
    let tiles = s@;
    if s.is_goal() {
        lemma_manhattan_goal();
    }
    if manhattan(tiles) == 0 {
        let last = N * N - 1;
        assert(tiles[last] == 0) by {
            lemma_zero_terms(tiles, tiles.len() as int, last);
        }
        assert forall|k: int| 0 <= k < N * N implies tiles[k] == #[trigger] goal_tiles()[k] by {
            lemma_zero_terms(tiles, tiles.len() as int, k);
            if k < last {
                assert(tiles[k] != tiles[last]);
            }
        }
        assert(tiles =~= goal_tiles());
    }
}

/// Replacing the tile in one cell changes the sum by the change of that
/// cell's term.
proof fn lemma_update_term(tiles: Seq<int>, k: int, v: int, n: int)
    requires
        0 <= k < tiles.len(),
        n <= tiles.len(),
    ensures
        manhattan_upto(tiles.update(k, v), n) == manhattan_upto(tiles, n) + if k < n {
            tile_distance(k, v) - tile_distance(k, tiles[k])
        } else {
            0
        },
    decreases n,
{
    if n > 0 {
        lemma_update_term(tiles, k, v, n - 1);
    }
}

/// Moving a tile to an orthogonally adjacent cell changes its distance from
/// home by exactly one.
proof fn lemma_adjacent_term(row: int, col: int, r: int, c: int, v: int)
    requires
        in_grid(row, col),
        in_grid(r, c),
        span(row, r) + span(col, c) == 1,
    ensures
        v != 0 ==> {
            let from = tile_distance(cell_index(row, col), v);
            let to = tile_distance(cell_index(r, c), v);
            to == from + 1 || to == from - 1
        },
{
    let p = cell_index(row, col);
    let q = cell_index(r, c);
    assert(p / (N as int) == row && p % (N as int) == col);
    assert(q / (N as int) == r && q % (N as int) == c);
}

/// One slide changes the Manhattan distance by exactly one, up or down.
pub proof fn lemma_manhattan_slide(s: State, next: State)
    requires
        s.wf(),
        s.slides_to(next),
    ensures
        manhattan(next@) == manhattan(s@) + 1 || manhattan(next@) == manhattan(s@) - 1,
{
    let p = s.blank_index();
    let q = next.blank_index();
    let v = s@[q];
    let mid = s@.update(p, v);
    let n = s@.len() as int;
    assert(0 <= p < n && 0 <= q < n && p != q);
    assert(v != 0) by {
        if p < q {
            assert(s@[p] != s@[q]);
        } else {
            assert(s@[q] != s@[p]);
        }
    }
    assert(next@ == mid.update(q, 0));
    assert(mid[q] == v);
    lemma_update_term(s@, p, v, n);
    lemma_update_term(mid, q, 0, n);
    assert(manhattan(mid) == manhattan(s@) + tile_distance(p, v));
    assert(manhattan(next@) == manhattan(mid) - tile_distance(q, v));
    lemma_adjacent_term(
        next.blank_row(),
        next.blank_col(),
        s.blank_row(),
        s.blank_col(),
        v,
    );
}

/// Consistency: the Manhattan distances of a board and of any of its
/// successors differ by at most one.
pub proof fn lemma_manhattan_consistent(s: State, next: State)
    requires
        s.wf(),
        s.slides_to(next),
    ensures
        manhattan(s@) - manhattan(next@) <= 1,
        manhattan(next@) - manhattan(s@) <= 1,
{
    lemma_manhattan_slide(s, next);
}

} // verus!
