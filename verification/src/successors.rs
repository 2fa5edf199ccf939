//! Move generation: the boards one legal slide away from a board.

use crate::state::{in_grid, is_permutation, span, swapped, State, N};
use vstd::prelude::*;

verus! {

/// The cells orthogonally next to `(row, col)`, in the order up, down, left,
/// right, leaving out those beyond the edge of the board.
pub open spec fn neighbours(row: int, col: int) -> Seq<(int, int)> {
    let up = if row > 0 {
        seq![(row - 1, col)]
    } else {
        Seq::<(int, int)>::empty()
    };
    let down = if row < N - 1 {
        seq![(row + 1, col)]
    } else {
        Seq::<(int, int)>::empty()
    };
    let left = if col > 0 {
        seq![(row, col - 1)]
    } else {
        Seq::<(int, int)>::empty()
    };
    let right = if col < N - 1 {
        seq![(row, col + 1)]
    } else {
        Seq::<(int, int)>::empty()
    };
    up + down + left + right
}

/// How many cells are orthogonally next to `(row, col)`: two in a corner,
/// three elsewhere on an edge, four inside.
pub open spec fn neighbour_count(row: int, col: int) -> int {
    let row_on_edge = row == 0 || row == N - 1;
    let col_on_edge = col == 0 || col == N - 1;
    if row_on_edge && col_on_edge {
        2
    } else if row_on_edge || col_on_edge {
        3
    } else {
        4
    }
}

/// Whether two grids differ in exactly two cells.
pub open spec fn differ_in_two_cells(a: Seq<int>, b: Seq<int>) -> bool {
    exists|p: int, q: int|
        0 <= p < q < a.len() && #[trigger] a[p] != b[p] && #[trigger] a[q] != b[q] && forall|
            k: int,
        |
            0 <= k < a.len() && k != p && k != q ==> a[k] == b[k]
}

/// The blank positions of a sequence of states.
pub open spec fn blanks(states: Seq<State>) -> Seq<(int, int)> {
    Seq::new(states.len(), |i: int| (states[i].blank_row(), states[i].blank_col()))
}

/// All boards reachable from `state` by one slide, in the order blank up,
/// down, left, right.
///
/// There are two, three or four of them, by where the blank stands. Each
/// holds the tiles of `state`, differs from it in exactly two cells, and so
/// is never equal to it.
pub fn successors(state: &State) -> (succ: Vec<State>)
    requires
        state.wf(),
    ensures
        blanks(succ@) == neighbours(state.blank_row(), state.blank_col()),
        succ@.len() == neighbour_count(state.blank_row(), state.blank_col()),
        forall|i: int|
            0 <= i < succ@.len() ==> (#[trigger] succ@[i]).wf() && state.slides_to(succ@[i]),
        forall|i: int|
            0 <= i < succ@.len() ==> (#[trigger] succ@[i])@.to_multiset() == state@.to_multiset()
                && differ_in_two_cells(state@, succ@[i]@) && succ@[i] != *state,
        forall|next: State| state.slides_to(next) ==> succ@.contains(next),
{
    let mut succ: Vec<State> = Vec::new();
    let (x, y) = state.blank();
    let ghost up = if x > 0 {
        seq![(x - 1, y as int)]
    } else {
        Seq::<(int, int)>::empty()
    };
    let ghost down = if x < N - 1 {
        seq![(x + 1, y as int)]
    } else {
        Seq::<(int, int)>::empty()
    };
    let ghost left = if y > 0 {
        seq![(x as int, y - 1)]
    } else {
        Seq::<(int, int)>::empty()
    };
    if x > 0 {
        let s = state.slide(x - 1, y);
        succ.push(s);
    }
    assert(blanks(succ@) =~= up);
    if x < N - 1 {
        let s = state.slide(x + 1, y);
        succ.push(s);
    }
    assert(blanks(succ@) =~= up + down);
    if y > 0 {
        let s = state.slide(x, y - 1);
        succ.push(s);
    }
    assert(blanks(succ@) =~= up + down + left);
    if y < N - 1 {
        let s = state.slide(x, y + 1);
        succ.push(s);
    }
    assert(blanks(succ@) =~= neighbours(state.blank_row(), state.blank_col()));
    proof {
        lemma_successor_count(state.blank_row(), state.blank_col());
        assert(blanks(succ@).len() == succ@.len());
        assert forall|i: int| 0 <= i < succ@.len() implies (#[trigger] succ@[i])@.to_multiset()
            == state@.to_multiset() && differ_in_two_cells(state@, succ@[i]@) && succ@[i]
            != *state by {
            lemma_slide_keeps_tiles(*state, succ@[i]);
            lemma_slide_changes_two_cells(*state, succ@[i]);
        }
        assert forall|next: State| state.slides_to(next) implies succ@.contains(next) by {
            let r = next.blank_row();
            let c = next.blank_col();
            let near = neighbours(state.blank_row(), state.blank_col());
            let i = choose|i: int| 0 <= i < near.len() && near[i] == (r, c);
            assert(0 <= i < near.len() && near[i] == (r, c)) by {
                lemma_neighbours_complete(state.blank_row(), state.blank_col(), r, c);
            }
            assert(blanks(succ@)[i] == (r, c));
            assert(state.slides_to(succ@[i]));
            State::lemma_ext_equal(succ@[i], next);
        }
    }
    succ
}

/// Every cell one step away from `(row, col)` occurs among its neighbours.
pub proof fn lemma_neighbours_complete(row: int, col: int, r: int, c: int)
    requires
        in_grid(row, col),
        in_grid(r, c),
        span(row, r) + span(col, c) == 1,
    ensures
        exists|i: int| 0 <= i < neighbours(row, col).len() && neighbours(row, col)[i] == (r, c),
{
    let near = neighbours(row, col);
    let up = if row > 0 { 1int } else { 0int };
    let down = if row < N - 1 { 1int } else { 0int };
    let left = if col > 0 { 1int } else { 0int };
    if r == row - 1 {
        assert(near[0] == (r, c));
    } else if r == row + 1 {
        assert(near[up] == (r, c));
    } else if c == col - 1 {
        assert(near[up + down] == (r, c));
    } else {
        assert(near[up + down + left] == (r, c));
    }
}

/// A board has two successors when the blank is in a corner, three when it
/// is elsewhere on an edge, and four otherwise.
pub proof fn lemma_successor_count(row: int, col: int)
    requires
        in_grid(row, col),
    ensures
        neighbours(row, col).len() == neighbour_count(row, col),
{
}

/// A slide keeps the state invariant.
pub proof fn lemma_slide_wf(s: State, next: State)
    requires
        s.wf(),
        s.slides_to(next),
    ensures
        next.wf(),
{
    crate::state::lemma_swap_permutation(s@, s.blank_index(), next.blank_index());
}

/// A slide can be undone by one slide.
pub proof fn lemma_slide_reversible(s: State, next: State)
    requires
        s.wf(),
        s.slides_to(next),
    ensures
        next.slides_to(s),
{
    let p = s.blank_index();
    let q = next.blank_index();
    assert(swapped(swapped(s@, p, q), q, p) =~= s@);
}

/// A slide changes exactly two cells: the blank's and the one the tile left.
pub proof fn lemma_slide_changes_two_cells(s: State, next: State)
    requires
        s.wf(),
        s.slides_to(next),
    ensures
        s.blank_index() != next.blank_index(),
        next@[s.blank_index()] != s@[s.blank_index()],
        next@[next.blank_index()] != s@[next.blank_index()],
        forall|k: int|
            0 <= k < N * N && k != s.blank_index() && k != next.blank_index() ==> next@[k]
                == s@[k],
        differ_in_two_cells(s@, next@),
        next != s,
{
    let p = s.blank_index();
    let q = next.blank_index();
    if p < q {
        assert(s@[p] != s@[q]);
        assert(s@[p] != next@[p] && s@[q] != next@[q]);
    } else {
        assert(s@[q] != s@[p]);
        assert(s@[q] != next@[q] && s@[p] != next@[p]);
    }
}

/// A slide keeps the tiles: the successor's grid holds the same multiset of
/// values as the parent's.
pub proof fn lemma_slide_keeps_tiles(s: State, next: State)
    requires
        s.wf(),
        s.slides_to(next),
    ensures
        next@.to_multiset() == s@.to_multiset(),
        is_permutation(next@),
{
    let p = s.blank_index();
    let q = next.blank_index();
    let mid = s@.update(p, s@[q]);
    vstd::seq_lib::to_multiset_update(s@, p, s@[q]);
    vstd::seq_lib::to_multiset_update(mid, q, s@[p]);
    s@.to_multiset_ensures();
    assert(mid[q] == s@[q]);
    assert(s@.to_multiset().count(s@[p]) > 0) by {
        assert(s@.contains(s@[p]));
    }
    assert(s@.to_multiset().count(s@[q]) > 0) by {
        assert(s@.contains(s@[q]));
    }
    assert(next@.to_multiset() =~= s@.to_multiset());
    crate::state::lemma_swap_permutation(s@, p, q);
}

} // verus!
