//! The board: a square grid of numbered tiles with one blank cell.

use vstd::prelude::*;

verus! {

/// Side length of the board.
pub const N: usize = 4;

/// Number of cells of the board.
pub const CELLS: usize = N * N;

/// Whether `(row, col)` names a cell of the board.
pub open spec fn in_grid(row: int, col: int) -> bool {
    0 <= row < N && 0 <= col < N
}

/// Position of cell `(row, col)` in the row-major sequence of tiles.
pub open spec fn cell_index(row: int, col: int) -> int {
    row * N + col
}

/// Distance between two coordinates on one axis.
pub open spec fn span(a: int, b: int) -> int {
    if a >= b {
        a - b
    } else {
        b - a
    }
}

/// A row-major tile sequence of `N*N` tiles from `0..N*N`, no two alike, so
/// that each of them occurs exactly once.
pub open spec fn is_permutation(tiles: Seq<int>) -> bool {
    &&& tiles.len() == N * N
    &&& forall|k: int| 0 <= k < tiles.len() ==> 0 <= #[trigger] tiles[k] < N * N
    &&& forall|i: int, j: int| 0 <= i < j < tiles.len() ==> tiles[i] != tiles[j]
}

/// The ordered board: tiles `1..N*N` in row-major order, then the blank.
pub open spec fn goal_tiles() -> Seq<int> {
    Seq::new((N * N) as nat, |k: int| if k == N * N - 1 { 0 } else { k + 1 })
}

/// `tiles` with the contents of cells `p` and `q` exchanged.
pub open spec fn swapped(tiles: Seq<int>, p: int, q: int) -> Seq<int> {
    tiles.update(p, tiles[q]).update(q, tiles[p])
}

/// The row-major tile sequence of a raw grid.
pub open spec fn board_tiles(board: [[i32; N]; N]) -> Seq<int> {
    Seq::new((N * N) as nat, |k: int| board@[k / (N as int)]@[k % (N as int)] as int)
}

/// Whether tile `v` stands in one of the first `k` cells.
pub open spec fn occurs_before(tiles: Seq<int>, v: int, k: int) -> bool {
    exists|a: int| 0 <= a < k && tiles[a] == v
}

/// What a scan of the first `k` cells has established: they hold distinct
/// tiles of the board, `seen` marks exactly those tiles, and `(x, y)` is
/// where the blank was met, if it was.
spec fn scanned(tiles: Seq<int>, seen: Seq<bool>, k: int, x: int, y: int) -> bool {
    &&& seen.len() == N * N
    &&& forall|a: int| 0 <= a < k ==> 0 <= #[trigger] tiles[a] < N * N
    &&& forall|a: int, b: int| 0 <= a < b < k ==> tiles[a] != tiles[b]
    &&& forall|v: int| 0 <= v < N * N ==> (#[trigger] seen[v] <==> occurs_before(tiles, v, k))
    &&& seen[0] ==> in_grid(x, y) && tiles[cell_index(x, y)] == 0
}

/// Scanning one more cell that holds a tile of the board not met before.
proof fn lemma_scan_step(tiles: Seq<int>, seen: Seq<bool>, k: int, x: int, y: int)
    requires
        scanned(tiles, seen, k, x, y),
        0 <= k < N * N,
        0 <= tiles[k] < N * N,
        !seen[tiles[k]],
    ensures
        scanned(
            tiles,
            seen.update(tiles[k], true),
            k + 1,
            if tiles[k] == 0 {
                k / (N as int)
            } else {
                x
            },
            if tiles[k] == 0 {
                k % (N as int)
            } else {
                y
            },
        ),
{
    let v0 = tiles[k];
    let after = seen.update(v0, true);
    assert(!occurs_before(tiles, v0, k));
    assert forall|a: int, b: int| 0 <= a < b < k + 1 implies tiles[a] != tiles[b] by {
        if b == k {
            assert(tiles[a] != v0);
        }
    }
    assert forall|v: int| 0 <= v < N * N implies (#[trigger] after[v] <==> occurs_before(
        tiles,
        v,
        k + 1,
    )) by {
        if v == v0 {
            assert(tiles[k] == v);
        } else {
            assert(after[v] == seen[v]);
            if occurs_before(tiles, v, k + 1) {
                let a = choose|a: int| 0 <= a < k + 1 && tiles[a] == v;
                assert(0 <= a < k && tiles[a] == v);
            }
            if occurs_before(tiles, v, k) {
                let a = choose|a: int| 0 <= a < k && tiles[a] == v;
                assert(0 <= a < k + 1 && tiles[a] == v);
            }
        }
    }
    if v0 == 0 {
        assert(cell_index(k / (N as int), k % (N as int)) == k);
    } else {
        assert(after[0] == seen[0]);
    }
}

/// Every tile of the board stands somewhere in a permutation.
pub proof fn lemma_permutation_holds_all(tiles: Seq<int>, v: int)
    requires
        is_permutation(tiles),
        0 <= v < N * N,
    ensures
        occurs_before(tiles, v, N * N),
{
    let values = tiles.to_set();
    let all = vstd::set_lib::set_int_range(0, N * N);
    assert(tiles.no_duplicates());
    tiles.unique_seq_to_set();
    vstd::set_lib::lemma_int_range(0, N * N);
    assert(values.subset_of(all)) by {
        assert forall|t: int| values.contains(t) implies all.contains(t) by {
            let a = choose|a: int| 0 <= a < tiles.len() && tiles[a] == t;
            assert(0 <= tiles[a] < N * N);
        }
    }
    vstd::set_lib::lemma_len_subset(values, all);
    vstd::set_lib::lemma_subset_equality(values, all);
    assert(all.contains(v));
    assert(tiles.contains(v));
    let a = choose|a: int| 0 <= a < tiles.len() && tiles[a] == v;
    assert(0 <= a < N * N && tiles[a] == v);
}

/// A snapshot of the board, with the blank's coordinates cached.
///
/// The view of a state is its grid as a row-major sequence of tile numbers,
/// `0` standing for the blank.
#[derive(Clone, Copy, Debug, Hash)]
pub struct State {
    board: [[i32; N]; N],
    x: usize,
    y: usize,
}

impl View for State {
    type V = Seq<int>;

    closed spec fn view(&self) -> Seq<int> {
        board_tiles(self.board)
    }
}

impl State {
    /// Row of the cached blank position.
    pub closed spec fn blank_row(&self) -> int {
        self.x as int
    }

    /// Column of the cached blank position.
    pub closed spec fn blank_col(&self) -> int {
        self.y as int
    }

    /// Row-major index of the cached blank position.
    pub open spec fn blank_index(&self) -> int {
        cell_index(self.blank_row(), self.blank_col())
    }

    /// The state invariant: the grid is a permutation of `0..N*N` and the
    /// cached coordinates point at the cell that holds `0`.
    pub open spec fn wf(&self) -> bool {
        &&& in_grid(self.blank_row(), self.blank_col())
        &&& is_permutation(self@)
        &&& self@[self.blank_index()] == 0
    }

    /// Whether the grid is the ordered board.
    pub open spec fn is_goal(&self) -> bool {
        self@ == goal_tiles()
    }

    /// One legal slide: `next` is this board after the tile in an orthogonal
    /// neighbour of the blank has moved into the blank.
    pub open spec fn slides_to(&self, next: State) -> bool {
        &&& in_grid(next.blank_row(), next.blank_col())
        &&& span(self.blank_row(), next.blank_row()) + span(self.blank_col(), next.blank_col())
            == 1
        &&& next@ == swapped(self@, self.blank_index(), next.blank_index())
    }

    /// Two states with the same grid and the same cached blank are the same.
    pub proof fn lemma_ext_equal(a: State, b: State)
        requires
            a@ == b@,
            a.blank_row() == b.blank_row(),
            a.blank_col() == b.blank_col(),
        ensures
            a == b,
    {
        assert forall|r: int| 0 <= r < N implies a.board[r] == b.board[r] by {
            assert forall|c: int| 0 <= c < N implies a.board[r][c] == b.board[r][c] by {
                let k = r * N + c;
                assert(k / (N as int) == r && k % (N as int) == c);
                assert(a@[k] == a.board@[r]@[c] as int);
                assert(b@[k] == b.board@[r]@[c] as int);
            }
            assert(a.board[r] =~= b.board[r]);
        }
        assert(a.board =~= b.board);
    }

    /// There is only one state whose grid is the ordered board.
    pub proof fn lemma_goal_unique(a: State, b: State)
        requires
            a.wf(),
            a.is_goal(),
            b.wf(),
            b.is_goal(),
        ensures
            a == b,
            a.blank_row() == N - 1,
            a.blank_col() == N - 1,
    {
        assert(goal_tiles()[a.blank_index()] == 0);
        assert(goal_tiles()[b.blank_index()] == 0);
        State::lemma_ext_equal(a, b);
    }

    /// The ordered board, with the blank in the bottom-right cell.
    pub fn new() -> (s: State)
        ensures
            s.wf(),
            s.is_goal(),
            s.blank_row() == N - 1,
            s.blank_col() == N - 1,
    {
        let mut board: [[i32; N]; N] = [[0; N]; N];
        let mut val: i32 = 1;
        for i in 0..N
            invariant
                val == i * N + 1,
                forall|r: int, c: int|
                    0 <= r < i && 0 <= c < N ==> #[trigger] board@[r]@[c] == r * N + c + 1,
        {
            for j in 0..N
                invariant
                    0 <= i < N,
                    val == i * N + j + 1,
                    forall|r: int, c: int|
                        0 <= r < i && 0 <= c < N ==> #[trigger] board@[r]@[c] == r * N + c + 1,
                    forall|c: int| 0 <= c < j ==> #[trigger] board@[i as int]@[c] == i * N + c + 1,
            {
                board[i][j] = val;
                val += 1;
            }
        }
        board[N - 1][N - 1] = 0;
        let s = State { board, x: N - 1, y: N - 1 };
        proof {
            assert forall|k: int| 0 <= k < N * N implies #[trigger] s@[k] == goal_tiles()[k] by {
                let r = k / (N as int);
                let c = k % (N as int);
                assert(k == r * N + c);
            }
            assert(s@ =~= goal_tiles());
        }
        s
    }

    /// The state with the given grid, if the grid is a permutation of
    /// `0..N*N`; the blank is located by the scan that checks it.
    ///
    /// Only half of the permutations can be brought to the ordered board by
    /// slides; this constructor accepts the other half as well.
    pub fn from_board(board: [[i32; N]; N]) -> (made: Option<State>)
        ensures
            made is Some <==> is_permutation(board_tiles(board)),
            made matches Some(s) ==> s.wf() && s@ == board_tiles(board),
    {
        let ghost tiles = board_tiles(board);
        let mut seen: [bool; CELLS] = [false; CELLS];
        let mut x: usize = 0;
        let mut y: usize = 0;
        assert(scanned(tiles, seen@, 0, x as int, y as int));
        for i in 0..N
            invariant
                tiles == board_tiles(board),
                scanned(tiles, seen@, i * N, x as int, y as int),
        {
            for j in 0..N
                invariant
                    0 <= i < N,
                    tiles == board_tiles(board),
                    scanned(tiles, seen@, i * N + j, x as int, y as int),
            {
                let ghost k = i * N + j;
                assert(k / (N as int) == i && k % (N as int) == j);
                let value = board[i][j];
                assert(tiles[k] == value);
                if value < 0 || value >= CELLS as i32 {
                    return None;
                }
                let tile = value as usize;
                if seen[tile] {
                    proof {
                        let a = choose|a: int| 0 <= a < k && tiles[a] == value;
                        assert(tiles[a] == tiles[k]);
                    }
                    return None;
                }
                proof {
                    lemma_scan_step(tiles, seen@, k, x as int, y as int);
                }
                seen[tile] = true;
                if value == 0 {
                    x = i;
                    y = j;
                }
            }
        }
        proof {
            assert(is_permutation(tiles));
            lemma_permutation_holds_all(tiles, 0);
        }
        Some(State { board, x, y })
    }

    /// The cached coordinates `(row, col)` of the blank.
    pub fn blank(&self) -> (p: (usize, usize))
        ensures
            p.0 == self.blank_row(),
            p.1 == self.blank_col(),
    {
        (self.x, self.y)
    }

    /// The tile at `(row, col)`, `0` for the blank; `None` off the board.
    pub fn cell(&self, row: usize, col: usize) -> (v: Option<i32>)
        ensures
            v is Some <==> in_grid(row as int, col as int),
            v matches Some(t) ==> t == self@[cell_index(row as int, col as int)],
    {
        if row < N && col < N {
            let ghost k = row * N + col;
            assert(k / (N as int) == row && k % (N as int) == col);
            Some(self.board[row][col])
        } else {
            None
        }
    }

    /// This board after the tile at `(row, col)`, a neighbour of the blank,
    /// has moved into the blank.
    pub(crate) fn slide(&self, row: usize, col: usize) -> (next: State)
        requires
            self.wf(),
            in_grid(row as int, col as int),
            span(self.blank_row(), row as int) + span(self.blank_col(), col as int) == 1,
        ensures
            next.wf(),
            self.slides_to(next),
            next.blank_row() == row,
            next.blank_col() == col,
    {
        let mut board = self.board;
        board[self.x][self.y] = self.board[row][col];
        board[row][col] = self.board[self.x][self.y];
        let next = State { board, x: row, y: col };
        proof {
            let p = self.blank_index();
            let q = next.blank_index();
            let expect = swapped(self@, p, q);
            assert forall|k: int| 0 <= k < N * N implies #[trigger] next@[k] == expect[k] by {
                let r = k / (N as int);
                let c = k % (N as int);
                assert(k == r * N + c);
            }
            assert(next@ =~= expect);
            lemma_swap_permutation(self@, p, q);
        }
        next
    }
}

/// Exchanging two cells of a permutation gives a permutation.
pub proof fn lemma_swap_permutation(tiles: Seq<int>, p: int, q: int)
    requires
        is_permutation(tiles),
        0 <= p < tiles.len(),
        0 <= q < tiles.len(),
    ensures
        is_permutation(swapped(tiles, p, q)),
{
    let s = swapped(tiles, p, q);
    assert forall|i: int, j: int| 0 <= i < j < s.len() implies s[i] != s[j] by {
        let a = if i == p { q } else if i == q { p } else { i };
        let b = if j == p { q } else if j == q { p } else { j };
        assert(s[i] == tiles[a] && s[j] == tiles[b]);
        assert(a != b);
        if a < b {
            assert(tiles[a] != tiles[b]);
        } else {
            assert(tiles[b] != tiles[a]);
        }
    }
}

impl PartialEq for State {
    /// Cell-by-cell comparison of the two grids and of the cached blanks.
    fn eq(&self, other: &State) -> (same: bool) {
        let mut same: bool = self.x == other.x && self.y == other.y;
        for i in 0..N
            invariant
                same <==> (self.x == other.x && self.y == other.y && forall|r: int, c: int|
                    0 <= r < i && 0 <= c < N ==> self.board@[r]@[c] == other.board@[r]@[c]),
        {
            for j in 0..N
                invariant
                    0 <= i < N,
                    same <==> (self.x == other.x && self.y == other.y && (forall|r: int, c: int|
                        0 <= r < i && 0 <= c < N ==> self.board@[r]@[c] == other.board@[r]@[c])
                        && (forall|c: int|
                        0 <= c < j ==> self.board@[i as int]@[c] == other.board@[i as int]@[c])),
            {
                if self.board[i][j] != other.board[i][j] {
                    same = false;
                }
            }
        }
        proof {
            if same {
                assert forall|r: int| 0 <= r < N implies self.board[r] == other.board[r] by {
                    assert(self.board[r] =~= other.board[r]);
                }
                assert(self.board =~= other.board);
            }
        }
        same
    }
}

impl Eq for State {}

impl vstd::std_specs::cmp::PartialEqSpecImpl for State {
    open spec fn obeys_eq_spec() -> bool {
        true
    }

    open spec fn eq_spec(&self, other: &State) -> bool {
        *self == *other
    }
}

} // verus!
