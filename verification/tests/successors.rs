use sliding_puzzle::{successors, State, N};

fn grid(state: &State) -> [[i32; N]; N] {
    let mut out = [[0; N]; N];
    for row in 0..N {
        for col in 0..N {
            out[row][col] = state.cell(row, col).unwrap();
        }
    }
    out
}

fn with_blank_at(row: usize, col: usize) -> State {
    let mut board = [[0; N]; N];
    let mut next = 1;
    for r in 0..N {
        for c in 0..N {
            if (r, c) != (row, col) {
                board[r][c] = next;
                next += 1;
            }
        }
    }
    State::from_board(board).unwrap()
}

fn sorted_tiles(state: &State) -> Vec<i32> {
    let mut tiles: Vec<i32> = grid(state).iter().flatten().copied().collect();
    tiles.sort();
    tiles
}

fn cells_that_differ(a: &State, b: &State) -> usize {
    let mut count = 0;
    for row in 0..N {
        for col in 0..N {
            if a.cell(row, col) != b.cell(row, col) {
                count += 1;
            }
        }
    }
    count
}

#[test]
fn goal_has_two_successors_up_then_left() {
    let goal = State::new();
    let succ = successors(&goal);
    assert_eq!(succ.len(), 2);
    assert_eq!(succ[0].blank(), (2, 3));
    assert_eq!(
        grid(&succ[0]),
        [[1, 2, 3, 4], [5, 6, 7, 8], [9, 10, 11, 0], [13, 14, 15, 12]]
    );
    assert_eq!(succ[1].blank(), (3, 2));
    assert_eq!(
        grid(&succ[1]),
        [[1, 2, 3, 4], [5, 6, 7, 8], [9, 10, 11, 12], [13, 14, 0, 15]]
    );
}

#[test]
fn interior_blank_moves_up_down_left_right() {
    let state = State::from_board([[1, 2, 3, 4], [5, 0, 6, 7], [8, 9, 10, 11], [12, 13, 14, 15]])
        .unwrap();
    let succ = successors(&state);
    assert_eq!(succ.len(), 4);
    assert_eq!(succ[0].blank(), (0, 1));
    assert_eq!(succ[1].blank(), (2, 1));
    assert_eq!(succ[2].blank(), (1, 0));
    assert_eq!(succ[3].blank(), (1, 2));
    assert_eq!(
        grid(&succ[0]),
        [[1, 0, 3, 4], [5, 2, 6, 7], [8, 9, 10, 11], [12, 13, 14, 15]]
    );
    assert_eq!(
        grid(&succ[1]),
        [[1, 2, 3, 4], [5, 9, 6, 7], [8, 0, 10, 11], [12, 13, 14, 15]]
    );
    assert_eq!(
        grid(&succ[2]),
        [[1, 2, 3, 4], [0, 5, 6, 7], [8, 9, 10, 11], [12, 13, 14, 15]]
    );
    assert_eq!(
        grid(&succ[3]),
        [[1, 2, 3, 4], [5, 6, 0, 7], [8, 9, 10, 11], [12, 13, 14, 15]]
    );
}

#[test]
fn successor_count_is_two_three_or_four_by_blank_position() {
    for row in 0..N {
        for col in 0..N {
            let row_on_edge = row == 0 || row == N - 1;
            let col_on_edge = col == 0 || col == N - 1;
            let expected = if row_on_edge && col_on_edge {
                2
            } else if row_on_edge || col_on_edge {
                3
            } else {
                4
            };
            let state = with_blank_at(row, col);
            assert_eq!(state.blank(), (row, col));
            assert_eq!(successors(&state).len(), expected);
        }
    }
}

#[test]
fn every_corner_gives_two_successors() {
    for (row, col) in [(0, 0), (0, N - 1), (N - 1, 0), (N - 1, N - 1)] {
        assert_eq!(successors(&with_blank_at(row, col)).len(), 2);
    }
}

#[test]
fn successors_keep_the_tiles_and_change_two_cells() {
    for row in 0..N {
        for col in 0..N {
            let state = with_blank_at(row, col);
            for next in successors(&state) {
                assert_eq!(sorted_tiles(&next), sorted_tiles(&state));
                assert_eq!(sorted_tiles(&next), (0..16).collect::<Vec<i32>>());
                assert_eq!(cells_that_differ(&state, &next), 2);
                let (r, c) = next.blank();
                assert_eq!(next.cell(r, c), Some(0));
                assert_eq!(next.cell(row, col), state.cell(r, c));
                assert_eq!(r.abs_diff(row) + c.abs_diff(col), 1);
            }
        }
    }
}

#[test]
fn no_successor_equals_its_parent() {
    for row in 0..N {
        for col in 0..N {
            let state = with_blank_at(row, col);
            for next in successors(&state) {
                assert_ne!(next, state);
            }
        }
    }
}

#[test]
fn successors_leave_the_parent_unchanged() {
    let state = with_blank_at(1, 2);
    let before = grid(&state);
    let _ = successors(&state);
    assert_eq!(grid(&state), before);
    assert_eq!(state.blank(), (1, 2));
}

#[test]
fn every_slide_can_be_undone() {
    for row in 0..N {
        for col in 0..N {
            let state = with_blank_at(row, col);
            for next in successors(&state) {
                assert!(successors(&next).contains(&state));
            }
        }
    }
}
