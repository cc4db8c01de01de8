use blockdoku::board::{Direction, Sudoku, AWARD, MAX_AWARD};
use blockdoku::piece::Piece;

fn empty_session(x: u16, y: u16, shape: [[bool; 3]; 3]) -> Sudoku {
    Sudoku {
        board: [[false; 9]; 9],
        score: 0,
        curr: Piece { x, y, shape },
    }
}

fn single_cell() -> [[bool; 3]; 3] {
    let mut shape = [[false; 3]; 3];
    shape[0][0] = true;
    shape
}

#[test]
fn shift_moves_one_cell() {
    let mut s = empty_session(3, 4, single_cell());
    s.shift(Direction::Left);
    assert_eq!((s.curr.x, s.curr.y), (2, 4));
    s.shift(Direction::Right);
    s.shift(Direction::Right);
    assert_eq!((s.curr.x, s.curr.y), (4, 4));
    s.shift(Direction::Up);
    assert_eq!((s.curr.x, s.curr.y), (4, 3));
    s.shift(Direction::Down);
    s.shift(Direction::Down);
    assert_eq!((s.curr.x, s.curr.y), (4, 5));
}

#[test]
fn repeated_shifts_clamp_at_edges() {
    let mut s = empty_session(3, 4, single_cell());
    for _ in 0..20 {
        s.shift(Direction::Left);
    }
    assert_eq!(s.curr.x, 0);
    for _ in 0..20 {
        s.shift(Direction::Right);
    }
    assert_eq!(s.curr.x, 6);
    for _ in 0..20 {
        s.shift(Direction::Up);
    }
    assert_eq!(s.curr.y, 0);
    for _ in 0..20 {
        s.shift(Direction::Down);
    }
    assert_eq!(s.curr.y, 6);
    assert_eq!(s.curr.x, 6);
}

#[test]
fn shift_ignores_occupied_cells() {
    let mut s = empty_session(0, 0, single_cell());
    s.board[1][0] = true;
    s.shift(Direction::Right);
    assert_eq!((s.curr.x, s.curr.y), (1, 0));
    assert!(!s.legal());
}

#[test]
fn single_overlap_is_illegal_until_removed() {
    let mut shape = [[false; 3]; 3];
    shape[0][0] = true;
    shape[1][1] = true;
    shape[2][0] = true;
    let mut s = empty_session(1, 2, shape);
    s.board[2][3] = true;
    s.board[5][5] = true;
    assert!(!s.legal());
    s.board[2][3] = false;
    assert!(s.legal());
}

#[test]
fn blank_piece_is_always_legal() {
    let mut s = empty_session(4, 4, [[false; 3]; 3]);
    s.board = [[true; 9]; 9];
    assert!(s.legal());
}

#[test]
fn illegal_place_changes_nothing() {
    let mut s = empty_session(2, 2, single_cell());
    s.board[2][2] = true;
    s.score = 18;
    let before = s;
    s.place();
    assert_eq!(s, before);
    s.place_with([[true; 3]; 3]);
    assert_eq!(s, before);
}

#[test]
fn legal_is_idempotent() {
    let mut s = empty_session(2, 2, single_cell());
    assert_eq!(s.legal(), s.legal());
    assert!(s.legal());
    s.board[2][2] = true;
    assert_eq!(s.legal(), s.legal());
    assert!(!s.legal());
}

#[test]
fn place_sets_cells_without_clearing() {
    let mut shape = [[false; 3]; 3];
    shape[0][1] = true;
    shape[2][2] = true;
    let mut s = empty_session(4, 3, shape);
    s.place_with(single_cell());
    let mut expected = [[false; 9]; 9];
    expected[4][4] = true;
    expected[6][5] = true;
    assert_eq!(s.board, expected);
    assert_eq!(s.score, 0);
}

#[test]
fn completing_one_row_clears_it() {
    let mut s = empty_session(3, 5, single_cell());
    for c in 0..9 {
        if c != 5 {
            s.board[3][c] = true;
        }
    }
    s.board[7][1] = true;
    s.score = 5;
    s.place_with(single_cell());
    assert!(s.board[3].iter().all(|&cell| !cell));
    assert_eq!(s.score, 5 + 9);
    assert!(s.board[7][1]);
}

#[test]
fn completing_one_column_clears_it() {
    let mut s = empty_session(5, 4, single_cell());
    for r in 0..9 {
        if r != 5 {
            s.board[r][4] = true;
        }
    }
    s.board[0][0] = true;
    s.place_with(single_cell());
    for r in 0..9 {
        assert!(!s.board[r][4]);
    }
    assert!(s.board[0][0]);
    assert_eq!(s.score, 9);
}

#[test]
fn completing_one_block_clears_it() {
    let mut s = empty_session(4, 4, single_cell());
    for r in 3..6 {
        for c in 3..6 {
            if (r, c) != (4, 4) {
                s.board[r][c] = true;
            }
        }
    }
    s.board[3][6] = true;
    s.place_with(single_cell());
    for r in 3..6 {
        for c in 3..6 {
            assert!(!s.board[r][c]);
        }
    }
    assert!(s.board[3][6]);
    assert_eq!(s.score, 9);
}

#[test]
fn three_rows_clear_at_once() {
    let mut shape = [[false; 3]; 3];
    shape[0][2] = true;
    shape[1][2] = true;
    shape[2][2] = true;
    let mut s = empty_session(0, 6, shape);
    for r in 0..3 {
        for c in 0..8 {
            s.board[r][c] = true;
        }
    }
    s.board[4][8] = true;
    s.place_with(single_cell());
    assert_eq!(s.score, 27);
    let mut expected = [[false; 9]; 9];
    expected[4][8] = true;
    assert_eq!(s.board, expected);
}

#[test]
fn row_column_and_block_completed_together() {
    // The piece completes row 2, column 2 and the middle block at once. The
    // row pass runs first and empties (2, 2), so column 2 is no longer full
    // when the column pass looks at it; the middle block still clears.
    let mut shape = [[false; 3]; 3];
    shape[0][0] = true;
    shape[1][1] = true;
    let mut s = empty_session(2, 2, shape);
    for i in 0..9 {
        s.board[2][i] = true;
        s.board[i][2] = true;
    }
    s.board[2][2] = false;
    for r in 3..6 {
        for c in 3..6 {
            s.board[r][c] = true;
        }
    }
    s.board[3][3] = false;
    s.board[8][8] = true;
    s.place_with(single_cell());
    assert_eq!(s.score, 18);
    for i in 0..9 {
        assert!(!s.board[2][i]);
    }
    for r in 3..6 {
        for c in 3..6 {
            assert!(!s.board[r][c]);
        }
    }
    for r in 0..9 {
        if r != 2 {
            assert!(s.board[r][2]);
        }
    }
    assert!(s.board[8][8]);
}

#[test]
fn place_with_makes_next_piece_active_at_origin() {
    let mut next = [[false; 3]; 3];
    next[1][2] = true;
    next[2][0] = true;
    let mut s = empty_session(5, 6, single_cell());
    s.place_with(next);
    assert_eq!(s.curr, Piece { x: 0, y: 0, shape: next });
    assert!(s.board[5][6]);
}

#[test]
fn place_resets_position_to_origin() {
    let mut s = empty_session(6, 6, single_cell());
    s.place();
    assert_eq!((s.curr.x, s.curr.y), (0, 0));
    assert!(s.board[6][6]);
}

#[test]
fn blank_piece_placement_only_replaces_piece() {
    let mut s = empty_session(3, 3, [[false; 3]; 3]);
    s.board[3][3] = true;
    s.place_with(single_cell());
    let mut expected = [[false; 9]; 9];
    expected[3][3] = true;
    assert_eq!(s.board, expected);
    assert_eq!(s.score, 0);
    assert_eq!(s.curr, Piece { x: 0, y: 0, shape: single_cell() });
}

#[test]
fn new_session_is_empty() {
    let s = Sudoku::new();
    assert_eq!(s.score, 0);
    assert_eq!(s.board, [[false; 9]; 9]);
    assert_eq!((s.curr.x, s.curr.y), (0, 0));
}

#[test]
fn random_session_starts_at_origin() {
    let s = Sudoku::random();
    assert_eq!(s.score, 0);
    assert_eq!((s.curr.x, s.curr.y), (0, 0));
}

#[test]
fn award_bound_matches_award() {
    assert_eq!(MAX_AWARD, 27 * AWARD);
}
