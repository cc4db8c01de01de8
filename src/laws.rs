//! Properties that relate several calls or hold of every state.
use crate::board::{clear_rows, col_full, fits, is_grid, row_full, Direction, Sudoku};
use crate::piece::Piece;
use vstd::prelude::*;

verus! {

/// The session after `n` shifts in direction `dir`.
pub open spec fn shifted_n(s: Sudoku, dir: Direction, n: nat) -> Sudoku
    decreases n,
{
    if n == 0 {
        s
    } else {
        shifted_n(s.shifted(dir), dir, (n - 1) as nat)
    }
}

/// The session with the piece moved `n` cells in `dir`, stopped at the edge.
pub open spec fn moved_clamped(s: Sudoku, dir: Direction, n: nat) -> Sudoku {
    let p = s.curr;
    let q = match dir {
        Direction::Up => Piece { y: if n >= p.y { 0 } else { (p.y - n) as u16 }, ..p },
        Direction::Down => Piece { y: if p.y + n >= 6 { 6 } else { (p.y + n) as u16 }, ..p },
        Direction::Left => Piece { x: if n >= p.x { 0 } else { (p.x - n) as u16 }, ..p },
        Direction::Right => Piece { x: if p.x + n >= 6 { 6 } else { (p.x + n) as u16 }, ..p },
    };
    Sudoku { curr: q, ..s }
}

/// Shifting `n` times in one direction moves the piece `n` cells that way
/// but never past the edge: repeated left shifts bring `x` to exactly 0 and
/// keep it there, repeated right shifts bring it to exactly 6, and up and down
/// do the same for `y`. Board, score and mask stay as they were.
pub proof fn lemma_shift_clamps(s: Sudoku, dir: Direction, n: nat)
    requires
        s.wf(),
    ensures
        shifted_n(s, dir, n) == moved_clamped(s, dir, n),
        shifted_n(s, dir, n).wf(),
    decreases n,
{
    if n > 0 {
        lemma_shift_clamps(s.shifted(dir), dir, (n - 1) as nat);
    }
}

/// Where exactly one occupied mask cell `(i, j)` lies on an occupied board
/// cell, the piece does not fit; with that one board cell freed, it fits.
pub proof fn lemma_single_overlap(g: Seq<Seq<bool>>, p: Piece, i: int, j: int)
    requires
        is_grid(g),
        p.wf(),
        p.is_occupied(i, j),
        g[p.x + i][p.y + j],
        forall|a: int, b: int|
            #[trigger] p.is_occupied(a, b) && (a != i || b != j) ==> !g[p.x + a][p.y + b],
    ensures
        !fits(g, p),
        fits(g.update(p.x + i, g[p.x + i].update(p.y + j, false)), p),
{
    let h = g.update(p.x + i, g[p.x + i].update(p.y + j, false));
    assert forall|a: int, b: int| #[trigger] p.is_occupied(a, b) implies !h[p.x + a][p.y + b] by {
        if a != i || b != j {
            assert(!g[p.x + a][p.y + b]);
        }
    }
}

/// Once a full row is emptied by the row pass, no column is full: a
/// placement that completes a row clears no column in the same move.
pub proof fn lemma_cleared_row_blocks_columns(g: Seq<Seq<bool>>, r: int)
    requires
        is_grid(g),
        0 <= r < 9,
        row_full(g, r),
    ensures
        forall|c: int| 0 <= c < 9 ==> !#[trigger] col_full(clear_rows(g), c),
{
    assert forall|c: int| 0 <= c < 9 implies !#[trigger] col_full(clear_rows(g), c) by {
        assert(!clear_rows(g)[r][c]);
    }
}

} // verus!
