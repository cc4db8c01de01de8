use crate::piece::Piece;
use vstd::prelude::*;

verus! {

/// Side length of the board.
pub const SIDE: usize = 9;

/// Points awarded for each cleared row, column or block.
pub const AWARD: u64 = 9;

/// A direction in which the active piece can be moved.
#[derive(Clone, Copy, Debug, PartialEq, Eq, Structural)]
pub enum Direction {
    Up,
    Down,
    Left,
    Right,
}

/// Largest number of points that a single placement can award: nine rows,
/// nine columns and nine blocks.
pub const MAX_AWARD: u64 = 243;

/// A game session: the 9×9 occupancy board (`board[row][column]`), the score
/// and the active piece.
#[derive(Clone, Copy, Debug, PartialEq, Eq)]
pub struct Sudoku {
    pub board: [[bool; 9]; 9],
    pub score: u64,
    pub curr: Piece,
}

/// The board as a sequence of rows.
pub open spec fn grid_of(b: [[bool; 9]; 9]) -> Seq<Seq<bool>> {
    Seq::new(9, |r: int| b[r]@)
}

/// A 9×9 grid of cells.
pub open spec fn is_grid(g: Seq<Seq<bool>>) -> bool {
    g.len() == 9 && forall|r: int| 0 <= r < 9 ==> #[trigger] g[r].len() == 9
}

/// Board cell `(r, c)` lies under an occupied cell of the piece's mask.
pub open spec fn covers(p: Piece, r: int, c: int) -> bool {
    p.is_occupied(r - p.x, c - p.y)
}

/// Every occupied mask cell lies on a free cell of the grid.
pub open spec fn fits(g: Seq<Seq<bool>>, p: Piece) -> bool {
    forall|i: int, j: int| #[trigger] p.is_occupied(i, j) ==> !g[p.x + i][p.y + j]
}

/// The grid with the piece's occupied cells set.
pub open spec fn stamp(g: Seq<Seq<bool>>, p: Piece) -> Seq<Seq<bool>> {
    Seq::new(9, |r: int| Seq::new(9, |c: int| g[r][c] || covers(p, r, c)))
}

/// Every cell of row `r` is occupied.
pub open spec fn row_full(g: Seq<Seq<bool>>, r: int) -> bool {
    forall|c: int| 0 <= c < 9 ==> #[trigger] g[r][c]
}

/// Every cell of column `c` is occupied.
pub open spec fn col_full(g: Seq<Seq<bool>>, c: int) -> bool {
    forall|r: int| 0 <= r < 9 ==> #[trigger] g[r][c]
}

/// Every cell of block `(bi, bj)` is occupied. The block covers rows
/// `3 * bi ..` and columns `3 * bj ..`, three of each.
pub open spec fn block_full(g: Seq<Seq<bool>>, bi: int, bj: int) -> bool {
    forall|k: int, l: int| 0 <= k < 3 && 0 <= l < 3 ==> #[trigger] g[3 * bi + k][3 * bj + l]
}

/// Every full row emptied.
pub open spec fn clear_rows(g: Seq<Seq<bool>>) -> Seq<Seq<bool>> {
    Seq::new(9, |r: int| Seq::new(9, |c: int| g[r][c] && !row_full(g, r)))
}

/// Every full column emptied.
pub open spec fn clear_cols(g: Seq<Seq<bool>>) -> Seq<Seq<bool>> {
    Seq::new(9, |r: int| Seq::new(9, |c: int| g[r][c] && !col_full(g, c)))
}

/// Every full block emptied.
pub open spec fn clear_blocks(g: Seq<Seq<bool>>) -> Seq<Seq<bool>> {
    Seq::new(9, |r: int| Seq::new(9, |c: int| g[r][c] && !block_full(g, r / 3, c / 3)))
}

/// Number of full rows among the first `n`.
pub open spec fn full_rows(g: Seq<Seq<bool>>, n: int) -> nat
    decreases n,
{
    if n <= 0 {
        0
    } else {
        full_rows(g, n - 1) + if row_full(g, n - 1) { 1nat } else { 0nat }
    }
}

/// Number of full columns among the first `n`.
pub open spec fn full_cols(g: Seq<Seq<bool>>, n: int) -> nat
    decreases n,
{
    if n <= 0 {
        0
    } else {
        full_cols(g, n - 1) + if col_full(g, n - 1) { 1nat } else { 0nat }
    }
}

/// Number of full blocks among the first `n`, numbered row band by row band.
pub open spec fn full_blocks(g: Seq<Seq<bool>>, n: int) -> nat
    decreases n,
{
    if n <= 0 {
        0
    } else {
        full_blocks(g, n - 1) + if block_full(g, (n - 1) / 3, (n - 1) % 3) {
            1nat
        } else {
            0nat
        }
    }
}

impl Sudoku {
    /// The active piece lies wholly on the board.
    pub open spec fn wf(&self) -> bool {
        self.curr.wf()
    }

    /// The active piece may be placed where it stands.
    pub open spec fn fits(&self) -> bool {
        fits(grid_of(self.board), self.curr)
    }

    /// The board right after the piece's cells are set.
    pub open spec fn stamped(&self) -> Seq<Seq<bool>> {
        stamp(grid_of(self.board), self.curr)
    }

    /// The board after a placement: rows, then columns, then blocks cleared.
    pub open spec fn settled(&self) -> Seq<Seq<bool>> {
        clear_blocks(clear_cols(clear_rows(self.stamped())))
    }

    /// Points that a placement of the active piece where it stands awards.
    pub open spec fn award(&self) -> int {
        let g1 = self.stamped();
        let g2 = clear_rows(g1);
        let g3 = clear_cols(g2);
        AWARD * (full_rows(g1, 9) + full_cols(g2, 9) + full_blocks(g3, 9))
    }

    /// The session after the piece moves one cell in `dir`, unless that would
    /// take its mask off the board.
    pub open spec fn shifted(self, dir: Direction) -> Sudoku {
        let p = self.curr;
        let q = match dir {
            Direction::Up => if p.y > 0 { Piece { y: (p.y - 1) as u16, ..p } } else { p },
            Direction::Down => if p.y < 6 { Piece { y: (p.y + 1) as u16, ..p } } else { p },
            Direction::Left => if p.x > 0 { Piece { x: (p.x - 1) as u16, ..p } } else { p },
            Direction::Right => if p.x < 6 { Piece { x: (p.x + 1) as u16, ..p } } else { p },
        };
        Sudoku { curr: q, ..self }
    }

    /// Moves the active piece one cell in `dir`; at the edge of the board it
    /// stays where it is. Occupied cells do not stop it.
    pub fn shift(&mut self, dir: Direction)
        ensures
            *final(self) == old(self).shifted(dir),
    {
        match dir {
            Direction::Up => {
                if self.curr.y > 0 {
                    self.curr.y -= 1;
                }
            },
            Direction::Down => {
                if self.curr.y < 6 {
                    self.curr.y += 1;
                }
            },
            Direction::Left => {
                if self.curr.x > 0 {
                    self.curr.x -= 1;
                }
            },
            Direction::Right => {
                if self.curr.x < 6 {
                    self.curr.x += 1;
                }
            },
        }
    }

    /// Whether every occupied cell of the active piece lies on a free board cell.
    pub fn legal(&self) -> (r: bool)
        requires
            self.wf(),
        ensures
            r == self.fits(),
    {
        let x = self.curr.x as usize;
        let y = self.curr.y as usize;
        let mut i: usize = 0;
        while i < 3
            invariant
                self.wf(),
                x == self.curr.x,
                y == self.curr.y,
                i <= 3,
                forall|a: int, b: int|
                    a < i && #[trigger] self.curr.is_occupied(a, b) ==> !self.board[x + a][y + b],
            decreases 3 - i,
        {
            let mut j: usize = 0;
            while j < 3
                invariant
                    self.wf(),
                    x == self.curr.x,
                    y == self.curr.y,
                    i < 3,
                    j <= 3,
                    forall|a: int, b: int|
                        (a < i || (a == i && b < j)) && #[trigger] self.curr.is_occupied(a, b)
                            ==> !self.board[x + a][y + b],
                decreases 3 - j,
            {
                if self.curr.shape[i][j] && self.board[x + i][y + j] {
                    assert(self.curr.is_occupied(i as int, j as int));
                    return false;
                }
                j += 1;
            }
            i += 1;
        }
        true
    }

    /// A session with an empty board, no points and a random piece at the origin.
    pub fn new() -> (r: Sudoku)
        ensures
            r.score == 0,
            forall|i: int, j: int| 0 <= i < 9 && 0 <= j < 9 ==> !#[trigger] r.board[i][j],
            r.curr.x == 0,
            r.curr.y == 0,
            r.wf(),
    {
        Sudoku { score: 0, board: [[false; 9]; 9], curr: Piece::random() }
    }

    /// A session with no points, a random piece at the origin and a board whose
    /// cells are each occupied or free at random.
    pub fn random() -> (r: Sudoku)
        ensures
            r.score == 0,
            r.curr.x == 0,
            r.curr.y == 0,
            r.wf(),
    {
        let mut board = [[false; 9]; 9];
        let mut i: usize = 0;
        while i < SIDE
            invariant
                i <= SIDE,
            decreases SIDE - i,
        {
            let mut row = [false; 9];
            let mut j: usize = 0;
            while j < SIDE
                invariant
                    j <= SIDE,
                decreases SIDE - j,
            {
                row[j] = random_cell();
                j += 1;
            }
            board[i] = row;
            i += 1;
        }
        Sudoku { score: 0, board, curr: Piece::random() }
    }

    /// Places the active piece where it stands if that is legal, clears full
    /// rows, then full columns, then full blocks, and makes a fresh random
    /// piece at the origin the active one. An illegal placement changes
    /// nothing.
    pub fn place(&mut self)
        requires
            old(self).wf(),
            old(self).fits() ==> old(self).score + old(self).award() <= u64::MAX,
        ensures
            old(self).fits() ==> {
                &&& grid_of(final(self).board) == old(self).settled()
                &&& final(self).score == old(self).score + old(self).award()
                &&& final(self).curr.x == 0
                &&& final(self).curr.y == 0
            },
            !old(self).fits() ==> *final(self) == *old(self),
            final(self).wf(),
    {
        if self.legal() {
            let next = Piece::random();
            self.place_with(next.shape);
        }
    }

    /// Places the active piece where it stands if that is legal, clears full
    /// rows, then full columns, then full blocks for `AWARD` points each, and
    /// makes a piece of mask `next` at the origin the active one. An illegal
    /// placement changes nothing.
    pub fn place_with(&mut self, next: [[bool; 3]; 3])
        requires
            old(self).wf(),
            old(self).fits() ==> old(self).score + old(self).award() <= u64::MAX,
        ensures
            old(self).fits() ==> {
                &&& grid_of(final(self).board) == old(self).settled()
                &&& final(self).score == old(self).score + old(self).award()
                &&& final(self).curr == (Piece { x: 0, y: 0, shape: next })
            },
            !old(self).fits() ==> *final(self) == *old(self),
            final(self).wf(),
    {
        if !self.legal() {
            return;
        }
        let mut b = self.board;
        stamp_piece(&mut b, &self.curr);
        let ghost g1 = grid_of(b);
        assert(g1 == self.stamped());
        let mut score = self.score;
        score = clear_full_rows(&mut b, score);
        let ghost g2 = grid_of(b);
        assert(g2 == clear_rows(g1));
        score = clear_full_cols(&mut b, score);
        let ghost g3 = grid_of(b);
        assert(g3 == clear_cols(g2));
        score = clear_full_blocks(&mut b, score);
        assert(grid_of(b) == clear_blocks(g3));
        self.board = b;
        self.score = score;
        self.curr = Piece::with_shape(next);
    }
}

/// No placement awards more than `MAX_AWARD` points, so a score of at most
/// `u64::MAX - MAX_AWARD` always leaves room for the next placement.
pub proof fn lemma_award_bounded(s: Sudoku)
    ensures
        0 <= s.award() <= MAX_AWARD,
{
    let g1 = s.stamped();
    let g2 = clear_rows(g1);
    let g3 = clear_cols(g2);
    lemma_full_rows_grow(g1, 0, 9);
    lemma_full_cols_grow(g2, 0, 9);
    lemma_full_blocks_grow(g3, 0, 9);
}

/// Relies on `rand::random::<bool>()`: a fair draw from the thread-local
/// generator. Nothing is known of any single outcome.
#[verifier::external_body]
fn random_cell() -> (r: bool) {
    rand::random::<bool>()
}

/// Sets the board cells under the piece's occupied mask cells.
fn stamp_piece(b: &mut [[bool; 9]; 9], p: &Piece)
    requires
        p.wf(),
    ensures
        grid_of(*final(b)) == stamp(grid_of(*old(b)), *p),
{
    let ghost b0 = *b;
    let x = p.x as usize;
    let y = p.y as usize;
    let mut i: usize = 0;
    while i < 3
        invariant
            p.wf(),
            x == p.x,
            y == p.y,
            i <= 3,
            forall|r: int, c: int|
                0 <= r < 9 && 0 <= c < 9 ==> #[trigger] b[r][c] == (b0[r][c] || (covers(*p, r, c)
                    && r - x < i)),
        decreases 3 - i,
    {
        let mut j: usize = 0;
        while j < 3
            invariant
                p.wf(),
                x == p.x,
                y == p.y,
                i < 3,
                j <= 3,
                forall|r: int, c: int|
                    0 <= r < 9 && 0 <= c < 9 ==> #[trigger] b[r][c] == (b0[r][c] || (covers(
                        *p,
                        r,
                        c,
                    ) && (r - x < i || (r - x == i && c - y < j)))),
            decreases 3 - j,
        {
            if p.shape[i][j] {
                b[x + i][y + j] = true;
            }
            j += 1;
        }
        i += 1;
    }
    assert(grid_of(*b) =~~= stamp(grid_of(b0), *p));
}

/// Whether every cell of the row is occupied.
fn row_is_full(row: [bool; 9]) -> (r: bool)
    ensures
        r == forall|c: int| 0 <= c < 9 ==> row[c],
{
    let mut c: usize = 0;
    while c < SIDE
        invariant
            c <= SIDE,
            forall|k: int| 0 <= k < c ==> row[k],
        decreases SIDE - c,
    {
        if !row[c] {
            return false;
        }
        c += 1;
    }
    true
}

/// Whether every cell of column `c` is occupied.
fn col_is_full(b: &[[bool; 9]; 9], c: usize) -> (r: bool)
    requires
        c < 9,
    ensures
        r == col_full(grid_of(*b), c as int),
{
    let mut r: usize = 0;
    while r < SIDE
        invariant
            c < 9,
            r <= SIDE,
            forall|k: int| 0 <= k < r ==> b[k][c as int],
        decreases SIDE - r,
    {
        if !b[r][c] {
            proof {
                lemma_grid_of(*b);
                assert(!grid_of(*b)[r as int][c as int]);
            }
            return false;
        }
        r += 1;
    }
    proof {
        lemma_grid_of(*b);
    }
    true
}

/// Whether every cell of block `(bi, bj)` is occupied.
fn block_is_full(b: &[[bool; 9]; 9], bi: usize, bj: usize) -> (r: bool)
    requires
        bi < 3,
        bj < 3,
    ensures
        r == block_full(grid_of(*b), bi as int, bj as int),
{
    let mut k: usize = 0;
    while k < 3
        invariant
            bi < 3,
            bj < 3,
            k <= 3,
            forall|k1: int, l1: int|
                0 <= k1 < k && 0 <= l1 < 3 ==> #[trigger] b[3 * bi + k1][3 * bj + l1],
        decreases 3 - k,
    {
        let mut l: usize = 0;
        while l < 3
            invariant
                bi < 3,
                bj < 3,
                k < 3,
                l <= 3,
                forall|k1: int, l1: int|
                    (0 <= k1 < k && 0 <= l1 < 3) || (k1 == k && 0 <= l1 < l)
                        ==> #[trigger] b[3 * bi + k1][3 * bj + l1],
            decreases 3 - l,
        {
            if !b[3 * bi + k][3 * bj + l] {
                proof {
                    lemma_grid_of(*b);
                    assert(!grid_of(*b)[3 * bi + k as int][3 * bj + l as int]);
                }
                return false;
            }
            l += 1;
        }
        k += 1;
    }
    proof {
        lemma_grid_of(*b);
    }
    true
}

/// The cells of `grid_of(b)` are those of `b`.
proof fn lemma_grid_of(b: [[bool; 9]; 9])
    ensures
        is_grid(grid_of(b)),
        forall|r: int, c: int|
            0 <= r < 9 && 0 <= c < 9 ==> #[trigger] grid_of(b)[r][c] == b[r][c],
{
}

/// Counting full rows over a longer prefix never gives fewer.
proof fn lemma_full_rows_grow(g: Seq<Seq<bool>>, i: int, n: int)
    requires
        0 <= i <= n,
    ensures
        full_rows(g, i) <= full_rows(g, n) <= full_rows(g, i) + (n - i),
    decreases n - i,
{
    if i < n {
        lemma_full_rows_grow(g, i, n - 1);
    }
}

/// Counting full columns over a longer prefix never gives fewer.
proof fn lemma_full_cols_grow(g: Seq<Seq<bool>>, i: int, n: int)
    requires
        0 <= i <= n,
    ensures
        full_cols(g, i) <= full_cols(g, n) <= full_cols(g, i) + (n - i),
    decreases n - i,
{
    if i < n {
        lemma_full_cols_grow(g, i, n - 1);
    }
}

/// Counting full blocks over a longer prefix never gives fewer.
proof fn lemma_full_blocks_grow(g: Seq<Seq<bool>>, i: int, n: int)
    requires
        0 <= i <= n,
    ensures
        full_blocks(g, i) <= full_blocks(g, n) <= full_blocks(g, i) + (n - i),
    decreases n - i,
{
    if i < n {
        lemma_full_blocks_grow(g, i, n - 1);
    }
}

/// Empties every full row, adding `AWARD` to `score` for each.
fn clear_full_rows(b: &mut [[bool; 9]; 9], score: u64) -> (r: u64)
    requires
        score + AWARD * full_rows(grid_of(*old(b)), 9) <= u64::MAX,
    ensures
        grid_of(*final(b)) == clear_rows(grid_of(*old(b))),
        r == score + AWARD * full_rows(grid_of(*old(b)), 9),
{
    let ghost g0 = grid_of(*b);
    proof {
        lemma_grid_of(*b);
    }
    let mut score = score;
    let ghost s0 = score;
    let mut i: usize = 0;
    while i < SIDE
        invariant
            i <= SIDE,
            s0 + AWARD * full_rows(g0, 9) <= u64::MAX,
            score == s0 + AWARD * full_rows(g0, i as int),
            forall|r: int| i <= r < 9 ==> #[trigger] b[r]@ == g0[r],
            forall|r: int, c: int|
                0 <= r < i && 0 <= c < 9 ==> #[trigger] b[r][c] == (g0[r][c] && !row_full(g0, r)),
        decreases SIDE - i,
    {
        proof {
            lemma_full_rows_grow(g0, i + 1, 9);
        }
        let full = row_is_full(b[i]);
        assert(b[i as int]@ == g0[i as int]);
        assert(full == row_full(g0, i as int)) by {
            if full {
                assert forall|c: int| 0 <= c < 9 implies #[trigger] g0[i as int][c] by {
                    assert(b[i as int][c]);
                }
            } else {
                let c = choose|c: int| 0 <= c < 9 && !b[i as int][c];
                assert(!g0[i as int][c]);
            }
        }
        if full {
            b[i] = [false; 9];
            score += AWARD;
        }
        i += 1;
    }
    proof {
        lemma_grid_of(*b);
    }
    assert(grid_of(*b) =~~= clear_rows(g0));
    score
}

/// Empties column `c` of the board.
fn empty_col(b: &mut [[bool; 9]; 9], c: usize)
    requires
        c < 9,
    ensures
        forall|r: int, k: int|
            0 <= r < 9 && 0 <= k < 9 ==> #[trigger] final(b)[r][k] == (old(b)[r][k] && k != c),
{
    let ghost b0 = *b;
    let mut r: usize = 0;
    while r < SIDE
        invariant
            c < 9,
            r <= SIDE,
            forall|r1: int, k: int|
                0 <= r1 < 9 && 0 <= k < 9 ==> #[trigger] b[r1][k] == (b0[r1][k] && (k != c
                    || r1 >= r)),
        decreases SIDE - r,
    {
        b[r][c] = false;
        r += 1;
    }
}

/// Empties every full column, adding `AWARD` to `score` for each.
fn clear_full_cols(b: &mut [[bool; 9]; 9], score: u64) -> (r: u64)
    requires
        score + AWARD * full_cols(grid_of(*old(b)), 9) <= u64::MAX,
    ensures
        grid_of(*final(b)) == clear_cols(grid_of(*old(b))),
        r == score + AWARD * full_cols(grid_of(*old(b)), 9),
{
    let ghost g0 = grid_of(*b);
    proof {
        lemma_grid_of(*b);
    }
    let mut score = score;
    let ghost s0 = score;
    let mut i: usize = 0;
    while i < SIDE
        invariant
            i <= SIDE,
            s0 + AWARD * full_cols(g0, 9) <= u64::MAX,
            score == s0 + AWARD * full_cols(g0, i as int),
            forall|r: int, c: int|
                0 <= r < 9 && 0 <= c < 9 ==> #[trigger] b[r][c] == (g0[r][c] && !(c < i
                    && col_full(g0, c))),
        decreases SIDE - i,
    {
        proof {
            lemma_full_cols_grow(g0, i + 1, 9);
        }
        proof {
            lemma_grid_of(*b);
        }
        let full = col_is_full(b, i);
        assert(full == col_full(g0, i as int)) by {
            if full {
                assert forall|r: int| 0 <= r < 9 implies #[trigger] g0[r][i as int] by {
                    assert(grid_of(*b)[r][i as int]);
                }
            } else {
                let r = choose|r: int| 0 <= r < 9 && !grid_of(*b)[r][i as int];
                assert(!g0[r][i as int]);
            }
        }
        if full {
            empty_col(b, i);
            score += AWARD;
        }
        i += 1;
    }
    proof {
        lemma_grid_of(*b);
    }
    assert(grid_of(*b) =~~= clear_cols(g0));
    score
}

/// Empties block `(bi, bj)` of the board.
fn empty_block(b: &mut [[bool; 9]; 9], bi: usize, bj: usize)
    requires
        bi < 3,
        bj < 3,
    ensures
        forall|r: int, c: int|
            0 <= r < 9 && 0 <= c < 9 ==> #[trigger] final(b)[r][c] == (old(b)[r][c] && !(r / 3
                == bi && c / 3 == bj)),
{
    let ghost b0 = *b;
    let mut k: usize = 0;
    while k < 3
        invariant
            bi < 3,
            bj < 3,
            k <= 3,
            forall|r: int, c: int|
                0 <= r < 9 && 0 <= c < 9 ==> #[trigger] b[r][c] == (b0[r][c] && !(r / 3 == bi
                    && c / 3 == bj && r < 3 * bi + k)),
        decreases 3 - k,
    {
        let mut l: usize = 0;
        while l < 3
            invariant
                bi < 3,
                bj < 3,
                k < 3,
                l <= 3,
                forall|r: int, c: int|
                    0 <= r < 9 && 0 <= c < 9 ==> #[trigger] b[r][c] == (b0[r][c] && !(r / 3 == bi
                        && c / 3 == bj && (r < 3 * bi + k || (r == 3 * bi + k && c < 3 * bj
                        + l)))),
            decreases 3 - l,
        {
            b[3 * bi + k][3 * bj + l] = false;
            l += 1;
        }
        k += 1;
    }
}

/// Empties every full block, adding `AWARD` to `score` for each.
fn clear_full_blocks(b: &mut [[bool; 9]; 9], score: u64) -> (r: u64)
    requires
        score + AWARD * full_blocks(grid_of(*old(b)), 9) <= u64::MAX,
    ensures
        grid_of(*final(b)) == clear_blocks(grid_of(*old(b))),
        r == score + AWARD * full_blocks(grid_of(*old(b)), 9),
{
    let ghost g0 = grid_of(*b);
    proof {
        lemma_grid_of(*b);
    }
    let mut score = score;
    let ghost s0 = score;
    let mut bi: usize = 0;
    while bi < 3
        invariant
            bi <= 3,
            s0 + AWARD * full_blocks(g0, 9) <= u64::MAX,
            score == s0 + AWARD * full_blocks(g0, 3 * bi),
            forall|r: int, c: int|
                0 <= r < 9 && 0 <= c < 9 ==> #[trigger] b[r][c] == (g0[r][c] && !(r / 3 < bi
                    && block_full(g0, r / 3, c / 3))),
        decreases 3 - bi,
    {
        let mut bj: usize = 0;
        while bj < 3
            invariant
                bi < 3,
                bj <= 3,
                s0 + AWARD * full_blocks(g0, 9) <= u64::MAX,
                score == s0 + AWARD * full_blocks(g0, 3 * bi + bj),
                forall|r: int, c: int|
                    0 <= r < 9 && 0 <= c < 9 ==> #[trigger] b[r][c] == (g0[r][c] && !((r / 3 < bi
                        || (r / 3 == bi && c / 3 < bj)) && block_full(g0, r / 3, c / 3))),
            decreases 3 - bj,
        {
            proof {
                lemma_full_blocks_grow(g0, 3 * bi + bj + 1, 9);
                assert((3 * bi + bj) / 3 == bi);
                assert((3 * bi + bj) % 3 == bj);
                lemma_grid_of(*b);
            }
            let full = block_is_full(b, bi, bj);
            assert(full == block_full(g0, bi as int, bj as int)) by {
                if full {
                    assert forall|k: int, l: int| 0 <= k < 3 && 0 <= l < 3 implies #[trigger] g0[3
                        * bi + k][3 * bj + l] by {
                        assert(grid_of(*b)[3 * bi + k][3 * bj + l]);
                    }
                } else {
                    let (k, l) = choose|k: int, l: int|
                        0 <= k < 3 && 0 <= l < 3 && !#[trigger] grid_of(*b)[3 * bi + k][3 * bj + l];
                    assert(!g0[3 * bi + k][3 * bj + l]);
                }
            }
            if full {
                empty_block(b, bi, bj);
                score += AWARD;
            }
            bj += 1;
        }
        bi += 1;
    }
    proof {
        lemma_grid_of(*b);
    }
    assert(grid_of(*b) =~~= clear_blocks(g0));
    score
}

} // verus!
