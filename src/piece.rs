use rand::Rng;
use vstd::prelude::*;

verus! {

/// Side length of a piece's occupancy mask.
pub const MASK: usize = 3;

/// The active, not yet placed piece: a 3×3 occupancy mask and the board offset
/// of its top-left corner. `shape[i][j]` covers board cell `[x + i][y + j]`.
#[derive(Clone, Copy, Debug, PartialEq, Eq)]
pub struct Piece {
    pub x: u16,
    pub y: u16,
    pub shape: [[bool; 3]; 3],
}

impl Piece {
    /// The mask cell `(i, j)` lies inside the mask and is occupied.
    pub open spec fn is_occupied(&self, i: int, j: int) -> bool {
        0 <= i < 3 && 0 <= j < 3 && self.shape[i][j]
    }

    /// No mask cell is occupied.
    pub open spec fn is_blank(&self) -> bool {
        forall|i: int, j: int| !self.is_occupied(i, j)
    }

    /// The whole mask lies on the board.
    pub open spec fn wf(&self) -> bool {
        self.x <= 6 && self.y <= 6
    }

    /// A blank piece at the origin.
    pub fn new() -> (r: Piece)
        ensures
            r.x == 0,
            r.y == 0,
            r.is_blank(),
            r.wf(),
    {
        Piece { x: 0, y: 0, shape: [[false; 3]; 3] }
    }

    /// A piece at the origin with the given mask.
    pub fn with_shape(shape: [[bool; 3]; 3]) -> (r: Piece)
        ensures
            r == (Piece { x: 0, y: 0, shape }),
            r.wf(),
    {
        Piece { x: 0, y: 0, shape }
    }

    /// A piece at the origin whose mask cells are each occupied with
    /// probability one in three, independently.
    pub fn random() -> (r: Piece)
        ensures
            r.x == 0,
            r.y == 0,
            r.wf(),
    {
        let mut shape = [[false; 3]; 3];
        let mut i: usize = 0;
        while i < MASK
            invariant
                i <= MASK,
            decreases MASK - i,
        {
            let mut row = [false; 3];
            let mut j: usize = 0;
            while j < MASK
                invariant
                    j <= MASK,
                decreases MASK - j,
            {
                row[j] = draw_cell();
                j += 1;
            }
            shape[i] = row;
            i += 1;
        }
        Piece::with_shape(shape)
    }

    /// The bounding box `(xmin, ymin, xmax, ymax)` of the occupied mask cells;
    /// `(2, 2, 0, 0)` for a blank mask.
    pub fn bounds(&self) -> (r: (u16, u16, u16, u16))
        ensures
            self.is_blank() ==> r == (2u16, 2u16, 0u16, 0u16),
            !self.is_blank() ==> forall|i: int, j: int|
                self.is_occupied(i, j) ==> r.0 <= i <= r.2 && r.1 <= j <= r.3,
            !self.is_blank() ==> exists|j: int| self.is_occupied(r.0 as int, j),
            !self.is_blank() ==> exists|j: int| self.is_occupied(r.2 as int, j),
            !self.is_blank() ==> exists|i: int| self.is_occupied(i, r.1 as int),
            !self.is_blank() ==> exists|i: int| self.is_occupied(i, r.3 as int),
    {
        let (mut xmin, mut ymin): (u16, u16) = (2, 2);
        let (mut xmax, mut ymax): (u16, u16) = (0, 0);
        let ghost mut seen = false;
        let ghost mut w_xmin: int = 0;
        let ghost mut w_xmax: int = 0;
        let ghost mut w_ymin: int = 0;
        let ghost mut w_ymax: int = 0;
        let mut x: u16 = 0;
        while x < 3
            invariant
                x <= 3,
                !seen ==> xmin == 2 && ymin == 2 && xmax == 0 && ymax == 0,
                !seen ==> forall|i: int, j: int| i < x ==> !self.is_occupied(i, j),
                forall|i: int, j: int|
                    i < x && self.is_occupied(i, j) ==> xmin <= i <= xmax && ymin <= j <= ymax,
                seen ==> self.is_occupied(xmin as int, w_xmin),
                seen ==> self.is_occupied(xmax as int, w_xmax),
                seen ==> self.is_occupied(w_ymin, ymin as int),
                seen ==> self.is_occupied(w_ymax, ymax as int),
            decreases 3 - x,
        {
            let mut y: u16 = 0;
            while y < 3
                invariant
                    x < 3,
                    y <= 3,
                    !seen ==> xmin == 2 && ymin == 2 && xmax == 0 && ymax == 0,
                    !seen ==> forall|i: int, j: int|
                        (i < x || (i == x && j < y)) ==> !self.is_occupied(i, j),
                    forall|i: int, j: int|
                        (i < x || (i == x && j < y)) && self.is_occupied(i, j) ==> xmin <= i
                            <= xmax && ymin <= j <= ymax,
                    seen ==> self.is_occupied(xmin as int, w_xmin),
                    seen ==> self.is_occupied(xmax as int, w_xmax),
                    seen ==> self.is_occupied(w_ymin, ymin as int),
                    seen ==> self.is_occupied(w_ymax, ymax as int),
                decreases 3 - y,
            {
                if self.shape[x as usize][y as usize] {
                    proof {
                        if !seen || x < xmin {
                            w_xmin = y as int;
                        }
                        if !seen || x > xmax {
                            w_xmax = y as int;
                        }
                        if !seen || y < ymin {
                            w_ymin = x as int;
                        }
                        if !seen || y > ymax {
                            w_ymax = x as int;
                        }
                    }
                    xmin = if x < xmin { x } else { xmin };
                    xmax = if x > xmax { x } else { xmax };
                    ymin = if y < ymin { y } else { ymin };
                    ymax = if y > ymax { y } else { ymax };
                    proof {
                        seen = true;
                    }
                }
                y += 1;
            }
            x += 1;
        }
        let r = (xmin, ymin, xmax, ymax);
        proof {
            if !self.is_blank() {
                assert(seen);
                assert(self.is_occupied(r.0 as int, w_xmin));
                assert(self.is_occupied(r.2 as int, w_xmax));
                assert(self.is_occupied(w_ymin, r.1 as int));
                assert(self.is_occupied(w_ymax, r.3 as int));
            }
        }
        r
    }
}

/// Relies on `rand::Rng::gen_ratio(1, 3)` on the thread-local generator: a
/// draw that is true with probability one in three. Nothing is known of any
/// single outcome.
#[verifier::external_body]
fn draw_cell() -> (r: bool) {
    rand::thread_rng().gen_ratio(1, 3)
}

} // verus!
