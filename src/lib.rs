//! Game-state engine of a block-placement puzzle on a 9×9 grid: 3×3 pieces are
//! moved over the board and placed, and full rows, columns and 3×3 blocks clear
//! for points.

pub mod piece;
pub mod board;
pub mod laws;
