//! A bare occupancy grid: one byte per intersection, no chain bookkeeping.

use vstd::prelude::*;

verus! {

/// Occupancy of a square board. `0` marks a vacant intersection, `1` a white
/// stone and `2` a black stone.
pub struct Board {
    pub board_size: usize,
    pub board_state: Vec<Vec<u8>>,
}

/// The two sides of the game.
#[derive(Clone, Copy, Debug, PartialEq, Eq, Structural)]
pub enum Color {
    WHITE,
    BLACK,
}

impl Board {
    /// The occupancy values, row by row.
    pub open spec fn cells(&self) -> Seq<Seq<u8>> {
        Seq::new(self.board_state@.len(), |r: int| self.board_state@[r]@)
    }

    /// A board of `board_size` rows and columns with every intersection vacant.
    pub fn new(board_size: usize) -> (board: Self)
        ensures
            board.board_size == board_size,
            board.cells() == Seq::new(board_size as nat, |r: int| Seq::new(board_size as nat, |c: int| 0u8)),
    {
        let mut rows: Vec<Vec<u8>> = Vec::new();
        let mut r: usize = 0;
        while r < board_size
            invariant
                r <= board_size,
                rows@.len() == r,
                forall|i: int| 0 <= i < r ==> (#[trigger] rows@[i])@ == Seq::new(board_size as nat, |c: int| 0u8),
            decreases board_size - r,
        {
            let mut row: Vec<u8> = Vec::new();
            let mut c: usize = 0;
            while c < board_size
                invariant
                    c <= board_size,
                    row@.len() == c,
                    forall|j: int| 0 <= j < c ==> row@[j] == 0u8,
                decreases board_size - c,
            {
                row.push(0);
                c = c + 1;
            }
            assert(row@ =~= Seq::new(board_size as nat, |c: int| 0u8));
            rows.push(row);
            r = r + 1;
        }
        let board = Board { board_size, board_state: rows };
        assert(board.cells() =~= Seq::new(board_size as nat, |r: int| Seq::new(board_size as nat, |c: int| 0u8)));
        board
    }
}

} // verus!
