//! The end of a game: a win, or a board on which no move is left.

use vstd::prelude::*;
use crate::board::Board;
use crate::dir::{cell_index, lemma_cell_index};
use crate::grid::WINNING_TILE;
use crate::grid_facts::lemma_game_over_cells;

verus! {

impl Board {
    /// Whether a winning tile was ever placed on the board.
    pub fn check_win(&self) -> (won: bool)
        ensures
            won == self@.won(),
    {
        self.max_num >= WINNING_TILE
    }

    /// Whether the game is lost: the board is full, and no two neighbours
    /// in a row or in a column are equal.
    pub fn check_game_over(&self) -> (over: bool)
        requires
            self.wf(),
        ensures
            over == self@.game_over(),
    {
        let size: usize = self.size;
        proof {
            lemma_game_over_cells(self@);
        }
        let mut y: usize = 0;
        while y < size
            invariant
                y <= size,
                size == self.size,
                self.wf(),
                forall|xx: int, yy: int|
                    0 <= xx < size && 0 <= yy < y ==> #[trigger] self@.stuck_at(xx, yy),
                self@.game_over() <==> forall|xx: int, yy: int|
                    0 <= xx < size && 0 <= yy < size ==> #[trigger] self@.stuck_at(xx, yy),
            decreases size - y,
        {
            let mut x: usize = 0;
            while x < size
                invariant
                    x <= size,
                    y < size,
                    size == self.size,
                    self.wf(),
                    forall|xx: int, yy: int|
                        0 <= xx < size && 0 <= yy < y ==> #[trigger] self@.stuck_at(xx, yy),
                    forall|xx: int| 0 <= xx < x ==> #[trigger] self@.stuck_at(xx, y as int),
                    self@.game_over() <==> forall|xx: int, yy: int|
                        0 <= xx < size && 0 <= yy < size ==> #[trigger] self@.stuck_at(xx, yy),
                decreases size - x,
            {
                let idx = self.get_index(x, y);
                let value = self.cells[idx];
                proof {
                    assert(self@.at(x as int, y as int) == value);
                    if x + 1 < size {
                        lemma_cell_index(size as nat, x + 1, y as int);
                        assert(cell_index(size as nat, x + 1, y as int) == idx + 1);
                    }
                    if y + 1 < size {
                        lemma_cell_index(size as nat, x as int, y + 1);
                        assert(cell_index(size as nat, x as int, y + 1) == idx + size)
                            by (nonlinear_arith)
                            requires
                                idx == y * size + x,
                                cell_index(size as nat, x as int, y + 1) == (y + 1) * size + x,
                        ;
                    }
                }
                if value == 0 {
                    assert(!self@.stuck_at(x as int, y as int));
                    return false;
                }
                if x + 1 < size && self.cells[idx + 1] == value {
                    assert(self@.at(x + 1, y as int) == value);
                    assert(!self@.stuck_at(x as int, y as int));
                    return false;
                }
                if y + 1 < size && self.cells[idx + size] == value {
                    assert(self@.at(x as int, y + 1) == value);
                    assert(!self@.stuck_at(x as int, y as int));
                    return false;
                }
                assert(self@.stuck_at(x as int, y as int));
                x += 1;
            }
            y += 1;
        }
        true
    }
}

} // verus!
