//! The mathematical model of a board, and what a move does to it.

use vstd::prelude::*;
use crate::cells::{all_tiles, top_tile};
use crate::dir::{cell_index, Dir};
use crate::line::{collapse, tiles_of, MERGE_LIMIT};

verus! {

/// The tile value that wins the game.
pub const WINNING_TILE: u32 = 2048;

/// The values that a new tile can have.
pub open spec fn is_spawn_value(value: nat) -> bool {
    value == 2 || value == 4 || value == 8
}

/// The value of the new tile for a draw: 2 for the first outcome, 4 for the
/// second, 8 for any other.
pub open spec fn tile_for(draw: int) -> nat {
    if draw == 0 {
        2
    } else if draw == 1 {
        4
    } else {
        8
    }
}

/// The line `line` of a grid, read in the order of `dir`.
pub open spec fn line_at(cells: Seq<nat>, size: nat, dir: Dir, line: int) -> Seq<nat> {
    Seq::new(size, |pos: int| cells[dir.index_of(size, line, pos)])
}

/// The grid in which line `line` of `dir` reads `content`, and every other
/// cell is as in `cells`.
pub open spec fn with_line(cells: Seq<nat>, size: nat, dir: Dir, line: int, content: Seq<nat>) -> Seq<
    nat,
> {
    Seq::new(
        cells.len(),
        |i: int|
            if dir.line_of(size, i) == line {
                content[dir.pos_of(size, i)]
            } else {
                cells[i]
            },
    )
}

/// The grid after a move: every line of `dir` is collapsed.
pub open spec fn moved_cells(cells: Seq<nat>, size: nat, dir: Dir) -> Seq<nat> {
    Seq::new(
        cells.len(),
        |i: int| collapse(line_at(cells, size, dir, dir.line_of(size, i)))[dir.pos_of(size, i)],
    )
}

/// What a board is, mathematically: its side length, its cells in row-major
/// order, and the largest tile value ever placed on it.
pub struct BoardView {
    pub size: nat,
    pub cells: Seq<nat>,
    pub max_num: nat,
}

impl BoardView {
    /// The grid is square and not degenerate, and no cell exceeds the
    /// largest value seen.
    pub open spec fn wf(self) -> bool {
        &&& self.size >= 1
        &&& self.cells.len() == self.size * self.size
        &&& forall|i: int| 0 <= i < self.cells.len() ==> #[trigger] self.cells[i] <= self.max_num
    }

    /// The board of the given side length on which nothing was ever placed.
    pub open spec fn empty(size: nat) -> BoardView {
        BoardView { size, cells: Seq::new(size * size, |i: int| 0nat), max_num: 0 }
    }

    /// The cell in column `x` of row `y`.
    pub open spec fn at(self, x: int, y: int) -> nat {
        self.cells[cell_index(self.size, x, y)]
    }

    /// The board after `value` is written to the cell with flat index `i`.
    pub open spec fn with_cell(self, i: int, value: nat) -> BoardView {
        BoardView {
            size: self.size,
            cells: self.cells.update(i, value),
            max_num: if value > self.max_num {
                value
            } else {
                self.max_num
            },
        }
    }

    /// Every cell is empty or holds a power of two from 2 on.
    pub open spec fn tiles_only(self) -> bool {
        all_tiles(self.cells)
    }

    /// Whether the cell with flat index `i` is a cell of the grid that holds
    /// no tile.
    pub open spec fn is_empty_at(self, i: int) -> bool {
        0 <= i < self.cells.len() && self.cells[i] == 0
    }

    /// Whether some cell holds no tile.
    pub open spec fn has_empty(self) -> bool {
        exists|i: int| self.is_empty_at(i)
    }

    /// The flat indexes of the cells that hold no tile, in increasing order.
    pub open spec fn empty_cells(self) -> Seq<int> {
        Seq::new(self.cells.len(), |i: int| i).filter(|i: int| self.cells[i] == 0)
    }

    /// The number of tiles on the board.
    pub open spec fn tile_count(self) -> nat {
        tiles_of(self.cells).len()
    }

    /// `post` is this board with one new tile, of a value that a spawn can
    /// give, on a cell that was empty.
    pub open spec fn spawned(self, post: BoardView) -> bool {
        exists|i: int, value: nat|
            self.is_empty_at(i) && is_spawn_value(value) && post == #[trigger] self.with_cell(
                i,
                value,
            )
    }

    /// `post` is this board after a spawn was tried: one new tile if there
    /// was an empty cell, no change if there was none.
    pub open spec fn spawn_tried(self, post: BoardView) -> bool {
        if self.has_empty() {
            self.spawned(post)
        } else {
            post == self
        }
    }

    /// Every cell can be doubled in a `u32`, so that no merge overflows.
    pub open spec fn mergeable(self) -> bool {
        forall|i: int| 0 <= i < self.cells.len() ==> #[trigger] self.cells[i] <= MERGE_LIMIT
    }

    /// The board after a move towards `dir`.
    pub open spec fn moved(self, dir: Dir) -> BoardView {
        let cells = moved_cells(self.cells, self.size, dir);
        let top = top_tile(cells);
        BoardView {
            size: self.size,
            cells,
            max_num: if top > self.max_num {
                top
            } else {
                self.max_num
            },
        }
    }

    /// The cell in column `x` of row `y` holds a tile that differs from the
    /// tile to its right and from the tile below it, where there is one.
    pub open spec fn stuck_at(self, x: int, y: int) -> bool {
        &&& self.at(x, y) != 0
        &&& x + 1 < self.size ==> self.at(x + 1, y) != self.at(x, y)
        &&& y + 1 < self.size ==> self.at(x, y + 1) != self.at(x, y)
    }

    /// No cell is empty, and no two cells that are neighbours in a row or
    /// in a column hold equal tiles.
    pub open spec fn game_over(self) -> bool {
        &&& !self.has_empty()
        &&& forall|x: int, y: int|
            0 <= x && x + 1 < self.size && 0 <= y < self.size ==> self.at(x + 1, y)
                != #[trigger] self.at(x, y)
        &&& forall|x: int, y: int|
            0 <= x < self.size && 0 <= y && y + 1 < self.size ==> self.at(x, y + 1)
                != #[trigger] self.at(x, y)
    }

    /// No move changes the grid.
    pub open spec fn no_move_left(self) -> bool {
        &&& moved_cells(self.cells, self.size, Dir::Left) == self.cells
        &&& moved_cells(self.cells, self.size, Dir::Right) == self.cells
        &&& moved_cells(self.cells, self.size, Dir::Up) == self.cells
        &&& moved_cells(self.cells, self.size, Dir::Down) == self.cells
    }

    /// A winning tile was placed on the board at some time.
    pub open spec fn won(self) -> bool {
        self.max_num >= WINNING_TILE
    }
}

} // verus!
