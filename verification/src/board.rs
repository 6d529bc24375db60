//! The board: grid, largest tile, cell access.

use vstd::prelude::*;
use crate::dir::{cell_index, lemma_cell_index};
use crate::grid::BoardView;
use crate::cells::{as_nats, is_tile, lemma_tile_values};

verus! {

/// A square grid of cells, row by row, with the largest tile value ever
/// placed on it. An empty cell holds 0.
pub struct Board {
    pub(crate) size: usize,
    pub(crate) cells: Vec<u32>,
    pub(crate) max_num: u32,
}

impl View for Board {
    type V = BoardView;

    open(crate) spec fn view(&self) -> BoardView {
        BoardView {
            size: self.size as nat,
            cells: as_nats(self.cells@),
            max_num: self.max_num as nat,
        }
    }
}

impl Board {
    /// The invariant of a board; see [`BoardView::wf`].
    pub open spec fn wf(&self) -> bool {
        self@.wf()
    }

    /// An empty board of the given side length.
    pub fn new(size: usize) -> (board: Board)
        requires
            size >= 1,
            size * size <= usize::MAX,
        ensures
            board.wf(),
            board@ == BoardView::empty(size as nat),
            board@.tiles_only(),
    {
        let board = Board { size, cells: vec![0; size * size], max_num: 0 };
        assert(board@.cells =~= BoardView::empty(size as nat).cells);
        proof {
            lemma_tile_values(0);
        }
        board
    }

    /// The side length of the grid.
    pub fn size(&self) -> (size: usize)
        ensures
            size == self@.size,
    {
        self.size
    }

    /// The cells in row-major order.
    pub fn get_cells(&self) -> (cells: &Vec<u32>)
        ensures
            as_nats(cells@) == self@.cells,
    {
        &self.cells
    }

    /// The largest tile value ever placed on the board.
    pub fn get_max_num(&self) -> (max_num: u32)
        ensures
            max_num == self@.max_num,
    {
        self.max_num
    }

    /// Writes `value` to the cell in column `x` of row `y`.
    pub fn set_cell(&mut self, x: usize, y: usize, value: u32)
        requires
            old(self).wf(),
            x < old(self)@.size,
            y < old(self)@.size,
        ensures
            final(self).wf(),
            final(self)@ == old(self)@.with_cell(
                cell_index(old(self)@.size, x as int, y as int),
                value as nat,
            ),
            old(self)@.tiles_only() && is_tile(value as nat) ==> final(self)@.tiles_only(),
    {
        let idx = self.get_index(x, y);
        let value = self.update_max(value);
        self.cells.set(idx, value);
        assert(self@.cells =~= old(self)@.cells.update(idx as int, value as nat));
    }

    /// The value of the cell in column `x` of row `y`.
    pub fn get_cell(&mut self, x: usize, y: usize) -> (value: u32)
        requires
            old(self).wf(),
            x < old(self)@.size,
            y < old(self)@.size,
        ensures
            value == old(self)@.at(x as int, y as int),
            *final(self) == *old(self),
    {
        let idx = self.get_index(x, y);
        self.cells[idx]
    }

    /// The flat index of the cell in column `x` of row `y`.
    pub(crate) fn get_index(&self, x: usize, y: usize) -> (idx: usize)
        requires
            self.wf(),
            x < self.size,
            y < self.size,
        ensures
            idx == cell_index(self.size as nat, x as int, y as int),
            idx < self.cells.len(),
    {
        proof {
            lemma_cell_index(self.size as nat, x as int, y as int);
            assert(self@.cells.len() == self.cells@.len());
            assert(self.cells.len() == self.size * self.size);
            assert(0 <= y * self.size) by (nonlinear_arith);
        }
        y * self.size + x
    }

    /// Raises the largest value seen to `num` if that is larger, and hands
    /// `num` back.
    pub(crate) fn update_max(&mut self, num: u32) -> (same: u32)
        ensures
            same == num,
            final(self).size == old(self).size,
            final(self).cells == old(self).cells,
            final(self).max_num == if num > old(self).max_num {
                num
            } else {
                old(self).max_num
            },
    {
        if num > self.max_num {
            self.max_num = num;
        }
        num
    }
}

} // verus!
