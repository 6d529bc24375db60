//! Directions of a move, and the order in which each one reads the cells of
//! a line.

use vstd::prelude::*;

verus! {

/// The edge towards which the tiles slide.
#[derive(Debug, Clone, Copy)]
pub enum Dir {
    Left,
    Right,
    Up,
    Down,
}

/// The flat index of the cell in column `x` of row `y`.
pub open spec fn cell_index(size: nat, x: int, y: int) -> int {
    y * size + x
}

impl Dir {
    /// The flat index of the cell at position `pos` of line `line`. Lines are
    /// rows for `Left` and `Right`, columns for `Up` and `Down`; position 0 is
    /// the cell at the edge that the tiles slide towards.
    pub open spec fn index_of(self, size: nat, line: int, pos: int) -> int {
        match self {
            Dir::Left => line * size + pos,
            Dir::Right => (line + 1) * size - 1 - pos,
            Dir::Up => pos * size + line,
            Dir::Down => size * (size - pos - 1) + line,
        }
    }

    /// The column of the cell at position `pos` of line `line`.
    pub open spec fn col_of(self, size: nat, line: int, pos: int) -> int {
        match self {
            Dir::Left => pos,
            Dir::Right => size - 1 - pos,
            Dir::Up => line,
            Dir::Down => line,
        }
    }

    /// The row of the cell at position `pos` of line `line`.
    pub open spec fn row_of(self, size: nat, line: int, pos: int) -> int {
        match self {
            Dir::Left => line,
            Dir::Right => line,
            Dir::Up => pos,
            Dir::Down => size - 1 - pos,
        }
    }

    /// The line that runs through the cell in column `x` of row `y`.
    pub open spec fn line_through(self, x: int, y: int) -> int {
        match self {
            Dir::Left => y,
            Dir::Right => y,
            Dir::Up => x,
            Dir::Down => x,
        }
    }

    /// The position, in its line, of the cell in column `x` of row `y`.
    pub open spec fn pos_in_line(self, size: nat, x: int, y: int) -> int {
        match self {
            Dir::Left => x,
            Dir::Right => size - 1 - x,
            Dir::Up => y,
            Dir::Down => size - 1 - y,
        }
    }

    /// The line that runs through the cell with flat index `i`.
    pub open spec fn line_of(self, size: nat, i: int) -> int {
        self.line_through(i % (size as int), i / (size as int))
    }

    /// The position, in its line, of the cell with flat index `i`.
    pub open spec fn pos_of(self, size: nat, i: int) -> int {
        self.pos_in_line(size, i % (size as int), i / (size as int))
    }

    /// The flat index of the cell at position `pos` of line `line`.
    pub fn index(self, size: usize, line: usize, pos: usize) -> (i: usize)
        requires
            line < size,
            pos < size,
            size * size <= usize::MAX,
        ensures
            i == self.index_of(size as nat, line as int, pos as int),
            i < size * size,
    {
        proof {
            lemma_index_in_grid(self, size as nat, line as int, pos as int);
            assert((line + 1) * size <= size * size) by (nonlinear_arith)
                requires
                    line < size,
            ;
            assert(pos * size < size * size) by (nonlinear_arith)
                requires
                    pos < size,
            ;
            assert(line * size < size * size) by (nonlinear_arith)
                requires
                    line < size,
            ;
            assert(size * (size - pos - 1) < size * size && size * (size - pos - 1) >= 0)
                by (nonlinear_arith)
                requires
                    pos < size,
            ;
            assert((line + 1) * size >= size) by (nonlinear_arith)
                requires
                    line >= 0,
                    size > 0,
            ;
        }
        match self {
            Dir::Left => line * size + pos,
            Dir::Right => (line + 1) * size - 1 - pos,
            Dir::Up => pos * size + line,
            Dir::Down => size * (size - pos - 1) + line,
        }
    }
}

/// A cell of the grid has a flat index inside the grid, from which its
/// column and row can be read back.
pub proof fn lemma_cell_index(size: nat, x: int, y: int)
    requires
        0 <= x < size,
        0 <= y < size,
    ensures
        0 <= cell_index(size, x, y) < size * size,
        cell_index(size, x, y) % (size as int) == x,
        cell_index(size, x, y) / (size as int) == y,
{
    let i = cell_index(size, x, y);
    assert(0 <= y * size && y * size + size <= size * size) by (nonlinear_arith)
        requires
            0 <= y < size,
    ;
    vstd::arithmetic::div_mod::lemma_fundamental_div_mod_converse(i, size as int, y, x);
}

/// A flat index inside the grid names a cell of the grid.
pub proof fn lemma_cell_of_index(size: nat, i: int)
    requires
        0 <= i < size * size,
    ensures
        0 <= i % (size as int) < size,
        0 <= i / (size as int) < size,
        cell_index(size, i % (size as int), i / (size as int)) == i,
{
    let d = size as int;
    assert(d > 0) by (nonlinear_arith)
        requires
            d >= 0,
            0 <= i < d * d,
    ;
    vstd::arithmetic::div_mod::lemma_fundamental_div_mod(i, d);
    vstd::arithmetic::div_mod::lemma_mod_bound(i, d);
    assert(0 <= i / d < d) by (nonlinear_arith)
        requires
            0 <= i < d * d,
            d > 0,
            i == d * (i / d) + i % d,
            0 <= i % d < d,
    ;
    assert(d * (i / d) == (i / d) * d) by (nonlinear_arith);
}

/// The reading order of a direction names the cell in column `col_of` of row
/// `row_of`, which lies inside the grid.
pub proof fn lemma_index_in_grid(dir: Dir, size: nat, line: int, pos: int)
    requires
        0 <= line < size,
        0 <= pos < size,
    ensures
        dir.index_of(size, line, pos) == cell_index(
            size,
            dir.col_of(size, line, pos),
            dir.row_of(size, line, pos),
        ),
        0 <= dir.col_of(size, line, pos) < size,
        0 <= dir.row_of(size, line, pos) < size,
        0 <= dir.index_of(size, line, pos) < size * size,
        dir.line_of(size, dir.index_of(size, line, pos)) == line,
        dir.pos_of(size, dir.index_of(size, line, pos)) == pos,
{
    let x = dir.col_of(size, line, pos);
    let y = dir.row_of(size, line, pos);
    assert((line + 1) * size - 1 - pos == line * size + (size - 1 - pos)) by (nonlinear_arith);
    assert(size * (size - pos - 1) + line == (size - 1 - pos) * size + line) by (nonlinear_arith);
    lemma_cell_index(size, x, y);
}

/// Every cell of the grid lies on exactly one line of a direction, at one
/// position of it.
pub proof fn lemma_line_through_index(dir: Dir, size: nat, i: int)
    requires
        0 <= i < size * size,
    ensures
        0 <= dir.line_of(size, i) < size,
        0 <= dir.pos_of(size, i) < size,
        dir.index_of(size, dir.line_of(size, i), dir.pos_of(size, i)) == i,
{
    lemma_cell_of_index(size, i);
    lemma_index_in_grid(dir, size, dir.line_of(size, i), dir.pos_of(size, i));
}

} // verus!
