//! What holds of every board and every move.

use vstd::prelude::*;
use crate::dir::{lemma_cell_of_index, lemma_index_in_grid, Dir};
use crate::cells::{
    lemma_tile_sum_bounds, lemma_tile_sum_positive, lemma_tile_sum_update, lemma_top_tile, tile_sum,
};
use crate::grid::{is_spawn_value, line_at, moved_cells, BoardView, WINNING_TILE};
use crate::grid_facts::{
    lemma_game_over_cells, lemma_move_keeps_sum, lemma_moved_fixed_iff, lemma_tile_count_grows,
};
use crate::line::collapse;
use crate::line_facts::{lemma_all_empty, lemma_collapse_fixed_iff, settled};

verus! {

/// Two cells that follow each other in a settled line.
spec fn pair_settled(first: nat, second: nat) -> bool {
    if first == 0 {
        second == 0
    } else {
        second != first
    }
}

/// Every line of `dir` is settled.
spec fn lines_settled(board: BoardView, dir: Dir) -> bool {
    forall|l: int, p: int|
        0 <= l < board.size && 0 <= p && p + 1 < board.size ==> pair_settled(
            #[trigger] board.cells[dir.index_of(board.size, l, p)],
            board.cells[dir.index_of(board.size, l, p + 1)],
        )
}

/// A move towards `dir` leaves the grid as it is exactly when every line of
/// `dir` is settled.
proof fn lemma_fixed_iff_settled(board: BoardView, dir: Dir)
    requires
        board.cells.len() == board.size * board.size,
    ensures
        moved_cells(board.cells, board.size, dir) == board.cells <==> lines_settled(board, dir),
{
    let size = board.size;
    let cells = board.cells;
    lemma_moved_fixed_iff(cells, size, dir);
    assert forall|l: int| 0 <= l < size implies (collapse(#[trigger] line_at(cells, size, dir, l))
        == line_at(cells, size, dir, l) <==> forall|p: int|
        0 <= p && p + 1 < size ==> pair_settled(
            #[trigger] cells[dir.index_of(size, l, p)],
            cells[dir.index_of(size, l, p + 1)],
        )) by {
        let line = line_at(cells, size, dir, l);
        lemma_collapse_fixed_iff(line);
        if settled(line) {
            assert forall|p: int| 0 <= p && p + 1 < size implies pair_settled(
                #[trigger] cells[dir.index_of(size, l, p)],
                cells[dir.index_of(size, l, p + 1)],
            ) by {
                assert(line[p] == cells[dir.index_of(size, l, p)]);
                assert(line[p + 1] == cells[dir.index_of(size, l, p + 1)]);
            }
        }
        if forall|p: int|
            0 <= p && p + 1 < size ==> pair_settled(
                #[trigger] cells[dir.index_of(size, l, p)],
                cells[dir.index_of(size, l, p + 1)],
            ) {
            assert forall|p: int| 0 <= p && p + 1 < line.len() implies if #[trigger] line[p] == 0 {
                line[p + 1] == 0
            } else {
                line[p + 1] != line[p]
            } by {
                assert(pair_settled(
                    cells[dir.index_of(size, l, p)],
                    cells[dir.index_of(size, l, p + 1)],
                ));
            }
        }
    }
    if lines_settled(board, dir) {
        assert forall|l: int| 0 <= l < size implies collapse(
            #[trigger] line_at(cells, size, dir, l),
        ) == line_at(cells, size, dir, l) by {
            assert forall|p: int| 0 <= p && p + 1 < size implies pair_settled(
                #[trigger] cells[dir.index_of(size, l, p)],
                cells[dir.index_of(size, l, p + 1)],
            ) by {}
        }
    }
    if moved_cells(cells, size, dir) == cells {
        assert forall|l: int, p: int| 0 <= l < size && 0 <= p && p + 1 < size implies pair_settled(
            #[trigger] cells[dir.index_of(size, l, p)],
            cells[dir.index_of(size, l, p + 1)],
        ) by {
            assert(collapse(line_at(cells, size, dir, l)) == line_at(cells, size, dir, l));
        }
    }
}

/// What two settled lines through two neighbours, read in opposite orders,
/// say of the two cells: both are empty, or they hold different tiles.
spec fn both_empty_or_differ(a: nat, b: nat) -> bool {
    (a == 0 && b == 0) || (a != 0 && b != 0 && a != b)
}

/// All neighbours in rows and columns are both empty or different tiles.
spec fn neighbours_settled(board: BoardView) -> bool {
    forall|x: int, y: int|
        0 <= x < board.size && 0 <= y < board.size ==> {
            &&& x + 1 < board.size ==> both_empty_or_differ(
                #[trigger] board.at(x, y),
                board.at(x + 1, y),
            )
            &&& y + 1 < board.size ==> both_empty_or_differ(board.at(x, y), board.at(x, y + 1))
        }
}

/// No move changes the grid exactly when all neighbours are both empty or
/// different tiles.
proof fn lemma_no_move_iff_neighbours(board: BoardView)
    requires
        board.cells.len() == board.size * board.size,
    ensures
        board.no_move_left() <==> neighbours_settled(board),
{
    let size = board.size;
    let cells = board.cells;
    lemma_fixed_iff_settled(board, Dir::Left);
    lemma_fixed_iff_settled(board, Dir::Right);
    lemma_fixed_iff_settled(board, Dir::Up);
    lemma_fixed_iff_settled(board, Dir::Down);
    if board.no_move_left() {
        assert forall|x: int, y: int| 0 <= x < size && 0 <= y < size implies {
            &&& x + 1 < size ==> both_empty_or_differ(#[trigger] board.at(x, y), board.at(x + 1, y))
            &&& y + 1 < size ==> both_empty_or_differ(board.at(x, y), board.at(x, y + 1))
        } by {
            if x + 1 < size {
                lemma_index_in_grid(Dir::Left, size, y, x);
                lemma_index_in_grid(Dir::Left, size, y, x + 1);
                assert(pair_settled(
                    cells[Dir::Left.index_of(size, y, x)],
                    cells[Dir::Left.index_of(size, y, x + 1)],
                ));
                let p = size - 2 - x;
                lemma_index_in_grid(Dir::Right, size, y, p);
                lemma_index_in_grid(Dir::Right, size, y, p + 1);
                assert(pair_settled(
                    cells[Dir::Right.index_of(size, y, p)],
                    cells[Dir::Right.index_of(size, y, p + 1)],
                ));
            }
            if y + 1 < size {
                lemma_index_in_grid(Dir::Up, size, x, y);
                lemma_index_in_grid(Dir::Up, size, x, y + 1);
                assert(pair_settled(
                    cells[Dir::Up.index_of(size, x, y)],
                    cells[Dir::Up.index_of(size, x, y + 1)],
                ));
                let p = size - 2 - y;
                lemma_index_in_grid(Dir::Down, size, x, p);
                lemma_index_in_grid(Dir::Down, size, x, p + 1);
                assert(pair_settled(
                    cells[Dir::Down.index_of(size, x, p)],
                    cells[Dir::Down.index_of(size, x, p + 1)],
                ));
            }
        }
    }
    if neighbours_settled(board) {
        assert forall|l: int, p: int| 0 <= l < size && 0 <= p && p + 1 < size implies pair_settled(
            #[trigger] cells[Dir::Left.index_of(size, l, p)],
            cells[Dir::Left.index_of(size, l, p + 1)],
        ) by {
            lemma_index_in_grid(Dir::Left, size, l, p);
            lemma_index_in_grid(Dir::Left, size, l, p + 1);
            assert(both_empty_or_differ(board.at(p, l), board.at(p + 1, l)));
        }
        assert forall|l: int, p: int| 0 <= l < size && 0 <= p && p + 1 < size implies pair_settled(
            #[trigger] cells[Dir::Right.index_of(size, l, p)],
            cells[Dir::Right.index_of(size, l, p + 1)],
        ) by {
            lemma_index_in_grid(Dir::Right, size, l, p);
            lemma_index_in_grid(Dir::Right, size, l, p + 1);
            assert(both_empty_or_differ(board.at(size - 2 - p, l), board.at(size - 1 - p, l)));
        }
        assert forall|l: int, p: int| 0 <= l < size && 0 <= p && p + 1 < size implies pair_settled(
            #[trigger] cells[Dir::Up.index_of(size, l, p)],
            cells[Dir::Up.index_of(size, l, p + 1)],
        ) by {
            lemma_index_in_grid(Dir::Up, size, l, p);
            lemma_index_in_grid(Dir::Up, size, l, p + 1);
            assert(both_empty_or_differ(board.at(l, p), board.at(l, p + 1)));
        }
        assert forall|l: int, p: int| 0 <= l < size && 0 <= p && p + 1 < size implies pair_settled(
            #[trigger] cells[Dir::Down.index_of(size, l, p)],
            cells[Dir::Down.index_of(size, l, p + 1)],
        ) by {
            lemma_index_in_grid(Dir::Down, size, l, p);
            lemma_index_in_grid(Dir::Down, size, l, p + 1);
            assert(both_empty_or_differ(board.at(l, size - 2 - p), board.at(l, size - 1 - p)));
        }
    }
}

/// Where all neighbours are both empty or different tiles, a cell is empty
/// exactly when the first cell of the grid is.
proof fn lemma_emptiness_spreads(board: BoardView, x: int, y: int)
    requires
        board.cells.len() == board.size * board.size,
        neighbours_settled(board),
        0 <= x < board.size,
        0 <= y < board.size,
    ensures
        board.at(x, y) == 0 <==> board.at(0, 0) == 0,
    decreases x + y,
{
    if x > 0 {
        lemma_emptiness_spreads(board, x - 1, y);
        assert(both_empty_or_differ(board.at(x - 1, y), board.at(x - 1 + 1, y)));
    } else if y > 0 {
        lemma_emptiness_spreads(board, x, y - 1);
        assert(both_empty_or_differ(board.at(x, y - 1), board.at(x, y - 1 + 1)));
    }
}

/// On a board that holds a tile, the game is over exactly when no move,
/// in any of the four directions, changes the grid. (On a board without
/// tiles no move changes anything, and the game is not over.)
pub proof fn lemma_game_over_iff_no_move_left(board: BoardView)
    requires
        board.wf(),
        board.tile_count() > 0,
    ensures
        board.game_over() <==> board.no_move_left(),
{
    let size = board.size;
    lemma_no_move_iff_neighbours(board);
    lemma_game_over_cells(board);
    if board.game_over() {
        assert forall|x: int, y: int| 0 <= x < size && 0 <= y < size implies {
            &&& x + 1 < size ==> both_empty_or_differ(#[trigger] board.at(x, y), board.at(x + 1, y))
            &&& y + 1 < size ==> both_empty_or_differ(board.at(x, y), board.at(x, y + 1))
        } by {
            assert(board.stuck_at(x, y));
            if x + 1 < size {
                assert(board.stuck_at(x + 1, y));
            }
            if y + 1 < size {
                assert(board.stuck_at(x, y + 1));
            }
        }
    }
    if neighbours_settled(board) {
        lemma_all_empty(board.cells);
        let i = choose|i: int| 0 <= i < board.cells.len() && board.cells[i] != 0;
        lemma_cell_of_index(size, i);
        lemma_emptiness_spreads(board, i % (size as int), i / (size as int));
        assert forall|x: int, y: int| 0 <= x < size && 0 <= y < size implies #[trigger] board.stuck_at(
            x,
            y,
        ) by {
            lemma_emptiness_spreads(board, x, y);
            if x + 1 < size {
                assert(both_empty_or_differ(board.at(x, y), board.at(x + 1, y)));
            }
            if y + 1 < size {
                assert(both_empty_or_differ(board.at(x, y), board.at(x, y + 1)));
            }
        }
    }
}

/// A board that holds a tile still holds one after a move and after a
/// spawn. So every board of a game, from its first spawn on, holds a tile.
pub proof fn lemma_tiles_remain(board: BoardView, dir: Dir, spawned: BoardView)
    requires
        board.wf(),
        board.tile_count() > 0,
    ensures
        board.moved(dir).tile_count() > 0,
        board.spawn_tried(spawned) ==> spawned.tile_count() > 0,
{
    lemma_all_empty(board.cells);
    let i = choose|i: int| 0 <= i < board.cells.len() && board.cells[i] != 0;
    lemma_tile_sum_bounds(board.cells, i);
    lemma_move_keeps_sum(board.cells, board.size, dir);
    let moved = board.moved(dir).cells;
    let j = lemma_tile_sum_positive(moved);
    lemma_all_empty(moved);
    if board.spawn_tried(spawned) && board.has_empty() {
        let (k, v) = choose|k: int, v: nat|
            board.is_empty_at(k) && is_spawn_value(v) && spawned == #[trigger] board.with_cell(
                k,
                v,
            );
        lemma_tile_count_grows(board, k, v);
    }
}

/// A valid board stays valid, and its largest value seen does not fall:
/// after any move, after any write to a cell of the grid, and after any
/// spawn.
pub proof fn lemma_board_stays_valid(
    board: BoardView,
    dir: Dir,
    i: int,
    value: nat,
    spawned: BoardView,
)
    requires
        board.wf(),
    ensures
        board.moved(dir).wf(),
        board.moved(dir).max_num >= board.max_num,
        0 <= i < board.cells.len() ==> board.with_cell(i, value).wf(),
        board.with_cell(i, value).max_num >= board.max_num,
        board.spawn_tried(spawned) ==> spawned.wf() && spawned.max_num >= board.max_num,
{
    lemma_top_tile(board.moved(dir).cells);
    if board.spawn_tried(spawned) && board.has_empty() {
        let (j, v) = choose|j: int, v: nat|
            board.is_empty_at(j) && is_spawn_value(v) && spawned == #[trigger] board.with_cell(
                j,
                v,
            );
        assert(spawned.wf());
    }
}

/// A board that holds a winning tile is won.
pub proof fn lemma_winning_tile_wins(board: BoardView, i: int)
    requires
        board.wf(),
        0 <= i < board.cells.len(),
        board.cells[i] >= WINNING_TILE,
    ensures
        board.won(),
{
}

/// A won board stays won: after any move, after any write to a cell, and
/// after any spawn.
pub proof fn lemma_win_stays(board: BoardView, dir: Dir, i: int, value: nat, spawned: BoardView)
    requires
        board.won(),
    ensures
        board.moved(dir).won(),
        board.with_cell(i, value).won(),
        board.spawn_tried(spawned) ==> spawned.won(),
{
}

/// A move that leaves the grid as it is leaves the whole board as it is,
/// the largest value seen included.
pub proof fn lemma_fixed_move_changes_nothing(board: BoardView, dir: Dir)
    requires
        board.wf(),
        moved_cells(board.cells, board.size, dir) == board.cells,
    ensures
        board.moved(dir) == board,
{
    lemma_top_tile(board.cells);
}

/// A spawn raises the sum of the tiles by the value of the new tile, which
/// is 2, 4 or 8.
pub proof fn lemma_spawn_raises_sum(board: BoardView, post: BoardView)
    requires
        board.spawned(post),
    ensures
        is_spawn_value((tile_sum(post.cells) - tile_sum(board.cells)) as nat),
        tile_sum(post.cells) > tile_sum(board.cells),
{
    let (i, value) = choose|i: int, value: nat|
        board.is_empty_at(i) && is_spawn_value(value) && post == #[trigger] board.with_cell(
            i,
            value,
        );
    lemma_tile_sum_update(board.cells, i, value);
}

} // verus!
