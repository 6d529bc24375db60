//! What holds of the model of a board: of its empty cells, of a spawn, and
//! of the grid after a move.

use vstd::prelude::*;
use crate::cells::{is_tile, lemma_tile_sum_update, lemma_tile_values, tile_sum};
use crate::dir::{
    cell_index, lemma_cell_index, lemma_cell_of_index, lemma_index_in_grid,
    lemma_line_through_index, Dir,
};
use crate::grid::{is_spawn_value, line_at, moved_cells, with_line, BoardView};
use crate::line::collapse;
use crate::line_facts::{
    lemma_all_empty, lemma_collapse_gives_tiles, lemma_collapse_parts, lemma_collapse_sum,
};

verus! {

/// The grid in which the first `n` positions of line `line` of `dir` read
/// as in `content`, and every other cell is as in `cells`.
pub open spec fn with_line_upto(
    cells: Seq<nat>,
    size: nat,
    dir: Dir,
    line: int,
    content: Seq<nat>,
    n: int,
) -> Seq<nat> {
    Seq::new(
        cells.len(),
        |i: int|
            if dir.line_of(size, i) == line && dir.pos_of(size, i) < n {
                content[dir.pos_of(size, i)]
            } else {
                cells[i]
            },
    )
}

/// The grid in which the lines of `dir` before line `k` are collapsed, and
/// the others are as in `cells`.
pub open spec fn moved_upto(cells: Seq<nat>, size: nat, dir: Dir, k: int) -> Seq<nat> {
    Seq::new(
        cells.len(),
        |i: int|
            if dir.line_of(size, i) < k {
                moved_cells(cells, size, dir)[i]
            } else {
                cells[i]
            },
    )
}

/// Rewriting a line in full is rewriting all its positions.
pub proof fn lemma_with_line_full(
    cells: Seq<nat>,
    size: nat,
    dir: Dir,
    line: int,
    content: Seq<nat>,
)
    requires
        cells.len() == size * size,
    ensures
        with_line(cells, size, dir, line, content) == with_line_upto(
            cells,
            size,
            dir,
            line,
            content,
            size as int,
        ),
{
    assert forall|i: int| 0 <= i < cells.len() implies dir.pos_of(size, i) < size by {
        lemma_line_through_index(dir, size, i);
    }
    assert(with_line(cells, size, dir, line, content) =~= with_line_upto(
        cells,
        size,
        dir,
        line,
        content,
        size as int,
    ));
}

/// Rewriting the first `n` positions of a line changes the sum of the grid
/// by the difference of what was written and what was there.
pub proof fn lemma_with_line_sum(
    cells: Seq<nat>,
    size: nat,
    dir: Dir,
    line: int,
    content: Seq<nat>,
    n: int,
)
    requires
        cells.len() == size * size,
        0 <= line < size,
        content.len() == size,
        0 <= n <= size,
    ensures
        tile_sum(with_line_upto(cells, size, dir, line, content, n)) + tile_sum(
            line_at(cells, size, dir, line).take(n),
        ) == tile_sum(cells) + tile_sum(content.take(n)),
    decreases n,
{
    let old_line = line_at(cells, size, dir, line);
    if n == 0 {
        assert forall|i: int| 0 <= i < cells.len() implies 0 <= dir.pos_of(size, i) by {
            lemma_line_through_index(dir, size, i);
        }
        assert(with_line_upto(cells, size, dir, line, content, n) =~= cells);
        assert(old_line.take(0) =~= Seq::<nat>::empty());
        assert(content.take(0) =~= Seq::<nat>::empty());
    } else {
        lemma_with_line_sum(cells, size, dir, line, content, n - 1);
        let prev = with_line_upto(cells, size, dir, line, content, n - 1);
        let ci = dir.index_of(size, line, n - 1);
        lemma_index_in_grid(dir, size, line, n - 1);
        assert forall|i: int| 0 <= i < cells.len() && i != ci implies !(dir.line_of(size, i)
            == line && dir.pos_of(size, i) == n - 1) by {
            lemma_line_through_index(dir, size, i);
        }
        assert(with_line_upto(cells, size, dir, line, content, n) =~= prev.update(
            ci,
            content[n - 1],
        ));
        lemma_tile_sum_update(prev, ci, content[n - 1]);
        assert(prev[ci] == old_line[n - 1]);
        assert(old_line.take(n).drop_last() =~= old_line.take(n - 1));
        assert(content.take(n).drop_last() =~= content.take(n - 1));
    }
}

/// Collapsing line `k` of a grid whose earlier lines are collapsed gives
/// the grid whose lines up to `k` are collapsed.
pub proof fn lemma_moved_upto_step(cells: Seq<nat>, size: nat, dir: Dir, k: int)
    requires
        cells.len() == size * size,
        0 <= k < size,
    ensures
        line_at(moved_upto(cells, size, dir, k), size, dir, k) == line_at(cells, size, dir, k),
        moved_upto(cells, size, dir, k + 1) == with_line(
            moved_upto(cells, size, dir, k),
            size,
            dir,
            k,
            collapse(line_at(cells, size, dir, k)),
        ),
{
    let prev = moved_upto(cells, size, dir, k);
    assert forall|p: int| 0 <= p < size implies prev[dir.index_of(size, k, p)]
        == cells[dir.index_of(size, k, p)] by {
        lemma_index_in_grid(dir, size, k, p);
    }
    assert(line_at(prev, size, dir, k) =~= line_at(cells, size, dir, k));
    assert(moved_upto(cells, size, dir, k + 1) =~= with_line(
        prev,
        size,
        dir,
        k,
        collapse(line_at(cells, size, dir, k)),
    ));
}

/// The grid with no line collapsed is the grid itself; with all lines
/// collapsed it is the moved grid.
pub proof fn lemma_moved_upto_ends(cells: Seq<nat>, size: nat, dir: Dir)
    requires
        cells.len() == size * size,
    ensures
        moved_upto(cells, size, dir, 0) == cells,
        moved_upto(cells, size, dir, size as int) == moved_cells(cells, size, dir),
{
    assert forall|i: int| 0 <= i < cells.len() implies 0 <= #[trigger] dir.line_of(size, i)
        && dir.line_of(size, i) < size by {
        lemma_line_through_index(dir, size, i);
    }
    assert(moved_upto(cells, size, dir, 0) =~= cells);
    assert(moved_upto(cells, size, dir, size as int) =~= moved_cells(cells, size, dir));
}

/// Collapsing the first `k` lines keeps the sum of the grid.
pub proof fn lemma_moved_upto_sum(cells: Seq<nat>, size: nat, dir: Dir, k: int)
    requires
        cells.len() == size * size,
        0 <= k <= size,
    ensures
        tile_sum(moved_upto(cells, size, dir, k)) == tile_sum(cells),
    decreases k,
{
    if k == 0 {
        lemma_moved_upto_ends(cells, size, dir);
    } else {
        lemma_moved_upto_sum(cells, size, dir, k - 1);
        lemma_moved_upto_step(cells, size, dir, k - 1);
        let prev = moved_upto(cells, size, dir, k - 1);
        let old_line = line_at(cells, size, dir, k - 1);
        let new_line = collapse(old_line);
        lemma_collapse_parts(old_line);
        lemma_collapse_sum(old_line);
        lemma_with_line_full(prev, size, dir, k - 1, new_line);
        lemma_with_line_sum(prev, size, dir, k - 1, new_line, size as int);
        assert(old_line.take(size as int) =~= old_line);
        assert(new_line.take(size as int) =~= new_line);
    }
}

/// A move keeps the sum of the tiles on the grid: a merge replaces two
/// tiles by one of their sum.
pub proof fn lemma_move_keeps_sum(cells: Seq<nat>, size: nat, dir: Dir)
    requires
        cells.len() == size * size,
    ensures
        tile_sum(moved_cells(cells, size, dir)) == tile_sum(cells),
{
    lemma_moved_upto_sum(cells, size, dir, size as int);
    lemma_moved_upto_ends(cells, size, dir);
}

/// A move leaves the grid as it is exactly when it leaves every line as it
/// is.
pub proof fn lemma_moved_fixed_iff(cells: Seq<nat>, size: nat, dir: Dir)
    requires
        cells.len() == size * size,
    ensures
        moved_cells(cells, size, dir) == cells <==> forall|l: int|
            0 <= l < size ==> collapse(#[trigger] line_at(cells, size, dir, l)) == line_at(
                cells,
                size,
                dir,
                l,
            ),
{
    let moved = moved_cells(cells, size, dir);
    if moved == cells {
        assert forall|l: int| 0 <= l < size implies collapse(
            #[trigger] line_at(cells, size, dir, l),
        ) == line_at(cells, size, dir, l) by {
            let line = line_at(cells, size, dir, l);
            lemma_collapse_parts(line);
            assert forall|p: int| 0 <= p < size implies collapse(line)[p] == line[p] by {
                lemma_index_in_grid(dir, size, l, p);
                assert(moved[dir.index_of(size, l, p)] == collapse(line)[p]);
            }
            assert(collapse(line) =~= line);
        }
    }
    if forall|l: int|
        0 <= l < size ==> collapse(#[trigger] line_at(cells, size, dir, l)) == line_at(
            cells,
            size,
            dir,
            l,
        ) {
        assert forall|i: int| 0 <= i < cells.len() implies moved[i] == cells[i] by {
            lemma_line_through_index(dir, size, i);
            let l = dir.line_of(size, i);
            assert(collapse(line_at(cells, size, dir, l)) == line_at(cells, size, dir, l));
        }
        assert(moved =~= cells);
    }
}

/// The empty cells of a board are cells of its grid that hold no tile, and
/// every such cell is among them.
pub proof fn lemma_empty_cells(board: BoardView)
    ensures
        board.empty_cells().len() <= board.cells.len(),
        forall|k: int|
            0 <= k < board.empty_cells().len() ==> board.is_empty_at(
                #[trigger] board.empty_cells()[k],
            ),
        forall|i: int| board.is_empty_at(i) ==> #[trigger] board.empty_cells().contains(i),
        board.has_empty() <==> board.empty_cells().len() > 0,
{
    let all = Seq::new(board.cells.len(), |i: int| i);
    let pred = |i: int| board.cells[i] == 0;
    let free = board.empty_cells();
    all.lemma_filter_len(pred);
    assert forall|k: int| 0 <= k < free.len() implies board.is_empty_at(#[trigger] free[k]) by {
        all.lemma_filter_pred(pred, k);
        all.lemma_filter_contains_rev(pred, free[k]);
        let j = choose|j: int| 0 <= j < all.len() && all[j] == free[k];
        assert(all[j] == j);
    }
    assert forall|i: int| board.is_empty_at(i) implies #[trigger] free.contains(i) by {
        assert(all[i] == i);
        all.lemma_filter_contains(pred, i);
    }
    if board.has_empty() {
        let i = choose|i: int| board.is_empty_at(i);
        assert(free.contains(i));
    }
    if free.len() > 0 {
        assert(board.is_empty_at(free[0]));
    }
}

/// A new tile on an empty cell makes one tile more.
pub proof fn lemma_tile_count_grows(board: BoardView, i: int, value: nat)
    requires
        board.is_empty_at(i),
        value != 0,
    ensures
        board.with_cell(i, value).tile_count() == board.tile_count() + 1,
{
    let cells = board.cells;
    let front = cells.take(i);
    let back = cells.skip(i + 1);
    let pred = |v: nat| v != 0;
    assert(cells =~= front + (seq![0nat] + back));
    assert(cells.update(i, value) =~= front + (seq![value] + back));
    Seq::filter_distributes_over_add(front, seq![0nat] + back, pred);
    Seq::filter_distributes_over_add(front, seq![value] + back, pred);
    back.lemma_filter_prepend(0nat, pred);
    back.lemma_filter_prepend(value, pred);
}

/// After a spawn was tried the board holds a tile: the new one, or those
/// that left no cell empty.
pub proof fn lemma_spawn_leaves_tile(board: BoardView, post: BoardView)
    requires
        board.wf(),
        board.spawn_tried(post),
    ensures
        post.tile_count() > 0,
{
    if board.has_empty() {
        let (i, value) = choose|i: int, value: nat|
            board.is_empty_at(i) && is_spawn_value(value) && post == #[trigger] board.with_cell(
                i,
                value,
            );
        lemma_tile_count_grows(board, i, value);
    } else {
        assert(board.cells.len() >= 1) by (nonlinear_arith)
            requires
                board.cells.len() == board.size * board.size,
                board.size >= 1,
        ;
        assert(!board.is_empty_at(0));
        lemma_all_empty(board.cells);
    }
}

/// The empty board holds no tile.
pub proof fn lemma_empty_board(size: nat)
    ensures
        BoardView::empty(size).tile_count() == 0,
{
    BoardView::empty(size).cells.lemma_all_neg_filter_empty(|v: nat| v != 0);
}

/// Two spawns on an empty board of side length two or more leave exactly
/// two tiles, each of a value that a spawn can give.
pub proof fn lemma_two_spawns(start: BoardView, mid: BoardView, end: BoardView)
    requires
        start.size >= 2,
        start == BoardView::empty(start.size),
        start.spawn_tried(mid),
        mid.spawn_tried(end),
    ensures
        end.tile_count() == 2,
        forall|i: int|
            0 <= i < end.cells.len() ==> #[trigger] end.cells[i] == 0 || is_spawn_value(
                end.cells[i],
            ),
        end.max_num <= 8,
{
    assert(start.cells.len() >= 4) by (nonlinear_arith)
        requires
            start.cells.len() == start.size * start.size,
            start.size >= 2,
    ;
    assert(start.is_empty_at(0));
    let (i, v) = choose|i: int, v: nat|
        start.is_empty_at(i) && is_spawn_value(v) && mid == #[trigger] start.with_cell(i, v);
    assert(mid.is_empty_at(if i == 0 { 1int } else { 0int }));
    let (j, w) = choose|j: int, w: nat|
        mid.is_empty_at(j) && is_spawn_value(w) && end == #[trigger] mid.with_cell(j, w);
    lemma_empty_board(start.size);
    lemma_tile_count_grows(start, i, v);
    lemma_tile_count_grows(mid, j, w);
}

/// The game is over exactly when every cell of the grid is stuck.
pub proof fn lemma_game_over_cells(board: BoardView)
    requires
        board.cells.len() == board.size * board.size,
    ensures
        board.game_over() <==> forall|x: int, y: int|
            0 <= x < board.size && 0 <= y < board.size ==> #[trigger] board.stuck_at(x, y),
{
    let size = board.size;
    if board.game_over() {
        assert forall|x: int, y: int| 0 <= x < size && 0 <= y < size implies #[trigger] board.stuck_at(
            x,
            y,
        ) by {
            lemma_cell_index(size, x, y);
            assert(!board.is_empty_at(cell_index(size, x, y)));
            if x + 1 < size {
                assert(board.at(x + 1, y) != board.at(x, y));
            }
            if y + 1 < size {
                assert(board.at(x, y + 1) != board.at(x, y));
            }
        }
    }
    if forall|x: int, y: int|
        0 <= x < size && 0 <= y < size ==> #[trigger] board.stuck_at(x, y) {
        assert forall|i: int| !board.is_empty_at(i) by {
            if 0 <= i < board.cells.len() {
                lemma_cell_of_index(size, i);
                assert(board.stuck_at(i % (size as int), i / (size as int)));
            }
        }
        assert forall|x: int, y: int|
            0 <= x && x + 1 < size && 0 <= y < size implies board.at(x + 1, y)
            != #[trigger] board.at(x, y) by {
            assert(board.stuck_at(x, y));
        }
        assert forall|x: int, y: int|
            0 <= x < size && 0 <= y && y + 1 < size implies board.at(x, y + 1)
            != #[trigger] board.at(x, y) by {
            assert(board.stuck_at(x, y));
        }
    }
}

/// A move on a grid of tiles gives a grid of tiles.
pub proof fn lemma_move_gives_tiles(board: BoardView, dir: Dir)
    requires
        board.cells.len() == board.size * board.size,
        board.tiles_only(),
    ensures
        board.moved(dir).tiles_only(),
{
    let size = board.size;
    let moved = moved_cells(board.cells, size, dir);
    assert forall|i: int| 0 <= i < moved.len() implies is_tile(#[trigger] moved[i]) by {
        lemma_line_through_index(dir, size, i);
        let l = dir.line_of(size, i);
        let line = line_at(board.cells, size, dir, l);
        assert forall|p: int| 0 <= p < line.len() implies is_tile(#[trigger] line[p]) by {
            lemma_index_in_grid(dir, size, l, p);
            assert(is_tile(board.cells[dir.index_of(size, l, p)]));
        }
        lemma_collapse_gives_tiles(line);
        lemma_collapse_parts(line);
        assert(is_tile(collapse(line)[dir.pos_of(size, i)]));
    }
}

/// A spawn on a grid of tiles gives a grid of tiles.
pub proof fn lemma_spawn_gives_tiles(board: BoardView, post: BoardView)
    requires
        board.tiles_only(),
        board.spawn_tried(post),
    ensures
        post.tiles_only(),
        post.max_num >= board.max_num,
        post.size == board.size,
{
    lemma_tile_values(0);
    if board.has_empty() {
        let (i, value) = choose|i: int, value: nat|
            board.is_empty_at(i) && is_spawn_value(value) && post == #[trigger] board.with_cell(
                i,
                value,
            );
        assert forall|k: int| 0 <= k < post.cells.len() implies is_tile(#[trigger] post.cells[k]) by {
            if k != i {
                assert(is_tile(board.cells[k]));
            }
        }
    }
}

} // verus!
