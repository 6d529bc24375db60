//! Directional moves.

use vstd::prelude::*;
use crate::board::Board;
use crate::dir::{lemma_index_in_grid, lemma_line_through_index, Dir};
use crate::cells::{as_nats, larger, lemma_top_tile, tile_sum, top_tile};
use crate::grid::{line_at, moved_cells, with_line};
use crate::grid_facts::{
    lemma_move_gives_tiles, lemma_move_keeps_sum, lemma_moved_fixed_iff, lemma_moved_upto_ends,
    lemma_moved_upto_step, moved_upto,
};
use crate::line::{collapse, collapse_line, mergeable, MERGE_LIMIT};
use crate::line_facts::lemma_collapse_parts;

verus! {

impl Board {
    /// Collapses line `init_pos` of `direction`, and says whether the line
    /// changed.
    pub(crate) fn move_any(&mut self, init_pos: usize, direction: Dir) -> (changed: bool)
        requires
            old(self).wf(),
            init_pos < old(self)@.size,
            mergeable(line_at(old(self)@.cells, old(self)@.size, direction, init_pos as int)),
        ensures
            final(self).wf(),
            final(self)@.size == old(self)@.size,
            final(self)@.cells == with_line(
                old(self)@.cells,
                old(self)@.size,
                direction,
                init_pos as int,
                collapse(line_at(old(self)@.cells, old(self)@.size, direction, init_pos as int)),
            ),
            final(self)@.max_num == larger(
                old(self)@.max_num,
                top_tile(
                    collapse(
                        line_at(old(self)@.cells, old(self)@.size, direction, init_pos as int),
                    ),
                ),
            ),
            changed == (collapse(
                line_at(old(self)@.cells, old(self)@.size, direction, init_pos as int),
            ) != line_at(old(self)@.cells, old(self)@.size, direction, init_pos as int)),
    {
        let size: usize = self.size;
        let ghost before = self@;
        let ghost old_line = line_at(before.cells, before.size, direction, init_pos as int);
        assert(self.cells.len() == size * size);
        let mut line: Vec<u32> = Vec::new();
        let mut n: usize = 0;
        while n < size
            invariant
                n <= size,
                init_pos < size,
                size == self.size,
                self.cells.len() == size * size,
                self@ == before,
                before == old(self)@,
                old_line == line_at(before.cells, before.size, direction, init_pos as int),
                line.len() == n,
                forall|p: int| 0 <= p < n ==> (#[trigger] line[p]) as nat == old_line[p],
            decreases size - n,
        {
            let ci = direction.index(size, init_pos, n);
            line.push(self.cells[ci]);
            n += 1;
        }
        assert(as_nats(line@) =~= old_line);
        let vr = collapse_line(&line);
        let ghost new_line = collapse(old_line);
        assert(vr@.len() == as_nats(vr@).len());
        let mut changed = false;
        let mut n: usize = 0;
        proof {
            assert(new_line.take(0) =~= Seq::<nat>::empty());
            assert forall|i: int| 0 <= i < self.cells.len() implies 0 <= direction.pos_of(
                size as nat,
                i,
            ) by {
                lemma_line_through_index(direction, size as nat, i);
            }
        }
        while n < size
            invariant
                n <= size,
                init_pos < size,
                size == self.size,
                self.cells.len() == size * size,
                before == old(self)@,
                before.wf(),
                before.size == size,
                old_line == line_at(before.cells, before.size, direction, init_pos as int),
                new_line == collapse(old_line),
                vr.len() == size,
                as_nats(vr@) == new_line,
                forall|i: int|
                    0 <= i < self.cells.len() ==> (#[trigger] self.cells[i]) as nat == if direction.line_of(
                        size as nat,
                        i,
                    ) == init_pos && direction.pos_of(size as nat, i) < n {
                        new_line[direction.pos_of(size as nat, i)]
                    } else {
                        before.cells[i]
                    },
                self.max_num as nat == larger(before.max_num, top_tile(new_line.take(n as int))),
                changed == exists|p: int| 0 <= p < n && new_line[p] != old_line[p],
            decreases size - n,
        {
            let ci = direction.index(size, init_pos, n);
            let v = self.update_max(vr[n]);
            proof {
                lemma_index_in_grid(direction, size as nat, init_pos as int, n as int);
                assert(as_nats(vr@)[n as int] == v as nat);
                assert(new_line.take(n as int + 1).drop_last() =~= new_line.take(n as int));
                assert(self.cells[ci as int] as nat == before.cells[ci as int]);
                assert(old_line[n as int] == before.cells[ci as int]);
                assert forall|i: int| 0 <= i < self.cells.len() && i != ci implies !(
                direction.line_of(size as nat, i) == init_pos && direction.pos_of(size as nat, i)
                    == n) by {
                    lemma_line_through_index(direction, size as nat, i);
                }
            }
            if self.cells[ci] != v {
                changed = true;
            }
            self.cells.set(ci, v);
            n += 1;
        }
        proof {
            assert(new_line.take(size as int) =~= new_line);
            assert(self@.cells =~= with_line(
                before.cells,
                before.size,
                direction,
                init_pos as int,
                new_line,
            )) by {
                assert forall|i: int| 0 <= i < self.cells.len() implies direction.pos_of(
                    size as nat,
                    i,
                ) < size by {
                    lemma_line_through_index(direction, size as nat, i);
                }
            }
            if !changed {
                assert(new_line =~= old_line);
            }
            lemma_top_tile(new_line);
            assert forall|i: int| 0 <= i < self@.cells.len() implies #[trigger] self@.cells[i]
                <= self@.max_num by {
                lemma_line_through_index(direction, size as nat, i);
                assert(before.cells[i] <= before.max_num);
            }
        }
        changed
    }

    /// Moves every tile towards `direction`, merging equal neighbours, and
    /// says whether anything changed.
    pub fn move_dir(&mut self, direction: Dir) -> (changed: bool)
        requires
            old(self).wf(),
            old(self)@.mergeable(),
        ensures
            final(self).wf(),
            final(self)@ == old(self)@.moved(direction),
            changed == (final(self)@.cells != old(self)@.cells),
            !changed ==> final(self)@ == old(self)@,
            tile_sum(final(self)@.cells) == tile_sum(old(self)@.cells),
            final(self)@.max_num >= old(self)@.max_num,
            old(self)@.tiles_only() ==> final(self)@.tiles_only(),
    {
        let size: usize = self.size;
        let ghost before = self@;
        let ghost moved = moved_cells(before.cells, before.size, direction);
        let mut shift_result = false;
        let mut idx: usize = 0;
        proof {
            lemma_moved_upto_ends(before.cells, before.size, direction);
        }
        while idx < size
            invariant
                idx <= size,
                size == self.size,
                before == old(self)@,
                before.wf(),
                before.mergeable(),
                before.size == size,
                self.wf(),
                moved == moved_cells(before.cells, before.size, direction),
                self@.cells == moved_upto(before.cells, before.size, direction, idx as int),
                self@.max_num >= before.max_num,
                forall|i: int|
                    0 <= i < moved.len() && direction.line_of(size as nat, i) < idx
                        ==> #[trigger] moved[i] <= self@.max_num,
                self@.max_num == before.max_num || exists|i: int|
                    0 <= i < moved.len() && direction.line_of(size as nat, i) < idx
                        && #[trigger] moved[i] == self@.max_num,
                shift_result == exists|l: int|
                    0 <= l < idx && collapse(
                        #[trigger] line_at(before.cells, before.size, direction, l),
                    ) != line_at(before.cells, before.size, direction, l),
            decreases size - idx,
        {
            let ghost old_line = line_at(before.cells, before.size, direction, idx as int);
            let ghost new_line = collapse(old_line);
            let ghost max_before = self@.max_num;
            proof {
                lemma_moved_upto_step(before.cells, before.size, direction, idx as int);
                assert forall|p: int| 0 <= p < old_line.len() implies #[trigger] old_line[p]
                    <= MERGE_LIMIT by {
                    lemma_index_in_grid(direction, size as nat, idx as int, p);
                }
            }
            if self.move_any(idx, direction) {
                shift_result = true;
            }
            proof {
                lemma_top_tile(new_line);
                lemma_collapse_parts(old_line);
                assert forall|i: int|
                    0 <= i < moved.len() && direction.line_of(size as nat, i) < idx
                        + 1 implies #[trigger] moved[i] <= self@.max_num by {
                    lemma_line_through_index(direction, size as nat, i);
                    if direction.line_of(size as nat, i) == idx {
                        assert(moved[i] == new_line[direction.pos_of(size as nat, i)]);
                    }
                }
                if self@.max_num != before.max_num {
                    if self@.max_num == max_before {
                        let i = choose|i: int|
                            0 <= i < moved.len() && direction.line_of(size as nat, i) < idx
                                && #[trigger] moved[i] == max_before;
                        assert(direction.line_of(size as nat, i) < idx + 1 && moved[i]
                            == self@.max_num);
                    } else {
                        let p = choose|p: int|
                            0 <= p < new_line.len() && new_line[p] == top_tile(new_line);
                        let i = direction.index_of(size as nat, idx as int, p);
                        lemma_index_in_grid(direction, size as nat, idx as int, p);
                        assert(direction.line_of(size as nat, i) < idx + 1 && moved[i]
                            == self@.max_num);
                    }
                }
            }
            idx += 1;
        }
        proof {
            if before.tiles_only() {
                lemma_move_gives_tiles(before, direction);
            }
            lemma_moved_fixed_iff(before.cells, before.size, direction);
            lemma_move_keeps_sum(before.cells, before.size, direction);
            lemma_top_tile(moved);
            assert forall|i: int| 0 <= i < moved.len() implies direction.line_of(size as nat, i)
                < size by {
                lemma_line_through_index(direction, size as nat, i);
            }
            assert(self@.max_num == larger(before.max_num, top_tile(moved)));
            assert(self@ == before.moved(direction));
            if !shift_result {
                assert(moved == before.cells);
                assert(top_tile(moved) <= before.max_num);
            }
        }
        shift_result
    }
}

} // verus!
