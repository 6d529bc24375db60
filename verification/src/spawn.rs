//! Spawning of new tiles on empty cells.

use vstd::prelude::*;
use rand::rngs::ThreadRng;
use rand::Rng;
use crate::board::Board;
use crate::grid::{is_spawn_value, tile_for, BoardView};
use crate::grid_facts::{
    lemma_empty_cells, lemma_spawn_gives_tiles, lemma_spawn_leaves_tile, lemma_two_spawns,
};

verus! {

/// The generator of random numbers of the current thread, of the `rand`
/// crate. Nothing is known of what it holds.
#[verifier::external_type_specification]
#[verifier::external_body]
pub struct ExThreadRng(ThreadRng);

/// `rand::thread_rng` hands out the generator of the current thread. Nothing
/// is claimed of it. It panics where the system gives no entropy to seed the
/// generator with.
pub assume_specification[ rand::thread_rng ]() -> (rng: ThreadRng);

/// Draws a number below `high` with `Rng::gen_range(0, high)`, which returns
/// a value of the half-open range from its first argument to its second, and
/// panics when the range is empty.
#[verifier::external_body]
fn gen_below(rng: &mut ThreadRng, high: usize) -> (drawn: usize)
    requires
        high > 0,
    ensures
        drawn < high,
{
    rng.gen_range(0, high)
}

/// The value of the new tile for a draw: 2 for the first outcome, 4 for the
/// second, 8 for any other.
pub fn tile_for_draw(draw: usize) -> (tile: u32)
    ensures
        tile == tile_for(draw as int),
{
    match draw {
        0 => 2,
        1 => 4,
        _ => 8,
    }
}

impl Board {
    /// The flat indexes of the empty cells, in increasing order.
    pub(crate) fn get_free_idx(&self) -> (indexes: Vec<usize>)
        ensures
            indexes@.map_values(|i: usize| i as int) == self@.empty_cells(),
    {
        let ghost pred = |i: int| self@.cells[i] == 0;
        let mut indexes: Vec<usize> = Vec::new();
        let mut i: usize = 0;
        proof {
            reveal(Seq::filter);
            assert(indexes@.map_values(|i: usize| i as int) =~= Seq::new(0, |k: int| k).filter(
                pred,
            ));
        }
        while i < self.cells.len()
            invariant
                i <= self.cells.len(),
                pred == |i: int| self@.cells[i] == 0,
                indexes@.map_values(|i: usize| i as int) == Seq::new(i as nat, |k: int| k).filter(
                    pred,
                ),
            decreases self.cells.len() - i,
        {
            let ghost before = indexes@;
            proof {
                let seen = Seq::new(i as nat, |k: int| k);
                seen.lemma_filter_push(i as int, pred);
                assert(seen.push(i as int) =~= Seq::new((i + 1) as nat, |k: int| k));
                assert(self@.cells[i as int] == self.cells[i as int] as nat);
            }
            if self.cells[i] == 0 {
                indexes.push(i);
                assert(indexes@.map_values(|i: usize| i as int) =~= before.map_values(
                    |i: usize| i as int,
                ).push(i as int));
            }
            i += 1;
        }
        assert(self@.cells.len() == self.cells.len());
        indexes
    }

    /// Puts a new tile on an empty cell, both picked by the caller's draws,
    /// and says whether there was an empty cell. Of the empty cells in
    /// increasing order of their index, `cell_draw` picks one, counting
    /// round from the first; `value_draw` picks the value as
    /// [`tile_for_draw`] says.
    pub fn try_add_number_with(&mut self, cell_draw: usize, value_draw: usize) -> (added: bool)
        requires
            old(self).wf(),
        ensures
            final(self).wf(),
            added == old(self)@.has_empty(),
            !added ==> final(self)@ == old(self)@,
            added ==> final(self)@ == old(self)@.with_cell(
                old(self)@.empty_cells()[cell_draw as int % old(self)@.empty_cells().len() as int],
                tile_for(value_draw as int),
            ),
            old(self)@.spawn_tried(final(self)@),
            old(self)@.tiles_only() ==> final(self)@.tiles_only(),
            final(self)@.max_num >= old(self)@.max_num,
    {
        let free = self.get_free_idx();
        proof {
            lemma_empty_cells(self@);
        }
        if free.len() == 0 {
            return false;
        }
        let idx = free[cell_draw % free.len()];
        let ghost picked = self@.empty_cells()[cell_draw as int % free.len() as int];
        assert(idx as int == picked) by {
            assert(free@.map_values(|i: usize| i as int)[cell_draw as int % free.len() as int]
                == idx as int);
        }
        assert(self@.is_empty_at(picked));
        let value = self.update_max(tile_for_draw(value_draw));
        self.cells.set(idx, value);
        proof {
            assert(self@.cells =~= old(self)@.cells.update(picked, value as nat));
            assert(self@ == old(self)@.with_cell(picked, tile_for(value_draw as int)));
            if old(self)@.tiles_only() {
                lemma_spawn_gives_tiles(old(self)@, self@);
            }
        }
        true
    }

    /// Puts a new tile of value 2, 4 or 8 on an empty cell, both picked at
    /// random, and says whether there was an empty cell. A full board is
    /// left as it is.
    pub fn try_add_number(&mut self) -> (added: bool)
        requires
            old(self).wf(),
        ensures
            final(self).wf(),
            added == old(self)@.has_empty(),
            old(self)@.spawn_tried(final(self)@),
            old(self)@.tiles_only() ==> final(self)@.tiles_only(),
            final(self)@.max_num >= old(self)@.max_num,
    {
        let free = self.get_free_idx();
        proof {
            lemma_empty_cells(self@);
        }
        if free.len() == 0 {
            return false;
        }
        let mut rng = rand::thread_rng();
        let cell_draw = gen_below(&mut rng, free.len());
        let value_draw = gen_below(&mut rng, 3);
        self.try_add_number_with(cell_draw, value_draw)
    }

    /// Spawns the two tiles that a game starts with.
    pub fn init(&mut self)
        requires
            old(self).wf(),
        ensures
            final(self).wf(),
            exists|mid: BoardView|
                old(self)@.spawn_tried(mid) && #[trigger] mid.spawn_tried(final(self)@),
            old(self)@.size >= 2 && old(self)@ == BoardView::empty(old(self)@.size) ==> {
                &&& final(self)@.tile_count() == 2
                &&& forall|i: int|
                    0 <= i < final(self)@.cells.len() ==> #[trigger] final(self)@.cells[i] == 0
                        || is_spawn_value(final(self)@.cells[i])
                &&& final(self)@.max_num <= 8
            },
            final(self)@.tile_count() > 0,
            old(self)@.tiles_only() ==> final(self)@.tiles_only(),
            final(self)@.max_num >= old(self)@.max_num,
    {
        self.try_add_number();
        let ghost mid = self@;
        self.try_add_number();
        proof {
            assert(old(self)@.spawn_tried(mid) && mid.spawn_tried(self@));
            lemma_spawn_leaves_tile(old(self)@, mid);
            lemma_spawn_leaves_tile(mid, self@);
            if old(self)@.size >= 2 && old(self)@ == BoardView::empty(old(self)@.size) {
                lemma_two_spawns(old(self)@, mid, self@);
            }
        }
    }
}

} // verus!
