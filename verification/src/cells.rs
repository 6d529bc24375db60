//! Sequences of cells: their values as numbers, their largest value, their
//! sum, and which values are tiles.

use vstd::prelude::*;
use vstd::arithmetic::power2::is_pow2;

verus! {

/// A sequence of cells as natural numbers.
pub open spec fn as_nats(cells: Seq<u32>) -> Seq<nat> {
    cells.map_values(|v: u32| v as nat)
}

/// The largest value of a sequence of cells; 0 for the empty sequence.
pub open spec fn top_tile(cells: Seq<nat>) -> nat
    decreases cells.len(),
{
    if cells.len() == 0 {
        0
    } else {
        let rest = top_tile(cells.drop_last());
        if cells.last() > rest {
            cells.last()
        } else {
            rest
        }
    }
}

/// The sum of a sequence of cells.
pub open spec fn tile_sum(cells: Seq<nat>) -> nat
    decreases cells.len(),
{
    if cells.len() == 0 {
        0
    } else {
        tile_sum(cells.drop_last()) + cells.last()
    }
}

/// The larger of two values.
pub open spec fn larger(a: nat, b: nat) -> nat {
    if b > a {
        b
    } else {
        a
    }
}

/// A cell value of the game: empty, or a power of two from 2 on.
pub open spec fn is_tile(value: nat) -> bool {
    value == 0 || (value >= 2 && is_pow2(value as int))
}

/// Every cell of the sequence holds a value of the game.
pub open spec fn all_tiles(cells: Seq<nat>) -> bool {
    forall|i: int| 0 <= i < cells.len() ==> is_tile(#[trigger] cells[i])
}

/// `top_tile` is an upper bound of the cells, and one of them when there
/// is any.
pub proof fn lemma_top_tile(cells: Seq<nat>)
    ensures
        forall|i: int| 0 <= i < cells.len() ==> #[trigger] cells[i] <= top_tile(cells),
        cells.len() > 0 ==> exists|i: int| 0 <= i < cells.len() && cells[i] == top_tile(cells),
        cells.len() == 0 ==> top_tile(cells) == 0,
    decreases cells.len(),
{
    if cells.len() > 0 {
        let front = cells.drop_last();
        lemma_top_tile(front);
        assert forall|i: int| 0 <= i < cells.len() implies #[trigger] cells[i] <= top_tile(
            cells,
        ) by {
            if i < front.len() {
                assert(front[i] == cells[i]);
            }
        }
        if top_tile(cells) == cells.last() {
            assert(cells[cells.len() - 1] == top_tile(cells));
        } else {
            let i = choose|i: int| 0 <= i < front.len() && front[i] == top_tile(front);
            assert(cells[i] == top_tile(cells));
        }
    }
}

/// The sum of a concatenation is the sum of the sums.
pub proof fn lemma_tile_sum_concat(a: Seq<nat>, b: Seq<nat>)
    ensures
        tile_sum(a + b) == tile_sum(a) + tile_sum(b),
    decreases b.len(),
{
    if b.len() == 0 {
        assert(a + b =~= a);
    } else {
        assert((a + b).drop_last() =~= a + b.drop_last());
        lemma_tile_sum_concat(a, b.drop_last());
    }
}

/// The sum of a single cell is its value.
pub proof fn lemma_tile_sum_one(v: nat)
    ensures
        tile_sum(seq![v]) == v,
{
    assert(seq![v].drop_last() =~= Seq::<nat>::empty());
    assert(tile_sum(seq![v].drop_last()) == 0);
}

/// Writing one cell changes the sum by the difference of the two values.
pub proof fn lemma_tile_sum_update(cells: Seq<nat>, i: int, v: nat)
    requires
        0 <= i < cells.len(),
    ensures
        tile_sum(cells.update(i, v)) + cells[i] == tile_sum(cells) + v,
    decreases cells.len(),
{
    if i == cells.len() - 1 {
        assert(cells.update(i, v).drop_last() =~= cells.drop_last());
    } else {
        assert(cells.update(i, v).drop_last() =~= cells.drop_last().update(i, v));
        lemma_tile_sum_update(cells.drop_last(), i, v);
    }
}

/// Twice a tile is a tile, and 2, 4 and 8 are tiles.
pub proof fn lemma_tile_values(value: nat)
    ensures
        is_tile(value) ==> is_tile(2 * value),
        is_tile(0),
        is_tile(2),
        is_tile(4),
        is_tile(8),
{
    reveal_with_fuel(is_pow2, 5);
}

/// No cell is more than the sum of the cells.
pub proof fn lemma_tile_sum_bounds(cells: Seq<nat>, i: int)
    requires
        0 <= i < cells.len(),
    ensures
        cells[i] <= tile_sum(cells),
    decreases cells.len(),
{
    if i < cells.len() - 1 {
        lemma_tile_sum_bounds(cells.drop_last(), i);
    }
}

/// A sum that is not 0 has a cell that is not 0.
pub proof fn lemma_tile_sum_positive(cells: Seq<nat>) -> (i: int)
    requires
        tile_sum(cells) > 0,
    ensures
        0 <= i < cells.len(),
        cells[i] != 0,
    decreases cells.len(),
{
    if cells.last() != 0 {
        cells.len() - 1
    } else {
        lemma_tile_sum_positive(cells.drop_last())
    }
}

} // verus!
