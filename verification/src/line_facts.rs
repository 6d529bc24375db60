//! What holds of a collapsed line: its sum, its tiles, when it is the line
//! itself, and which tiles went into which.

use vstd::prelude::*;
use crate::cells::{
    all_tiles, is_tile, lemma_tile_sum_concat, lemma_tile_sum_one, lemma_tile_values, tile_sum,
};
use crate::line::{collapse, lemma_merge_pair, lemma_tiles_of_unfold, merge_tiles, tiles_of};

verus! {

/// A run of empty cells.
pub open spec fn empties(len: nat) -> Seq<nat> {
    Seq::new(len, |i: int| 0nat)
}

/// A line that a move leaves as it is: behind an empty cell come only
/// empty cells, and no tile is followed by an equal tile.
pub open spec fn settled(line: Seq<nat>) -> bool {
    forall|p: int|
        0 <= p && p + 1 < line.len() ==> if #[trigger] line[p] == 0 {
            line[p + 1] == 0
        } else {
            line[p + 1] != line[p]
        }
}

/// A line without tiles.
pub open spec fn all_empty(line: Seq<nat>) -> bool {
    forall|p: int| 0 <= p < line.len() ==> #[trigger] line[p] == 0
}

/// How a move groups the tiles of a line: two equal tiles at the front form
/// a group, any other tile at the front is a group of its own, and the
/// grouping goes on behind the group.
pub open spec fn merge_groups(tiles: Seq<nat>) -> Seq<Seq<nat>>
    decreases tiles.len(),
{
    if tiles.len() == 0 {
        Seq::empty()
    } else if tiles.len() >= 2 && tiles[0] == tiles[1] {
        seq![seq![tiles[0], tiles[1]]] + merge_groups(tiles.skip(2))
    } else {
        seq![seq![tiles[0]]] + merge_groups(tiles.skip(1))
    }
}

/// `groups` cuts `tiles` into runs of one tile or of two equal tiles, and
/// `merged` holds one tile for each run: the tile itself, or the sum of the
/// two.
pub open spec fn merged_by_groups(tiles: Seq<nat>, groups: Seq<Seq<nat>>, merged: Seq<nat>) -> bool {
    &&& groups.flatten() == tiles
    &&& merged.len() == groups.len()
    &&& forall|k: int|
        0 <= k < groups.len() ==> {
            ||| (#[trigger] groups[k]).len() == 1 && merged[k] == groups[k][0]
            ||| groups[k].len() == 2 && groups[k][0] == groups[k][1] && merged[k] == 2
                * groups[k][0]
        }
}

/// Empty cells add nothing to the sum of a line.
pub proof fn lemma_tiles_of_sum(line: Seq<nat>)
    ensures
        tile_sum(tiles_of(line)) == tile_sum(line),
        tiles_of(line).len() <= line.len(),
        forall|k: int| 0 <= k < tiles_of(line).len() ==> #[trigger] tiles_of(line)[k] != 0,
    decreases line.len(),
{
    reveal(Seq::filter);
    if line.len() > 0 {
        lemma_tiles_of_sum(line.drop_last());
        if line.last() != 0 {
            assert(tiles_of(line).drop_last() =~= tiles_of(line.drop_last()));
        }
    }
}

/// Merging keeps the sum of the tiles, makes the line no longer, and makes
/// no empty cell out of tiles.
pub proof fn lemma_merge_tiles_sum(tiles: Seq<nat>)
    ensures
        tile_sum(merge_tiles(tiles)) == tile_sum(tiles),
        merge_tiles(tiles).len() <= tiles.len(),
        (forall|k: int| 0 <= k < tiles.len() ==> #[trigger] tiles[k] != 0) ==> (forall|k: int|
            0 <= k < merge_tiles(tiles).len() ==> #[trigger] merge_tiles(tiles)[k] != 0),
    decreases tiles.len(),
{
    if tiles.len() >= 2 {
        let a = tiles[0];
        let b = tiles[1];
        if a == b {
            let rest = tiles.skip(2);
            lemma_merge_tiles_sum(rest);
            assert(tiles =~= seq![a] + (seq![b] + rest));
            lemma_tile_sum_concat(seq![b], rest);
            lemma_tile_sum_concat(seq![a], seq![b] + rest);
            lemma_tile_sum_concat(seq![2 * a], merge_tiles(rest));
            lemma_tile_sum_one(a);
            lemma_tile_sum_one(b);
            lemma_tile_sum_one(2 * a);
            if forall|k: int| 0 <= k < tiles.len() ==> #[trigger] tiles[k] != 0 {
                assert forall|k: int| 0 <= k < rest.len() implies #[trigger] rest[k] != 0 by {
                    assert(rest[k] == tiles[k + 2]);
                }
            }
        } else {
            let rest = tiles.skip(1);
            lemma_merge_tiles_sum(rest);
            assert(tiles =~= seq![a] + rest);
            lemma_tile_sum_concat(seq![a], rest);
            lemma_tile_sum_concat(seq![a], merge_tiles(rest));
            if forall|k: int| 0 <= k < tiles.len() ==> #[trigger] tiles[k] != 0 {
                assert forall|k: int| 0 <= k < rest.len() implies #[trigger] rest[k] != 0 by {
                    assert(rest[k] == tiles[k + 1]);
                }
            }
        }
    }
}

/// Empty cells sum to nothing.
pub proof fn lemma_empties_sum(len: nat)
    ensures
        tile_sum(empties(len)) == 0,
    decreases len,
{
    if len > 0 {
        assert(empties(len).drop_last() =~= empties((len - 1) as nat));
        lemma_empties_sum((len - 1) as nat);
    }
}

/// A collapsed line is its merged tiles followed by empty cells: no tile is
/// lost at the end of the line.
pub proof fn lemma_collapse_parts(line: Seq<nat>)
    ensures
        merge_tiles(tiles_of(line)).len() <= line.len(),
        collapse(line) == merge_tiles(tiles_of(line)) + empties(
            (line.len() - merge_tiles(tiles_of(line)).len()) as nat,
        ),
        collapse(line).len() == line.len(),
{
    lemma_tiles_of_sum(line);
    lemma_merge_tiles_sum(tiles_of(line));
    let merged = merge_tiles(tiles_of(line));
    assert(collapse(line) =~= merged + empties((line.len() - merged.len()) as nat));
}

/// A move keeps the sum of a line.
pub proof fn lemma_collapse_sum(line: Seq<nat>)
    ensures
        tile_sum(collapse(line)) == tile_sum(line),
{
    lemma_tiles_of_sum(line);
    lemma_merge_tiles_sum(tiles_of(line));
    lemma_collapse_parts(line);
    let merged = merge_tiles(tiles_of(line));
    lemma_tile_sum_concat(merged, empties((line.len() - merged.len()) as nat));
    lemma_empties_sum((line.len() - merged.len()) as nat);
}

/// A line has no tiles exactly when all its cells are empty, and then a
/// move leaves it as it is.
pub proof fn lemma_all_empty(line: Seq<nat>)
    ensures
        all_empty(line) <==> tiles_of(line).len() == 0,
        all_empty(line) ==> collapse(line) == line,
{
    let pred = |v: nat| v != 0;
    if all_empty(line) {
        line.lemma_all_neg_filter_empty(pred);
        assert(collapse(line) =~= line);
    }
    if tiles_of(line).len() == 0 {
        assert forall|p: int| 0 <= p < line.len() implies #[trigger] line[p] == 0 by {
            if line[p] != 0 {
                line.lemma_filter_contains(pred, p);
            }
        }
    }
}

/// In a settled line only empty cells follow an empty cell.
pub proof fn lemma_settled_tail(line: Seq<nat>, from: int, p: int)
    requires
        settled(line),
        0 <= from <= p < line.len(),
        line[from] == 0,
    ensures
        line[p] == 0,
    decreases p - from,
{
    if from < p {
        lemma_settled_tail(line, from, p - 1);
        assert(line[p - 1] == 0);
    }
}

/// The first merged tile is the first tile or twice the first tile, and
/// there is one whenever there is a tile.
pub proof fn lemma_merge_first(tiles: Seq<nat>)
    requires
        tiles.len() > 0,
    ensures
        merge_tiles(tiles).len() > 0,
        merge_tiles(tiles)[0] == tiles[0] || merge_tiles(tiles)[0] == 2 * tiles[0],
{
}

/// A move leaves a line as it is exactly when the line is settled.
pub proof fn lemma_collapse_fixed_iff(line: Seq<nat>)
    ensures
        collapse(line) == line <==> settled(line),
    decreases line.len(),
{
    lemma_all_empty(line);
    lemma_collapse_parts(line);
    lemma_tiles_of_sum(line);
    let tiles = tiles_of(line);
    let merged = merge_tiles(tiles);
    if line.len() == 0 {
        assert(collapse(line) =~= line);
    } else if line[0] == 0 {
        if settled(line) {
            assert forall|p: int| 0 <= p < line.len() implies #[trigger] line[p] == 0 by {
                lemma_settled_tail(line, 0, p);
            }
        }
        if collapse(line) == line {
            if tiles.len() > 0 {
                lemma_merge_first(tiles);
                assert(collapse(line)[0] == merged[0]);
                assert(tiles[0] != 0);
            }
        }
    } else {
        let a = line[0];
        let rest = line.skip(1);
        let rest_tiles = tiles_of(rest);
        lemma_tiles_of_unfold(line);
        lemma_collapse_fixed_iff(rest);
        lemma_all_empty(rest);
        lemma_collapse_parts(rest);
        lemma_tiles_of_sum(rest);
        assert(line =~= seq![a] + rest);
        assert(tiles =~= seq![a] + rest_tiles);
        if rest_tiles.len() == 0 {
            assert(collapse(line) =~= seq![a] + rest);
            assert(settled(line));
        } else {
            let b = rest_tiles[0];
            assert(rest_tiles =~= seq![b] + rest_tiles.skip(1));
            lemma_merge_pair(a, b, rest_tiles.skip(1));
            if a == b {
                assert(collapse(line)[0] == 2 * a);
                if settled(line) {
                    if rest[0] == 0 {
                        assert(line[1] == rest[0]);
                        assert forall|p: int| 0 <= p < rest.len() implies #[trigger] rest[p]
                            == 0 by {
                            lemma_settled_tail(line, 1, p + 1);
                        }
                    } else {
                        lemma_tiles_of_unfold(rest);
                        assert(rest_tiles[0] == rest[0]);
                        assert(line[1] == rest[0]);
                    }
                }
            } else {
                assert(merged == seq![a] + merge_tiles(rest_tiles));
                assert(collapse(line) =~= seq![a] + collapse(rest));
                if collapse(line) == line {
                    assert(collapse(rest) =~= rest) by {
                        assert forall|p: int| 0 <= p < rest.len() implies collapse(rest)[p]
                            == rest[p] by {
                            assert(collapse(line)[p + 1] == collapse(rest)[p]);
                        }
                    }
                    assert(settled(rest));
                    if rest[0] == 0 {
                        assert forall|p: int| 0 <= p < rest.len() implies #[trigger] rest[p]
                            == 0 by {
                            lemma_settled_tail(rest, 0, p);
                        }
                    }
                    lemma_tiles_of_unfold(rest);
                    assert(rest_tiles[0] == rest[0]);
                    assert forall|p: int| 0 <= p && p + 1 < line.len() implies if #[trigger] line[p]
                        == 0 {
                        line[p + 1] == 0
                    } else {
                        line[p + 1] != line[p]
                    } by {
                        if p > 0 {
                            assert(rest[p - 1] == line[p]);
                            assert(rest[p] == line[p + 1]);
                        } else {
                            assert(line[1] == rest[0]);
                        }
                    }
                }
                if settled(line) {
                    assert forall|p: int| 0 <= p && p + 1 < rest.len() implies if #[trigger] rest[p]
                        == 0 {
                        rest[p + 1] == 0
                    } else {
                        rest[p + 1] != rest[p]
                    } by {
                        assert(rest[p] == line[p + 1]);
                        assert(rest[p + 1] == line[p + 2]);
                    }
                    assert(collapse(rest) == rest);
                }
            }
        }
    }
}

/// Merging tiles gives tiles.
pub proof fn lemma_merge_gives_tiles(tiles: Seq<nat>)
    requires
        all_tiles(tiles),
    ensures
        all_tiles(merge_tiles(tiles)),
    decreases tiles.len(),
{
    if tiles.len() >= 2 {
        let rest = if tiles[0] == tiles[1] {
            tiles.skip(2)
        } else {
            tiles.skip(1)
        };
        assert forall|i: int| 0 <= i < rest.len() implies is_tile(#[trigger] rest[i]) by {
            assert(rest[i] == tiles[i + (tiles.len() - rest.len())]);
        }
        lemma_merge_gives_tiles(rest);
        lemma_tile_values(tiles[0]);
        assert(is_tile(tiles[0]));
    }
}

/// A move makes a line of tiles out of a line of tiles.
pub proof fn lemma_collapse_gives_tiles(line: Seq<nat>)
    requires
        all_tiles(line),
    ensures
        all_tiles(collapse(line)),
{
    let pred = |v: nat| v != 0;
    let tiles = tiles_of(line);
    assert forall|k: int| 0 <= k < tiles.len() implies is_tile(#[trigger] tiles[k]) by {
        assert(tiles.contains(tiles[k]));
        line.lemma_filter_contains_rev(pred, tiles[k]);
        let j = choose|j: int| 0 <= j < line.len() && line[j] == tiles[k];
        assert(is_tile(line[j]));
    }
    lemma_merge_gives_tiles(tiles);
    lemma_tile_values(0);
    let merged = merge_tiles(tiles);
    assert forall|i: int| 0 <= i < collapse(line).len() implies is_tile(
        #[trigger] collapse(line)[i],
    ) by {
        if i < merged.len() {
            assert(is_tile(merged[i]));
        }
    }
}

/// Every tile of a line goes into exactly one tile of the collapsed line,
/// alone or together with one equal neighbour. So a tile that a merge made
/// is not merged again in the same move.
pub proof fn lemma_each_tile_merges_once(tiles: Seq<nat>)
    ensures
        merged_by_groups(tiles, merge_groups(tiles), merge_tiles(tiles)),
    decreases tiles.len(),
{
    let groups = merge_groups(tiles);
    let merged = merge_tiles(tiles);
    if tiles.len() == 0 {
        assert(groups.flatten() =~= tiles);
    } else {
        let first = groups[0];
        let rest = tiles.skip(first.len() as int);
        lemma_each_tile_merges_once(rest);
        assert(groups.drop_first() =~= merge_groups(rest));
        assert(groups.flatten() =~= tiles);
        assert forall|k: int| 0 <= k < groups.len() implies {
            ||| (#[trigger] groups[k]).len() == 1 && merged[k] == groups[k][0]
            ||| groups[k].len() == 2 && groups[k][0] == groups[k][1] && merged[k] == 2
                * groups[k][0]
        } by {
            if k > 0 {
                assert(groups[k] == merge_groups(rest)[k - 1]);
                assert(merged[k] == merge_tiles(rest)[k - 1]);
            }
        }
    }
}

} // verus!
