//! Collapse of a single line of cells.
//!
//! A line is read from the edge that the tiles slide towards. Its tiles move
//! to the front, and equal neighbours merge into one tile of twice the value.

use vstd::prelude::*;
use crate::cells::as_nats;

verus! {

/// The largest cell value that can still be doubled in a `u32`.
pub const MERGE_LIMIT: u32 = 0x7fff_ffff;

/// The tiles of a line: its non-empty cells, in reading order.
pub open spec fn tiles_of(line: Seq<nat>) -> Seq<nat> {
    line.filter(|v: nat| v != 0)
}

/// Merges equal neighbours from the front. The first two tiles merge when
/// they are equal, and merging goes on behind the pair: the doubled tile is
/// never compared with the tile that follows it.
pub open spec fn merge_tiles(tiles: Seq<nat>) -> Seq<nat>
    decreases tiles.len(),
{
    if tiles.len() < 2 {
        tiles
    } else if tiles[0] == tiles[1] {
        seq![2 * tiles[0]] + merge_tiles(tiles.skip(2))
    } else {
        seq![tiles[0]] + merge_tiles(tiles.skip(1))
    }
}

/// The line after a move: the merged tiles at the front, empty cells behind.
pub open spec fn collapse(line: Seq<nat>) -> Seq<nat> {
    let merged = merge_tiles(tiles_of(line));
    Seq::new(
        line.len(),
        |n: int|
            if n < merged.len() {
                merged[n]
            } else {
                0
            },
    )
}

/// Every cell of the line can be doubled in a `u32`.
pub open spec fn mergeable(line: Seq<nat>) -> bool {
    forall|i: int| 0 <= i < line.len() ==> #[trigger] line[i] <= MERGE_LIMIT
}

/// The carried tile as a sequence: empty when nothing is carried.
pub open spec fn carried(cn: nat) -> Seq<nat> {
    if cn == 0 {
        Seq::empty()
    } else {
        seq![cn]
    }
}

/// The tiles of a line, cell by cell from the front.
pub proof fn lemma_tiles_of_unfold(line: Seq<nat>)
    requires
        line.len() > 0,
    ensures
        tiles_of(line) == carried(line[0]) + tiles_of(line.skip(1)),
{
    assert(line =~= seq![line[0]] + line.skip(1));
    line.skip(1).lemma_filter_prepend(line[0], |v: nat| v != 0);
}

/// `tiles_of` of the empty line.
pub proof fn lemma_tiles_of_empty(line: Seq<nat>)
    requires
        line.len() == 0,
    ensures
        tiles_of(line) == Seq::<nat>::empty(),
{
    reveal(Seq::filter);
}

/// One step of `merge_tiles` on a sequence that starts with two given tiles.
pub proof fn lemma_merge_pair(a: nat, b: nat, rest: Seq<nat>)
    ensures
        merge_tiles(seq![a] + (seq![b] + rest)) == if a == b {
            seq![2 * a] + merge_tiles(rest)
        } else {
            seq![a] + merge_tiles(seq![b] + rest)
        },
{
    let all = seq![a] + (seq![b] + rest);
    assert(all.skip(2) =~= rest);
    assert(all.skip(1) =~= seq![b] + rest);
}

/// Collapses a line: the tiles slide to the front, and each pair of equal
/// neighbours becomes one tile of twice the value.
pub fn collapse_line(line: &Vec<u32>) -> (out: Vec<u32>)
    requires
        mergeable(as_nats(line@)),
    ensures
        out.len() == line.len(),
        as_nats(out@) == collapse(as_nats(line@)),
{
    let ghost cells = as_nats(line@);
    let size: usize = line.len();
    let mut cn: u32 = 0;
    let mut vr: Vec<u32> = Vec::new();
    let mut n: usize = 0;
    proof {
        assert(cells.skip(0) =~= cells);
        assert(as_nats(vr@) + merge_tiles(carried(0) + tiles_of(cells)) =~= merge_tiles(
            tiles_of(cells),
        )) by {
            assert(carried(0) + tiles_of(cells) =~= tiles_of(cells));
        }
    }
    while n < size
        invariant
            n <= size,
            size == line.len(),
            cells == as_nats(line@),
            mergeable(cells),
            cn <= MERGE_LIMIT,
            as_nats(vr@) + merge_tiles(carried(cn as nat) + tiles_of(cells.skip(n as int)))
                == merge_tiles(tiles_of(cells)),
        decreases size - n,
    {
        let val: u32 = line[n];
        proof {
            let rest = tiles_of(cells.skip(n as int + 1));
            lemma_tiles_of_unfold(cells.skip(n as int));
            assert(cells.skip(n as int).skip(1) =~= cells.skip(n as int + 1));
            assert(cells.skip(n as int)[0] == val as nat);
            assert(cells[n as int] <= MERGE_LIMIT);
            if val != 0 && cn != 0 {
                lemma_merge_pair(cn as nat, val as nat, rest);
                assert(carried(cn as nat) + (carried(val as nat) + rest) =~= seq![cn as nat] + (
                seq![val as nat] + rest));
            }
            assert(carried(cn as nat) + (carried(val as nat) + rest) =~= (carried(cn as nat)
                + carried(val as nat)) + rest);
        }
        let ghost before = vr@;
        if cn == 0 && val != 0 {
            cn = val;
        } else if cn != val && cn != 0 && val != 0 {
            vr.push(cn);
            cn = val;
        } else if cn == val && cn != 0 {
            vr.push(2 * cn);
            cn = 0;
        }
        proof {
            let rest = tiles_of(cells.skip(n as int + 1));
            assert(vr@.len() > before.len() ==> as_nats(vr@) =~= as_nats(before) + seq![
                vr@.last() as nat,
            ]);
            assert(carried(cn as nat) + rest =~= carried(cn as nat) + tiles_of(
                cells.skip(n as int + 1),
            ));
        }
        n += 1;
    }
    proof {
        lemma_tiles_of_empty(cells.skip(size as int));
        assert(carried(cn as nat) + Seq::<nat>::empty() =~= carried(cn as nat));
    }
    let ghost merged = merge_tiles(tiles_of(cells));
    assert(as_nats(vr@) + carried(cn as nat) == merged);
    vr.push(cn);
    let mut out: Vec<u32> = Vec::new();
    let mut k: usize = 0;
    while k < size
        invariant
            k <= size,
            out.len() == k,
            size == cells.len(),
            vr.len() >= 1,
            merged == merge_tiles(tiles_of(cells)),
            as_nats(vr@.drop_last()) + carried(vr@.last() as nat) == merged,
            forall|j: int| 0 <= j < k ==> (#[trigger] out[j]) as nat == collapse(cells)[j],
        decreases size - k,
    {
        let v: u32 = if k < vr.len() {
            vr[k]
        } else {
            0
        };
        proof {
            let front = as_nats(vr@.drop_last());
            assert(front.len() == vr.len() - 1);
            if k < vr.len() - 1 {
                assert(merged[k as int] == front[k as int]);
            }
        }
        out.push(v);
        k += 1;
    }
    assert(as_nats(out@) =~= collapse(cells));
    out
}

} // verus!
