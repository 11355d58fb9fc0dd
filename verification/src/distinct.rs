//! Counting the different tiles of a board.

use crate::bits::{
    has_bit, lemma_clear_lowest_bit, lemma_drop_bit, lemma_high_nibs_zero, lemma_nib64_bound,
    lemma_set_bit, lemma_shift_nibs, nib64, pop16,
};
use crate::game_logic::Grid;
use vstd::prelude::*;

verus! {

/// The tiles from 1 to `bound - 1` that `cells` holds.
spec fn tiles_below(cells: Seq<u8>, bound: int) -> Set<u8> {
    Set::new(|v: u8| 1 <= v < bound && cells.contains(v))
}

/// 1 if the tile `v` occurs in `cells`, and 0 if it does not.
spec fn occurs(cells: Seq<u8>, v: int) -> int {
    if cells.contains(v as u8) {
        1
    } else {
        0
    }
}

/// How many of the tiles from 1 to `bound - 1` occur in `cells`.
spec fn count_below(cells: Seq<u8>, bound: int) -> int
    decreases bound,
{
    if bound <= 1 {
        0
    } else {
        count_below(cells, bound - 1) + occurs(cells, bound - 1)
    }
}

/// `count_below` up to 16, written out.
proof fn lemma_count_below_16(cells: Seq<u8>)
    ensures
        count_below(cells, 16) == occurs(cells, 1) + occurs(cells, 2) + occurs(cells, 3)
            + occurs(cells, 4) + occurs(cells, 5) + occurs(cells, 6) + occurs(cells, 7)
            + occurs(cells, 8) + occurs(cells, 9) + occurs(cells, 10) + occurs(cells, 11)
            + occurs(cells, 12) + occurs(cells, 13) + occurs(cells, 14) + occurs(cells, 15),
{
    assert(count_below(cells, 1) == 0);
    assert(count_below(cells, 2) == count_below(cells, 1) + occurs(cells, 1));
    assert(count_below(cells, 3) == count_below(cells, 2) + occurs(cells, 2));
    assert(count_below(cells, 4) == count_below(cells, 3) + occurs(cells, 3));
    assert(count_below(cells, 5) == count_below(cells, 4) + occurs(cells, 4));
    assert(count_below(cells, 6) == count_below(cells, 5) + occurs(cells, 5));
    assert(count_below(cells, 7) == count_below(cells, 6) + occurs(cells, 6));
    assert(count_below(cells, 8) == count_below(cells, 7) + occurs(cells, 7));
    assert(count_below(cells, 9) == count_below(cells, 8) + occurs(cells, 8));
    assert(count_below(cells, 10) == count_below(cells, 9) + occurs(cells, 9));
    assert(count_below(cells, 11) == count_below(cells, 10) + occurs(cells, 10));
    assert(count_below(cells, 12) == count_below(cells, 11) + occurs(cells, 11));
    assert(count_below(cells, 13) == count_below(cells, 12) + occurs(cells, 12));
    assert(count_below(cells, 14) == count_below(cells, 13) + occurs(cells, 13));
    assert(count_below(cells, 15) == count_below(cells, 14) + occurs(cells, 14));
    assert(count_below(cells, 16) == count_below(cells, 15) + occurs(cells, 15));
}

/// The set of the tiles from 1 to `bound - 1` that occur in `cells` is
/// finite, and `count_below` is its size.
proof fn lemma_count_below(cells: Seq<u8>, bound: int)
    requires
        1 <= bound <= 256,
    ensures
        tiles_below(cells, bound).finite(),
        tiles_below(cells, bound).len() == count_below(cells, bound),
    decreases bound,
{
    if bound <= 1 {
        assert(tiles_below(cells, bound) =~= Set::<u8>::empty());
    } else {
        lemma_count_below(cells, bound - 1);
        let v = (bound - 1) as u8;
        if occurs(cells, bound - 1) == 1 {
            assert(tiles_below(cells, bound) =~= tiles_below(cells, bound - 1).insert(v));
        } else {
            assert(tiles_below(cells, bound) =~= tiles_below(cells, bound - 1));
        }
    }
}

impl Grid {
    /// The different tiles of the board, the empty cell not counted.
    pub open spec fn spec_distinct_tiles(self) -> Set<u8> {
        Set::new(|v: u8| v != 0 && self@.contains(v))
    }

    /// The number of different tiles on the board, the empty cell not
    /// counted.
    pub open spec fn spec_count_distinct_tiles(self) -> nat {
        self.spec_distinct_tiles().len()
    }

    /// The number of different tiles on the board, the empty cell not
    /// counted.
    pub fn count_distinct_tiles(self) -> (count: usize)
        ensures
            count == self.spec_count_distinct_tiles(),
            count <= 15,
    {
        let mut grid: u64 = self.0;
        let mut bitset: u16 = 0;
        let ghost mut seen: int = 0;
        proof {
            lemma_shift_nibs(self.0, 0);
            assert forall|v: u16| v < 16 implies !has_bit(0, v) by {
                lemma_set_bit(0, 0, v);
            }
        }
        while grid != 0
            invariant
                0 <= seen <= 16,
                seen < 16 ==> grid == self.0 >> ((4 * seen) as u64),
                seen == 16 ==> grid == 0,
                forall|v: u16|
                    v < 16 ==> (has_bit(bitset, v) <==> exists|j: int|
                        0 <= j < seen && #[trigger] nib64(self.0, j as u64) == v),
            decreases grid,
        {
            let ghost before = bitset;
            proof {
                lemma_shift_nibs(self.0, seen as u64);
                lemma_nib64_bound(self.0, seen as u64);
            }
            bitset |= 1u16 << (grid & 0xF);
            grid >>= 4;
            proof {
                let tile = nib64(self.0, seen as u64);
                assert forall|v: u16| v < 16 implies (has_bit(bitset, v) <==> exists|j: int|
                    0 <= j < seen + 1 && #[trigger] nib64(self.0, j as u64) == v) by {
                    lemma_set_bit(before, tile, v);
                    if has_bit(before, v) {
                        let j = choose|j: int|
                            0 <= j < seen && #[trigger] nib64(self.0, j as u64) == v;
                        assert(0 <= j < seen + 1 && nib64(self.0, j as u64) == v);
                    }
                    if v == tile {
                        assert(nib64(self.0, seen as u64) == v);
                    }
                }
                seen = seen + 1;
            }
        }
        proof {
            // What the loop has not read is empty, so the set of bits from 1
            // on is the set of the tiles of the board.
            assert forall|v: u8| 1 <= v <= 15 implies (has_bit(bitset, v as u16)
                <==> self@.contains(v)) by {
                if has_bit(bitset, v as u16) {
                    let j = choose|j: int|
                        0 <= j < seen && #[trigger] nib64(self.0, j as u64) == v as u16;
                    assert(self@[15 - j] == v);
                }
                if self@.contains(v) {
                    let k = choose|k: int| 0 <= k < 16 && self@[k] == v;
                    let j = 15 - k;
                    lemma_nib64_bound(self.0, j as u64);
                    if j >= seen {
                        lemma_high_nibs_zero(self.0, seen as u64, j as u64);
                    }
                    assert(nib64(self.0, j as u64) == v as u16);
                }
            }
        }
        let ghost tiles = bitset;
        bitset >>= 1;
        proof {
            self.lemma_distinct_tiles_count(tiles, bitset);
            lemma_clear_lowest_bit(bitset);
        }
        let ghost all = bitset;
        let mut count: usize = 0;
        while bitset != 0
            invariant
                count + pop16(bitset) == pop16(all),
                0 <= pop16(all) <= 15,
            decreases bitset,
        {
            proof {
                lemma_clear_lowest_bit(bitset);
            }
            bitset &= bitset - 1;
            count += 1;
            proof {
                lemma_clear_lowest_bit(bitset);
            }
        }
        count
    }

    /// A word whose bits from 1 to 15 say which tiles the board holds has,
    /// shifted right by one, as many bits set as the board has different
    /// tiles.
    proof fn lemma_distinct_tiles_count(self, tiles: u16, shifted: u16)
        requires
            shifted == tiles >> 1,
            forall|v: u8| 1 <= v <= 15 ==> (has_bit(tiles, v as u16) <==> self@.contains(v)),
        ensures
            pop16(shifted) == self.spec_count_distinct_tiles(),
            pop16(shifted) <= 15,
    {
        let cells = self@;
        assert forall|v: u16| v < 16 implies #[trigger] ((shifted >> v) & 1) == (if v < 15 {
            occurs(cells, v + 1)
        } else {
            0int
        }) by {
            lemma_drop_bit(tiles, v);
            lemma_drop_bit(shifted, v);
        }
        lemma_count_below_16(cells);
        assert(pop16(shifted) == count_below(cells, 16));
        lemma_count_below(cells, 16);
        self.lemma_tiles_fit();
        assert(self.spec_distinct_tiles() =~= tiles_below(cells, 16)) by {
            assert forall|v: u8| self.spec_distinct_tiles().contains(v) implies tiles_below(
                cells,
                16,
            ).contains(v) by {
                let k = choose|k: int| 0 <= k < 16 && cells[k] == v;
                assert(cells[k] <= 15);
            }
        }
    }
}

} // verus!
