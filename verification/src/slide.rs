//! Sliding and merging the tiles of one line of the board.

use crate::row::{tiles_fit, Row};
use vstd::prelude::*;

verus! {

/// The tiles of `tiles` that are not empty, in their order.
pub open spec fn compact(tiles: Seq<u8>) -> Seq<u8>
    decreases tiles.len(),
{
    if tiles.len() == 0 {
        Seq::empty()
    } else if tiles[0] == 0 {
        compact(tiles.skip(1))
    } else {
        seq![tiles[0]] + compact(tiles.skip(1))
    }
}

/// Tiles with equal neighbours merged, pair by pair from the front: two
/// equal tiles `t` give one tile `t + 1`, and a merged tile does not merge
/// again.
pub open spec fn merge(tiles: Seq<u8>) -> Seq<int>
    decreases tiles.len(),
{
    if tiles.len() == 0 {
        Seq::empty()
    } else if tiles.len() >= 2 && tiles[0] == tiles[1] {
        seq![tiles[0] + 1] + merge(tiles.skip(2))
    } else {
        seq![tiles[0] as int] + merge(tiles.skip(1))
    }
}

/// A line of tiles pushed towards its front: the empty cells go, equal
/// neighbours merge, and empty cells fill the line up at its end.
pub open spec fn slide(tiles: Seq<u8>) -> Seq<int> {
    let merged = merge(compact(tiles));
    merged + Seq::new((tiles.len() - merged.len()) as nat, |i: int| 0int)
}

/// Whether every number of `tiles` fits in a nibble.
pub open spec fn all_fit(tiles: Seq<int>) -> bool {
    forall|i: int| 0 <= i < tiles.len() ==> 0 <= #[trigger] tiles[i] <= 15
}

/// A line of tiles after a move towards its front. Where a merge would give
/// a tile that does not fit in a nibble, the whole line becomes empty.
pub open spec fn slid_line(tiles: Seq<u8>) -> Seq<u8> {
    let slid = slide(tiles);
    if all_fit(slid) {
        Seq::new(tiles.len(), |i: int| slid[i] as u8)
    } else {
        Seq::new(tiles.len(), |i: int| 0u8)
    }
}

/// The tiles of `tiles` as numbers.
pub open spec fn as_ints(tiles: Seq<u8>) -> Seq<int> {
    Seq::new(tiles.len(), |i: int| tiles[i] as int)
}

/// Whether an empty cell of the line lies before a tile.
pub open spec fn has_gap(tiles: Seq<u8>) -> bool {
    exists|i: int, j: int| 0 <= i < j < tiles.len() && tiles[i] == 0 && tiles[j] != 0
}

/// Whether two equal tiles of the line have only empty cells between them.
pub open spec fn has_pair(tiles: Seq<u8>) -> bool {
    exists|i: int|
        0 <= i < compact(tiles).len() - 1 && #[trigger] compact(tiles)[i] == compact(tiles)[i + 1]
}

/// Whether a tile of the line can slide towards its front or merge with
/// another.
pub open spec fn can_slide(tiles: Seq<u8>) -> bool {
    has_gap(tiles) || has_pair(tiles)
}

/// A row after a move to the left.
pub open spec fn spec_move_row_left(row: Row) -> Row {
    Row::spec_pack(slid_line(row@))
}

/// A row after a move to the right.
pub open spec fn spec_move_row_right(row: Row) -> Row {
    Row::spec_pack(slid_line(row@.reverse()).reverse())
}

/// A row after a move shows the tiles of the row after the move.
pub proof fn lemma_move_row_views(row: Row)
    ensures
        spec_move_row_left(row)@ == slid_line(row@),
        spec_move_row_right(row)@ == slid_line(row@.reverse()).reverse(),
{
    row.lemma_pack_of_view();
    lemma_merge_len(row@);
    lemma_merge_len(row@.reverse());
    Row::lemma_view_of_pack(slid_line(row@));
    Row::lemma_view_of_pack(slid_line(row@.reverse()).reverse());
}

/// What is left of a line when the sweep over it holds the tile `last` back:
/// the run of the sweep, as a function of what it has not read yet.
spec fn sweep(tiles: Seq<u8>, last: u8) -> Seq<int>
    decreases tiles.len(),
{
    if tiles.len() == 0 {
        if last != 0 {
            seq![last as int]
        } else {
            Seq::empty()
        }
    } else if tiles[0] == 0 {
        sweep(tiles.skip(1), last)
    } else if last == 0 {
        sweep(tiles.skip(1), tiles[0])
    } else if tiles[0] == last {
        seq![last + 1] + sweep(tiles.skip(1), 0)
    } else {
        seq![last as int] + sweep(tiles.skip(1), tiles[0])
    }
}

/// The tile that a sweep holds back, as a line of no or one tile.
spec fn held(last: u8) -> Seq<u8> {
    if last != 0 {
        seq![last]
    } else {
        Seq::empty()
    }
}

/// Compacting and merging leave no more tiles than there were.
pub proof fn lemma_merge_len(tiles: Seq<u8>)
    ensures
        compact(tiles).len() <= tiles.len(),
        merge(tiles).len() <= tiles.len(),
        merge(compact(tiles)).len() <= tiles.len(),
        slide(tiles).len() == tiles.len(),
        slid_line(tiles).len() == tiles.len(),
    decreases tiles.len(),
{
    if tiles.len() > 0 {
        lemma_merge_len(tiles.skip(1));
        if tiles.len() >= 2 {
            lemma_merge_len(tiles.skip(2));
        }
    }
    lemma_merge_len_only(compact(tiles));
}

/// Merging leaves no more tiles than there were.
pub proof fn lemma_merge_len_only(tiles: Seq<u8>)
    ensures
        merge(tiles).len() <= tiles.len(),
    decreases tiles.len(),
{
    if tiles.len() > 0 {
        lemma_merge_len_only(tiles.skip(1));
        if tiles.len() >= 2 {
            lemma_merge_len_only(tiles.skip(2));
        }
    }
}

/// The sweep computes the merge of the tile it holds back and the tiles
/// that are not empty among those it has not read.
proof fn lemma_sweep_is_merge(tiles: Seq<u8>, last: u8)
    ensures
        sweep(tiles, last) == merge(held(last) + compact(tiles)),
    decreases tiles.len(),
{
    if tiles.len() == 0 {
        assert(held(last) + compact(tiles) =~= held(last));
        if last != 0 {
            assert(held(last).skip(1) =~= Seq::<u8>::empty());
            assert(merge(held(last).skip(1)) =~= Seq::<int>::empty());
            assert(merge(held(last)) =~= seq![last as int]);
        }
    } else {
        let rest = tiles.skip(1);
        let first = tiles[0];
        if first == 0 {
            lemma_sweep_is_merge(rest, last);
        } else if last == 0 {
            lemma_sweep_is_merge(rest, first);
            assert(held(last) + compact(tiles) =~= held(first) + compact(rest));
        } else {
            let both = held(last) + compact(tiles);
            assert(both[0] == last && both[1] == first);
            if first == last {
                lemma_sweep_is_merge(rest, 0);
                assert(both.skip(2) =~= held(0) + compact(rest));
            } else {
                lemma_sweep_is_merge(rest, first);
                assert(both.skip(1) =~= held(first) + compact(rest));
            }
        }
    }
}

/// Compacting leaves tiles that are not empty. It leaves a line without
/// empty cells as it is, and makes every other line shorter.
pub proof fn lemma_compact(tiles: Seq<u8>)
    ensures
        forall|i: int| 0 <= i < compact(tiles).len() ==> #[trigger] compact(tiles)[i] != 0,
        compact(tiles).len() <= tiles.len(),
        compact(tiles).len() == tiles.len() ==> compact(tiles) == tiles,
        tiles.contains(0) ==> compact(tiles).len() < tiles.len(),
    decreases tiles.len(),
{
    if tiles.len() > 0 {
        let rest = tiles.skip(1);
        lemma_compact(rest);
        if tiles[0] != 0 {
            if compact(tiles).len() == tiles.len() {
                assert(compact(tiles) =~= tiles);
            }
            if tiles.contains(0) {
                let i = choose|i: int| 0 <= i < tiles.len() && tiles[i] == 0;
                assert(rest[i - 1] == 0);
            }
        }
    }
}

/// Merging tiles that are not empty leaves numbers that are not zero. It
/// leaves as many as there were only if it leaves each as it is.
pub proof fn lemma_merge(tiles: Seq<u8>)
    requires
        forall|i: int| 0 <= i < tiles.len() ==> #[trigger] tiles[i] != 0,
    ensures
        forall|i: int| 0 <= i < merge(tiles).len() ==> #[trigger] merge(tiles)[i] != 0,
        merge(tiles).len() <= tiles.len(),
        merge(tiles).len() == tiles.len() ==> merge(tiles) == as_ints(tiles),
    decreases tiles.len(),
{
    if tiles.len() > 0 {
        if tiles.len() >= 2 && tiles[0] == tiles[1] {
            lemma_merge(tiles.skip(2));
        } else {
            lemma_merge(tiles.skip(1));
            if merge(tiles).len() == tiles.len() {
                assert(merge(tiles) =~= as_ints(tiles));
            }
        }
    } else {
        assert(merge(tiles) =~= as_ints(tiles));
    }
}

/// A line that a move changes has an empty cell after the move.
pub proof fn lemma_changed_line_has_empty(tiles: Seq<u8>)
    requires
        tiles.len() > 0,
        slid_line(tiles) != tiles,
    ensures
        slid_line(tiles).contains(0),
{
    let slid = slide(tiles);
    let merged = merge(compact(tiles));
    lemma_merge_len(tiles);
    lemma_compact(tiles);
    lemma_merge(compact(tiles));
    if all_fit(slid) {
        if merged.len() == tiles.len() {
            assert(slid =~= as_ints(tiles));
            assert(slid_line(tiles) =~= tiles);
        } else {
            let last = tiles.len() - 1;
            assert(slid[last] == 0);
            assert(slid_line(tiles)[last] == 0);
        }
    } else {
        assert(slid_line(tiles)[0] == 0);
    }
}

/// A line without tiles has nothing left when it is compacted.
proof fn lemma_compact_of_empty(tiles: Seq<u8>)
    requires
        forall|i: int| 0 <= i < tiles.len() ==> tiles[i] == 0,
    ensures
        compact(tiles).len() == 0,
    decreases tiles.len(),
{
    if tiles.len() > 0 {
        lemma_compact_of_empty(tiles.skip(1));
    }
}

/// A line in which no empty cell lies before a tile is its tiles, followed
/// by its empty cells.
proof fn lemma_no_gap(tiles: Seq<u8>)
    requires
        !has_gap(tiles),
    ensures
        tiles == compact(tiles) + Seq::new(
            (tiles.len() - compact(tiles).len()) as nat,
            |i: int| 0u8,
        ),
    decreases tiles.len(),
{
    lemma_compact(tiles);
    if tiles.len() > 0 {
        let rest = tiles.skip(1);
        if tiles[0] == 0 {
            assert forall|i: int| 0 <= i < rest.len() implies rest[i] == 0 by {
                if rest[i] != 0 {
                    assert(0 <= 0 < i + 1 < tiles.len() && tiles[0] == 0 && tiles[i + 1] != 0);
                }
            }
            lemma_compact_of_empty(rest);
            assert(tiles =~= compact(tiles) + Seq::new(
                (tiles.len() - compact(tiles).len()) as nat,
                |i: int| 0u8,
            ));
        } else {
            if has_gap(rest) {
                let (i, j) = choose|i: int, j: int|
                    0 <= i < j < rest.len() && rest[i] == 0 && rest[j] != 0;
                assert(0 <= i + 1 < j + 1 < tiles.len() && tiles[i + 1] == 0 && tiles[j + 1] != 0);
            }
            lemma_no_gap(rest);
            lemma_compact(rest);
            let tail = compact(rest) + Seq::new(
                (rest.len() - compact(rest).len()) as nat,
                |i: int| 0u8,
            );
            let whole = compact(tiles) + Seq::new(
                (tiles.len() - compact(tiles).len()) as nat,
                |i: int| 0u8,
            );
            assert(compact(tiles).len() == compact(rest).len() + 1);
            assert forall|i: int| 0 <= i < tiles.len() implies tiles[i] == whole[i] by {
                if i > 0 {
                    assert(tiles[i] == rest[i - 1]);
                    assert(rest[i - 1] == tail[i - 1]);
                    if i < compact(tiles).len() {
                        assert(compact(tiles)[i] == compact(rest)[i - 1]);
                    }
                }
            }
            assert(tiles =~= whole);
        }
    } else {
        assert(tiles =~= compact(tiles) + Seq::new(
            (tiles.len() - compact(tiles).len()) as nat,
            |i: int| 0u8,
        ));
    }
}

/// Merging leaves fewer tiles than there were exactly if two neighbours are
/// equal.
proof fn lemma_merge_shortens(tiles: Seq<u8>)
    requires
        forall|i: int| 0 <= i < tiles.len() ==> #[trigger] tiles[i] != 0,
    ensures
        merge(tiles).len() < tiles.len() <==> exists|i: int|
            0 <= i < tiles.len() - 1 && #[trigger] tiles[i] == tiles[i + 1],
    decreases tiles.len(),
{
    lemma_merge(tiles);
    if tiles.len() > 0 {
        if tiles.len() >= 2 && tiles[0] == tiles[1] {
            lemma_merge(tiles.skip(2));
            assert(tiles[0int] == tiles[0int + 1]);
        } else {
            let rest = tiles.skip(1);
            lemma_merge_shortens(rest);
            lemma_merge(rest);
            if merge(tiles).len() < tiles.len() {
                let i = choose|i: int| 0 <= i < rest.len() - 1 && #[trigger] rest[i] == rest[i + 1];
                assert(tiles[i + 1] == tiles[i + 1 + 1]);
            }
            if exists|i: int| 0 <= i < tiles.len() - 1 && #[trigger] tiles[i] == tiles[i + 1] {
                let i = choose|i: int|
                    0 <= i < tiles.len() - 1 && #[trigger] tiles[i] == tiles[i + 1];
                assert(i >= 1);
                assert(rest[i - 1] == rest[i - 1 + 1]);
            }
        }
    }
}

/// A move changes a line exactly if a tile of the line can slide or merge.
pub proof fn lemma_changes_iff_can_slide(tiles: Seq<u8>)
    requires
        tiles_fit(tiles),
    ensures
        slid_line(tiles) != tiles <==> can_slide(tiles),
{
    let kept = compact(tiles);
    let merged = merge(kept);
    let slid = slide(tiles);
    lemma_merge_len(tiles);
    lemma_compact(tiles);
    lemma_merge(kept);
    lemma_merge_shortens(kept);
    if has_gap(tiles) {
        let (i, j) = choose|i: int, j: int|
            0 <= i < j < tiles.len() && tiles[i] == 0 && tiles[j] != 0;
        if slid_line(tiles) == tiles {
            if all_fit(slid) {
                assert(slid_line(tiles)[i] == 0);
                assert(i >= merged.len());
                assert(slid_line(tiles)[j] == 0);
            } else {
                assert(slid_line(tiles)[j] == 0);
            }
        }
    } else {
        lemma_no_gap(tiles);
        if has_pair(tiles) {
            if slid_line(tiles) == tiles {
                if all_fit(slid) {
                    assert(slid_line(tiles)[merged.len() as int] == 0);
                    assert(tiles[merged.len() as int] == kept[merged.len() as int]);
                } else {
                    assert(slid_line(tiles)[0] == 0);
                    assert(tiles[0] == kept[0]);
                }
            }
        } else {
            assert(merged == as_ints(kept));
            assert(slid =~= as_ints(tiles));
            assert(all_fit(slid));
            assert(slid_line(tiles) =~= tiles);
        }
    }
}

/// Slides the tiles of a row to the left and merges equal neighbours, each
/// tile at most once. A merge of two tiles 15 has no tile to give: the row
/// then becomes empty.
pub fn move_row_left(row: Row) -> (moved: Row)
    ensures
        moved == spec_move_row_left(row),
        moved@ == slid_line(row@),
{
    let from_row = row.unpack();
    let mut to_row: [u8; 4] = [0, 0, 0, 0];
    let mut last: u8 = 0;
    let mut last_index: usize = 0;
    let mut i: usize = 0;
    proof {
        assert(from_row@.skip(0) =~= from_row@);
        assert(as_ints(to_row@.take(0)) + sweep(from_row@, 0) =~= sweep(from_row@, 0));
    }
    while i < 4
        invariant
            i <= 4,
            from_row@ == row@,
            tiles_fit(from_row@),
            last <= 15,
            last_index <= i,
            last != 0 ==> last_index < i,
            forall|j: int| last_index <= j < 4 ==> to_row[j] == 0,
            forall|j: int| 0 <= j < 4 ==> to_row[j] <= 16,
            as_ints(to_row@.take(last_index as int)) + sweep(from_row@.skip(i as int), last)
                == sweep(from_row@, 0),
        decreases 4 - i,
    {
        let tile: u8 = from_row[i];
        let ghost before = to_row@;
        let ghost unread = from_row@.skip(i as int);
        assert(unread[0] == tile);
        assert(unread.skip(1) =~= from_row@.skip(i + 1));
        if tile == 0 {
        } else if last == 0 {
            last = tile;
        } else {
            if tile == last {
                to_row[last_index] = last + 1;
                last = 0;
            } else {
                to_row[last_index] = last;
                last = tile;
            }
            assert(as_ints(to_row@.take(last_index + 1)) =~= as_ints(
                before.take(last_index as int),
            ) + seq![to_row[last_index as int] as int]);
            last_index += 1;
        }
        i += 1;
    }
    let ghost before = to_row@;
    if last != 0 {
        to_row[last_index] = last;
    }
    proof {
        let merged = merge(compact(row@));
        let emitted = as_ints(before.take(last_index as int));
        assert(from_row@.skip(4) =~= Seq::<u8>::empty());
        lemma_sweep_is_merge(from_row@, 0);
        assert(held(0) + compact(from_row@) =~= compact(from_row@));
        assert(merged == emitted + sweep(Seq::<u8>::empty(), last));
        lemma_merge_len(row@);
        assert(as_ints(to_row@) =~= slide(row@));
        if all_fit(slide(row@)) {
            assert(to_row@ =~= slid_line(row@));
            assert(tiles_fit(to_row@));
        } else {
            let bad = choose|j: int| 0 <= j < 4 && !(0 <= #[trigger] slide(row@)[j] <= 15);
            assert(as_ints(to_row@)[bad] == to_row[bad]);
            assert(!tiles_fit(to_row@));
            Row::lemma_pack_of_view(Row(0));
            assert(Row(0)@ =~= slid_line(row@)) by {
                crate::bits::lemma_nib16_zero();
            }
        }
    }
    match Row::pack(to_row) {
        Some(packed) => packed,
        None => {
            Row::default()
        },
    }
}

/// Slides the tiles of a row to the right and merges equal neighbours, each
/// tile at most once, starting at the right end.
pub fn move_row_right(row: Row) -> (moved: Row)
    ensures
        moved == spec_move_row_right(row),
        moved@ == slid_line(row@.reverse()).reverse(),
{
    let moved = move_row_left(row.reverse()).reverse();
    proof {
        lemma_merge_len(row@.reverse());
        Row::lemma_pack_of_view(moved);
    }
    moved
}

} // verus!
