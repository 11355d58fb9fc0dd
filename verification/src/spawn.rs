//! The moves of the computer: a new tile in an empty cell.

use crate::bits::{lemma_fold_flags, lemma_put_nib, lemma_zero_flags, nib64, nib_sum, zero_flags};
use crate::game_logic::Grid;
use crate::row::tiles_fit;
use rand::Rng;
use vstd::prelude::*;

verus! {

/// The empty cells among the cells of `cells` from `pos` on, in rising
/// order.
pub open spec fn empty_from(cells: Seq<u8>, pos: int) -> Seq<int>
    decreases cells.len() - pos,
{
    if pos < 0 || pos >= cells.len() {
        Seq::empty()
    } else if cells[pos] == 0 {
        seq![pos] + empty_from(cells, pos + 1)
    } else {
        empty_from(cells, pos + 1)
    }
}

/// The empty cells of a board in row-major order: the top row first, each
/// row from left to right.
pub open spec fn empty_cells(cells: Seq<u8>) -> Seq<int> {
    empty_from(cells, 0)
}

/// `empty_from(cells, pos)` lists, in strictly rising order, exactly the
/// cells from `pos` on that are empty.
pub proof fn lemma_empty_from(cells: Seq<u8>, pos: int)
    requires
        0 <= pos,
    ensures
        empty_from(cells, pos).len() <= cells.len() - pos || empty_from(cells, pos).len() == 0,
        forall|i: int|
            0 <= i < empty_from(cells, pos).len() ==> pos <= #[trigger] empty_from(cells, pos)[i]
                < cells.len() && cells[empty_from(cells, pos)[i]] == 0,
        forall|i: int, j: int|
            0 <= i < j < empty_from(cells, pos).len() ==> empty_from(cells, pos)[i] < empty_from(
                cells,
                pos,
            )[j],
        forall|k: int|
            pos <= k < cells.len() && cells[k] == 0 ==> empty_from(cells, pos).contains(k),
    decreases cells.len() - pos,
{
    if pos < cells.len() {
        lemma_empty_from(cells, pos + 1);
        let rest = empty_from(cells, pos + 1);
        let all = empty_from(cells, pos);
        if cells[pos] == 0 {
            assert(all[0] == pos);
            assert forall|k: int| pos <= k < cells.len() && cells[k] == 0 implies all.contains(
                k,
            ) by {
                if k > pos {
                    assert(rest.contains(k));
                    let i = choose|i: int| 0 <= i < rest.len() && rest[i] == k;
                    assert(all[i + 1] == k);
                }
            }
        }
    }
}

/// There are as many empty cells from `pos` on as tiles 0 among the tiles
/// from `pos` on.
pub proof fn lemma_empty_is_filter(cells: Seq<u8>, pos: int)
    requires
        0 <= pos <= cells.len(),
    ensures
        empty_from(cells, pos).len() == cells.skip(pos).filter(|tile: u8| tile == 0).len(),
    decreases cells.len() - pos,
{
    let is_empty = |tile: u8| tile == 0;
    if pos < cells.len() {
        lemma_empty_is_filter(cells, pos + 1);
        let tail = cells.skip(pos);
        assert(tail.skip(1) =~= cells.skip(pos + 1));
        assert(tail =~= seq![cells[pos]] + tail.skip(1));
        Seq::filter_distributes_over_add(seq![cells[pos]], tail.skip(1), is_empty);
        reveal_with_fuel(Seq::filter, 3);
        assert(seq![cells[pos]].drop_last() =~= Seq::<u8>::empty());
    } else {
        assert(cells.skip(pos) =~= Seq::<u8>::empty());
        reveal_with_fuel(Seq::filter, 2);
    }
}

/// The number of flags from the cell `pos` on in a word of flags.
spec fn flags_from(y: u64, pos: int) -> int
    decreases 16 - pos,
{
    if pos < 0 || pos >= 16 {
        0
    } else {
        nib64(y, (15 - pos) as u64) + flags_from(y, pos + 1)
    }
}

impl Grid {
    /// The number of empty cells of the board.
    pub open spec fn spec_count_empty(self) -> nat {
        empty_cells(self@).len()
    }

    /// The board with the tile `v` in the cell `k`.
    pub open spec fn spec_with_tile(self, k: int, v: u8) -> Grid {
        Grid::spec_from_cells(self@.update(k, v))
    }

    /// The boards with the tile `v` in one of the empty cells from `pos`
    /// on, by rising cell.
    pub open spec fn spec_spawns_from(self, v: u8, pos: int) -> Seq<Grid> {
        empty_from(self@, pos).map_values(|k: int| self.spec_with_tile(k, v))
    }

    /// The boards that the computer can reach by placing the tile `v`: one
    /// for each empty cell, in row-major order of the cells.
    pub open spec fn spec_ai_moves(self, v: u8) -> Seq<Grid> {
        self.spec_spawns_from(v, 0)
    }

    /// The move number `i` of the computer with the tile `v`.
    pub open spec fn spec_spawn(self, i: int, v: u8) -> Grid {
        self.spec_ai_moves(v)[i]
    }

    /// Whether `spawned` is the board after a move of the computer: a tile
    /// 1 or 2 in one of the empty cells.
    pub open spec fn spec_can_spawn(self, spawned: Grid) -> bool {
        exists|i: int, v: u8|
            0 <= i < self.spec_count_empty() && (v == 1 || v == 2) && spawned
                == #[trigger] self.spec_spawn(i, v)
    }

    /// The flags of the empty cells of a board add up to their number.
    proof fn lemma_flags_count(self, pos: int)
        requires
            0 <= pos <= 16,
        ensures
            flags_from(zero_flags(self.0), pos) == empty_from(self@, pos).len(),
        decreases 16 - pos,
    {
        if pos < 16 {
            self.lemma_flags_count(pos + 1);
            lemma_zero_flags(self.0, (15 - pos) as u64);
            crate::bits::lemma_nib64_bound(self.0, (15 - pos) as u64);
        }
    }

    /// The board has one move of the computer for each empty cell, and the
    /// move `i` shows the tile `v` in the empty cell `i` and is otherwise
    /// the board itself.
    pub proof fn lemma_ai_moves(self, v: u8)
        requires
            v <= 15,
        ensures
            self.spec_ai_moves(v).len() == self.spec_count_empty(),
            self.spec_count_empty() <= 16,
            forall|i: int|
                0 <= i < self.spec_count_empty() ==> (#[trigger] self.spec_ai_moves(v)[i])@
                    == self@.update(empty_cells(self@)[i], v),
    {
        lemma_empty_from(self@, 0);
        self.lemma_tiles_fit();
        assert forall|i: int| 0 <= i < self.spec_count_empty() implies
            (#[trigger] self.spec_ai_moves(v)[i])@ == self@.update(empty_cells(self@)[i], v) by {
            let k = empty_cells(self@)[i];
            assert(tiles_fit(self@.update(k, v)));
            Grid::lemma_view_of_from_cells(self@.update(k, v));
        }
    }

    /// The number of empty cells of a board is the number of its tiles
    /// that are 0.
    pub proof fn lemma_count_empty(self)
        ensures
            self.spec_count_empty() == self@.filter(|tile: u8| tile == 0).len(),
            self.spec_count_empty() <= 16,
    {
        lemma_empty_from(self@, 0);
        lemma_empty_is_filter(self@, 0);
        assert(self@.skip(0) =~= self@);
    }

    /// The empty board has sixteen empty cells.
    pub proof fn lemma_count_empty_of_empty()
        ensures
            Grid(0).spec_count_empty() == 16,
    {
        let grid = Grid(0);
        grid.lemma_flags_count(0);
        lemma_fold_flags(0);
        reveal_with_fuel(flags_from, 17);
        assert(flags_from(zero_flags(0), 0) == nib_sum(zero_flags(0)));
        assert(nib_sum(zero_flags(0)) == 16) by {
            crate::bits::lemma_sum_of_empty();
        }
    }

    /// The number of empty cells of the board.
    pub fn count_empty(self) -> (count: usize)
        ensures
            count == self.spec_count_empty(),
            count <= 16,
    {
        proof {
            lemma_fold_flags(self.0);
            self.lemma_flags_count(0);
            reveal_with_fuel(flags_from, 17);
            assert(flags_from(zero_flags(self.0), 0) == nib_sum(zero_flags(self.0)));
        }
        let mut x: u64 = self.0;
        x |= (x >> 2) & 0x3333333333333333;
        x |= x >> 1;
        x = (!x) & 0x1111111111111111;
        // Each nibble is now 1 if the tile was empty, and 0 if it was not.
        x += x >> 32;
        x += x >> 16;
        x += x >> 8;
        // The two lowest nibbles hold up to eight each.
        ((x & 0xf) + ((x >> 4) & 0xf)) as usize
    }
}

/// The moves of the computer with one tile, one after the other.
pub struct AiMoves {
    grid: Grid,
    index: i8,
    val: u8,
}

impl AiMoves {
    /// The walk has between none and all of the sixteen cells before it,
    /// and places a tile that fits in a nibble.
    #[verifier::type_invariant]
    spec fn wf(self) -> bool {
        0 <= self.index <= 16 && self.val <= 15
    }

    /// The boards that the walk has not given yet, in the order in which it
    /// will give them.
    pub closed spec fn remaining(self) -> Seq<Grid> {
        self.grid.spec_spawns_from(self.val, 16 - self.index)
    }

    /// The walk over the moves of the computer on `grid` that place the
    /// tile `new_value`.
    pub fn new(grid: Grid, new_value: u8) -> (moves: AiMoves)
        requires
            new_value <= 15,
        ensures
            moves.remaining() == grid.spec_ai_moves(new_value),
    {
        AiMoves { grid, index: 16, val: new_value }
    }

    /// The next move of the computer, if one is left.
    pub fn next(&mut self) -> (item: Option<Grid>)
        ensures
            old(self).remaining().len() == 0 ==> item is None && final(self).remaining().len()
                == 0,
            old(self).remaining().len() > 0 ==> item == Some(old(self).remaining()[0])
                && final(self).remaining() == old(self).remaining().skip(1),
    {
        proof {
            use_type_invariant(&*self);
        }
        loop
            invariant
                self.wf(),
                self.grid == old(self).grid,
                self.val == old(self).val,
                self.remaining() == old(self).remaining(),
            decreases self.index,
        {
            if self.index <= 0 {
                return None;
            }
            let ghost before = *self;
            self.index -= 1;
            let shift: u64 = (self.index as u64) * 4;
            let mask: u64 = 0b1111u64 << shift;
            let ghost cell = 15 - self.index;
            proof {
                lemma_put_nib(self.grid.0, self.index as u64, self.val as u64, 0);
                assert(self.grid@[cell] == nib64(self.grid.0, self.index as u64) as u8);
                crate::bits::lemma_nib64_bound(self.grid.0, self.index as u64);
            }
            if (self.grid.0 & mask) == 0 {
                let grid = Grid(self.grid.0 | ((self.val as u64) << shift));
                proof {
                    let rest = empty_from(self.grid@, cell + 1);
                    let place = |k: int| self.grid.spec_with_tile(k, self.val);
                    assert(before.remaining() =~= seq![place(cell)] + rest.map_values(place));
                    assert(before.remaining().skip(1) =~= self.remaining());
                    assert forall|k: int| 0 <= k < 16 implies grid@[k] == self.grid@.update(
                        cell,
                        self.val,
                    )[k] by {
                        lemma_put_nib(
                            self.grid.0,
                            self.index as u64,
                            self.val as u64,
                            (15 - k) as u64,
                        );
                    }
                    assert(grid@ =~= self.grid@.update(cell, self.val));
                    grid.lemma_from_cells_of_view();
                }
                return Some(grid);
            }
        }
    }
}

impl Grid {
    /// The boards that the computer can reach by placing a tile 1, which
    /// shows as a 2: one for each empty cell, in row-major order.
    pub fn ai_moves_with2(self) -> (moves: Vec<Grid>)
        ensures
            moves@ == self.spec_ai_moves(1),
    {
        self.ai_moves_with(1)
    }

    /// The boards that the computer can reach by placing a tile 2, which
    /// shows as a 4: one for each empty cell, in row-major order.
    pub fn ai_moves_with4(self) -> (moves: Vec<Grid>)
        ensures
            moves@ == self.spec_ai_moves(2),
    {
        self.ai_moves_with(2)
    }

    /// The boards that the computer can reach by placing the tile
    /// `new_value`: one for each empty cell, in row-major order.
    pub fn ai_moves_with(self, new_value: u8) -> (moves: Vec<Grid>)
        requires
            new_value <= 15,
        ensures
            moves@ == self.spec_ai_moves(new_value),
    {
        let mut walk = AiMoves::new(self, new_value);
        let mut moves: Vec<Grid> = Vec::new();
        assert(moves@ + walk.remaining() =~= self.spec_ai_moves(new_value));
        loop
            invariant
                moves@ + walk.remaining() == self.spec_ai_moves(new_value),
            decreases walk.remaining().len(),
        {
            let ghost before = walk.remaining();
            let ghost given = moves@;
            match walk.next() {
                Some(grid) => {
                    moves.push(grid);
                    assert(moves@ + walk.remaining() =~= given + before);
                },
                None => {
                    assert(moves@ =~= moves@ + walk.remaining());
                    return moves;
                },
            }
        }
    }

    /// The tile that the computer places: a 2, which shows as a 4, if
    /// `four` holds, and a 1, which shows as a 2, if not.
    pub open spec fn spec_new_tile(four: bool) -> u8 {
        if four {
            2
        } else {
            1
        }
    }

    /// The board with a new tile in the empty cell number `position`, the
    /// empty cells counted in row-major order from 0. The new tile is a 2,
    /// which shows as a 4, if `four` holds, and a 1, which shows as a 2, if
    /// not.
    pub fn spawn_at(self, position: usize, four: bool) -> (spawned: Grid)
        requires
            position < self.spec_count_empty(),
        ensures
            spawned == self.spec_spawn(position as int, Grid::spec_new_tile(four)),
            self.spec_can_spawn(spawned),
    {
        let value: u8 = if four {
            2
        } else {
            1
        };
        let mut walk = AiMoves::new(self, value);
        let mut i: usize = 0;
        proof {
            self.lemma_ai_moves(value);
            assert(walk.remaining() =~= self.spec_ai_moves(value).skip(0));
        }
        loop
            invariant
                value == Grid::spec_new_tile(four),
                i <= position < self.spec_ai_moves(value).len(),
                position < self.spec_count_empty(),
                walk.remaining() == self.spec_ai_moves(value).skip(i as int),
            decreases position - i,
        {
            let ghost before = walk.remaining();
            match walk.next() {
                Some(grid) => {
                    if i == position {
                        assert(grid == self.spec_spawn(position as int, value));
                        return grid;
                    }
                    assert(before.skip(1) =~= self.spec_ai_moves(value).skip(i + 1));
                    i += 1;
                },
                None => {
                    return self;
                },
            }
        }
    }

    /// A board that the computer can reach: a new tile in one of the empty
    /// cells, each cell being as likely as the others. The new tile is a 2
    /// (shown as a 4) once in ten times, and a 1 (shown as a 2) otherwise.
    /// There is no such board if no cell is empty.
    pub fn add_random_tile(self) -> (spawned: Option<Grid>)
        ensures
            spawned is Some <==> self.spec_count_empty() > 0,
            spawned matches Some(g) ==> self.spec_can_spawn(g),
    {
        let empty_tile_count = self.count_empty();
        if empty_tile_count == 0 {
            return None;
        }
        let position = random_in_range(0, empty_tile_count);
        let four = random_ratio(1, 10);
        Some(self.spawn_at(position, four))
    }
}

/// `rand::Rng::gen_range` on the generator of the thread: some number from
/// `low` up to, but without, `high`. Which one is not known.
#[verifier::external_body]
fn random_in_range(low: usize, high: usize) -> (n: usize)
    requires
        low < high,
    ensures
        low <= n < high,
{
    rand::thread_rng().gen_range(low, high)
}

/// `rand::Rng::gen_ratio` on the generator of the thread: `true` with the
/// chance of `numerator` in `denominator`. Nothing is known of the value.
#[verifier::external_body]
fn random_ratio(numerator: u32, denominator: u32) -> bool
    requires
        numerator <= denominator,
        denominator > 0,
{
    rand::thread_rng().gen_ratio(numerator, denominator)
}

} // verus!
