//! The four moves of the player on a board.

use crate::game_logic::{columns_cells, Grid, Move, MOVES};
use crate::row::{tiles_fit, Column, Row};
use crate::slide::{
    can_slide, lemma_changed_line_has_empty, lemma_changes_iff_can_slide, lemma_merge_len,
    lemma_move_row_views, move_row_left, move_row_right, slid_line, spec_move_row_left,
    spec_move_row_right,
};
use crate::spawn::{empty_from, lemma_empty_from};
use vstd::prelude::*;

verus! {

/// The place on the board of the tile `j` of the line `i` of a move. A line
/// holds the four tiles that the move pushes together, the first one being
/// the one they are pushed towards.
pub open spec fn line_cell(mv: Move, i: int, j: int) -> int {
    match mv {
        Move::Left => 4 * i + j,
        Move::Right => 4 * i + (3 - j),
        Move::Up => 4 * j + i,
        Move::Down => 4 * (3 - j) + i,
    }
}

/// The line of a move that the cell `k` of the board lies on.
pub open spec fn line_of(mv: Move, k: int) -> int {
    match mv {
        Move::Left | Move::Right => k / 4,
        Move::Up | Move::Down => k % 4,
    }
}

/// The place of the cell `k` of the board on its line of a move.
pub open spec fn place_on_line(mv: Move, k: int) -> int {
    match mv {
        Move::Left => k % 4,
        Move::Right => 3 - k % 4,
        Move::Up => k / 4,
        Move::Down => 3 - k / 4,
    }
}

/// The four tiles of the line `i` of a move, the first one being the one
/// they are pushed towards.
pub open spec fn line(cells: Seq<u8>, mv: Move, i: int) -> Seq<u8> {
    Seq::new(4, |j: int| cells[line_cell(mv, i, j)])
}

/// The sixteen tiles of a board after a move: each of the four lines of the
/// move slides towards its first tile.
pub open spec fn moved_cells(cells: Seq<u8>, mv: Move) -> Seq<u8> {
    Seq::new(16, |k: int| slid_line(line(cells, mv, line_of(mv, k)))[place_on_line(mv, k)])
}

/// The tiles of a board after a move fit in a nibble.
pub proof fn lemma_moved_cells_fit(cells: Seq<u8>, mv: Move)
    ensures
        moved_cells(cells, mv).len() == 16,
        tiles_fit(moved_cells(cells, mv)),
{
    assert forall|k: int| 0 <= k < 16 implies #[trigger] moved_cells(cells, mv)[k] <= 15 by {
        lemma_merge_len(line(cells, mv, line_of(mv, k)));
    }
}

/// Each cell of the board lies on one line of a move, at one place.
pub proof fn lemma_lines(mv: Move)
    ensures
        forall|k: int|
            0 <= k < 16 ==> 0 <= #[trigger] line_of(mv, k) < 4 && 0 <= place_on_line(mv, k) < 4
                && line_cell(mv, line_of(mv, k), place_on_line(mv, k)) == k,
        forall|i: int, j: int|
            0 <= i < 4 && 0 <= j < 4 ==> 0 <= #[trigger] line_cell(mv, i, j) < 16 && line_of(
                mv,
                line_cell(mv, i, j),
            ) == i && place_on_line(mv, line_cell(mv, i, j)) == j,
{
}

/// A board that a move changes has a line that the move changes.
pub proof fn lemma_changed_line(cells: Seq<u8>, mv: Move) -> (i: int)
    requires
        cells.len() == 16,
        moved_cells(cells, mv) != cells,
    ensures
        0 <= i < 4,
        slid_line(line(cells, mv, i)) != line(cells, mv, i),
{
    lemma_lines(mv);
    if forall|k: int| 0 <= k < 16 ==> moved_cells(cells, mv)[k] == cells[k] {
        assert(moved_cells(cells, mv) =~= cells);
    }
    let k = choose|k: int| 0 <= k < 16 && moved_cells(cells, mv)[k] != cells[k];
    let i = line_of(mv, k);
    assert(line(cells, mv, i)[place_on_line(mv, k)] == cells[k]);
    i
}

impl Grid {
    /// The board after a move.
    pub open spec fn spec_make_move(self, mv: Move) -> Grid {
        Grid::spec_from_cells(moved_cells(self@, mv))
    }

    /// Whether a move is legal: a tile can slide or merge in it. That is,
    /// on one of the four lines of the move an empty cell lies before a
    /// tile, or two equal tiles have only empty cells between them.
    #[verifier::opaque]
    pub open spec fn spec_is_legal(self, mv: Move) -> bool {
        exists|i: int| 0 <= i < 4 && #[trigger] can_slide(line(self@, mv, i))
    }

    /// Whether the game is over: no move is legal.
    pub open spec fn spec_game_over(self) -> bool {
        forall|mv: Move| !self.spec_is_legal(mv)
    }

    /// The legal moves from the one at the place `i` of the fixed order on,
    /// each with the board it leads to.
    pub open spec fn spec_player_moves_from(self, i: int) -> Seq<(Move, Grid)>
        decreases 4 - i,
    {
        if i < 0 || i >= 4 {
            Seq::empty()
        } else if self.spec_is_legal(MOVES@[i]) {
            seq![(MOVES@[i], self.spec_make_move(MOVES@[i]))] + self.spec_player_moves_from(i + 1)
        } else {
            self.spec_player_moves_from(i + 1)
        }
    }

    /// The legal moves with the boards they lead to, in the fixed order of
    /// the moves.
    pub open spec fn spec_player_moves(self) -> Seq<(Move, Grid)> {
        self.spec_player_moves_from(0)
    }

    /// Each entry of `spec_player_moves_from(i)` is a legal move from the
    /// place `i` on with the board after it, and the moves stand in their
    /// fixed order.
    pub proof fn lemma_player_moves_sound(self, i: int)
        requires
            0 <= i <= 4,
        ensures
            self.spec_player_moves_from(i).len() <= 4 - i,
            forall|n: int|
                0 <= n < self.spec_player_moves_from(i).len() ==> {
                    let entry = #[trigger] self.spec_player_moves_from(i)[n];
                    &&& entry.0.spec_ordinal() >= i
                    &&& self.spec_is_legal(entry.0)
                    &&& entry.1 == self.spec_make_move(entry.0)
                },
            forall|m: int, n: int|
                0 <= m < n < self.spec_player_moves_from(i).len() ==> (
                #[trigger] self.spec_player_moves_from(i)[m]).0.spec_ordinal() < (
                #[trigger] self.spec_player_moves_from(i)[n]).0.spec_ordinal(),
        decreases 4 - i,
    {
        if i < 4 {
            self.lemma_player_moves_sound(i + 1);
            let rest = self.spec_player_moves_from(i + 1);
            let all = self.spec_player_moves_from(i);
            let first = MOVES@[i];
            assert(first.spec_ordinal() == i);
            if self.spec_is_legal(first) {
                assert(all.len() == rest.len() + 1);
                assert forall|n: int| 1 <= n < all.len() implies #[trigger] all[n] == rest[n
                    - 1] by {}
            }
        }
    }

    /// Each legal move from the place `i` on stands in
    /// `spec_player_moves_from(i)`, with the board after it.
    pub proof fn lemma_player_moves_complete(self, i: int, mv: Move)
        requires
            0 <= i <= 4,
            mv.spec_ordinal() >= i,
            self.spec_is_legal(mv),
        ensures
            self.spec_player_moves_from(i).contains((mv, self.spec_make_move(mv))),
        decreases 4 - i,
    {
        let all = self.spec_player_moves_from(i);
        let first = MOVES@[i];
        let entry = (mv, self.spec_make_move(mv));
        assert(first.spec_ordinal() == i);
        if mv.spec_ordinal() > i {
            self.lemma_player_moves_complete(i + 1, mv);
            let rest = self.spec_player_moves_from(i + 1);
            let n = choose|n: int| 0 <= n < rest.len() && rest[n] == entry;
            if self.spec_is_legal(first) {
                assert(all[n + 1] == entry);
            } else {
                assert(all[n] == entry);
            }
        } else {
            assert(mv == first);
            assert(all[0] == entry);
        }
    }

    /// The board after a move shows the moved tiles.
    pub proof fn lemma_make_move_view(self, mv: Move)
        ensures
            self.spec_make_move(mv)@ == moved_cells(self@, mv),
    {
        lemma_moved_cells_fit(self@, mv);
        Grid::lemma_view_of_from_cells(moved_cells(self@, mv));
    }

    /// A move changes the board exactly if it changes the tiles that the
    /// board shows.
    pub proof fn lemma_unchanged_by_cells(self, mv: Move)
        ensures
            self.spec_make_move(mv) == self <==> moved_cells(self@, mv) == self@,
    {
        self.lemma_make_move_view(mv);
        if moved_cells(self@, mv) == self@ {
            self.spec_make_move(mv).lemma_view_injective(self);
        }
    }

    /// A move leaves the board as it is exactly if it is not legal.
    pub proof fn lemma_illegal_iff_unchanged(self, mv: Move)
        ensures
            self.spec_make_move(mv) == self <==> !self.spec_is_legal(mv),
    {
        reveal(Grid::spec_is_legal);
        self.lemma_unchanged_by_cells(mv);
        self.lemma_tiles_fit();
        lemma_lines(mv);
        assert forall|i: int| 0 <= i < 4 implies (slid_line(line(self@, mv, i)) != line(
            self@,
            mv,
            i,
        ) <==> #[trigger] can_slide(line(self@, mv, i))) by {
            assert forall|j: int| 0 <= j < 4 implies #[trigger] line(self@, mv, i)[j] <= 15 by {
                assert(self@[line_cell(mv, i, j)] <= 15);
            }
            lemma_changes_iff_can_slide(line(self@, mv, i));
        }
        if self.spec_make_move(mv) != self {
            let i = lemma_changed_line(self@, mv);
            assert(can_slide(line(self@, mv, i)));
        }
        if self.spec_is_legal(mv) {
            let i = choose|i: int| 0 <= i < 4 && #[trigger] can_slide(line(self@, mv, i));
            let tiles = line(self@, mv, i);
            lemma_merge_len(tiles);
            if forall|j: int| 0 <= j < 4 ==> slid_line(tiles)[j] == tiles[j] {
                assert(slid_line(tiles) =~= tiles);
            }
            let j = choose|j: int| 0 <= j < 4 && slid_line(tiles)[j] != tiles[j];
            let k = line_cell(mv, i, j);
            assert(moved_cells(self@, mv)[k] != self@[k]);
        }
    }

    /// The game is over exactly if each of the four moves leaves the board
    /// as it is.
    pub proof fn lemma_game_over(self)
        ensures
            self.spec_game_over() <==> (self.spec_make_move(Move::Left) == self
                && self.spec_make_move(Move::Right) == self && self.spec_make_move(Move::Up)
                == self && self.spec_make_move(Move::Down) == self),
            self.spec_game_over() <==> self.spec_player_moves().len() == 0,
    {
        self.lemma_illegal_iff_unchanged(Move::Left);
        self.lemma_illegal_iff_unchanged(Move::Right);
        self.lemma_illegal_iff_unchanged(Move::Up);
        self.lemma_illegal_iff_unchanged(Move::Down);
        if self.spec_make_move(Move::Left) == self && self.spec_make_move(Move::Right) == self
            && self.spec_make_move(Move::Up) == self && self.spec_make_move(Move::Down) == self {
            assert forall|mv: Move| !self.spec_is_legal(mv) by {
                match mv {
                    Move::Left => {},
                    Move::Right => {},
                    Move::Up => {},
                    Move::Down => {},
                }
            }
        }
        if self.spec_game_over() {
            assert(!self.spec_is_legal(Move::Left));
            assert(!self.spec_is_legal(Move::Right));
            assert(!self.spec_is_legal(Move::Up));
            assert(!self.spec_is_legal(Move::Down));
        }
        self.lemma_player_moves_sound(0);
        if self.spec_player_moves().len() == 0 {
            assert forall|mv: Move| !self.spec_is_legal(mv) by {
                if self.spec_is_legal(mv) {
                    self.lemma_player_moves_complete(0, mv);
                }
            }
        } else {
            let entry = self.spec_player_moves_from(0)[0];
            assert(self.spec_is_legal(entry.0));
        }
    }

    /// After a legal move the board has an empty cell.
    pub proof fn lemma_legal_move_leaves_empty(self, mv: Move)
        requires
            self.spec_is_legal(mv),
        ensures
            self.spec_make_move(mv).spec_count_empty() > 0,
    {
        let moved = self.spec_make_move(mv);
        self.lemma_make_move_view(mv);
        self.lemma_illegal_iff_unchanged(mv);
        self.lemma_unchanged_by_cells(mv);
        lemma_lines(mv);
        let i = lemma_changed_line(self@, mv);
        let tiles = line(self@, mv, i);
        lemma_changed_line_has_empty(tiles);
        let j = choose|j: int| 0 <= j < 4 && slid_line(tiles)[j] == 0;
        let k = line_cell(mv, i, j);
        assert(moved@[k] == 0);
        lemma_empty_from(moved@, 0);
        assert(empty_from(moved@, 0).contains(k));
    }

    /// The rows of a board are the lines of a move to the left, and from
    /// right to left those of a move to the right.
    pub proof fn lemma_rows_are_lines(self, r: int)
        requires
            0 <= r < 4,
        ensures
            self.spec_row(r)@ == line(self@, Move::Left, r),
            self.spec_row(r)@.reverse() == line(self@, Move::Right, r),
    {
        self.lemma_row_view(r);
        assert(self.spec_row(r)@ =~= line(self@, Move::Left, r));
        assert(self.spec_row(r)@.reverse() =~= line(self@, Move::Right, r));
    }

    /// The rows of the mirrored board are the lines of a move up, and from
    /// right to left those of a move down.
    pub proof fn lemma_columns_are_lines(self, c: int)
        requires
            0 <= c < 4,
        ensures
            self.spec_transpose().spec_row(c)@ == line(self@, Move::Up, c),
            self.spec_transpose().spec_row(c)@.reverse() == line(self@, Move::Down, c),
    {
        let mirrored = self.spec_transpose();
        self.lemma_transpose_view();
        mirrored.lemma_row_view(c);
        assert(mirrored.spec_row(c)@ =~= line(self@, Move::Up, c));
        assert(mirrored.spec_row(c)@.reverse() =~= line(self@, Move::Down, c));
    }

    /// A board that shows what a move makes of the tiles of `self` is
    /// `self` after the move.
    pub proof fn lemma_moved_by_cells(self, moved: Grid, mv: Move)
        requires
            moved@.len() == 16,
            forall|k: int| 0 <= k < 16 ==> moved@[k] == #[trigger] moved_cells(self@, mv)[k],
        ensures
            moved == self.spec_make_move(mv),
    {
        assert(moved@ =~= moved_cells(self@, mv));
        self.lemma_make_move_view(mv);
        moved.lemma_view_injective(self.spec_make_move(mv));
    }

    /// A board whose rows are the rows of `self` after a move to the left is
    /// `self` after that move.
    pub proof fn lemma_left_by_rows(self, rows: Seq<Row>)
        requires
            rows.len() == 4,
            forall|r: int|
                0 <= r < 4 ==> #[trigger] rows[r] == spec_move_row_left(self.spec_row(r)),
        ensures
            Grid::spec_from_rows(rows) == self.spec_make_move(Move::Left),
    {
        let moved = Grid::spec_from_rows(rows);
        Grid::lemma_rows_of_from_rows(rows);
        assert forall|r: int| 0 <= r < 4 implies (#[trigger] rows[r])@ == slid_line(
            line(self@, Move::Left, r),
        ) by {
            self.lemma_rows_are_lines(r);
            lemma_move_row_views(self.spec_row(r));
        }
        assert forall|k: int| 0 <= k < 16 implies moved@[k] == #[trigger] moved_cells(
            self@,
            Move::Left,
        )[k] by {
            assert(rows[k / 4]@ == slid_line(line(self@, Move::Left, k / 4)));
        }
        self.lemma_moved_by_cells(moved, Move::Left);
    }

    /// A board whose rows are the rows of `self` after a move to the right
    /// is `self` after that move.
    pub proof fn lemma_right_by_rows(self, rows: Seq<Row>)
        requires
            rows.len() == 4,
            forall|r: int|
                0 <= r < 4 ==> #[trigger] rows[r] == spec_move_row_right(self.spec_row(r)),
        ensures
            Grid::spec_from_rows(rows) == self.spec_make_move(Move::Right),
    {
        let moved = Grid::spec_from_rows(rows);
        Grid::lemma_rows_of_from_rows(rows);
        assert forall|r: int| 0 <= r < 4 implies (#[trigger] rows[r])@ == slid_line(
            line(self@, Move::Right, r),
        ).reverse() by {
            self.lemma_rows_are_lines(r);
            lemma_move_row_views(self.spec_row(r));
        }
        assert forall|k: int| 0 <= k < 16 implies moved@[k] == #[trigger] moved_cells(
            self@,
            Move::Right,
        )[k] by {
            lemma_merge_len(line(self@, Move::Right, k / 4));
            assert(rows[k / 4]@ == slid_line(line(self@, Move::Right, k / 4)).reverse());
        }
        self.lemma_moved_by_cells(moved, Move::Right);
    }

    /// A board whose columns show the rows of the mirrored `self` after a
    /// move to the left is `self` after a move up.
    pub proof fn lemma_up_by_columns(self, moved: Grid, columns: Seq<Column>)
        requires
            columns.len() == 4,
            moved@ == columns_cells(columns),
            forall|c: int|
                0 <= c < 4 ==> (#[trigger] columns[c])@ == spec_move_row_left(
                    self.spec_transpose().spec_row(c),
                )@,
        ensures
            moved == self.spec_make_move(Move::Up),
    {
        assert forall|c: int| 0 <= c < 4 implies (#[trigger] columns[c])@ == slid_line(
            line(self@, Move::Up, c),
        ) by {
            self.lemma_columns_are_lines(c);
            lemma_move_row_views(self.spec_transpose().spec_row(c));
        }
        assert forall|k: int| 0 <= k < 16 implies moved@[k] == #[trigger] moved_cells(
            self@,
            Move::Up,
        )[k] by {
            assert(columns[k % 4]@ == slid_line(line(self@, Move::Up, k % 4)));
        }
        self.lemma_moved_by_cells(moved, Move::Up);
    }

    /// A board whose columns show the rows of the mirrored `self` after a
    /// move to the right is `self` after a move down.
    pub proof fn lemma_down_by_columns(self, moved: Grid, columns: Seq<Column>)
        requires
            columns.len() == 4,
            moved@ == columns_cells(columns),
            forall|c: int|
                0 <= c < 4 ==> (#[trigger] columns[c])@ == spec_move_row_right(
                    self.spec_transpose().spec_row(c),
                )@,
        ensures
            moved == self.spec_make_move(Move::Down),
    {
        assert forall|c: int| 0 <= c < 4 implies (#[trigger] columns[c])@ == slid_line(
            line(self@, Move::Down, c),
        ).reverse() by {
            self.lemma_columns_are_lines(c);
            lemma_move_row_views(self.spec_transpose().spec_row(c));
        }
        assert forall|k: int| 0 <= k < 16 implies moved@[k] == #[trigger] moved_cells(
            self@,
            Move::Down,
        )[k] by {
            lemma_merge_len(line(self@, Move::Down, k % 4));
            assert(columns[k % 4]@ == slid_line(line(self@, Move::Down, k % 4)).reverse());
        }
        self.lemma_moved_by_cells(moved, Move::Down);
    }

    /// The board after a move to the left.
    pub fn move_left(self) -> (moved: Grid)
        ensures
            moved == self.spec_make_move(Move::Left),
    {
        let rows = self.rows();
        let row0 = move_row_left(rows[0]);
        let row1 = move_row_left(rows[1]);
        let row2 = move_row_left(rows[2]);
        let row3 = move_row_left(rows[3]);
        let moved_rows: [Row; 4] = [row0, row1, row2, row3];
        proof {
            self.lemma_left_by_rows(moved_rows@);
        }
        Grid::from_rows(moved_rows)
    }

    /// The board after a move to the right.
    pub fn move_right(self) -> (moved: Grid)
        ensures
            moved == self.spec_make_move(Move::Right),
    {
        let rows = self.rows();
        let row0 = move_row_right(rows[0]);
        let row1 = move_row_right(rows[1]);
        let row2 = move_row_right(rows[2]);
        let row3 = move_row_right(rows[3]);
        let moved_rows: [Row; 4] = [row0, row1, row2, row3];
        proof {
            self.lemma_right_by_rows(moved_rows@);
        }
        Grid::from_rows(moved_rows)
    }

    /// The board after a move up.
    pub fn move_up(self) -> (moved: Grid)
        ensures
            moved == self.spec_make_move(Move::Up),
    {
        let rows = self.transpose().rows();
        let col0 = Column::from_row(move_row_left(rows[0]));
        let col1 = Column::from_row(move_row_left(rows[1]));
        let col2 = Column::from_row(move_row_left(rows[2]));
        let col3 = Column::from_row(move_row_left(rows[3]));
        let columns: [Column; 4] = [col0, col1, col2, col3];
        let moved = Grid::from_columns(columns);
        proof {
            self.lemma_up_by_columns(moved, columns@);
        }
        moved
    }

    /// The board after a move down.
    pub fn move_down(self) -> (moved: Grid)
        ensures
            moved == self.spec_make_move(Move::Down),
    {
        let rows = self.transpose().rows();
        let col0 = Column::from_row(move_row_right(rows[0]));
        let col1 = Column::from_row(move_row_right(rows[1]));
        let col2 = Column::from_row(move_row_right(rows[2]));
        let col3 = Column::from_row(move_row_right(rows[3]));
        let columns: [Column; 4] = [col0, col1, col2, col3];
        let moved = Grid::from_columns(columns);
        proof {
            self.lemma_down_by_columns(moved, columns@);
        }
        moved
    }

    /// The board that results from a move: the tiles slide as far as they
    /// can in its direction, and two equal tiles that meet merge into the
    /// next tile, each tile at most once.
    pub fn make_move(self, mv: Move) -> (moved: Grid)
        ensures
            moved == self.spec_make_move(mv),
            moved@ == moved_cells(self@, mv),
    {
        proof {
            self.lemma_make_move_view(mv);
        }
        match mv {
            Move::Left => self.move_left(),
            Move::Right => self.move_right(),
            Move::Up => self.move_up(),
            Move::Down => self.move_down(),
        }
    }

    /// The moves that change the board, in the fixed order of the moves,
    /// each with the board it leads to.
    pub fn player_moves(self) -> (moves: Vec<(Move, Grid)>)
        ensures
            moves@ == self.spec_player_moves(),
    {
        let mut moves: Vec<(Move, Grid)> = Vec::new();
        let mut i: usize = 0;
        assert(moves@ + self.spec_player_moves_from(0) =~= self.spec_player_moves());
        while i < 4
            invariant
                i <= 4,
                moves@ + self.spec_player_moves_from(i as int) == self.spec_player_moves(),
            decreases 4 - i,
        {
            let m = MOVES[i];
            let new_grid = self.make_move(m);
            let ghost given = moves@;
            proof {
                self.lemma_illegal_iff_unchanged(m);
            }
            if new_grid != self {
                moves.push((m, new_grid));
            }
            assert(moves@ + self.spec_player_moves_from(i + 1) =~= given
                + self.spec_player_moves_from(i as int));
            i += 1;
        }
        assert(moves@ + self.spec_player_moves_from(4) =~= moves@);
        moves
    }

    /// Whether the game is over: no move changes the board.
    pub fn game_over(self) -> (over: bool)
        ensures
            over == self.spec_game_over(),
            over <==> forall|mv: Move| self.spec_make_move(mv) == self,
    {
        proof {
            assert forall|mv: Move| self.spec_make_move(mv) == self <==> !self.spec_is_legal(
                mv,
            ) by {
                self.lemma_illegal_iff_unchanged(mv);
            }
        }
        let mut i: usize = 0;
        while i < 4
            invariant
                i <= 4,
                forall|j: int| 0 <= j < i ==> !self.spec_is_legal(#[trigger] MOVES@[j]),
            decreases 4 - i,
        {
            proof {
                self.lemma_illegal_iff_unchanged(MOVES@[i as int]);
            }
            if self.make_move(MOVES[i]) != self {
                assert(self.spec_is_legal(MOVES@[i as int]));
                return false;
            }
            i += 1;
        }
        proof {
            assert forall|mv: Move| !self.spec_is_legal(mv) by {
                assert(MOVES@[mv.spec_ordinal()] == mv);
            }
        }
        true
    }
}

} // verus!
