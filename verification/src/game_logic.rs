//! The board of a 2048 game in one 64-bit word, and its encodings.

use crate::bits::{
    join_columns, join_rows, lemma_join_columns, lemma_join_of_rows, lemma_join_rows,
    lemma_nib64_bound, lemma_row_nibs, lemma_transpose_nibs, nib64, row_bits, transpose_bits,
};
use crate::row::{tiles_fit, Column, Row};
use vstd::prelude::*;

verus! {

/// A move of the player.
#[derive(Clone, Copy, Debug, PartialEq, Eq, Structural, Hash)]
pub enum Move {
    /// Move left.
    Left,
    /// Move right.
    Right,
    /// Move up.
    Up,
    /// Move down.
    Down,
}

/// All possible moves, in their fixed order.
pub const MOVES: [Move; 4] = [Move::Left, Move::Right, Move::Up, Move::Down];

impl Move {
    /// The place of the move in the fixed order: 0 for left, 1 for right, 2
    /// for up, 3 for down.
    pub open spec fn spec_ordinal(self) -> int {
        match self {
            Move::Left => 0,
            Move::Right => 1,
            Move::Up => 2,
            Move::Down => 3,
        }
    }

    /// The move at a place of the fixed order.
    pub open spec fn spec_from_ordinal(ordinal: int) -> Move {
        if ordinal == 0 {
            Move::Left
        } else if ordinal == 1 {
            Move::Right
        } else if ordinal == 2 {
            Move::Up
        } else {
            Move::Down
        }
    }

    /// The place of the move in the fixed order.
    pub fn ordinal(self) -> (ordinal: usize)
        ensures
            ordinal == self.spec_ordinal(),
            ordinal < 4,
            MOVES@[ordinal as int] == self,
    {
        match self {
            Move::Left => 0,
            Move::Right => 1,
            Move::Up => 2,
            Move::Down => 3,
        }
    }

    /// The move at a place of the fixed order, if there is one.
    pub fn from_ordinal(ordinal: usize) -> (mv: Option<Move>)
        ensures
            mv is Some <==> ordinal < 4,
            mv matches Some(m) ==> m.spec_ordinal() == ordinal && m == Move::spec_from_ordinal(
                ordinal as int,
            ),
    {
        if ordinal == 0 {
            Some(Move::Left)
        } else if ordinal == 1 {
            Some(Move::Right)
        } else if ordinal == 2 {
            Some(Move::Up)
        } else if ordinal == 3 {
            Some(Move::Down)
        } else {
            None
        }
    }
}

/// A board: sixteen tiles in 64 bits, row by row, the top left tile in the
/// most significant nibble. A tile `k > 0` stands for the number `2^k`, and 0
/// for an empty cell.
#[derive(Clone, Copy, Debug, PartialEq, Eq, Structural, Hash)]
pub struct Grid(pub u64);

impl View for Grid {
    type V = Seq<u8>;

    /// The sixteen tiles, row by row from the top left.
    open spec fn view(&self) -> Seq<u8> {
        Seq::new(16, |k: int| nib64(self.0, (15 - k) as u64) as u8)
    }
}

impl Default for Grid {
    /// The empty board.
    fn default() -> (grid: Grid)
        ensures
            grid == Grid(0),
    {
        Grid(0)
    }
}

/// The tiles of four rows, one row after the other.
pub open spec fn rows_cells(rows: Seq<Row>) -> Seq<u8> {
    Seq::new(16, |k: int| rows[k / 4]@[k % 4])
}

/// Sixteen tiles mirrored at the main diagonal of the board: the tile at row
/// `r` and column `c` of the result is the tile at row `c` and column `r`.
pub open spec fn transposed_cells(cells: Seq<u8>) -> Seq<u8> {
    Seq::new(16, |k: int| cells[4 * (k % 4) + k / 4])
}

/// The tiles of four columns, read row by row.
pub open spec fn columns_cells(columns: Seq<Column>) -> Seq<u8> {
    Seq::new(16, |k: int| columns[k % 4]@[k / 4])
}

/// Four rows of four entries as one sequence, row by row.
pub open spec fn grid_cells<T>(grid: [[T; 4]; 4]) -> Seq<T> {
    Seq::new(16, |k: int| grid[k / 4][k % 4])
}

impl Grid {
    /// The row `r` of the board, counted from the top.
    pub open spec fn spec_row(self, r: int) -> Row {
        Row(row_bits(self.0, r as u64))
    }

    /// The four rows of the board, top to bottom.
    pub open spec fn spec_rows(self) -> Seq<Row> {
        Seq::new(4, |r: int| self.spec_row(r))
    }

    /// The board made of four rows, top to bottom.
    pub open spec fn spec_from_rows(rows: Seq<Row>) -> Grid {
        Grid(join_rows(rows[0].0, rows[1].0, rows[2].0, rows[3].0))
    }

    /// The board that shows the sixteen tiles of `cells`, which must fit.
    #[verifier::opaque]
    pub open spec fn spec_from_cells(cells: Seq<u8>) -> Grid {
        Grid::spec_from_rows(Seq::new(4, |r: int| Row::spec_pack(cells.subrange(4 * r, 4 * r + 4))))
    }

    /// Every tile of a board fits in a nibble.
    pub proof fn lemma_tiles_fit(self)
        ensures
            self@.len() == 16,
            tiles_fit(self@),
    {
        assert forall|k: int| 0 <= k < 16 implies #[trigger] self@[k] <= 15 by {
            lemma_nib64_bound(self.0, (15 - k) as u64);
        }
    }

    /// The board zero shows sixteen empty cells.
    pub proof fn lemma_empty_board()
        ensures
            Grid(0)@ == Seq::new(16, |k: int| 0u8),
    {
        assert forall|k: int| 0 <= k < 16 implies Grid(0)@[k] == 0 by {
            lemma_nib64_bound(0, (15 - k) as u64);
        }
        assert(Grid(0)@ =~= Seq::new(16, |k: int| 0u8));
    }

    /// The row `r` of a board shows the tiles `4 * r` to `4 * r + 3` of it.
    pub proof fn lemma_row_view(self, r: int)
        requires
            0 <= r < 4,
        ensures
            self.spec_row(r)@ == self@.subrange(4 * r, 4 * r + 4),
    {
        lemma_row_nibs(self.0, r as u64, 0);
        lemma_row_nibs(self.0, r as u64, 1);
        lemma_row_nibs(self.0, r as u64, 2);
        lemma_row_nibs(self.0, r as u64, 3);
        assert(self.spec_row(r)@ =~= self@.subrange(4 * r, 4 * r + 4));
    }

    /// A board shows the tiles of its rows, one row after the other.
    pub proof fn lemma_view_by_rows(self)
        ensures
            self@ == rows_cells(self.spec_rows()),
    {
        self.lemma_row_view(0);
        self.lemma_row_view(1);
        self.lemma_row_view(2);
        self.lemma_row_view(3);
        assert forall|k: int| 0 <= k < 16 implies self@[k] == rows_cells(self.spec_rows())[k] by {
            let r = k / 4;
            assert(self.spec_row(r)@[k % 4] == self@.subrange(4 * r, 4 * r + 4)[k % 4]);
        }
        assert(self@ =~= rows_cells(self.spec_rows()));
    }

    /// The board made of four rows has them as its rows, and shows their
    /// tiles.
    pub proof fn lemma_rows_of_from_rows(rows: Seq<Row>)
        requires
            rows.len() == 4,
        ensures
            Grid::spec_from_rows(rows).spec_rows() == rows,
            Grid::spec_from_rows(rows)@ == rows_cells(rows),
    {
        lemma_join_rows(rows[0].0, rows[1].0, rows[2].0, rows[3].0);
        let grid = Grid::spec_from_rows(rows);
        assert(grid.spec_rows() =~= rows);
        grid.lemma_view_by_rows();
    }

    /// A board is made of its four rows.
    pub proof fn lemma_from_rows_of_rows(self)
        ensures
            Grid::spec_from_rows(self.spec_rows()) == self,
    {
        lemma_join_of_rows(self.0);
    }

    /// Two boards that show the same tiles are the same board.
    pub proof fn lemma_view_injective(self, other: Grid)
        requires
            self@ == other@,
        ensures
            self == other,
    {
        assert forall|r: int| 0 <= r < 4 implies self.spec_row(r) == other.spec_row(r) by {
            self.lemma_row_view(r);
            other.lemma_row_view(r);
            self.spec_row(r).lemma_view_injective(other.spec_row(r));
        }
        self.lemma_from_rows_of_rows();
        other.lemma_from_rows_of_rows();
        assert(self.spec_rows() =~= other.spec_rows());
    }

    /// The board built from sixteen tiles that fit shows exactly those tiles.
    pub proof fn lemma_view_of_from_cells(cells: Seq<u8>)
        requires
            cells.len() == 16,
            tiles_fit(cells),
        ensures
            Grid::spec_from_cells(cells)@ == cells,
    {
        reveal(Grid::spec_from_cells);
        let rows = Seq::new(4, |r: int| Row::spec_pack(cells.subrange(4 * r, 4 * r + 4)));
        Grid::lemma_rows_of_from_rows(rows);
        assert forall|k: int| 0 <= k < 16 implies rows_cells(rows)[k] == cells[k] by {
            let r = k / 4;
            Row::lemma_view_of_pack(cells.subrange(4 * r, 4 * r + 4));
            assert(cells.subrange(4 * r, 4 * r + 4)[k % 4] == cells[k]);
        }
        assert(Grid::spec_from_cells(cells)@ =~= cells);
    }

    /// A board is the one built from the tiles it shows.
    pub proof fn lemma_from_cells_of_view(self)
        ensures
            Grid::spec_from_cells(self@) == self,
    {
        self.lemma_tiles_fit();
        Grid::lemma_view_of_from_cells(self@);
        Grid::spec_from_cells(self@).lemma_view_injective(self);
    }

    /// The four rows of the board, top to bottom.
    pub fn rows(self) -> (rows: [Row; 4])
        ensures
            rows@ == self.spec_rows(),
            rows_cells(rows@) == self@,
    {
        proof {
            lemma_nib64_bound(self.0, 0);
            self.lemma_view_by_rows();
        }
        let row1 = Row(((self.0 >> 48) & 0xFFFF) as u16);
        let row2 = Row(((self.0 >> 32) & 0xFFFF) as u16);
        let row3 = Row(((self.0 >> 16) & 0xFFFF) as u16);
        let row4 = Row((self.0 & 0xFFFF) as u16);
        let rows: [Row; 4] = [row1, row2, row3, row4];
        assert(rows@ =~= self.spec_rows());
        rows
    }

    /// The board made of four rows, top to bottom.
    pub fn from_rows(rows: [Row; 4]) -> (grid: Grid)
        ensures
            grid == Grid::spec_from_rows(rows@),
            grid.spec_rows() == rows@,
            grid@ == rows_cells(rows@),
    {
        proof {
            Grid::lemma_rows_of_from_rows(rows@);
        }
        Grid(
            ((rows[0].0 as u64) << 48) | ((rows[1].0 as u64) << 32) | ((rows[2].0 as u64) << 16) | (
            rows[3].0 as u64),
        )
    }

    /// The board that shows in its column `c` the tiles of `columns[c]`,
    /// when each of them holds a column and nothing else.
    pub fn from_columns(columns: [Column; 4]) -> (grid: Grid)
        ensures
            grid.0 == join_columns(columns[0].0, columns[1].0, columns[2].0, columns[3].0),
            (forall|c: int| 0 <= c < 4 ==> (#[trigger] columns[c]).wf()) ==> grid@ == columns_cells(
                columns@,
            ),
    {
        let grid = Grid(
            (columns[0].0 << 12) | (columns[1].0 << 8) | (columns[2].0 << 4) | columns[3].0,
        );
        proof {
            if forall|c: int| 0 <= c < 4 ==> (#[trigger] columns[c]).wf() {
                assert(columns[0].wf() && columns[1].wf() && columns[2].wf() && columns[3].wf());
                assert forall|k: int| 0 <= k < 16 implies
                    grid@[k] == columns_cells(columns@)[k] by {
                    lemma_join_columns(
                        columns[0].0,
                        columns[1].0,
                        columns[2].0,
                        columns[3].0,
                        (k / 4) as u64,
                    );
                }
                assert(grid@ =~= columns_cells(columns@));
            }
        }
        grid
    }

    /// The board given as four rows of four tiles, or nothing when a tile
    /// does not fit in a nibble.
    pub fn from_log(grid: [[u8; 4]; 4]) -> (packed: Option<Grid>)
        ensures
            packed is Some <==> tiles_fit(grid_cells(grid)),
            packed matches Some(g) ==> g@ == grid_cells(grid),
    {
        let mut rows: [Row; 4] = [Row(0), Row(0), Row(0), Row(0)];
        let mut x: usize = 0;
        while x < 4
            invariant
                x <= 4,
                forall|r: int| 0 <= r < x ==> (#[trigger] rows[r])@ == grid[r]@,
                forall|r: int| 0 <= r < x ==> tiles_fit(#[trigger] grid[r]@),
            decreases 4 - x,
        {
            match Row::pack(grid[x]) {
                Some(row) => {
                    rows[x] = row;
                },
                None => {
                    proof {
                        let bad = choose|i: int|
                            0 <= i < 4 && !(#[trigger] grid[x as int]@[i] <= 15);
                        assert(grid_cells(grid)[4 * x + bad] == grid[x as int][bad]);
                    }
                    return None;
                },
            }
            x += 1;
        }
        let packed = Grid::from_rows(rows);
        proof {
            assert forall|k: int| 0 <= k < 16 implies
                packed@[k] == grid_cells(grid)[k] && grid_cells(grid)[k] <= 15 by {
                assert(rows[k / 4]@ == grid[k / 4]@);
                assert(tiles_fit(grid[k / 4]@));
                assert(grid[k / 4]@[k % 4] <= 15);
            }
            assert(packed@ =~= grid_cells(grid));
        }
        Some(packed)
    }

    /// The tiles of the board as four rows of four.
    pub fn unpack_log(self) -> (grid: [[u8; 4]; 4])
        ensures
            grid_cells(grid) == self@,
    {
        let rows = self.rows();
        let grid: [[u8; 4]; 4] = [
            rows[0].unpack(),
            rows[1].unpack(),
            rows[2].unpack(),
            rows[3].unpack(),
        ];
        proof {
            assert forall|k: int| 0 <= k < 16 implies grid_cells(grid)[k] == self@[k] by {
                assert(grid[k / 4]@ == rows[k / 4]@);
                assert(rows_cells(rows@)[k] == rows[k / 4]@[k % 4]);
            }
            assert(grid_cells(grid) =~= self@);
        }
        grid
    }

    /// The board mirrored at its main diagonal.
    pub open spec fn spec_transpose(self) -> Grid {
        Grid(transpose_bits(self.0))
    }

    /// The mirrored board shows the mirrored tiles.
    pub proof fn lemma_transpose_view(self)
        ensures
            self.spec_transpose()@ == transposed_cells(self@),
    {
        assert forall|k: int| 0 <= k < 16 implies self.spec_transpose()@[k] == transposed_cells(
            self@,
        )[k] by {
            lemma_transpose_nibs(self.0, (k / 4) as u64, (k % 4) as u64);
        }
        assert(self.spec_transpose()@ =~= transposed_cells(self@));
    }

    /// Mirroring a board twice gives the board.
    pub proof fn lemma_transpose_twice(self)
        ensures
            self.spec_transpose().spec_transpose() == self,
    {
        self.lemma_transpose_view();
        self.spec_transpose().lemma_transpose_view();
        self.lemma_tiles_fit();
        assert(transposed_cells(transposed_cells(self@)) =~= self@);
        self.spec_transpose().spec_transpose().lemma_view_injective(self);
    }

    /// The board mirrored at its main diagonal: the tile at row `r` and
    /// column `c` of the result is the tile at row `c` and column `r`.
    pub fn transpose(self) -> (mirrored: Grid)
        ensures
            mirrored == self.spec_transpose(),
            mirrored@ == transposed_cells(self@),
    {
        proof {
            self.lemma_transpose_view();
        }
        let x: u64 = self.0;
        let a1: u64 = x & 0xF0F0_0F0F_F0F0_0F0F;
        let a2: u64 = x & 0x0000_F0F0_0000_F0F0;
        let a3: u64 = x & 0x0F0F_0000_0F0F_0000;
        let a: u64 = a1 | (a2 << 12) | (a3 >> 12);
        let b1: u64 = a & 0xFF00_FF00_00FF_00FF;
        let b2: u64 = a & 0x00FF_00FF_0000_0000;
        let b3: u64 = a & 0x0000_0000_FF00_FF00;
        let ret: u64 = b1 | (b2 >> 24) | (b3 << 24);
        Grid(ret)
    }
}

} // verus!
