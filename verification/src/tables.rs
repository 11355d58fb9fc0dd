//! The four moves of every row, computed once and looked up afterwards.

use crate::game_logic::{Grid, Move};
use crate::row::{Column, Row};
use crate::slide::{move_row_left, move_row_right, spec_move_row_left, spec_move_row_right};
use vstd::prelude::*;

verus! {

/// The number of rows there are: one for each sixteen-bit word.
pub const ROW_COUNT: usize = 65536;

/// For each of the 65536 rows, the row after a move to the left and after a
/// move to the right, and the same two as columns, for the moves up and
/// down.
pub struct MoveTables {
    left: Vec<Row>,
    right: Vec<Row>,
    up: Vec<Column>,
    down: Vec<Column>,
}

impl MoveTables {
    /// Each table has an entry for every row, and the entry is the move of
    /// that row.
    #[verifier::type_invariant]
    pub closed spec fn wf(self) -> bool {
        &&& self.left@.len() == ROW_COUNT
        &&& self.right@.len() == ROW_COUNT
        &&& self.up@.len() == ROW_COUNT
        &&& self.down@.len() == ROW_COUNT
        &&& forall|i: int|
            0 <= i < ROW_COUNT ==> #[trigger] self.left@[i] == spec_move_row_left(Row(i as u16))
        &&& forall|i: int|
            0 <= i < ROW_COUNT ==> #[trigger] self.right@[i] == spec_move_row_right(Row(i as u16))
        &&& forall|i: int|
            0 <= i < ROW_COUNT ==> #[trigger] self.up@[i] == Column::spec_from_row(
                spec_move_row_left(Row(i as u16)),
            )
        &&& forall|i: int|
            0 <= i < ROW_COUNT ==> #[trigger] self.down@[i] == Column::spec_from_row(
                spec_move_row_right(Row(i as u16)),
            )
    }

    /// Computes the four tables.
    pub fn new() -> (tables: MoveTables)
        ensures
            tables.wf(),
    {
        let mut left: Vec<Row> = Vec::new();
        let mut right: Vec<Row> = Vec::new();
        let mut up: Vec<Column> = Vec::new();
        let mut down: Vec<Column> = Vec::new();
        let mut index: usize = 0;
        while index < ROW_COUNT
            invariant
                index <= ROW_COUNT,
                left@.len() == index,
                right@.len() == index,
                up@.len() == index,
                down@.len() == index,
                forall|i: int|
                    0 <= i < index ==> #[trigger] left@[i] == spec_move_row_left(Row(i as u16)),
                forall|i: int|
                    0 <= i < index ==> #[trigger] right@[i] == spec_move_row_right(Row(i as u16)),
                forall|i: int|
                    0 <= i < index ==> #[trigger] up@[i] == Column::spec_from_row(
                        spec_move_row_left(Row(i as u16)),
                    ),
                forall|i: int|
                    0 <= i < index ==> #[trigger] down@[i] == Column::spec_from_row(
                        spec_move_row_right(Row(i as u16)),
                    ),
            decreases ROW_COUNT - index,
        {
            let row = Row(index as u16);
            let to_left = move_row_left(row);
            let to_right = move_row_right(row);
            left.push(to_left);
            right.push(to_right);
            up.push(Column::from_row(to_left));
            down.push(Column::from_row(to_right));
            index += 1;
        }
        MoveTables { left, right, up, down }
    }

    /// The row after a move to the left.
    pub fn lookup_left(&self, row: Row) -> (moved: Row)
        ensures
            moved == spec_move_row_left(row),
    {
        proof {
            use_type_invariant(self);
        }
        self.left[row.0 as usize]
    }

    /// The row after a move to the right.
    pub fn lookup_right(&self, row: Row) -> (moved: Row)
        ensures
            moved == spec_move_row_right(row),
    {
        proof {
            use_type_invariant(self);
        }
        self.right[row.0 as usize]
    }

    /// The row after a move to the left, as a column.
    pub fn lookup_up(&self, row: Row) -> (moved: Column)
        ensures
            moved == Column::spec_from_row(spec_move_row_left(row)),
    {
        proof {
            use_type_invariant(self);
        }
        self.up[row.0 as usize]
    }

    /// The row after a move to the right, as a column.
    pub fn lookup_down(&self, row: Row) -> (moved: Column)
        ensures
            moved == Column::spec_from_row(spec_move_row_right(row)),
    {
        proof {
            use_type_invariant(self);
        }
        self.down[row.0 as usize]
    }

    /// The board after a move to the left.
    pub fn move_left(&self, grid: Grid) -> (moved: Grid)
        ensures
            moved == grid.spec_make_move(Move::Left),
    {
        let rows = grid.rows();
        let row0 = self.lookup_left(rows[0]);
        let row1 = self.lookup_left(rows[1]);
        let row2 = self.lookup_left(rows[2]);
        let row3 = self.lookup_left(rows[3]);
        let moved_rows: [Row; 4] = [row0, row1, row2, row3];
        proof {
            grid.lemma_left_by_rows(moved_rows@);
        }
        Grid::from_rows(moved_rows)
    }

    /// The board after a move to the right.
    pub fn move_right(&self, grid: Grid) -> (moved: Grid)
        ensures
            moved == grid.spec_make_move(Move::Right),
    {
        let rows = grid.rows();
        let row0 = self.lookup_right(rows[0]);
        let row1 = self.lookup_right(rows[1]);
        let row2 = self.lookup_right(rows[2]);
        let row3 = self.lookup_right(rows[3]);
        let moved_rows: [Row; 4] = [row0, row1, row2, row3];
        proof {
            grid.lemma_right_by_rows(moved_rows@);
        }
        Grid::from_rows(moved_rows)
    }

    /// The board after a move up.
    pub fn move_up(&self, grid: Grid) -> (moved: Grid)
        ensures
            moved == grid.spec_make_move(Move::Up),
    {
        let rows = grid.transpose().rows();
        let col0 = self.lookup_up(rows[0]);
        let col1 = self.lookup_up(rows[1]);
        let col2 = self.lookup_up(rows[2]);
        let col3 = self.lookup_up(rows[3]);
        let columns: [Column; 4] = [col0, col1, col2, col3];
        proof {
            Column::lemma_from_row(spec_move_row_left(rows[0]));
            Column::lemma_from_row(spec_move_row_left(rows[1]));
            Column::lemma_from_row(spec_move_row_left(rows[2]));
            Column::lemma_from_row(spec_move_row_left(rows[3]));
        }
        let moved = Grid::from_columns(columns);
        proof {
            grid.lemma_up_by_columns(moved, columns@);
        }
        moved
    }

    /// The board after a move down.
    pub fn move_down(&self, grid: Grid) -> (moved: Grid)
        ensures
            moved == grid.spec_make_move(Move::Down),
    {
        let rows = grid.transpose().rows();
        let col0 = self.lookup_down(rows[0]);
        let col1 = self.lookup_down(rows[1]);
        let col2 = self.lookup_down(rows[2]);
        let col3 = self.lookup_down(rows[3]);
        let columns: [Column; 4] = [col0, col1, col2, col3];
        proof {
            Column::lemma_from_row(spec_move_row_right(rows[0]));
            Column::lemma_from_row(spec_move_row_right(rows[1]));
            Column::lemma_from_row(spec_move_row_right(rows[2]));
            Column::lemma_from_row(spec_move_row_right(rows[3]));
        }
        let moved = Grid::from_columns(columns);
        proof {
            grid.lemma_down_by_columns(moved, columns@);
        }
        moved
    }

    /// The board that results from a move, by four lookups: the same board
    /// as `Grid::make_move` gives.
    pub fn make_move(&self, grid: Grid, mv: Move) -> (moved: Grid)
        ensures
            moved == grid.spec_make_move(mv),
    {
        match mv {
            Move::Left => self.move_left(grid),
            Move::Right => self.move_right(grid),
            Move::Up => self.move_up(grid),
            Move::Down => self.move_down(grid),
        }
    }
}

} // verus!
