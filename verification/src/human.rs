//! Boards as people write them: a cell holds 0 or the number on its tile.

use crate::bits::lemma_shift_one;
use crate::game_logic::{grid_cells, Grid};
use crate::row::{tiles_fit, Row};
use vstd::arithmetic::power2::{lemma2_to64, lemma_pow2_strictly_increases, pow2};
use vstd::bits::lemma_u32_shl_is_mul;
use vstd::prelude::*;

verus! {

/// The number that a tile stands for: nothing for 0, and `2^tile` otherwise.
pub open spec fn human_value(tile: u8) -> u32 {
    if tile == 0 {
        0
    } else {
        1u32 << (tile as u32)
    }
}

/// Whether a number can stand in a cell: 0, or a power of two from 2 to
/// 32768.
pub open spec fn is_human_value(n: u32) -> bool {
    exists|tile: u8| tile <= 15 && human_value(tile) == n
}

/// The tile that stands for the number `n`, where there is one.
pub open spec fn spec_to_log(n: u32) -> u8 {
    choose|tile: u8| tile <= 15 && human_value(tile) == n
}

/// Whether every number of `cells` can stand in a cell.
pub open spec fn valid_human(cells: Seq<u32>) -> bool {
    forall|k: int| 0 <= k < cells.len() ==> is_human_value(#[trigger] cells[k])
}

/// A tile from 1 to 15 stands for two to the power of the tile.
pub proof fn lemma_human_value_is_power(tile: u8)
    requires
        1 <= tile <= 15,
    ensures
        human_value(tile) == pow2(tile as nat),
        2 <= human_value(tile) <= 32768,
{
    lemma2_to64();
    if tile < 15 {
        lemma_pow2_strictly_increases(tile as nat, 15);
    }
    lemma_pow2_strictly_increases(0, tile as nat);
    lemma_u32_shl_is_mul(1, tile as u32);
}

/// Two tiles that stand for the same number are the same tile.
pub proof fn lemma_human_value_injective(a: u8, b: u8)
    requires
        a <= 15,
        b <= 15,
        human_value(a) == human_value(b),
    ensures
        a == b,
{
    lemma_shift_one(a as u32, b as u32);
    lemma_shift_one(b as u32, a as u32);
}

/// The tile of a number that a tile stands for is that tile.
pub proof fn lemma_to_log_of_human_value(tile: u8)
    requires
        tile <= 15,
    ensures
        is_human_value(human_value(tile)),
        spec_to_log(human_value(tile)) == tile,
{
    lemma_human_value_injective(spec_to_log(human_value(tile)), tile);
}

/// The tile that stands for the number `n`: 0 for 0, `k` for `2^k` with `k`
/// from 1 to 15, and none for any other number.
pub fn to_log(n: u32) -> (log: Option<u8>)
    ensures
        log is Some <==> is_human_value(n),
        log matches Some(tile) ==> tile <= 15 && human_value(tile) == n && tile == spec_to_log(n),
{
    if n == 0 {
        proof {
            lemma_to_log_of_human_value(0);
        }
        return Some(0);
    }
    let mut tile: u8 = 1;
    while tile <= 15
        invariant
            1 <= tile <= 16,
            n != 0,
            forall|t: u8| 1 <= t < tile ==> human_value(t) != n,
        decreases 16 - tile,
    {
        if (1u32 << (tile as u32)) == n {
            proof {
                lemma_to_log_of_human_value(tile);
            }
            return Some(tile);
        }
        tile += 1;
    }
    None
}

impl Grid {
    /// The sixteen numbers that the board shows to a person, row by row.
    pub open spec fn spec_unpack_human(self) -> Seq<u32> {
        Seq::new(16, |k: int| human_value(self@[k]))
    }

    /// The board that shows the sixteen numbers of `cells` to a person, if
    /// each of them can stand in a cell.
    pub open spec fn spec_from_human(cells: Seq<u32>) -> Option<Grid> {
        if valid_human(cells) {
            Some(Grid::spec_from_cells(Seq::new(16, |k: int| spec_to_log(cells[k]))))
        } else {
            None
        }
    }

    /// Creates a board from the numbers on its tiles, 0 for an empty cell.
    /// There is no board if a number is neither 0 nor a power of two from 2
    /// to 32768.
    pub fn from_human(grid: [[u32; 4]; 4]) -> (packed: Option<Grid>)
        ensures
            packed == Grid::spec_from_human(grid_cells(grid)),
            packed is Some <==> valid_human(grid_cells(grid)),
            packed matches Some(g) ==> g.spec_unpack_human() == grid_cells(grid),
    {
        let ghost cells = grid_cells(grid);
        let mut rows: [Row; 4] = [Row(0), Row(0), Row(0), Row(0)];
        let mut x: usize = 0;
        while x < 4
            invariant
                x <= 4,
                cells == grid_cells(grid),
                forall|r: int, c: int|
                    0 <= r < x && 0 <= c < 4 ==> (#[trigger] rows[r]@[c]) <= 15 && human_value(
                        rows[r]@[c],
                    ) == grid[r][c],
            decreases 4 - x,
        {
            let mut new_row: [u8; 4] = [0, 0, 0, 0];
            let mut y: usize = 0;
            while y < 4
                invariant
                    x < 4,
                    y <= 4,
                    cells == grid_cells(grid),
                    forall|c: int|
                        0 <= c < y ==> (#[trigger] new_row[c]) <= 15 && human_value(new_row[c])
                            == grid[x as int][c],
                decreases 4 - y,
            {
                match to_log(grid[x][y]) {
                    Some(log) => {
                        new_row[y] = log;
                    },
                    None => {
                        assert(cells[4 * x + y] == grid[x as int][y as int]);
                        return None;
                    },
                }
                y += 1;
            }
            assert(tiles_fit(new_row@));
            match Row::pack(new_row) {
                Some(row) => {
                    rows[x] = row;
                },
                None => {
                    return None;
                },
            }
            x += 1;
        }
        let packed = Grid::from_rows(rows);
        proof {
            assert forall|k: int| 0 <= k < 16 implies is_human_value(#[trigger] cells[k])
                && packed@[k] == spec_to_log(cells[k]) && human_value(packed@[k]) == cells[k] by {
                assert(rows[k / 4]@[k % 4] <= 15);
                assert(packed@[k] == rows[k / 4]@[k % 4]);
                lemma_to_log_of_human_value(packed@[k]);
            }
            assert(packed@ =~= Seq::new(16, |k: int| spec_to_log(cells[k])));
            packed.lemma_from_cells_of_view();
            assert(packed.spec_unpack_human() =~= cells);
        }
        Some(packed)
    }

    /// The numbers on the tiles of the board, 0 for an empty cell.
    pub fn unpack_human(self) -> (grid: [[u32; 4]; 4])
        ensures
            grid_cells(grid) == self.spec_unpack_human(),
    {
        let mut result: [[u32; 4]; 4] = [[0, 0, 0, 0], [0, 0, 0, 0], [0, 0, 0, 0], [0, 0, 0, 0]];
        let grid_u8 = self.unpack_log();
        let mut x: usize = 0;
        while x < 4
            invariant
                x <= 4,
                grid_cells(grid_u8) == self@,
                forall|r: int, c: int|
                    0 <= r < x && 0 <= c < 4 ==> (#[trigger] result[r][c]) == human_value(
                        grid_u8[r][c],
                    ),
            decreases 4 - x,
        {
            let mut row: [u32; 4] = [0, 0, 0, 0];
            let mut y: usize = 0;
            while y < 4
                invariant
                    x < 4,
                    y <= 4,
                    grid_cells(grid_u8) == self@,
                    forall|c: int|
                        0 <= c < y ==> (#[trigger] row[c]) == human_value(grid_u8[x as int][c]),
                decreases 4 - y,
            {
                let tile: u8 = grid_u8[x][y];
                proof {
                    self.lemma_tiles_fit();
                    assert(grid_cells(grid_u8)[4 * x + y] == tile);
                }
                row[y] = if tile == 0 {
                    0
                } else {
                    1u32 << (tile as u32)
                };
                y += 1;
            }
            result[x] = row;
            x += 1;
        }
        proof {
            assert forall|k: int| 0 <= k < 16 implies
                grid_cells(result)[k] == self.spec_unpack_human()[k] by {
                assert(result[k / 4][k % 4] == human_value(grid_u8[k / 4][k % 4]));
                assert(grid_cells(grid_u8)[k] == grid_u8[k / 4][k % 4]);
            }
            assert(grid_cells(result) =~= self.spec_unpack_human());
        }
        result
    }

    /// Reading back the numbers of a board made from valid numbers gives
    /// those numbers.
    pub proof fn lemma_human_round_trip(cells: Seq<u32>)
        requires
            cells.len() == 16,
            valid_human(cells),
        ensures
            Grid::spec_from_human(cells) matches Some(g) && g.spec_unpack_human() == cells,
    {
        let tiles = Seq::new(16, |k: int| spec_to_log(cells[k]));
        assert forall|k: int| 0 <= k < 16 implies #[trigger] tiles[k] <= 15 && human_value(
            tiles[k],
        ) == cells[k] by {
            assert(is_human_value(cells[k]));
        }
        Grid::lemma_view_of_from_cells(tiles);
        assert(Grid::spec_from_cells(tiles).spec_unpack_human() =~= cells);
    }

    /// Making a board from the numbers that a board shows gives that board.
    pub proof fn lemma_from_human_of_human(self)
        ensures
            Grid::spec_from_human(self.spec_unpack_human()) == Some(self),
    {
        let cells = self.spec_unpack_human();
        self.lemma_tiles_fit();
        assert forall|k: int| 0 <= k < 16 implies is_human_value(#[trigger] cells[k])
            && spec_to_log(cells[k]) == self@[k] by {
            lemma_to_log_of_human_value(self@[k]);
        }
        assert(Seq::new(16, |k: int| spec_to_log(cells[k])) =~= self@);
        self.lemma_from_cells_of_view();
    }
}

} // verus!
