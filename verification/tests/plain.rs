use ai2048_lib::game_logic::{Grid, Move, MOVES};
use ai2048_lib::row::Row;
use ai2048_lib::slide::move_row_left;
use ai2048_lib::tables::MoveTables;

/// A stream of boards that repeats from run to run.
struct Boards(u64);

impl Boards {
    fn next(&mut self) -> u64 {
        self.0 ^= self.0 << 13;
        self.0 ^= self.0 >> 7;
        self.0 ^= self.0 << 17;
        self.0
    }

    /// A board with many empty cells and small tiles, as a game has them.
    fn sparse(&mut self) -> Grid {
        let tiles = self.next();
        let holes = self.next() & self.next();
        let mut word = 0u64;
        for k in 0..16 {
            let tile = (tiles >> (4 * k)) & 0x3;
            if (holes >> (4 * k)) & 1 == 0 {
                word |= tile << (4 * k);
            }
        }
        Grid(word)
    }
}

fn cells(board: Grid) -> [[u8; 4]; 4] {
    let mut cells = [[0u8; 4]; 4];
    for r in 0..4 {
        for c in 0..4 {
            cells[r][c] = ((board.0 >> (60 - 16 * r - 4 * c)) & 0xF) as u8;
        }
    }
    cells
}

fn slide_plain(line: [u8; 4]) -> [u8; 4] {
    let tiles: Vec<u8> = line.iter().cloned().filter(|&t| t != 0).collect();
    let mut merged: Vec<u8> = Vec::new();
    let mut i = 0;
    while i < tiles.len() {
        if i + 1 < tiles.len() && tiles[i] == tiles[i + 1] {
            merged.push(tiles[i] + 1);
            i += 2;
        } else {
            merged.push(tiles[i]);
            i += 1;
        }
    }
    if merged.iter().any(|&t| t > 15) {
        return [0; 4];
    }
    let mut out = [0u8; 4];
    for (place, tile) in merged.into_iter().enumerate() {
        out[place] = tile;
    }
    out
}

fn move_plain(board: Grid, mv: Move) -> [[u8; 4]; 4] {
    let before = cells(board);
    let mut after = [[0u8; 4]; 4];
    for i in 0..4 {
        let at = |j: usize| match mv {
            Move::Left => (i, j),
            Move::Right => (i, 3 - j),
            Move::Up => (j, i),
            Move::Down => (3 - j, i),
        };
        let mut line = [0u8; 4];
        for j in 0..4 {
            let (r, c) = at(j);
            line[j] = before[r][c];
        }
        let slid = slide_plain(line);
        for j in 0..4 {
            let (r, c) = at(j);
            after[r][c] = slid[j];
        }
    }
    after
}

#[test]
fn every_row_slides_as_by_hand() {
    for word in 0..=u16::MAX {
        let row = Row(word);
        assert_eq!(move_row_left(row).unpack(), slide_plain(row.unpack()));
    }
}

#[test]
fn boards_move_as_by_hand() {
    let tables = MoveTables::new();
    let mut boards = Boards(0x2545_F491_4F6C_DD1D);
    for round in 0..4000 {
        let board = if round % 2 == 0 {
            Grid(boards.next())
        } else {
            boards.sparse()
        };
        for mv in MOVES {
            let moved = board.make_move(mv);
            assert_eq!(cells(moved), move_plain(board, mv));
            assert_eq!(tables.make_move(board, mv), moved);
        }
    }
}

#[test]
fn boards_are_counted_as_by_hand() {
    let mut boards = Boards(0x9E37_79B9_7F4A_7C15);
    for round in 0..4000 {
        let board = if round % 2 == 0 {
            Grid(boards.next())
        } else {
            boards.sparse()
        };
        let tiles: Vec<u8> = cells(board).iter().flatten().cloned().collect();
        let empty = tiles.iter().filter(|&&t| t == 0).count();
        let mut kinds: Vec<u8> = tiles.iter().cloned().filter(|&t| t != 0).collect();
        kinds.sort();
        kinds.dedup();
        assert_eq!(board.count_empty(), empty);
        assert_eq!(board.count_distinct_tiles(), kinds.len());
        assert_eq!(board.ai_moves_with2().len(), empty);
        assert_eq!(board.unpack_log(), cells(board));
        let mirrored = cells(board.transpose());
        for r in 0..4 {
            for c in 0..4 {
                assert_eq!(mirrored[r][c], cells(board)[c][r]);
            }
        }
    }
}

#[test]
fn games_can_be_played_to_the_end() {
    let mut boards = Boards(0xD1B5_4A32_D192_ED03);
    for _ in 0..20 {
        let mut board = Grid::default()
            .add_random_tile()
            .unwrap()
            .add_random_tile()
            .unwrap();
        let mut turns = 0;
        while !board.game_over() {
            let moves = board.player_moves();
            let pick = (boards.next() % moves.len() as u64) as usize;
            let (mv, moved) = moves[pick];
            assert_eq!(moved, board.make_move(mv));
            assert_ne!(moved, board);
            board = moved.add_random_tile().unwrap();
            turns += 1;
            assert!(turns < 100_000);
        }
        assert!(board.player_moves().is_empty());
        assert_eq!(board.count_empty(), 0);
    }
}
