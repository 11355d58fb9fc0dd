use ai2048_lib::game_logic::{Grid, Move, MOVES};
use ai2048_lib::human::to_log;
use ai2048_lib::row::{Column, Row};
use ai2048_lib::slide::{move_row_left, move_row_right};
use ai2048_lib::spawn::AiMoves;
use ai2048_lib::tables::MoveTables;

fn grid(cells: [[u8; 4]; 4]) -> Grid {
    Grid::from_log(cells).unwrap()
}

fn left(tiles: [u8; 4]) -> [u8; 4] {
    move_row_left(Row::pack(tiles).unwrap()).unpack()
}

fn right(tiles: [u8; 4]) -> [u8; 4] {
    move_row_right(Row::pack(tiles).unwrap()).unpack()
}

#[test]
fn moves_have_their_fixed_order() {
    assert_eq!(MOVES, [Move::Left, Move::Right, Move::Up, Move::Down]);
    assert_eq!(Move::Left.ordinal(), 0);
    assert_eq!(Move::Right.ordinal(), 1);
    assert_eq!(Move::Up.ordinal(), 2);
    assert_eq!(Move::Down.ordinal(), 3);
    for (place, mv) in MOVES.iter().enumerate() {
        assert_eq!(Move::from_ordinal(place), Some(*mv));
    }
    assert_eq!(Move::from_ordinal(4), None);
}

#[test]
fn moves_have_names() {
    assert_eq!(Move::Left.to_string(), "Left");
    assert_eq!(Move::Right.to_string(), "Right");
    assert_eq!(Move::Up.to_string(), "Up");
    assert_eq!(Move::Down.to_string(), "Down");
}

#[test]
fn row_packs_the_leftmost_tile_highest() {
    assert_eq!(Row::pack([1, 2, 3, 4]), Some(Row(0x1234)));
    assert_eq!(Row::pack([15, 0, 0, 15]), Some(Row(0xF00F)));
    assert_eq!(Row(0x1234).unpack(), [1, 2, 3, 4]);
    assert_eq!(Row::default(), Row(0));
}

#[test]
fn row_rejects_a_tile_above_fifteen() {
    assert_eq!(Row::pack([16, 0, 0, 0]), None);
    assert_eq!(Row::pack([0, 0, 0, 16]), None);
    assert_eq!(Row::pack([0, 255, 0, 0]), None);
}

#[test]
fn row_reverses() {
    assert_eq!(Row(0x1234).reverse(), Row(0x4321));
    assert_eq!(Row(0xF000).reverse(), Row(0x000F));
    assert_eq!(Row(0xABCD).reverse().reverse(), Row(0xABCD));
}

#[test]
fn column_spreads_a_row_over_the_rows() {
    assert_eq!(Column::from_row(Row(0x1234)).0, 0x0001_0002_0003_0004);
    assert_eq!(Column::from_row(Row(0xFFFF)).0, 0x000F_000F_000F_000F);
    assert_eq!(Column::default().0, 0);
}

#[test]
fn grid_has_the_top_row_highest() {
    let board = grid([[1, 2, 3, 4], [5, 6, 7, 8], [9, 10, 11, 12], [13, 14, 15, 0]]);
    assert_eq!(board, Grid(0x1234_5678_9ABC_DEF0));
    assert_eq!(
        board.rows(),
        [Row(0x1234), Row(0x5678), Row(0x9ABC), Row(0xDEF0)]
    );
    assert_eq!(
        board.unpack_log(),
        [[1, 2, 3, 4], [5, 6, 7, 8], [9, 10, 11, 12], [13, 14, 15, 0]]
    );
}

#[test]
fn from_log_rejects_a_tile_above_fifteen() {
    assert_eq!(
        Grid::from_log([[0, 0, 0, 0], [0, 0, 0, 0], [0, 0, 16, 0], [0, 0, 0, 0]]),
        None
    );
}

#[test]
fn to_log_knows_the_powers_of_two() {
    assert_eq!(to_log(0), Some(0));
    assert_eq!(to_log(2), Some(1));
    assert_eq!(to_log(4), Some(2));
    assert_eq!(to_log(1024), Some(10));
    assert_eq!(to_log(32768), Some(15));
}

#[test]
fn to_log_rejects_every_other_number() {
    assert_eq!(to_log(1), None);
    assert_eq!(to_log(3), None);
    assert_eq!(to_log(5), None);
    assert_eq!(to_log(6), None);
    assert_eq!(to_log(32767), None);
    assert_eq!(to_log(32769), None);
    assert_eq!(to_log(65536), None);
    assert_eq!(to_log(1 << 31), None);
    assert_eq!(to_log(u32::MAX), None);
}

#[test]
fn from_human_rejects_what_is_no_tile() {
    let mut cells = [[0u32; 4]; 4];
    for bad in [1u32, 3, 5, 7, 12, 65536, 1 << 20, u32::MAX] {
        cells[2][1] = bad;
        assert_eq!(Grid::from_human(cells), None);
    }
    cells[2][1] = 32768;
    assert_eq!(
        Grid::from_human(cells),
        Some(grid([[0, 0, 0, 0], [0, 0, 0, 0], [0, 15, 0, 0], [0, 0, 0, 0]]))
    );
}

#[test]
fn human_numbers_come_back() {
    let human = [
        [2, 0, 0, 32768],
        [0, 4, 8, 0],
        [16, 16, 0, 2],
        [0, 0, 0, 2048],
    ];
    assert_eq!(Grid::from_human(human).unwrap().unpack_human(), human);
    let board = Grid(0x0123_4567_89AB_CDEF);
    assert_eq!(Grid::from_human(board.unpack_human()), Some(board));
}

#[test]
fn transpose_twice_is_the_board() {
    for board in [
        Grid(0),
        Grid(0x1234_5678_9ABC_DEF0),
        Grid(0xFFFF_0000_1111_2222),
        Grid(u64::MAX),
    ] {
        assert_eq!(board.transpose().transpose(), board);
    }
    assert_eq!(
        Grid(0x1234_5678_9ABC_DEF0).transpose(),
        Grid(0x159D_26AE_37BF_48C0)
    );
}

#[test]
fn count_empty_counts_the_zero_tiles() {
    assert_eq!(Grid(0).count_empty(), 16);
    assert_eq!(Grid::default().count_empty(), 16);
    assert_eq!(Grid(u64::MAX).count_empty(), 0);
    assert_eq!(Grid(0x1234_5678_9ABC_DEF0).count_empty(), 1);
    assert_eq!(Grid(0x0000_0000_0000_0001).count_empty(), 15);
    assert_eq!(Grid(0x1000_0000_0000_0000).count_empty(), 15);
    assert_eq!(Grid(0x1010_0101_8040_0201).count_empty(), 8);
    assert_eq!(Grid(0x8421_8421_8421_8421).count_empty(), 0);
}

#[test]
fn count_distinct_tiles_leaves_out_the_empty_cells() {
    assert_eq!(Grid(0).count_distinct_tiles(), 0);
    assert_eq!(Grid(0x1111_1111_1111_1111).count_distinct_tiles(), 1);
    assert_eq!(Grid(0x0000_0000_0000_0001).count_distinct_tiles(), 1);
    assert_eq!(Grid(0x1000_0000_0000_0000).count_distinct_tiles(), 1);
    assert_eq!(Grid(0x1234_5678_9ABC_DEF0).count_distinct_tiles(), 15);
    assert_eq!(Grid(0x1234_1234_0000_4321).count_distinct_tiles(), 4);
    assert_eq!(Grid(u64::MAX).count_distinct_tiles(), 1);
}

#[test]
fn row_slides_to_the_left() {
    assert_eq!(left([0, 0, 0, 0]), [0, 0, 0, 0]);
    assert_eq!(left([0, 0, 0, 3]), [3, 0, 0, 0]);
    assert_eq!(left([0, 2, 0, 3]), [2, 3, 0, 0]);
    assert_eq!(left([1, 2, 3, 4]), [1, 2, 3, 4]);
}

#[test]
fn row_merges_each_tile_once() {
    assert_eq!(left([1, 1, 0, 0]), [2, 0, 0, 0]);
    assert_eq!(left([1, 1, 1, 1]), [2, 2, 0, 0]);
    assert_eq!(left([1, 1, 2, 0]), [2, 2, 0, 0]);
    assert_eq!(left([2, 1, 1, 0]), [2, 2, 0, 0]);
    assert_eq!(left([1, 0, 0, 1]), [2, 0, 0, 0]);
    assert_eq!(left([1, 1, 1, 0]), [2, 1, 0, 0]);
    assert_eq!(left([3, 3, 4, 4]), [4, 5, 0, 0]);
    assert_eq!(left([14, 14, 0, 0]), [15, 0, 0, 0]);
}

#[test]
fn row_without_a_tile_for_the_merge_becomes_empty() {
    assert_eq!(left([15, 15, 0, 0]), [0, 0, 0, 0]);
    assert_eq!(left([1, 15, 15, 2]), [0, 0, 0, 0]);
    assert_eq!(right([3, 0, 15, 15]), [0, 0, 0, 0]);
}

#[test]
fn row_slides_to_the_right() {
    assert_eq!(right([3, 0, 0, 0]), [0, 0, 0, 3]);
    assert_eq!(right([1, 1, 1, 0]), [0, 0, 1, 2]);
    assert_eq!(right([1, 1, 1, 1]), [0, 0, 2, 2]);
    assert_eq!(right([1, 2, 3, 4]), [1, 2, 3, 4]);
}

#[test]
fn illegal_move_leaves_the_board() {
    let board = Grid::from_human([[2, 4, 8, 16], [0, 0, 0, 0], [0, 0, 0, 0], [0, 0, 0, 0]])
        .unwrap();
    assert_eq!(board.make_move(Move::Left), board);
    assert_eq!(board.make_move(Move::Right), board);
    assert_eq!(board.make_move(Move::Up), board);
    assert_ne!(board.make_move(Move::Down), board);
    let legal: Vec<Move> = board.player_moves().into_iter().map(|m| m.0).collect();
    assert_eq!(legal, vec![Move::Down]);
    assert!(!board.game_over());
}

#[test]
fn game_is_over_when_no_move_changes_the_board() {
    let boards = [
        Grid(0),
        Grid(0x1212_2121_1212_2121),
        Grid(0x1234_5678_9ABC_DEF0),
        Grid(0x1111_1111_1111_1111),
        Grid(0x1212_2121_1212_2120),
    ];
    for board in boards {
        let unchanged = MOVES.iter().all(|&mv| board.make_move(mv) == board);
        assert_eq!(board.game_over(), unchanged);
        assert_eq!(board.player_moves().is_empty(), unchanged);
    }
    assert!(Grid(0).game_over());
    assert!(Grid(0x1212_2121_1212_2121).game_over());
    assert!(!Grid(0x1111_1111_1111_1111).game_over());
}

#[test]
fn legal_move_leaves_an_empty_cell() {
    let boards = [
        Grid(0x1111_1111_1111_1111),
        Grid(0x1234_5678_9ABC_DEF0),
        Grid(0x1212_2121_1212_2122),
        Grid(0x0000_0100_0000_0000),
    ];
    for board in boards {
        for (_, moved) in board.player_moves() {
            assert!(moved.count_empty() > 0);
        }
    }
}

#[test]
fn tables_give_the_moves_of_every_row() {
    let tables = MoveTables::new();
    for word in 0..=u16::MAX {
        let row = Row(word);
        assert_eq!(tables.lookup_left(row), move_row_left(row));
        assert_eq!(tables.lookup_right(row), move_row_right(row));
        assert_eq!(tables.lookup_up(row).0, Column::from_row(move_row_left(row)).0);
        assert_eq!(tables.lookup_down(row).0, Column::from_row(move_row_right(row)).0);
    }
}

#[test]
fn tables_make_the_same_moves() {
    let tables = MoveTables::new();
    let boards = [
        Grid(0),
        Grid(0x1234_5678_9ABC_DEF0),
        Grid(0x1100_0011_2002_0330),
        Grid(0xFFFF_FFFF_FFFF_FFFF),
        Grid(0x0001_0001_0002_0002),
        Grid::from_human([[2, 2, 4, 4], [0, 2, 2, 0], [0, 2, 2, 2], [2, 0, 0, 2]]).unwrap(),
    ];
    for board in boards {
        for mv in MOVES {
            assert_eq!(tables.make_move(board, mv), board.make_move(mv));
        }
    }
    let board = Grid::from_human([[2, 2, 4, 4], [0, 2, 2, 0], [0, 2, 2, 2], [2, 0, 0, 2]]).unwrap();
    assert_eq!(
        tables.make_move(board, Move::Up),
        Grid::from_human([[4, 4, 4, 4], [0, 2, 4, 4], [0, 0, 0, 0], [0, 0, 0, 0]]).unwrap()
    );
}

#[test]
fn computer_moves_come_cell_by_cell() {
    let board = grid([[0, 3, 3, 3], [3, 3, 0, 3], [3, 3, 3, 0], [3, 0, 3, 3]]);
    let mut walk = AiMoves::new(board, 1);
    assert_eq!(
        walk.next(),
        Some(grid([[1, 3, 3, 3], [3, 3, 0, 3], [3, 3, 3, 0], [3, 0, 3, 3]]))
    );
    assert_eq!(
        walk.next(),
        Some(grid([[0, 3, 3, 3], [3, 3, 1, 3], [3, 3, 3, 0], [3, 0, 3, 3]]))
    );
    assert_eq!(
        walk.next(),
        Some(grid([[0, 3, 3, 3], [3, 3, 0, 3], [3, 3, 3, 1], [3, 0, 3, 3]]))
    );
    assert_eq!(
        walk.next(),
        Some(grid([[0, 3, 3, 3], [3, 3, 0, 3], [3, 3, 3, 0], [3, 1, 3, 3]]))
    );
    assert_eq!(walk.next(), None);
    assert_eq!(walk.next(), None);
}

#[test]
fn computer_moves_are_as_many_as_empty_cells() {
    let boards = [
        Grid(0),
        Grid(u64::MAX),
        Grid(0x1234_5678_9ABC_DEF0),
        Grid(0x1010_0101_8040_0201),
    ];
    for board in boards {
        let with2 = board.ai_moves_with2();
        let with4 = board.ai_moves_with4();
        assert_eq!(with2.len(), board.count_empty());
        assert_eq!(with4.len(), board.count_empty());
        for (two, four) in with2.iter().zip(with4.iter()) {
            let changed: Vec<usize> = (0..16)
                .filter(|&k| (two.0 >> (4 * k)) & 0xF != (board.0 >> (4 * k)) & 0xF)
                .collect();
            assert_eq!(changed.len(), 1);
            let k = changed[0];
            assert_eq!((board.0 >> (4 * k)) & 0xF, 0);
            assert_eq!((two.0 >> (4 * k)) & 0xF, 1);
            assert_eq!((four.0 >> (4 * k)) & 0xF, 2);
            assert_eq!(four.0, board.0 | (2 << (4 * k)));
        }
    }
    assert!(Grid(u64::MAX).ai_moves_with2().is_empty());
    assert_eq!(Grid(0).ai_moves_with(5).len(), 16);
    assert_eq!(Grid(0).ai_moves_with(5)[0], Grid(0x5000_0000_0000_0000));
    assert_eq!(Grid(0).ai_moves_with(5)[15], Grid(0x0000_0000_0000_0005));
}

#[test]
fn spawn_at_counts_the_empty_cells() {
    let board = grid([[0, 3, 3, 3], [3, 3, 0, 3], [3, 3, 3, 0], [3, 0, 3, 3]]);
    assert_eq!(
        board.spawn_at(0, true),
        grid([[2, 3, 3, 3], [3, 3, 0, 3], [3, 3, 3, 0], [3, 0, 3, 3]])
    );
    assert_eq!(
        board.spawn_at(3, false),
        grid([[0, 3, 3, 3], [3, 3, 0, 3], [3, 3, 3, 0], [3, 1, 3, 3]])
    );
}

#[test]
fn random_tile_needs_an_empty_cell() {
    assert_eq!(Grid(u64::MAX).add_random_tile(), None);
    assert_eq!(Grid(0x1234_5678_9ABC_DEF1).add_random_tile(), None);
    assert_eq!(
        Grid(0x1234_5678_9ABC_DEF0).add_random_tile().map(|g| g.0 & !0x3),
        Some(0x1234_5678_9ABC_DEF0)
    );
}

#[test]
fn random_tile_is_a_move_of_the_computer() {
    let board = grid([[0, 3, 3, 3], [3, 3, 0, 3], [3, 3, 3, 0], [3, 0, 3, 3]]);
    let with2 = board.ai_moves_with2();
    let with4 = board.ai_moves_with4();
    for _ in 0..200 {
        let spawned = board.add_random_tile().unwrap();
        assert!(with2.contains(&spawned) || with4.contains(&spawned));
    }
}

#[test]
fn random_tile_falls_on_every_cell_and_is_of_both_kinds() {
    let board = Grid(0);
    let mut cells = [false; 16];
    let mut twos = 0;
    let mut fours = 0;
    for _ in 0..4000 {
        let spawned = board.add_random_tile().unwrap();
        let k = (0..16).find(|&k| (spawned.0 >> (4 * k)) & 0xF != 0).unwrap();
        cells[k] = true;
        match (spawned.0 >> (4 * k)) & 0xF {
            1 => twos += 1,
            2 => fours += 1,
            other => panic!("tile {}", other),
        }
    }
    assert!(cells.iter().all(|&seen| seen));
    assert!(fours > 0);
    assert!(twos > fours);
}

#[test]
fn rows_and_boards_show_their_bits() {
    assert_eq!(Row(0x1234).to_debug_string(), "[0001 0010 0011 0100]");
    assert_eq!(Row(0xF00A).to_debug_string(), "[1111 0000 0000 1010]");
    assert_eq!(
        Grid(0x1234_5678_9ABC_DEF0).to_debug_string(),
        "[0001 0010 0011 0100] [0101 0110 0111 1000] [1001 1010 1011 1100] [1101 1110 1111 0000] "
    );
}

#[test]
fn empty_board_is_written_with_zeros() {
    assert_eq!(
        Grid::default().to_string(),
        "     0     0     0     0\n".repeat(4)
    );
}
