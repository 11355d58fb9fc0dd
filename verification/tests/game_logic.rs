use ai2048_lib::game_logic::{Grid, Move};
use ai2048_lib::row::{Column, Row};

#[test]
fn can_create_empty_grid() {
    let expected =
        Grid::from_human([[0, 0, 0, 0], [0, 0, 0, 0], [0, 0, 0, 0], [0, 0, 0, 0]]).unwrap();

    let actual = Grid::default();

    assert_eq!(expected, actual);
}

#[test]
fn can_create_grid_from_human_input() {
    let human = [
        [0, 2, 4, 8],
        [16, 32, 64, 128],
        [256, 512, 1024, 2048],
        [4096, 8192, 16384, 32768],
    ];

    let actual = Grid::from_human(human);

    assert!(actual.is_some());
    assert_eq!(human, actual.unwrap().unpack_human());
}

#[test]
fn can_return_none_on_invalid_input() {
    let result = Grid::from_human([[0, 1, 2, 3], [4, 5, 6, 7], [8, 9, 10, 11], [12, 13, 14, 15]]);

    assert!(result.is_none());
}

#[test]
fn can_add_random_tile() {
    for _ in 0..1000 {
        let mut grid = Grid::default();
        for _ in 0..8 {
            grid = grid.add_random_tile().unwrap();
        }

        let count = grid
            .unpack_log()
            .iter()
            .flatten()
            .filter(|&&v| v == 1 || v == 2)
            .count();

        assert_eq!(8, count);
    }
}

#[test]
fn can_to_string() {
    let grid = Grid::from_human([
        [0, 2, 4, 8],
        [16, 32, 64, 128],
        [256, 512, 1024, 2048],
        [4096, 8192, 16384, 32768],
    ])
    .unwrap();

    let mut expected = String::new();
    expected.push_str("     0     2     4     8\n");
    expected.push_str("    16    32    64   128\n");
    expected.push_str("   256   512  1024  2048\n");
    expected.push_str("  4096  8192 16384 32768\n");

    let actual = grid.to_string();

    assert_eq!(expected, actual);
}

#[test]
fn can_make_move_left() {
    let grid = Grid::from_human([[2, 2, 4, 4], [0, 2, 2, 0], [0, 2, 2, 2], [2, 0, 0, 2]]).unwrap();
    let expected =
        Grid::from_human([[4, 8, 0, 0], [4, 0, 0, 0], [4, 2, 0, 0], [4, 0, 0, 0]]).unwrap();

    let actual = grid.make_move(Move::Left);

    assert_eq!(expected, actual);
}

#[test]
fn can_make_move_right() {
    let grid = Grid::from_human([[2, 2, 4, 4], [0, 2, 2, 0], [0, 2, 2, 2], [2, 0, 0, 2]]).unwrap();
    let expected =
        Grid::from_human([[0, 0, 4, 8], [0, 0, 0, 4], [0, 0, 2, 4], [0, 0, 0, 4]]).unwrap();

    let actual = grid.make_move(Move::Right);

    assert_eq!(expected, actual);
}

#[test]
fn can_make_move_up() {
    let grid = Grid::from_human([[2, 2, 4, 4], [0, 2, 2, 0], [0, 2, 2, 2], [2, 0, 0, 2]]).unwrap();
    let expected =
        Grid::from_human([[4, 4, 4, 4], [0, 2, 4, 4], [0, 0, 0, 0], [0, 0, 0, 0]]).unwrap();

    let actual = grid.make_move(Move::Up);

    assert_eq!(expected, actual);
}

#[test]
fn can_make_move_down() {
    let grid = Grid::from_human([[2, 2, 4, 4], [0, 2, 2, 0], [0, 2, 2, 2], [2, 0, 0, 2]]).unwrap();
    let expected =
        Grid::from_human([[0, 0, 0, 0], [0, 0, 0, 0], [0, 2, 4, 4], [4, 4, 4, 4]]).unwrap();

    let actual = grid.make_move(Move::Down);

    assert_eq!(expected, actual);
}

#[test]
fn can_possible_grids_with2() {
    let grid = Grid::from_human([[0, 8, 8, 8], [8, 8, 0, 8], [8, 8, 8, 0], [8, 0, 8, 8]]).unwrap();

    let expected = vec![
        Grid::from_human([[2, 8, 8, 8], [8, 8, 0, 8], [8, 8, 8, 0], [8, 0, 8, 8]]).unwrap(),
        Grid::from_human([[0, 8, 8, 8], [8, 8, 2, 8], [8, 8, 8, 0], [8, 0, 8, 8]]).unwrap(),
        Grid::from_human([[0, 8, 8, 8], [8, 8, 0, 8], [8, 8, 8, 2], [8, 0, 8, 8]]).unwrap(),
        Grid::from_human([[0, 8, 8, 8], [8, 8, 0, 8], [8, 8, 8, 0], [8, 2, 8, 8]]).unwrap(),
    ];

    let actual = grid.ai_moves_with2();

    assert_eq!(expected, actual);
}

#[test]
fn can_possible_grids_with4() {
    let grid = Grid::from_human([[0, 8, 8, 8], [8, 8, 0, 8], [8, 8, 8, 0], [8, 0, 8, 8]]).unwrap();

    let expected = vec![
        Grid::from_human([[4, 8, 8, 8], [8, 8, 0, 8], [8, 8, 8, 0], [8, 0, 8, 8]]).unwrap(),
        Grid::from_human([[0, 8, 8, 8], [8, 8, 4, 8], [8, 8, 8, 0], [8, 0, 8, 8]]).unwrap(),
        Grid::from_human([[0, 8, 8, 8], [8, 8, 0, 8], [8, 8, 8, 4], [8, 0, 8, 8]]).unwrap(),
        Grid::from_human([[0, 8, 8, 8], [8, 8, 0, 8], [8, 8, 8, 0], [8, 4, 8, 8]]).unwrap(),
    ];

    let actual = grid.ai_moves_with4();

    assert_eq!(expected, actual);
}

#[test]
fn can_make_player_moves() {
    let grid = Grid::from_human([[0, 0, 0, 2], [0, 2, 0, 2], [4, 0, 0, 2], [0, 0, 0, 2]]).unwrap();

    let mut player_moves = grid.player_moves().into_iter();

    assert_eq!(
        Some((
            Move::Left,
            Grid::from_human([[2, 0, 0, 0], [4, 0, 0, 0], [4, 2, 0, 0], [2, 0, 0, 0]]).unwrap()
        )),
        player_moves.next()
    );
    assert_eq!(
        Some((
            Move::Right,
            Grid::from_human([[0, 0, 0, 2], [0, 0, 0, 4], [0, 0, 4, 2], [0, 0, 0, 2],]).unwrap()
        )),
        player_moves.next()
    );
    assert_eq!(
        Some((
            Move::Up,
            Grid::from_human([[4, 2, 0, 4], [0, 0, 0, 4], [0, 0, 0, 0], [0, 0, 0, 0],]).unwrap()
        )),
        player_moves.next()
    );
    assert_eq!(
        Some((
            Move::Down,
            Grid::from_human([[0, 0, 0, 0], [0, 0, 0, 0], [0, 0, 0, 4], [4, 2, 0, 4],]).unwrap()
        )),
        player_moves.next()
    );
    assert_eq!(None, player_moves.next());
}

#[test]
fn can_detect_terminal_state() {
    let terminal_grid =
        Grid::from_human([[4, 16, 8, 4], [8, 128, 32, 2], [2, 32, 16, 8], [4, 2, 4, 2]]).unwrap();
    let normal_grid =
        Grid::from_human([[0, 8, 8, 8], [8, 8, 0, 8], [8, 8, 8, 0], [8, 0, 8, 8]]).unwrap();

    assert!(terminal_grid.game_over());
    assert!(!normal_grid.game_over());
}

#[test]
fn can_transpose() {
    let grid = Grid::from_human([
        [0, 2, 4, 8],
        [16, 32, 64, 128],
        [256, 512, 1024, 2048],
        [4096, 8192, 16384, 32768],
    ])
    .unwrap();
    let expected = Grid::from_human([
        [0, 16, 256, 4096],
        [2, 32, 512, 8192],
        [4, 64, 1024, 16384],
        [8, 128, 2048, 32768],
    ])
    .unwrap();
    let transposed = grid.transpose();
    assert_eq!(transposed, expected);
}

#[test]
fn can_to_rows_from_rows() {
    let grid = Grid::from_human([
        [0, 2, 4, 8],
        [16, 32, 64, 128],
        [256, 512, 1024, 2048],
        [4096, 8192, 16384, 32768],
    ])
    .unwrap();

    let roundtrip = Grid::from_rows(grid.rows());

    assert_eq!(roundtrip, grid);
}

#[test]
fn can_make_grid_from_columns() {
    let col0 = Column::from_row(Row::pack([0, 4, 8, 12]).unwrap());
    let col1 = Column::from_row(Row::pack([1, 5, 9, 13]).unwrap());
    let col2 = Column::from_row(Row::pack([2, 6, 10, 14]).unwrap());
    let col3 = Column::from_row(Row::pack([3, 7, 11, 15]).unwrap());
    let grid = Grid::from_columns([col0, col1, col2, col3]);
    let expected =
        Grid::from_log([[0, 1, 2, 3], [4, 5, 6, 7], [8, 9, 10, 11], [12, 13, 14, 15]]).unwrap();

    assert_eq!(grid, expected);
}
