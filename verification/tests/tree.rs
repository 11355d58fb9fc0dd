use ai2048_lib::game_logic::{Grid, Move};
use ai2048_lib::search_tree::SearchTree;
use ai2048_lib::tables::MoveTables;
use std::sync::Arc;

fn two_moves_board() -> Grid {
    Grid::from_human([[0, 2, 4, 2], [0, 4, 2, 4], [4, 2, 4, 2], [2, 4, 2, 4]]).unwrap()
}

#[test]
fn new_tree_knows_its_root_only() {
    let board = two_moves_board();
    let tree: SearchTree<u32> = SearchTree::new(board);
    assert_eq!(*tree.root().board(), board);
    assert_eq!(tree.known_player_node_count(), 1);
    assert_eq!(tree.known_computer_node_count(), 0);
    assert!(tree.root().children().is_none());
    assert_eq!(tree.root().data(), 0);
    assert!(tree.player_node(board).is_some());
    assert!(tree.player_node(Grid(0)).is_none());
    assert!(tree.computer_node(board).is_none());
}

#[test]
fn children_are_made_at_the_first_call_and_kept() {
    let board = two_moves_board();
    let mut tree: SearchTree<()> = SearchTree::new(board);
    assert!(tree.root().children().is_none());

    let first = tree.player_children(board).unwrap().iter();
    assert!(tree.root().children().is_some());
    assert_eq!(tree.root().children().unwrap().iter(), first);
    assert_eq!(tree.known_computer_node_count(), 2);

    let second = tree.player_children(board).unwrap().iter();
    assert_eq!(first, second);
    assert_eq!(tree.known_player_node_count(), 1);
    assert_eq!(tree.known_computer_node_count(), 2);
}

#[test]
fn player_children_are_the_legal_moves_in_order() {
    let board = two_moves_board();
    let mut tree: SearchTree<()> = SearchTree::new(board);
    let children = *tree.player_children(board).unwrap();

    assert_eq!(children.iter(), board.player_moves());
    assert_eq!(
        children.iter(),
        vec![
            (Move::Left, board.make_move(Move::Left)),
            (Move::Up, board.make_move(Move::Up)),
        ]
    );
    assert_eq!(
        children.values(),
        vec![board.make_move(Move::Left), board.make_move(Move::Up)]
    );
    assert_eq!(children.get(Move::Left), Some(board.make_move(Move::Left)));
    assert_eq!(children.get(Move::Right), None);
    assert_eq!(children.get(Move::Up), Some(board.make_move(Move::Up)));
    assert_eq!(children.get(Move::Down), None);
    assert!(!children.is_empty());
    for (mv, child) in children.iter() {
        assert_eq!(*tree.computer_node(child).unwrap().board(), board.make_move(mv));
    }
}

#[test]
fn node_at_the_end_of_the_game_has_no_children() {
    let board =
        Grid::from_human([[4, 16, 8, 4], [8, 128, 32, 2], [2, 32, 16, 8], [4, 2, 4, 2]]).unwrap();
    let mut tree: SearchTree<()> = SearchTree::new(board);
    let children = *tree.player_children(board).unwrap();
    assert!(children.is_empty());
    assert!(children.iter().is_empty());
    assert!(children.values().is_empty());
    assert_eq!(tree.known_computer_node_count(), 0);
}

#[test]
fn children_of_an_unknown_node_are_not_made() {
    let board = two_moves_board();
    let mut tree: SearchTree<()> = SearchTree::new(board);
    assert!(tree.player_children(Grid(0)).is_none());
    assert!(tree.computer_children(board).is_none());
    assert_eq!(tree.known_player_node_count(), 1);
    assert_eq!(tree.known_computer_node_count(), 0);
}

#[test]
fn computer_children_are_a_two_and_a_four_for_each_empty_cell() {
    let board = two_moves_board();
    let mut tree: SearchTree<()> = SearchTree::new(board);
    let after = tree.player_children(board).unwrap().get(Move::Up).unwrap();
    assert_eq!(
        after,
        Grid::from_human([[4, 2, 4, 2], [2, 4, 2, 4], [0, 2, 4, 2], [0, 4, 2, 4]]).unwrap()
    );
    assert!(tree.computer_node(after).unwrap().children().is_none());

    let children = tree.computer_children(after).unwrap();
    let with2 = children.with2().clone();
    let with4 = children.with4().clone();
    assert_eq!(children.variants(), 2);
    assert_eq!(with2.len(), after.count_empty());
    assert_eq!(with4.len(), after.count_empty());
    assert_eq!(
        with2,
        vec![
            Grid::from_human([[4, 2, 4, 2], [2, 4, 2, 4], [2, 2, 4, 2], [0, 4, 2, 4]]).unwrap(),
            Grid::from_human([[4, 2, 4, 2], [2, 4, 2, 4], [0, 2, 4, 2], [2, 4, 2, 4]]).unwrap(),
        ]
    );
    assert_eq!(
        with4,
        vec![
            Grid::from_human([[4, 2, 4, 2], [2, 4, 2, 4], [4, 2, 4, 2], [0, 4, 2, 4]]).unwrap(),
            Grid::from_human([[4, 2, 4, 2], [2, 4, 2, 4], [0, 2, 4, 2], [4, 4, 2, 4]]).unwrap(),
        ]
    );
    assert!(tree.computer_node(after).unwrap().children().is_some());
    assert_eq!(tree.known_player_node_count(), 5);
    for child in with2.iter().chain(with4.iter()) {
        assert_eq!(tree.player_node(*child).unwrap().board(), child);
    }
}

#[test]
fn board_reached_twice_has_one_node() {
    // Right and then a 2 at the bottom left, or down and then a 2 at the top
    // right: two parents have a child at the same board.
    let board =
        Grid::from_human([[2, 0, 0, 0], [0, 0, 0, 0], [0, 0, 0, 0], [0, 0, 0, 0]]).unwrap();
    let target =
        Grid::from_human([[0, 0, 0, 2], [0, 0, 0, 0], [0, 0, 0, 0], [2, 0, 0, 0]]).unwrap();
    let mut tree: SearchTree<u8> = SearchTree::new(board);
    let right = tree.player_children(board).unwrap().get(Move::Right).unwrap();
    let down = tree.player_children(board).unwrap().get(Move::Down).unwrap();
    assert_ne!(right, down);

    let from_right = tree.computer_children(right).unwrap().with2().clone();
    assert!(from_right.contains(&target));
    assert_eq!(tree.known_player_node_count(), 1 + 30);
    assert!(tree.set_data(target, 7));

    let from_down = tree.computer_children(down).unwrap().with2().clone();
    assert!(from_down.contains(&target));
    // The second parent made a node for each child but the shared one.
    assert_eq!(tree.known_player_node_count(), 1 + 30 + 29);
    // Reached through either parent, it is the node that carries the data.
    assert_eq!(tree.player_node(target).unwrap().data(), 7);
    assert_eq!(*tree.player_node(target).unwrap().board(), target);
}

#[test]
fn data_of_a_node_can_be_replaced() {
    let board = two_moves_board();
    let mut tree: SearchTree<i64> = SearchTree::new(board);
    assert_eq!(tree.root().data(), 0);
    assert!(tree.set_data(board, -5));
    assert_eq!(tree.root().data(), -5);
    assert!(!tree.set_data(Grid(0), 1));
    assert_eq!(tree.known_player_node_count(), 1);
    tree.player_children(board);
    assert_eq!(tree.root().data(), -5);
}

#[test]
fn new_root_keeps_what_it_reaches() {
    let board = two_moves_board();
    let mut tree: SearchTree<u8> = SearchTree::new(board);
    let left = tree.player_children(board).unwrap().get(Move::Left).unwrap();
    let up = tree.player_children(board).unwrap().get(Move::Up).unwrap();
    let under_left = tree.computer_children(left).unwrap().with2().clone();
    let under_up = tree.computer_children(up).unwrap().with4().clone();
    assert_eq!(tree.known_computer_node_count(), 2);
    assert_eq!(tree.known_player_node_count(), 9);

    // Go on below one of the grandchildren, then make it the root.
    let next = under_left[0];
    tree.set_data(next, 3);
    let below: Vec<Grid> = tree.player_children(next).unwrap().values();
    assert!(!below.is_empty());
    for child in &below {
        tree.computer_children(*child);
    }
    let players: usize = 1 + below
        .iter()
        .map(|c| 2 * c.count_empty())
        .sum::<usize>();

    tree.set_root(next);

    assert_eq!(*tree.root().board(), next);
    assert_eq!(tree.root().data(), 3);
    assert_eq!(tree.root().children().unwrap().values(), below);
    assert_eq!(tree.known_computer_node_count(), below.len());
    assert!(tree.known_player_node_count() <= players);
    assert!(tree.player_node(board).is_none());
    assert!(tree.computer_node(left).is_none());
    assert!(tree.computer_node(up).is_none());
    for gone in under_up {
        assert!(tree.player_node(gone).is_none());
    }
    for child in &below {
        let node = tree.computer_node(*child).unwrap();
        for board in node.children().unwrap().with2() {
            assert!(tree.player_node(*board).is_some());
        }
        for board in node.children().unwrap().with4() {
            assert!(tree.player_node(*board).is_some());
        }
    }
}

#[test]
fn new_root_at_an_unrelated_board_is_alone() {
    let first = two_moves_board();
    let second =
        Grid::from_human([[8, 0, 0, 0], [0, 0, 0, 0], [0, 0, 0, 0], [0, 0, 0, 16]]).unwrap();
    let mut tree: SearchTree<()> = SearchTree::new(first);
    let child = tree.player_children(first).unwrap().get(Move::Left).unwrap();
    tree.computer_children(child);
    assert!(tree.known_player_node_count() > 1);
    assert_eq!(tree.known_computer_node_count(), 2);

    tree.set_root(second);

    assert_eq!(*tree.root().board(), second);
    assert_eq!(tree.known_player_node_count(), 1);
    assert_eq!(tree.known_computer_node_count(), 0);
    assert_eq!(tree.cache().player_count(), 1);
    assert_eq!(tree.cache().computer_count(), 0);
    assert!(tree.root().children().is_none());
}

#[test]
fn new_root_at_the_old_root_keeps_everything() {
    let board = two_moves_board();
    let mut tree: SearchTree<()> = SearchTree::new(board);
    let child = tree.player_children(board).unwrap().get(Move::Up).unwrap();
    tree.computer_children(child);
    let players = tree.known_player_node_count();
    let computers = tree.known_computer_node_count();

    tree.set_root(board);

    assert_eq!(tree.known_player_node_count(), players);
    assert_eq!(tree.known_computer_node_count(), computers);
    assert!(tree.root().children().is_some());
}

#[test]
fn trees_can_share_their_tables() {
    let tables = Arc::new(MoveTables::new());
    let board = two_moves_board();
    let mut first: SearchTree<()> = SearchTree::with_tables(board, tables.clone());
    let mut second: SearchTree<()> = SearchTree::with_tables(Grid(0x1100), tables.clone());
    let mut own: SearchTree<()> = SearchTree::new(board);

    assert_eq!(
        first.player_children(board).unwrap().iter(),
        own.player_children(board).unwrap().iter()
    );
    assert_eq!(
        second.player_children(Grid(0x1100)).unwrap().iter(),
        Grid(0x1100).player_moves()
    );
    assert_eq!(Arc::strong_count(&tables), 3);
}
