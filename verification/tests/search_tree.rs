use ai2048_lib::game_logic::{Grid, Move};
use ai2048_lib::search_tree::SearchTree;
use std::collections::{HashMap, HashSet};

#[test]
fn can_create_new_search_tree() {
    let expected_grid = Grid::default().add_random_tile().unwrap();
    let search_tree: SearchTree<()> = SearchTree::new(expected_grid);
    let actual_grid = *search_tree.root().board();

    assert_eq!(expected_grid, actual_grid);
}

#[test]
fn can_set_new_root() {
    let grid1 = Grid::default().add_random_tile().unwrap();
    let grid2 = Grid::default()
        .add_random_tile()
        .unwrap()
        .add_random_tile()
        .unwrap();
    let mut search_tree: SearchTree<()> = SearchTree::new(grid1);

    search_tree.set_root(grid2);

    assert_eq!(grid2, *search_tree.root().board());
    assert_eq!(1, search_tree.known_player_node_count());
    let total = search_tree.cache().player_count();
    assert_eq!(1, total);
}

#[test]
fn can_player_node_children_by_move() {
    let board = Grid::from_human([
        [0, 0, 0, 2],
        [0, 2, 0, 2],
        [4, 0, 0, 2],
        [0, 0, 0, 2],
    ]).unwrap();

    let mut search_tree: SearchTree<()> = SearchTree::new(board);

    let root = *search_tree.root().board();

    let mut expected = HashMap::new();
    expected.insert(Move::Left, Grid::from_human([
        [2, 0, 0, 0],
        [4, 0, 0, 0],
        [4, 2, 0, 0],
        [2, 0, 0, 0],
    ]).unwrap());
    expected.insert(Move::Right, Grid::from_human([
        [0, 0, 0, 2],
        [0, 0, 0, 4],
        [0, 0, 4, 2],
        [0, 0, 0, 2],
    ]).unwrap());
    expected.insert(Move::Up, Grid::from_human([
        [4, 2, 0, 4],
        [0, 0, 0, 4],
        [0, 0, 0, 0],
        [0, 0, 0, 0],
    ]).unwrap());
    expected.insert(Move::Down, Grid::from_human([
        [0, 0, 0, 0],
        [0, 0, 0, 0],
        [0, 0, 0, 4],
        [4, 2, 0, 4],
    ]).unwrap());

    let actual = search_tree
        .player_children(root)
        .unwrap()
        .iter()
        .into_iter()
        .collect::<HashMap<_, _>>();

    for (key, value) in expected {
        let child = *actual.get(&key).unwrap();
        assert_eq!(value, *search_tree.computer_node(child).unwrap().board());
    }

    assert_eq!(1, search_tree.known_player_node_count());
    assert_eq!(4, search_tree.known_computer_node_count());
}

#[test]
fn can_computer_node_children() {
    let board = Grid::from_human([
        [0, 2, 4, 2],
        [0, 4, 2, 4],
        [4, 2, 4, 2],
        [2, 4, 2, 4],
    ]).unwrap();
    let mut search_tree: SearchTree<()> = SearchTree::new(board);

    // two possible moves: up and left
    // up:   [4, 2, 4, 2],
    //       [2, 4, 2, 4],
    //       [0, 2, 4, 2],
    //       [0, 4, 2, 4]
    //
    // left: [2, 4, 2, 0],
    //       [4, 2, 4, 0],
    //       [4, 2, 4, 2],
    //       [2, 4, 2, 4]

    // this leads to 8 possible child nodes:
    let mut expected_with2 = HashSet::new();
    expected_with2.insert(Grid::from_human([
        [4, 2, 4, 2],
        [2, 4, 2, 4],
        [2, 2, 4, 2],
        [0, 4, 2, 4],
    ]).unwrap());
    expected_with2.insert(Grid::from_human([
        [4, 2, 4, 2],
        [2, 4, 2, 4],
        [0, 2, 4, 2],
        [2, 4, 2, 4],
    ]).unwrap());
    expected_with2.insert(Grid::from_human([
        [2, 4, 2, 2],
        [4, 2, 4, 0],
        [4, 2, 4, 2],
        [2, 4, 2, 4],
    ]).unwrap());
    expected_with2.insert(Grid::from_human([
        [2, 4, 2, 0],
        [4, 2, 4, 2],
        [4, 2, 4, 2],
        [2, 4, 2, 4],
    ]).unwrap());

    let mut expected_with4 = HashSet::new();
    expected_with4.insert(Grid::from_human([
        [2, 4, 2, 4],
        [4, 2, 4, 0],
        [4, 2, 4, 2],
        [2, 4, 2, 4],
    ]).unwrap());
    expected_with4.insert(Grid::from_human([
        [2, 4, 2, 0],
        [4, 2, 4, 4],
        [4, 2, 4, 2],
        [2, 4, 2, 4],
    ]).unwrap());
    expected_with4.insert(Grid::from_human([
        [4, 2, 4, 2],
        [2, 4, 2, 4],
        [4, 2, 4, 2],
        [0, 4, 2, 4],
    ]).unwrap());
    expected_with4.insert(Grid::from_human([
        [4, 2, 4, 2],
        [2, 4, 2, 4],
        [0, 2, 4, 2],
        [4, 4, 2, 4],
    ]).unwrap());

    let root = *search_tree.root().board();
    let children = search_tree.player_children(root).unwrap().values();

    let mut actual_with2 = HashSet::new();
    let mut actual_with4 = HashSet::new();
    for child in children {
        let with2 = search_tree.computer_children(child).unwrap().with2().clone();
        for board in with2 {
            actual_with2.insert(*search_tree.player_node(board).unwrap().board());
        }
        let with4 = search_tree.computer_children(child).unwrap().with4().clone();
        for board in with4 {
            actual_with4.insert(*search_tree.player_node(board).unwrap().board());
        }
    }

    assert_eq!(expected_with2, actual_with2);
    assert_eq!(expected_with4, actual_with4);
}
