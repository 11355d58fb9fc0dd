//! A tree of the boards that a game can come to, made as far as it is asked
//! for. Each node is made once: the tree keeps a cache of the known nodes
//! and finds there a board that was reached by other moves before. When the
//! root moves on, the nodes that cannot be reached from the new root are
//! forgotten.

use crate::cache::{kept, same_but, NodeCache};
use crate::game_logic::{Grid, Move};
use crate::graph::{Links, NodeId};
use crate::nodes::{ComputerNode, ComputerNodeChildren, PlayerNode, PlayerNodeChildren};
use crate::spawn::empty_cells;
use crate::tables::MoveTables;
use std::sync::Arc;
use vstd::prelude::*;

verus! {

/// The root of the tree of nodes, with the cache of the known nodes. A node
/// is named by its board; the tree hands out the node and makes its
/// children.
pub struct SearchTree<T> {
    root_node: Grid,
    cache: NodeCache<T>,
    tables: Arc<MoveTables>,
}

impl<T: Copy + Default> SearchTree<T> {
    /// The board of the root.
    pub closed spec fn spec_root(self) -> Grid {
        self.root_node
    }

    /// The cache of the known nodes.
    pub closed spec fn spec_cache(self) -> NodeCache<T> {
        self.cache
    }

    /// The known player nodes, each under its board as a 64-bit word.
    pub open spec fn players(self) -> Map<u64, PlayerNode<T>> {
        self.spec_cache().players()
    }

    /// The known computer nodes, each under its board as a 64-bit word.
    pub open spec fn computers(self) -> Map<u64, ComputerNode> {
        self.spec_cache().computers()
    }

    /// The known nodes with the boards of their children.
    pub open spec fn links(self) -> Links {
        self.spec_cache().links()
    }

    /// Whether the node can be reached from the root, from child to child.
    pub open spec fn spec_reachable(self, id: NodeId) -> bool {
        self.links().reachable(self.spec_root().0, id)
    }

    /// Whether the tree is in order: each node is kept under its own board
    /// and has the children of its board if it has any, every child of a
    /// known node is known, the root is known, and every known node can be
    /// reached from the root.
    pub open spec fn wf(self) -> bool {
        &&& self.spec_cache().wf()
        &&& self.players().contains_key(self.spec_root().0)
        &&& self.links().all_reachable(self.spec_root().0)
    }

    /// A tree with the root at `board` and no other node. It computes move
    /// tables of its own; `with_tables` takes tables that are there already.
    pub fn new(board: Grid) -> (tree: Self)
        ensures
            tree.wf(),
            tree.spec_root() == board,
            tree.players().dom() == set![board.0],
            tree.computers().dom() == Set::<u64>::empty(),
            tree.players()[board.0].is_new(board),
    {
        SearchTree::with_tables(board, Arc::new(MoveTables::new()))
    }

    /// A tree with the root at `board` and no other node, which looks the
    /// moves up in `tables`.
    pub fn with_tables(board: Grid, tables: Arc<MoveTables>) -> (tree: Self)
        ensures
            tree.wf(),
            tree.spec_root() == board,
            tree.players().dom() == set![board.0],
            tree.computers().dom() == Set::<u64>::empty(),
            tree.players()[board.0].is_new(board),
    {
        let mut cache = NodeCache::new();
        cache.get_or_insert_player(board);
        let tree = SearchTree { root_node: board, cache, tables };
        proof {
            assert(tree.players().dom() =~= set![board.0]);
            assert forall|id: NodeId| #[trigger] tree.links().known(id) implies
                tree.links().reachable(board.0, id) by {
                tree.links().lemma_root_reachable(board.0);
            }
        }
        tree
    }

    /// Moves the root to `board`. The node at `board` stays if it is known,
    /// with all that can be reached from it; every other node is forgotten.
    /// Where no node at `board` is known, the new root is a new node without
    /// children, and the only node.
    pub fn set_root(&mut self, board: Grid)
        requires
            old(self).wf(),
        ensures
            final(self).wf(),
            final(self).spec_root() == board,
            final(self).players()[board.0].spec_board() == board,
            forall|key: u64| #[trigger]
                final(self).players().contains_key(key) && old(self).players().contains_key(key)
                    ==> final(self).players()[key] == old(self).players()[key],
            kept(final(self).computers(), old(self).computers()),
            old(self).players().contains_key(board.0) ==> forall|id: NodeId|
                final(self).links().known(id) <==> old(self).links().reachable(board.0, id),
            !old(self).players().contains_key(board.0) ==> {
                &&& final(self).players().dom() == set![board.0]
                &&& final(self).computers().dom() == Set::<u64>::empty()
                &&& final(self).players()[board.0].is_new(board)
            },
    {
        let made = self.cache.get_or_insert_player(board);
        let ghost with_root = self.cache;
        self.root_node = board;
        self.cache.gc(board);
        proof {
            assert forall|key: u64| #[trigger]
                self.computers().contains_key(key) implies old(self).computers().contains_key(
                key,
            ) by {
                assert(self.links().known(NodeId::Computer(key)));
                with_root.links().lemma_reachable_known(board.0, NodeId::Computer(key));
            }
            if made {
                let links = with_root.links();
                assert forall|id: NodeId| #[trigger]
                    links.reachable(board.0, id) implies id == NodeId::Player(board.0) by {
                    let path = choose|path: Seq<NodeId>| #[trigger]
                        links.is_path(board.0, path) && path.last() == id;
                    if path.len() > 1 {
                        assert(links.edge(path[0int], path[0int + 1]));
                    }
                }
                links.lemma_root_reachable(board.0);
                assert forall|key: u64| self.players().contains_key(key) implies key
                    == board.0 by {
                    assert(self.links().known(NodeId::Player(key)));
                }
                assert(self.links().known(NodeId::Player(board.0)));
                assert(self.players().dom() =~= set![board.0]);
                assert forall|key: u64| !self.computers().contains_key(key) by {
                    if self.computers().contains_key(key) {
                        assert(self.links().known(NodeId::Computer(key)));
                    }
                }
                assert(self.computers().dom() =~= Set::<u64>::empty());
            } else {
                with_root.links().lemma_root_reachable(board.0);
                assert(self.links().known(NodeId::Player(board.0)));
            }
        }
    }

    /// The cache of the known nodes.
    pub fn cache(&self) -> (cache: &NodeCache<T>)
        ensures
            *cache == self.spec_cache(),
    {
        &self.cache
    }

    /// The node at the root.
    pub fn root(&self) -> (node: &PlayerNode<T>)
        requires
            self.wf(),
        ensures
            *node == self.players()[self.spec_root().0],
            node.spec_board() == self.spec_root(),
    {
        self.cache.player(self.root_node).unwrap()
    }

    /// The number of boards that are known for the turn of the player.
    pub fn known_player_node_count(&self) -> (count: usize)
        ensures
            count == self.players().len(),
    {
        self.cache.player_count()
    }

    /// The number of boards that are known for the turn of the computer.
    pub fn known_computer_node_count(&self) -> (count: usize)
        ensures
            count == self.computers().len(),
    {
        self.cache.computer_count()
    }

    /// The player node at `board`, if it is known.
    pub fn player_node(&self, board: Grid) -> (node: Option<&PlayerNode<T>>)
        ensures
            node is Some <==> self.players().contains_key(board.0),
            node matches Some(n) ==> *n == self.players()[board.0],
            self.wf() ==> (node matches Some(n) ==> n.spec_board() == board),
    {
        self.cache.player(board)
    }

    /// The computer node at `board`, if it is known.
    pub fn computer_node(&self, board: Grid) -> (node: Option<&ComputerNode>)
        ensures
            node is Some <==> self.computers().contains_key(board.0),
            node matches Some(n) ==> *n == self.computers()[board.0],
            self.wf() ==> (node matches Some(n) ==> n.spec_board() == board),
    {
        self.cache.computer(board)
    }

    /// The children of the player node at `board`, if that node is known:
    /// for each legal move the board after it. They are made at the first
    /// call, and with them a computer node without children at each of
    /// those boards that is not known yet; later calls give the same
    /// children and change nothing.
    pub fn player_children(&mut self, board: Grid) -> (children: Option<&PlayerNodeChildren>)
        requires
            old(self).wf(),
        ensures
            final(self).wf(),
            final(self).spec_root() == old(self).spec_root(),
            children is Some <==> old(self).players().contains_key(board.0),
            children matches Some(c) ==> c.children_of(board)
                && final(self).players()[board.0].spec_children() == Some(*c),
            same_but(old(self).players(), final(self).players(), board.0),
            old(self).players().contains_key(board.0) ==> ({
                let before = old(self).players()[board.0];
                let after = final(self).players()[board.0];
                &&& after.spec_board() == board
                &&& after.spec_data() == before.spec_data()
                &&& before.spec_children() is Some ==> after == before
            }),
            kept(old(self).computers(), final(self).computers()),
            forall|key: u64| #[trigger]
                final(self).computers().contains_key(key) && !old(self).computers().contains_key(
                    key,
                ) ==> {
                    &&& final(self).links().edge(NodeId::Player(board.0), NodeId::Computer(key))
                    &&& final(self).computers()[key].spec_children() is None
                },
    {
        self.cache.expand_player(board, &self.tables);
        match self.cache.player(board) {
            Some(node) => node.children(),
            None => None,
        }
    }

    /// The children of the computer node at `board`, if that node is known:
    /// for each empty cell the board with a new 2 there, and the board with
    /// a new 4 there. They are made at the first call, and with them a
    /// player node without children at each of those boards that is not
    /// known yet; later calls give the same children and change nothing.
    pub fn computer_children(&mut self, board: Grid) -> (children: Option<&ComputerNodeChildren>)
        requires
            old(self).wf(),
        ensures
            final(self).wf(),
            final(self).spec_root() == old(self).spec_root(),
            children is Some <==> old(self).computers().contains_key(board.0),
            children matches Some(c) ==> c.children_of(board)
                && final(self).computers()[board.0].spec_children() == Some(*c),
            same_but(old(self).computers(), final(self).computers(), board.0),
            old(self).computers().contains_key(board.0) ==> ({
                let before = old(self).computers()[board.0];
                let after = final(self).computers()[board.0];
                &&& after.spec_board() == board
                &&& before.spec_children() is Some ==> after == before
            }),
            kept(old(self).players(), final(self).players()),
            forall|key: u64| #[trigger]
                final(self).players().contains_key(key) && !old(self).players().contains_key(
                    key,
                ) ==> {
                    &&& final(self).links().edge(NodeId::Computer(board.0), NodeId::Player(key))
                    &&& final(self).players()[key].is_new(Grid(key))
                },
    {
        self.cache.expand_computer(board);
        match self.cache.computer(board) {
            Some(node) => node.children(),
            None => None,
        }
    }

    /// Replaces what the caller keeps with the player node at `board`, if
    /// that node is known, and says whether it is.
    pub fn set_data(&mut self, board: Grid, data: T) -> (known: bool)
        requires
            old(self).wf(),
        ensures
            final(self).wf(),
            final(self).spec_root() == old(self).spec_root(),
            known <==> old(self).players().contains_key(board.0),
            final(self).computers() == old(self).computers(),
            same_but(old(self).players(), final(self).players(), board.0),
            known ==> ({
                let before = old(self).players()[board.0];
                let after = final(self).players()[board.0];
                &&& after.spec_board() == before.spec_board()
                &&& after.spec_children() == before.spec_children()
                &&& after.spec_data() == data
            }),
    {
        self.cache.set_player_data(board, data)
    }

    /// The children of a player node are its legal moves in their fixed
    /// order, each with the board after it, and at each of those boards the
    /// tree knows a computer node.
    pub proof fn lemma_player_children(self, board: Grid)
        requires
            self.wf(),
            self.players().contains_key(board.0),
            self.players()[board.0].spec_children() is Some,
        ensures
            ({
                let children = self.players()[board.0].spec_children()->Some_0;
                &&& children.children_of(board)
                &&& children.spec_iter() == board.spec_player_moves()
                &&& forall|n: int|
                    0 <= n < children.spec_iter().len() ==> {
                        let (mv, child) = #[trigger] children.spec_iter()[n];
                        &&& board.spec_is_legal(mv)
                        &&& child == board.spec_make_move(mv)
                        &&& self.computers().contains_key(child.0)
                        &&& self.computers()[child.0].spec_board() == child
                    }
                &&& forall|mv: Move|
                    board.spec_is_legal(mv) ==> children.spec_iter().contains(
                        (mv, board.spec_make_move(mv)),
                    )
            }),
    {
        let children = self.players()[board.0].spec_children()->Some_0;
        assert(self.players()[board.0].spec_board() == Grid(board.0));
        children.lemma_iter_of_children(board);
        board.lemma_player_moves_sound(0);
        assert forall|mv: Move| board.spec_is_legal(mv) implies children.spec_iter().contains(
            (mv, board.spec_make_move(mv)),
        ) by {
            board.lemma_player_moves_complete(0, mv);
        }
        assert forall|n: int| 0 <= n < children.spec_iter().len() implies {
            let (mv, child) = #[trigger] children.spec_iter()[n];
            &&& board.spec_is_legal(mv)
            &&& child == board.spec_make_move(mv)
            &&& self.computers().contains_key(child.0)
            &&& self.computers()[child.0].spec_board() == child
        } by {
            let (mv, child) = children.spec_iter()[n];
            assert(children.slots()[mv.spec_ordinal()] == Some(child));
            assert(children.has(Grid(child.0)));
            assert(self.links().edge(NodeId::Player(board.0), NodeId::Computer(child.0)));
            assert(self.links().known(NodeId::Computer(child.0)));
        }
    }

    /// A computer node has as many children with a new 2 as with a new 4:
    /// one of each for every empty cell of its board, and there is an empty
    /// cell. The children number `i` are the board with a tile 1, and with
    /// a tile 2, in the empty cell number `i`, and the same board elsewhere.
    /// At each of them the tree knows a player node.
    pub proof fn lemma_computer_children(self, board: Grid)
        requires
            self.wf(),
            self.computers().contains_key(board.0),
            self.computers()[board.0].spec_children() is Some,
        ensures
            ({
                let children = self.computers()[board.0].spec_children()->Some_0;
                let count = board.spec_count_empty();
                &&& 0 < count <= 16
                &&& children.spec_with2().len() == count
                &&& children.spec_with4().len() == count
                &&& forall|i: int|
                    0 <= i < count ==> {
                        let cell = #[trigger] empty_cells(board@)[i];
                        let with2 = children.spec_with2()[i];
                        let with4 = children.spec_with4()[i];
                        &&& 0 <= cell < 16
                        &&& board@[cell] == 0
                        &&& with2@ == board@.update(cell, 1)
                        &&& with4@ == board@.update(cell, 2)
                        &&& self.players().contains_key(with2.0)
                        &&& self.players()[with2.0].spec_board() == with2
                        &&& self.players().contains_key(with4.0)
                        &&& self.players()[with4.0].spec_board() == with4
                    }
            }),
    {
        let children = self.computers()[board.0].spec_children()->Some_0;
        let count = board.spec_count_empty();
        assert(self.computers()[board.0].spec_board() == Grid(board.0));
        board.lemma_ai_moves(1);
        board.lemma_ai_moves(2);
        crate::spawn::lemma_empty_from(board@, 0);
        assert forall|i: int| 0 <= i < count implies {
            let cell = #[trigger] empty_cells(board@)[i];
            let with2 = children.spec_with2()[i];
            let with4 = children.spec_with4()[i];
            &&& 0 <= cell < 16
            &&& board@[cell] == 0
            &&& with2@ == board@.update(cell, 1)
            &&& with4@ == board@.update(cell, 2)
            &&& self.players().contains_key(with2.0)
            &&& self.players()[with2.0].spec_board() == with2
            &&& self.players().contains_key(with4.0)
            &&& self.players()[with4.0].spec_board() == with4
        } by {
            let with2 = children.spec_with2()[i];
            let with4 = children.spec_with4()[i];
            assert(with2 == board.spec_ai_moves(1)[i]);
            assert(with4 == board.spec_ai_moves(2)[i]);
            assert(children.has(Grid(with2.0)));
            assert(children.has(Grid(with4.0)));
            assert(self.links().edge(NodeId::Computer(board.0), NodeId::Player(with2.0)));
            assert(self.links().edge(NodeId::Computer(board.0), NodeId::Player(with4.0)));
            assert(self.links().known(NodeId::Player(with2.0)));
            assert(self.links().known(NodeId::Player(with4.0)));
        }
    }

    /// There is one node for a board and a kind: two parents that have a
    /// child at the same board have the same node as their child, the one
    /// that the tree keeps under that board.
    pub proof fn lemma_shared_child(self, first: NodeId, second: NodeId, child: NodeId)
        requires
            self.wf(),
            self.links().edge(first, child),
            self.links().edge(second, child),
        ensures
            self.links().known(child),
            match child {
                NodeId::Player(key) => self.players()[key].spec_board() == Grid(key),
                NodeId::Computer(key) => self.computers()[key].spec_board() == Grid(key),
            },
    {
        assert(self.links().known(child));
    }

    /// Every node that the tree knows can be reached from its root.
    pub proof fn lemma_known_is_reachable(self, id: NodeId)
        requires
            self.wf(),
            self.links().known(id),
        ensures
            self.spec_reachable(id),
    {
    }
}

} // verus!
