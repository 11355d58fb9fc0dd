//! The nodes that are known, by kind and board: each board has at most one
//! node of a kind.

use crate::game_logic::{Grid, Move, MOVES};
use crate::graph::{Links, NodeId};
use crate::nodes::{ComputerNode, ComputerNodeChildren, PlayerNode, PlayerNodeChildren};
use crate::tables::MoveTables;
use std::collections::HashMap;
use vstd::prelude::*;

verus! {

/// The boards of the children of a player node, as 64-bit words.
pub open spec fn player_links<T: Copy + Default>(node: PlayerNode<T>) -> Set<u64> {
    match node.spec_children() {
        Some(children) => Set::new(|child: u64| children.has(Grid(child))),
        None => Set::empty(),
    }
}

/// The boards of the children of a computer node, as 64-bit words.
pub open spec fn computer_links(node: ComputerNode) -> Set<u64> {
    match node.spec_children() {
        Some(children) => Set::new(|child: u64| children.has(Grid(child))),
        None => Set::empty(),
    }
}

/// Whether `after` has every entry of `before`, unchanged.
pub open spec fn kept<V>(before: Map<u64, V>, after: Map<u64, V>) -> bool {
    forall|key: u64| #[trigger]
        before.contains_key(key) ==> after.contains_key(key) && after[key] == before[key]
}

/// Whether `after` has the keys of `before`, and under each of them but
/// `but` the same entry.
pub open spec fn same_but<V>(before: Map<u64, V>, after: Map<u64, V>, but: u64) -> bool {
    &&& after.dom() == before.dom()
    &&& forall|key: u64| #[trigger]
        after.contains_key(key) && key != but ==> after[key] == before[key]
}

/// Whether one of four slots holds the board `key`.
spec fn slot_holds(slots: Seq<Option<Grid>>, key: u64) -> bool {
    exists|j: int| 0 <= j < 4 && slots[j] == Some(Grid(key))
}

/// The known nodes of both kinds, each under its board as a 64-bit word.
pub struct NodeCache<T> {
    player_node: HashMap<u64, PlayerNode<T>>,
    computer_node: HashMap<u64, ComputerNode>,
}

impl<T: Copy + Default> NodeCache<T> {
    /// The known player nodes, each under its board.
    pub closed spec fn players(self) -> Map<u64, PlayerNode<T>> {
        self.player_node@
    }

    /// The known computer nodes, each under its board.
    pub closed spec fn computers(self) -> Map<u64, ComputerNode> {
        self.computer_node@
    }

    /// The known nodes with the boards of their children.
    pub open spec fn links(self) -> Links {
        Links {
            players: Map::new(
                |key: u64| self.players().contains_key(key),
                |key: u64| player_links(self.players()[key]),
            ),
            computers: Map::new(
                |key: u64| self.computers().contains_key(key),
                |key: u64| computer_links(self.computers()[key]),
            ),
        }
    }

    /// Whether each node is kept under its own board, and has the children
    /// of its board if it has any; and the board of each computer node has
    /// an empty cell.
    pub open spec fn nodes_wf(self) -> bool {
        &&& forall|key: u64| #[trigger]
            self.players().contains_key(key) ==> self.players()[key].spec_board() == Grid(key)
                && self.players()[key].wf()
        &&& forall|key: u64| #[trigger]
            self.computers().contains_key(key) ==> self.computers()[key].spec_board() == Grid(
                key,
            ) && self.computers()[key].wf() && Grid(key).spec_count_empty() > 0
    }

    /// Whether the nodes are in order, and every child of a known node is
    /// known.
    pub open spec fn wf(self) -> bool {
        &&& self.nodes_wf()
        &&& self.links().closed()
    }

    /// A cache without nodes.
    pub fn new() -> (cache: Self)
        ensures
            cache.players() == Map::<u64, PlayerNode<T>>::empty(),
            cache.computers() == Map::<u64, ComputerNode>::empty(),
            cache.wf(),
    {
        NodeCache { player_node: HashMap::new(), computer_node: HashMap::new() }
    }

    /// The player node at `board`, if it is known.
    pub fn player(&self, board: Grid) -> (node: Option<&PlayerNode<T>>)
        ensures
            node is Some <==> self.players().contains_key(board.0),
            node matches Some(n) ==> *n == self.players()[board.0],
    {
        self.player_node.get(&board.0)
    }

    /// The computer node at `board`, if it is known.
    pub fn computer(&self, board: Grid) -> (node: Option<&ComputerNode>)
        ensures
            node is Some <==> self.computers().contains_key(board.0),
            node matches Some(n) ==> *n == self.computers()[board.0],
    {
        self.computer_node.get(&board.0)
    }

    /// The number of known player nodes.
    pub fn player_count(&self) -> (count: usize)
        ensures
            count == self.players().len(),
    {
        self.player_node.len()
    }

    /// The number of known computer nodes.
    pub fn computer_count(&self) -> (count: usize)
        ensures
            count == self.computers().len(),
    {
        self.computer_node.len()
    }

    /// Makes sure that there is a player node at `board`: the known one
    /// stays, and a new one without children is made where none is known.
    /// Says whether a new one was made.
    pub fn get_or_insert_player(&mut self, board: Grid) -> (made: bool)
        requires
            old(self).wf(),
        ensures
            final(self).wf(),
            made <==> !old(self).players().contains_key(board.0),
            final(self).computers() == old(self).computers(),
            !made ==> final(self).players() == old(self).players(),
            made ==> ({
                let node = final(self).players()[board.0];
                &&& final(self).players() == old(self).players().insert(board.0, node)
                &&& node.is_new(board)
            }),
            final(self).players().contains_key(board.0),
            forall|root: u64, id: NodeId|
                old(self).links().reachable(root, id) ==> final(self).links().reachable(root, id),
    {
        if self.player_node.contains_key(&board.0) {
            return false;
        }
        let node = PlayerNode::new(board);
        self.player_node.insert(board.0, node);
        proof {
            let before = old(self).links();
            let after = self.links();
            assert forall|from: NodeId, to: NodeId| #[trigger] after.edge(from, to) implies
                before.edge(from, to) && after.known(to) by {
                assert(before.edge(from, to));
                assert(before.known(to));
            }
            assert forall|root: u64, id: NodeId| before.reachable(root, id) implies after.reachable(
                root,
                id,
            ) by {
                assert forall|from: NodeId, to: NodeId| #[trigger]
                    before.edge(from, to) implies after.edge(from, to) by {}
                before.lemma_grow(after, root, id);
            }
        }
        true
    }

    /// Makes sure that there is a computer node at `board`: the known one
    /// stays, and a new one without children is made where none is known.
    fn get_or_insert_computer(computers: &mut HashMap<u64, ComputerNode>, board: Grid)
        ensures
            final(computers)@.contains_key(board.0),
            old(computers)@.contains_key(board.0) ==> final(computers)@ == old(computers)@,
            !old(computers)@.contains_key(board.0) ==> ({
                let node = final(computers)@[board.0];
                &&& final(computers)@ == old(computers)@.insert(board.0, node)
                &&& node.spec_board() == board
                &&& node.spec_children() is None
            }),
    {
        if !computers.contains_key(&board.0) {
            computers.insert(board.0, ComputerNode::new(board));
        }
    }

    /// Makes the children of a player node at `board`, and a computer node
    /// without children for each child that is not known yet.
    fn create_player_children(
        computers: &mut HashMap<u64, ComputerNode>,
        board: Grid,
        tables: &MoveTables,
    ) -> (children: PlayerNodeChildren)
        ensures
            children.children_of(board),
            kept(old(computers)@, final(computers)@),
            forall|key: u64| #[trigger]
                final(computers)@.contains_key(key) && !old(computers)@.contains_key(key) ==> {
                    &&& children.has(Grid(key))
                    &&& final(computers)@[key].spec_board() == Grid(key)
                    &&& final(computers)@[key].spec_children() is None
                    &&& Grid(key).spec_count_empty() > 0
                },
            forall|key: u64| #[trigger]
                children.has(Grid(key)) ==> final(computers)@.contains_key(key),
    {
        let mut nodes: [Option<Grid>; 4] = [None, None, None, None];
        let mut i: usize = 0;
        while i < 4
            invariant
                i <= 4,
                forall|j: int|
                    0 <= j < i ==> #[trigger] nodes[j] == (if board.spec_is_legal(MOVES@[j]) {
                        Some(board.spec_make_move(MOVES@[j]))
                    } else {
                        None
                    }),
                forall|j: int| i <= j < 4 ==> nodes[j] is None,
                kept(old(computers)@, computers@),
                forall|key: u64| #[trigger]
                    computers@.contains_key(key) && !old(computers)@.contains_key(key) ==> {
                        &&& slot_holds(nodes@, key)
                        &&& computers@[key].spec_board() == Grid(key)
                        &&& computers@[key].spec_children() is None
                        &&& Grid(key).spec_count_empty() > 0
                    },
                forall|key: u64| #[trigger]
                    slot_holds(nodes@, key) ==> computers@.contains_key(key),
            decreases 4 - i,
        {
            let m = MOVES[i];
            let new_grid = tables.make_move(board, m);
            let ghost nodes_before = nodes@;
            let ghost known_before = computers@;
            proof {
                board.lemma_illegal_iff_unchanged(m);
            }
            // A move that changes nothing is not legal.
            if new_grid != board {
                proof {
                    board.lemma_legal_move_leaves_empty(m);
                }
                Self::get_or_insert_computer(computers, new_grid);
                nodes[i] = Some(new_grid);
            }
            proof {
                assert forall|key: u64| #[trigger] slot_holds(nodes@, key) implies
                    computers@.contains_key(key) by {
                    let j = choose|j: int| 0 <= j < 4 && nodes@[j] == Some(Grid(key));
                    if j != i {
                        assert(nodes_before[j] == Some(Grid(key)));
                        assert(slot_holds(nodes_before, key));
                        assert(known_before.contains_key(key));
                    }
                }
                assert forall|key: u64| #[trigger]
                    computers@.contains_key(key) && !old(computers)@.contains_key(
                        key,
                    ) implies slot_holds(nodes@, key) by {
                    if known_before.contains_key(key) {
                        assert(slot_holds(nodes_before, key));
                        let j = choose|j: int| 0 <= j < 4 && nodes_before[j] == Some(Grid(key));
                        assert(j < i);
                        assert(nodes@[j] == Some(Grid(key)));
                    } else {
                        assert(nodes@[i as int] == Some(Grid(key)));
                    }
                }
            }
            i += 1;
        }
        let children = PlayerNodeChildren::new(nodes);
        proof {
            assert forall|mv: Move| #[trigger]
                children.slots()[mv.spec_ordinal()] == (if board.spec_is_legal(mv) {
                    Some(board.spec_make_move(mv))
                } else {
                    None
                }) by {
                assert(MOVES@[mv.spec_ordinal()] == mv);
            }
            assert forall|key: u64| #[trigger] children.has(Grid(key)) implies
                computers@.contains_key(key) by {
                assert(slot_holds(nodes@, key));
            }
        }
        children
    }

    /// Makes the children of the player node at `board`, unless the node is
    /// not known or has them already: for each legal move the computer node
    /// at the board after it, which is made without children where it is
    /// not known yet. The moves are looked up in `tables`. Says whether the
    /// node is known.
    pub fn expand_player(&mut self, board: Grid, tables: &MoveTables) -> (known: bool)
        requires
            old(self).wf(),
        ensures
            final(self).wf(),
            known <==> old(self).players().contains_key(board.0),
            same_but(old(self).players(), final(self).players(), board.0),
            known ==> ({
                let before = old(self).players()[board.0];
                let after = final(self).players()[board.0];
                &&& after.spec_board() == board
                &&& after.spec_data() == before.spec_data()
                &&& after.spec_children() is Some
                &&& before.spec_children() is Some ==> after == before
            }),
            kept(old(self).computers(), final(self).computers()),
            forall|key: u64| #[trigger]
                final(self).computers().contains_key(key) && !old(self).computers().contains_key(
                    key,
                ) ==> {
                    &&& known
                    &&& final(self).links().edge(NodeId::Player(board.0), NodeId::Computer(key))
                    &&& final(self).computers()[key].spec_children() is None
                },
            forall|root: u64, id: NodeId|
                old(self).links().reachable(root, id) ==> final(self).links().reachable(root, id),
            forall|root: u64|
                old(self).links().all_reachable(root) ==> final(self).links().all_reachable(root),
    {
        let fill = match self.player_node.get(&board.0) {
            None => {
                return false;
            },
            Some(node) => node.children().is_none(),
        };
        if !fill {
            return true;
        }
        let children = Self::create_player_children(&mut self.computer_node, board, tables);
        let mut node = self.player_node.remove(&board.0).unwrap();
        node.fill(children);
        self.player_node.insert(board.0, node);
        proof {
            let before = old(self).links();
            let after = self.links();
            let parent = NodeId::Player(board.0);
            assert(self.players().dom() =~= old(self).players().dom());
            assert forall|from: NodeId, to: NodeId| #[trigger] before.edge(from, to) implies
                after.edge(from, to) by {}
            assert forall|from: NodeId, to: NodeId| #[trigger] after.edge(from, to) implies
                after.known(to) by {
                match from {
                    NodeId::Player(key) => {
                        let child = to->Computer_0;
                        if key == board.0 {
                            assert(children.has(Grid(child)));
                        } else {
                            assert(self.players()[key] == old(self).players()[key]);
                            assert(before.edge(from, to));
                            assert(before.known(to));
                        }
                    },
                    NodeId::Computer(key) => {
                        if old(self).computers().contains_key(key) {
                            assert(self.computers()[key] == old(self).computers()[key]);
                            assert(before.edge(from, to));
                            assert(before.known(to));
                        }
                    },
                }
            }
            assert forall|root: u64, id: NodeId| before.reachable(root, id) implies after.reachable(
                root,
                id,
            ) by {
                before.lemma_grow(after, root, id);
            }
            assert forall|root: u64| before.all_reachable(root) implies after.all_reachable(
                root,
            ) by {
                assert forall|id: NodeId| #[trigger] after.known(id) implies after.reachable(
                    root,
                    id,
                ) by {
                    if before.known(id) {
                        assert(before.reachable(root, id));
                    } else {
                        assert(before.known(parent));
                        assert(before.reachable(root, parent));
                        let child = id->Computer_0;
                        assert(children.has(Grid(child)));
                        assert(after.edge(parent, id));
                        after.lemma_step(root, parent, id);
                    }
                }
            }
        }
        true
    }

    /// Makes sure that there is a player node at each of `boards`: a known
    /// one stays, and a new one without children is made where none is
    /// known.
    fn insert_players(players: &mut HashMap<u64, PlayerNode<T>>, boards: &Vec<Grid>)
        ensures
            kept(old(players)@, final(players)@),
            forall|key: u64| #[trigger]
                final(players)@.contains_key(key) && !old(players)@.contains_key(key) ==> {
                    &&& boards@.contains(Grid(key))
                    &&& final(players)@[key].is_new(Grid(key))
                },
            forall|key: u64| #[trigger]
                boards@.contains(Grid(key)) ==> final(players)@.contains_key(key),
    {
        let mut i: usize = 0;
        while i < boards.len()
            invariant
                i <= boards.len(),
                kept(old(players)@, players@),
                forall|key: u64| #[trigger]
                    players@.contains_key(key) && !old(players)@.contains_key(key) ==> {
                        &&& boards@.contains(Grid(key))
                        &&& players@[key].is_new(Grid(key))
                    },
                forall|j: int| 0 <= j < i ==> players@.contains_key(#[trigger] boards@[j].0),
            decreases boards.len() - i,
        {
            let board = boards[i];
            if !players.contains_key(&board.0) {
                players.insert(board.0, PlayerNode::new(board));
                assert(boards@[i as int] == Grid(board.0));
            }
            i += 1;
        }
        assert forall|key: u64| #[trigger] boards@.contains(Grid(key)) implies
            players@.contains_key(key) by {
            let j = choose|j: int| 0 <= j < boards@.len() && boards@[j] == Grid(key);
            assert(players@.contains_key(boards@[j].0));
        }
    }

    /// Makes the children of a computer node at `board`, and a player node
    /// without children for each child that is not known yet.
    fn create_computer_children(
        players: &mut HashMap<u64, PlayerNode<T>>,
        board: Grid,
    ) -> (children: ComputerNodeChildren)
        ensures
            children.children_of(board),
            kept(old(players)@, final(players)@),
            forall|key: u64| #[trigger]
                final(players)@.contains_key(key) && !old(players)@.contains_key(key) ==> {
                    &&& children.has(Grid(key))
                    &&& final(players)@[key].is_new(Grid(key))
                },
            forall|key: u64| #[trigger]
                children.has(Grid(key)) ==> final(players)@.contains_key(key),
    {
        let children_with2 = board.ai_moves_with2();
        Self::insert_players(players, &children_with2);
        let children_with4 = board.ai_moves_with4();
        Self::insert_players(players, &children_with4);
        ComputerNodeChildren::new(children_with2, children_with4)
    }

    /// Makes the children of the computer node at `board`, unless the node
    /// is not known or has them already: for each empty cell the player node
    /// at the board with a new 2 there, and the one with a new 4 there, each
    /// made without children where it is not known yet. Says whether the
    /// node is known.
    pub fn expand_computer(&mut self, board: Grid) -> (known: bool)
        requires
            old(self).wf(),
        ensures
            final(self).wf(),
            known <==> old(self).computers().contains_key(board.0),
            same_but(old(self).computers(), final(self).computers(), board.0),
            known ==> ({
                let before = old(self).computers()[board.0];
                let after = final(self).computers()[board.0];
                &&& after.spec_board() == board
                &&& after.spec_children() is Some
                &&& before.spec_children() is Some ==> after == before
            }),
            kept(old(self).players(), final(self).players()),
            forall|key: u64| #[trigger]
                final(self).players().contains_key(key) && !old(self).players().contains_key(
                    key,
                ) ==> {
                    &&& known
                    &&& final(self).links().edge(NodeId::Computer(board.0), NodeId::Player(key))
                    &&& final(self).players()[key].is_new(Grid(key))
                },
            forall|root: u64, id: NodeId|
                old(self).links().reachable(root, id) ==> final(self).links().reachable(root, id),
            forall|root: u64|
                old(self).links().all_reachable(root) ==> final(self).links().all_reachable(root),
    {
        let fill = match self.computer_node.get(&board.0) {
            None => {
                return false;
            },
            Some(node) => node.children().is_none(),
        };
        if !fill {
            return true;
        }
        let children = Self::create_computer_children(&mut self.player_node, board);
        let mut node = self.computer_node.remove(&board.0).unwrap();
        node.fill(children);
        self.computer_node.insert(board.0, node);
        proof {
            let before = old(self).links();
            let after = self.links();
            let parent = NodeId::Computer(board.0);
            assert(self.computers().dom() =~= old(self).computers().dom());
            assert forall|from: NodeId, to: NodeId| #[trigger] before.edge(from, to) implies
                after.edge(from, to) by {}
            assert forall|from: NodeId, to: NodeId| #[trigger] after.edge(from, to) implies
                after.known(to) by {
                match from {
                    NodeId::Computer(key) => {
                        let child = to->Player_0;
                        if key == board.0 {
                            assert(children.has(Grid(child)));
                        } else {
                            assert(self.computers()[key] == old(self).computers()[key]);
                            assert(before.edge(from, to));
                            assert(before.known(to));
                        }
                    },
                    NodeId::Player(key) => {
                        if old(self).players().contains_key(key) {
                            assert(self.players()[key] == old(self).players()[key]);
                            assert(before.edge(from, to));
                            assert(before.known(to));
                        }
                    },
                }
            }
            assert forall|root: u64, id: NodeId| before.reachable(root, id) implies after.reachable(
                root,
                id,
            ) by {
                before.lemma_grow(after, root, id);
            }
            assert forall|root: u64| before.all_reachable(root) implies after.all_reachable(
                root,
            ) by {
                assert forall|id: NodeId| #[trigger] after.known(id) implies after.reachable(
                    root,
                    id,
                ) by {
                    if before.known(id) {
                        assert(before.reachable(root, id));
                    } else {
                        assert(before.known(parent));
                        assert(before.reachable(root, parent));
                        let child = id->Player_0;
                        assert(children.has(Grid(child)));
                        assert(after.edge(parent, id));
                        after.lemma_step(root, parent, id);
                    }
                }
            }
        }
        true
    }

    /// Whether the node is in one of two maps of nodes, by its kind.
    spec fn holds(
        players: Map<u64, PlayerNode<T>>,
        computers: Map<u64, ComputerNode>,
        id: NodeId,
    ) -> bool {
        match id {
            NodeId::Player(key) => players.contains_key(key),
            NodeId::Computer(key) => computers.contains_key(key),
        }
    }

    /// Whether the nodes of `orig` are split into those that are kept and
    /// the rest, unchanged.
    spec fn split(
        orig: Self,
        rest_players: Map<u64, PlayerNode<T>>,
        rest_computers: Map<u64, ComputerNode>,
        kept_players: Map<u64, PlayerNode<T>>,
        kept_computers: Map<u64, ComputerNode>,
    ) -> bool {
        &&& forall|key: u64| #[trigger]
            orig.players().contains_key(key) ==> rest_players.contains_key(key)
                || kept_players.contains_key(key)
        &&& forall|key: u64| #[trigger]
            rest_players.contains_key(key) ==> orig.players().contains_key(key)
                && !kept_players.contains_key(key) && rest_players[key] == orig.players()[key]
        &&& forall|key: u64| #[trigger]
            kept_players.contains_key(key) ==> orig.players().contains_key(key)
                && kept_players[key] == orig.players()[key]
        &&& forall|key: u64| #[trigger]
            orig.computers().contains_key(key) ==> rest_computers.contains_key(key)
                || kept_computers.contains_key(key)
        &&& forall|key: u64| #[trigger]
            rest_computers.contains_key(key) ==> orig.computers().contains_key(key)
                && !kept_computers.contains_key(key) && rest_computers[key]
                == orig.computers()[key]
        &&& forall|key: u64| #[trigger]
            kept_computers.contains_key(key) ==> orig.computers().contains_key(key)
                && kept_computers[key] == orig.computers()[key]
    }

    /// Whether a sweep from the player node at `root` is under way: each
    /// kept node and each node to visit can be reached, the children of each
    /// kept node are kept or to visit, and so is the root.
    spec fn sweeping(
        orig: Self,
        root: u64,
        kept_players: Map<u64, PlayerNode<T>>,
        kept_computers: Map<u64, ComputerNode>,
        work: Seq<NodeId>,
    ) -> bool {
        &&& forall|i: int|
            0 <= i < work.len() ==> orig.links().reachable(root, #[trigger] work[i])
        &&& forall|id: NodeId| #[trigger]
            Self::holds(kept_players, kept_computers, id) ==> orig.links().reachable(root, id)
        &&& forall|from: NodeId, to: NodeId|
            Self::holds(kept_players, kept_computers, from) && #[trigger] orig.links().edge(
                from,
                to,
            ) ==> Self::holds(kept_players, kept_computers, to) || work.contains(to)
        &&& Self::holds(kept_players, kept_computers, NodeId::Player(root)) || work.contains(
            NodeId::Player(root),
        )
    }

    /// The sweep goes on when it leaves out a node that is kept already.
    proof fn lemma_sweep_skip(
        orig: Self,
        root: u64,
        kept_players: Map<u64, PlayerNode<T>>,
        kept_computers: Map<u64, ComputerNode>,
        work: Seq<NodeId>,
    )
        requires
            Self::sweeping(orig, root, kept_players, kept_computers, work),
            work.len() > 0,
            Self::holds(kept_players, kept_computers, work.last()),
        ensures
            Self::sweeping(orig, root, kept_players, kept_computers, work.drop_last()),
    {
        let left = work.drop_last();
        assert forall|to: NodeId| work.contains(to) implies to == work.last() || left.contains(
            to,
        ) by {
            let i = choose|i: int| 0 <= i < work.len() && work[i] == to;
            if i < left.len() {
                assert(left[i] == to);
            }
        }
        assert forall|i: int| 0 <= i < left.len() implies orig.links().reachable(
            root,
            #[trigger] left[i],
        ) by {
            assert(left[i] == work[i]);
        }
    }

    /// The sweep goes on when it keeps a node and has all its children to
    /// visit.
    proof fn lemma_sweep_keep(
        orig: Self,
        root: u64,
        kept_players: Map<u64, PlayerNode<T>>,
        kept_computers: Map<u64, ComputerNode>,
        work: Seq<NodeId>,
        more_players: Map<u64, PlayerNode<T>>,
        more_computers: Map<u64, ComputerNode>,
        more_work: Seq<NodeId>,
    )
        requires
            Self::sweeping(orig, root, kept_players, kept_computers, work),
            work.len() > 0,
            more_work.len() >= work.len() - 1,
            more_work.take(work.len() - 1) == work.drop_last(),
            forall|id: NodeId|
                Self::holds(more_players, more_computers, id) <==> id == work.last()
                    || Self::holds(kept_players, kept_computers, id),
            forall|i: int|
                work.len() - 1 <= i < more_work.len() ==> orig.links().edge(
                    work.last(),
                    #[trigger] more_work[i],
                ),
            forall|to: NodeId| #[trigger]
                orig.links().edge(work.last(), to) ==> more_work.contains(to),
        ensures
            Self::sweeping(orig, root, more_players, more_computers, more_work),
    {
        let left = work.drop_last();
        let id = work.last();
        let links = orig.links();
        assert(links.reachable(root, work[work.len() - 1]));
        assert forall|to: NodeId| work.contains(to) implies to == id || more_work.contains(to) by {
            let i = choose|i: int| 0 <= i < work.len() && work[i] == to;
            if i < left.len() {
                assert(more_work.take(work.len() - 1)[i] == left[i]);
                assert(more_work[i] == to);
            }
        }
        assert forall|i: int| 0 <= i < more_work.len() implies links.reachable(
            root,
            #[trigger] more_work[i],
        ) by {
            if i < work.len() - 1 {
                assert(more_work.take(work.len() - 1)[i] == left[i]);
                assert(left[i] == work[i]);
            } else {
                links.lemma_step(root, id, more_work[i]);
            }
        }
        assert forall|from: NodeId, to: NodeId|
            Self::holds(more_players, more_computers, from) && #[trigger] links.edge(
                from,
                to,
            ) implies Self::holds(more_players, more_computers, to) || more_work.contains(to) by {
            if from != id {
                assert(Self::holds(kept_players, kept_computers, from));
            }
        }
    }

    /// Adds the children of a player node to the nodes to visit.
    fn push_player_children(work: &mut Vec<NodeId>, node: &PlayerNode<T>)
        ensures
            final(work)@.len() >= old(work)@.len(),
            final(work)@.take(old(work)@.len() as int) == old(work)@,
            forall|i: int|
                old(work)@.len() <= i < final(work)@.len() ==> (#[trigger] final(work)@[i]
                    matches NodeId::Computer(key) && player_links(*node).contains(key)),
            forall|key: u64|
                player_links(*node).contains(key) ==> final(work)@.contains(
                    NodeId::Computer(key),
                ),
    {
        match node.children() {
            Some(children) => {
                let mut i: usize = 0;
                assert(work@.take(old(work)@.len() as int) =~= old(work)@);
                while i < 4
                    invariant
                        i <= 4,
                        node.spec_children() == Some(*children),
                        work@.len() >= old(work)@.len(),
                        work@.take(old(work)@.len() as int) == old(work)@,
                        forall|n: int|
                            old(work)@.len() <= n < work@.len() ==> (#[trigger] work@[n]
                                matches NodeId::Computer(key) && player_links(*node).contains(key)),
                        forall|j: int|
                            0 <= j < i ==> (#[trigger] children.slots()[j] matches Some(child)
                                ==> work@.contains(NodeId::Computer(child.0))),
                    decreases 4 - i,
                {
                    let ghost before = work@;
                    match children.get(MOVES[i]) {
                        Some(child) => {
                            work.push(NodeId::Computer(child.0));
                            proof {
                                assert(children.slots()[i as int] == Some(Grid(child.0)));
                                assert(children.has(Grid(child.0)));
                                assert(work@[before.len() as int] == NodeId::Computer(child.0));
                                assert(work@.take(old(work)@.len() as int) =~= old(work)@);
                                assert forall|j: int| 0 <= j < i implies (
                                #[trigger] children.slots()[j] matches Some(c) ==> work@.contains(
                                    NodeId::Computer(c.0),
                                )) by {
                                    if children.slots()[j] is Some {
                                        let c = children.slots()[j]->Some_0;
                                        let n = choose|n: int|
                                            0 <= n < before.len() && before[n] == NodeId::Computer(
                                                c.0,
                                            );
                                        assert(work@[n] == NodeId::Computer(c.0));
                                    }
                                }
                            }
                        },
                        None => {},
                    }
                    i += 1;
                }
                proof {
                    assert forall|key: u64| player_links(*node).contains(key) implies
                        work@.contains(NodeId::Computer(key)) by {
                        let j = choose|j: int|
                            0 <= j < 4 && children.slots()[j] == Some(Grid(key));
                        assert(children.slots()[j] matches Some(c) ==> work@.contains(
                            NodeId::Computer(c.0),
                        ));
                    }
                }
            },
            None => {
                assert(work@.take(old(work)@.len() as int) =~= old(work)@);
            },
        }
    }

    /// Adds the boards of `boards` to the nodes to visit, as player nodes.
    fn push_players(work: &mut Vec<NodeId>, boards: &Vec<Grid>)
        ensures
            final(work)@.len() >= old(work)@.len(),
            final(work)@.take(old(work)@.len() as int) == old(work)@,
            forall|i: int|
                old(work)@.len() <= i < final(work)@.len() ==> (#[trigger] final(work)@[i]
                    matches NodeId::Player(key) && boards@.contains(Grid(key))),
            forall|key: u64|
                boards@.contains(Grid(key)) ==> final(work)@.contains(
                    NodeId::Player(key),
                ),
    {
        let mut i: usize = 0;
        assert(work@.take(old(work)@.len() as int) =~= old(work)@);
        while i < boards.len()
            invariant
                i <= boards.len(),
                work@.len() >= old(work)@.len(),
                work@.take(old(work)@.len() as int) == old(work)@,
                forall|n: int|
                    old(work)@.len() <= n < work@.len() ==> (#[trigger] work@[n]
                        matches NodeId::Player(key) && boards@.contains(Grid(key))),
                forall|j: int|
                    0 <= j < i ==> work@.contains(NodeId::Player((#[trigger] boards@[j]).0)),
            decreases boards.len() - i,
        {
            let ghost before = work@;
            let child = boards[i];
            work.push(NodeId::Player(child.0));
            proof {
                assert(boards@[i as int] == Grid(child.0));
                assert(work@[before.len() as int] == NodeId::Player(child.0));
                assert(work@.take(old(work)@.len() as int) =~= old(work)@);
                assert forall|j: int| 0 <= j < i implies work@.contains(
                    NodeId::Player((#[trigger] boards@[j]).0),
                ) by {
                    let n = choose|n: int|
                        0 <= n < before.len() && before[n] == NodeId::Player(boards@[j].0);
                    assert(work@[n] == NodeId::Player(boards@[j].0));
                }
            }
            i += 1;
        }
        proof {
            assert forall|key: u64| boards@.contains(Grid(key)) implies work@.contains(
                NodeId::Player(key),
            ) by {
                let j = choose|j: int| 0 <= j < boards@.len() && boards@[j] == Grid(key);
                assert(work@.contains(NodeId::Player(boards@[j].0)));
            }
        }
    }

    /// Forgets every node that cannot be reached from the player node at
    /// `root`; the other nodes stay as they are.
    pub fn gc(&mut self, root: Grid)
        requires
            old(self).wf(),
            old(self).players().contains_key(root.0),
        ensures
            final(self).wf(),
            final(self).links().all_reachable(root.0),
            forall|id: NodeId|
                final(self).links().known(id) <==> old(self).links().reachable(root.0, id),
            kept(final(self).players(), old(self).players()),
            kept(final(self).computers(), old(self).computers()),
    {
        let ghost orig = *self;
        let ghost links = orig.links();
        let mut kept_players: HashMap<u64, PlayerNode<T>> = HashMap::new();
        let mut kept_computers: HashMap<u64, ComputerNode> = HashMap::new();
        let mut work: Vec<NodeId> = Vec::new();
        work.push(NodeId::Player(root.0));
        proof {
            links.lemma_root_reachable(root.0);
            assert(work@[0] == NodeId::Player(root.0));
        }
        while work.len() > 0
            invariant
                orig.wf(),
                links == orig.links(),
                Self::split(
                    orig,
                    self.player_node@,
                    self.computer_node@,
                    kept_players@,
                    kept_computers@,
                ),
                Self::sweeping(orig, root.0, kept_players@, kept_computers@, work@),
            decreases self.player_node@.len() + self.computer_node@.len(), work@.len(),
        {
            let ghost before = work@;
            let ghost rest_players = self.player_node@;
            let ghost rest_computers = self.computer_node@;
            let ghost had_players = kept_players@;
            let ghost had_computers = kept_computers@;
            let id = work.pop().unwrap();
            proof {
                assert(links.reachable(root.0, before[before.len() - 1]));
                links.lemma_reachable_known(root.0, id);
                assert(work@ =~= before.drop_last());
            }
            match id {
                NodeId::Player(key) => {
                    match self.player_node.remove(&key) {
                        Some(node) => {
                            Self::push_player_children(&mut work, &node);
                            kept_players.insert(key, node);
                            proof {
                                assert(node == orig.players()[key]);
                                rest_players.lemma_remove_key_len(key);
                                assert forall|to: NodeId| #[trigger]
                                    links.edge(id, to) implies work@.contains(to) by {
                                    let child = to->Computer_0;
                                    assert(player_links(node).contains(child));
                                    assert(work@.contains(NodeId::Computer(child)));
                                }
                                Self::lemma_sweep_keep(
                                    orig,
                                    root.0,
                                    had_players,
                                    had_computers,
                                    before,
                                    kept_players@,
                                    kept_computers@,
                                    work@,
                                );
                            }
                        },
                        None => {
                            proof {
                                assert(self.player_node@ =~= rest_players);
                                Self::lemma_sweep_skip(
                                    orig,
                                    root.0,
                                    had_players,
                                    had_computers,
                                    before,
                                );
                            }
                        },
                    }
                },
                NodeId::Computer(key) => {
                    match self.computer_node.remove(&key) {
                        Some(node) => {
                            let ghost first = work@;
                            match node.children() {
                                Some(children) => {
                                    Self::push_players(&mut work, children.with2());
                                    let ghost second = work@;
                                    Self::push_players(&mut work, children.with4());
                                    proof {
                                        assert(work@.take(first.len() as int) =~= second.take(
                                            first.len() as int,
                                        ));
                                        assert(work@.take(first.len() as int) =~= first);
                                        assert forall|n: int|
                                            first.len() <= n < work@.len() implies links.edge(
                                            id,
                                            #[trigger] work@[n],
                                        ) by {
                                            if n < second.len() {
                                                assert(work@.take(second.len() as int)[n]
                                                    == second[n]);
                                            }
                                            let child = work@[n]->Player_0;
                                            assert(children.has(Grid(child)));
                                        }
                                        assert forall|to: NodeId| #[trigger]
                                            links.edge(id, to) implies work@.contains(to) by {
                                            let child = to->Player_0;
                                            assert(children.has(Grid(child)));
                                            if children.spec_with2().contains(Grid(child)) {
                                                let n = choose|n: int|
                                                    0 <= n < second.len() && second[n]
                                                        == NodeId::Player(child);
                                                assert(work@.take(second.len() as int)[n]
                                                    == second[n]);
                                            }
                                        }
                                    }
                                },
                                None => {},
                            }
                            kept_computers.insert(key, node);
                            proof {
                                assert(work@.take(first.len() as int) =~= first);
                                assert(node == orig.computers()[key]);
                                rest_computers.lemma_remove_key_len(key);
                                Self::lemma_sweep_keep(
                                    orig,
                                    root.0,
                                    had_players,
                                    had_computers,
                                    before,
                                    kept_players@,
                                    kept_computers@,
                                    work@,
                                );
                            }
                        },
                        None => {
                            proof {
                                assert(self.computer_node@ =~= rest_computers);
                                Self::lemma_sweep_skip(
                                    orig,
                                    root.0,
                                    had_players,
                                    had_computers,
                                    before,
                                );
                            }
                        },
                    }
                },
            }
        }
        self.player_node = kept_players;
        self.computer_node = kept_computers;
        proof {
            let part = self.links();
            let keep = Set::new(|id: NodeId| part.known(id));
            assert forall|id: NodeId| links.reachable(root.0, id) implies part.known(id) by {
                assert forall|from: NodeId, to: NodeId|
                    keep.contains(from) && #[trigger] links.edge(from, to) implies keep.contains(
                    to,
                ) by {
                    assert(Self::holds(self.players(), self.computers(), from));
                    assert(Self::holds(self.players(), self.computers(), to));
                }
                assert(Self::holds(self.players(), self.computers(), NodeId::Player(root.0)));
                links.lemma_closed_set(root.0, keep, id);
            }
            assert forall|id: NodeId| part.known(id) implies links.reachable(root.0, id) by {
                assert(Self::holds(self.players(), self.computers(), id));
            }
            assert forall|from: NodeId, to: NodeId| #[trigger] part.edge(from, to) implies
                links.edge(from, to) && part.known(to) by {
                assert(Self::holds(self.players(), self.computers(), from));
                match from {
                    NodeId::Player(key) => {
                        assert(self.players()[key] == orig.players()[key]);
                    },
                    NodeId::Computer(key) => {
                        assert(self.computers()[key] == orig.computers()[key]);
                    },
                }
                assert(links.edge(from, to));
                assert(Self::holds(self.players(), self.computers(), to));
            }
            assert forall|id: NodeId| #[trigger] part.known(id) implies part.reachable(
                root.0,
                id,
            ) by {
                assert forall|from: NodeId, to: NodeId|
                    links.reachable(root.0, from) && #[trigger] links.edge(
                        from,
                        to,
                    ) implies part.edge(from, to) by {
                    assert(part.known(from));
                }
                links.lemma_restrict(part, root.0, id);
            }
        }
    }

    /// Replaces what the caller keeps with the player node at `board`, if
    /// that node is known, and says whether it is.
    pub fn set_player_data(&mut self, board: Grid, data: T) -> (known: bool)
        requires
            old(self).wf(),
        ensures
            final(self).wf(),
            known <==> old(self).players().contains_key(board.0),
            final(self).computers() == old(self).computers(),
            same_but(old(self).players(), final(self).players(), board.0),
            known ==> ({
                let before = old(self).players()[board.0];
                let after = final(self).players()[board.0];
                &&& after.spec_board() == before.spec_board()
                &&& after.spec_children() == before.spec_children()
                &&& after.spec_data() == data
            }),
            final(self).links() == old(self).links(),
    {
        match self.player_node.remove(&board.0) {
            Some(node) => {
                let mut node = node;
                node.set_data(data);
                self.player_node.insert(board.0, node);
                proof {
                    assert(self.players().dom() =~= old(self).players().dom());
                    assert(self.links().players =~= old(self).links().players);
                    assert(self.links().computers =~= old(self).links().computers);
                }
                true
            },
            None => {
                proof {
                    assert(self.players() =~= old(self).players());
                }
                false
            },
        }
    }
}

} // verus!
