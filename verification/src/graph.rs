//! Which nodes of a game tree lead to which, and which can be reached from
//! the root.

use vstd::prelude::*;

verus! {

/// The name of a node: its kind, and its board as a 64-bit word.
#[derive(Clone, Copy, Debug, PartialEq, Eq, Structural)]
pub enum NodeId {
    /// A node before the move of the player.
    Player(u64),
    /// A node before the move of the computer.
    Computer(u64),
}

/// The known nodes, each with the boards of its children. A node whose
/// children have not been made has none here.
pub struct Links {
    /// The boards of the children of each known player node.
    pub players: Map<u64, Set<u64>>,
    /// The boards of the children of each known computer node.
    pub computers: Map<u64, Set<u64>>,
}

impl Links {
    /// Whether the node is known.
    pub open spec fn known(self, id: NodeId) -> bool {
        match id {
            NodeId::Player(board) => self.players.contains_key(board),
            NodeId::Computer(board) => self.computers.contains_key(board),
        }
    }

    /// Whether `to` is a child of the known node `from`.
    pub open spec fn edge(self, from: NodeId, to: NodeId) -> bool {
        match (from, to) {
            (NodeId::Player(parent), NodeId::Computer(child)) => self.players.contains_key(parent)
                && self.players[parent].contains(child),
            (NodeId::Computer(parent), NodeId::Player(child)) => self.computers.contains_key(
                parent,
            ) && self.computers[parent].contains(child),
            _ => false,
        }
    }

    /// Whether every child of a known node is known.
    pub open spec fn closed(self) -> bool {
        forall|from: NodeId, to: NodeId| #[trigger] self.edge(from, to) ==> self.known(to)
    }

    /// Whether `path` leads from the player node at `root` from child to
    /// child.
    pub open spec fn is_path(self, root: u64, path: Seq<NodeId>) -> bool {
        &&& path.len() > 0
        &&& path[0] == NodeId::Player(root)
        &&& self.known(path[0])
        &&& forall|i: int| 0 <= i < path.len() - 1 ==> #[trigger] self.edge(path[i], path[i + 1])
    }

    /// Whether a path leads from the player node at `root` to the node.
    pub open spec fn reachable(self, root: u64, id: NodeId) -> bool {
        exists|path: Seq<NodeId>| #[trigger] self.is_path(root, path) && path.last() == id
    }

    /// Whether every known node can be reached from the player node at
    /// `root`.
    pub open spec fn all_reachable(self, root: u64) -> bool {
        forall|id: NodeId| #[trigger] self.known(id) ==> self.reachable(root, id)
    }

    /// The root, if known, can be reached.
    pub proof fn lemma_root_reachable(self, root: u64)
        requires
            self.known(NodeId::Player(root)),
        ensures
            self.reachable(root, NodeId::Player(root)),
    {
        assert(self.is_path(root, seq![NodeId::Player(root)]));
    }

    /// A child of a node that can be reached can be reached.
    pub proof fn lemma_step(self, root: u64, from: NodeId, to: NodeId)
        requires
            self.reachable(root, from),
            self.edge(from, to),
        ensures
            self.reachable(root, to),
    {
        let path = choose|path: Seq<NodeId>| #[trigger]
            self.is_path(root, path) && path.last() == from;
        let longer = path.push(to);
        assert forall|i: int| 0 <= i < longer.len() - 1 implies #[trigger] self.edge(
            longer[i],
            longer[i + 1],
        ) by {
            if i < path.len() - 1 {
                assert(self.edge(path[i], path[i + 1]));
            }
        }
        assert(self.is_path(root, longer));
    }

    /// A node that can be reached is known.
    pub proof fn lemma_reachable_known(self, root: u64, id: NodeId)
        requires
            self.closed(),
            self.reachable(root, id),
        ensures
            self.known(id),
    {
        let path = choose|path: Seq<NodeId>| #[trigger]
            self.is_path(root, path) && path.last() == id;
        if path.len() > 1 {
            assert(self.edge(path[path.len() - 2], path[path.len() - 2 + 1]));
        }
    }

    /// The start of a path is a path.
    proof fn lemma_prefix(self, root: u64, path: Seq<NodeId>, i: int)
        requires
            self.is_path(root, path),
            0 <= i < path.len(),
        ensures
            self.is_path(root, path.take(i + 1)),
            path.take(i + 1).last() == path[i],
            self.reachable(root, path[i]),
    {
        let start = path.take(i + 1);
        assert forall|j: int| 0 <= j < start.len() - 1 implies #[trigger] self.edge(
            start[j],
            start[j + 1],
        ) by {
            assert(self.edge(path[j], path[j + 1]));
        }
    }

    /// What can be reached in `self` can be reached in `more`, where `more`
    /// knows the root and has every edge of `self`.
    pub proof fn lemma_grow(self, more: Links, root: u64, id: NodeId)
        requires
            self.known(NodeId::Player(root)) ==> more.known(NodeId::Player(root)),
            forall|from: NodeId, to: NodeId| #[trigger]
                self.edge(from, to) ==> more.edge(from, to),
            self.reachable(root, id),
        ensures
            more.reachable(root, id),
    {
        let path = choose|path: Seq<NodeId>| #[trigger]
            self.is_path(root, path) && path.last() == id;
        assert forall|i: int| 0 <= i < path.len() - 1 implies #[trigger] more.edge(
            path[i],
            path[i + 1],
        ) by {
            assert(self.edge(path[i], path[i + 1]));
        }
        assert(more.is_path(root, path));
    }

    /// A set of nodes that holds the root, and with a node each of its
    /// children, holds every node that can be reached.
    pub proof fn lemma_closed_set(self, root: u64, keep: Set<NodeId>, id: NodeId)
        requires
            keep.contains(NodeId::Player(root)),
            forall|from: NodeId, to: NodeId|
                keep.contains(from) && #[trigger] self.edge(from, to) ==> keep.contains(to),
            self.reachable(root, id),
        ensures
            keep.contains(id),
    {
        let path = choose|path: Seq<NodeId>| #[trigger]
            self.is_path(root, path) && path.last() == id;
        self.lemma_path_in_set(root, keep, path, path.len() - 1);
    }

    /// Such a set holds every node of a path from the root.
    proof fn lemma_path_in_set(self, root: u64, keep: Set<NodeId>, path: Seq<NodeId>, i: int)
        requires
            keep.contains(NodeId::Player(root)),
            forall|from: NodeId, to: NodeId|
                keep.contains(from) && #[trigger] self.edge(from, to) ==> keep.contains(to),
            self.is_path(root, path),
            0 <= i < path.len(),
        ensures
            keep.contains(path[i]),
        decreases i,
    {
        if i > 0 {
            self.lemma_path_in_set(root, keep, path, i - 1);
            assert(self.edge(path[i - 1], path[i - 1 + 1]));
        }
    }

    /// What can be reached in `self` can be reached in `part`, where `part`
    /// knows every node that can be reached in `self`, with the same
    /// children.
    pub proof fn lemma_restrict(self, part: Links, root: u64, id: NodeId)
        requires
            forall|n: NodeId| #[trigger] self.reachable(root, n) ==> part.known(n),
            forall|from: NodeId, to: NodeId|
                self.reachable(root, from) && #[trigger] self.edge(from, to) ==> part.edge(
                    from,
                    to,
                ),
            self.reachable(root, id),
        ensures
            part.reachable(root, id),
    {
        let path = choose|path: Seq<NodeId>| #[trigger]
            self.is_path(root, path) && path.last() == id;
        self.lemma_prefix(root, path, 0);
        assert forall|i: int| 0 <= i < path.len() - 1 implies #[trigger] part.edge(
            path[i],
            path[i + 1],
        ) by {
            self.lemma_prefix(root, path, i);
            assert(self.edge(path[i], path[i + 1]));
        }
        assert(part.is_path(root, path));
    }
}

} // verus!
