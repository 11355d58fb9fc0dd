//! The nodes of the game tree: a board before the move of the player, or
//! before the move of the computer, with its children once they are known.

use crate::game_logic::{Grid, Move, MOVES};
use lazycell::LazyCell;
use vstd::prelude::*;

verus! {

/// `lazycell::LazyCell`: a cell that holds nothing until it is filled, and
/// keeps what it was filled with.
#[verifier::external_type_specification]
#[verifier::external_body]
#[verifier::reject_recursive_types(T)]
pub struct ExLazyCell<T>(LazyCell<T>);

/// The children of a player node: for each move, in the fixed order of the
/// moves, the board after it if the move is legal.
#[derive(Clone, Copy, Debug)]
pub struct PlayerNodeChildren {
    nodes: [Option<Grid>; 4],
}

/// The children of a computer node: the boards with a new tile 1, which
/// shows as a 2, and those with a new tile 2, which shows as a 4. A 4 comes
/// up once in ten times only, so the two kinds are kept apart.
#[derive(Debug)]
pub struct ComputerNodeChildren {
    with2: Vec<Grid>,
    with4: Vec<Grid>,
}

/// What a cell of a player node holds: nothing, or the children it was
/// filled with.
pub uninterp spec fn player_cell(cell: LazyCell<PlayerNodeChildren>) -> Option<PlayerNodeChildren>;

/// What a cell of a computer node holds: nothing, or the children it was
/// filled with.
pub uninterp spec fn computer_cell(
    cell: LazyCell<ComputerNodeChildren>,
) -> Option<ComputerNodeChildren>;

/// `LazyCell::new`: a cell that holds nothing.
#[verifier::external_body]
fn new_player_cell() -> (cell: LazyCell<PlayerNodeChildren>)
    ensures
        player_cell(cell) is None,
{
    LazyCell::new()
}

/// `LazyCell::borrow`: what the cell holds, if it was filled.
#[verifier::external_body]
fn borrow_player_cell(
    cell: &LazyCell<PlayerNodeChildren>,
) -> (children: Option<&PlayerNodeChildren>)
    ensures
        children is None ==> player_cell(*cell) is None,
        children matches Some(c) ==> player_cell(*cell) == Some(*c),
{
    cell.borrow()
}

/// `LazyCell::fill`: puts `children` into a cell that holds nothing and
/// says that it did; a cell that was filled stays as it is.
#[verifier::external_body]
fn fill_player_cell(
    cell: &mut LazyCell<PlayerNodeChildren>,
    children: PlayerNodeChildren,
) -> (done: bool)
    ensures
        done <==> player_cell(*old(cell)) is None,
        done ==> player_cell(*final(cell)) == Some(children),
        !done ==> player_cell(*final(cell)) == player_cell(*old(cell)),
{
    cell.fill(children).is_ok()
}

/// `LazyCell::new`: a cell that holds nothing.
#[verifier::external_body]
fn new_computer_cell() -> (cell: LazyCell<ComputerNodeChildren>)
    ensures
        computer_cell(cell) is None,
{
    LazyCell::new()
}

/// `LazyCell::borrow`: what the cell holds, if it was filled.
#[verifier::external_body]
fn borrow_computer_cell(
    cell: &LazyCell<ComputerNodeChildren>,
) -> (children: Option<&ComputerNodeChildren>)
    ensures
        children is None ==> computer_cell(*cell) is None,
        children matches Some(c) ==> computer_cell(*cell) == Some(*c),
{
    cell.borrow()
}

/// `LazyCell::fill`: puts `children` into a cell that holds nothing and
/// says that it did; a cell that was filled stays as it is.
#[verifier::external_body]
fn fill_computer_cell(
    cell: &mut LazyCell<ComputerNodeChildren>,
    children: ComputerNodeChildren,
) -> (done: bool)
    ensures
        done <==> computer_cell(*old(cell)) is None,
        done ==> computer_cell(*final(cell)) == Some(children),
        !done ==> computer_cell(*final(cell)) == computer_cell(*old(cell)),
{
    cell.fill(children).is_ok()
}

impl PlayerNodeChildren {
    /// The four slots, in the fixed order of the moves.
    pub closed spec fn slots(self) -> Seq<Option<Grid>> {
        self.nodes@
    }

    /// The children from the slot `i` on, each with its move.
    pub open spec fn spec_iter_from(self, i: int) -> Seq<(Move, Grid)>
        decreases 4 - i,
    {
        if i < 0 || i >= 4 {
            Seq::empty()
        } else {
            match self.slots()[i] {
                Some(board) => seq![(MOVES@[i], board)] + self.spec_iter_from(i + 1),
                None => self.spec_iter_from(i + 1),
            }
        }
    }

    /// The children with their moves, in the fixed order of the moves.
    pub open spec fn spec_iter(self) -> Seq<(Move, Grid)> {
        self.spec_iter_from(0)
    }

    /// Whether these are the children of a player node at `board`: the slot
    /// of each legal move holds the board after it, and the slot of each
    /// other move holds nothing.
    pub open spec fn children_of(self, board: Grid) -> bool {
        &&& self.slots().len() == 4
        &&& forall|mv: Move| #[trigger]
            self.slots()[mv.spec_ordinal()] == (if board.spec_is_legal(mv) {
                Some(board.spec_make_move(mv))
            } else {
                None
            })
    }

    /// Whether a node at `board` is among the children.
    pub open spec fn has(self, board: Grid) -> bool {
        exists|i: int| 0 <= i < 4 && self.slots()[i] == Some(board)
    }

    /// The children of a player node at `board` are its legal moves, in
    /// their order, with the boards after them.
    pub proof fn lemma_iter_of_children(self, board: Grid)
        requires
            self.children_of(board),
        ensures
            self.spec_iter() == board.spec_player_moves(),
    {
        self.lemma_iter_from(board, 0);
    }

    /// From each slot on, the children of a player node at `board` are its
    /// legal moves from that place on.
    proof fn lemma_iter_from(self, board: Grid, i: int)
        requires
            self.children_of(board),
            0 <= i <= 4,
        ensures
            self.spec_iter_from(i) == board.spec_player_moves_from(i),
        decreases 4 - i,
    {
        if i < 4 {
            self.lemma_iter_from(board, i + 1);
            assert(MOVES@[i].spec_ordinal() == i);
        }
    }

    /// The children with the given slots.
    pub(crate) fn new(nodes: [Option<Grid>; 4]) -> (children: PlayerNodeChildren)
        ensures
            children.slots() == nodes@,
    {
        PlayerNodeChildren { nodes }
    }

    /// The board after the move `mv`, if the move is legal.
    pub fn get(&self, mv: Move) -> (child: Option<Grid>)
        ensures
            child == self.slots()[mv.spec_ordinal()],
    {
        self.nodes[mv.ordinal()]
    }

    /// Whether there are no children. This is so at the end of the game.
    pub fn is_empty(&self) -> (empty: bool)
        ensures
            empty <==> forall|i: int| 0 <= i < 4 ==> self.slots()[i] is None,
            empty <==> self.spec_iter().len() == 0,
    {
        let mut i: usize = 0;
        while i < 4
            invariant
                i <= 4,
                forall|j: int| 0 <= j < i ==> self.slots()[j] is None,
            decreases 4 - i,
        {
            if self.nodes[i].is_some() {
                proof {
                    self.lemma_iter_len(0);
                    assert(self.slots()[i as int] is Some);
                }
                return false;
            }
            i += 1;
        }
        proof {
            self.lemma_iter_len(0);
        }
        true
    }

    /// There are no children from the slot `i` on exactly if those slots
    /// hold nothing.
    proof fn lemma_iter_len(self, i: int)
        requires
            0 <= i <= 4,
        ensures
            self.spec_iter_from(i).len() == 0 <==> forall|j: int|
                i <= j < 4 ==> self.slots()[j] is None,
        decreases 4 - i,
    {
        if i < 4 {
            self.lemma_iter_len(i + 1);
        }
    }

    /// The children with their moves, in the fixed order of the moves.
    pub fn iter(&self) -> (children: Vec<(Move, Grid)>)
        ensures
            children@ == self.spec_iter(),
    {
        let mut children: Vec<(Move, Grid)> = Vec::new();
        let mut index: usize = 0;
        assert(children@ + self.spec_iter_from(0) =~= self.spec_iter());
        while index < 4
            invariant
                index <= 4,
                children@ + self.spec_iter_from(index as int) == self.spec_iter(),
            decreases 4 - index,
        {
            let ghost given = children@;
            match self.nodes[index] {
                Some(board) => {
                    children.push((MOVES[index], board));
                },
                None => {},
            }
            assert(children@ + self.spec_iter_from(index + 1) =~= given + self.spec_iter_from(
                index as int,
            ));
            index += 1;
        }
        assert(children@ + self.spec_iter_from(4) =~= children@);
        children
    }

    /// The children without their moves, in the fixed order of the moves.
    pub fn values(&self) -> (children: Vec<Grid>)
        ensures
            children@ == self.spec_iter().map_values(|entry: (Move, Grid)| entry.1),
    {
        let with_moves = self.iter();
        let mut children: Vec<Grid> = Vec::new();
        let mut index: usize = 0;
        while index < with_moves.len()
            invariant
                index <= with_moves.len(),
                children@ == with_moves@.take(index as int).map_values(
                    |entry: (Move, Grid)| entry.1,
                ),
            decreases with_moves.len() - index,
        {
            children.push(with_moves[index].1);
            index += 1;
            assert(children@ =~= with_moves@.take(index as int).map_values(
                |entry: (Move, Grid)| entry.1,
            ));
        }
        assert(with_moves@.take(index as int) =~= with_moves@);
        children
    }
}

impl ComputerNodeChildren {
    /// The boards with a new tile 1, by rising cell of the new tile.
    pub closed spec fn spec_with2(self) -> Seq<Grid> {
        self.with2@
    }

    /// The boards with a new tile 2, by rising cell of the new tile.
    pub closed spec fn spec_with4(self) -> Seq<Grid> {
        self.with4@
    }

    /// Whether these are the children of a computer node at `board`: its
    /// moves with a tile 1, and its moves with a tile 2.
    pub open spec fn children_of(self, board: Grid) -> bool {
        &&& self.spec_with2() == board.spec_ai_moves(1)
        &&& self.spec_with4() == board.spec_ai_moves(2)
    }

    /// Whether a node at `board` is among the children.
    pub open spec fn has(self, board: Grid) -> bool {
        self.spec_with2().contains(board) || self.spec_with4().contains(board)
    }

    /// The children with the given boards.
    pub(crate) fn new(with2: Vec<Grid>, with4: Vec<Grid>) -> (children: ComputerNodeChildren)
        ensures
            children.spec_with2() == with2@,
            children.spec_with4() == with4@,
    {
        ComputerNodeChildren { with2, with4 }
    }

    /// The boards that the computer reaches by placing a 2.
    pub fn with2(&self) -> (boards: &Vec<Grid>)
        ensures
            boards@ == self.spec_with2(),
    {
        &self.with2
    }

    /// The boards that the computer reaches by placing a 4.
    pub fn with4(&self) -> (boards: &Vec<Grid>)
        ensures
            boards@ == self.spec_with4(),
    {
        &self.with4
    }

    /// The number of boards of either kind.
    pub fn variants(&self) -> (count: usize)
        ensures
            count == self.spec_with2().len(),
    {
        self.with2.len()
    }
}

/// A board that the player can face on their turn. The children are made
/// when they are first asked for, and then kept.
pub struct PlayerNode<T> {
    board: Grid,
    children: LazyCell<PlayerNodeChildren>,
    data: T,
}

impl<T: Copy + Default> PlayerNode<T> {
    /// The board of the node.
    pub closed spec fn spec_board(self) -> Grid {
        self.board
    }

    /// The children of the node, if they have been made.
    pub closed spec fn spec_children(self) -> Option<PlayerNodeChildren> {
        player_cell(self.children)
    }

    /// What the caller keeps with the node.
    pub closed spec fn spec_data(self) -> T {
        self.data
    }

    /// Whether the children of the node, where they have been made, are
    /// those of its board.
    pub open spec fn wf(self) -> bool {
        self.spec_children() matches Some(children) ==> children.children_of(self.spec_board())
    }

    /// Whether the node is as it is made: at `board`, without children, and
    /// with the default value of `T` kept with it.
    pub open spec fn is_new(self, board: Grid) -> bool {
        &&& self.spec_board() == board
        &&& self.spec_children() is None
        &&& call_ensures(T::default, (), self.spec_data())
    }

    /// A node at `board` without children yet, with the default value of
    /// `T` kept with it.
    pub(crate) fn new(board: Grid) -> (node: Self)
        ensures
            node.is_new(board),
            node.wf(),
    {
        PlayerNode { board, children: new_player_cell(), data: T::default() }
    }

    /// What the caller keeps with the node.
    pub fn data(&self) -> (data: T)
        ensures
            data == self.spec_data(),
    {
        self.data
    }

    /// The board of the node.
    pub fn board(&self) -> (board: &Grid)
        ensures
            *board == self.spec_board(),
    {
        &self.board
    }

    /// The children of the node, if they have been made.
    pub fn children(&self) -> (children: Option<&PlayerNodeChildren>)
        ensures
            children is None ==> self.spec_children() is None,
            children matches Some(c) ==> self.spec_children() == Some(*c),
    {
        borrow_player_cell(&self.children)
    }

    /// Gives the node its children, unless it has some.
    pub(crate) fn fill(&mut self, children: PlayerNodeChildren) -> (done: bool)
        ensures
            final(self).spec_board() == old(self).spec_board(),
            final(self).spec_data() == old(self).spec_data(),
            done <==> old(self).spec_children() is None,
            done ==> final(self).spec_children() == Some(children),
            !done ==> final(self).spec_children() == old(self).spec_children(),
    {
        fill_player_cell(&mut self.children, children)
    }

    /// Replaces what the caller keeps with the node.
    pub(crate) fn set_data(&mut self, data: T)
        ensures
            final(self).spec_board() == old(self).spec_board(),
            final(self).spec_children() == old(self).spec_children(),
            final(self).spec_data() == data,
    {
        self.data = data;
    }
}

/// A board that the computer can face on its turn. The children are made
/// when they are first asked for, and then kept.
pub struct ComputerNode {
    board: Grid,
    children: LazyCell<ComputerNodeChildren>,
}

impl ComputerNode {
    /// The board of the node.
    pub closed spec fn spec_board(self) -> Grid {
        self.board
    }

    /// The children of the node, if they have been made.
    pub closed spec fn spec_children(self) -> Option<ComputerNodeChildren> {
        computer_cell(self.children)
    }

    /// Whether the children of the node, where they have been made, are
    /// those of its board.
    pub open spec fn wf(self) -> bool {
        self.spec_children() matches Some(children) ==> children.children_of(self.spec_board())
    }

    /// A node at `board` without children yet.
    pub(crate) fn new(board: Grid) -> (node: Self)
        ensures
            node.spec_board() == board,
            node.spec_children() is None,
            node.wf(),
    {
        ComputerNode { board, children: new_computer_cell() }
    }

    /// The board of the node.
    pub fn board(&self) -> (board: &Grid)
        ensures
            *board == self.spec_board(),
    {
        &self.board
    }

    /// The children of the node, if they have been made.
    pub fn children(&self) -> (children: Option<&ComputerNodeChildren>)
        ensures
            children is None ==> self.spec_children() is None,
            children matches Some(c) ==> self.spec_children() == Some(*c),
    {
        borrow_computer_cell(&self.children)
    }

    /// Gives the node its children, unless it has some.
    pub(crate) fn fill(&mut self, children: ComputerNodeChildren) -> (done: bool)
        ensures
            final(self).spec_board() == old(self).spec_board(),
            done <==> old(self).spec_children() is None,
            done ==> final(self).spec_children() == Some(children),
            !done ==> final(self).spec_children() == old(self).spec_children(),
    {
        fill_computer_cell(&mut self.children, children)
    }
}

} // verus!
