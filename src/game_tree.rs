//! Nodes of the game tree and the generation of their children.

use vstd::prelude::*;
use crate::space::{Role, Space, Square, Status, opposite_spec, exit_seq, exit_squares};
use crate::board::{Board, move_error, play_outcome, board_after, king_square};
use crate::game::{Play, PositionsTracker, PreviousBoards, TrackerView, tracker_after, tracker_view_len};
use crate::symmetries::{normalize_spec, class_key, NormalizedBoards};
use crate::alpha_beta::{GameNode, InternalNode};

verus! {

/// What a game tree node stands for
pub struct NodeState {
    pub status: Status,
    pub turn: Role,
    pub board: Seq<Space>,
    pub tracker: TrackerView,
}

/// The square at position `k` of the iteration over the board: down each
/// column, one column after another
pub open spec fn iter_square(k: int) -> Square {
    Square { x: (k / 11) as usize, y: (k % 11) as usize }
}

/// The node reached by moving the piece on `from` to `to`, if the rules allow it
#[verifier::opaque]
pub open spec fn child_state(st: NodeState, from: Square, to: Square) -> Option<NodeState> {
    let p = Play { role: st.turn, from, to };
    if move_error(st.board, p, st.status) is Some {
        None
    } else {
        match play_outcome(st.board, p, st.tracker) {
            Err(_) => None,
            Ok(status) => Some(
                NodeState {
                    status,
                    turn: opposite_spec(st.turn),
                    board: board_after(st.board, p),
                    tracker: tracker_after(st.tracker, board_after(st.board, p)),
                },
            ),
        }
    }
}

#[verifier::opaque]
/// The children found from the `p`-th pair of squares on, leaving out those
/// whose symmetry class is in `seen` or was found before
pub open spec fn children_from(st: NodeState, p: int, seen: Seq<Seq<u8>>) -> Seq<NodeState>
    decreases 14641 - p,
{
    if p >= 14641 || p < 0 {
        Seq::empty()
    } else {
        match child_state(st, iter_square(p / 121), iter_square(p % 121)) {
            Some(c) => if seen.contains(class_key(c.board)) {
                children_from(st, p + 1, seen)
            } else {
                seq![c] + children_from(st, p + 1, seen.push(class_key(c.board)))
            },
            None => children_from(st, p + 1, seen),
        }
    }
}

/// All children of a node, one for each class of symmetric positions, in
/// the order in which the moves are tried
pub open spec fn children_spec(st: NodeState) -> Seq<NodeState> {
    if tracker_view_len(st.tracker) >= usize::MAX {
        Seq::empty()
    } else {
        children_from(st, 0, Seq::empty())
    }
}

/// One step of the enumeration of children
pub proof fn lemma_children_step(st: NodeState, p: int, seen: Seq<Seq<u8>>)
    requires
        0 <= p < 14641,
    ensures
        match child_state(st, iter_square(p / 121), iter_square(p % 121)) {
            Some(c) => if seen.contains(class_key(c.board)) {
                children_from(st, p, seen) == children_from(st, p + 1, seen)
            } else {
                children_from(st, p, seen) == seq![c] + children_from(st, p + 1, seen.push(class_key(c.board)))
            },
            None => children_from(st, p, seen) == children_from(st, p + 1, seen),
        },
{
    reveal(children_from);
}

pub proof fn lemma_children_end(st: NodeState, seen: Seq<Seq<u8>>)
    ensures
        forall|p: int| p >= 14641 ==> #[trigger] children_from(st, p, seen) == Seq::<NodeState>::empty(),
{
    reveal(children_from);
}

/// One step of the search for winning king moves
pub proof fn lemma_threats_step(st: NodeState, king: Square, k: int, seen: Seq<Seq<Space>>)
    requires
        0 <= k < 4,
    ensures
        match child_state(st, king, exit_seq()[k]) {
            Some(c) => {
                let n = NodeState { board: normalize_spec(c.board), ..c };
                if seen.contains(n.board) {
                    threats_from(st, king, k, seen) == threats_from(st, king, k + 1, seen)
                } else {
                    threats_from(st, king, k, seen) == seq![n] + threats_from(st, king, k + 1, seen.push(n.board))
                }
            },
            None => threats_from(st, king, k, seen) == threats_from(st, king, k + 1, seen),
        },
{
    reveal(threats_from);
}

pub proof fn lemma_threats_start(st: NodeState)
    ensures
        st.turn != Role::Defender || tracker_view_len(st.tracker) >= usize::MAX || king_square(st.board) is None
            ==> threats_spec(st) == Seq::<NodeState>::empty(),
        st.turn == Role::Defender && tracker_view_len(st.tracker) < usize::MAX && king_square(st.board) is Some
            ==> threats_spec(st) == threats_from(st, king_square(st.board).unwrap(), 0, Seq::empty()),
{
    reveal(threats_spec);
}

pub proof fn lemma_threats_end(st: NodeState, king: Square, seen: Seq<Seq<Space>>)
    ensures
        threats_from(st, king, 4, seen) == Seq::<NodeState>::empty(),
{
    reveal(threats_from);
}

/// A node of the game tree
pub struct GameTreeNode {
    pub status: Status,
    pub previous_boards: PositionsTracker,
    pub turn: Role,
    pub current_board: Board,
}

impl View for GameTreeNode {
    type V = NodeState;

    open spec fn view(&self) -> NodeState {
        NodeState {
            status: self.status,
            turn: self.turn,
            board: self.current_board@,
            tracker: self.previous_boards@,
        }
    }
}

/// Determine if a position is "quiet" or not: whether the king can
/// escape on the current move
pub enum Threats {
    Quiet,
    Plays(Vec<GameTreeNode>),
}

#[verifier::opaque]
/// The king's winning moves found from the `k`-th corner on, each with its
/// board normalized, leaving out repeated boards
pub open spec fn threats_from(st: NodeState, king: Square, k: int, seen: Seq<Seq<Space>>) -> Seq<NodeState>
    decreases 4 - k,
{
    if k >= 4 || k < 0 {
        Seq::empty()
    } else {
        match child_state(st, king, exit_seq()[k]) {
            Some(c) => {
                let n = NodeState { board: normalize_spec(c.board), ..c };
                if seen.contains(n.board) {
                    threats_from(st, king, k + 1, seen)
                } else {
                    seq![n] + threats_from(st, king, k + 1, seen.push(n.board))
                }
            },
            None => threats_from(st, king, k + 1, seen),
        }
    }
}

/// The moves that win at once for the defenders, if it is their turn
#[verifier::opaque]
pub open spec fn threats_spec(st: NodeState) -> Seq<NodeState> {
    if st.turn != Role::Defender || tracker_view_len(st.tracker) >= usize::MAX {
        Seq::empty()
    } else {
        match king_square(st.board) {
            Some(king) => threats_from(st, king, 0, Seq::empty()),
            None => Seq::empty(),
        }
    }
}

/// The squares of the `p`-th pair in the order of the double iteration
fn pair_squares(p: usize) -> (r: (Square, Square))
    requires
        p < 14641,
    ensures
        r.0 == iter_square(p as int / 121),
        r.1 == iter_square(p as int % 121),
{
    let f = p / 121;
    let t = p % 121;
    (Square { x: f / 11, y: f % 11 }, Square { x: t / 11, y: t % 11 })
}

impl GameTreeNode {
    /// A game at the starting position, the attackers to move
    pub fn new(previous_boards: PositionsTracker) -> (r: GameTreeNode)
        ensures
            r.status == Status::Ongoing,
            r.turn == Role::Attacker,
            r.current_board@ == crate::board::starting_board(),
            r.previous_boards@ == previous_boards@,
    {
        GameTreeNode {
            status: Status::Ongoing,
            previous_boards,
            turn: Role::Attacker,
            current_board: Board::default(),
        }
    }

    /// A copy of the node
    pub fn duplicate(&self) -> (r: GameTreeNode)
        ensures
            r@ == self@,
    {
        GameTreeNode {
            status: self.status,
            previous_boards: self.previous_boards.duplicate(),
            turn: self.turn,
            current_board: self.current_board,
        }
    }

    /// The node after the side to move plays `from` -> `to`, if that is legal
    fn child(&self, from: Square, to: Square) -> (r: Option<GameTreeNode>)
        requires
            tracker_view_len(self@.tracker) < usize::MAX,
        ensures
            r matches Some(n) ==> child_state(self@, from, to) == Some(n@),
            r is None ==> child_state(self@, from, to) is None,
    {
        proof {
            reveal(child_state);
        }
        let play = Play { role: self.turn, from, to };
        match self.current_board.play_internal(&play, &self.status, &self.previous_boards) {
            Ok((board, _captures, status)) => {
                let mut tracker = self.previous_boards.duplicate();
                tracker.insert(&board);
                Some(GameTreeNode { status, previous_boards: tracker, turn: self.turn.opposite(), current_board: board })
            },
            Err(_) => None,
        }
    }

    #[verifier::rlimit(60)]
    /// Get a vector of child games from this game by checking all
    /// legal moves. We discard children that are symmetrically
    /// equivalent to others.
    pub fn get_children(&self) -> (r: Vec<GameTreeNode>)
        ensures
            r@.map_values(|c: GameTreeNode| c@) == children_spec(self@),
    {
        let mut children: Vec<GameTreeNode> = Vec::new();
        if self.previous_boards.len() == usize::MAX {
            assert(children@.map_values(|c: GameTreeNode| c@) =~= Seq::<NodeState>::empty());
            return children;
        }
        let mut normalized = NormalizedBoards::new();
        let mut p: usize = 0;
        assert(children@.map_values(|c: GameTreeNode| c@) =~= Seq::<NodeState>::empty());
        while p < 14641
            invariant
                0 <= p <= 14641,
                tracker_view_len(self@.tracker) < usize::MAX,
                children@.map_values(|c: GameTreeNode| c@) + children_from(self@, p as int, normalized@) == children_spec(self@),
            decreases 14641 - p,
        {
            let (from, to) = pair_squares(p);
            let ghost rest = children_from(self@, p + 1, normalized@);
            let ghost before = children@.map_values(|c: GameTreeNode| c@);
            proof {
                lemma_children_step(self@, p as int, normalized@);
            }
            match self.child(from, to) {
                Some(node) => {
                    let ghost seen = normalized@;
                    if normalized.insert(&node.current_board) {
                        let ghost ns = node@;
                        children.push(node);
                        assert(children@.map_values(|c: GameTreeNode| c@) =~= before.push(ns));
                        assert(before.push(ns) + children_from(self@, p + 1, seen.push(class_key(ns.board))) =~= before + (seq![ns] + children_from(self@, p + 1, seen.push(class_key(ns.board)))));
                    }
                },
                None => {},
            }
            p += 1;
        }
        proof {
            lemma_children_end(self@, normalized@);
        }
        assert(children@.map_values(|c: GameTreeNode| c@) + Seq::<NodeState>::empty() =~= children@.map_values(|c: GameTreeNode| c@));
        children
    }

    pub fn is_terminal(&self) -> (r: bool)
        ensures
            r == (self.status != Status::Ongoing),
    {
        self.status != Status::Ongoing
    }

    #[verifier::rlimit(100)]
    /// Return a list of threats. If there are none, label the position
    /// quiet. This is used to focus the search in the endgame.
    pub fn threats(&self) -> (r: Threats)
        ensures
            match r {
                Threats::Quiet => threats_spec(self@).len() == 0,
                Threats::Plays(v) => v@.len() > 0 && v@.map_values(|c: GameTreeNode| c@) == threats_spec(self@),
            },
    {
        proof {
            lemma_threats_start(self@);
        }
        if self.turn != Role::Defender || self.previous_boards.len() == usize::MAX {
            return Threats::Quiet;
        }
        let king = match self.current_board.find_the_king() {
            Some(k) => k,
            None => {
                return Threats::Quiet;
            },
        };
        let corners = exit_squares();
        let mut boards = PreviousBoards::new();
        assert(threats_spec(self@) == threats_from(self@, king, 0, boards@));
        let mut threats: Vec<GameTreeNode> = Vec::new();
        let mut k: usize = 0;
        assert(threats@.map_values(|c: GameTreeNode| c@) =~= Seq::<NodeState>::empty());
        while k < 4
            invariant
                0 <= k <= 4,
                corners@ == exit_seq(),
                tracker_view_len(self@.tracker) < usize::MAX,
                threats@.map_values(|c: GameTreeNode| c@) + threats_from(self@, king, k as int, boards@) == threats_spec(self@),
            decreases 4 - k,
        {
            let ghost before = threats@.map_values(|c: GameTreeNode| c@);
            proof {
                lemma_threats_step(self@, king, k as int, boards@);
            }
            let corner = corners[k];
            assert(corner == exit_seq()[k as int]);
            match self.child(king, corner) {
                Some(node) => {
                    let mut key = node.current_board;
                    key.normalize();
                    let ghost seen = boards@;
                    if boards.insert(&key) {
                        let game = GameTreeNode {
                            status: node.status,
                            previous_boards: node.previous_boards,
                            turn: node.turn,
                            current_board: key,
                        };
                        let ghost ns = game@;
                        threats.push(game);
                        assert(threats@.map_values(|c: GameTreeNode| c@) =~= before.push(ns));
                        assert(before.push(ns) + threats_from(self@, king, k + 1, seen.push(ns.board)) =~= before + (seq![ns] + threats_from(self@, king, k + 1, seen.push(ns.board))));
                    }
                },
                None => {},
            }
            k += 1;
        }
        proof {
            lemma_threats_end(self@, king, boards@);
        }
        assert(threats@.map_values(|c: GameTreeNode| c@) + Seq::<NodeState>::empty() =~= threats@.map_values(|c: GameTreeNode| c@));
        if threats.len() == 0 {
            Threats::Quiet
        } else {
            Threats::Plays(threats)
        }
    }
}

impl InternalNode for ChildIterator {
    type Node = GameTreeNode;

    type NodeState = NodeState;

    open spec fn state_of(n: GameTreeNode) -> NodeState {
        n@
    }

    open spec fn remaining(&self) -> Seq<NodeState> {
        ChildIterator::remaining(self)
    }

    fn next_child(&mut self) -> (r: Option<GameTreeNode>) {
        self.next()
    }
}

impl GameNode for GameTreeNode {
    type State = NodeState;

    type Convert = ChildIterator;

    open spec fn state(&self) -> NodeState {
        self@
    }

    open spec fn turn_of(s: NodeState) -> Role {
        s.turn
    }

    open spec fn terminal_of(s: NodeState) -> bool {
        s.status != Status::Ongoing
    }

    open spec fn children_of(s: NodeState) -> Seq<NodeState> {
        children_spec(s)
    }

    fn turn(&self) -> (r: Role) {
        self.turn
    }

    fn is_terminal(&self) -> (r: bool) {
        GameTreeNode::is_terminal(self)
    }

    fn get_children(&self) -> (r: Vec<GameTreeNode>) {
        GameTreeNode::get_children(self)
    }

    fn convert(&self) -> (r: ChildIterator) {
        self.duplicate().children()
    }
}

/// An abbreviated view of a game state, without the history, used as a key
#[derive(Clone, Copy, Debug, PartialEq, Eq, Hash)]
pub struct GameSummary {
    pub status: Status,
    pub moves: usize,
    pub turn: Role,
    pub current_board: Board,
}

impl GameSummary {
    pub fn from(node: &GameTreeNode) -> (r: GameSummary)
        ensures
            r.status == node.status,
            r.moves == tracker_view_len(node.previous_boards@),
            r.turn == node.turn,
            r.current_board == node.current_board,
    {
        GameSummary {
            status: node.status,
            moves: node.previous_boards.len(),
            turn: node.turn,
            current_board: node.current_board,
        }
    }

    pub fn turn(&self) -> (r: Role)
        ensures
            r == self.turn,
    {
        self.turn
    }
}

/// An iteration over the children of a node that can stop and resume: the
/// position in the double loop over pairs of squares, and the symmetry
/// classes already yielded
pub struct ChildIterator {
    pub node: GameTreeNode,
    pub pos: usize,
    pub normalized: NormalizedBoards,
}

impl ChildIterator {
    /// The children still to come
    pub open spec fn remaining(&self) -> Seq<NodeState> {
        if tracker_view_len(self.node@.tracker) >= usize::MAX {
            Seq::empty()
        } else {
            children_from(self.node@, self.pos as int, self.normalized@)
        }
    }

    /// The next child, if any is left
    pub fn next(&mut self) -> (r: Option<GameTreeNode>)
        ensures
            final(self).node@ == old(self).node@,
            match r {
                Some(c) => old(self).remaining() == seq![c@] + final(self).remaining(),
                None => old(self).remaining().len() == 0 && final(self).remaining().len() == 0,
            },
    {
        if self.node.previous_boards.len() == usize::MAX {
            return None;
        }
        while self.pos < 14641
            invariant
                self.node@ == old(self).node@,
                tracker_view_len(self.node@.tracker) < usize::MAX,
                children_from(self.node@, self.pos as int, self.normalized@) == old(self).remaining(),
            decreases 14641 - self.pos,
        {
            let (from, to) = pair_squares(self.pos);
            proof {
                lemma_children_step(self.node@, self.pos as int, self.normalized@);
            }
            let ghost seen = self.normalized@;
            let ghost p = self.pos;
            self.pos += 1;
            match self.node.child(from, to) {
                Some(node) => {
                    if self.normalized.insert(&node.current_board) {
                        assert(self.normalized@ == seen.push(class_key(node@.board)));
                        assert(old(self).remaining() == seq![node@] + self.remaining());
                        return Some(node);
                    }
                },
                None => {},
            }
        }
        proof {
            lemma_children_end(self.node@, self.normalized@);
        }
        None
    }
}

impl GameTreeNode {
    /// Get an iterator over the child games from this game by checking all
    /// legal moves. We discard children that are symmetrically
    /// equivalent to others.
    pub fn children(self) -> (r: ChildIterator)
        ensures
            r.node@ == self@,
            r.remaining() == children_spec(self@),
    {
        let r = ChildIterator { node: self, pos: 0, normalized: NormalizedBoards::new() };
        assert(r.remaining() == children_spec(self@));
        r
    }
}

} // verus!
