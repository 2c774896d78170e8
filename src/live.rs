//! A game as a player sees it: the current position, the moves that can be
//! undone and redone, and an optional engine for one side.

use vstd::prelude::*;
use crate::space::{Role, Status, opposite_spec};
use crate::board::{Board, move_error, play_outcome, board_after};
use crate::game::{Play, PlayError, PositionsTracker, PreviousBoards, TrackerView, tracker_len, tracker_view_len, tracker_after};
use crate::game_tree::{GameTreeNode, NodeState, children_spec};
use crate::policy::EngineRole;
use crate::alpha_beta::{alphabeta, minimax};

verus! {

/// The depth to which the engine searches below each of its moves
pub const ENGINE_DEPTH: usize = 3;

/// A game played move by move, with undo and redo
pub struct LiveGame {
    pub status: Status,
    pub previous_boards: PositionsTracker,
    pub history: Vec<Board>,
    pub ahead: Vec<Board>,
    pub turn: Role,
    pub current_board: Board,
    pub engine: Option<EngineRole>,
}

impl Default for LiveGame {
    fn default() -> (r: LiveGame)
        ensures
            r.status == Status::Ongoing,
            r.previous_boards@ == TrackerView::Previous(Seq::empty()),
            r.history@.len() == 0,
            r.ahead@.len() == 0,
            r.turn == Role::Attacker,
            r.current_board@ == crate::board::starting_board(),
            r.engine is None,
    {
        LiveGame {
            status: Status::Ongoing,
            previous_boards: PositionsTracker::Previous(PreviousBoards::new()),
            history: Vec::new(),
            ahead: Vec::new(),
            turn: Role::Attacker,
            current_board: Board::default(),
            engine: None,
        }
    }
}

/// The search node of a game, which counts the earlier positions
pub open spec fn live_node_state(g: LiveGame) -> NodeState {
    NodeState {
        status: g.status,
        turn: g.turn,
        board: g.current_board@,
        tracker: TrackerView::Counter(tracker_view_len(g.previous_boards@)),
    }
}

/// `scores` are the engine's values of the children of the game's search
/// node: the minimax value of each to the engine's depth under its policy;
/// `k` is the last child of highest value
pub open spec fn engine_choice(g: LiveGame, scores: Seq<i64>, k: int) -> bool {
    let cs = children_spec(live_node_state(g));
    &&& g.engine is Some
    &&& scores.len() == cs.len()
    &&& 0 <= k < cs.len()
    &&& forall|j: int| 0 <= j < scores.len() ==> scores[j] <= scores[k]
    &&& forall|j: int| k < j < scores.len() ==> scores[j] < scores[k]
    &&& forall|j: int| 0 <= j < scores.len() ==> scores[j] as int == #[trigger] minimax(&g.engine.unwrap().engine, cs[j], ENGINE_DEPTH as nat)
}

impl LiveGame {
    /// Play a move and update the game state
    pub fn play(&mut self, play: &Play) -> (r: Result<(), PlayError>)
        requires
            tracker_len(&old(self).previous_boards) < usize::MAX,
        ensures
            r is Ok <==> move_error(old(self).current_board@, *play, old(self).status) is None
                && play_outcome(old(self).current_board@, *play, old(self).previous_boards@) is Ok,
            r is Ok ==> final(self).current_board@ == board_after(old(self).current_board@, *play)
                && final(self).status == play_outcome(old(self).current_board@, *play, old(self).previous_boards@)->Ok_0
                && final(self).history@ == old(self).history@.push(old(self).current_board)
                && final(self).ahead@.len() == 0
                && final(self).turn == opposite_spec(old(self).turn),
            r matches Err(e) ==> (move_error(old(self).current_board@, *play, old(self).status) == Some(e)
                || (move_error(old(self).current_board@, *play, old(self).status) is None
                && play_outcome(old(self).current_board@, *play, old(self).previous_boards@) == Err::<Status, PlayError>(e)))
                && final(self).current_board == old(self).current_board
                && final(self).status == old(self).status
                && final(self).turn == old(self).turn
                && final(self).history@ == old(self).history@,
    {
        let current = self.current_board;
        match self.current_board.play(play, &self.status, &mut self.previous_boards) {
            Err(e) => Err(e),
            Ok((_, status)) => {
                self.history.push(current);
                self.ahead.clear();
                self.turn = self.turn.opposite();
                self.status = status;
                Ok(())
            },
        }
    }

    /// The search node for the current position, which counts the earlier
    /// positions instead of keeping them
    pub fn node(&self) -> (r: GameTreeNode)
        ensures
            r@ == (NodeState {
                status: self.status,
                turn: self.turn,
                board: self.current_board@,
                tracker: TrackerView::Counter(tracker_view_len(self.previous_boards@)),
            }),
    {
        GameTreeNode {
            status: self.status,
            previous_boards: PositionsTracker::Counter(self.previous_boards.len()),
            turn: self.turn,
            current_board: self.current_board,
        }
    }

    /// If the game has an engine attached and it is the engine's turn in an
    /// ongoing game, let it choose among the children of the current position
    /// the one whose alpha-beta value is highest (the last of equal ones), and
    /// play it. Returns that value if the engine played.
    pub fn engine_play(&mut self) -> (r: Option<i64>)
        requires
            tracker_len(&old(self).previous_boards) < usize::MAX,
        ensures
            old(self).engine is None || old(self).engine.unwrap().role != old(self).turn || old(self).status != Status::Ongoing
                ==> r is None,
            old(self).engine is Some && old(self).engine.unwrap().role == old(self).turn && old(self).status == Status::Ongoing
                && children_spec(live_node_state(*old(self))).len() > 0 ==> r is Some,
            r is None ==> final(self).current_board == old(self).current_board && final(self).turn == old(self).turn,
            r is Some ==> final(self).history@ == old(self).history@.push(old(self).current_board)
                && final(self).ahead@.len() == 0
                && final(self).previous_boards@ == tracker_after(old(self).previous_boards@, old(self).current_board@),
            r matches Some(v) ==> exists|scores: Seq<i64>, k: int| #[trigger] engine_choice(*old(self), scores, k)
                && v == scores[k]
                && children_spec(live_node_state(*old(self)))[k].board == final(self).current_board@
                && children_spec(live_node_state(*old(self)))[k].turn == final(self).turn
                && children_spec(live_node_state(*old(self)))[k].status == final(self).status,
    {
        let engine = match self.engine {
            Some(e) => e,
            None => {
                return None;
            },
        };
        if self.turn != engine.role || self.status != Status::Ongoing {
            return None;
        }
        let root = self.node();
        let children = root.get_children();
        let ghost cs = children@.map_values(|c: GameTreeNode| c@);
        assert(cs == children_spec(live_node_state(*self)));
        if children.len() == 0 {
            return None;
        }
        let mut best: usize = 0;
        let mut best_score = alphabeta(&children[0], &engine.engine, ENGINE_DEPTH);
        let ghost mut scores: Seq<i64> = seq![best_score];
        let mut i: usize = 1;
        while i < children.len()
            invariant
                1 <= i <= children@.len(),
                best < i,
                scores.len() == i,
                scores[best as int] == best_score,
                forall|j: int| 0 <= j < i ==> scores[j] <= best_score,
                forall|j: int| best < j < i ==> scores[j] < best_score,
                forall|j: int| 0 <= j < i ==> scores[j] as int == #[trigger] minimax(&engine.engine, cs[j], ENGINE_DEPTH as nat),
                cs == children@.map_values(|c: GameTreeNode| c@),
            decreases children@.len() - i,
        {
            let score = alphabeta(&children[i], &engine.engine, ENGINE_DEPTH);
            assert(cs[i as int] == children@[i as int]@);
            proof {
                scores = scores.push(score);
            }
            if score >= best_score {
                best = i;
                best_score = score;
            }
            i += 1;
        }
        let current = self.current_board;
        self.history.push(current);
        self.previous_boards.insert(&current);
        self.ahead.clear();
        self.turn = children[best].turn;
        self.status = children[best].status;
        self.current_board = children[best].current_board;
        assert(cs[best as int] == children@[best as int]@);
        assert(engine_choice(*old(self), scores, best as int));
        Some(best_score)
    }

    /// Undo a move
    pub fn undo(&mut self)
        ensures
            old(self).history@.len() == 0 ==> final(self).history@ == old(self).history@
                && final(self).current_board == old(self).current_board && final(self).turn == old(self).turn,
            old(self).history@.len() > 0 ==> final(self).history@ == old(self).history@.drop_last()
                && final(self).current_board == old(self).history@.last()
                && final(self).ahead@ == old(self).ahead@.push(old(self).current_board)
                && final(self).turn == opposite_spec(old(self).turn),
    {
        if let Some(board) = self.history.pop() {
            let current = self.current_board;
            self.current_board = board;
            self.ahead.push(current);
            self.turn = self.turn.opposite();
        }
    }

    /// Redo a move
    pub fn redo(&mut self)
        ensures
            old(self).ahead@.len() == 0 ==> final(self).ahead@ == old(self).ahead@
                && final(self).current_board == old(self).current_board && final(self).turn == old(self).turn,
            old(self).ahead@.len() > 0 ==> final(self).ahead@ == old(self).ahead@.drop_last()
                && final(self).current_board == old(self).ahead@.last()
                && final(self).history@ == old(self).history@.push(old(self).current_board)
                && final(self).turn == opposite_spec(old(self).turn),
    {
        if let Some(board) = self.ahead.pop() {
            let current = self.current_board;
            self.current_board = board;
            self.history.push(current);
            self.turn = self.turn.opposite();
        }
    }
}

} // verus!
