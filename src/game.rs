//! Plays, their errors, and the record of earlier positions.

use vstd::prelude::*;
use crate::space::{Role, Square};
use crate::board::Board;

verus! {

/// Why a play was refused
#[derive(Clone, Copy, Debug, PartialEq, Eq, Structural)]
pub enum PlayError {
    GameFinished,
    InvalidSquare,
    StraightLine,
    DidntMove,
    WrongTurn,
    MoveThroughPiece,
    RestrictedSquare,
    RepeatedPosition,
}

/// The message that describes an error
pub open spec fn play_error_message(e: PlayError) -> Seq<char> {
    match e {
        PlayError::GameFinished => "The game has to be ongoing to play"@,
        PlayError::InvalidSquare => "The piece was either moved from or to a square not on the board"@,
        PlayError::StraightLine => "Pieces may only be moved in straight lines"@,
        PlayError::DidntMove => "The start and end squares for a move piece cannot be the same"@,
        PlayError::WrongTurn => "Attempted to move a piece belonging to the opposite player"@,
        PlayError::MoveThroughPiece => "Attempted to move a piece through another piece"@,
        PlayError::RestrictedSquare => "Only the king may move to a restricted square"@,
        PlayError::RepeatedPosition => "A defender can't repeat a board position"@,
    }
}

impl PlayError {
    /// The message that describes this error
    pub fn to_string(&self) -> (r: String)
        ensures
            r@ == play_error_message(*self),
    {
        let s: &str = match self {
            PlayError::GameFinished => "The game has to be ongoing to play",
            PlayError::InvalidSquare => "The piece was either moved from or to a square not on the board",
            PlayError::StraightLine => "Pieces may only be moved in straight lines",
            PlayError::DidntMove => "The start and end squares for a move piece cannot be the same",
            PlayError::WrongTurn => "Attempted to move a piece belonging to the opposite player",
            PlayError::MoveThroughPiece => "Attempted to move a piece through another piece",
            PlayError::RestrictedSquare => "Only the king may move to a restricted square",
            PlayError::RepeatedPosition => "A defender can't repeat a board position",
        };
        s.to_owned()
    }
}

/// A move of one piece by side `role` from one square to another
#[derive(Clone, Copy, Debug, PartialEq, Eq, Structural)]
pub struct Play {
    pub role: Role,
    pub from: Square,
    pub to: Square,
}

/// The first reason why a play is malformed, whatever the board
pub open spec fn play_shape_error(p: Play) -> Option<PlayError> {
    if p.from.x > 10 || p.from.y > 10 || p.to.x > 10 || p.to.y > 10 {
        Some(PlayError::InvalidSquare)
    } else if p.from.x != p.to.x && p.from.y != p.to.y {
        Some(PlayError::StraightLine)
    } else if p.from.x == p.to.x && p.from.y == p.to.y {
        Some(PlayError::DidntMove)
    } else {
        None
    }
}

impl Play {
    /// Check that both squares are on the board and that the move is a
    /// straight line of at least one square
    pub fn valid(&self) -> (r: Result<(), PlayError>)
        ensures
            r is Ok <==> play_shape_error(*self) is None,
            r matches Err(e) ==> play_shape_error(*self) == Some(e),
    {
        if self.from.x > 10 || self.from.y > 10 {
            return Err(PlayError::InvalidSquare);
        }
        if self.to.x > 10 || self.to.y > 10 {
            return Err(PlayError::InvalidSquare);
        }
        if self.from.x != self.to.x && self.from.y != self.to.y {
            return Err(PlayError::StraightLine);
        }
        if self.from.x == self.to.x && self.from.y == self.to.y {
            return Err(PlayError::DidntMove);
        }
        Ok(())
    }
}

/// The boards seen so far in a game, each once
pub struct PreviousBoards(pub Vec<Board>);

impl View for PreviousBoards {
    type V = Seq<Seq<crate::space::Space>>;

    open spec fn view(&self) -> Seq<Seq<crate::space::Space>> {
        self.0@.map_values(|b: Board| b@)
    }
}

impl PreviousBoards {
    /// No board is recorded twice
    pub open spec fn wf(&self) -> bool {
        self@.no_duplicates()
    }

    pub fn new() -> (r: PreviousBoards)
        ensures
            r@ == Seq::<Seq<crate::space::Space>>::empty(),
            r.wf(),
    {
        let r = PreviousBoards(Vec::new());
        assert(r@ =~= Seq::<Seq<crate::space::Space>>::empty());
        r
    }

    /// Whether `board` has been recorded
    pub fn contains(&self, board: &Board) -> (r: bool)
        ensures
            r == self@.contains(board@),
    {
        let mut i: usize = 0;
        while i < self.0.len()
            invariant
                0 <= i <= self.0@.len(),
                forall|j: int| 0 <= j < i ==> self@[j] != board@,
            decreases self.0@.len() - i,
        {
            if self.0[i] == *board {
                assert(self@[i as int] == board@);
                return true;
            }
            i += 1;
        }
        false
    }

    /// Record `board`; returns whether it was new
    pub fn insert(&mut self, board: &Board) -> (r: bool)
        ensures
            old(self).wf() ==> final(self).wf(),
            r == !old(self)@.contains(board@),
            final(self)@.to_set() == old(self)@.to_set().insert(board@),
            r ==> final(self)@ == old(self)@.push(board@),
            !r ==> final(self)@ == old(self)@,
    {
        if self.contains(board) {
            return false;
        }
        self.0.push(*board);
        assert(self@ =~= old(self)@.push(board@));
        proof {
            assert(self@.to_set() =~= old(self)@.to_set().insert(board@)) by {
                assert forall|x| self@.to_set().contains(x) <==> old(self)@.to_set().insert(board@).contains(x) by {
                    if x == board@ {
                        assert(self@[self@.len() - 1] == x);
                    } else if old(self)@.contains(x) {
                        let k = choose|k: int| 0 <= k < old(self)@.len() && old(self)@[k] == x;
                        assert(self@[k] == x);
                    }
                }
            }
            if old(self).wf() {
            assert(self@.no_duplicates()) by {
                assert forall|i: int, j: int| 0 <= i < self@.len() && 0 <= j < self@.len() && i != j implies self@[i] != self@[j] by {
                    if i == self@.len() - 1 {
                        assert(old(self)@[j] == self@[j]);
                    } else if j == self@.len() - 1 {
                        assert(old(self)@[i] == self@[i]);
                    }
                }
            }
            }
        }
        true
    }

    /// The number of boards recorded
    pub fn len(&self) -> (r: usize)
        ensures
            r == self@.len(),
    {
        self.0.len()
    }

    /// A copy of the record
    pub fn duplicate(&self) -> (r: PreviousBoards)
        ensures
            r@ == self@,
            self.wf() ==> r.wf(),
    {
        let mut v: Vec<Board> = Vec::new();
        let mut i: usize = 0;
        while i < self.0.len()
            invariant
                0 <= i <= self.0@.len(),
                v@ == self.0@.subrange(0, i as int),
            decreases self.0@.len() - i,
        {
            v.push(self.0[i]);
            assert(self.0@.subrange(0, i + 1) =~= self.0@.subrange(0, i as int).push(self.0@[i as int]));
            i += 1;
        }
        assert(self.0@.subrange(0, self.0@.len() as int) =~= self.0@);
        PreviousBoards(v)
    }
}

/// Either the full record of earlier boards, or only their number
pub enum PositionsTracker {
    Previous(PreviousBoards),
    Counter(usize),
}

/// What a tracker holds: the boards seen, or their number
pub enum TrackerView {
    Previous(Seq<Seq<crate::space::Space>>),
    Counter(nat),
}

impl View for PositionsTracker {
    type V = TrackerView;

    open spec fn view(&self) -> TrackerView {
        match self {
            PositionsTracker::Previous(p) => TrackerView::Previous(p@),
            PositionsTracker::Counter(n) => TrackerView::Counter(*n as nat),
        }
    }
}

/// The number of positions a tracker has recorded
pub open spec fn tracker_view_len(t: TrackerView) -> nat {
    match t {
        TrackerView::Previous(p) => p.len(),
        TrackerView::Counter(n) => n,
    }
}

/// The number of positions a tracker has recorded
pub open spec fn tracker_len(t: &PositionsTracker) -> nat {
    tracker_view_len(t@)
}

/// A tracker after recording board `b`
pub open spec fn tracker_after(t: TrackerView, b: Seq<crate::space::Space>) -> TrackerView {
    match t {
        TrackerView::Previous(p) => TrackerView::Previous(if p.contains(b) { p } else { p.push(b) }),
        TrackerView::Counter(n) => TrackerView::Counter(n + 1),
    }
}

impl PositionsTracker {
    pub open spec fn wf(&self) -> bool {
        match self {
            PositionsTracker::Previous(p) => p.wf(),
            PositionsTracker::Counter(_) => true,
        }
    }

    /// The number of positions recorded
    pub fn len(&self) -> (r: usize)
        ensures
            r == tracker_len(self),
            r == tracker_view_len(self@),
    {
        match self {
            PositionsTracker::Previous(prev) => prev.len(),
            PositionsTracker::Counter(length) => *length,
        }
    }

    /// A copy of the tracker
    pub fn duplicate(&self) -> (r: PositionsTracker)
        ensures
            r@ == self@,
            self.wf() ==> r.wf(),
    {
        match self {
            PositionsTracker::Previous(p) => PositionsTracker::Previous(p.duplicate()),
            PositionsTracker::Counter(n) => PositionsTracker::Counter(*n),
        }
    }

    /// Record one more position
    pub fn insert(&mut self, board: &Board)
        requires
            tracker_len(old(self)) < usize::MAX,
        ensures
            old(self).wf() ==> final(self).wf(),
            final(self)@ == tracker_after(old(self)@, board@),
            match (*old(self), *final(self)) {
                (PositionsTracker::Counter(n), PositionsTracker::Counter(m)) => m == n + 1,
                (PositionsTracker::Previous(p), PositionsTracker::Previous(q)) => q@.to_set()
                    == p@.to_set().insert(board@) && (if p@.contains(board@) {
                    q@ == p@
                } else {
                    q@ == p@.push(board@)
                }),
                _ => false,
            },
    {
        match self {
            PositionsTracker::Previous(prev) => {
                let _ = prev.insert(board);
            },
            PositionsTracker::Counter(moves) => {
                *moves = *moves + 1;
            },
        }
    }
}

} // verus!
