//! The static evaluation of positions, and the policy that the search uses.

use vstd::prelude::*;
use crate::space::{Role, Space, Square, Status};
use crate::board::{Board, cell, attacker_count, defender_count, lemma_count_of_bound};
use crate::game_tree::{GameTreeNode, NodeState};
use crate::heuristics::{escape_routes, fewest_turns_to_escape, fewest_turns_spec, escape_routes_spec};
use crate::symmetries::{canonical_bytes, sha256_of, class_key, NormalizedBoardMap};
use crate::alpha_beta::SelectionPolicy;

verus! {

/// Scores are fixed-point: a value of 1.0 is stored as this many units
pub const SCORE_SCALE: i64 = 1_000_000;

/// The score of a won game, in scaled units
pub const WIN_SCORE: i64 = 10_000_000_000;

/// The penalty for an attacker next to a corner that can be captured there,
/// in scaled units
pub const CORNER_PENALTY: i64 = 500_000;

/// The value of the escape distance when the king cannot escape
pub const UNREACHABLE_ESCAPE_SCORE: u8 = 8;

/// The fewest slides to an exit, or the unreachable score when there is none
pub open spec fn turns_value(b: Seq<Space>) -> int {
    match fewest_turns_spec(b) {
        Some(n) => n as int,
        None => UNREACHABLE_ESCAPE_SCORE as int,
    }
}

/// The escape measures of a board: `e` the escape-route count and `t` the
/// fewest slides to an exit
pub open spec fn escape_measures_ok(b: Seq<Space>, e: int, t: int) -> bool {
    &&& 0 <= e <= 8
    &&& 1 <= t <= 121
    &&& e == escape_routes_spec(b)
    &&& t == turns_value(b)
}

/// The heuristic evaluation of a game for the side to move
pub open spec fn heuristic_value(st: NodeState) -> int {
    if st.status == Status::Ongoing {
        evaluation(st.status, st.turn, st.board, escape_routes_spec(st.board), turns_value(st.board))
    } else {
        evaluation(st.status, st.turn, st.board, 0, 1)
    }
}

/// An attacker on `a`, next to a corner, with the square `c` beyond it empty
pub open spec fn weak_corner(b: Seq<Space>, a: Square, c: Square) -> bool {
    cell(b, a) == Space::Occupied(Role::Attacker) && cell(b, c) == Space::Empty
}

pub open spec fn indicator(x: bool) -> int {
    if x { 1 } else { 0 }
}

/// The number of attackers placed weakly next to a corner
pub open spec fn weak_corner_count(b: Seq<Space>) -> int {
    indicator(weak_corner(b, Square { x: 1, y: 0 }, Square { x: 2, y: 0 }))
        + indicator(weak_corner(b, Square { x: 0, y: 1 }, Square { x: 0, y: 2 }))
        + indicator(weak_corner(b, Square { x: 9, y: 0 }, Square { x: 8, y: 0 }))
        + indicator(weak_corner(b, Square { x: 10, y: 1 }, Square { x: 10, y: 2 }))
        + indicator(weak_corner(b, Square { x: 1, y: 10 }, Square { x: 2, y: 10 }))
        + indicator(weak_corner(b, Square { x: 0, y: 9 }, Square { x: 0, y: 8 }))
        + indicator(weak_corner(b, Square { x: 9, y: 10 }, Square { x: 8, y: 10 }))
        + indicator(weak_corner(b, Square { x: 10, y: 9 }, Square { x: 10, y: 8 }))
}

/// The evaluation of an ongoing game for the attackers, in scaled units,
/// given the number of escape routes and the fewest turns to escape
pub open spec fn attacker_score(b: Seq<Space>, escapes: int, turns: int) -> int {
    SCORE_SCALE * ((attacker_count(b) - defender_count(b) - 11) + turns - escapes) - CORNER_PENALTY * weak_corner_count(b)
}

/// The evaluation of a game for the side to move
pub open spec fn evaluation(status: Status, turn: Role, b: Seq<Space>, escapes: int, turns: int) -> int {
    match status {
        Status::AttackersWin => if turn == Role::Attacker { WIN_SCORE as int } else { -WIN_SCORE },
        Status::DefendersWin => if turn == Role::Attacker { -WIN_SCORE } else { WIN_SCORE as int },
        Status::Draw => 0,
        Status::Ongoing => if turn == Role::Attacker {
            attacker_score(b, escapes, turns)
        } else {
            -attacker_score(b, escapes, turns)
        },
    }
}

fn weak_corner_at(board: &Board, a: Square, c: Square) -> (r: i64)
    requires
        crate::space::in_bounds(a),
        crate::space::in_bounds(c),
    ensures
        r == indicator(weak_corner(board@, a, c)),
{
    if board.get(&a) == Space::Occupied(Role::Attacker) && !board.is_occupied(&c) {
        1
    } else {
        0
    }
}

/// For each attacker next to a corner which is vulnerable to capture, a
/// penalty, in scaled units
pub fn attacker_corner_penalties(board: &Board) -> (r: i64)
    ensures
        r == -CORNER_PENALTY * weak_corner_count(board@),
{
    let n = weak_corner_at(board, Square { x: 1, y: 0 }, Square { x: 2, y: 0 })
        + weak_corner_at(board, Square { x: 0, y: 1 }, Square { x: 0, y: 2 })
        + weak_corner_at(board, Square { x: 9, y: 0 }, Square { x: 8, y: 0 })
        + weak_corner_at(board, Square { x: 10, y: 1 }, Square { x: 10, y: 2 })
        + weak_corner_at(board, Square { x: 1, y: 10 }, Square { x: 2, y: 10 })
        + weak_corner_at(board, Square { x: 0, y: 9 }, Square { x: 0, y: 8 })
        + weak_corner_at(board, Square { x: 9, y: 10 }, Square { x: 8, y: 10 })
        + weak_corner_at(board, Square { x: 10, y: 9 }, Square { x: 10, y: 8 });
    assert(0 <= n <= 8);
    assert(-CORNER_PENALTY * n >= -4_000_000) by (nonlinear_arith)
        requires 0 <= n <= 8, CORNER_PENALTY == 500_000;
    -CORNER_PENALTY * n
}

/// The evaluation of a game for the side to move, given the number of
/// escape routes and the fewest turns to escape (`None` when the king
/// cannot escape)
pub fn evaluate(status: Status, turn: Role, board: &Board, escapes: u8, turns: Option<u8>) -> (r: i64)
    ensures
        r == evaluation(status, turn, board@, escapes as int, match turns {
            Some(t) => t as int,
            None => UNREACHABLE_ESCAPE_SCORE as int,
        }),
{
    match status {
        Status::AttackersWin => {
            return if turn == Role::Attacker { WIN_SCORE } else { -WIN_SCORE };
        },
        Status::DefendersWin => {
            return if turn == Role::Attacker { -WIN_SCORE } else { WIN_SCORE };
        },
        Status::Draw => {
            return 0;
        },
        Status::Ongoing => {},
    }
    let escape_dist: i64 = match turns {
        Some(t) => t as i64,
        None => UNREACHABLE_ESCAPE_SCORE as i64,
    };
    let piece_diff: i64 = (board.attackers() as i64 - board.defenders() as i64) - 11;
    let units = piece_diff + escape_dist - escapes as i64;
    assert(-1000 <= units <= 1000);
    let score = SCORE_SCALE * units + attacker_corner_penalties(board);
    if turn == Role::Attacker {
        score
    } else {
        -score
    }
}

/// A heuristic evaluation of a game state for the side to move. It takes
/// into account whether the game is won, the fewest turns the king needs to
/// escape, the number of escape routes, the material difference and weak
/// attackers next to the corners.
pub fn heuristic(game: &GameTreeNode) -> (r: i64)
    ensures
        r as int == heuristic_value(game@),
{
    if game.status != Status::Ongoing {
        return evaluate(game.status, game.turn, &game.current_board, 0, Some(1));
    }
    let escapes = escape_routes(&game.current_board);
    let turns = fewest_turns_to_escape(&game.current_board);
    let r = evaluate(game.status, game.turn, &game.current_board, escapes, turns);
    proof {
        let t = match turns { Some(t) => t as int, None => UNREACHABLE_ESCAPE_SCORE as int };
        assert(escape_measures_ok(game.current_board@, escapes as int, t));
        assert(r == evaluation(game.status, game.turn, game.current_board@, escapes as int, t));
    }
    r
}

/// The search policy that scores positions with `heuristic`
#[derive(Clone, Copy, Debug, Default, PartialEq, Eq)]
pub struct HeuristicPolicy;

impl SelectionPolicy for HeuristicPolicy {
    type TreeNode = GameTreeNode;

    /// The evaluation is `heuristic_value`, a function of the position
    open spec fn evaluates_exactly(&self) -> bool {
        true
    }

    open spec fn eval_spec(&self, s: NodeState, role: Role) -> i64 {
        heuristic_value(s) as i64
    }

    fn eval_attacker(&self, child: &GameTreeNode) -> (r: i64) {
        heuristic(child)
    }

    fn eval_defender(&self, child: &GameTreeNode) -> (r: i64) {
        heuristic(child)
    }

    fn compare_children(&self, parent: &GameTreeNode, child1: &GameTreeNode, child2: &GameTreeNode) -> std::cmp::Ordering {
        let (a, b) = match parent.turn {
            Role::Attacker => (self.eval_defender(child2), self.eval_defender(child1)),
            Role::Defender => (self.eval_attacker(child1), self.eval_attacker(child2)),
        };
        if a < b {
            std::cmp::Ordering::Less
        } else if a > b {
            std::cmp::Ordering::Greater
        } else {
            std::cmp::Ordering::Equal
        }
    }
}

/// The side an engine plays, and how it evaluates positions
#[derive(Clone, Copy, Debug, Default, PartialEq, Eq)]
pub struct EngineRole {
    pub engine: HeuristicPolicy,
    pub role: Role,
}

impl EngineRole {
    pub fn from(role: Role) -> (r: EngineRole)
        ensures
            r.role == role,
    {
        EngineRole { engine: HeuristicPolicy, role }
    }
}

/// Some board with canonical hash `h` has attacker score `v` for some
/// measures of escape
pub open spec fn cached_score_ok(h: Seq<u8>, v: i64) -> bool {
    exists|b: Seq<Space>, e: int, t: int|
        b.len() == 121 && escape_measures_ok(b, e, t) && sha256_of(canonical_bytes(b)) == h && v == #[trigger] attacker_score(b, e, t)
}

/// Evaluations of positions for the attackers, keyed by canonical hash, so
/// that all orientations of a position share one entry
pub struct EvalCache {
    scores: NormalizedBoardMap<i64>,
}

impl EvalCache {
    /// Every entry is the attacker score of a board with that hash
    pub closed spec fn wf(&self) -> bool {
        forall|i: int| 0 <= i < self.scores@.len() ==> cached_score_ok(#[trigger] self.scores@[i].0, self.scores@[i].1)
    }

    /// The number of positions stored
    pub closed spec fn size(&self) -> nat {
        self.scores@.len()
    }

    pub fn new() -> (r: EvalCache)
        ensures
            r.wf(),
            r.size() == 0,
    {
        EvalCache { scores: NormalizedBoardMap::new() }
    }

    pub fn len(&self) -> (r: usize)
        ensures
            r == self.size(),
    {
        self.scores.len()
    }
}

/// `heuristic`, with the attackers' score of ongoing games memoized in
/// `cache` under the canonical hash of the board: a position and its
/// symmetric images share an entry
pub fn heuristic_cached(game: &GameTreeNode, cache: &mut EvalCache) -> (r: i64)
    requires
        old(cache).wf(),
    ensures
        final(cache).wf(),
        game.status != Status::Ongoing ==> r == evaluation(game.status, game.turn, game.current_board@, 0, 1),
        game.status == Status::Ongoing ==> exists|b: Seq<Space>, e: int, t: int|
            escape_measures_ok(b, e, t) && sha256_of(canonical_bytes(b)) == sha256_of(canonical_bytes(game.current_board@))
                && r == #[trigger] evaluation(Status::Ongoing, game.turn, b, e, t),
{
    if game.status != Status::Ongoing {
        return evaluate(game.status, game.turn, &game.current_board, 0, Some(1));
    }
    let ghost h = class_key(game.current_board@);
    let score: i64 = match cache.scores.get(&game.current_board) {
        Some(v) => {
            proof {
                let i = choose|i: int| 0 <= i < cache.scores@.len() && (#[trigger] cache.scores@[i]) == (h, v);
                assert(cached_score_ok(cache.scores@[i].0, cache.scores@[i].1));
            }
            v
        },
        None => {
            let escapes = escape_routes(&game.current_board);
            let turns = fewest_turns_to_escape(&game.current_board);
            let v = evaluate(Status::Ongoing, Role::Attacker, &game.current_board, escapes, turns);
            proof {
                let t = match turns { Some(t) => t as int, None => UNREACHABLE_ESCAPE_SCORE as int };
                assert(v == attacker_score(game.current_board@, escapes as int, t));
                assert(escape_measures_ok(game.current_board@, escapes as int, t));
                assert(cached_score_ok(h, v));
            }
            let _ = cache.scores.insert(&game.current_board, v);
            proof {
                assert forall|i: int| 0 <= i < cache.scores@.len() implies cached_score_ok(#[trigger] cache.scores@[i].0, cache.scores@[i].1) by {
                    if i < old(cache).scores@.len() {
                        assert(cache.scores@[i] == old(cache).scores@[i]);
                    }
                }
            }
            v
        },
    };
    proof {
        let (b, e, t) = choose|b: Seq<Space>, e: int, t: int|
            b.len() == 121 && escape_measures_ok(b, e, t) && sha256_of(canonical_bytes(b)) == h && score == #[trigger] attacker_score(b, e, t);
        lemma_count_of_bound(b, Space::Occupied(Role::Defender), Space::King);
        assert(evaluation(Status::Ongoing, game.turn, b, e, t) == if game.turn == Role::Attacker { score as int } else { -score });
    }
    if game.turn == Role::Attacker {
        score
    } else {
        -score
    }
}

} // verus!
