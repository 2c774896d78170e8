//! The board and the rules of the game played on it.

use vstd::prelude::*;
use vstd::string::StringSliceAdditionalSpecFns;
use crate::game::{Play, PlayError, PositionsTracker, TrackerView, play_shape_error, tracker_len, tracker_view_len, tracker_after};
use crate::space::{
    Role, Space, Square, in_bounds, sq_index, sq_at, is_ally_spec, is_exit_spec, is_restricted_spec,
    up_spec, down_spec, left_spec, right_spec, Dir, exit_seq, exit_squares, Status, opposite_spec,
    victory_spec, step_spec, steps_left, is_throne_spec,
};

verus! {

broadcast use vstd::array::group_array_axioms;

/// The content of square `s` on a board
pub open spec fn cell(b: Seq<Space>, s: Square) -> Space {
    b[sq_index(s)]
}

/// The first king in row-major order, from index `i` on
pub open spec fn first_king_from(b: Seq<Space>, i: int) -> Option<Square>
    decreases 121 - i,
{
    if i >= 121 || i < 0 {
        None
    } else if b[i] == Space::King {
        Some(sq_at(i))
    } else {
        first_king_from(b, i + 1)
    }
}

/// Where the king stands, if he is on the board
pub open spec fn king_square(b: Seq<Space>) -> Option<Square> {
    first_king_from(b, 0)
}

/// No board holds two kings
pub open spec fn at_most_one_king(b: Seq<Space>) -> bool {
    forall|i: int, j: int|
        0 <= i < 121 && 0 <= j < 121 && #[trigger] b[i] == Space::King && #[trigger] b[j]
            == Space::King ==> i == j
}

/// Only the king rests on the corners and the throne
pub open spec fn restricted_ok(b: Seq<Space>) -> bool {
    forall|i: int|
        0 <= i < 121 && is_restricted_spec(#[trigger] sq_at(i)) ==> b[i] == Space::Empty || b[i]
            == Space::King
}

/// The number of entries of `b` that equal `a` or `c`
pub open spec fn count_of(b: Seq<Space>, a: Space, c: Space) -> nat
    decreases b.len(),
{
    if b.len() == 0 {
        0
    } else {
        count_of(b.drop_last(), a, c) + if b.last() == a || b.last() == c { 1nat } else { 0nat }
    }
}

pub open spec fn is_defender_or_king(s: Space) -> bool {
    s == Space::Occupied(Role::Defender) || s == Space::King
}

pub proof fn lemma_count_of_bound(b: Seq<Space>, a: Space, c: Space)
    ensures
        count_of(b, a, c) <= b.len(),
    decreases b.len(),
{
    if b.len() > 0 {
        lemma_count_of_bound(b.drop_last(), a, c);
    }
}

/// The number of attackers on a board
pub open spec fn attacker_count(b: Seq<Space>) -> nat {
    count_of(b, Space::Occupied(Role::Attacker), Space::Occupied(Role::Attacker))
}

/// The number of defenders on a board, the king included
pub open spec fn defender_count(b: Seq<Space>) -> nat {
    count_of(b, Space::Occupied(Role::Defender), Space::King)
}

pub proof fn lemma_sq_at_index(i: int)
    requires
        0 <= i < 121,
    ensures
        in_bounds(sq_at(i)),
        sq_index(sq_at(i)) == i,
{
}

pub proof fn lemma_index_sq_at(s: Square)
    requires
        in_bounds(s),
    ensures
        0 <= sq_index(s) < 121,
        sq_at(sq_index(s)) == s,
{
}

/// What `first_king_from` returns is a king on the board, and before it there is none
pub proof fn lemma_first_king_from(b: Seq<Space>, i: int)
    requires
        b.len() == 121,
        0 <= i,
    ensures
        first_king_from(b, i) matches Some(s) ==> in_bounds(s) && cell(b, s) == Space::King
            && sq_index(s) >= i && (forall|j: int| i <= j < sq_index(s) ==> b[j] != Space::King),
        first_king_from(b, i) is None ==> forall|j: int| i <= j < 121 ==> b[j] != Space::King,
    decreases 121 - i,
{
    if i < 121 {
        lemma_first_king_from(b, i + 1);
    }
}

/// The king found is the only one, on a board with at most one
pub proof fn lemma_king_square(b: Seq<Space>)
    requires
        b.len() == 121,
    ensures
        king_square(b) matches Some(s) ==> in_bounds(s) && cell(b, s) == Space::King,
        king_square(b) is None <==> forall|j: int| 0 <= j < 121 ==> b[j] != Space::King,
        at_most_one_king(b) ==> forall|s: Square|
            in_bounds(s) && #[trigger] cell(b, s) == Space::King ==> king_square(b) == Some(s),
{
    lemma_first_king_from(b, 0);
    if at_most_one_king(b) {
        assert forall|s: Square| in_bounds(s) && #[trigger] cell(b, s) == Space::King implies king_square(b) == Some(s) by {
            let k = king_square(b).unwrap();
            assert(b[sq_index(k)] == Space::King);
            assert(b[sq_index(s)] == Space::King);
            assert(sq_index(k) == sq_index(s));
        }
    }
}

/// A neighbour of the king that hems him in
pub open spec fn hems_king(b: Seq<Space>, n: Option<Square>) -> bool {
    n matches Some(sq) && !is_ally_spec(cell(b, sq), Role::Defender) && cell(b, sq) != Space::Empty
}

/// The king is surrounded on all four sides by attackers
pub open spec fn king_captured(b: Seq<Space>) -> bool {
    match king_square(b) {
        Some(k) => hems_king(b, up_spec(k)) && hems_king(b, down_spec(k)) && hems_king(
            b,
            left_spec(k),
        ) && hems_king(b, right_spec(k)),
        None => false,
    }
}

/// A step from a piece to an empty, unrestricted neighbouring square
pub open spec fn can_step_to(b: Seq<Space>, n: Option<Square>) -> bool {
    n matches Some(sq) && !is_restricted_spec(sq) && cell(b, sq) == Space::Empty
}

/// A piece of side `role` on square `s` can take one step
pub open spec fn has_step(b: Seq<Space>, s: Square, role: Role) -> bool {
    is_ally_spec(cell(b, s), role) && (can_step_to(b, left_spec(s)) || can_step_to(
        b,
        right_spec(s),
    ) || can_step_to(b, up_spec(s)) || can_step_to(b, down_spec(s)))
}

/// Some piece of side `role` can move
pub open spec fn legal_move_exists(b: Seq<Space>, role: Role) -> bool {
    exists|i: int| 0 <= i < 121 && #[trigger] has_step(b, sq_at(i), role)
}

/// The four squares next to a corner, along both edges, two deep
pub open spec fn corner_guards(corner: Square) -> Seq<Square> {
    let dx: int = if corner.x == 0 { 1 } else { -1 };
    let dy: int = if corner.y == 0 { 1 } else { -1 };
    seq![
        Square { x: (corner.x + dx) as usize, y: corner.y },
        Square { x: (corner.x + 2 * dx) as usize, y: corner.y },
        Square { x: corner.x, y: (corner.y + dy) as usize },
        Square { x: corner.x, y: (corner.y + 2 * dy) as usize },
    ]
}

/// Attackers hold both lines of squares next to the corner
pub open spec fn corner_blocked(b: Seq<Space>, corner: Square) -> bool {
    forall|k: int| 0 <= k < 4 ==> is_ally_spec(cell(b, #[trigger] corner_guards(corner)[k]), Role::Attacker)
}

/// A square that closes a custodial capture for `side`: a corner, an
/// allied piece, or the throne while the king is away from it
pub open spec fn closes_capture(b: Seq<Space>, sq: Square, side: Role) -> bool {
    is_exit_spec(sq) || is_ally_spec(cell(b, sq), side) || (is_throne_spec(sq) && !(
    king_square(b) matches Some(k) && is_throne_spec(k)))
}

/// A hostile piece, other than the king
pub open spec fn capturable(sp: Space, side: Role) -> bool {
    sp != Space::King && sp != Space::Empty && !is_ally_spec(sp, side)
}

/// The piece captured next to `dest` in direction `d`, if any
pub open spec fn captured_toward(b: Seq<Space>, dest: Square, side: Role, d: Dir) -> Seq<Square> {
    match step_spec(dest, d) {
        Some(n1) => if capturable(cell(b, n1), side) {
            match step_spec(n1, d) {
                Some(n2) => if closes_capture(b, n2, side) { seq![n1] } else { Seq::empty() },
                None => Seq::empty(),
            }
        } else {
            Seq::empty()
        },
        None => Seq::empty(),
    }
}

/// The custodial captures made by a piece of `side` that lands on `dest`
pub open spec fn captures_spec(b: Seq<Space>, dest: Square, side: Role) -> Seq<Square> {
    captured_toward(b, dest, side, Dir::Up) + captured_toward(b, dest, side, Dir::Left)
        + captured_toward(b, dest, side, Dir::Down) + captured_toward(b, dest, side, Dir::Right)
}

/// A piece on `sq` is backed on its inward side by a piece of `side`
pub open spec fn shielded(b: Seq<Space>, sq: Square, side: Role, shield: Dir) -> bool {
    step_spec(sq, shield) matches Some(p) && is_ally_spec(cell(b, p), side)
}

/// Walking along an edge from `sq` in direction `d`: the run of hostile pieces
/// that a shield wall captures, or `None` when the run is not closed
pub open spec fn wall_walk(b: Seq<Space>, sq: Square, side: Role, d: Dir, shield: Dir) -> Option<
    Seq<Square>,
>
    decreases steps_left(sq, d),
{
    let space = cell(b, sq);
    if is_ally_spec(space, side) || is_restricted_spec(sq) {
        Some(Seq::empty())
    } else if space == Space::Empty {
        None
    } else if shielded(b, sq, side, shield) {
        let rest = match step_spec(sq, d) {
            None => Some(Seq::empty()),
            Some(n) => if in_bounds(sq) && steps_left(n, d) < steps_left(sq, d) {
                wall_walk(b, n, side, d, shield)
            } else {
                None
            },
        };
        match rest {
            None => None,
            Some(r) => Some(if space != Space::King { seq![sq] + r } else { r }),
        }
    } else {
        None
    }
}

/// The walk from an optional square: off the board the run is closed
pub open spec fn wall_walk_opt(b: Seq<Space>, next: Option<Square>, side: Role, d: Dir, shield: Dir) -> Option<Seq<Square>> {
    match next {
        None => Some(Seq::empty()),
        Some(n) => wall_walk(b, n, side, d, shield),
    }
}

/// The pieces captured by a shield wall along one edge from `dest` in direction `d`
pub open spec fn shield_wall_spec(b: Seq<Space>, dest: Square, side: Role, d: Dir, shield: Dir) -> Seq<Square> {
    match wall_walk_opt(b, step_spec(dest, d), side, d, shield) {
        Some(r) => r,
        None => Seq::empty(),
    }
}

/// All shield wall captures made by a piece of `side` that lands on `dest`
pub open spec fn shield_walls_spec(b: Seq<Space>, dest: Square, side: Role) -> Seq<Square> {
    let w0 = if dest.x == 0 {
        shield_wall_spec(b, dest, side, Dir::Up, Dir::Right) + shield_wall_spec(b, dest, side, Dir::Down, Dir::Right)
    } else {
        Seq::empty()
    };
    let w1 = if dest.x == 10 {
        shield_wall_spec(b, dest, side, Dir::Up, Dir::Left) + shield_wall_spec(b, dest, side, Dir::Down, Dir::Left)
    } else {
        Seq::empty()
    };
    let w2 = if dest.y == 0 {
        shield_wall_spec(b, dest, side, Dir::Left, Dir::Down) + shield_wall_spec(b, dest, side, Dir::Right, Dir::Down)
    } else {
        Seq::empty()
    };
    let w3 = if dest.y == 10 {
        shield_wall_spec(b, dest, side, Dir::Left, Dir::Up) + shield_wall_spec(b, dest, side, Dir::Right, Dir::Up)
    } else {
        Seq::empty()
    };
    w0 + w1 + w2 + w3
}

/// The number of `true` entries
pub open spec fn count_true(s: Seq<bool>) -> nat
    decreases s.len(),
{
    if s.len() == 0 {
        0
    } else {
        count_true(s.drop_last()) + if s.last() { 1nat } else { 0nat }
    }
}

pub proof fn lemma_count_true_bound(s: Seq<bool>)
    ensures
        count_true(s) <= s.len(),
    decreases s.len(),
{
    if s.len() > 0 {
        lemma_count_true_bound(s.drop_last());
    }
}

pub proof fn lemma_count_true_update(s: Seq<bool>, i: int)
    requires
        0 <= i < s.len(),
        !s[i],
    ensures
        count_true(s.update(i, true)) == count_true(s) + 1,
    decreases s.len(),
{
    let t = s.update(i, true);
    if i == s.len() - 1 {
        assert(t.drop_last() =~= s.drop_last());
    } else {
        assert(t.drop_last() =~= s.drop_last().update(i, true));
        lemma_count_true_update(s.drop_last(), i);
    }
}

/// The flood from corner `c` may pass from `sq` onto `n`: through empty
/// squares, and onto attackers only from the corner itself
pub open spec fn flood_step(b: Seq<Space>, c: Square, sq: Square, n: Square) -> bool {
    cell(b, n) == Space::Empty || (cell(b, n) == Space::Occupied(Role::Attacker) && sq == c)
}

/// A set of squares that the flood from `c` cannot leave
pub open spec fn flood_closed(b: Seq<Space>, c: Square, s: Set<Square>) -> bool {
    forall|sq: Square, d: Dir|
        #[trigger] s.contains(sq) && in_bounds(sq) && (#[trigger] step_spec(sq, d) matches Some(n)
            && flood_step(b, c, sq, n)) ==> s.contains(step_spec(sq, d).unwrap())
}

/// Some square of `s` lies next to a defender or the king
pub open spec fn touches_defender(b: Seq<Space>, s: Set<Square>) -> bool {
    exists|sq: Square, d: Dir|
        #[trigger] s.contains(sq) && (#[trigger] step_spec(sq, d) matches Some(n)
            && is_defender_or_king(cell(b, n)))
}

/// The flood from corner `c` reaches a defender or the king
pub open spec fn defender_reachable(b: Seq<Space>, c: Square) -> bool {
    forall|s: Set<Square>|
        #[trigger] flood_closed(b, c, s) && s.contains(c) ==> touches_defender(b, s)
}

/// The attackers have sealed every corner off from the defenders
pub open spec fn attackers_sealed(b: Seq<Space>) -> bool {
    forall|k: int|
        0 <= k < 4 ==> corner_blocked(b, #[trigger] exit_seq()[k]) || !defender_reachable(
            b,
            exit_seq()[k],
        )
}

/// The set of squares marked in `vis`
pub open spec fn marked(vis: Seq<bool>) -> Set<Square> {
    Set::new(|s: Square| in_bounds(s) && vis[sq_index(s)])
}

/// Every neighbour of `sq` in direction `d` is no defender, and is marked
/// if the flood may pass onto it
pub open spec fn flood_done(b: Seq<Space>, c: Square, sq: Square, d: Dir, vis: Seq<bool>) -> bool {
    step_spec(sq, d) matches Some(n) ==> (!is_defender_or_king(cell(b, n)) && (flood_step(b, c, sq, n)
        ==> vis[sq_index(n)]))
}

#[verifier::opaque]
/// The state of a breadth-first flood from corner `c`: `q` lists the marked
/// squares in the order found, and those before `head` have been expanded
pub open spec fn flood_inv(b: Seq<Space>, c: Square, vis: Seq<bool>, q: Seq<Square>, head: int) -> bool {
    &&& vis.len() == 121
    &&& b.len() == 121
    &&& 0 <= head <= q.len()
    &&& q.len() == count_true(vis)
    &&& q.len() > 0 && q[0] == c
    &&& forall|k: int| 0 <= k < q.len() ==> in_bounds(#[trigger] q[k]) && vis[sq_index(q[k])]
    &&& forall|i: int| 0 <= i < 121 && #[trigger] vis[i] ==> q.contains(sq_at(i))
    &&& forall|k: int, d: Dir| 0 <= k < head ==> #[trigger] flood_done(b, c, q[k], d, vis)
    &&& forall|s: Set<Square>|
        #[trigger] flood_closed(b, c, s) && s.contains(c) ==> forall|k: int|
            0 <= k < q.len() ==> s.contains(#[trigger] q[k])
}

/// Every square between `from` and `to`, `to` included, is empty
pub open spec fn path_clear(b: Seq<Space>, from: Square, to: Square) -> bool {
    if from.y == to.y {
        forall|x: int|
            (if from.x <= to.x { from.x <= x <= to.x } else { to.x <= x <= from.x }) && x != from.x
                ==> #[trigger] cell(b, Square { x: x as usize, y: from.y }) == Space::Empty
    } else {
        forall|y: int|
            (if from.y <= to.y { from.y <= y <= to.y } else { to.y <= y <= from.y }) && y != from.y
                ==> #[trigger] cell(b, Square { x: from.x, y: y as usize }) == Space::Empty
    }
}

/// The first rule that forbids play `p` on board `b`, if any
pub open spec fn move_error(b: Seq<Space>, p: Play, status: Status) -> Option<PlayError> {
    if status != Status::Ongoing {
        Some(PlayError::GameFinished)
    } else if play_shape_error(p) is Some {
        play_shape_error(p)
    } else if !is_ally_spec(cell(b, p.from), p.role) {
        Some(PlayError::WrongTurn)
    } else if !path_clear(b, p.from, p.to) {
        Some(PlayError::MoveThroughPiece)
    } else if cell(b, p.from) != Space::King && is_restricted_spec(p.to) {
        Some(PlayError::RestrictedSquare)
    } else {
        None
    }
}

/// The board with the piece moved, before captures
pub open spec fn moved_board(b: Seq<Space>, p: Play) -> Seq<Space> {
    b.update(sq_index(p.from), Space::Empty).update(sq_index(p.to), cell(b, p.from))
}

/// The pieces that play `p` captures: custodial captures, then shield walls
pub open spec fn play_captures(b: Seq<Space>, p: Play) -> Seq<Square> {
    captures_spec(moved_board(b, p), p.to, p.role) + shield_walls_spec(moved_board(b, p), p.to, p.role)
}

/// The board after play `p` and its captures
pub open spec fn board_after(b: Seq<Space>, p: Play) -> Seq<Space> {
    Seq::new(121, |i: int| if play_captures(b, p).contains(sq_at(i)) { Space::Empty } else { moved_board(b, p)[i] })
}

/// The status after a play that the rules allow, or the repetition error
pub open spec fn play_outcome(b: Seq<Space>, p: Play, t: TrackerView) -> Result<Status, PlayError> {
    let a = board_after(b, p);
    if is_exit_spec(p.to) {
        Ok(Status::DefendersWin)
    } else if king_captured(a) {
        Ok(Status::AttackersWin)
    } else if (t matches TrackerView::Previous(prev) && prev.contains(a)) && p.role == Role::Defender {
        Err(PlayError::RepeatedPosition)
    } else if attackers_sealed(a) {
        Ok(Status::AttackersWin)
    } else if !legal_move_exists(a, opposite_spec(p.role)) {
        Ok(victory_spec(p.role))
    } else if tracker_view_len(t) >= 100 {
        Ok(Status::Draw)
    } else {
        Ok(Status::Ongoing)
    }
}

/// The squares of a shield wall lie on the board
pub proof fn lemma_wall_walk_in_bounds(b: Seq<Space>, sq: Square, side: Role, d: Dir, shield: Dir)
    requires
        in_bounds(sq),
    ensures
        wall_walk(b, sq, side, d, shield) matches Some(r) ==> forall|k: int| 0 <= k < r.len() ==> in_bounds(#[trigger] r[k]),
    decreases steps_left(sq, d),
{
    if let Some(n) = step_spec(sq, d) {
        if steps_left(n, d) < steps_left(sq, d) {
            lemma_wall_walk_in_bounds(b, n, side, d, shield);
        }
    }
    if let Some(r) = wall_walk(b, sq, side, d, shield) {
        assert forall|k: int| 0 <= k < r.len() implies in_bounds(#[trigger] r[k]) by {
            if let Some(n) = step_spec(sq, d) {
                if let Some(r2) = wall_walk(b, n, side, d, shield) {
                    if r.len() > r2.len() && k > 0 {
                        assert(r[k] == r2[k - 1]);
                    }
                }
            }
        }
    }
}

pub proof fn lemma_shield_wall_in_bounds(b: Seq<Space>, dest: Square, side: Role, d: Dir, shield: Dir)
    requires
        in_bounds(dest),
    ensures
        forall|k: int| 0 <= k < shield_wall_spec(b, dest, side, d, shield).len() ==> in_bounds(#[trigger] shield_wall_spec(b, dest, side, d, shield)[k]),
{
    if let Some(n) = step_spec(dest, d) {
        lemma_wall_walk_in_bounds(b, n, side, d, shield);
    }
}

pub proof fn lemma_captures_in_bounds(b: Seq<Space>, p: Play)
    requires
        in_bounds(p.to),
    ensures
        forall|k: int| 0 <= k < play_captures(b, p).len() ==> in_bounds(#[trigger] play_captures(b, p)[k]),
{
    let m = moved_board(b, p);
    lemma_shield_wall_in_bounds(m, p.to, p.role, Dir::Up, Dir::Right);
    lemma_shield_wall_in_bounds(m, p.to, p.role, Dir::Down, Dir::Right);
    lemma_shield_wall_in_bounds(m, p.to, p.role, Dir::Up, Dir::Left);
    lemma_shield_wall_in_bounds(m, p.to, p.role, Dir::Down, Dir::Left);
    lemma_shield_wall_in_bounds(m, p.to, p.role, Dir::Left, Dir::Down);
    lemma_shield_wall_in_bounds(m, p.to, p.role, Dir::Right, Dir::Down);
    lemma_shield_wall_in_bounds(m, p.to, p.role, Dir::Left, Dir::Up);
    lemma_shield_wall_in_bounds(m, p.to, p.role, Dir::Right, Dir::Up);
    let cs = play_captures(b, p);
    assert forall|k: int| 0 <= k < cs.len() implies in_bounds(#[trigger] cs[k]) by {
        let c1 = captures_spec(m, p.to, p.role);
        if k >= c1.len() {
            assert(cs[k] == shield_walls_spec(m, p.to, p.role)[k - c1.len()]);
        }
    }
}

/// Why a textual board was refused
#[derive(Clone, Copy, Debug, PartialEq, Eq, Structural)]
pub enum BoardError {
    /// A row does not hold exactly 11 characters
    RowLength,
    /// A character other than `.`, `O`, `X` and `K`
    InvalidChar,
    /// A piece other than the king on a corner or the throne
    RestrictedSquare,
    /// More than one king
    TwoKings,
}

/// The content of a square written as one character
pub open spec fn space_of_byte(c: u8) -> Option<Space> {
    if c == 88 {
        Some(Space::Occupied(Role::Defender))
    } else if c == 79 {
        Some(Space::Occupied(Role::Attacker))
    } else if c == 46 {
        Some(Space::Empty)
    } else if c == 75 {
        Some(Space::King)
    } else {
        None
    }
}

/// Eleven rows of eleven known characters
pub open spec fn rows_well_formed(rows: Seq<Seq<u8>>) -> bool {
    rows.len() == 11 && forall|y: int| 0 <= y < 11 ==> (#[trigger] rows[y]).len() == 11 && forall|x: int|
        0 <= x < 11 ==> space_of_byte(#[trigger] rows[y][x]) is Some
}

/// The board that rows of characters describe
pub open spec fn parsed_board(rows: Seq<Seq<u8>>) -> Seq<Space> {
    Seq::new(121, |i: int| space_of_byte(rows[i / 11][i % 11]).unwrap())
}

/// The rows are a board that the rules accept
pub open spec fn rows_accepted(rows: Seq<Seq<u8>>) -> bool {
    rows_well_formed(rows) && restricted_ok(parsed_board(rows)) && at_most_one_king(parsed_board(rows))
}

/// The byte content of eleven rows
pub open spec fn rows_bytes(rows: [&str; 11]) -> Seq<Seq<u8>> {
    Seq::new(11, |y: int| rows@[y].spec_bytes())
}

/// The 11x11 board
#[derive(Clone, Copy, Debug, Eq, Hash)]
pub struct Board {
    pub spaces: [Space; 121],
}

impl PartialEq for Board {
    fn eq(&self, other: &Board) -> (r: bool) {
        let mut i: usize = 0;
        while i < 121
            invariant
                0 <= i <= 121,
                forall|j: int| 0 <= j < i ==> self@[j] == other@[j],
            decreases 121 - i,
        {
            if self.spaces[i] != other.spaces[i] {
                return false;
            }
            i += 1;
        }
        assert(self@ =~= other@);
        true
    }
}

impl vstd::std_specs::cmp::PartialEqSpecImpl for Board {
    open spec fn obeys_eq_spec() -> bool {
        true
    }

    open spec fn eq_spec(&self, other: &Board) -> bool {
        self@ == other@
    }
}

impl View for Board {
    type V = Seq<Space>;

    open spec fn view(&self) -> Seq<Space> {
        self.spaces@
    }
}

impl Board {
    /// A board as the rules keep it: at most one king, and no other
    /// piece on a restricted square
    pub open spec fn wf(&self) -> bool {
        at_most_one_king(self@) && restricted_ok(self@)
    }

    pub fn empty() -> (r: Board)
        ensures
            forall|i: int| 0 <= i < 121 ==> r@[i] == Space::Empty,
            r.wf(),
    {
        Board { spaces: [Space::Empty; 121] }
    }

    pub fn get(&self, square: &Square) -> (r: Space)
        requires
            in_bounds(*square),
        ensures
            r == cell(self@, *square),
    {
        self.spaces[square.y * 11 + square.x]
    }

    pub fn set(&mut self, square: &Square, space: Space)
        requires
            in_bounds(*square),
        ensures
            final(self)@ == old(self)@.update(sq_index(*square), space),
    {
        self.spaces[square.y * 11 + square.x] = space;
    }

    pub fn is_occupied(&self, square: &Square) -> (r: bool)
        requires
            in_bounds(*square),
        ensures
            r == (cell(self@, *square) != Space::Empty),
    {
        let space = self.get(square);
        match space {
            Space::Empty => false,
            Space::Occupied(_) => true,
            Space::King => true,
        }
    }

    /// If the king is not captured, find the square on which he is located.
    pub fn find_the_king(&self) -> (r: Option<Square>)
        ensures
            r == king_square(self@),
            r matches Some(s) ==> in_bounds(s) && cell(self@, s) == Space::King,
    {
        proof {
            lemma_king_square(self@);
        }
        let mut i: usize = 0;
        while i < 121
            invariant
                0 <= i <= 121,
                first_king_from(self@, 0) == first_king_from(self@, i as int),
            decreases 121 - i,
        {
            if matches!(self.spaces[i], Space::King) {
                return Some(Square { x: i % 11, y: i / 11 });
            }
            i += 1;
        }
        None
    }

    /// The number of attackers on the board
    pub fn attackers(&self) -> (r: u8)
        ensures
            r == attacker_count(self@),
    {
        self.count(Space::Occupied(Role::Attacker), Space::Occupied(Role::Attacker))
    }

    /// The number of defenders on the board, the king included
    pub fn defenders(&self) -> (r: u8)
        ensures
            r == defender_count(self@),
    {
        self.count(Space::Occupied(Role::Defender), Space::King)
    }

    /// The number of squares that hold `a` or `b`
    fn count(&self, a: Space, b: Space) -> (r: u8)
        ensures
            r == count_of(self@, a, b),
    {
        let mut n: u8 = 0;
        let mut i: usize = 0;
        while i < 121
            invariant
                0 <= i <= 121,
                n == count_of(self@.subrange(0, i as int), a, b),
                n <= i,
            decreases 121 - i,
        {
            assert(self@.subrange(0, i as int + 1).drop_last() =~= self@.subrange(0, i as int));
            let sp = self.spaces[i];
            if sp == a || sp == b {
                n += 1;
            }
            i += 1;
        }
        assert(self@.subrange(0, 121) =~= self@);
        n
    }

    /// Check if a given player can make a legal move
    pub fn a_legal_move_exists(&self, turn: &Role) -> (r: bool)
        ensures
            r == legal_move_exists(self@, *turn),
    {
        let mut i: usize = 0;
        while i < 121
            invariant
                0 <= i <= 121,
                forall|j: int| 0 <= j < i ==> !#[trigger] has_step(self@, sq_at(j), *turn),
            decreases 121 - i,
        {
            let src = Square { x: i % 11, y: i / 11 };
            proof {
                lemma_sq_at_index(i as int);
            }
            if self.get(&src).is_ally(turn) {
                if self.step_open(src.left()) || self.step_open(src.right()) || self.step_open(
                    src.up(),
                ) || self.step_open(src.down()) {
                    assert(has_step(self@, sq_at(i as int), *turn));
                    return true;
                }
            }
            i += 1;
        }
        false
    }

    fn step_open(&self, dest: Option<Square>) -> (r: bool)
        requires
            dest matches Some(d) ==> in_bounds(d),
        ensures
            r == can_step_to(self@, dest),
    {
        match dest {
            Some(d) => !d.is_restricted() && self.get(&d) == Space::Empty,
            None => false,
        }
    }

    /// Determine if the king is surrounded on all four sides by attackers
    pub fn capture_the_king(&self) -> (r: bool)
        ensures
            r == king_captured(self@),
    {
        match self.find_the_king() {
            Some(king) => {
                self.hems(king.up()) && self.hems(king.down()) && self.hems(king.left())
                    && self.hems(king.right())
            },
            None => false,
        }
    }

    fn hems(&self, n: Option<Square>) -> (r: bool)
        requires
            n matches Some(d) ==> in_bounds(d),
        ensures
            r == hems_king(self@, n),
    {
        match n {
            Some(sq) => {
                let space = self.get(&sq);
                !space.is_ally(&Role::Defender) && space != Space::Empty
            },
            None => false,
        }
    }

    /// A corner case of a blocked corner that the flood fill
    /// does not detect: attackers on both lines next to the corner
    pub fn special_corner_block(&self, corner: &Square) -> (r: bool)
        requires
            is_exit_spec(*corner),
        ensures
            r == corner_blocked(self@, *corner),
    {
        let to_check: [Square; 4] = if corner.x == 0 {
            if corner.y == 0 {
                [Square { x: 1, y: 0 }, Square { x: 2, y: 0 }, Square { x: 0, y: 1 }, Square { x: 0, y: 2 }]
            } else {
                [Square { x: 1, y: 10 }, Square { x: 2, y: 10 }, Square { x: 0, y: 9 }, Square { x: 0, y: 8 }]
            }
        } else if corner.y == 0 {
            [Square { x: 9, y: 0 }, Square { x: 8, y: 0 }, Square { x: 10, y: 1 }, Square { x: 10, y: 2 }]
        } else {
            [Square { x: 9, y: 10 }, Square { x: 8, y: 10 }, Square { x: 10, y: 9 }, Square { x: 10, y: 8 }]
        };
        assert(to_check@ =~= corner_guards(*corner));
        let mut k: usize = 0;
        while k < 4
            invariant
                0 <= k <= 4,
                to_check@ == corner_guards(*corner),
                is_exit_spec(*corner),
                forall|j: int| 0 <= j < k ==> is_ally_spec(cell(self@, #[trigger] corner_guards(*corner)[j]), Role::Attacker),
            decreases 4 - k,
        {
            if !self.get(&to_check[k]).is_ally(&Role::Attacker) {
                return false;
            }
            k += 1;
        }
        true
    }

    /// Find which non-king pieces are captured when player `side` moves
    /// to square `dest`.
    pub fn captures(&self, dest: &Square, side: &Role) -> (r: Vec<Square>)
        requires
            in_bounds(*dest),
        ensures
            r@ == captures_spec(self@, *dest, *side),
    {
        let throne_free = match self.find_the_king() {
            Some(k) => !(k.x == 5 && k.y == 5),
            None => true,
        };
        let mut captures: Vec<Square> = Vec::new();
        let mut up = self.captured_toward(dest, side, Dir::Up, throne_free);
        let mut left = self.captured_toward(dest, side, Dir::Left, throne_free);
        let mut down = self.captured_toward(dest, side, Dir::Down, throne_free);
        let mut right = self.captured_toward(dest, side, Dir::Right, throne_free);
        captures.append(&mut up);
        captures.append(&mut left);
        captures.append(&mut down);
        captures.append(&mut right);
        captures
    }

    fn captured_toward(&self, dest: &Square, side: &Role, d: Dir, throne_free: bool) -> (r: Vec<Square>)
        requires
            in_bounds(*dest),
            throne_free == !(king_square(self@) matches Some(k) && is_throne_spec(k)),
        ensures
            r@ == captured_toward(self@, *dest, *side, d),
    {
        let mut out: Vec<Square> = Vec::new();
        if let Some(n1) = dest.step(d) {
            let space = self.get(&n1);
            if space != Space::King && space != Space::Empty && !space.is_ally(side) {
                if let Some(n2) = n1.step(d) {
                    if n2.is_exit() || self.get(&n2).is_ally(side) || (n2.x == 5 && n2.y == 5
                        && throne_free) {
                        out.push(n1);
                    }
                }
            }
        }
        assert(out@ =~= captured_toward(self@, *dest, *side, d));
        out
    }

    /// Check for a shield wall capture starting next to `dest` for side
    /// `side`, walking in direction `d` with the shielding pieces in direction
    /// `shield`.
    fn shield_wall_aux(&self, dest: &Square, side: &Role, d: Dir, shield: Dir) -> (r: Vec<Square>)
        requires
            in_bounds(*dest),
        ensures
            r@ == shield_wall_spec(self@, *dest, *side, d, shield),
    {
        let ghost target = wall_walk_opt(self@, step_spec(*dest, d), *side, d, shield);
        let mut next = dest.step(d);
        let mut maybe_captured: Vec<Square> = Vec::new();
        loop
            invariant
                next matches Some(n) ==> in_bounds(n),
                target == wall_walk_opt(self@, step_spec(*dest, d), *side, d, shield),
                target == (match wall_walk_opt(self@, next, *side, d, shield) {
                    None => None,
                    Some(r) => Some(maybe_captured@ + r),
                }),
            decreases
                (match next {
                    Some(n) => steps_left(n, d) + 1,
                    None => 0,
                }),
        {
            match next {
                None => {
                    assert(maybe_captured@ + Seq::<Square>::empty() =~= maybe_captured@);
                    assert(target == Some(maybe_captured@));
                    return maybe_captured;
                },
                Some(sq) => {
                    let space = self.get(&sq);
                    if space.is_ally(side) || sq.is_restricted() {
                        assert(maybe_captured@ + Seq::<Square>::empty() =~= maybe_captured@);
                        assert(wall_walk(self@, sq, *side, d, shield) == Some(Seq::<Square>::empty()));
                        assert(target == Some(maybe_captured@));
                        return maybe_captured;
                    }
                    if space == Space::Empty {
                        return Vec::new();
                    }
                    let backed = match sq.step(shield) {
                        Some(p) => self.get(&p).is_ally(side),
                        None => false,
                    };
                    if backed {
                        let ghost old_acc = maybe_captured@;
                        let n = sq.step(d);
                        if space != Space::King {
                            maybe_captured.push(sq);
                        }
                        proof {
                            match wall_walk_opt(self@, n, *side, d, shield) {
                                None => {},
                                Some(r) => {
                                    if space != Space::King {
                                        assert(old_acc + (seq![sq] + r) =~= maybe_captured@ + r);
                                    }
                                },
                            }
                        }
                        next = n;
                    } else {
                        return Vec::new();
                    }
                },
            }
        }
    }

    /// Determine if a shield wall capture occurs when player `side` moves a piece
    /// to square `dest`.
    pub fn captures_shield_wall(&self, side: &Role, dest: &Square) -> (r: Vec<Square>)
        requires
            in_bounds(*dest),
        ensures
            r@ == shield_walls_spec(self@, *dest, *side),
    {
        let mut captures: Vec<Square> = Vec::new();
        if dest.x == 0 {
            let mut a = self.shield_wall_aux(dest, side, Dir::Up, Dir::Right);
            let mut b = self.shield_wall_aux(dest, side, Dir::Down, Dir::Right);
            captures.append(&mut a);
            captures.append(&mut b);
        }
        if dest.x == 10 {
            let mut a = self.shield_wall_aux(dest, side, Dir::Up, Dir::Left);
            let mut b = self.shield_wall_aux(dest, side, Dir::Down, Dir::Left);
            captures.append(&mut a);
            captures.append(&mut b);
        }
        if dest.y == 0 {
            let mut a = self.shield_wall_aux(dest, side, Dir::Left, Dir::Down);
            let mut b = self.shield_wall_aux(dest, side, Dir::Right, Dir::Down);
            captures.append(&mut a);
            captures.append(&mut b);
        }
        if dest.y == 10 {
            let mut a = self.shield_wall_aux(dest, side, Dir::Left, Dir::Up);
            let mut b = self.shield_wall_aux(dest, side, Dir::Right, Dir::Up);
            captures.append(&mut a);
            captures.append(&mut b);
        }
        assert(captures@ =~= shield_walls_spec(self@, *dest, *side));
        captures
    }

    /// Look at the neighbour of `q[head]` in direction `d`: report a defender,
    /// or mark the square if the flood passes onto it
    fn flood_visit(&self, c: &Square, d: Dir, vis: &mut [bool; 121], q: &mut Vec<Square>, head: usize) -> (found: bool)
        requires
            flood_inv(self@, *c, old(vis)@, old(q)@, head as int),
            head < old(q)@.len(),
        ensures
            found ==> (step_spec(old(q)@[head as int], d) matches Some(n) && is_defender_or_king(cell(self@, n))),
            !found ==> flood_inv(self@, *c, final(vis)@, final(q)@, head as int),
            !found ==> flood_done(self@, *c, old(q)@[head as int], d, final(vis)@),
            !found ==> forall|i: int| 0 <= i < 121 && #[trigger] old(vis)@[i] ==> final(vis)@[i],
            final(q)@.len() >= old(q)@.len(),
            forall|k: int| 0 <= k < old(q)@.len() ==> final(q)@[k] == old(q)@[k],
    {
        proof {
            lemma_flood_len(self@, *c, vis@, q@, head as int);
        }
        let sq = q[head];
        match sq.step(d) {
            None => false,
            Some(n) => {
                let space = self.get(&n);
                match space {
                    Space::Occupied(Role::Defender) => true,
                    Space::King => true,
                    _ => {
                        let passable = space == Space::Empty || (sq.x == c.x && sq.y == c.y);
                        let ix = n.y * 11 + n.x;
                        if passable && !vis[ix] {
                            proof {
                                lemma_flood_push(self@, *c, vis@, q@, head as int, n);
                            }
                            vis[ix] = true;
                            q.push(n);
                        }
                        false
                    },
                }
            },
        }
    }

    /// Breadth-first flood from corner `c`: does it reach a defender or the king?
    fn flood_reaches_defender(&self, c: &Square) -> (r: bool)
        requires
            in_bounds(*c),
        ensures
            r == defender_reachable(self@, *c),
    {
        let mut vis: [bool; 121] = [false; 121];
        let mut q: Vec<Square> = Vec::new();
        let ci = c.y * 11 + c.x;
        vis[ci] = true;
        q.push(*c);
        proof {
            assert(vis@ =~= seq_false().update(sq_index(*c), true));
            lemma_flood_start(self@, *c, vis@, q@);
        }
        let mut head: usize = 0;
        while head < q.len()
            invariant
                flood_inv(self@, *c, vis@, q@, head as int),
                head <= q@.len(),
            decreases 121 - head,
        {
            proof {
                lemma_flood_len(self@, *c, vis@, q@, head as int);
            }
            let ghost q_before = q@;
            let ghost vis_before = vis@;
            if self.flood_visit(c, Dir::Up, &mut vis, &mut q, head) {
                proof { lemma_flood_found(self@, *c, q_before, vis_before, head as int, Dir::Up); }
                return true;
            }
            let ghost vis1 = vis@;
            if self.flood_visit(c, Dir::Down, &mut vis, &mut q, head) {
                proof { lemma_flood_found(self@, *c, q_before, vis_before, head as int, Dir::Down); }
                return true;
            }
            let ghost vis2 = vis@;
            if self.flood_visit(c, Dir::Left, &mut vis, &mut q, head) {
                proof { lemma_flood_found(self@, *c, q_before, vis_before, head as int, Dir::Left); }
                return true;
            }
            let ghost vis3 = vis@;
            if self.flood_visit(c, Dir::Right, &mut vis, &mut q, head) {
                proof { lemma_flood_found(self@, *c, q_before, vis_before, head as int, Dir::Right); }
                return true;
            }
            proof {
                let sq = q_before[head as int];
                lemma_flood_done_mono(self@, *c, sq, Dir::Up, vis1, vis@);
                lemma_flood_done_mono(self@, *c, sq, Dir::Down, vis2, vis@);
                lemma_flood_done_mono(self@, *c, sq, Dir::Left, vis3, vis@);
                lemma_flood_advance(self@, *c, vis@, q@, head as int);
            }
            head += 1;
        }
        proof {
            lemma_flood_end(self@, *c, vis@, q@);
        }
        false
    }

    /// See if we can reach a defender from any corner by traversing through empty squares.
    /// If not, the attackers win.
    pub fn flood_fill_attackers_win(&self) -> (r: bool)
        ensures
            r == attackers_sealed(self@),
    {
        let corners = exit_squares();
        let mut k: usize = 0;
        while k < 4
            invariant
                0 <= k <= 4,
                corners@ == exit_seq(),
                forall|j: int| 0 <= j < k ==> corner_blocked(self@, #[trigger] exit_seq()[j]) || !defender_reachable(self@, exit_seq()[j]),
            decreases 4 - k,
        {
            let corner = corners[k];
            if !self.special_corner_block(&corner) {
                if self.flood_reaches_defender(&corner) {
                    return false;
                }
            }
            k += 1;
        }
        true
    }
}

pub open spec fn seq_false() -> Seq<bool> {
    Seq::new(121, |i: int| false)
}

pub proof fn lemma_count_false(n: nat)
    ensures
        count_true(Seq::new(n, |i: int| false)) == 0,
    decreases n,
{
    if n > 0 {
        assert(Seq::new(n, |i: int| false).drop_last() =~= Seq::new((n - 1) as nat, |i: int| false));
        lemma_count_false((n - 1) as nat);
    }
}

pub proof fn lemma_flood_found(b: Seq<Space>, c: Square, q: Seq<Square>, vis: Seq<bool>, head: int, d: Dir)
    requires
        flood_inv(b, c, vis, q, head),
        0 <= head < q.len(),
        step_spec(q[head], d) matches Some(n) && is_defender_or_king(cell(b, n)),
    ensures
        defender_reachable(b, c),
{
    reveal(flood_inv);
    assert forall|s: Set<Square>| #[trigger] flood_closed(b, c, s) && s.contains(c) implies touches_defender(b, s) by {
        assert(s.contains(q[head]));
    }
}

pub proof fn lemma_flood_len(b: Seq<Space>, c: Square, vis: Seq<bool>, q: Seq<Square>, head: int)
    requires
        flood_inv(b, c, vis, q, head),
    ensures
        q.len() <= 121,
        0 <= head <= q.len(),
        forall|k: int| 0 <= k < q.len() ==> in_bounds(#[trigger] q[k]),
{
    reveal(flood_inv);
    lemma_count_true_bound(vis);
}

pub proof fn lemma_flood_done_mono(b: Seq<Space>, c: Square, sq: Square, d: Dir, v1: Seq<bool>, v2: Seq<bool>)
    requires
        flood_done(b, c, sq, d, v1),
        v1.len() == 121,
        v2.len() == 121,
        in_bounds(sq),
        forall|i: int| 0 <= i < 121 && #[trigger] v1[i] ==> v2[i],
    ensures
        flood_done(b, c, sq, d, v2),
{
    if let Some(n) = step_spec(sq, d) {
        lemma_index_sq_at(n);
    }
}

pub proof fn lemma_flood_start(b: Seq<Space>, c: Square, vis: Seq<bool>, q: Seq<Square>)
    requires
        b.len() == 121,
        in_bounds(c),
        vis == seq_false().update(sq_index(c), true),
        q == seq![c],
    ensures
        flood_inv(b, c, vis, q, 0),
{
    reveal(flood_inv);
    lemma_index_sq_at(c);
    lemma_count_true_update(seq_false(), sq_index(c));
    lemma_count_false(121);
    assert(seq_false() =~= Seq::new(121, |i: int| false));
    assert forall|i: int| 0 <= i < 121 && #[trigger] vis[i] implies q.contains(sq_at(i)) by {
        assert(q[0] == sq_at(i));
    }
}

pub proof fn lemma_flood_push(b: Seq<Space>, c: Square, vis: Seq<bool>, q: Seq<Square>, head: int, n: Square)
    requires
        flood_inv(b, c, vis, q, head),
        0 <= head < q.len(),
        in_bounds(n),
        exists|d: Dir| step_spec(q[head], d) == Some(n),
        flood_step(b, c, q[head], n),
        !vis[sq_index(n)],
    ensures
        flood_inv(b, c, vis.update(sq_index(n), true), q.push(n), head),
{
    reveal(flood_inv);
    let ix = sq_index(n);
    let vis2 = vis.update(ix, true);
    let q2 = q.push(n);
    lemma_count_true_update(vis, ix);
    lemma_index_sq_at(n);
    assert forall|i: int| 0 <= i < 121 && #[trigger] vis2[i] implies q2.contains(sq_at(i)) by {
        if i != ix {
            assert(vis[i]);
            let k = choose|k: int| 0 <= k < q.len() && q[k] == sq_at(i);
            assert(q2[k] == sq_at(i));
        } else {
            assert(q2[q.len() as int] == sq_at(i));
        }
    }
    assert forall|s: Set<Square>| #[trigger] flood_closed(b, c, s) && s.contains(c) implies forall|k: int|
        0 <= k < q2.len() ==> s.contains(#[trigger] q2[k]) by {
        let d = choose|d: Dir| step_spec(q[head], d) == Some(n);
        assert(s.contains(q[head]));
        assert(s.contains(n));
        assert forall|k: int| 0 <= k < q2.len() implies s.contains(#[trigger] q2[k]) by {
            if k < q.len() {
                assert(q2[k] == q[k]);
            }
        }
    }
    assert forall|k: int, d2: Dir| 0 <= k < head implies #[trigger] flood_done(b, c, q2[k], d2, vis2) by {
        assert(q2[k] == q[k]);
        assert(flood_done(b, c, q[k], d2, vis));
        lemma_flood_done_mono(b, c, q[k], d2, vis, vis2);
    }
    assert forall|k: int| 0 <= k < q2.len() implies in_bounds(#[trigger] q2[k]) && vis2[sq_index(q2[k])] by {
        if k < q.len() {
            assert(q2[k] == q[k]);
        }
    }
}

pub proof fn lemma_flood_advance(b: Seq<Space>, c: Square, vis: Seq<bool>, q: Seq<Square>, head: int)
    requires
        flood_inv(b, c, vis, q, head),
        0 <= head < q.len(),
        flood_done(b, c, q[head], Dir::Up, vis),
        flood_done(b, c, q[head], Dir::Down, vis),
        flood_done(b, c, q[head], Dir::Left, vis),
        flood_done(b, c, q[head], Dir::Right, vis),
    ensures
        flood_inv(b, c, vis, q, head + 1),
{
    reveal(flood_inv);
    assert forall|k: int, d: Dir| 0 <= k < head + 1 implies #[trigger] flood_done(b, c, q[k], d, vis) by {
        if k == head {
            match d {
                Dir::Up => {},
                Dir::Down => {},
                Dir::Left => {},
                Dir::Right => {},
            }
        }
    }
}

pub proof fn lemma_flood_end(b: Seq<Space>, c: Square, vis: Seq<bool>, q: Seq<Square>)
    requires
        flood_inv(b, c, vis, q, q.len() as int),
    ensures
        !defender_reachable(b, c),
{
    reveal(flood_inv);
    let s = marked(vis);
    lemma_index_sq_at(c);
    assert(q[0] == c);
    assert(s.contains(c));
    assert forall|sq: Square, d: Dir|
        #[trigger] s.contains(sq) && in_bounds(sq) && (#[trigger] step_spec(sq, d) matches Some(n)
            && flood_step(b, c, sq, n)) implies s.contains(step_spec(sq, d).unwrap()) by {
        lemma_index_sq_at(sq);
        assert(q.contains(sq_at(sq_index(sq))));
        let k = choose|k: int| 0 <= k < q.len() && q[k] == sq;
        assert(flood_done(b, c, q[k], d, vis));
        lemma_index_sq_at(step_spec(sq, d).unwrap());
    }
    assert(flood_closed(b, c, s));
    if touches_defender(b, s) {
        let (sq, d) = choose|sq: Square, d: Dir|
            #[trigger] s.contains(sq) && (#[trigger] step_spec(sq, d) matches Some(n)
                && is_defender_or_king(cell(b, n)));
        lemma_index_sq_at(sq);
        assert(q.contains(sq_at(sq_index(sq))));
        let k = choose|k: int| 0 <= k < q.len() && q[k] == sq;
        assert(flood_done(b, c, q[k], d, vis));
    }
}

impl Board {
    /// Whether every square from `play.from` to `play.to` is free
    fn path_is_clear(&self, play: &Play) -> (r: bool)
        requires
            play_shape_error(*play) is None,
        ensures
            r == path_clear(self@, play.from, play.to),
    {
        let from = play.from;
        let to = play.to;
        if from.y == to.y {
            let lo = if from.x <= to.x { from.x } else { to.x };
            let hi = if from.x <= to.x { to.x } else { from.x };
            let mut x = lo;
            while x <= hi
                invariant
                    lo <= x <= hi + 1,
                    from.y == to.y,
                    from == play.from,
                    to == play.to,
                    hi <= 10,
                    from.y <= 10,
                    lo == (if from.x <= to.x { from.x } else { to.x }),
                    hi == (if from.x <= to.x { to.x } else { from.x }),
                    forall|x2: int| lo <= x2 < x && x2 != from.x ==> #[trigger] cell(self@, Square { x: x2 as usize, y: from.y }) == Space::Empty,
                decreases hi + 1 - x,
            {
                if x != from.x && self.get(&Square { x, y: from.y }) != Space::Empty {
                    let ghost xi = x as int;
                    assert(cell(self@, Square { x: xi as usize, y: from.y }) != Space::Empty);
                    return false;
                }
                x += 1;
            }
            true
        } else {
            let lo = if from.y <= to.y { from.y } else { to.y };
            let hi = if from.y <= to.y { to.y } else { from.y };
            let mut y = lo;
            while y <= hi
                invariant
                    lo <= y <= hi + 1,
                    from.y != to.y,
                    from == play.from,
                    to == play.to,
                    hi <= 10,
                    from.x <= 10,
                    lo == (if from.y <= to.y { from.y } else { to.y }),
                    hi == (if from.y <= to.y { to.y } else { from.y }),
                    forall|y2: int| lo <= y2 < y && y2 != from.y ==> #[trigger] cell(self@, Square { x: from.x, y: y2 as usize }) == Space::Empty,
                decreases hi + 1 - y,
            {
                if y != from.y && self.get(&Square { x: from.x, y }) != Space::Empty {
                    let ghost yi = y as int;
                    assert(cell(self@, Square { x: from.x, y: yi as usize }) != Space::Empty);
                    return false;
                }
                y += 1;
            }
            true
        }
    }

    /// Empty every square in `caps`
    fn remove_pieces(&mut self, caps: &Vec<Square>)
        requires
            forall|k: int| 0 <= k < caps@.len() ==> in_bounds(#[trigger] caps@[k]),
        ensures
            forall|i: int| 0 <= i < 121 ==> #[trigger] final(self)@[i] == if caps@.contains(sq_at(i)) {
                Space::Empty
            } else {
                old(self)@[i]
            },
    {
        let mut k: usize = 0;
        while k < caps.len()
            invariant
                0 <= k <= caps@.len(),
                forall|j: int| 0 <= j < caps@.len() ==> in_bounds(#[trigger] caps@[j]),
                forall|i: int| 0 <= i < 121 ==> #[trigger] self@[i] == if caps@.subrange(0, k as int).contains(sq_at(i)) {
                    Space::Empty
                } else {
                    old(self)@[i]
                },
            decreases caps@.len() - k,
        {
            let c = caps[k];
            let ghost prev = self@;
            self.set(&c, Space::Empty);
            proof {
                lemma_index_sq_at(c);
                assert forall|i: int| 0 <= i < 121 implies #[trigger] self@[i] == if caps@.subrange(0, k + 1).contains(sq_at(i)) {
                    Space::Empty
                } else {
                    old(self)@[i]
                } by {
                    lemma_sq_at_index(i);
                    let sub0 = caps@.subrange(0, k as int);
                    let sub1 = caps@.subrange(0, k + 1);
                    assert(sub1 =~= sub0.push(c));
                    if i == sq_index(c) {
                        assert(sub1[k as int] == sq_at(i));
                    } else {
                        assert(sq_at(i) != c);
                        if sub0.contains(sq_at(i)) {
                            let j = choose|j: int| 0 <= j < sub0.len() && #[trigger] sub0[j] == sq_at(i);
                            assert(sub1[j] == sq_at(i));
                        }
                        if sub1.contains(sq_at(i)) {
                            let j = choose|j: int| 0 <= j < sub1.len() && #[trigger] sub1[j] == sq_at(i);
                            assert(sub0[j] == sq_at(i));
                        }
                    }
                }
            }
            k += 1;
        }
        assert(caps@.subrange(0, caps@.len() as int) =~= caps@);
    }

    /// The actual game logic. Checks if a move is valid, computes
    /// captures, and checks if the game is won.
    ///
    /// Errors on an illegal move
    pub fn play_internal(&self, play: &Play, status: &Status, previous_boards: &PositionsTracker) -> (r: Result<(Board, Vec<Square>, Status), PlayError>)
        ensures
            match move_error(self@, *play, *status) {
                Some(e) => r == Err::<(Board, Vec<Square>, Status), PlayError>(e),
                None => match play_outcome(self@, *play, previous_boards@) {
                    Err(e) => r is Err && r->Err_0 == e,
                    Ok(st) => r is Ok && r->Ok_0.0@ == board_after(self@, *play) && r->Ok_0.1@
                        == play_captures(self@, *play) && r->Ok_0.2 == st,
                },
            },
    {
        if *status != Status::Ongoing {
            return Err(PlayError::GameFinished);
        }
        match play.valid() {
            Err(e) => {
                return Err(e);
            },
            Ok(_) => {},
        }
        let space_from = self.get(&play.from);
        if !space_from.is_ally(&play.role) {
            return Err(PlayError::WrongTurn);
        }
        if !self.path_is_clear(play) {
            return Err(PlayError::MoveThroughPiece);
        }
        if space_from != Space::King && play.to.is_restricted() {
            return Err(PlayError::RestrictedSquare);
        }
        let mut board = *self;
        board.set(&play.from, Space::Empty);
        board.set(&play.to, space_from);
        assert(board@ == moved_board(self@, *play));
        let mut captures = board.captures(&play.to, &play.role);
        let mut walls = board.captures_shield_wall(&play.role, &play.to);
        captures.append(&mut walls);
        assert(captures@ == play_captures(self@, *play));
        proof {
            lemma_captures_in_bounds(self@, *play);
        }
        board.remove_pieces(&captures);
        assert(board@ =~= board_after(self@, *play));
        if play.to.is_exit() {
            return Ok((board, captures, Status::DefendersWin));
        }
        if board.capture_the_king() {
            return Ok((board, captures, Status::AttackersWin));
        }
        if let PositionsTracker::Previous(prev) = previous_boards {
            if prev.contains(&board) && play.role == Role::Defender {
                return Err(PlayError::RepeatedPosition);
            }
        }
        if board.flood_fill_attackers_win() {
            return Ok((board, captures, Status::AttackersWin));
        }
        if !board.a_legal_move_exists(&play.role.opposite()) {
            return Ok((board, captures, play.role.victory()));
        }
        if previous_boards.len() >= 100 {
            return Ok((board, captures, Status::Draw));
        }
        Ok((board, captures, Status::Ongoing))
    }
}

impl Board {
    /// Read a board from 11 rows of 11 characters: `.` empty, `O` attacker,
    /// `X` defender, `K` king.
    pub fn try_from(rows: [&str; 11]) -> (r: Result<Board, BoardError>)
        ensures
            r is Ok <==> rows_accepted(rows_bytes(rows)),
            r matches Ok(b) ==> b@ == parsed_board(rows_bytes(rows)) && b.wf(),
            r == Err::<Board, BoardError>(BoardError::RowLength) ==> exists|y: int| 0 <= y < 11 && (#[trigger] rows_bytes(rows)[y]).len() != 11,
            r == Err::<Board, BoardError>(BoardError::InvalidChar) ==> exists|y: int, x: int|
                0 <= y < 11 && 0 <= x < 11 && x < rows_bytes(rows)[y].len() && space_of_byte(#[trigger] rows_bytes(rows)[y][x]) is None,
            r == Err::<Board, BoardError>(BoardError::RestrictedSquare) ==> !restricted_ok(parsed_board(rows_bytes(rows))),
            r == Err::<Board, BoardError>(BoardError::TwoKings) ==> !at_most_one_king(parsed_board(rows_bytes(rows))),
    {
        let ghost rb = rows_bytes(rows);
        let mut spaces: [Space; 121] = [Space::Empty; 121];
        let mut king_at: Option<usize> = None;
        let mut y: usize = 0;
        while y < 11
            invariant
                0 <= y <= 11,
                rb == rows_bytes(rows),
                forall|yy: int| 0 <= yy < y ==> (#[trigger] rb[yy]).len() == 11 && forall|x: int|
                    0 <= x < 11 ==> space_of_byte(#[trigger] rb[yy][x]) is Some,
                forall|i: int| 0 <= i < y * 11 ==> spaces@[i] == parsed_board(rb)[i],
                forall|i: int| 0 <= i < y * 11 && is_restricted_spec(#[trigger] sq_at(i)) ==> spaces@[i] == Space::Empty || spaces@[i] == Space::King,
                king_at matches Some(k) ==> k < y * 11,
                forall|i: int| 0 <= i < y * 11 ==> (spaces@[i] == Space::King <==> king_at == Some(i as usize)),
            decreases 11 - y,
        {
            let bytes = rows[y].as_bytes();
            if bytes.len() != 11 {
                assert(rb[y as int].len() != 11);
                return Err(BoardError::RowLength);
            }
            let mut x: usize = 0;
            while x < 11
                invariant
                    0 <= x <= 11,
                    0 <= y < 11,
                    rb == rows_bytes(rows),
                    bytes@ == rb[y as int],
                    bytes@.len() == 11,
                    forall|yy: int| 0 <= yy < y ==> (#[trigger] rb[yy]).len() == 11 && forall|x: int|
                        0 <= x < 11 ==> space_of_byte(#[trigger] rb[yy][x]) is Some,
                    forall|xx: int| 0 <= xx < x ==> space_of_byte(#[trigger] rb[y as int][xx]) is Some,
                    forall|i: int| 0 <= i < y * 11 + x ==> spaces@[i] == parsed_board(rb)[i],
                    forall|i: int| 0 <= i < y * 11 + x && is_restricted_spec(#[trigger] sq_at(i)) ==> spaces@[i] == Space::Empty || spaces@[i] == Space::King,
                    king_at matches Some(k) ==> k < y * 11 + x,
                    forall|i: int| 0 <= i < y * 11 + x ==> (spaces@[i] == Space::King <==> king_at == Some(i as usize)),
                decreases 11 - x,
            {
                let c = bytes[x];
                let ix = y * 11 + x;
                let sq = Square { x, y };
                proof {
                    lemma_index_sq_at(sq);
                    assert(ix as int / 11 == y as int && ix as int % 11 == x as int);
                }
                let space = if c == 88 {
                    Space::Occupied(Role::Defender)
                } else if c == 79 {
                    Space::Occupied(Role::Attacker)
                } else if c == 46 {
                    Space::Empty
                } else if c == 75 {
                    Space::King
                } else {
                    assert(space_of_byte(rb[y as int][x as int]) is None);
                    return Err(BoardError::InvalidChar);
                };
                match space {
                    Space::Occupied(_) => {
                        if sq.is_restricted() {
                            proof {
                                assert(parsed_board(rb)[ix as int] == space);
                                assert(is_restricted_spec(sq_at(ix as int)));
                            }
                            return Err(BoardError::RestrictedSquare);
                        }
                    },
                    Space::Empty => {},
                    Space::King => {
                        if let Some(k) = king_at {
                            proof {
                                assert(parsed_board(rb)[ix as int] == Space::King);
                                assert(parsed_board(rb)[k as int] == Space::King);
                            }
                            return Err(BoardError::TwoKings);
                        }
                        king_at = Some(ix);
                    },
                }
                spaces[ix] = space;
                x += 1;
            }
            y += 1;
        }
        let board = Board { spaces };
        assert(board@ =~= parsed_board(rb));
        Ok(board)
    }
}

/// The content of square (x, y) in the starting position
pub open spec fn start_cell(x: int, y: int) -> Space {
    let dx = if x >= 5 { x - 5 } else { 5 - x };
    let dy = if y >= 5 { y - 5 } else { 5 - y };
    if dx == 0 && dy == 0 {
        Space::King
    } else if dx + dy <= 2 {
        Space::Occupied(Role::Defender)
    } else if ((y == 0 || y == 10) && 3 <= x <= 7) || ((x == 0 || x == 10) && 3 <= y <= 7) || ((y
        == 1 || y == 9) && x == 5) || ((x == 1 || x == 9) && y == 5) {
        Space::Occupied(Role::Attacker)
    } else {
        Space::Empty
    }
}

/// The starting position
pub open spec fn starting_board() -> Seq<Space> {
    Seq::new(121, |i: int| start_cell(i % 11, i / 11))
}

impl Default for Board {
    /// The starting position
    fn default() -> (r: Board)
        ensures
            r@ == starting_board(),
            r.wf(),
    {
        let mut spaces: [Space; 121] = [Space::Empty; 121];
        let mut i: usize = 0;
        while i < 121
            invariant
                0 <= i <= 121,
                forall|j: int| 0 <= j < i ==> spaces@[j] == starting_board()[j],
            decreases 121 - i,
        {
            let x = i % 11;
            let y = i / 11;
            let dx = if x >= 5 { x - 5 } else { 5 - x };
            let dy = if y >= 5 { y - 5 } else { 5 - y };
            let space = if dx == 0 && dy == 0 {
                Space::King
            } else if dx + dy <= 2 {
                Space::Occupied(Role::Defender)
            } else if ((y == 0 || y == 10) && 3 <= x && x <= 7) || ((x == 0 || x == 10) && 3 <= y
                && y <= 7) || ((y == 1 || y == 9) && x == 5) || ((x == 1 || x == 9) && y == 5) {
                Space::Occupied(Role::Attacker)
            } else {
                Space::Empty
            };
            spaces[i] = space;
            i += 1;
        }
        let board = Board { spaces };
        assert(board@ =~= starting_board());
        assert(at_most_one_king(board@)) by {
            assert forall|i: int, j: int|
                0 <= i < 121 && 0 <= j < 121 && #[trigger] board@[i] == Space::King && #[trigger] board@[j]
                    == Space::King implies i == j by {
                assert(i % 11 == 5 && i / 11 == 5);
                assert(j % 11 == 5 && j / 11 == 5);
            }
        }
        board
    }
}

impl Board {
    /// Play a move. Errors if the play is invalid or the game is already over.
    /// Stores the board in the history for checking repeated positions and enforcing
    /// the one hundred move limit.
    pub fn play(&mut self, play: &Play, status: &Status, previous_boards: &mut PositionsTracker) -> (r: Result<(Vec<Square>, Status), PlayError>)
        requires
            tracker_len(old(previous_boards)) < usize::MAX,
        ensures
            old(previous_boards).wf() ==> final(previous_boards).wf(),
            match move_error(old(self)@, *play, *status) {
                Some(e) => r == Err::<(Vec<Square>, Status), PlayError>(e) && *final(self) == *old(self),
                None => match play_outcome(old(self)@, *play, old(previous_boards)@) {
                    Err(e) => r is Err && r->Err_0 == e && *final(self) == *old(self),
                    Ok(st) => r is Ok && final(self)@ == board_after(old(self)@, *play) && r->Ok_0.0@
                        == play_captures(old(self)@, *play) && r->Ok_0.1 == st,
                },
            },
            r is Err ==> *final(previous_boards) == *old(previous_boards),
            r is Ok ==> final(previous_boards)@ == tracker_after(old(previous_boards)@, final(self)@),
            r is Ok ==> match (*old(previous_boards), *final(previous_boards)) {
                (PositionsTracker::Counter(n), PositionsTracker::Counter(m)) => m == n + 1,
                (PositionsTracker::Previous(p), PositionsTracker::Previous(q)) => q@.to_set()
                    == p@.to_set().insert(final(self)@),
                _ => false,
            },
    {
        match self.play_internal(play, status, previous_boards) {
            Err(e) => Err(e),
            Ok((board, captures, status)) => {
                previous_boards.insert(&board);
                *self = board;
                Ok((captures, status))
            },
        }
    }
}

} // verus!
