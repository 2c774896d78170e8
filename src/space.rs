//! Squares, pieces and sides of the game.

use vstd::prelude::*;
use vstd::string::{StringExecFns, StringSliceAdditionalSpecFns};

verus! {

/// The two sides of the game
#[derive(Clone, Copy, Debug, Default, PartialEq, Eq, Hash, PartialOrd, Ord, Structural)]
pub enum Role {
    #[default]
    Attacker,
    Defender,
}

/// The outcome of a game, or that it is still going on
#[derive(Clone, Copy, Debug, Default, PartialEq, Eq, Hash, Structural)]
pub enum Status {
    AttackersWin,
    #[default]
    Ongoing,
    DefendersWin,
    Draw,
}

pub open spec fn opposite_spec(r: Role) -> Role {
    match r {
        Role::Attacker => Role::Defender,
        Role::Defender => Role::Attacker,
    }
}

pub open spec fn victory_spec(r: Role) -> Status {
    match r {
        Role::Attacker => Status::AttackersWin,
        Role::Defender => Status::DefendersWin,
    }
}

impl Role {
    /// The other side
    pub fn opposite(&self) -> (r: Role)
        ensures
            r == opposite_spec(*self),
    {
        match self {
            Role::Attacker => Role::Defender,
            Role::Defender => Role::Attacker,
        }
    }

    /// The status of a game that this side has won
    pub fn victory(&self) -> (r: Status)
        ensures
            r == victory_spec(*self),
    {
        match self {
            Role::Attacker => Status::AttackersWin,
            Role::Defender => Status::DefendersWin,
        }
    }
}

/// The content of one square of the board
#[derive(Clone, Copy, Debug, PartialEq, Eq, Hash, Structural)]
pub enum Space {
    Empty,
    Occupied(Role),
    King,
}

/// Whether the piece on a square belongs to side `role`
pub open spec fn is_ally_spec(s: Space, role: Role) -> bool {
    match s {
        Space::Occupied(r) => r == role,
        Space::King => role == Role::Defender,
        Space::Empty => false,
    }
}

impl Space {
    /// Check if the piece occupying this square is on the
    /// same side as `role`.
    pub fn is_ally(&self, role: &Role) -> (r: bool)
        ensures
            r == is_ally_spec(*self, *role),
    {
        match self {
            Space::Occupied(r) => *r == *role,
            Space::King => *role == Role::Defender,
            Space::Empty => false,
        }
    }
}

#[derive(Clone, Copy, Debug, PartialEq, Eq, Hash, PartialOrd, Ord, Structural)]
pub struct Square {
    pub x: usize,
    pub y: usize,
}

/// Side length of the board
pub const BOARD_SIZE: usize = 11;

/// Both coordinates lie on the board
pub open spec fn in_bounds(s: Square) -> bool {
    s.x < 11 && s.y < 11
}

/// The index of a square in a row-major array of the board
pub open spec fn sq_index(s: Square) -> int {
    s.y * 11 + s.x
}

/// The square at a row-major index
pub open spec fn sq_at(i: int) -> Square {
    Square { x: (i % 11) as usize, y: (i / 11) as usize }
}

pub open spec fn is_exit_spec(s: Square) -> bool {
    (s.x == 0 || s.x == 10) && (s.y == 0 || s.y == 10)
}

pub open spec fn is_throne_spec(s: Square) -> bool {
    s.x == 5 && s.y == 5
}

pub open spec fn is_restricted_spec(s: Square) -> bool {
    is_exit_spec(s) || is_throne_spec(s)
}

/// The centre square, where only the king may rest
pub fn throne() -> (r: Square)
    ensures
        is_throne_spec(r),
        in_bounds(r),
{
    Square { x: 5, y: 5 }
}

/// The four corners, in the order top-left, top-right, bottom-left, bottom-right
pub fn exit_squares() -> (r: [Square; 4])
    ensures
        r@ == exit_seq(),
{
    [Square { x: 0, y: 0 }, Square { x: 10, y: 0 }, Square { x: 0, y: 10 }, Square { x: 10, y: 10 }]
}

pub open spec fn exit_seq() -> Seq<Square> {
    seq![Square { x: 0, y: 0 }, Square { x: 10, y: 0 }, Square { x: 0, y: 10 }, Square { x: 10, y: 10 }]
}

pub open spec fn up_spec(s: Square) -> Option<Square> {
    if s.y > 0 { Some(Square { x: s.x, y: (s.y - 1) as usize }) } else { None }
}

pub open spec fn left_spec(s: Square) -> Option<Square> {
    if s.x > 0 { Some(Square { x: (s.x - 1) as usize, y: s.y }) } else { None }
}

pub open spec fn down_spec(s: Square) -> Option<Square> {
    if s.y < 10 { Some(Square { x: s.x, y: (s.y + 1) as usize }) } else { None }
}

pub open spec fn right_spec(s: Square) -> Option<Square> {
    if s.x < 10 { Some(Square { x: (s.x + 1) as usize, y: s.y }) } else { None }
}

/// The column letters of the board
pub open spec fn letter_spec(x: int) -> char {
    if x == 0 { 'A' } else if x == 1 { 'B' } else if x == 2 { 'C' } else if x == 3 { 'D' }
    else if x == 4 { 'E' } else if x == 5 { 'F' } else if x == 6 { 'G' } else if x == 7 { 'H' }
    else if x == 8 { 'I' } else if x == 9 { 'J' } else { 'K' }
}

/// The decimal digit of `d`
pub open spec fn digit_char(d: nat) -> char {
    if d == 0 { '0' } else if d == 1 { '1' } else if d == 2 { '2' } else if d == 3 { '3' }
    else if d == 4 { '4' } else if d == 5 { '5' } else if d == 6 { '6' } else if d == 7 { '7' }
    else if d == 8 { '8' } else { '9' }
}

/// The decimal representation of `n`
pub open spec fn decimal(n: nat) -> Seq<char>
    decreases n,
{
    if n < 10 {
        seq![digit_char(n)]
    } else {
        decimal(n / 10) + seq![digit_char(n % 10)]
    }
}

/// The column letter of column `x` as a string
fn letter_str(x: usize) -> (r: &'static str)
    requires
        x < 11,
    ensures
        r@ == seq![letter_spec(x as int)],
{
    if x == 0 {
        proof {
            reveal_strlit("A");
        }
        "A"
    } else if x == 1 {
        proof {
            reveal_strlit("B");
        }
        "B"
    } else if x == 2 {
        proof {
            reveal_strlit("C");
        }
        "C"
    } else if x == 3 {
        proof {
            reveal_strlit("D");
        }
        "D"
    } else if x == 4 {
        proof {
            reveal_strlit("E");
        }
        "E"
    } else if x == 5 {
        proof {
            reveal_strlit("F");
        }
        "F"
    } else if x == 6 {
        proof {
            reveal_strlit("G");
        }
        "G"
    } else if x == 7 {
        proof {
            reveal_strlit("H");
        }
        "H"
    } else if x == 8 {
        proof {
            reveal_strlit("I");
        }
        "I"
    } else if x == 9 {
        proof {
            reveal_strlit("J");
        }
        "J"
    } else {
        proof {
            reveal_strlit("K");
        }
        "K"
    }
}

/// The decimal form of a rank
fn rank_str(n: usize) -> (r: &'static str)
    requires
        1 <= n <= 11,
    ensures
        r@ == decimal(n as nat),
{
    if n == 1 {
        proof {
            reveal_strlit("1");
            reveal_with_fuel(decimal, 2);
        }
        "1"
    } else if n == 2 {
        proof {
            reveal_strlit("2");
            reveal_with_fuel(decimal, 2);
        }
        "2"
    } else if n == 3 {
        proof {
            reveal_strlit("3");
            reveal_with_fuel(decimal, 2);
        }
        "3"
    } else if n == 4 {
        proof {
            reveal_strlit("4");
            reveal_with_fuel(decimal, 2);
        }
        "4"
    } else if n == 5 {
        proof {
            reveal_strlit("5");
            reveal_with_fuel(decimal, 2);
        }
        "5"
    } else if n == 6 {
        proof {
            reveal_strlit("6");
            reveal_with_fuel(decimal, 2);
        }
        "6"
    } else if n == 7 {
        proof {
            reveal_strlit("7");
            reveal_with_fuel(decimal, 2);
        }
        "7"
    } else if n == 8 {
        proof {
            reveal_strlit("8");
            reveal_with_fuel(decimal, 2);
        }
        "8"
    } else if n == 9 {
        proof {
            reveal_strlit("9");
            reveal_with_fuel(decimal, 2);
        }
        "9"
    } else if n == 10 {
        proof {
            reveal_strlit("10");
            reveal_with_fuel(decimal, 2);
        }
        "10"
    } else {
        proof {
            reveal_strlit("11");
            reveal_with_fuel(decimal, 2);
        }
        "11"
    }
}

impl Square {
    /// The name of a square: its column letter and its rank, as in `A11`
    pub fn to_string(&self) -> (r: String)
        requires
            in_bounds(*self),
        ensures
            r@ == seq![letter_spec(self.x as int)] + decimal((11 - self.y) as nat),
    {
        let mut r = String::from_str(letter_str(self.x));
        r.append(rank_str(self.rank()));
        r
    }

    /// Checks if the square is one of the corners or the throne
    pub fn is_restricted(&self) -> (r: bool)
        ensures
            r == is_restricted_spec(*self),
    {
        self.is_exit() || (self.x == 5 && self.y == 5)
    }

    /// Checks if the square is one of the corners
    pub fn is_exit(&self) -> (r: bool)
        ensures
            r == is_exit_spec(*self),
    {
        (self.x == 0 || self.x == 10) && (self.y == 0 || self.y == 10)
    }

    pub fn up(&self) -> (r: Option<Square>)
        ensures
            r == up_spec(*self),
    {
        if self.y > 0 {
            Some(Square { x: self.x, y: self.y - 1 })
        } else {
            None
        }
    }

    pub fn left(&self) -> (r: Option<Square>)
        ensures
            r == left_spec(*self),
    {
        if self.x > 0 {
            Some(Square { x: self.x - 1, y: self.y })
        } else {
            None
        }
    }

    pub fn down(&self) -> (r: Option<Square>)
        ensures
            r == down_spec(*self),
    {
        if self.y < 10 {
            Some(Square { x: self.x, y: self.y + 1 })
        } else {
            None
        }
    }

    pub fn right(&self) -> (r: Option<Square>)
        ensures
            r == right_spec(*self),
    {
        if self.x < 10 {
            Some(Square { x: self.x + 1, y: self.y })
        } else {
            None
        }
    }

    /// Get an iterator over all squares in the board
    pub fn iter() -> (r: SquareIter)
        ensures
            r.0.is_none(),
    {
        SquareIter(None)
    }

    /// The rank of a square on the board, numbered from the bottom row up
    pub fn rank(&self) -> (r: usize)
        requires
            self.y < 11,
        ensures
            r == 11 - self.y,
    {
        11 - self.y
    }
}

/// The four orthogonal directions on the board
#[derive(Clone, Copy, Debug, PartialEq, Eq, Structural)]
pub enum Dir {
    Up,
    Left,
    Down,
    Right,
}

/// The neighbour of `s` in direction `d`, if it is on the board
pub open spec fn step_spec(s: Square, d: Dir) -> Option<Square> {
    match d {
        Dir::Up => up_spec(s),
        Dir::Left => left_spec(s),
        Dir::Down => down_spec(s),
        Dir::Right => right_spec(s),
    }
}

/// How many steps in direction `d` stay on the board from `s`
pub open spec fn steps_left(s: Square, d: Dir) -> nat {
    match d {
        Dir::Up => s.y as nat,
        Dir::Left => s.x as nat,
        Dir::Down => (10 - s.y) as nat,
        Dir::Right => (10 - s.x) as nat,
    }
}

impl Square {
    /// The neighbour in direction `d`
    pub fn step(&self, d: Dir) -> (r: Option<Square>)
        ensures
            r == step_spec(*self, d),
    {
        match d {
            Dir::Up => self.up(),
            Dir::Left => self.left(),
            Dir::Down => self.down(),
            Dir::Right => self.right(),
        }
    }
}

/// The successor of a square in the iteration order over the board: down
/// each column, one column after another
pub open spec fn square_iter_next(state: Option<Square>) -> Option<Square> {
    match state {
        None => Some(Square { x: 0, y: 0 }),
        Some(sq) => if sq.y < 10 {
            Some(Square { x: sq.x, y: (sq.y + 1) as usize })
        } else if sq.x == 10 {
            None
        } else {
            Some(Square { x: (sq.x + 1) as usize, y: 0 })
        },
    }
}

/// An iteration over all squares of the board
pub struct SquareIter(pub Option<Square>);

impl SquareIter {
    /// Advance to the next square, if any is left
    pub fn next(&mut self) -> (r: Option<Square>)
        requires
            old(self).0.is_some() ==> in_bounds(old(self).0.unwrap()),
        ensures
            r == square_iter_next(old(self).0),
            final(self).0 == (if r.is_some() { r } else { old(self).0 }),
    {
        match self.0 {
            None => {
                self.0 = Some(Square { x: 0, y: 0 });
                self.0
            },
            Some(sq) => {
                if sq.y < 10 {
                    self.0 = Some(Square { x: sq.x, y: sq.y + 1 });
                    self.0
                } else if sq.x == 10 {
                    None
                } else {
                    self.0 = Some(Square { x: sq.x + 1, y: 0 });
                    self.0
                }
            },
        }
    }
}

/// A row or column in the outer three layers of the board
pub open spec fn outer_line(v: usize) -> bool {
    v <= 2 || v >= 8
}

/// One step of the walk over the outer layers and then the inner 5x5
/// square: `None` when the walk is over, else the next square
pub open spec fn layered_step(sq: Square, inner_last: bool) -> Option<Square> {
    if sq.y < 10 && outer_line(sq.x) {
        Some(Square { x: sq.x, y: (sq.y + 1) as usize })
    } else if sq.y < 10 {
        if sq.y == 2 {
            Some(Square { x: sq.x, y: 8 })
        } else if sq.y == 7 {
            if sq.x == 7 {
                if inner_last { None } else { Some(Square { x: 0, y: 0 }) }
            } else {
                Some(Square { x: (sq.x + 1) as usize, y: 3 })
            }
        } else {
            Some(Square { x: sq.x, y: (sq.y + 1) as usize })
        }
    } else if sq.x == 10 {
        if inner_last { Some(Square { x: 3, y: 3 }) } else { None }
    } else {
        Some(Square { x: (sq.x + 1) as usize, y: 0 })
    }
}

fn layered_next(sq: Square, inner_last: bool) -> (r: Option<Square>)
    requires
        in_bounds(sq),
    ensures
        r == layered_step(sq, inner_last),
        r matches Some(n) ==> in_bounds(n),
{
    if sq.y < 10 && (sq.x <= 2 || sq.x >= 8) {
        Some(Square { x: sq.x, y: sq.y + 1 })
    } else if sq.y < 10 {
        if sq.y == 2 {
            Some(Square { x: sq.x, y: 8 })
        } else if sq.y == 7 {
            if sq.x == 7 {
                if inner_last { None } else { Some(Square { x: 0, y: 0 }) }
            } else {
                Some(Square { x: sq.x + 1, y: 3 })
            }
        } else {
            Some(Square { x: sq.x, y: sq.y + 1 })
        }
    } else if sq.x == 10 {
        if inner_last { Some(Square { x: 3, y: 3 }) } else { None }
    } else {
        Some(Square { x: sq.x + 1, y: 0 })
    }
}

/// An iteration over all squares, the inner 5x5 square first: where
/// defenders are most likely found
pub struct DefenderIter(pub Option<Square>);

/// The next square of a defender iteration
pub open spec fn defender_next(state: Option<Square>) -> Option<Square> {
    match state {
        None => Some(Square { x: 3, y: 3 }),
        Some(sq) => layered_step(sq, false),
    }
}

impl DefenderIter {
    pub fn new() -> (r: DefenderIter)
        ensures
            r.0 is None,
    {
        DefenderIter(None)
    }

    /// Advance to the next square, if any is left
    pub fn next(&mut self) -> (r: Option<Square>)
        requires
            old(self).0 matches Some(sq) ==> in_bounds(sq),
        ensures
            r == defender_next(old(self).0),
            final(self).0 == (if r is Some { r } else { old(self).0 }),
            r matches Some(sq) ==> in_bounds(sq),
    {
        let n = match self.0 {
            None => Some(Square { x: 3, y: 3 }),
            Some(sq) => layered_next(sq, false),
        };
        if n.is_some() {
            self.0 = n;
        }
        n
    }
}

/// An iteration over all squares but the corners and the throne, the outer
/// three layers first: where attackers are most likely found
pub struct AttackerIter(pub Option<Square>);

/// The next square of the layered walk that leaves out restricted squares
pub open spec fn attacker_next(state: Option<Square>) -> Option<Square> {
    let first = match state {
        None => Some(Square { x: 0, y: 1 }),
        Some(sq) => layered_step(sq, true),
    };
    match first {
        Some(sq) => if is_restricted_spec(sq) { layered_step(sq, true) } else { first },
        None => None,
    }
}

impl AttackerIter {
    pub fn new() -> (r: AttackerIter)
        ensures
            r.0 is None,
    {
        AttackerIter(None)
    }

    /// Advance to the next square that is not restricted, if any is left
    pub fn next(&mut self) -> (r: Option<Square>)
        requires
            old(self).0 matches Some(sq) ==> in_bounds(sq),
        ensures
            r == attacker_next(old(self).0),
            r is Some ==> final(self).0 == r,
            r matches Some(sq) ==> in_bounds(sq),
    {
        let first = match self.0 {
            None => Some(Square { x: 0, y: 1 }),
            Some(sq) => layered_next(sq, true),
        };
        match first {
            None => None,
            Some(sq) => {
                self.0 = first;
                if sq.is_restricted() {
                    let second = layered_next(sq, true);
                    if second.is_some() {
                        self.0 = second;
                    }
                    second
                } else {
                    first
                }
            },
        }
    }
}

/// The column of a letter `A`..`K`, in either case
pub open spec fn letter_index(c: u8) -> Option<usize> {
    if 65 <= c <= 75 {
        Some((c - 65) as usize)
    } else if 97 <= c <= 107 {
        Some((c - 97) as usize)
    } else {
        None
    }
}

pub open spec fn is_digit(c: u8) -> bool {
    48 <= c <= 57
}

/// The value of a string of decimal digits
pub open spec fn digits_value(s: Seq<u8>) -> int
    decreases s.len(),
{
    if s.len() == 0 {
        0
    } else {
        digits_value(s.drop_last()) * 10 + (s.last() - 48)
    }
}

/// The square that a name such as `e5` denotes: a column letter followed
/// by a rank from 1 to 11 in decimal, rank 11 being the top row
pub open spec fn parse_square_spec(b: Seq<u8>) -> Option<Square> {
    let rest = b.skip(1);
    if b.len() >= 2 && letter_index(b[0]) is Some && (forall|i: int| 0 <= i < rest.len() ==> is_digit(#[trigger] rest[i]))
        && 1 <= digits_value(rest) <= 11 {
        Some(Square { x: letter_index(b[0]).unwrap(), y: (11 - digits_value(rest)) as usize })
    } else {
        None
    }
}

pub proof fn lemma_digits_value_nonneg(s: Seq<u8>)
    requires
        forall|i: int| 0 <= i < s.len() ==> is_digit(#[trigger] s[i]),
    ensures
        digits_value(s) >= 0,
    decreases s.len(),
{
    if s.len() > 0 {
        lemma_digits_value_nonneg(s.drop_last());
    }
}

impl Square {
    /// Read a square name such as `e5`: a column letter, then the rank
    pub fn from_str(vertex: &str) -> (r: Option<Square>)
        ensures
            r == parse_square_spec(vertex.spec_bytes()),
    {
        let bytes = vertex.as_bytes();
        let ghost b = vertex.spec_bytes();
        if bytes.len() < 2 {
            return None;
        }
        let c = bytes[0];
        let x: usize = if 65 <= c && c <= 75 {
            (c - 65) as usize
        } else if 97 <= c && c <= 107 {
            (c - 97) as usize
        } else {
            return None;
        };
        let mut value: u64 = 0;
        let mut i: usize = 1;
        while i < bytes.len()
            invariant
                1 <= i <= bytes@.len(),
                bytes@ == b,
                b == vertex.spec_bytes(),
                forall|k: int| 0 <= k < i - 1 ==> is_digit(#[trigger] b.skip(1)[k]),
                value as int == (if digits_value(b.subrange(1, i as int)) >= 1000 { 1000 } else { digits_value(b.subrange(1, i as int)) }),
            decreases bytes@.len() - i,
        {
            let d = bytes[i];
            if d < 48 || d > 57 {
                assert(b.skip(1)[i - 1] == d);
                assert(!is_digit(b.skip(1)[i - 1]));
                assert(parse_square_spec(b) is None);
                return None;
            }
            let ghost prev = b.subrange(1, i as int);
            let ghost next = b.subrange(1, i + 1);
            assert(next.drop_last() =~= prev);
            proof {
                assert forall|k: int| 0 <= k < prev.len() implies is_digit(#[trigger] prev[k]) by {
                    assert(prev[k] == b.skip(1)[k]);
                }
                lemma_digits_value_nonneg(prev);
            }
            let v = value * 10 + (d - 48) as u64;
            value = if v >= 1000 { 1000 } else { v };
            assert(value as int == (if digits_value(next) >= 1000 { 1000 } else { digits_value(next) })) by (nonlinear_arith)
                requires
                    digits_value(next) == digits_value(prev) * 10 + (d - 48),
                    digits_value(prev) >= 0,
                    0 <= d - 48 <= 9,
                    v == (if digits_value(prev) >= 1000 { 1000 } else { digits_value(prev) }) * 10 + (d - 48),
                    value == (if v >= 1000 { 1000 } else { v });
            i += 1;
        }
        assert(b.subrange(1, b.len() as int) =~= b.skip(1));
        if value >= 1 && value <= 11 {
            Some(Square { x, y: 11 - value as usize })
        } else {
            None
        }
    }
}

} // verus!
