//! The board is symmetric under the eight symmetries of the square, the
//! dihedral group D8. This module applies them, picks a canonical orientation,
//! and hashes a board so that all its orientations hash alike.

use vstd::prelude::*;
use vstd::relations::sorted_by;
use vstd::multiset::Multiset;
use sha2::Digest;
use crate::space::{Role, Space, Square, in_bounds, sq_index, sq_at, is_restricted_spec};
use crate::board::{Board, at_most_one_king, restricted_ok, king_square, lemma_king_square, lemma_sq_at_index, lemma_index_sq_at};

verus! {

broadcast use vstd::array::group_array_axioms;

/// A symmetry of the square as a map on coordinates: optionally swap x and
/// y, then optionally mirror x, then optionally mirror y
#[derive(Clone, Copy, Debug, PartialEq, Eq, Structural)]
pub struct Xf {
    pub swap: bool,
    pub fx: bool,
    pub fy: bool,
}

/// The square that `xf` maps `p` to
pub open spec fn pull(t: Xf, p: Square) -> Square {
    let u = if t.swap { p.y } else { p.x };
    let v = if t.swap { p.x } else { p.y };
    Square { x: if t.fx { (10 - u) as usize } else { u }, y: if t.fy { (10 - v) as usize } else { v } }
}

/// The board whose square `p` holds what `b` holds on `pull(t, p)`
pub open spec fn image(b: Seq<Space>, t: Xf) -> Seq<Space> {
    Seq::new(121, |i: int| b[sq_index(pull(t, sq_at(i)))])
}

/// The map `p -> pull(t1, pull(t2, p))`
pub open spec fn compose(t1: Xf, t2: Xf) -> Xf {
    Xf {
        swap: t1.swap != t2.swap,
        fx: if t1.swap { t1.fx != t2.fy } else { t1.fx != t2.fx },
        fy: if t1.swap { t1.fy != t2.fx } else { t1.fy != t2.fy },
    }
}

pub open spec fn identity_xf() -> Xf {
    Xf { swap: false, fx: false, fy: false }
}

/// Mirror in the horizontal axis
pub open spec fn flip_xf() -> Xf {
    Xf { swap: false, fx: false, fy: true }
}

/// Mirror in the vertical axis
pub open spec fn mirror_x_xf() -> Xf {
    Xf { swap: false, fx: true, fy: false }
}

/// Mirror in the diagonal y = x
pub open spec fn transpose_xf() -> Xf {
    Xf { swap: true, fx: false, fy: false }
}

pub proof fn lemma_pull_in_bounds(t: Xf, p: Square)
    requires
        in_bounds(p),
    ensures
        in_bounds(pull(t, p)),
{
}

pub proof fn lemma_pull_compose(t1: Xf, t2: Xf, p: Square)
    requires
        in_bounds(p),
    ensures
        pull(t1, pull(t2, p)) == pull(compose(t1, t2), p),
{
}

/// Applying two symmetries one after the other is applying their composite
pub proof fn lemma_image_compose(b: Seq<Space>, t1: Xf, t2: Xf)
    requires
        b.len() == 121,
    ensures
        image(image(b, t1), t2) == image(b, compose(t1, t2)),
{
    assert forall|i: int| 0 <= i < 121 implies #[trigger] image(image(b, t1), t2)[i] == image(b, compose(t1, t2))[i] by {
        lemma_sq_at_index(i);
        let q = pull(t2, sq_at(i));
        lemma_pull_in_bounds(t2, sq_at(i));
        lemma_index_sq_at(q);
        lemma_pull_compose(t1, t2, sq_at(i));
    }
    assert(image(image(b, t1), t2) =~= image(b, compose(t1, t2)));
}

/// A symmetry maps two squares to one only if they are the same
pub proof fn lemma_pull_injective(t: Xf, p: Square, q: Square)
    requires
        in_bounds(p),
        in_bounds(q),
        pull(t, p) == pull(t, q),
    ensures
        p == q,
{
}

/// A symmetry keeps a board the rules accept
pub proof fn lemma_image_wf(b: Seq<Space>, t: Xf)
    requires
        b.len() == 121,
        at_most_one_king(b),
        restricted_ok(b),
    ensures
        at_most_one_king(image(b, t)),
        restricted_ok(image(b, t)),
{
    let im = image(b, t);
    assert forall|i: int, j: int|
        0 <= i < 121 && 0 <= j < 121 && #[trigger] im[i] == Space::King && #[trigger] im[j] == Space::King implies i == j by {
        lemma_sq_at_index(i);
        lemma_sq_at_index(j);
        lemma_pull_in_bounds(t, sq_at(i));
        lemma_pull_in_bounds(t, sq_at(j));
        let pi = pull(t, sq_at(i));
        let pj = pull(t, sq_at(j));
        lemma_index_sq_at(pi);
        lemma_index_sq_at(pj);
        assert(b[sq_index(pi)] == Space::King);
        assert(b[sq_index(pj)] == Space::King);
        assert(sq_index(pi) == sq_index(pj));
        assert(pi == pj);
        lemma_pull_injective(t, sq_at(i), sq_at(j));
    }
    assert forall|i: int| 0 <= i < 121 && is_restricted_spec(#[trigger] sq_at(i)) implies im[i] == Space::Empty || im[i] == Space::King by {
        lemma_sq_at_index(i);
        lemma_pull_in_bounds(t, sq_at(i));
        let pi = pull(t, sq_at(i));
        lemma_index_sq_at(pi);
        assert(is_restricted_spec(sq_at(sq_index(pi))));
    }
}

/// Where the king of `b` stands after symmetry `t`, for a symmetry that is
/// its own inverse
#[verifier::rlimit(40)]
pub proof fn lemma_image_king(b: Seq<Space>, t: Xf)
    requires
        b.len() == 121,
        at_most_one_king(b),
        restricted_ok(b),
        compose(t, t) == identity_xf(),
    ensures
        king_square(b) matches Some(k) ==> king_square(image(b, t)) == Some(pull(t, k)),
        king_square(b) is None ==> king_square(image(b, t)) is None,
{
    lemma_image_wf(b, t);
    lemma_king_square(b);
    lemma_king_square(image(b, t));
    if let Some(k) = king_square(b) {
        let q = pull(t, k);
        lemma_pull_in_bounds(t, k);
        lemma_index_sq_at(q);
        lemma_pull_compose(t, t, k);
        assert(pull(t, q) == k);
        assert(image(b, t)[sq_index(q)] == b[sq_index(k)]);
    } else {
        assert forall|j: int| 0 <= j < 121 implies image(b, t)[j] != Space::King by {
            lemma_sq_at_index(j);
            lemma_pull_in_bounds(t, sq_at(j));
            lemma_index_sq_at(pull(t, sq_at(j)));
        }
    }
}

/// The two generators of D8 used here
#[derive(Clone, Copy, Debug, PartialEq, Eq, Structural)]
pub enum D8Generator {
    /// Mirror in the horizontal axis
    F,
    /// Mirror in the diagonal: a mirror composed with a quarter turn
    FR,
}

pub open spec fn gen_xf(g: D8Generator) -> Xf {
    match g {
        D8Generator::F => flip_xf(),
        D8Generator::FR => transpose_xf(),
    }
}

/// Build the image of `board` under symmetry `t`
fn apply_xf(board: &Board, t: Xf) -> (r: Board)
    ensures
        r@ == image(board@, t),
{
    let mut new_board = Board::empty();
    let mut i: usize = 0;
    while i < 121
        invariant
            0 <= i <= 121,
            forall|j: int| 0 <= j < i ==> new_board@[j] == image(board@, t)[j],
        decreases 121 - i,
    {
        let x = i % 11;
        let y = i / 11;
        let u = if t.swap { y } else { x };
        let v = if t.swap { x } else { y };
        let src = Square { x: if t.fx { 10 - u } else { u }, y: if t.fy { 10 - v } else { v } };
        proof {
            lemma_sq_at_index(i as int);
            assert(src == pull(t, sq_at(i as int)));
        }
        let sp = board.get(&src);
        let ghost prev = new_board@;
        new_board.spaces[i] = sp;
        assert(new_board@ == prev.update(i as int, sp));
        i += 1;
    }
    assert(new_board@ =~= image(board@, t));
    new_board
}

impl D8Generator {
    /// Apply a generator of D8 to the board
    pub fn apply(&self, board: &mut Board)
        ensures
            final(board)@ == image(old(board)@, gen_xf(*self)),
    {
        let t = match self {
            D8Generator::F => Xf { swap: false, fx: false, fy: true },
            D8Generator::FR => Xf { swap: true, fx: false, fy: false },
        };
        *board = apply_xf(board, t);
    }
}

/// The symmetry that a word of generators spells, its first letter applied first
pub open spec fn word_xf(w: Seq<D8Generator>) -> Xf
    decreases w.len(),
{
    if w.len() == 0 {
        identity_xf()
    } else {
        compose(gen_xf(w[0]), word_xf(w.drop_first()))
    }
}

/// The letters of a word up to its first gap
pub open spec fn word_letters(w: Seq<Option<D8Generator>>) -> Seq<D8Generator>
    decreases w.len(),
{
    if w.len() == 0 || w[0] is None {
        Seq::empty()
    } else {
        seq![w[0].unwrap()] + word_letters(w.drop_first())
    }
}

/// An element of D8 expressed as a word in the two chosen generators
#[derive(Clone, Copy, Debug, PartialEq, Eq)]
pub struct D8Element(pub [Option<D8Generator>; 4]);

pub open spec fn element_xf(e: D8Element) -> Xf {
    word_xf(word_letters(e.0@))
}

impl D8Element {
    /// Apply a D8 element to the board
    pub fn apply(&self, board: &mut Board)
        ensures
            final(board)@ == image(old(board)@, element_xf(*self)),
    {
        let ghost b0 = board@;
        assert(self.0@.subrange(0, 4) =~= self.0@);
        proof {
            lemma_image_identity(b0);
        }
        let mut k: usize = 0;
        while k < 4
            invariant
                0 <= k <= 4,
                b0.len() == 121,
                b0 == old(board)@,
                k > 0 ==> self.0@[k - 1] is Some,
                forall|j: int| 0 <= j < k ==> self.0@[j] is Some,
                image(board@, element_xf_from(self.0@, k as int)) == image(b0, element_xf(*self)),
                board@.len() == 121,
            decreases 4 - k,
        {
            match self.0[k] {
                Some(g) => {
                    let ghost before = board@;
                    g.apply(board);
                    proof {
                        lemma_word_step(self.0@, k as int);
                        lemma_image_compose(before, gen_xf(g), element_xf_from(self.0@, k + 1));
                    }
                },
                None => {
                    proof {
                        lemma_word_stop(self.0@, k as int);
                        lemma_image_identity(board@);
                    }
                    return;
                },
            }
            k += 1;
        }
        proof {
            lemma_word_stop(self.0@, 4);
            lemma_image_identity(board@);
        }
    }
}

/// The symmetry spelt by a word from letter `k` on
pub open spec fn element_xf_from(w: Seq<Option<D8Generator>>, k: int) -> Xf {
    word_xf(word_letters(w.subrange(k, w.len() as int)))
}

pub proof fn lemma_word_step(w: Seq<Option<D8Generator>>, k: int)
    requires
        0 <= k < w.len(),
        w[k] is Some,
    ensures
        element_xf_from(w, k) == compose(gen_xf(w[k].unwrap()), element_xf_from(w, k + 1)),
{
    let s = w.subrange(k, w.len() as int);
    assert(s.drop_first() =~= w.subrange(k + 1, w.len() as int));
    let l = word_letters(s);
    assert(l.drop_first() =~= word_letters(s.drop_first()));
}

pub proof fn lemma_word_stop(w: Seq<Option<D8Generator>>, k: int)
    requires
        0 <= k <= w.len(),
        k == w.len() || w[k] is None,
    ensures
        element_xf_from(w, k) == identity_xf(),
{
    let s = w.subrange(k, w.len() as int);
    assert(word_letters(s) =~= Seq::<D8Generator>::empty());
}

pub proof fn lemma_image_identity(b: Seq<Space>)
    requires
        b.len() == 121,
    ensures
        image(b, identity_xf()) == b,
{
    assert forall|i: int| 0 <= i < 121 implies #[trigger] image(b, identity_xf())[i] == b[i] by {
        lemma_sq_at_index(i);
    }
    assert(image(b, identity_xf()) =~= b);
}

/// The symmetry of each element of D8, in the order `d8` lists them
pub open spec fn d8_xf(k: int) -> Xf {
    if k == 0 {
        Xf { swap: false, fx: false, fy: false }
    } else if k == 1 {
        Xf { swap: false, fx: false, fy: true }
    } else if k == 2 {
        Xf { swap: true, fx: false, fy: false }
    } else if k == 3 {
        Xf { swap: false, fx: true, fy: false }
    } else if k == 4 {
        Xf { swap: true, fx: true, fy: true }
    } else if k == 5 {
        Xf { swap: true, fx: true, fy: false }
    } else if k == 6 {
        Xf { swap: false, fx: true, fy: true }
    } else {
        Xf { swap: true, fx: false, fy: true }
    }
}

/// The group D8 using the standard presentation
/// D8 = { 1, F, R | F^2 = R^4 = 1, FR = R^3F }
pub fn d8() -> (r: [D8Element; 8])
    ensures
        forall|k: int| 0 <= k < 8 ==> #[trigger] element_xf(r@[k]) == d8_xf(k),
{
    let f = Some(D8Generator::F);
    let t = Some(D8Generator::FR);
    let r = [
        D8Element([None, None, None, None]),
        D8Element([f, None, None, None]),
        D8Element([t, None, None, None]),
        D8Element([t, f, t, None]),
        D8Element([f, t, f, None]),
        D8Element([t, f, None, None]),
        D8Element([t, f, t, f]),
        D8Element([f, t, None, None]),
    ];
    proof {
        assert forall|k: int| 0 <= k < 8 implies #[trigger] element_xf(r@[k]) == d8_xf(k) by {
            let w = r@[k].0@;
            reveal_with_fuel(word_letters, 5);
            reveal_with_fuel(word_xf, 5);
            if k == 0 {
                assert(word_letters(w) =~= seq![]);
            } else if k == 1 {
                assert(word_letters(w) =~= seq![D8Generator::F]);
            } else if k == 2 {
                assert(word_letters(w) =~= seq![D8Generator::FR]);
            } else if k == 3 {
                assert(word_letters(w) =~= seq![D8Generator::FR, D8Generator::F, D8Generator::FR]);
            } else if k == 4 {
                assert(word_letters(w) =~= seq![D8Generator::F, D8Generator::FR, D8Generator::F]);
            } else if k == 5 {
                assert(word_letters(w) =~= seq![D8Generator::FR, D8Generator::F]);
            } else if k == 6 {
                assert(word_letters(w) =~= seq![D8Generator::FR, D8Generator::F, D8Generator::FR, D8Generator::F]);
            } else {
                assert(word_letters(w) =~= seq![D8Generator::F, D8Generator::FR]);
            }
        }
    }
    r
}

/// Rotate and flip a board so that the king stands in the quadrant nearest
/// the origin, on or below the line y = x
#[verifier::opaque]
pub open spec fn normalize_spec(b: Seq<Space>) -> Seq<Space> {
    match king_square(b) {
        None => b,
        Some(k) => {
            let b1 = if k.x > 5 { image(b, mirror_x_xf()) } else { b };
            let b2 = if k.y > 5 { image(b1, flip_xf()) } else { b1 };
            match king_square(b2) {
                Some(k2) => if k2.x < k2.y { image(b2, transpose_xf()) } else { b2 },
                None => b2,
            }
        },
    }
}

/// After normalizing, the board is still valid, and the king, if any,
/// stands at (x, y) with y <= x <= 5
pub proof fn lemma_normalize_shape(b: Seq<Space>)
    requires
        b.len() == 121,
        at_most_one_king(b),
        restricted_ok(b),
    ensures
        at_most_one_king(normalize_spec(b)),
        restricted_ok(normalize_spec(b)),
        king_square(b) is None ==> normalize_spec(b) == b,
        king_square(normalize_spec(b)) is None <==> king_square(b) is None,
        king_square(normalize_spec(b)) matches Some(k) ==> k.x <= 5 && k.y <= 5 && k.y <= k.x,
{
    reveal(normalize_spec);
    lemma_king_square(b);
    if let Some(k) = king_square(b) {
        let b1 = if k.x > 5 { image(b, mirror_x_xf()) } else { b };
        lemma_image_king(b, mirror_x_xf());
        lemma_image_wf(b, mirror_x_xf());
        let k1 = if k.x > 5 { pull(mirror_x_xf(), k) } else { k };
        assert(king_square(b1) == Some(k1));
        let b2 = if k.y > 5 { image(b1, flip_xf()) } else { b1 };
        lemma_image_king(b1, flip_xf());
        lemma_image_wf(b1, flip_xf());
        let k2 = if k.y > 5 { pull(flip_xf(), k1) } else { k1 };
        assert(king_square(b2) == Some(k2));
        assert(k2.x <= 5 && k2.y <= 5);
        lemma_image_king(b2, transpose_xf());
        lemma_image_wf(b2, transpose_xf());
    }
}

pub proof fn lemma_normalize_unfold(b0: Seq<Space>, b1: Seq<Space>, b2: Seq<Space>)
    requires
        king_square(b0) matches Some(k) && b1 == (if k.x > 5 { image(b0, mirror_x_xf()) } else { b0 })
            && b2 == (if k.y > 5 { image(b1, flip_xf()) } else { b1 }),
    ensures
        normalize_spec(b0) == match king_square(b2) {
            Some(k2) => if k2.x < k2.y { image(b2, transpose_xf()) } else { b2 },
            None => b2,
        },
{
    reveal(normalize_spec);
}

/// Normalizing twice gives the same board as normalizing once
pub proof fn lemma_normalize_idempotent(b: Board)
    requires
        b.wf(),
    ensures
        normalize_spec(normalize_spec(b@)) == normalize_spec(b@),
{
    reveal(normalize_spec);
    lemma_normalize_shape(b@);
    let n = normalize_spec(b@);
    lemma_king_square(n);
}

impl Board {
    /// Rotate and / or flip the board so that the king is as close to the origin
    /// as possible and is below the line y = x. This helps reduce the branching
    /// at each stage of the game.
    pub fn normalize(&mut self)
        ensures
            final(self)@ == normalize_spec(old(self)@),
            old(self).wf() ==> final(self).wf(),
    {
        proof {
            reveal(normalize_spec);
            if self.wf() {
                lemma_normalize_shape(self@);
            }
        }
        let ghost b0 = self@;
        let king = match self.find_the_king() {
            Some(k) => k,
            None => {
                return;
            },
        };
        // first put the king in the quadrant closest to the origin
        if king.x > 5 {
            *self = apply_xf(self, Xf { swap: false, fx: true, fy: false });
        }
        let ghost b1 = self@;
        if king.y > 5 {
            D8Generator::F.apply(self);
        }
        let ghost b2 = self@;
        assert(b2 == (if king.y > 5 { image(b1, flip_xf()) } else { b1 }));
        let king2 = match self.find_the_king() {
            Some(k) => k,
            None => {
                proof {
                    lemma_normalize_unfold(b0, b1, b2);
                }
                return;
            },
        };
        // then put the king below the line y = x
        if king2.x < king2.y {
            D8Generator::FR.apply(self);
        }
        proof {
            lemma_normalize_unfold(b0, b1, b2);
        }
    }

    /// All the distinct boards that the eight symmetries make of this one
    pub fn symmetries(&self) -> (r: Vec<Board>)
        ensures
            forall|k: int| 0 <= k < 8 ==> holds_board(r@, #[trigger] image(self@, d8_xf(k))),
            forall|j: int| 0 <= j < r@.len() ==> is_symmetry_of(#[trigger] r@[j]@, self@),
            forall|i: int, j: int| 0 <= i < j < r@.len() ==> r@[i]@ != r@[j]@,
    {
        let elements = d8();
        let mut syms: Vec<Board> = Vec::new();
        let mut k: usize = 0;
        while k < 8
            invariant
                0 <= k <= 8,
                forall|kk: int| 0 <= kk < 8 ==> #[trigger] element_xf(elements@[kk]) == d8_xf(kk),
                forall|kk: int| 0 <= kk < k ==> holds_board(syms@, #[trigger] image(self@, d8_xf(kk))),
                forall|j: int| 0 <= j < syms@.len() ==> is_symmetry_of(#[trigger] syms@[j]@, self@),
                forall|i: int, j: int| 0 <= i < j < syms@.len() ==> syms@[i]@ != syms@[j]@,
            decreases 8 - k,
        {
            let mut board = *self;
            elements[k].apply(&mut board);
            assert(board@ == image(self@, d8_xf(k as int)));
            let mut present = false;
            let mut j: usize = 0;
            while j < syms.len()
                invariant
                    0 <= j <= syms@.len(),
                    !present ==> forall|jj: int| 0 <= jj < j ==> syms@[jj]@ != board@,
                    present ==> exists|jj: int| 0 <= jj < syms@.len() && syms@[jj]@ == board@,
                decreases syms@.len() - j,
            {
                if syms[j] == board {
                    present = true;
                }
                j += 1;
            }
            if !present {
                let ghost before = syms@;
                syms.push(board);
                proof {
                    assert forall|kk: int| 0 <= kk < k + 1 implies holds_board(syms@, #[trigger] image(self@, d8_xf(kk))) by {
                        if kk < k {
                            assert(holds_board(before, image(self@, d8_xf(kk))));
                            let j = choose|j: int| 0 <= j < before.len() && #[trigger] before[j]@ == image(self@, d8_xf(kk));
                            assert(syms@[j] == before[j]);
                        } else {
                            assert(syms@[before.len() as int]@ == image(self@, d8_xf(kk)));
                        }
                    }
                    assert forall|j: int| 0 <= j < syms@.len() implies is_symmetry_of(#[trigger] syms@[j]@, self@) by {
                        if j < before.len() {
                            assert(syms@[j] == before[j]);
                        } else {
                            assert(syms@[j]@ == image(self@, d8_xf(k as int)));
                        }
                    }
                }
            }
            k += 1;
        }
        syms
    }
}

/// The two-bit code of a square: empty 0, attacker 1, defender 2, king 3
pub open spec fn space_code(s: Space) -> int {
    match s {
        Space::Empty => 0,
        Space::Occupied(Role::Attacker) => 1,
        Space::Occupied(Role::Defender) => 2,
        Space::King => 3,
    }
}

/// The square of the `k`-th code in a bitboard: the throne is left out
pub open spec fn packed_cell(k: int) -> int {
    if k < 60 { k } else { k + 1 }
}

/// Board `a` is one of the eight images of board `b`
pub open spec fn is_symmetry_of(a: Seq<Space>, b: Seq<Space>) -> bool {
    exists|k: int| 0 <= k < 8 && a == image(b, #[trigger] d8_xf(k))
}

/// Some board of `r` has view `b`
pub open spec fn holds_board(r: Seq<Board>, b: Seq<Space>) -> bool {
    exists|j: int| 0 <= j < r.len() && #[trigger] r[j]@ == b
}

/// Four squares to a byte, the first in the highest bits; the throne,
/// which the king holds if he is nowhere else, is not encoded
pub open spec fn bitboard_spec(b: Seq<Space>) -> Seq<u8> {
    Seq::new(30, |j: int| (64 * space_code(b[packed_cell(4 * j)]) + 16 * space_code(b[packed_cell(4 * j + 1)])
        + 4 * space_code(b[packed_cell(4 * j + 2)]) + space_code(b[packed_cell(4 * j + 3)])) as u8)
}

fn code(s: Space) -> (r: u8)
    ensures
        r == space_code(s),
{
    match s {
        Space::Empty => 0,
        Space::Occupied(Role::Attacker) => 1,
        Space::Occupied(Role::Defender) => 2,
        Space::King => 3,
    }
}

impl Board {
    /// The board packed into 30 bytes, two bits a square
    pub fn as_bitboard(&self) -> (r: [u8; 30])
        ensures
            r@ == bitboard_spec(self@),
    {
        let mut bitboard: [u8; 30] = [0u8; 30];
        let mut j: usize = 0;
        while j < 30
            invariant
                0 <= j <= 30,
                forall|jj: int| 0 <= jj < j ==> bitboard@[jj] == bitboard_spec(self@)[jj],
            decreases 30 - j,
        {
            let k = 4 * j;
            let c0 = if k < 60 { k } else { k + 1 };
            let c1 = if k + 1 < 60 { k + 1 } else { k + 2 };
            let c2 = if k + 2 < 60 { k + 2 } else { k + 3 };
            let c3 = if k + 3 < 60 { k + 3 } else { k + 4 };
            let v = 64 * code(self.spaces[c0]) as u32 + 16 * code(self.spaces[c1]) as u32 + 4 * code(
                self.spaces[c2],
            ) as u32 + code(self.spaces[c3]) as u32;
            let ghost prev = bitboard@;
            bitboard[j] = v as u8;
            assert(bitboard@ == prev.update(j as int, v as u8));
            j += 1;
        }
        assert(bitboard@ =~= bitboard_spec(self@));
        bitboard
    }
}

/// Lexicographic order on byte strings, a proper prefix first
pub open spec fn lex_lt(a: Seq<u8>, b: Seq<u8>) -> bool
    decreases a.len(),
{
    if a.len() == 0 {
        b.len() > 0
    } else if b.len() == 0 {
        false
    } else if a[0] < b[0] {
        true
    } else if a[0] > b[0] {
        false
    } else {
        lex_lt(a.drop_first(), b.drop_first())
    }
}

pub open spec fn lex_le(a: Seq<u8>, b: Seq<u8>) -> bool {
    !lex_lt(b, a)
}

pub proof fn lemma_lex_total(a: Seq<u8>, b: Seq<u8>)
    ensures
        lex_lt(a, b) || lex_lt(b, a) || a == b,
    decreases a.len(),
{
    if a.len() > 0 && b.len() > 0 && a[0] == b[0] {
        lemma_lex_total(a.drop_first(), b.drop_first());
        if a.drop_first() == b.drop_first() {
            assert(a.drop_first().len() == b.drop_first().len());
            assert(a.len() == b.len());
            assert(a =~= b) by {
                assert forall|i: int| 0 <= i < a.len() implies a[i] == b[i] by {
                    if i > 0 {
                        assert(a[i] == a.drop_first()[i - 1]);
                        assert(b[i] == b.drop_first()[i - 1]);
                    }
                }
            }
        }
    } else if a.len() == 0 && b.len() == 0 {
        assert(a =~= b);
    }
}

pub proof fn lemma_lex_irrefl(a: Seq<u8>)
    ensures
        !lex_lt(a, a),
    decreases a.len(),
{
    if a.len() > 0 {
        lemma_lex_irrefl(a.drop_first());
    }
}

pub proof fn lemma_lex_trans(a: Seq<u8>, b: Seq<u8>, c: Seq<u8>)
    requires
        lex_lt(a, b),
        lex_lt(b, c),
    ensures
        lex_lt(a, c),
    decreases a.len(),
{
    if a.len() > 0 && b.len() > 0 && c.len() > 0 && a[0] == b[0] && b[0] == c[0] {
        lemma_lex_trans(a.drop_first(), b.drop_first(), c.drop_first());
    }
}

pub proof fn lemma_lex_le_total_ordering()
    ensures
        vstd::relations::total_ordering(|a: Seq<u8>, b: Seq<u8>| lex_le(a, b)),
{
    let leq = |a: Seq<u8>, b: Seq<u8>| lex_le(a, b);
    assert forall|x: Seq<u8>| #[trigger] leq(x, x) by {
        lemma_lex_irrefl(x);
    }
    assert forall|x: Seq<u8>, y: Seq<u8>| #[trigger] leq(x, y) && #[trigger] leq(y, x) implies x == y by {
        lemma_lex_total(x, y);
    }
    assert forall|x: Seq<u8>, y: Seq<u8>, z: Seq<u8>| #[trigger] leq(x, y) && #[trigger] leq(y, z) implies leq(x, z) by {
        if lex_lt(z, x) {
            lemma_lex_total(y, x);
            if lex_lt(y, x) {
            } else if y == x {
            } else {
                lemma_lex_trans(z, x, y);
            }
        }
    }
    assert forall|x: Seq<u8>, y: Seq<u8>| #[trigger] leq(x, y) || #[trigger] leq(y, x) by {
        lemma_lex_total(x, y);
        if lex_lt(x, y) && lex_lt(y, x) {
            lemma_lex_trans(x, y, x);
            lemma_lex_irrefl(x);
        }
    }
}

/// Two sorted arrangements of the same elements are equal
pub proof fn lemma_sorted_unique(s1: Seq<Seq<u8>>, s2: Seq<Seq<u8>>)
    requires
        sorted_by(s1, |a: Seq<u8>, b: Seq<u8>| lex_le(a, b)),
        sorted_by(s2, |a: Seq<u8>, b: Seq<u8>| lex_le(a, b)),
        s1.to_multiset() == s2.to_multiset(),
    ensures
        s1 == s2,
    decreases s1.len(),
{
    broadcast use vstd::seq_lib::group_to_multiset_ensures;
    assert(s1.len() == s1.to_multiset().len());
    assert(s2.len() == s2.to_multiset().len());
    if s1.len() == 0 {
        assert(s1 =~= s2);
    } else {
        let x1 = s1[0];
        let x2 = s2[0];
        assert(s1.contains(x1));
        assert(s2.to_multiset().count(x1) > 0);
        assert(s2.contains(x1));
        let k2 = choose|k: int| 0 <= k < s2.len() && s2[k] == x1;
        assert(s1.to_multiset().count(x2) > 0);
        assert(s1.contains(x2));
        let k1 = choose|k: int| 0 <= k < s1.len() && s1[k] == x2;
        let leq = |a: Seq<u8>, b: Seq<u8>| lex_le(a, b);
        if k1 > 0 {
            assert(leq(s1[0], s1[k1]));
        } else {
            lemma_lex_irrefl(x1);
        }
        if k2 > 0 {
            assert(leq(s2[0], s2[k2]));
        } else {
            lemma_lex_irrefl(x2);
        }
        lemma_lex_total(x1, x2);
        assert(x1 == x2);
        let r1 = s1.remove(0);
        let r2 = s2.remove(0);
        assert(r1.to_multiset() == s1.to_multiset().remove(x1));
        assert(r2.to_multiset() == s2.to_multiset().remove(x2));
        assert(sorted_by(r1, |a: Seq<u8>, b: Seq<u8>| lex_le(a, b))) by {
            assert forall|i: int, j: int| 0 <= i < j < r1.len() implies lex_le(#[trigger] r1[i], #[trigger] r1[j]) by {
                assert(r1[i] == s1[i + 1]);
                assert(r1[j] == s1[j + 1]);
                assert(leq(s1[i + 1], s1[j + 1]));
            }
        }
        assert(sorted_by(r2, |a: Seq<u8>, b: Seq<u8>| lex_le(a, b))) by {
            assert forall|i: int, j: int| 0 <= i < j < r2.len() implies lex_le(#[trigger] r2[i], #[trigger] r2[j]) by {
                assert(r2[i] == s2[i + 1]);
                assert(r2[j] == s2[j + 1]);
                assert(leq(s2[i + 1], s2[j + 1]));
            }
        }
        lemma_sorted_unique(r1, r2);
        assert(s1 =~= s2) by {
            assert forall|i: int| 0 <= i < s1.len() implies s1[i] == s2[i] by {
                if i > 0 {
                    assert(s1[i] == r1[i - 1]);
                    assert(s2[i] == r2[i - 1]);
                }
            }
        }
    }
}

/// The index of the composite `d8_xf(j)` then `d8_xf(k)` in the list of D8
pub open spec fn d8_product(j: int, k: int) -> int {
    if j == 0 {
        seq![0, 1, 2, 3, 4, 5, 6, 7][k]
    } else if j == 1 {
        seq![1, 0, 7, 6, 5, 4, 3, 2][k]
    } else if j == 2 {
        seq![2, 5, 0, 7, 6, 1, 4, 3][k]
    } else if j == 3 {
        seq![3, 6, 5, 0, 7, 2, 1, 4][k]
    } else if j == 4 {
        seq![4, 7, 6, 5, 0, 3, 2, 1][k]
    } else if j == 5 {
        seq![5, 2, 3, 4, 1, 6, 7, 0][k]
    } else if j == 6 {
        seq![6, 3, 4, 1, 2, 7, 0, 5][k]
    } else {
        seq![7, 4, 1, 2, 3, 0, 5, 6][k]
    }
}

/// D8 is closed under composition, as the product table says
pub proof fn lemma_d8_product(j: int, k: int)
    requires
        0 <= j < 8,
        0 <= k < 8,
    ensures
        0 <= d8_product(j, k) < 8,
        compose(d8_xf(j), d8_xf(k)) == d8_xf(d8_product(j, k)),
{
}

/// Reordering eight items by a row of the product table keeps them
pub proof fn lemma_reorder_row(s: Seq<Seq<u8>>, t: Seq<Seq<u8>>, j: int)
    requires
        s.len() == 8,
        t.len() == 8,
        0 <= j < 8,
        forall|k: int| 0 <= k < 8 ==> #[trigger] t[k] == s[d8_product(j, k)],
    ensures
        t.to_multiset() == s.to_multiset(),
{
    broadcast use vstd::seq_lib::group_to_multiset_ensures;
    broadcast use vstd::multiset::group_multiset_axioms;
    lemma_ms8(s);
    lemma_ms8(t);
    assert(t[0] == s[d8_product(j, 0)]);
    assert(t[1] == s[d8_product(j, 1)]);
    assert(t[2] == s[d8_product(j, 2)]);
    assert(t[3] == s[d8_product(j, 3)]);
    assert(t[4] == s[d8_product(j, 4)]);
    assert(t[5] == s[d8_product(j, 5)]);
    assert(t[6] == s[d8_product(j, 6)]);
    assert(t[7] == s[d8_product(j, 7)]);
    if j == 0 {
        assert(t.to_multiset() =~= s.to_multiset());
    } else if j == 1 {
        assert(t.to_multiset() =~= s.to_multiset());
    } else if j == 2 {
        assert(t.to_multiset() =~= s.to_multiset());
    } else if j == 3 {
        assert(t.to_multiset() =~= s.to_multiset());
    } else if j == 4 {
        assert(t.to_multiset() =~= s.to_multiset());
    } else if j == 5 {
        assert(t.to_multiset() =~= s.to_multiset());
    } else if j == 6 {
        assert(t.to_multiset() =~= s.to_multiset());
    } else {
        assert(t.to_multiset() =~= s.to_multiset());
    }
}

/// The multiset of eight items, one insertion at a time
pub open spec fn ms8(s: Seq<Seq<u8>>) -> Multiset<Seq<u8>> {
    Multiset::empty().insert(s[0]).insert(s[1]).insert(s[2]).insert(s[3]).insert(s[4]).insert(s[5]).insert(
        s[6],
    ).insert(s[7])
}

pub proof fn lemma_ms8(s: Seq<Seq<u8>>)
    requires
        s.len() == 8,
    ensures
        s.to_multiset() == ms8(s),
{
    broadcast use vstd::seq_lib::group_to_multiset_ensures;
    let e = Seq::<Seq<u8>>::empty();
    assert(e.to_multiset() =~= Multiset::empty());
    let s1 = e.push(s[0]);
    let s2 = s1.push(s[1]);
    let s3 = s2.push(s[2]);
    let s4 = s3.push(s[3]);
    let s5 = s4.push(s[4]);
    let s6 = s5.push(s[5]);
    let s7 = s6.push(s[6]);
    let s8 = s7.push(s[7]);
    assert(s =~= s8);
    assert(s1.to_multiset() == e.to_multiset().insert(s[0]));
    assert(s2.to_multiset() == s1.to_multiset().insert(s[1]));
    assert(s3.to_multiset() == s2.to_multiset().insert(s[2]));
    assert(s4.to_multiset() == s3.to_multiset().insert(s[3]));
    assert(s5.to_multiset() == s4.to_multiset().insert(s[4]));
    assert(s6.to_multiset() == s5.to_multiset().insert(s[5]));
    assert(s7.to_multiset() == s6.to_multiset().insert(s[6]));
    assert(s8.to_multiset() == s7.to_multiset().insert(s[7]));
}

/// The bitboards of the eight images of a board, in the order of `d8`
pub open spec fn images_bitboards(b: Seq<Space>) -> Seq<Seq<u8>> {
    Seq::new(8, |k: int| bitboard_spec(image(b, d8_xf(k))))
}

/// The bitboards of the eight images of a board, in increasing order
pub open spec fn canonical_key(b: Seq<Space>) -> Seq<Seq<u8>> {
    images_bitboards(b).sort_by(|x: Seq<u8>, y: Seq<u8>| lex_le(x, y))
}

/// Byte strings one after the other
pub open spec fn concat(s: Seq<Seq<u8>>) -> Seq<u8>
    decreases s.len(),
{
    if s.len() == 0 {
        Seq::empty()
    } else {
        concat(s.drop_last()) + s.last()
    }
}

/// What the canonical hash digests
pub open spec fn canonical_bytes(b: Seq<Space>) -> Seq<u8> {
    concat(canonical_key(b))
}

/// Every orientation of a board has the same canonical key, and so the
/// same canonical hash
pub proof fn lemma_canonical_hash_invariant(b: Board, k: int)
    requires
        0 <= k < 8,
    ensures
        canonical_key(image(b@, d8_xf(k))) == canonical_key(b@),
        sha256_of(canonical_bytes(image(b@, d8_xf(k)))) == sha256_of(canonical_bytes(b@)),
{
    let s = images_bitboards(b@);
    let t = images_bitboards(image(b@, d8_xf(k)));
    assert forall|i: int| 0 <= i < 8 implies #[trigger] t[i] == s[d8_product(k, i)] by {
        lemma_image_compose(b@, d8_xf(k), d8_xf(i));
        lemma_d8_product(k, i);
    }
    lemma_reorder_row(s, t, k);
    let leq = |x: Seq<u8>, y: Seq<u8>| lex_le(x, y);
    lemma_lex_le_total_ordering();
    s.lemma_sort_by_ensures(leq);
    t.lemma_sort_by_ensures(leq);
    lemma_sorted_unique(s.sort_by(leq), t.sort_by(leq));
}

/// The image bitboards as byte strings
pub open spec fn views30(s: Seq<[u8; 30]>) -> Seq<Seq<u8>> {
    s.map_values(|a: [u8; 30]| a@)
}

/// Whether `a` comes before `b` in lexicographic order
fn lex_less(a: &[u8; 30], b: &[u8; 30]) -> (r: bool)
    ensures
        r == lex_lt(a@, b@),
{
    let mut i: usize = 0;
    assert(a@.skip(0) =~= a@);
    assert(b@.skip(0) =~= b@);
    while i < 30
        invariant
            0 <= i <= 30,
            lex_lt(a@, b@) == lex_lt(a@.skip(i as int), b@.skip(i as int)),
        decreases 30 - i,
    {
        assert(a@.skip(i as int)[0] == a[i as int]);
        assert(b@.skip(i as int)[0] == b[i as int]);
        if a[i] < b[i] {
            return true;
        }
        if a[i] > b[i] {
            return false;
        }
        assert(a@.skip(i as int).drop_first() =~= a@.skip(i + 1));
        assert(b@.skip(i as int).drop_first() =~= b@.skip(i + 1));
        i += 1;
    }
    assert(a@.skip(30).len() == 0);
    assert(b@.skip(30).len() == 0);
    false
}

pub uninterp spec fn sha256_of(data: Seq<u8>) -> Seq<u8>;

/// Relies on sha2's `Sha256::digest`: the SHA-256 digest of `data`, which
/// depends on the bytes alone.
#[verifier::external_body]
fn sha256(data: &Vec<u8>) -> (r: [u8; 32])
    ensures
        r@ == sha256_of(data@),
{
    sha2::Sha256::digest(data.as_slice()).into()
}

/// Sort byte strings into increasing lexicographic order
fn sort_bitboards(v: Vec<[u8; 30]>) -> (r: Vec<[u8; 30]>)
    ensures
        views30(r@).to_multiset() == views30(v@).to_multiset(),
        sorted_by(views30(r@), |x: Seq<u8>, y: Seq<u8>| lex_le(x, y)),
{
    broadcast use vstd::seq_lib::group_to_multiset_ensures;
    broadcast use vstd::multiset::group_multiset_axioms;
    let ghost leq = |x: Seq<u8>, y: Seq<u8>| lex_le(x, y);
    let mut work = v;
    let mut out: Vec<[u8; 30]> = Vec::new();
    assert(views30(out@) =~= Seq::<Seq<u8>>::empty());
    assert(views30(out@).to_multiset().add(views30(work@).to_multiset()) =~= views30(v@).to_multiset());
    while work.len() > 0
        invariant
            views30(out@).to_multiset().add(views30(work@).to_multiset()) == views30(v@).to_multiset(),
            sorted_by(views30(out@), leq),
            forall|i: int, j: int| 0 <= i < out@.len() && 0 <= j < work@.len() ==> lex_le(#[trigger] out@[i]@, #[trigger] work@[j]@),
            leq == (|x: Seq<u8>, y: Seq<u8>| lex_le(x, y)),
        decreases work@.len(),
    {
        let mut m: usize = 0;
        let mut i: usize = 1;
        proof {
            lemma_lex_irrefl(work@[0]@);
        }
        while i < work.len()
            invariant
                0 <= m < work@.len(),
                1 <= i <= work@.len(),
                forall|j: int| 0 <= j < i ==> !lex_lt(#[trigger] work@[j]@, work@[m as int]@),
            decreases work@.len() - i,
        {
            if lex_less(&work[i], &work[m]) {
                proof {
                    assert forall|j: int| 0 <= j < i + 1 implies !lex_lt(#[trigger] work@[j]@, work@[i as int]@) by {
                        if j < i && lex_lt(work@[j]@, work@[i as int]@) {
                            lemma_lex_trans(work@[j]@, work@[i as int]@, work@[m as int]@);
                        }
                        if j == i {
                            lemma_lex_irrefl(work@[i as int]@);
                        }
                    }
                }
                m = i;
            }
            i += 1;
        }
        proof {
            lemma_lex_irrefl(work@[0]@);
        }
        let ghost w0 = work@;
        let ghost o0 = out@;
        let x = work.remove(m);
        out.push(x);
        proof {
            assert(views30(work@) =~= views30(w0).remove(m as int));
            assert(views30(out@) =~= views30(o0).push(x@));
            assert(views30(w0)[m as int] == x@);
            views30(w0).to_multiset_ensures();
            views30(o0).to_multiset_ensures();
            assert(views30(w0).contains(x@));
            assert(views30(w0).to_multiset().count(x@) > 0);
            assert(views30(out@).to_multiset().add(views30(work@).to_multiset()) =~= views30(v@).to_multiset());
            assert forall|a: int, b: int| 0 <= a < b < views30(out@).len() implies #[trigger] leq(views30(out@)[a], views30(out@)[b]) by {
                if b == o0.len() {
                    assert(lex_le(o0[a]@, w0[m as int]@));
                } else {
                    assert(leq(views30(o0)[a], views30(o0)[b]));
                }
            }
            assert forall|a: int, b: int| 0 <= a < out@.len() && 0 <= b < work@.len() implies lex_le(#[trigger] out@[a]@, #[trigger] work@[b]@) by {
                let wb = if b < m { b } else { b + 1 };
                assert(work@[b] == w0[wb]);
                if a < o0.len() {
                    assert(lex_le(o0[a]@, w0[wb]@));
                } else {
                    assert(!lex_lt(w0[wb]@, w0[m as int]@));
                }
            }
        }
    }
    assert(views30(work@) =~= Seq::<Seq<u8>>::empty());
    assert(views30(out@).to_multiset() =~= views30(v@).to_multiset());
    out
}

/// For each symmetry of a board, compute its bitboard. Sort them and hash
/// them in that order: the hash is the same for every orientation.
pub fn canonical_hash(board: &Board) -> (r: [u8; 32])
    ensures
        r@ == sha256_of(canonical_bytes(board@)),
{
    let elements = d8();
    let mut images: Vec<[u8; 30]> = Vec::new();
    let mut k: usize = 0;
    while k < 8
        invariant
            0 <= k <= 8,
            forall|kk: int| 0 <= kk < 8 ==> #[trigger] element_xf(elements@[kk]) == d8_xf(kk),
            images@.len() == k,
            forall|kk: int| 0 <= kk < k ==> #[trigger] images@[kk]@ == bitboard_spec(image(board@, d8_xf(kk))),
        decreases 8 - k,
    {
        let mut b = *board;
        elements[k].apply(&mut b);
        images.push(b.as_bitboard());
        k += 1;
    }
    assert(views30(images@) =~= images_bitboards(board@));
    let sorted = sort_bitboards(images);
    proof {
        let leq = |x: Seq<u8>, y: Seq<u8>| lex_le(x, y);
        lemma_lex_le_total_ordering();
        images_bitboards(board@).lemma_sort_by_ensures(leq);
        lemma_sorted_unique(views30(sorted@), canonical_key(board@));
    }
    let mut bytes: Vec<u8> = Vec::new();
    let mut i: usize = 0;
    while i < sorted.len()
        invariant
            0 <= i <= sorted@.len(),
            bytes@ == concat(views30(sorted@).subrange(0, i as int)),
        decreases sorted@.len() - i,
    {
        let ghost before = bytes@;
        let mut j: usize = 0;
        while j < 30
            invariant
                0 <= j <= 30,
                0 <= i < sorted@.len(),
                bytes@ == before + sorted@[i as int]@.subrange(0, j as int),
            decreases 30 - j,
        {
            bytes.push(sorted[i][j]);
            assert(sorted@[i as int]@.subrange(0, j + 1) =~= sorted@[i as int]@.subrange(0, j as int).push(sorted@[i as int]@[j as int]));
            j += 1;
        }
        assert(sorted@[i as int]@.subrange(0, 30) =~= sorted@[i as int]@);
        assert(views30(sorted@).subrange(0, i + 1).drop_last() =~= views30(sorted@).subrange(0, i as int));
        i += 1;
    }
    assert(views30(sorted@).subrange(0, sorted@.len() as int) =~= views30(sorted@));
    sha256(&bytes)
}

/// Whether two hashes are equal
pub fn same_hash(a: &[u8; 32], b: &[u8; 32]) -> (r: bool)
    ensures
        r == (a@ == b@),
{
    let mut i: usize = 0;
    while i < 32
        invariant
            0 <= i <= 32,
            forall|j: int| 0 <= j < i ==> a@[j] == b@[j],
        decreases 32 - i,
    {
        if a[i] != b[i] {
            return false;
        }
        i += 1;
    }
    assert(a@ =~= b@);
    true
}

/// The key of a board's symmetry class
pub open spec fn class_key(b: Seq<Space>) -> Seq<u8> {
    sha256_of(canonical_bytes(b))
}

/// A set of boards up to the symmetries of the square: each class is kept
/// by its canonical hash
pub struct NormalizedBoards(Vec<[u8; 32]>);

impl View for NormalizedBoards {
    type V = Seq<Seq<u8>>;

    closed spec fn view(&self) -> Seq<Seq<u8>> {
        self.0@.map_values(|h: [u8; 32]| h@)
    }
}

impl NormalizedBoards {
    pub fn new() -> (r: NormalizedBoards)
        ensures
            r@ == Seq::<Seq<u8>>::empty(),
    {
        let r = NormalizedBoards(Vec::new());
        assert(r@ =~= Seq::<Seq<u8>>::empty());
        r
    }

    /// The position of hash `h`, if it is held
    fn find(&self, h: &[u8; 32]) -> (r: Option<usize>)
        ensures
            r matches Some(i) ==> i < self@.len() && self@[i as int] == h@,
            r is None ==> !self@.contains(h@),
    {
        let mut i: usize = 0;
        while i < self.0.len()
            invariant
                0 <= i <= self.0@.len(),
                forall|j: int| 0 <= j < i ==> self@[j] != h@,
            decreases self.0@.len() - i,
        {
            if same_hash(&self.0[i], h) {
                return Some(i);
            }
            i += 1;
        }
        None
    }

    /// Whether the class of `board` is held
    pub fn contains(&self, board: &Board) -> (r: bool)
        ensures
            r == self@.contains(class_key(board@)),
    {
        let h = canonical_hash(board);
        self.find(&h).is_some()
    }

    /// Add the class of `board`; returns whether it was new
    pub fn insert(&mut self, board: &Board) -> (r: bool)
        ensures
            r == !old(self)@.contains(class_key(board@)),
            r ==> final(self)@ == old(self)@.push(class_key(board@)),
            !r ==> final(self)@ == old(self)@,
    {
        let h = canonical_hash(board);
        if self.find(&h).is_some() {
            return false;
        }
        self.0.push(h);
        assert(self@ =~= old(self)@.push(class_key(board@)));
        true
    }

    /// Remove the class of `board`; returns whether it was held
    pub fn remove(&mut self, board: &Board) -> (r: bool)
        ensures
            r == old(self)@.contains(class_key(board@)),
            r ==> exists|i: int| 0 <= i < old(self)@.len() && old(self)@[i] == class_key(board@) && final(self)@ == old(self)@.remove(i),
            !r ==> final(self)@ == old(self)@,
    {
        let h = canonical_hash(board);
        match self.find(&h) {
            Some(i) => {
                self.0.remove(i);
                assert(self@ =~= old(self)@.remove(i as int));
                true
            },
            None => false,
        }
    }
}

/// A map from boards up to the symmetries of the square: each class is kept
/// by its canonical hash
pub struct NormalizedBoardMap<V>(Vec<([u8; 32], V)>);

impl<V: Copy> View for NormalizedBoardMap<V> {
    type V = Seq<(Seq<u8>, V)>;

    closed spec fn view(&self) -> Seq<(Seq<u8>, V)> {
        self.0@.map_values(|e: ([u8; 32], V)| (e.0@, e.1))
    }
}

impl<V: Copy> NormalizedBoardMap<V> {
    pub fn new() -> (r: NormalizedBoardMap<V>)
        ensures
            r@ == Seq::<(Seq<u8>, V)>::empty(),
    {
        let r = NormalizedBoardMap(Vec::new());
        assert(r@ =~= Seq::<(Seq<u8>, V)>::empty());
        r
    }

    /// The position of the entry for hash `h`, if any
    fn find(&self, h: &[u8; 32]) -> (r: Option<usize>)
        ensures
            r matches Some(i) ==> i < self@.len() && self@[i as int].0 == h@,
            r is None ==> forall|i: int| 0 <= i < self@.len() ==> (#[trigger] self@[i]).0 != h@,
    {
        let mut i: usize = 0;
        while i < self.0.len()
            invariant
                0 <= i <= self.0@.len(),
                forall|j: int| 0 <= j < i ==> (#[trigger] self@[j]).0 != h@,
            decreases self.0@.len() - i,
        {
            if same_hash(&self.0[i].0, h) {
                return Some(i);
            }
            i += 1;
        }
        None
    }

    /// Store `value` for the class of `board`; returns the value it replaces
    pub fn insert(&mut self, board: &Board, value: V) -> (r: Option<V>)
        ensures
            match r {
                Some(old_v) => exists|i: int| 0 <= i < old(self)@.len() && (#[trigger] old(self)@[i]) == (class_key(board@), old_v)
                    && final(self)@ == old(self)@.update(i, (class_key(board@), value)),
                None => (forall|i: int| 0 <= i < old(self)@.len() ==> (#[trigger] old(self)@[i]).0 != class_key(board@))
                    && final(self)@ == old(self)@.push((class_key(board@), value)),
            },
    {
        let h = canonical_hash(board);
        match self.find(&h) {
            Some(i) => {
                let old_v = self.0[i].1;
                self.0.set(i, (h, value));
                assert(self@ =~= old(self)@.update(i as int, (class_key(board@), value)));
                Some(old_v)
            },
            None => {
                self.0.push((h, value));
                assert(self@ =~= old(self)@.push((class_key(board@), value)));
                None
            },
        }
    }

    /// Whether the class of `board` has a value
    pub fn contains_key(&self, board: &Board) -> (r: bool)
        ensures
            r == exists|i: int| 0 <= i < self@.len() && (#[trigger] self@[i]).0 == class_key(board@),
    {
        let h = canonical_hash(board);
        self.find(&h).is_some()
    }

    /// The value stored for the class of `board`
    pub fn get(&self, board: &Board) -> (r: Option<V>)
        ensures
            r matches Some(v) ==> exists|i: int| 0 <= i < self@.len() && (#[trigger] self@[i]) == (class_key(board@), v),
            r is None ==> forall|i: int| 0 <= i < self@.len() ==> (#[trigger] self@[i]).0 != class_key(board@),
    {
        let h = canonical_hash(board);
        match self.find(&h) {
            Some(i) => Some(self.0[i].1),
            None => None,
        }
    }

    /// Remove the entry for the class of `board`, returning its value
    pub fn remove(&mut self, board: &Board) -> (r: Option<V>)
        ensures
            match r {
                Some(v) => exists|i: int| 0 <= i < old(self)@.len() && (#[trigger] old(self)@[i]) == (class_key(board@), v)
                    && final(self)@ == old(self)@.remove(i),
                None => (forall|i: int| 0 <= i < old(self)@.len() ==> (#[trigger] old(self)@[i]).0 != class_key(board@))
                    && final(self)@ == old(self)@,
            },
    {
        let h = canonical_hash(board);
        match self.find(&h) {
            Some(i) => {
                let e = self.0.remove(i);
                assert(self@ =~= old(self)@.remove(i as int));
                Some(e.1)
            },
            None => None,
        }
    }

    /// The number of classes stored
    pub fn len(&self) -> (r: usize)
        ensures
            r == self@.len(),
    {
        self.0.len()
    }
}

} // verus!
