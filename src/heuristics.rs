//! Measures of how close the king is to escaping.

use vstd::prelude::*;
use crate::space::{Role, Space, Square, Dir, in_bounds, sq_index, sq_at, is_exit_spec, step_spec, exit_seq, exit_squares};
use crate::board::{Board, cell, king_square, marked, at_most_one_king, restricted_ok, lemma_king_square, lemma_sq_at_index, count_true, lemma_count_true_bound, lemma_count_true_update, lemma_count_false, lemma_index_sq_at, seq_false};
use crate::square_map::SquareMap;
use crate::symmetries::{Xf, pull, image, d8_xf, lemma_pull_in_bounds, lemma_pull_compose, lemma_pull_injective, lemma_image_wf};

verus! {

broadcast use vstd::array::group_array_axioms;

/// Which squares a search may pass through
#[derive(Clone, Copy, Debug, PartialEq, Eq, Structural)]
pub enum Passable {
    /// Empty squares and defenders: attackers block
    EmptyOrDefender,
    /// Empty squares only
    EmptyOnly,
}

pub open spec fn passable_spec(b: Seq<Space>, sq: Square, p: Passable) -> bool {
    match p {
        Passable::EmptyOrDefender => cell(b, sq) == Space::Empty || cell(b, sq) == Space::Occupied(Role::Defender),
        Passable::EmptyOnly => cell(b, sq) == Space::Empty,
    }
}

/// The neighbour in direction `d`, kept if the search may pass through it
pub open spec fn neighbor_spec(b: Seq<Space>, sq: Square, d: Dir, p: Passable) -> Option<Square> {
    match step_spec(sq, d) {
        Some(n) => if passable_spec(b, n, p) { Some(n) } else { None },
        None => None,
    }
}

/// The neighbours of `square` up, left, right and down, each kept only if
/// the search may pass through it
pub fn get_neighbors(board: &Board, square: Square, predicate: Passable) -> (r: [Option<Square>; 4])
    requires
        in_bounds(square),
    ensures
        r@ == seq![
            neighbor_spec(board@, square, Dir::Up, predicate),
            neighbor_spec(board@, square, Dir::Left, predicate),
            neighbor_spec(board@, square, Dir::Right, predicate),
            neighbor_spec(board@, square, Dir::Down, predicate),
        ],
{
    let up = neighbor(board, square, Dir::Up, predicate);
    let left = neighbor(board, square, Dir::Left, predicate);
    let right = neighbor(board, square, Dir::Right, predicate);
    let down = neighbor(board, square, Dir::Down, predicate);
    let r = [up, left, right, down];
    assert(r@ =~= seq![up, left, right, down]);
    r
}

fn neighbor(board: &Board, square: Square, d: Dir, predicate: Passable) -> (r: Option<Square>)
    requires
        in_bounds(square),
    ensures
        r == neighbor_spec(board@, square, d, predicate),
        r matches Some(n) ==> in_bounds(n),
{
    match square.step(d) {
        Some(n) => {
            let sp = board.get(&n);
            let ok = match predicate {
                Passable::EmptyOrDefender => sp == Space::Empty || sp == Space::Occupied(Role::Defender),
                Passable::EmptyOnly => sp == Space::Empty,
            };
            if ok {
                Some(n)
            } else {
                None
            }
        },
        None => None,
    }
}

/// The number of entries that hold a value
pub open spec fn count_some<T>(s: Seq<Option<T>>) -> nat
    decreases s.len(),
{
    if s.len() == 0 {
        0
    } else {
        count_some(s.drop_last()) + if s.last() is Some { 1nat } else { 0nat }
    }
}

pub proof fn lemma_count_some_bound<T>(s: Seq<Option<T>>)
    ensures
        count_some(s) <= s.len(),
    decreases s.len(),
{
    if s.len() > 0 {
        lemma_count_some_bound(s.drop_last());
    }
}

pub proof fn lemma_count_some_update<T>(s: Seq<Option<T>>, i: int, v: T)
    requires
        0 <= i < s.len(),
        s[i] is None,
    ensures
        count_some(s.update(i, Some(v))) == count_some(s) + 1,
    decreases s.len(),
{
    let t = s.update(i, Some(v));
    if i == s.len() - 1 {
        assert(t.drop_last() =~= s.drop_last());
    } else {
        assert(t.drop_last() =~= s.drop_last().update(i, Some(v)));
        lemma_count_some_update(s.drop_last(), i, v);
    }
}

pub proof fn lemma_count_some_none<T>(n: nat)
    ensures
        count_some(Seq::new(n, |i: int| None::<T>)) == 0,
    decreases n,
{
    if n > 0 {
        assert(Seq::new(n, |i: int| None::<T>).drop_last() =~= Seq::new((n - 1) as nat, |i: int| None::<T>));
        lemma_count_some_none::<T>((n - 1) as nat);
    }
}

/// The flow on each ordered pair of squares
pub struct EdgeFlows {
    flows: Vec<i64>,
}

/// The index of the ordered pair (f, s)
pub open spec fn edge_index(f: Square, s: Square) -> int {
    sq_index(f) * 121 + sq_index(s)
}

impl EdgeFlows {
    pub closed spec fn flow_seq(&self) -> Seq<i64> {
        self.flows@
    }

    /// The flow from `f` to `s`
    pub open spec fn flow(&self, f: Square, s: Square) -> i64 {
        self.flow_seq()[edge_index(f, s)]
    }

    pub fn new() -> (r: EdgeFlows)
        ensures
            r.flow_seq().len() == 14641,
            forall|e: int| 0 <= e < 14641 ==> #[trigger] r.flow_seq()[e] == 0,
    {
        EdgeFlows { flows: vec![0i64; 14641] }
    }

    pub fn get(&self, edge: &[Square; 2]) -> (r: i64)
        requires
            self.flow_seq().len() == 14641,
            in_bounds(edge[0]),
            in_bounds(edge[1]),
        ensures
            r == self.flow(edge[0], edge[1]),
    {
        let f = edge[0];
        let s = edge[1];
        self.flows[(f.y * 11 + f.x) * 121 + s.y * 11 + s.x]
    }

    pub fn insert(&mut self, edge: [Square; 2], flow: i64)
        requires
            old(self).flow_seq().len() == 14641,
            in_bounds(edge[0]),
            in_bounds(edge[1]),
        ensures
            final(self).flow_seq() == old(self).flow_seq().update(edge_index(edge[0], edge[1]), flow),
    {
        let f = edge[0];
        let s = edge[1];
        let ix = (f.y * 11 + f.x) * 121 + s.y * 11 + s.x;
        self.flows.set(ix, flow);
    }
}

/// All flows lie within `bound` of zero
pub open spec fn flows_bounded(fl: Seq<i64>, bound: int) -> bool {
    fl.len() == 14641 && forall|e: int| 0 <= e < 14641 ==> -bound <= #[trigger] fl[e] <= bound
}

/// Every square found by the search records a neighbour on the board from
/// which it was reached over an edge with spare capacity
pub open spec fn pred_ok(pred: Seq<Option<Square>>, fl: &EdgeFlows) -> bool {
    pred.len() == 121 && forall|i: int|
        0 <= i < 121 && (#[trigger] pred[i]) is Some ==> in_bounds(pred[i].unwrap()) && fl.flow(pred[i].unwrap(), sq_at(i))
            < 1
}

/// A set of squares that no edge with spare capacity leaves towards a
/// passable square
pub open spec fn residual_closed(b: Seq<Space>, fl: &EdgeFlows, s: Set<Square>) -> bool {
    forall|sq: Square, d: Dir|
        #[trigger] s.contains(sq) && in_bounds(sq) && (#[trigger] step_spec(sq, d) matches Some(n)
            && passable_spec(b, n, Passable::EmptyOrDefender) && fl.flow(sq, n) < 1) ==> s.contains(
            step_spec(sq, d).unwrap(),
        )
}

/// `to` can be reached from `from` along edges with spare capacity
pub open spec fn residual_reaches(b: Seq<Space>, fl: &EdgeFlows, from: Square, to: Square) -> bool {
    forall|s: Set<Square>| #[trigger] residual_closed(b, fl, s) && s.contains(from) ==> s.contains(to)
}

/// A set of squares that no step leaves towards an empty or defender-held square
pub open spec fn passable_closed(b: Seq<Space>, s: Set<Square>) -> bool {
    forall|sq: Square, d: Dir|
        #[trigger] s.contains(sq) && in_bounds(sq) && (#[trigger] step_spec(sq, d) matches Some(n)
            && passable_spec(b, n, Passable::EmptyOrDefender)) ==> s.contains(step_spec(sq, d).unwrap())
}

/// A path of empty or defender-held squares leads from `from` to `to`
pub open spec fn passable_path(b: Seq<Space>, from: Square, to: Square) -> bool {
    forall|s: Set<Square>| #[trigger] passable_closed(b, s) && s.contains(from) ==> s.contains(to)
}

/// With no flow yet, every step is an edge with spare capacity
pub proof fn lemma_zero_flow_reaches(b: Seq<Space>, fl: &EdgeFlows, from: Square, to: Square)
    requires
        fl.flow_seq().len() == 14641,
        forall|e: int| 0 <= e < 14641 ==> #[trigger] fl.flow_seq()[e] == 0,
    ensures
        residual_reaches(b, fl, from, to) == passable_path(b, from, to),
{
    assert forall|s: Set<Square>| residual_closed(b, fl, s) == passable_closed(b, s) by {
        if passable_closed(b, s) {
            assert(residual_closed(b, fl, s));
        }
        if residual_closed(b, fl, s) {
            assert forall|sq: Square, d: Dir|
                #[trigger] s.contains(sq) && in_bounds(sq) && (#[trigger] step_spec(sq, d) matches Some(n)
                    && passable_spec(b, n, Passable::EmptyOrDefender)) implies s.contains(step_spec(sq, d).unwrap()) by {
                let n = step_spec(sq, d).unwrap();
                lemma_index_sq_at(sq);
                lemma_index_sq_at(n);
                assert(0 <= edge_index(sq, n) < 14641) by (nonlinear_arith)
                    requires 0 <= sq_index(sq) < 121, 0 <= sq_index(n) < 121, edge_index(sq, n) == sq_index(sq) * 121 + sq_index(n);
                assert(fl.flow(sq, n) == 0);
            }
        }
    }
    if residual_reaches(b, fl, from, to) {
        assert forall|s: Set<Square>| #[trigger] passable_closed(b, s) && s.contains(from) implies s.contains(to) by {
            assert(residual_closed(b, fl, s));
        }
    }
    if passable_path(b, from, to) {
        assert forall|s: Set<Square>| #[trigger] residual_closed(b, fl, s) && s.contains(from) implies s.contains(to) by {
            assert(passable_closed(b, s));
        }
    }
}

/// The state of the breadth-first search of the residual graph
#[verifier::opaque]
pub open spec fn search_inv(b: Seq<Space>, fl: &EdgeFlows, king: Square, pred: Seq<Option<Square>>, q: Seq<Square>, head: int) -> bool {
    &&& pred_ok(pred, fl)
    &&& fl.flow_seq().len() == 14641
    &&& 0 <= head <= q.len()
    &&& q.len() <= count_some(pred) + 1
    &&& q.len() > 0 && q[0] == king
    &&& pred[sq_index(king)] is None
    &&& forall|k: int| 0 <= k < q.len() ==> in_bounds(#[trigger] q[k])
    &&& forall|k: int| 1 <= k < q.len() ==> (#[trigger] pred[sq_index(q[k])]) is Some
    &&& forall|i: int| 0 <= i < 121 && (#[trigger] pred[i]) is Some ==> q.contains(sq_at(i))
    &&& forall|k: int, d: Dir| 0 <= k < head ==> #[trigger] search_done(b, fl, q[k], d, pred)
    &&& forall|s: Set<Square>| #[trigger] residual_closed(b, fl, s) && s.contains(king) ==> forall|k: int|
        0 <= k < q.len() ==> s.contains(#[trigger] q[k])
}

/// Every passable neighbour of `sq` with spare capacity towards it has been found
pub open spec fn search_done(b: Seq<Space>, fl: &EdgeFlows, sq: Square, d: Dir, pred: Seq<Option<Square>>) -> bool {
    step_spec(sq, d) matches Some(n) ==> (passable_spec(b, n, Passable::EmptyOrDefender) && fl.flow(sq, n) < 1
        ==> pred[sq_index(n)] is Some)
}

/// The link from a found square `i` to the square it was reached from: a
/// step onto a passable square, one deeper in the search than its parent
pub open spec fn tree_link(b: Seq<Space>, king: Square, pred: Seq<Option<Square>>, dist: Seq<int>, i: int) -> bool {
    let p = pred[i].unwrap();
    &&& in_bounds(p)
    &&& 1 <= dist[i] <= count_some(pred)
    &&& dist[i] == dist[sq_index(p)] + 1
    &&& (p == king || pred[sq_index(p)] is Some)
    &&& (exists|d: Dir| step_spec(p, d) == Some(sq_at(i)))
    &&& passable_spec(b, sq_at(i), Passable::EmptyOrDefender)
}

/// The found squares form a tree rooted at the king, with depths `dist`
#[verifier::opaque]
pub open spec fn pred_tree(b: Seq<Space>, king: Square, pred: Seq<Option<Square>>, dist: Seq<int>) -> bool {
    &&& pred.len() == 121
    &&& dist.len() == 121
    &&& in_bounds(king)
    &&& dist[sq_index(king)] == 0
    &&& pred[sq_index(king)] is None
    &&& forall|i: int| 0 <= i < 121 && (#[trigger] pred[i]) is Some ==> tree_link(b, king, pred, dist, i)
}

pub proof fn lemma_tree_push(b: Seq<Space>, king: Square, pred: Seq<Option<Square>>, dist: Seq<int>, sq: Square, n: Square, dn: Dir)
    requires
        pred_tree(b, king, pred, dist),
        cell(b, king) == Space::King,
        in_bounds(sq),
        in_bounds(n),
        sq == king || pred[sq_index(sq)] is Some,
        pred[sq_index(n)] is None,
        step_spec(sq, dn) == Some(n),
        passable_spec(b, n, Passable::EmptyOrDefender),
    ensures
        pred_tree(b, king, pred.update(sq_index(n), Some(sq)), dist.update(sq_index(n), dist[sq_index(sq)] + 1)),
{
    reveal(pred_tree);
    lemma_index_sq_at(n);
    lemma_index_sq_at(sq);
    lemma_index_sq_at(king);
    let ix = sq_index(n);
    let p2 = pred.update(ix, Some(sq));
    let d2 = dist.update(ix, dist[sq_index(sq)] + 1);
    lemma_count_some_update(pred, ix, sq);
    assert(n != king);
    if sq != king {
        assert(tree_link(b, king, pred, dist, sq_index(sq)));
    }
    assert forall|i: int| 0 <= i < 121 && (#[trigger] p2[i]) is Some implies tree_link(b, king, p2, d2, i) by {
        if i == ix {
            assert(sq_at(i) == n);
            assert(step_spec(sq, dn) == Some(sq_at(i)));
        } else {
            assert(tree_link(b, king, pred, dist, i));
            let p = pred[i].unwrap();
            lemma_index_sq_at(p);
            if p != king {
                assert(sq_index(p) != ix);
            }
        }
    }
}

/// Search the residual graph from the king for a path to the corner
fn residual_search(board: &Board, king: Square, corner: Square, flow: &EdgeFlows) -> (r: (SquareMap<Square>, Ghost<Seq<int>>))
    requires
        in_bounds(king),
        in_bounds(corner),
        cell(board@, king) == Space::King,
        flow.flow_seq().len() == 14641,
    ensures
        pred_ok(r.0.entries(), flow),
        pred_tree(board@, king, r.0.entries(), r.1@),
        r.0.entries()[sq_index(corner)] is Some <==> corner != king && residual_reaches(board@, flow, king, corner),
{
    let mut pred: SquareMap<Square> = SquareMap::new();
    let mut queue: Vec<Square> = Vec::new();
    queue.push(king);
    proof {
        reveal(search_inv);
        assert(pred.entries() =~= Seq::new(121, |i: int| None::<Square>));
        lemma_count_some_none::<Square>(121);
        lemma_index_sq_at(king);
        assert forall|i: int| 0 <= i < 121 && (#[trigger] pred.entries()[i]) is Some implies queue@.contains(sq_at(i)) by {}
    }
    let ghost mut dist: Seq<int> = Seq::new(121, |i: int| 0);
    proof {
        reveal(pred_tree);
        lemma_index_sq_at(king);
    }
    let mut head: usize = 0;
    while head < queue.len()
        invariant
            search_inv(board@, flow, king, pred.entries(), queue@, head as int),
            pred_tree(board@, king, pred.entries(), dist),
            in_bounds(corner),
            in_bounds(king),
            cell(board@, king) == Space::King,
            head <= queue@.len(),
        decreases 122 - head,
    {
        proof {
            reveal(search_inv);
            lemma_count_some_bound(pred.entries());
            lemma_index_sq_at(corner);
        }
        if pred.contains_key(&corner) {
            proof {
                reveal(search_inv);
                lemma_search_found(board@, flow, king, corner, pred.entries(), queue@, head as int);
            }
            return (pred, Ghost(dist));
        }
        let square = queue[head];
        proof {
            reveal(search_inv);
            if head > 0 {
                assert(pred.entries()[sq_index(queue@[head as int])] is Some);
            }
        }
        let ns = get_neighbors(board, square, Passable::EmptyOrDefender);
        let ghost q0 = queue@;
        let ghost p0 = pred.entries();
        let mut k: usize = 0;
        while k < 4
            invariant
                0 <= k <= 4,
                head < queue@.len(),
                head < q0.len(),
                square == q0[head as int],
                in_bounds(square),
                in_bounds(king),
                cell(board@, king) == Space::King,
                ns@ == seq![
                    neighbor_spec(board@, square, Dir::Up, Passable::EmptyOrDefender),
                    neighbor_spec(board@, square, Dir::Left, Passable::EmptyOrDefender),
                    neighbor_spec(board@, square, Dir::Right, Passable::EmptyOrDefender),
                    neighbor_spec(board@, square, Dir::Down, Passable::EmptyOrDefender),
                ],
                search_inv(board@, flow, king, pred.entries(), queue@, head as int),
                pred_tree(board@, king, pred.entries(), dist),
                square == king || pred.entries()[sq_index(square)] is Some,
                queue@.len() >= q0.len(),
                forall|j: int| 0 <= j < q0.len() ==> queue@[j] == q0[j],
                p0.len() == 121,
                forall|i: int| 0 <= i < 121 && (#[trigger] p0[i]) is Some ==> pred.entries()[i] is Some,
                k > 0 ==> search_done(board@, flow, square, Dir::Up, pred.entries()),
                k > 1 ==> search_done(board@, flow, square, Dir::Left, pred.entries()),
                k > 2 ==> search_done(board@, flow, square, Dir::Right, pred.entries()),
                k > 3 ==> search_done(board@, flow, square, Dir::Down, pred.entries()),
            decreases 4 - k,
        {
            let ghost pk = pred.entries();
            if let Some(n) = ns[k] {
                proof {
                    reveal(search_inv);
                    lemma_index_sq_at(n);
                }
                if !pred.contains_key(&n) && 1 > flow.get(&[square, n]) {
                    proof {
                        let d = if k == 0 { Dir::Up } else if k == 1 { Dir::Left } else if k == 2 { Dir::Right } else { Dir::Down };
                        assert(step_spec(square, d) == Some(n));
                        assert(queue@[head as int] == square);
                        lemma_search_push(board@, flow, king, pred.entries(), queue@, head as int, n, d);
                        lemma_tree_push(board@, king, pred.entries(), dist, square, n, d);
                        dist = dist.update(sq_index(n), dist[sq_index(square)] + 1);
                    }
                    pred.insert(n, square);
                    queue.push(n);
                }
            }
            proof {
                reveal(search_inv);
                lemma_search_done_mono(board@, flow, square, pk, pred.entries());
            }
            k += 1;
        }
        proof {
            lemma_search_advance(board@, flow, king, pred.entries(), queue@, head as int);
        }
        head += 1;
    }
    proof {
        lemma_search_end(board@, flow, king, corner, pred.entries(), queue@);
    }
    (pred, Ghost(dist))
}

pub proof fn lemma_search_found(b: Seq<Space>, fl: &EdgeFlows, king: Square, corner: Square, pred: Seq<Option<Square>>, q: Seq<Square>, head: int)
    requires
        search_inv(b, fl, king, pred, q, head),
        in_bounds(corner),
        pred[sq_index(corner)] is Some,
    ensures
        corner != king && residual_reaches(b, fl, king, corner),
{
    reveal(search_inv);
    lemma_index_sq_at(corner);
    assert(q.contains(sq_at(sq_index(corner))));
    let k = choose|k: int| 0 <= k < q.len() && q[k] == corner;
    assert forall|s: Set<Square>| #[trigger] residual_closed(b, fl, s) && s.contains(king) implies s.contains(corner) by {
        assert(s.contains(q[k]));
    }
}

pub proof fn lemma_search_done_mono(b: Seq<Space>, fl: &EdgeFlows, sq: Square, p1: Seq<Option<Square>>, p2: Seq<Option<Square>>)
    requires
        forall|i: int| 0 <= i < 121 && (#[trigger] p1[i]) is Some ==> p2[i] is Some,
        in_bounds(sq),
    ensures
        forall|d: Dir| search_done(b, fl, sq, d, p1) ==> search_done(b, fl, sq, d, p2),
{
    assert forall|d: Dir| search_done(b, fl, sq, d, p1) implies search_done(b, fl, sq, d, p2) by {
        if let Some(n) = step_spec(sq, d) {
            lemma_index_sq_at(n);
        }
    }
}

pub proof fn lemma_search_push(b: Seq<Space>, fl: &EdgeFlows, king: Square, pred: Seq<Option<Square>>, q: Seq<Square>, head: int, n: Square, dn: Dir)
    requires
        search_inv(b, fl, king, pred, q, head),
        0 <= head < q.len(),
        in_bounds(n),
        cell(b, king) == Space::King,
        step_spec(q[head], dn) == Some(n),
        passable_spec(b, n, Passable::EmptyOrDefender),
        fl.flow(q[head], n) < 1,
        pred[sq_index(n)] is None,
    ensures
        search_inv(b, fl, king, pred.update(sq_index(n), Some(q[head])), q.push(n), head),
{
    reveal(search_inv);
    let ix = sq_index(n);
    let p2 = pred.update(ix, Some(q[head]));
    let q2 = q.push(n);
    lemma_count_some_update(pred, ix, q[head]);
    lemma_index_sq_at(n);
    lemma_index_sq_at(king);
    assert(n != king);
    assert forall|i: int| 0 <= i < 121 && (#[trigger] p2[i]) is Some implies q2.contains(sq_at(i)) by {
        if i != ix {
            assert(q.contains(sq_at(i)));
            let k = choose|k: int| 0 <= k < q.len() && q[k] == sq_at(i);
            assert(q2[k] == sq_at(i));
        } else {
            assert(q2[q.len() as int] == sq_at(i));
        }
    }
    assert forall|k: int| 1 <= k < q2.len() implies (#[trigger] p2[sq_index(q2[k])]) is Some by {
        if k < q.len() {
            assert(q2[k] == q[k]);
            assert(pred[sq_index(q[k])] is Some);
        }
    }
    assert forall|k: int| 0 <= k < q2.len() implies in_bounds(#[trigger] q2[k]) by {
        if k < q.len() {
            assert(q2[k] == q[k]);
        }
    }
    assert forall|k: int, d: Dir| 0 <= k < head implies #[trigger] search_done(b, fl, q2[k], d, p2) by {
        assert(q2[k] == q[k]);
        assert(search_done(b, fl, q[k], d, pred));
        if let Some(m) = step_spec(q[k], d) {
            lemma_index_sq_at(m);
        }
    }
    assert forall|i: int| 0 <= i < 121 && (#[trigger] p2[i]) is Some implies in_bounds(p2[i].unwrap()) && fl.flow(p2[i].unwrap(), sq_at(i)) < 1 by {
        if i == ix {
            assert(sq_at(i) == n);
        }
    }
    assert forall|s: Set<Square>| #[trigger] residual_closed(b, fl, s) && s.contains(king) implies forall|k: int|
        0 <= k < q2.len() ==> s.contains(#[trigger] q2[k]) by {
        assert(s.contains(q[head]));
        assert(step_spec(q[head], dn) == Some(n));
        assert(s.contains(n));
        assert forall|k: int| 0 <= k < q2.len() implies s.contains(#[trigger] q2[k]) by {
            if k < q.len() {
                assert(q2[k] == q[k]);
            }
        }
    }
}

pub proof fn lemma_search_advance(b: Seq<Space>, fl: &EdgeFlows, king: Square, pred: Seq<Option<Square>>, q: Seq<Square>, head: int)
    requires
        search_inv(b, fl, king, pred, q, head),
        0 <= head < q.len(),
        search_done(b, fl, q[head], Dir::Up, pred),
        search_done(b, fl, q[head], Dir::Left, pred),
        search_done(b, fl, q[head], Dir::Right, pred),
        search_done(b, fl, q[head], Dir::Down, pred),
    ensures
        search_inv(b, fl, king, pred, q, head + 1),
{
    reveal(search_inv);
    assert forall|k: int, d: Dir| 0 <= k < head + 1 implies #[trigger] search_done(b, fl, q[k], d, pred) by {
        if k == head {
            match d {
                Dir::Up => {},
                Dir::Left => {},
                Dir::Right => {},
                Dir::Down => {},
            }
        }
    }
}

pub proof fn lemma_search_end(b: Seq<Space>, fl: &EdgeFlows, king: Square, corner: Square, pred: Seq<Option<Square>>, q: Seq<Square>)
    requires
        search_inv(b, fl, king, pred, q, q.len() as int),
        in_bounds(corner),
    ensures
        pred[sq_index(corner)] is Some <==> corner != king && residual_reaches(b, fl, king, corner),
{
    reveal(search_inv);
    if pred[sq_index(corner)] is Some {
        lemma_search_found(b, fl, king, corner, pred, q, q.len() as int);
    } else {
        let s = Set::new(|x: Square| q.contains(x));
        assert(s.contains(king)) by {
            assert(q[0] == king);
        }
        assert forall|sq: Square, d: Dir|
            #[trigger] s.contains(sq) && in_bounds(sq) && (#[trigger] step_spec(sq, d) matches Some(n)
                && passable_spec(b, n, Passable::EmptyOrDefender) && fl.flow(sq, n) < 1) implies s.contains(step_spec(sq, d).unwrap()) by {
            let k = choose|k: int| 0 <= k < q.len() && q[k] == sq;
            assert(search_done(b, fl, q[k], d, pred));
            let n = step_spec(sq, d).unwrap();
            lemma_index_sq_at(n);
            assert(q.contains(sq_at(sq_index(n))));
        }
        assert(residual_closed(b, fl, s));
        if corner != king && residual_reaches(b, fl, king, corner) {
            assert(s.contains(corner));
            let k = choose|k: int| 0 <= k < q.len() && q[k] == corner;
            assert(k != 0);
            assert(pred[sq_index(q[k])] is Some);
        }
    }
}

/// An arc of the flow network: a step onto a square that is empty or held
/// by a defender
pub open spec fn arc(b: Seq<Space>, x: Square, y: Square) -> bool {
    in_bounds(x) && (exists|d: Dir| step_spec(x, d) == Some(y)) && passable_spec(b, y, Passable::EmptyOrDefender)
}

/// `s` is closed under every arc but `e`
pub open spec fn closed_without(b: Seq<Space>, s: Set<Square>, e: (Square, Square)) -> bool {
    forall|x: Square, y: Square| #[trigger] s.contains(x) && #[trigger] arc(b, x, y) && (x, y) != e ==> s.contains(y)
}

/// Removing a single arc separates `corner` from `king`
pub open spec fn single_arc_cut(b: Seq<Space>, king: Square, corner: Square) -> bool {
    exists|e: (Square, Square), s: Set<Square>| #[trigger] closed_without(b, s, e) && s.contains(king) && !s.contains(corner)
}

/// The maximum flow from `king` to `corner` with a unit capacity on each
/// arc, counted up to 2. By the max-flow min-cut theorem it is the least
/// number of arcs whose removal separates the corner from the king, capped
/// at 2: none when no path joins them, one when a single arc separates them
pub open spec fn capped_flow(b: Seq<Space>, king: Square, corner: Square) -> int {
    if corner == king || !passable_path(b, king, corner) {
        0
    } else if single_arc_cut(b, king, corner) {
        1
    } else {
        2
    }
}

/// Arc `x -> y` is used by the path `w`, which is listed from its end back
/// to its start
pub open spec fn walk_arc(w: Seq<Square>, x: Square, y: Square) -> bool {
    exists|j: int| 0 <= j < w.len() - 1 && #[trigger] w[j] == y && w[j + 1] == x
}

/// `w` lists a path of arcs without repeated squares from `king` to
/// `corner`, backwards from the corner
#[verifier::opaque]
pub open spec fn back_path(b: Seq<Space>, w: Seq<Square>, king: Square, corner: Square) -> bool {
    &&& w.len() >= 2
    &&& w[0] == corner
    &&& w[w.len() - 1] == king
    &&& forall|j: int| 0 <= j < w.len() ==> in_bounds(#[trigger] w[j])
    &&& forall|j: int| 0 <= j < w.len() - 1 ==> arc(b, w[j + 1], #[trigger] w[j])
    &&& forall|i: int, j: int| 0 <= i < j < w.len() ==> w[i] != w[j]
}

/// The flow is one unit along the path `w` and nothing else
#[verifier::opaque]
pub open spec fn flow_along(fl: &EdgeFlows, w: Seq<Square>) -> bool {
    &&& fl.flow_seq().len() == 14641
    &&& forall|x: Square, y: Square| in_bounds(x) && in_bounds(y) ==> #[trigger] fl.flow(x, y) == (if walk_arc(w, x, y) {
        1i64
    } else if walk_arc(w, y, x) {
        -1i64
    } else {
        0i64
    })
}

/// Between a square in `s` and a later one outside it, the path leaves `s`
pub proof fn lemma_leaves(w: Seq<Square>, s: Set<Square>, a: int, c: int)
    requires
        0 <= a < c < w.len(),
        s.contains(w[a]),
        !s.contains(w[c]),
    ensures
        exists|m: int| a <= m < c && #[trigger] s.contains(w[m]) && !s.contains(w[m + 1]),
    decreases c - a,
{
    if !s.contains(w[a + 1]) {
        assert(s.contains(w[a]) && !s.contains(w[a + 1]));
    } else {
        lemma_leaves(w, s, a + 1, c);
    }
}

/// Between a square outside `s` and a later one in it, the path enters `s`
pub proof fn lemma_enters(w: Seq<Square>, s: Set<Square>, a: int, c: int)
    requires
        0 <= a < c < w.len(),
        !s.contains(w[a]),
        s.contains(w[c]),
    ensures
        exists|m: int| a <= m < c && !#[trigger] s.contains(w[m]) && s.contains(w[m + 1]),
    decreases c - a,
{
    if s.contains(w[a + 1]) {
        assert(!s.contains(w[a]) && s.contains(w[a + 1]));
    } else {
        lemma_enters(w, s, a + 1, c);
    }
}

/// A step can be walked back
pub proof fn lemma_step_back(x: Square, d: Dir, y: Square)
    requires
        in_bounds(x),
        step_spec(x, d) == Some(y),
    ensures
        exists|d2: Dir| step_spec(y, d2) == Some(x),
{
    match d {
        Dir::Up => { assert(step_spec(y, Dir::Down) == Some(x)); },
        Dir::Down => { assert(step_spec(y, Dir::Up) == Some(x)); },
        Dir::Left => { assert(step_spec(y, Dir::Right) == Some(x)); },
        Dir::Right => { assert(step_spec(y, Dir::Left) == Some(x)); },
    }
}

/// After one unit of flow along a path, a set that no spare arc leaves
/// is left by exactly one arc of the network: that arc alone separates
pub proof fn lemma_one_unit_cut(b: Seq<Space>, fl: &EdgeFlows, w: Seq<Square>, s: Set<Square>, king: Square, corner: Square)
    requires
        back_path(b, w, king, corner),
        flow_along(fl, w),
        residual_closed(b, fl, s),
        s.contains(king),
        !s.contains(corner),
    ensures
        single_arc_cut(b, king, corner),
{
    reveal(back_path);
    reveal(flow_along);
    let last = w.len() - 1;
    lemma_enters(w, s, 0, last);
    let m = choose|m: int| 0 <= m < last && !#[trigger] s.contains(w[m]) && s.contains(w[m + 1]);
    let e = (w[m + 1], w[m]);
    assert(walk_arc(w, w[m + 1], w[m]));
    assert forall|x: Square, y: Square| #[trigger] s.contains(x) && #[trigger] arc(b, x, y) && (x, y) != e implies s.contains(y) by {
        if !s.contains(y) {
            let d = choose|d: Dir| step_spec(x, d) == Some(y);
            assert(in_bounds(y)) by {
                match d { Dir::Up => {}, Dir::Down => {}, Dir::Left => {}, Dir::Right => {} }
            }
            // no spare capacity on x -> y, so the path uses it
            assert(!(fl.flow(x, y) < 1));
            assert(walk_arc(w, x, y));
            let j = choose|j: int| 0 <= j < w.len() - 1 && #[trigger] w[j] == y && w[j + 1] == x;
            // the path leaves s at j and enters it at m; between them it crosses back
            if j < m {
                // w[j] outside, ..., w[m] outside, w[m+1] inside; w[j+1] inside: w[j+1] .. w[m] goes in -> out
                if j + 1 < m {
                    lemma_leaves(w, s, j + 1, m);
                    let k = choose|k: int| j + 1 <= k < m && #[trigger] s.contains(w[k]) && !s.contains(w[k + 1]);
                    self_reverse_arc(b, fl, w, s, k);
                }
                if j + 1 == m {
                    assert(s.contains(w[j + 1]));
                }
            } else if j > m {
                // w[m+1] inside, ..., w[j] outside
                lemma_leaves(w, s, m + 1, j);
                let k = choose|k: int| m + 1 <= k < j && #[trigger] s.contains(w[k]) && !s.contains(w[k + 1]);
                assert(w[w.len() - 1] == king);
                self_reverse_arc(b, fl, w, s, k);
            } else {
                assert(false);
            }
        }
    }
    assert(closed_without(b, s, e));
}

/// The path, walked back from a square of `s` other than the king, stays
/// in `s`: the reverse of each of its arcs has spare capacity
proof fn self_reverse_arc(b: Seq<Space>, fl: &EdgeFlows, w: Seq<Square>, s: Set<Square>, k: int)
    requires
        back_path(b, w, w[w.len() - 1], w[0]),
        flow_along(fl, w),
        residual_closed(b, fl, s),
        s.contains(w[w.len() - 1]),
        0 <= k < w.len() - 1,
        s.contains(w[k]),
        k + 1 < w.len() - 1,
    ensures
        s.contains(w[k + 1]),
{
    reveal(back_path);
    reveal(flow_along);
    let x = w[k];
    let y = w[k + 1];
    assert(arc(b, y, x));
    let d = choose|d: Dir| step_spec(y, d) == Some(x);
    lemma_step_back(y, d, x);
    let d2 = choose|d2: Dir| step_spec(x, d2) == Some(y);
    assert(arc(b, w[k + 2], w[k + 1]));
    assert(walk_arc(w, y, x));
    if walk_arc(w, x, y) {
        let j = choose|j: int| 0 <= j < w.len() - 1 && #[trigger] w[j] == y && w[j + 1] == x;
        assert(j == k + 1);
        assert(w[k + 2] == x);
        assert(false);
    }
    assert(fl.flow(x, y) == -1);
    assert(s.contains(step_spec(x, d2).unwrap()));
}

/// With one unit of flow along a path and a spare path still to the corner,
/// no single arc separates the corner from the king
pub proof fn lemma_no_single_cut(b: Seq<Space>, fl: &EdgeFlows, w: Seq<Square>, king: Square, corner: Square)
    requires
        back_path(b, w, king, corner),
        flow_along(fl, w),
        residual_reaches(b, fl, king, corner),
    ensures
        !single_arc_cut(b, king, corner),
{
    reveal(back_path);
    reveal(flow_along);
    if single_arc_cut(b, king, corner) {
        let (e, s) = choose|e: (Square, Square), s: Set<Square>| #[trigger] closed_without(b, s, e) && s.contains(king) && !s.contains(corner);
        let last = w.len() - 1;
        lemma_enters(w, s, 0, last);
        let m = choose|m: int| 0 <= m < last && !#[trigger] s.contains(w[m]) && s.contains(w[m + 1]);
        assert(arc(b, w[m + 1], w[m]));
        assert(e == (w[m + 1], w[m]));
        assert(walk_arc(w, w[m + 1], w[m]));
        assert(residual_closed(b, fl, s)) by {
            assert forall|sq: Square, d: Dir|
                #[trigger] s.contains(sq) && in_bounds(sq) && (#[trigger] step_spec(sq, d) matches Some(n)
                    && passable_spec(b, n, Passable::EmptyOrDefender) && fl.flow(sq, n) < 1) implies s.contains(step_spec(sq, d).unwrap()) by {
                let n = step_spec(sq, d).unwrap();
                assert(arc(b, sq, n));
                if (sq, n) == e {
                    assert(in_bounds(n));
                    assert(fl.flow(sq, n) == 1);
                }
            }
        }
        assert(s.contains(corner));
    }
}

pub proof fn lemma_edge_index_inj(x1: Square, y1: Square, x2: Square, y2: Square)
    requires
        in_bounds(x1),
        in_bounds(y1),
        in_bounds(x2),
        in_bounds(y2),
        edge_index(x1, y1) == edge_index(x2, y2),
    ensures
        x1 == x2,
        y1 == y2,
{
    let a = sq_index(x1);
    let b = sq_index(y1);
    let c = sq_index(x2);
    let d = sq_index(y2);
    lemma_index_sq_at(x1);
    lemma_index_sq_at(y1);
    lemma_index_sq_at(x2);
    lemma_index_sq_at(y2);
    assert(a == c && b == d) by (nonlinear_arith)
        requires 0 <= a < 121, 0 <= b < 121, 0 <= c < 121, 0 <= d < 121, a * 121 + b == c * 121 + d;
}

pub proof fn lemma_edge_index_range(x: Square, y: Square)
    requires
        in_bounds(x),
        in_bounds(y),
    ensures
        0 <= edge_index(x, y) < 14641,
{
    lemma_index_sq_at(x);
    lemma_index_sq_at(y);
    let a = sq_index(x);
    let b = sq_index(y);
    assert(0 <= a * 121 + b < 14641) by (nonlinear_arith)
        requires 0 <= a < 121, 0 <= b < 121;
}

/// Sending one unit from `p` to the start of the path `w` extends the flow
/// along the path by that arc
pub proof fn lemma_flow_push(fl: &EdgeFlows, fl2: &EdgeFlows, w: Seq<Square>, p: Square)
    requires
        flow_along(fl, w),
        w.len() >= 1,
        forall|j: int| 0 <= j < w.len() ==> in_bounds(#[trigger] w[j]) && w[j] != p,
        in_bounds(p),
        fl2.flow_seq() == fl.flow_seq().update(edge_index(p, w[w.len() - 1]), 1i64).update(edge_index(w[w.len() - 1], p), -1i64),
    ensures
        flow_along(fl2, w.push(p)),
{
    reveal(flow_along);
    let cur = w[w.len() - 1];
    let w2 = w.push(p);
    lemma_edge_index_range(p, cur);
    lemma_edge_index_range(cur, p);
    assert forall|x: Square, y: Square| in_bounds(x) && in_bounds(y) implies #[trigger] fl2.flow(x, y) == (if walk_arc(w2, x, y) {
        1i64
    } else if walk_arc(w2, y, x) {
        -1i64
    } else {
        0i64
    }) by {
        lemma_edge_index_range(x, y);
        assert(walk_arc(w2, p, cur)) by {
            assert(w2[w.len() - 1] == cur && w2[w.len() as int] == p);
        }
        assert(p != cur);
        assert(edge_index(cur, p) != edge_index(p, cur)) by {
            if edge_index(cur, p) == edge_index(p, cur) {
                lemma_edge_index_inj(cur, p, p, cur);
            }
        }
        if x == p && y == cur {
            assert(fl2.flow(x, y) == 1);
            assert(!walk_arc(w2, y, x) || true);
        } else if x == cur && y == p {
            assert(edge_index(x, y) != edge_index(p, cur)) by {
                if edge_index(x, y) == edge_index(p, cur) {
                    lemma_edge_index_inj(x, y, p, cur);
                }
            }
            if walk_arc(w2, x, y) {
                let j = choose|j: int| 0 <= j < w2.len() - 1 && #[trigger] w2[j] == y && w2[j + 1] == x;
                assert(w2[j] == p);
                assert(j == w.len() as int);
            }
            assert(fl2.flow(x, y) == -1);
        } else {
            assert(edge_index(x, y) != edge_index(p, cur)) by {
                if edge_index(x, y) == edge_index(p, cur) {
                    lemma_edge_index_inj(x, y, p, cur);
                }
            }
            assert(edge_index(x, y) != edge_index(cur, p)) by {
                if edge_index(x, y) == edge_index(cur, p) {
                    lemma_edge_index_inj(x, y, cur, p);
                }
            }
            assert(walk_arc(w2, x, y) == walk_arc(w, x, y)) by {
                if walk_arc(w2, x, y) {
                    let j = choose|j: int| 0 <= j < w2.len() - 1 && #[trigger] w2[j] == y && w2[j + 1] == x;
                    if j == w.len() - 1 {
                        assert(w2[j + 1] == p);
                    }
                    assert(w[j] == y && w[j + 1] == x);
                }
                if walk_arc(w, x, y) {
                    let j = choose|j: int| 0 <= j < w.len() - 1 && #[trigger] w[j] == y && w[j + 1] == x;
                    assert(w2[j] == y && w2[j + 1] == x);
                }
            }
            assert(fl2.flow(x, y) == fl.flow(x, y));
            assert(walk_arc(w2, y, x) == walk_arc(w, y, x)) by {
                if walk_arc(w2, y, x) {
                    let j = choose|j: int| 0 <= j < w2.len() - 1 && #[trigger] w2[j] == x && w2[j + 1] == y;
                    if j == w.len() - 1 {
                        assert(w2[j + 1] == p);
                    }
                    assert(w[j] == x && w[j + 1] == y);
                }
                if walk_arc(w, y, x) {
                    let j = choose|j: int| 0 <= j < w.len() - 1 && #[trigger] w[j] == x && w[j + 1] == y;
                    assert(w2[j] == x && w2[j + 1] == y);
                }
            }
        }
    }
}

/// Given a board state, the maximum flow from the king's square to a corner
/// through empty and defender-held squares, with unit capacities, counted up
/// to 2: the search stops as soon as two routes are found.
/// The walk back from the corner along the search tree ends at the king
proof fn lemma_walk_ends(b: Seq<Space>, king: Square, corner: Square, pred: Seq<Option<Square>>, dist: Seq<int>, cur: Square, steps: int)
    requires
        pred_tree(b, king, pred, dist),
        count_some(pred) <= 121,
        in_bounds(cur),
        in_bounds(corner),
        (steps < 121 && pred[sq_index(cur)] is None) || steps == 121,
        cur == king || pred[sq_index(cur)] is Some,
        pred[sq_index(corner)] is Some,
        dist[sq_index(cur)] == dist[sq_index(corner)] - steps,
    ensures
        cur == king,
{
    reveal(pred_tree);
    lemma_index_sq_at(cur);
    lemma_index_sq_at(corner);
    if cur != king {
        assert(tree_link(b, king, pred, dist, sq_index(cur)));
        assert(tree_link(b, king, pred, dist, sq_index(corner)));
    }
}

proof fn lemma_back_path_intro(b: Seq<Space>, w: Seq<Square>, king: Square, corner: Square)
    requires
        w.len() >= 2,
        w[0] == corner,
        w[w.len() - 1] == king,
        forall|j: int| 0 <= j < w.len() ==> in_bounds(#[trigger] w[j]),
        forall|j: int| 0 <= j < w.len() - 1 ==> arc(b, w[j + 1], #[trigger] w[j]),
        forall|i: int, j: int| 0 <= i < j < w.len() ==> w[i] != w[j],
    ensures
        back_path(b, w, king, corner),
{
    reveal(back_path);
}

#[verifier::rlimit(100)]
pub fn edmonds_karp(board: &Board, king: Square, corner: Square) -> (r: u8)
    requires
        in_bounds(king),
        in_bounds(corner),
        cell(board@, king) == Space::King,
    ensures
        r as int == capped_flow(board@, king, corner),
        r == 0 <==> corner == king || !passable_path(board@, king, corner),
{
    let mut flow_total: u32 = 0;
    let mut flow = EdgeFlows::new();
    let ghost mut w_first: Seq<Square> = Seq::empty();
    proof {
        lemma_zero_flow_reaches(board@, &flow, king, corner);
        lemma_index_sq_at(corner);
    }
    loop
        invariant
            flow_total < 2,
            in_bounds(king),
            in_bounds(corner),
            cell(board@, king) == Space::King,
            flows_bounded(flow.flow_seq(), flow_total * 65536),
            flow_total == 0 ==> flow.flow_seq().len() == 14641 && forall|e: int| 0 <= e < 14641 ==> #[trigger] flow.flow_seq()[e] == 0,
            flow_total == 0 ==> (residual_reaches(board@, &flow, king, corner) == passable_path(board@, king, corner)),
            flow_total > 0 ==> corner != king && passable_path(board@, king, corner),
            flow_total == 1 ==> back_path(board@, w_first, king, corner) && flow_along(&flow, w_first),
        ensures
            flow_total < 2,
            flow_total == 0 ==> corner == king || !passable_path(board@, king, corner),
            flow_total > 0 ==> corner != king && passable_path(board@, king, corner),
            flow_total == 1 ==> single_arc_cut(board@, king, corner),
        decreases 2 - flow_total,
    {
        let (pred, Ghost(dist)) = residual_search(board, king, corner, &flow);
        proof {
            lemma_index_sq_at(corner);
        }
        if !pred.contains_key(&corner) {
            proof {
                if flow_total == 0 {
                    assert(corner == king || !residual_reaches(board@, &flow, king, corner));
                    assert(corner == king || !passable_path(board@, king, corner));
                } else {
                    assert(!residual_reaches(board@, &flow, king, corner));
                    let s = choose|s: Set<Square>| #[trigger] residual_closed(board@, &flow, s) && s.contains(king) && !s.contains(corner);
                    lemma_one_unit_cut(board@, &flow, w_first, s, king, corner);
                }
            }
            break;
        }
        proof {
            if flow_total == 0 {
                assert(corner != king && passable_path(board@, king, corner));
            } else {
                lemma_no_single_cut(board@, &flow, w_first, king, corner);
            }
            reveal(pred_tree);
        }
        // how much flow can be sent along this path
        let mut delta: i64 = 255;
        let mut cur = corner;
        let mut steps: usize = 0;
        while steps < 121
            invariant
                1 <= delta <= 255,
                in_bounds(cur),
                pred_ok(pred.entries(), &flow),
                flows_bounded(flow.flow_seq(), flow_total * 65536),
                pred.entries()[sq_index(corner)] is Some,
                flow_total == 0 ==> (steps == 0 ==> cur == corner && delta == 255) && (steps > 0 ==> delta == 1),
                flow_total == 0 ==> flow.flow_seq().len() == 14641 && forall|e: int| 0 <= e < 14641 ==> #[trigger] flow.flow_seq()[e] == 0,
            ensures
                1 <= delta <= 255,
                flow_total == 0 ==> delta == 1,
            decreases 121 - steps,
        {
            proof {
                lemma_index_sq_at(cur);
            }
            match pred.get(&cur) {
                Some(p) => {
                    let current_flow = flow.get(&[p, cur]);
                    proof {
                        if flow_total == 0 {
                            lemma_edge_index_range(p, cur);
                        }
                    }
                    if 1 - current_flow < delta {
                        delta = 1 - current_flow;
                    }
                    cur = p;
                },
                None => {
                    break;
                },
            }
            steps += 1;
        }
        // update the flow by the computed amount
        let mut cur = corner;
        let mut steps: usize = 0;
        let ghost mut w: Seq<Square> = seq![corner];
        proof {
            lemma_count_some_bound(pred.entries());
            assert(flow_total == 0 ==> flow_along(&flow, w)) by {
                reveal(flow_along);
                if flow_total == 0 {
                    assert forall|x: Square, y: Square| in_bounds(x) && in_bounds(y) implies #[trigger] flow.flow(x, y) == (if walk_arc(w, x, y) {
                        1i64
                    } else if walk_arc(w, y, x) {
                        -1i64
                    } else {
                        0i64
                    }) by {
                        lemma_edge_index_range(x, y);
                    }
                }
            }
        }
        while steps < 121
            invariant
                1 <= delta <= 255,
                in_bounds(cur),
                in_bounds(king),
                in_bounds(corner),
                0 <= steps <= 121,
                forall|i: int| 0 <= i < 121 && (#[trigger] pred.entries()[i]) is Some ==> in_bounds(pred.entries()[i].unwrap()),
                pred.entries().len() == 121,
                flows_bounded(flow.flow_seq(), flow_total * 65536 + steps * 512),
                pred_tree(board@, king, pred.entries(), dist),
                count_some(pred.entries()) <= 121,
                flow_total == 0 ==> delta == 1,
                flow_total == 0 ==> w.len() == steps + 1 && w[0] == corner && w[w.len() - 1] == cur,
                flow_total == 0 ==> forall|j: int| 0 <= j < w.len() ==> in_bounds(#[trigger] w[j])
                    && dist[sq_index(w[j])] == dist[sq_index(corner)] - j
                    && (w[j] == king || pred.entries()[sq_index(w[j])] is Some),
                flow_total == 0 ==> forall|j: int| 0 <= j < w.len() - 1 ==> arc(board@, w[j + 1], #[trigger] w[j]),
                flow_total == 0 ==> forall|i: int, j: int| 0 <= i < j < w.len() ==> w[i] != w[j],
                flow_total == 0 ==> flow_along(&flow, w),
                flow_total == 0 ==> corner != king,
            ensures
                flows_bounded(flow.flow_seq(), flow_total * 65536 + steps * 512),
                0 <= steps <= 121,
                in_bounds(cur),
                flow_total == 0 ==> (steps < 121 && pred.entries()[sq_index(cur)] is None) || steps == 121,
                flow_total == 0 ==> w.len() == steps + 1 && w[0] == corner && w[w.len() - 1] == cur,
                flow_total == 0 ==> forall|j: int| 0 <= j < w.len() ==> in_bounds(#[trigger] w[j])
                    && dist[sq_index(w[j])] == dist[sq_index(corner)] - j
                    && (w[j] == king || pred.entries()[sq_index(w[j])] is Some),
                flow_total == 0 ==> forall|j: int| 0 <= j < w.len() - 1 ==> arc(board@, w[j + 1], #[trigger] w[j]),
                flow_total == 0 ==> forall|i: int, j: int| 0 <= i < j < w.len() ==> w[i] != w[j],
                flow_total == 0 ==> flow_along(&flow, w),
                flow_total == 0 ==> corner != king,
            decreases 121 - steps,
        {
            proof {
                lemma_index_sq_at(cur);
                reveal(pred_tree);
            }
            match pred.get(&cur) {
                Some(p) => {
                    let ghost fl0 = flow;
                    proof {
                        if flow_total == 0 {
                            assert(tree_link(board@, king, pred.entries(), dist, sq_index(cur)));
                            lemma_index_sq_at(p);
                            assert(forall|j: int| 0 <= j < w.len() ==> #[trigger] w[j] != p) by {
                                assert forall|j: int| 0 <= j < w.len() implies #[trigger] w[j] != p by {
                                    assert(dist[sq_index(w[j])] == dist[sq_index(corner)] - j);
                                }
                            }
                            lemma_edge_index_range(p, cur);
                            lemma_edge_index_range(cur, p);
                            reveal(flow_along);
                            assert(walk_arc(w, p, cur) == false) by {
                                if walk_arc(w, p, cur) {
                                    let j = choose|j: int| 0 <= j < w.len() - 1 && #[trigger] w[j] == cur && w[j + 1] == p;
                                }
                            }
                            assert(walk_arc(w, cur, p) == false) by {
                                if walk_arc(w, cur, p) {
                                    let j = choose|j: int| 0 <= j < w.len() - 1 && #[trigger] w[j] == p && w[j + 1] == cur;
                                }
                            }
                            assert(flow.flow(p, cur) == 0);
                            assert(flow.flow(cur, p) == 0);
                        }
                    }
                    let current_flow = flow.get(&[p, cur]);
                    flow.insert([p, cur], current_flow + delta);
                    let rev_flow = flow.get(&[cur, p]);
                    flow.insert([cur, p], rev_flow - delta);
                    proof {
                        if flow_total == 0 {
                            assert(edge_index(cur, p) != edge_index(p, cur)) by {
                                if edge_index(cur, p) == edge_index(p, cur) {
                                    lemma_edge_index_inj(cur, p, p, cur);
                                }
                            }
                            assert(flow.flow_seq() =~= fl0.flow_seq().update(edge_index(p, w[w.len() - 1]), 1i64).update(edge_index(w[w.len() - 1], p), -1i64));
                            lemma_flow_push(&fl0, &flow, w, p);
                            let w2 = w.push(p);
                            assert(forall|j: int| 0 <= j < w2.len() - 1 ==> arc(board@, w2[j + 1], #[trigger] w2[j])) by {
                                assert forall|j: int| 0 <= j < w2.len() - 1 implies arc(board@, w2[j + 1], #[trigger] w2[j]) by {
                                    if j == w.len() - 1 {
                                        assert(w2[j] == cur && w2[j + 1] == p);
                                        assert(sq_at(sq_index(cur)) == cur);
                                    } else {
                                        assert(w2[j] == w[j] && w2[j + 1] == w[j + 1]);
                                    }
                                }
                            }
                            w = w2;
                        }
                    }
                    cur = p;
                },
                None => {
                    break;
                },
            }
            steps += 1;
        }
        proof {
            if flow_total == 0 {
                let last = w.len() - 1;
                assert(w[last] == cur);
                assert(in_bounds(w[last]));
                assert(in_bounds(w[0]));
                lemma_index_sq_at(corner);
                lemma_walk_ends(board@, king, corner, pred.entries(), dist, cur, steps as int);
                assert(w.len() >= 2);
                lemma_back_path_intro(board@, w, king, corner);
                w_first = w;
            }
        }
        assert(flows_bounded(flow.flow_seq(), (flow_total + 1) * 65536)) by {
            assert forall|e: int| 0 <= e < 14641 implies -((flow_total + 1) * 65536) <= #[trigger] flow.flow_seq()[e] <= (flow_total + 1) * 65536 by {
                assert(-(flow_total * 65536 + steps * 512) <= flow.flow_seq()[e] <= flow_total * 65536 + steps * 512);
            }
        }
        flow_total = flow_total + delta as u32;
        if flow_total >= 2 {
            return 2;
        }
        proof {
            lemma_index_sq_at(corner);
        }
        assert(flows_bounded(flow.flow_seq(), flow_total * 65536));
    }
    flow_total as u8
}

/// The capped flows from `k` to the first `n` corners, added up
pub open spec fn capped_sum(b: Seq<Space>, k: Square, n: int) -> int
    decreases n,
{
    if n <= 0 {
        0
    } else {
        capped_sum(b, k, n - 1) + capped_flow(b, k, exit_seq()[n - 1])
    }
}

/// The escape-route count: the capped flows from the king to the four
/// corners, added up; 0 without a king
pub open spec fn escape_routes_spec(b: Seq<Space>) -> int {
    match king_square(b) {
        Some(k) => capped_sum(b, k, 4),
        None => 0,
    }
}

/// Given a board state, the maximum flow from the king's position to each
/// of the four corners, each counted up to 2: a value between 0 and 8.
pub fn escape_routes(board: &Board) -> (r: u8)
    ensures
        r as int == escape_routes_spec(board@),
        r <= 8,
        king_square(board@) is None ==> r == 0,
        king_square(board@) matches Some(k) ==> (r == 0 <==> forall|j: int|
            0 <= j < 4 ==> k == #[trigger] exit_seq()[j] || !passable_path(board@, k, exit_seq()[j])),
{
    let king = match board.find_the_king() {
        Some(k) => k,
        None => {
            return 0;
        },
    };
    let corners = exit_squares();
    let mut total: u8 = 0;
    let mut k: usize = 0;
    while k < 4
        invariant
            0 <= k <= 4,
            total <= 2 * k,
            in_bounds(king),
            cell(board@, king) == Space::King,
            king_square(board@) == Some(king),
            corners@ == exit_seq(),
            total as int == capped_sum(board@, king, k as int),
            total == 0 <==> forall|j: int| 0 <= j < k ==> king == #[trigger] exit_seq()[j] || !passable_path(board@, king, exit_seq()[j]),
        decreases 4 - k,
    {
        total = total + edmonds_karp(board, king, corners[k]);
        k += 1;
    }
    total
}

/// A set of squares that no step leaves towards an empty square
pub open spec fn empty_closed(b: Seq<Space>, s: Set<Square>) -> bool {
    forall|sq: Square, d: Dir|
        #[trigger] s.contains(sq) && in_bounds(sq) && (#[trigger] step_spec(sq, d) matches Some(n)
            && cell(b, n) == Space::Empty) ==> s.contains(step_spec(sq, d).unwrap())
}

/// A path of empty squares leads from `from` to an exit square other than `from`
pub open spec fn exit_reachable(b: Seq<Space>, from: Square) -> bool {
    forall|s: Set<Square>| #[trigger] empty_closed(b, s) && s.contains(from) ==> exists|e: Square|
        #[trigger] s.contains(e) && is_exit_spec(e) && e != from
}

/// Every empty neighbour of `sq` has been found
pub open spec fn escape_done(b: Seq<Space>, sq: Square, d: Dir, pred: Seq<Option<Square>>) -> bool {
    step_spec(sq, d) matches Some(n) ==> (cell(b, n) == Space::Empty ==> pred[sq_index(n)] is Some)
}

/// The state of the breadth-first search for an exit: `q` lists the king
/// and the non-exit squares found, in order; those before `head` are expanded
#[verifier::opaque]
pub open spec fn escape_inv(b: Seq<Space>, king: Square, pred: Seq<Option<Square>>, q: Seq<Square>, head: int) -> bool {
    &&& pred.len() == 121
    &&& 0 <= head <= q.len()
    &&& q.len() <= count_some(pred) + 1
    &&& q.len() > 0 && q[0] == king
    &&& pred[sq_index(king)] is None
    &&& forall|i: int| 0 <= i < 121 && (#[trigger] pred[i]) is Some ==> in_bounds(pred[i].unwrap())
    &&& forall|k: int| 0 <= k < q.len() ==> in_bounds(#[trigger] q[k])
    &&& forall|k: int| 1 <= k < q.len() ==> !is_exit_spec(#[trigger] q[k])
    &&& forall|i: int| 0 <= i < 121 && (#[trigger] pred[i]) is Some ==> q.contains(sq_at(i))
    &&& forall|k: int, d: Dir| 0 <= k < head ==> #[trigger] escape_done(b, q[k], d, pred)
    &&& forall|s: Set<Square>| #[trigger] empty_closed(b, s) && s.contains(king) ==> forall|k: int|
        0 <= k < q.len() ==> s.contains(#[trigger] q[k])
}

pub proof fn lemma_escape_inv_facts(b: Seq<Space>, king: Square, pred: Seq<Option<Square>>, q: Seq<Square>, head: int)
    requires
        escape_inv(b, king, pred, q, head),
    ensures
        pred.len() == 121,
        0 <= head <= q.len(),
        q.len() <= count_some(pred) + 1,
        forall|k: int| 0 <= k < q.len() ==> in_bounds(#[trigger] q[k]),
        forall|i: int| 0 <= i < 121 && (#[trigger] pred[i]) is Some ==> in_bounds(pred[i].unwrap()),
{
    reveal(escape_inv);
}

/// `q` is reached from `from` in exactly `n` steps onto empty squares
pub open spec fn reach_in(b: Seq<Space>, from: Square, q: Square, n: nat) -> bool
    decreases n,
{
    if n == 0 {
        q == from
    } else {
        exists|p: Square, d: Dir| #![trigger step_spec(p, d)] reach_in(b, from, p, (n - 1) as nat) && in_bounds(p) && step_spec(p, d) == Some(q)
            && cell(b, q) == Space::Empty
    }
}

pub proof fn lemma_reach_step(b: Seq<Space>, from: Square, p: Square, d: Dir, q: Square, n: nat)
    requires
        reach_in(b, from, p, n),
        in_bounds(p),
        step_spec(p, d) == Some(q),
        cell(b, q) == Space::Empty,
    ensures
        reach_in(b, from, q, n + 1),
{
    reveal_with_fuel(reach_in, 2);
    assert(((n + 1) - 1) as nat == n);
    assert(reach_in(b, from, p, ((n + 1) - 1) as nat) && in_bounds(p) && step_spec(p, d) == Some(q) && cell(b, q) == Space::Empty);
}

pub proof fn lemma_reach_back(b: Seq<Space>, from: Square, q: Square, n: nat)
    requires
        reach_in(b, from, q, n),
        n >= 1,
    ensures
        exists|p: Square, d: Dir| #![trigger step_spec(p, d)] reach_in(b, from, p, (n - 1) as nat) && in_bounds(p) && step_spec(p, d) == Some(q)
            && cell(b, q) == Space::Empty,
{
    reveal_with_fuel(reach_in, 2);
}

/// `n` steps onto empty squares reach an exit from `from`, and no fewer do
pub open spec fn least_escape(b: Seq<Space>, from: Square, n: nat) -> bool {
    &&& exists|e: Square| is_exit_spec(e) && e != from && #[trigger] reach_in(b, from, e, n)
    &&& forall|e: Square, m: nat| is_exit_spec(e) && e != from && m < n ==> !#[trigger] reach_in(b, from, e, m)
}

/// The squares found so far, with their depths: each found square is in
/// the queue or is the king, its depth is a number of steps that reaches
/// it, depths rise along the queue by at most one beyond the current
/// square, and every square within the current depth has been found
#[verifier::opaque]
pub open spec fn bfs_layers(b: Seq<Space>, king: Square, pred: Seq<Option<Square>>, q: Seq<Square>, head: int, dist: Seq<int>) -> bool {
    &&& dist.len() == 121
    &&& dist[sq_index(king)] == 0
    &&& forall|k: int| 0 <= k < q.len() ==> dist[sq_index(#[trigger] q[k])] >= 0 && reach_in(b, king, q[k], dist[sq_index(q[k])] as nat)
    &&& forall|k: int| 1 <= k < q.len() ==> (#[trigger] pred[sq_index(q[k])]) is Some
    &&& forall|i: int| 0 <= i < 121 && (#[trigger] pred[i]) is Some ==> 1 <= dist[i] <= count_some(pred)
        && dist[i] == dist[sq_index(pred[i].unwrap())] + 1 && (pred[i].unwrap() == king || pred[sq_index(pred[i].unwrap())] is Some)
    &&& forall|i: int, j: int| 0 <= i < j < q.len() ==> dist[sq_index(#[trigger] q[i])] <= dist[sq_index(#[trigger] q[j])]
    &&& head < q.len() ==> forall|j: int| 0 <= j < q.len() ==> dist[sq_index(#[trigger] q[j])] <= dist[sq_index(q[head])] + 1
    &&& head < q.len() ==> forall|y: Square, m: nat| in_bounds(y) && #[trigger] reach_in(b, king, y, m) && m <= dist[sq_index(q[head])] ==> (y == king
        || pred[sq_index(y)] is Some) && dist[sq_index(y)] <= m
}

pub proof fn lemma_layers_start(b: Seq<Space>, king: Square, pred: Seq<Option<Square>>, q: Seq<Square>, dist: Seq<int>)
    requires
        in_bounds(king),
        pred.len() == 121,
        forall|i: int| 0 <= i < 121 ==> pred[i] is None,
        q == seq![king],
        dist == Seq::new(121, |i: int| 0int),
    ensures
        bfs_layers(b, king, pred, q, 0, dist),
{
    reveal(bfs_layers);
    lemma_index_sq_at(king);
    assert(reach_in(b, king, king, 0));
    assert forall|y: Square, m: nat| in_bounds(y) && #[trigger] reach_in(b, king, y, m) && m <= dist[sq_index(q[0])] implies (y == king
        || pred[sq_index(y)] is Some) && dist[sq_index(y)] <= m by {
        lemma_index_sq_at(y);
    }
}

pub proof fn lemma_layers_push(b: Seq<Space>, king: Square, pred: Seq<Option<Square>>, q: Seq<Square>, head: int, dist: Seq<int>, n: Square, dn: Dir)
    requires
        bfs_layers(b, king, pred, q, head, dist),
        escape_inv(b, king, pred, q, head),
        0 <= head < q.len(),
        in_bounds(n),
        step_spec(q[head], dn) == Some(n),
        cell(b, n) == Space::Empty,
        cell(b, king) == Space::King,
        pred[sq_index(n)] is None,
        q[head] == king || pred[sq_index(q[head])] is Some,
    ensures
        bfs_layers(b, king, pred.update(sq_index(n), Some(q[head])), q.push(n), head,
            dist.update(sq_index(n), dist[sq_index(q[head])] + 1)),
{
    reveal(bfs_layers);
    reveal(escape_inv);
    let u = q[head];
    let ix = sq_index(n);
    let p2 = pred.update(ix, Some(u));
    let q2 = q.push(n);
    let d2 = dist.update(ix, dist[sq_index(u)] + 1);
    lemma_index_sq_at(n);
    lemma_index_sq_at(u);
    lemma_index_sq_at(king);
    lemma_count_some_update(pred, ix, u);
    assert(n != king);
    // n is not in the queue: every queue square is the king or found
    assert forall|k: int| 0 <= k < q.len() implies sq_index(#[trigger] q[k]) != ix by {
        lemma_index_sq_at(q[k]);
        if sq_index(q[k]) == ix {
            assert(q[k] == n);
            if k == 0 {
                assert(q[0] == king);
            } else {
                assert(pred[sq_index(q[k])] is Some) by {
                    assert(in_bounds(q[k]));
                }
            }
        }
    }
    assert(reach_in(b, king, n, (dist[sq_index(u)] + 1) as nat)) by {
        assert(dist[sq_index(q[head])] >= 0);
        assert(reach_in(b, king, u, dist[sq_index(u)] as nat));
        assert(in_bounds(u));
        lemma_reach_step(b, king, u, dn, n, dist[sq_index(u)] as nat);
    }
    assert forall|k: int| 0 <= k < q2.len() implies d2[sq_index(#[trigger] q2[k])] >= 0 && reach_in(b, king, q2[k], d2[sq_index(q2[k])] as nat) by {
        if k < q.len() {
            assert(q2[k] == q[k]);
        }
    }
    assert forall|k: int| 1 <= k < q2.len() implies (#[trigger] p2[sq_index(q2[k])]) is Some by {
        if k < q.len() {
            assert(q2[k] == q[k]);
        }
    }
    assert forall|i: int| 0 <= i < 121 && (#[trigger] p2[i]) is Some implies 1 <= d2[i] <= count_some(p2)
        && d2[i] == d2[sq_index(p2[i].unwrap())] + 1 && (p2[i].unwrap() == king || p2[sq_index(p2[i].unwrap())] is Some) by {
        if i == ix {
            if u != king {
                assert(dist[sq_index(u)] <= count_some(pred));
            }
        } else {
            let p = pred[i].unwrap();
            lemma_index_sq_at(p);
            if sq_index(p) == ix {
                assert(p == n);
                assert(p != king);
                assert(pred[sq_index(p)] is Some);
            }
        }
    }
    assert forall|i: int, j: int| 0 <= i < j < q2.len() implies d2[sq_index(#[trigger] q2[i])] <= d2[sq_index(#[trigger] q2[j])] by {
        if j == q.len() {
            assert(q2[i] == q[i]);
            assert(dist[sq_index(q[i])] <= dist[sq_index(u)] + 1);
        } else {
            assert(q2[i] == q[i] && q2[j] == q[j]);
        }
    }
    assert forall|j: int| 0 <= j < q2.len() implies d2[sq_index(#[trigger] q2[j])] <= d2[sq_index(q2[head])] + 1 by {
        if j < q.len() {
            assert(q2[j] == q[j]);
        }
        assert(q2[head] == u);
    }
    assert forall|y: Square, m: nat| in_bounds(y) && #[trigger] reach_in(b, king, y, m) && m <= d2[sq_index(q2[head])] implies (y == king
        || p2[sq_index(y)] is Some) && d2[sq_index(y)] <= m by {
        assert(q2[head] == u);
        lemma_index_sq_at(y);
        assert((y == king || pred[sq_index(y)] is Some) && dist[sq_index(y)] <= m);
        if sq_index(y) == ix {
            assert(y == n);
        }
    }
}

proof fn lemma_layer_extend(b: Seq<Space>, king: Square, pred: Seq<Option<Square>>, q: Seq<Square>, head: int, dist: Seq<int>, y: Square, m: nat)
    requires
        0 <= head < q.len(),
        q[0] == king,
        in_bounds(y),
        m >= 1,
        m == dist[sq_index(q[head])] + 1,
        reach_in(b, king, y, m),
        forall|p: Square, mm: nat| in_bounds(p) && #[trigger] reach_in(b, king, p, mm) && mm <= dist[sq_index(q[head])] ==> (p == king
            || pred[sq_index(p)] is Some) && dist[sq_index(p)] <= mm,
        forall|i: int| 0 <= i < 121 && (#[trigger] pred[i]) is Some ==> q.contains(sq_at(i)),
        forall|k: int| 0 <= k < q.len() ==> in_bounds(#[trigger] q[k]),
        forall|k: int, d: Dir| 0 <= k <= head ==> #[trigger] escape_done(b, q[k], d, pred),
        forall|i: int, j: int| 0 <= i < j < q.len() ==> dist[sq_index(#[trigger] q[i])] <= dist[sq_index(#[trigger] q[j])],
        head + 1 < q.len() ==> dist[sq_index(q[head + 1])] == m,
        forall|j: int| 0 <= j < q.len() ==> dist[sq_index(#[trigger] q[j])] <= dist[sq_index(q[head])] + 1,
        pred.len() == 121,
    ensures
        (y == king || pred[sq_index(y)] is Some) && dist[sq_index(y)] <= m,
{
    lemma_reach_back(b, king, y, m);
    let (p, d) = choose|p: Square, d: Dir| #![trigger step_spec(p, d)] reach_in(b, king, p, (m - 1) as nat) && in_bounds(p) && step_spec(p, d) == Some(y)
        && cell(b, y) == Space::Empty;
    assert((p == king || pred[sq_index(p)] is Some) && dist[sq_index(p)] <= m - 1);
    lemma_index_sq_at(p);
    let kp = if p == king {
        0
    } else {
        assert(q.contains(sq_at(sq_index(p))));
        choose|k: int| 0 <= k < q.len() && q[k] == p
    };
    assert(q[kp] == p);
    if kp > head {
        assert(dist[sq_index(q[head + 1])] <= dist[sq_index(q[kp])]);
    }
    assert(escape_done(b, q[kp], d, pred));
    lemma_index_sq_at(y);
    if y != king {
        assert(pred[sq_index(y)] is Some);
        assert(q.contains(sq_at(sq_index(y))));
        let ky = choose|k: int| 0 <= k < q.len() && q[k] == sq_at(sq_index(y));
        assert(dist[sq_index(q[ky])] <= dist[sq_index(q[head])] + 1);
    }
}

pub proof fn lemma_layers_advance(b: Seq<Space>, king: Square, pred: Seq<Option<Square>>, q: Seq<Square>, head: int, dist: Seq<int>)
    requires
        bfs_layers(b, king, pred, q, head, dist),
        escape_inv(b, king, pred, q, head + 1),
        0 <= head < q.len(),
    ensures
        bfs_layers(b, king, pred, q, head + 1, dist),
{
    reveal(bfs_layers);
    reveal(escape_inv);
    if head + 1 < q.len() {
        let dd = dist[sq_index(q[head])];
        let d1 = dist[sq_index(q[head + 1])];
        assert(dd <= d1);
        assert(d1 <= dd + 1);
        assert forall|y: Square, m: nat| in_bounds(y) && #[trigger] reach_in(b, king, y, m) && m <= d1 implies (y == king
            || pred[sq_index(y)] is Some) && dist[sq_index(y)] <= m by {
            if m > dd {
                assert(dd >= 0);
                lemma_layer_extend(b, king, pred, q, head, dist, y, m);
            }
        }
    }
}

/// Each found square is one step deeper than the square it was found from
pub open spec fn walk_links(king: Square, pred: Seq<Option<Square>>, dist: Seq<int>) -> bool {
    &&& pred.len() == 121
    &&& dist.len() == 121
    &&& dist[sq_index(king)] == 0
    &&& pred[sq_index(king)] is None
    &&& count_some(pred) <= 121
    &&& forall|i: int| 0 <= i < 121 && (#[trigger] pred[i]) is Some ==> 1 <= dist[i] <= count_some(pred)
        && dist[i] == dist[sq_index(pred[i].unwrap())] + 1 && (pred[i].unwrap() == king || pred[sq_index(pred[i].unwrap())] is Some)
}

pub proof fn lemma_layers_found(b: Seq<Space>, king: Square, pred: Seq<Option<Square>>, q: Seq<Square>, head: int, dist: Seq<int>, n: Square, dn: Dir)
    requires
        bfs_layers(b, king, pred, q, head, dist),
        escape_inv(b, king, pred, q, head),
        0 <= head < q.len(),
        in_bounds(n),
        in_bounds(king),
        step_spec(q[head], dn) == Some(n),
        cell(b, n) == Space::Empty,
        cell(b, king) == Space::King,
        is_exit_spec(n),
        pred[sq_index(n)] is None,
    ensures
        least_escape(b, king, (dist[sq_index(q[head])] + 1) as nat),
        walk_links(king, pred.update(sq_index(n), Some(q[head])), dist.update(sq_index(n), dist[sq_index(q[head])] + 1)),
{
    reveal(bfs_layers);
    reveal(escape_inv);
    let u = q[head];
    let ix = sq_index(n);
    let p2 = pred.update(ix, Some(u));
    let d2 = dist.update(ix, dist[sq_index(u)] + 1);
    lemma_index_sq_at(n);
    lemma_index_sq_at(king);
    lemma_count_some_update(pred, ix, u);
    lemma_count_some_bound(p2);
    assert(n != king);
    assert(dist[sq_index(q[head])] >= 0);
    lemma_reach_step(b, king, u, dn, n, dist[sq_index(u)] as nat);
    assert forall|e: Square, m: nat| is_exit_spec(e) && e != king && m < (dist[sq_index(q[head])] + 1) as nat implies !#[trigger] reach_in(b, king, e, m) by {
        if reach_in(b, king, e, m) {
            assert(in_bounds(e));
            assert(pred[sq_index(e)] is Some);
            lemma_index_sq_at(e);
            assert(q.contains(sq_at(sq_index(e))));
            let k = choose|k: int| 0 <= k < q.len() && q[k] == e;
            assert(k != 0);
        }
    }
    if head > 0 {
        assert(pred[sq_index(q[head])] is Some);
    }
    assert forall|i: int| 0 <= i < 121 && (#[trigger] p2[i]) is Some implies 1 <= d2[i] <= count_some(p2)
        && d2[i] == d2[sq_index(p2[i].unwrap())] + 1 && (p2[i].unwrap() == king || p2[sq_index(p2[i].unwrap())] is Some) by {
        if i == ix {
            if u != king {
                assert(dist[sq_index(u)] <= count_some(pred));
                lemma_index_sq_at(u);
            }
        } else {
            let p = pred[i].unwrap();
            if p != king {
                assert(pred[sq_index(p)] is Some);
            }
            if sq_index(p) == ix {
                assert(pred[sq_index(p)] is None || p == king);
            }
        }
    }
}

/// Breadth-first search through empty squares from the king for an exit:
/// the predecessors found, and the exit square if one was reached
fn escape_search(board: &Board, king: Square) -> (r: (SquareMap<Square>, Option<Square>, Ghost<Seq<int>>))
    requires
        in_bounds(king),
        cell(board@, king) == Space::King,
    ensures
        r.1 matches Some(e) ==> least_escape(board@, king, r.2@[sq_index(e)] as nat) && walk_links(king, r.0.entries(), r.2@),
        r.0.entries().len() == 121,
        forall|i: int| 0 <= i < 121 && (#[trigger] r.0.entries()[i]) is Some ==> in_bounds(r.0.entries()[i].unwrap()),
        r.1 matches Some(e) ==> in_bounds(e) && r.0.entries()[sq_index(e)] is Some,
        r.1 is Some <==> exit_reachable(board@, king),
{
    let mut pred: SquareMap<Square> = SquareMap::new();
    let mut queue: Vec<Square> = Vec::new();
    queue.push(king);
    proof {
        reveal(escape_inv);
        assert(pred.entries() =~= Seq::new(121, |i: int| None::<Square>));
        lemma_count_some_none::<Square>(121);
        lemma_index_sq_at(king);
    }
    let ghost mut dist: Seq<int> = Seq::new(121, |i: int| 0int);
    proof {
        lemma_layers_start(board@, king, pred.entries(), queue@, dist);
    }
    let mut head: usize = 0;
    while head < queue.len()
        invariant
            escape_inv(board@, king, pred.entries(), queue@, head as int),
            bfs_layers(board@, king, pred.entries(), queue@, head as int, dist),
            in_bounds(king),
            cell(board@, king) == Space::King,
            head <= queue@.len(),
        decreases 122 - head,
    {
        proof {
            lemma_escape_inv_facts(board@, king, pred.entries(), queue@, head as int);
            lemma_count_some_bound(pred.entries());
        }
        let square = queue[head];
        let ns = get_neighbors(board, square, Passable::EmptyOnly);
        let ghost q0 = queue@;
        let ghost p0 = pred.entries();
        let mut k: usize = 0;
        while k < 4
            invariant
                0 <= k <= 4,
                head < q0.len(),
                head < queue@.len(),
                square == q0[head as int],
                in_bounds(square),
                cell(board@, king) == Space::King,
                ns@ == seq![
                    neighbor_spec(board@, square, Dir::Up, Passable::EmptyOnly),
                    neighbor_spec(board@, square, Dir::Left, Passable::EmptyOnly),
                    neighbor_spec(board@, square, Dir::Right, Passable::EmptyOnly),
                    neighbor_spec(board@, square, Dir::Down, Passable::EmptyOnly),
                ],
                escape_inv(board@, king, pred.entries(), queue@, head as int),
                bfs_layers(board@, king, pred.entries(), queue@, head as int, dist),
                in_bounds(king),
                queue@.len() >= q0.len(),
                forall|j: int| 0 <= j < q0.len() ==> queue@[j] == q0[j],
                p0.len() == 121,
                forall|i: int| 0 <= i < 121 && (#[trigger] p0[i]) is Some ==> pred.entries()[i] is Some,
                k > 0 ==> escape_done(board@, square, Dir::Up, pred.entries()),
                k > 1 ==> escape_done(board@, square, Dir::Left, pred.entries()),
                k > 2 ==> escape_done(board@, square, Dir::Right, pred.entries()),
                k > 3 ==> escape_done(board@, square, Dir::Down, pred.entries()),
            decreases 4 - k,
        {
            let ghost pk = pred.entries();
            if let Some(n) = ns[k] {
                proof {
                    reveal(escape_inv);
                    lemma_index_sq_at(n);
                }
                if !pred.contains_key(&n) {
                    let ghost d = if k == 0 { Dir::Up } else if k == 1 { Dir::Left } else if k == 2 { Dir::Right } else { Dir::Down };
                    assert(step_spec(square, d) == Some(n));
                    assert(queue@[head as int] == square);
                    if n.is_exit() {
                        proof {
                            lemma_escape_found(board@, king, pred.entries(), queue@, head as int, n, d);
                            lemma_escape_inv_facts(board@, king, pred.entries(), queue@, head as int);
                            assert(queue@[head as int] == square);
                            lemma_layers_found(board@, king, pred.entries(), queue@, head as int, dist, n, d);
                            let d0 = dist;
                            assert(d0.len() == 121) by {
                                reveal(bfs_layers);
                            }
                            lemma_index_sq_at(n);
                            lemma_index_sq_at(square);
                            dist = dist.update(sq_index(n), dist[sq_index(square)] + 1);
                            assert(dist[sq_index(n)] == d0[sq_index(queue@[head as int])] + 1);
                        }
                        pred.insert(n, square);
                        return (pred, Some(n), Ghost(dist));
                    }
                    proof {
                        reveal(bfs_layers);
                        if head > 0 {
                            assert(pred.entries()[sq_index(queue@[head as int])] is Some);
                        }
                        lemma_layers_push(board@, king, pred.entries(), queue@, head as int, dist, n, d);
                        lemma_escape_push(board@, king, pred.entries(), queue@, head as int, n, d);
                        dist = dist.update(sq_index(n), dist[sq_index(square)] + 1);
                    }
                    pred.insert(n, square);
                    queue.push(n);
                }
            }
            proof {
                reveal(escape_inv);
                assert forall|dd: Dir| escape_done(board@, square, dd, pk) implies escape_done(board@, square, dd, pred.entries()) by {
                    if let Some(m) = step_spec(square, dd) {
                        lemma_index_sq_at(m);
                    }
                }
            }
            k += 1;
        }
        proof {
            lemma_escape_advance(board@, king, pred.entries(), queue@, head as int);
            lemma_layers_advance(board@, king, pred.entries(), queue@, head as int, dist);
        }
        head += 1;
    }
    proof {
        lemma_escape_end(board@, king, pred.entries(), queue@);
        lemma_escape_inv_facts(board@, king, pred.entries(), queue@, head as int);
    }
    (pred, None, Ghost(dist))
}

pub proof fn lemma_escape_found(b: Seq<Space>, king: Square, pred: Seq<Option<Square>>, q: Seq<Square>, head: int, n: Square, dn: Dir)
    requires
        escape_inv(b, king, pred, q, head),
        0 <= head < q.len(),
        step_spec(q[head], dn) == Some(n),
        cell(b, n) == Space::Empty,
        cell(b, king) == Space::King,
        is_exit_spec(n),
    ensures
        exit_reachable(b, king),
{
    reveal(escape_inv);
    assert forall|s: Set<Square>| #[trigger] empty_closed(b, s) && s.contains(king) implies exists|e: Square|
        #[trigger] s.contains(e) && is_exit_spec(e) && e != king by {
        assert(s.contains(q[head]));
        assert(s.contains(n));
    }
}

pub proof fn lemma_escape_push(b: Seq<Space>, king: Square, pred: Seq<Option<Square>>, q: Seq<Square>, head: int, n: Square, dn: Dir)
    requires
        escape_inv(b, king, pred, q, head),
        0 <= head < q.len(),
        in_bounds(n),
        cell(b, king) == Space::King,
        step_spec(q[head], dn) == Some(n),
        cell(b, n) == Space::Empty,
        !is_exit_spec(n),
        pred[sq_index(n)] is None,
    ensures
        escape_inv(b, king, pred.update(sq_index(n), Some(q[head])), q.push(n), head),
{
    reveal(escape_inv);
    let ix = sq_index(n);
    let p2 = pred.update(ix, Some(q[head]));
    let q2 = q.push(n);
    lemma_count_some_update(pred, ix, q[head]);
    lemma_index_sq_at(n);
    lemma_index_sq_at(king);
    assert(n != king);
    assert forall|i: int| 0 <= i < 121 && (#[trigger] p2[i]) is Some implies q2.contains(sq_at(i)) by {
        if i != ix {
            assert(q.contains(sq_at(i)));
            let k = choose|k: int| 0 <= k < q.len() && q[k] == sq_at(i);
            assert(q2[k] == sq_at(i));
        } else {
            assert(q2[q.len() as int] == sq_at(i));
        }
    }
    assert forall|k: int| 1 <= k < q2.len() implies !is_exit_spec(#[trigger] q2[k]) by {
        if k < q.len() {
            assert(q2[k] == q[k]);
        }
    }
    assert forall|k: int| 0 <= k < q2.len() implies in_bounds(#[trigger] q2[k]) by {
        if k < q.len() {
            assert(q2[k] == q[k]);
        }
    }
    assert forall|k: int, d: Dir| 0 <= k < head implies #[trigger] escape_done(b, q2[k], d, p2) by {
        assert(q2[k] == q[k]);
        assert(escape_done(b, q[k], d, pred));
        if let Some(m) = step_spec(q[k], d) {
            lemma_index_sq_at(m);
        }
    }
    assert forall|s: Set<Square>| #[trigger] empty_closed(b, s) && s.contains(king) implies forall|k: int|
        0 <= k < q2.len() ==> s.contains(#[trigger] q2[k]) by {
        assert(s.contains(q[head]));
        assert(s.contains(n));
        assert forall|k: int| 0 <= k < q2.len() implies s.contains(#[trigger] q2[k]) by {
            if k < q.len() {
                assert(q2[k] == q[k]);
            }
        }
    }
}

pub proof fn lemma_escape_advance(b: Seq<Space>, king: Square, pred: Seq<Option<Square>>, q: Seq<Square>, head: int)
    requires
        escape_inv(b, king, pred, q, head),
        0 <= head < q.len(),
        escape_done(b, q[head], Dir::Up, pred),
        escape_done(b, q[head], Dir::Left, pred),
        escape_done(b, q[head], Dir::Right, pred),
        escape_done(b, q[head], Dir::Down, pred),
    ensures
        escape_inv(b, king, pred, q, head + 1),
{
    reveal(escape_inv);
    assert forall|k: int, d: Dir| 0 <= k < head + 1 implies #[trigger] escape_done(b, q[k], d, pred) by {
        if k == head {
            match d {
                Dir::Up => {},
                Dir::Left => {},
                Dir::Right => {},
                Dir::Down => {},
            }
        }
    }
}

pub proof fn lemma_escape_end(b: Seq<Space>, king: Square, pred: Seq<Option<Square>>, q: Seq<Square>)
    requires
        escape_inv(b, king, pred, q, q.len() as int),
    ensures
        !exit_reachable(b, king),
{
    reveal(escape_inv);
    let s = Set::new(|x: Square| q.contains(x));
    assert(s.contains(king)) by {
        assert(q[0] == king);
    }
    assert forall|sq: Square, d: Dir|
        #[trigger] s.contains(sq) && in_bounds(sq) && (#[trigger] step_spec(sq, d) matches Some(n)
            && cell(b, n) == Space::Empty) implies s.contains(step_spec(sq, d).unwrap()) by {
        let k = choose|k: int| 0 <= k < q.len() && q[k] == sq;
        assert(escape_done(b, q[k], d, pred));
        let n = step_spec(sq, d).unwrap();
        lemma_index_sq_at(n);
        assert(q.contains(sq_at(sq_index(n))));
    }
    assert(empty_closed(b, s));
    if exists|e: Square| #[trigger] s.contains(e) && is_exit_spec(e) && e != king {
        let e = choose|e: Square| #[trigger] s.contains(e) && is_exit_spec(e) && e != king;
        let k = choose|k: int| 0 <= k < q.len() && q[k] == e;
        assert(k != 0);
    }
}

/// Given a board state, the length of a path of empty squares from the
/// king to an exit square, found breadth first, if an exit can be reached
pub fn shortest_escape(board: &Board) -> (r: Option<u8>)
    ensures
        king_square(board@) is None ==> r is None,
        king_square(board@) matches Some(k) ==> (r is Some <==> exit_reachable(board@, k)),
        r matches Some(d) ==> 1 <= d <= 121 && least_escape(board@, king_square(board@).unwrap(), d as nat),
{
    let king = match board.find_the_king() {
        Some(k) => k,
        None => {
            return None;
        },
    };
    let (pred, escape, Ghost(depth)) = escape_search(board, king);
    let e = match escape {
        Some(e) => e,
        None => {
            return None;
        },
    };
    let mut cur = e;
    let mut dist: u8 = 0;
    proof {
        lemma_index_sq_at(e);
        lemma_index_sq_at(king);
    }
    while dist < 121
        invariant
            0 <= dist <= 121,
            in_bounds(cur),
            in_bounds(king),
            walk_links(king, pred.entries(), depth),
            forall|i: int| 0 <= i < 121 && (#[trigger] pred.entries()[i]) is Some ==> in_bounds(pred.entries()[i].unwrap()),
            cur == king || pred.entries()[sq_index(cur)] is Some,
            dist + depth[sq_index(cur)] == depth[sq_index(e)],
            depth[sq_index(cur)] >= 0,
            pred.entries()[sq_index(e)] is Some,
            1 <= depth[sq_index(e)] <= 121,
        ensures
            cur == king,
            dist == depth[sq_index(e)],
        decreases 121 - dist,
    {
        proof {
            lemma_index_sq_at(cur);
            lemma_index_sq_at(king);
        }
        match pred.get(&cur) {
            Some(p) => {
                proof {
                    assert(pred.entries()[sq_index(cur)] is Some);
                    lemma_index_sq_at(p);
                    if p != king {
                        assert(pred.entries()[sq_index(p)] is Some);
                    }
                }
                dist += 1;
                cur = p;
            },
            None => {
                break;
            },
        }
    }
    Some(dist)
}

/// What one straight-line advance finds: the squares newly reached, or an
/// escape after the given number of turns
pub enum Advance {
    Frontier(Vec<Square>),
    Escape(u8),
}

/// Some square of `s` lies next to an exit square
pub open spec fn exit_near(s: Set<Square>) -> bool {
    exists|x: Square, d: Dir| #[trigger] s.contains(x) && (#[trigger] step_spec(x, d) matches Some(e) && is_exit_spec(e))
}

/// Square `x` lies in the region of empty squares joined to `from`
pub open spec fn in_region(b: Seq<Space>, from: Square, x: Square) -> bool {
    forall|s: Set<Square>| #[trigger] empty_closed(b, s) && s.contains(from) ==> s.contains(x)
}

/// Some square of the region of empty squares joined to `from` lies next to
/// an exit square
pub open spec fn exit_next_to_region(b: Seq<Space>, from: Square) -> bool {
    forall|s: Set<Square>| #[trigger] empty_closed(b, s) && s.contains(from) ==> exit_near(s)
}

/// The neighbour of `x` in direction `d` is no exit, and is visited if empty
pub open spec fn turns_done(b: Seq<Space>, x: Square, d: Dir, v: Seq<bool>) -> bool {
    step_spec(x, d) matches Some(n) ==> (!is_exit_spec(n) && (cell(b, n) == Space::Empty ==> v[sq_index(n)]))
}

pub proof fn lemma_turns_done_mono(b: Seq<Space>, x: Square, d: Dir, v1: Seq<bool>, v2: Seq<bool>)
    requires
        turns_done(b, x, d, v1),
        in_bounds(x),
        v1.len() == 121,
        forall|i: int| 0 <= i < 121 && #[trigger] v1[i] ==> v2[i],
    ensures
        turns_done(b, x, d, v2),
{
    if let Some(n) = step_spec(x, d) {
        lemma_index_sq_at(n);
    }
}

/// Square `q` is passed by the king sliding from `p` in direction `d`: the
/// squares up to it are empty and none is an exit
pub open spec fn slide_reaches(b: Seq<Space>, p: Square, d: Dir, q: Square) -> bool
    decreases crate::space::steps_left(p, d),
{
    match step_spec(p, d) {
        None => false,
        Some(n) => if is_exit_spec(n) || cell(b, n) != Space::Empty {
            false
        } else {
            n == q || (in_bounds(p) && crate::space::steps_left(n, d) < crate::space::steps_left(p, d) && slide_reaches(b, n, d, q))
        },
    }
}

/// Sliding from `p` in direction `d` reaches an exit square
pub open spec fn slide_escapes(b: Seq<Space>, p: Square, d: Dir) -> bool
    decreases crate::space::steps_left(p, d),
{
    match step_spec(p, d) {
        None => false,
        Some(n) => if is_exit_spec(n) {
            true
        } else if cell(b, n) != Space::Empty {
            false
        } else {
            in_bounds(p) && crate::space::steps_left(n, d) < crate::space::steps_left(p, d) && slide_escapes(b, n, d)
        },
    }
}

/// The squares a slide from `p` in direction `d` passes
pub open spec fn ray(b: Seq<Space>, p: Square, d: Dir) -> Set<Square> {
    Set::new(|q: Square| slide_reaches(b, p, d, q))
}

/// The squares a slide from `p` passes, in any direction
pub open spec fn rays(b: Seq<Space>, p: Square) -> Set<Square> {
    Set::new(|q: Square| exists|d: Dir| #[trigger] slide_reaches(b, p, d, q))
}

/// The squares a slide passes are on the board
pub proof fn lemma_slide_in_bounds(b: Seq<Space>, p: Square, d: Dir, q: Square)
    requires
        in_bounds(p),
        slide_reaches(b, p, d, q),
    ensures
        in_bounds(q),
    decreases crate::space::steps_left(p, d),
{
    if let Some(n) = step_spec(p, d) {
        if n != q {
            lemma_slide_in_bounds(b, n, d, q);
        }
    }
}

/// Slide from `cursor` in direction `d` until blocked: escape if an exit
/// square is reached, else add each newly visited square to `next_starts`
#[verifier::rlimit(80)]
fn advance_dir(cursor: Square, board: &Board, visited: &mut [bool; 121], d: Dir, next_starts: &mut Vec<Square>) -> (escaped: bool)
    requires
        in_bounds(cursor),
    ensures
        count_true(final(visited)@) == count_true(old(visited)@) + final(next_starts)@.len() - old(next_starts)@.len(),
        final(next_starts)@.len() >= old(next_starts)@.len(),
        forall|k: int| 0 <= k < old(next_starts)@.len() ==> final(next_starts)@[k] == old(next_starts)@[k],
        forall|k: int| old(next_starts)@.len() <= k < final(next_starts)@.len() ==> in_bounds(#[trigger] final(next_starts)@[k])
            && in_region(board@, cursor, final(next_starts)@[k]) && final(visited)@[sq_index(final(next_starts)@[k])],
        forall|i: int| 0 <= i < 121 && #[trigger] old(visited)@[i] ==> final(visited)@[i],
        forall|i: int| 0 <= i < 121 && #[trigger] final(visited)@[i] ==> old(visited)@[i] || exists|k: int|
            old(next_starts)@.len() <= k < final(next_starts)@.len() && final(next_starts)@[k] == sq_at(i),
        escaped ==> forall|s: Set<Square>| #[trigger] empty_closed(board@, s) && s.contains(cursor) ==> exit_near(s),
        !escaped ==> turns_done(board@, cursor, d, final(visited)@),
        escaped == slide_escapes(board@, cursor, d),
        !escaped ==> marked(final(visited)@) == marked(old(visited)@).union(ray(board@, cursor, d)),
        !escaped ==> forall|k: int| old(next_starts)@.len() <= k < final(next_starts)@.len() ==> ray(board@, cursor, d).contains(#[trigger] final(next_starts)@[k])
            && !marked(old(visited)@).contains(final(next_starts)@[k]),
        !escaped ==> forall|q: Square| #[trigger] ray(board@, cursor, d).contains(q) && !marked(old(visited)@).contains(q)
            ==> final(next_starts)@.subrange(old(next_starts)@.len() as int, final(next_starts)@.len() as int).contains(q),
{
    let mut cur = cursor;
    let ghost mut walked: Set<Square> = Set::empty();
    let ghost n0 = next_starts@.len();
    let ghost c0 = count_true(visited@);
    let ghost mut moved = false;
    loop
        invariant
            in_bounds(cur),
            in_bounds(cursor),
            count_true(visited@) == c0 + next_starts@.len() - n0,
            next_starts@.len() >= n0,
            forall|k: int| 0 <= k < n0 ==> next_starts@[k] == old(next_starts)@[k],
            forall|k: int| n0 <= k < next_starts@.len() ==> in_bounds(#[trigger] next_starts@[k])
                && in_region(board@, cursor, next_starts@[k]) && visited@[sq_index(next_starts@[k])],
            forall|i: int| 0 <= i < 121 && #[trigger] old(visited)@[i] ==> visited@[i],
            forall|i: int| 0 <= i < 121 && #[trigger] visited@[i] ==> old(visited)@[i] || exists|k: int|
                n0 <= k < next_starts@.len() && next_starts@[k] == sq_at(i),
            n0 == old(next_starts)@.len(),
            c0 == count_true(old(visited)@),
            in_region(board@, cursor, cur),
            !moved ==> cur == cursor,
            moved ==> turns_done(board@, cursor, d, visited@),
            slide_escapes(board@, cursor, d) == slide_escapes(board@, cur, d),
            ray(board@, cursor, d) == walked.union(ray(board@, cur, d)),
            marked(visited@) == marked(old(visited)@).union(walked),
            forall|q: Square| #[trigger] walked.contains(q) ==> in_bounds(q),
            forall|k: int| n0 <= k < next_starts@.len() ==> walked.contains(#[trigger] next_starts@[k])
                && !marked(old(visited)@).contains(next_starts@[k]),
            forall|q: Square| #[trigger] walked.contains(q) && !marked(old(visited)@).contains(q)
                ==> next_starts@.subrange(n0 as int, next_starts@.len() as int).contains(q),
        decreases crate::space::steps_left(cur, d),
    {
        match cur.step(d) {
            None => {
                proof {
                    assert(ray(board@, cur, d) =~= Set::<Square>::empty());
                    assert(ray(board@, cursor, d) =~= walked);
                    assert(marked(visited@) =~= marked(old(visited)@).union(ray(board@, cursor, d)));
                }
                return false;
            },
            Some(next) => {
                if next.is_exit() {
                    proof {
                        assert forall|s: Set<Square>| #[trigger] empty_closed(board@, s) && s.contains(cursor) implies exit_near(s) by {
                            assert(s.contains(cur));
                            assert(step_spec(cur, d) == Some(next));
                        }
                    }
                    return true;
                }
                if board.is_occupied(&next) {
                    proof {
                        assert(ray(board@, cur, d) =~= Set::<Square>::empty());
                        assert(ray(board@, cursor, d) =~= walked);
                        assert(marked(visited@) =~= marked(old(visited)@).union(ray(board@, cursor, d)));
                    }
                    return false;
                }
                let ix = next.y * 11 + next.x;
                let ghost v0 = visited@;
                let ghost nsb = next_starts@;
                proof {
                    lemma_index_sq_at(next);
                    assert forall|s: Set<Square>| #[trigger] empty_closed(board@, s) && s.contains(cursor) implies s.contains(next) by {
                        assert(s.contains(cur));
                        assert(step_spec(cur, d) == Some(next));
                    }
                }
                if !visited[ix] {
                    proof {
                        lemma_count_true_update(visited@, ix as int);
                    }
                    let ghost ns0 = next_starts@;
                    next_starts.push(next);
                    visited[ix] = true;
                    proof {
                        assert forall|i: int| 0 <= i < 121 && #[trigger] visited@[i] implies old(visited)@[i] || exists|k: int|
                            n0 <= k < next_starts@.len() && next_starts@[k] == sq_at(i) by {
                            if i == ix as int {
                                assert(next_starts@[next_starts@.len() - 1] == sq_at(i));
                            } else {
                                assert(v0[i]);
                                if !old(visited)@[i] {
                                    let k = choose|k: int| n0 <= k < ns0.len() && ns0[k] == sq_at(i);
                                    assert(next_starts@[k] == sq_at(i));
                                }
                            }
                        }
                    }
                }
                proof {
                    if moved {
                        lemma_turns_done_mono(board@, cursor, d, v0, visited@);
                    }
                }
                proof {
                    moved = true;
                    let w2 = walked.insert(next);
                    assert(ray(board@, cur, d) =~= ray(board@, next, d).insert(next));
                    assert(ray(board@, cursor, d) =~= w2.union(ray(board@, next, d)));
                    assert(marked(visited@) =~= marked(old(visited)@).union(w2)) by {
                        assert forall|q: Square| marked(visited@).contains(q) <==> marked(old(visited)@).union(w2).contains(q) by {
                            if in_bounds(q) {
                                lemma_index_sq_at(q);
                                if q == next {
                                } else {
                                    assert(sq_index(q) != ix as int);
                                    assert(visited@[sq_index(q)] == v0[sq_index(q)]);
                                }
                            }
                        }
                    }
                    assert forall|k: int| n0 <= k < next_starts@.len() implies w2.contains(#[trigger] next_starts@[k])
                        && !marked(old(visited)@).contains(next_starts@[k]) by {
                    }
                    assert forall|q: Square| #[trigger] w2.contains(q) && !marked(old(visited)@).contains(q)
                        implies next_starts@.subrange(n0 as int, next_starts@.len() as int).contains(q) by {
                        let sub0 = nsb.subrange(n0 as int, nsb.len() as int);
                        let sub1 = next_starts@.subrange(n0 as int, next_starts@.len() as int);
                        if q == next && !v0[ix as int] {
                            assert(next_starts@[next_starts@.len() - 1] == q);
                            assert(sub1[next_starts@.len() - 1 - n0] == q);
                        } else {
                            if q == next {
                                assert(marked(v0).contains(q));
                            }
                            assert(walked.contains(q));
                            assert(sub0.contains(q));
                            let j = choose|j: int| 0 <= j < sub0.len() && sub0[j] == q;
                            assert(next_starts@[n0 + j] == nsb[n0 + j]);
                            assert(sub1[j] == q);
                        }
                    }
                    walked = w2;
                }
                cur = next;
            },
        }
    }
}

/// Slide from `cursor` in all four directions until blocked. Returns the
/// newly visited squares, or `current_turns` if an exit square is reached.
pub fn advance_linearly(cursor: Square, board: &Board, visited: &mut [bool; 121], current_turns: u8) -> (r: Advance)
    requires
        in_bounds(cursor),
    ensures
        r matches Advance::Escape(t) ==> t == current_turns && (forall|s: Set<Square>|
            #[trigger] empty_closed(board@, s) && s.contains(cursor) ==> exit_near(s))
            && exists|d: Dir| #[trigger] slide_escapes(board@, cursor, d),
        r matches Advance::Frontier(v) ==> (forall|d: Dir| !#[trigger] slide_escapes(board@, cursor, d))
            && marked(final(visited)@) == marked(old(visited)@).union(rays(board@, cursor))
            && (forall|k: int| 0 <= k < v@.len() ==> rays(board@, cursor).contains(#[trigger] v@[k]) && !marked(old(visited)@).contains(v@[k]))
            && (forall|q: Square| #[trigger] rays(board@, cursor).contains(q) && !marked(old(visited)@).contains(q) ==> v@.contains(q)),
        r matches Advance::Frontier(v) ==> count_true(final(visited)@) == count_true(old(visited)@) + v@.len()
            && (forall|k: int| 0 <= k < v@.len() ==> in_bounds(#[trigger] v@[k]) && in_region(board@, cursor, v@[k])
                && final(visited)@[sq_index(v@[k])])
            && (forall|i: int| 0 <= i < 121 && #[trigger] final(visited)@[i] ==> old(visited)@[i] || v@.contains(sq_at(i)))
            && (forall|d: Dir| turns_done(board@, cursor, d, final(visited)@)),
        forall|i: int| 0 <= i < 121 && #[trigger] old(visited)@[i] ==> final(visited)@[i],
{
    let mut next_starts: Vec<Square> = Vec::new();
    proof {
        lemma_count_true_bound(visited@);
    }
    let ghost v0 = visited@;
    if advance_dir(cursor, board, visited, Dir::Left, &mut next_starts) {
        return Advance::Escape(current_turns);
    }
    let ghost v1 = visited@;
    if advance_dir(cursor, board, visited, Dir::Right, &mut next_starts) {
        return Advance::Escape(current_turns);
    }
    let ghost v2 = visited@;
    if advance_dir(cursor, board, visited, Dir::Up, &mut next_starts) {
        return Advance::Escape(current_turns);
    }
    let ghost v3 = visited@;
    if advance_dir(cursor, board, visited, Dir::Down, &mut next_starts) {
        return Advance::Escape(current_turns);
    }
    proof {
        let mo = marked(v0);
        assert(marked(visited@) =~= mo.union(rays(board@, cursor))) by {
            assert forall|q: Square| marked(visited@).contains(q) <==> mo.union(rays(board@, cursor)).contains(q) by {
                if rays(board@, cursor).contains(q) {
                    let d = choose|d: Dir| #[trigger] slide_reaches(board@, cursor, d, q);
                    assert(ray(board@, cursor, d).contains(q));
                    match d {
                        Dir::Left => {},
                        Dir::Right => {},
                        Dir::Up => {},
                        Dir::Down => {},
                    }
                }
                if marked(visited@).contains(q) && !mo.contains(q) {
                    if ray(board@, cursor, Dir::Left).contains(q) {
                        assert(slide_reaches(board@, cursor, Dir::Left, q));
                    } else if ray(board@, cursor, Dir::Right).contains(q) {
                        assert(slide_reaches(board@, cursor, Dir::Right, q));
                    } else if ray(board@, cursor, Dir::Up).contains(q) {
                        assert(slide_reaches(board@, cursor, Dir::Up, q));
                    } else {
                        assert(slide_reaches(board@, cursor, Dir::Down, q));
                    }
                }
            }
        }
        assert forall|d: Dir| !#[trigger] slide_escapes(board@, cursor, d) by {
            match d {
                Dir::Left => {},
                Dir::Right => {},
                Dir::Up => {},
                Dir::Down => {},
            }
        }
        assert forall|k: int| 0 <= k < next_starts@.len() implies rays(board@, cursor).contains(#[trigger] next_starts@[k]) && !mo.contains(next_starts@[k]) by {
            assert(marked(visited@).contains(next_starts@[k]));
        }
        assert forall|q: Square| #[trigger] rays(board@, cursor).contains(q) && !mo.contains(q) implies next_starts@.contains(q) by {
            assert(marked(visited@).contains(q));
            lemma_index_sq_at(q);
            assert(visited@[sq_index(q)]);
            assert(!v0[sq_index(q)]);
        }
        lemma_turns_done_mono(board@, cursor, Dir::Left, v1, visited@);
        lemma_turns_done_mono(board@, cursor, Dir::Right, v2, visited@);
        lemma_turns_done_mono(board@, cursor, Dir::Up, v3, visited@);
        assert forall|d: Dir| turns_done(board@, cursor, d, visited@) by {
            match d {
                Dir::Up => {},
                Dir::Left => {},
                Dir::Right => {},
                Dir::Down => {},
            }
        }
        assert forall|i: int| 0 <= i < 121 && #[trigger] visited@[i] implies v0[i] || next_starts@.contains(sq_at(i)) by {
        }
    }
    Advance::Frontier(next_starts)
}

/// The state of the search for the fewest turns: visited squares lie in the
/// king's region; each is expanded (in `done`) or waits in `pending`
pub open spec fn turns_inv(b: Seq<Space>, king: Square, v: Seq<bool>, done: Set<Square>, pending: Seq<Square>) -> bool {
    &&& v.len() == 121
    &&& forall|i: int| 0 <= i < 121 && #[trigger] v[i] ==> in_region(b, king, sq_at(i))
    &&& forall|x: Square| #[trigger] done.contains(x) ==> in_bounds(x)
    &&& forall|x: Square, d: Dir| done.contains(x) ==> #[trigger] turns_done(b, x, d, v)
    &&& forall|i: int| 0 <= i < 121 && #[trigger] v[i] ==> done.contains(sq_at(i)) || pending.contains(sq_at(i))
}

/// A slide from some square of `l` reaches an exit
pub open spec fn escapes_from(b: Seq<Space>, l: Set<Square>) -> bool {
    exists|p: Square, d: Dir| l.contains(p) && #[trigger] slide_escapes(b, p, d)
}

/// The squares first reached by a slide from `l`, outside `v`
pub open spec fn next_layer(b: Seq<Space>, l: Set<Square>, v: Set<Square>) -> Set<Square> {
    Set::new(|q: Square| !v.contains(q) && exists|p: Square| l.contains(p) && #[trigger] rays(b, p).contains(q))
}

/// The number of slides to escape, counting from `t` for the squares `l`
/// reached with `t - 1` slides, after visiting `v`
pub open spec fn turns_from(b: Seq<Space>, l: Set<Square>, v: Set<Square>, t: nat, fuel: nat) -> Option<nat>
    decreases fuel,
{
    if fuel == 0 {
        None
    } else if escapes_from(b, l) {
        Some(t)
    } else if next_layer(b, l, v) == Set::<Square>::empty() {
        None
    } else {
        turns_from(b, next_layer(b, l, v), v.union(next_layer(b, l, v)), t + 1, (fuel - 1) as nat)
    }
}

/// The fewest straight slides that bring the king to an exit, if any
pub open spec fn fewest_turns_spec(b: Seq<Space>) -> Option<nat> {
    match king_square(b) {
        Some(k) => turns_from(b, set![k], set![k], 1, 121),
        None => None,
    }
}

/// Given a board state, the fewest number of straight-line moves the king
/// must make to reach an exit square, if any: the path with fewest turns.
pub fn fewest_turns_to_escape(board: &Board) -> (r: Option<u8>)
    ensures
        match r {
            Some(t) => fewest_turns_spec(board@) == Some(t as nat),
            None => fewest_turns_spec(board@) is None,
        },
        king_square(board@) is None ==> r is None,
        king_square(board@) matches Some(k) ==> (r is Some <==> exit_next_to_region(board@, k)),
        r matches Some(t) ==> 1 <= t <= 121,
{
    let king = match board.find_the_king() {
        Some(k) => k,
        None => {
            return None;
        },
    };
    let mut current_turns: u8 = 1;
    let mut visited: [bool; 121] = [false; 121];
    let kix = king.y * 11 + king.x;
    proof {
        lemma_index_sq_at(king);
        lemma_count_false(121);
        vstd::array::axiom_spec_array_fill_for_copy_type::<bool, 121>(false);
        assert(visited@ =~= seq_false());
        assert(seq_false() =~= Seq::new(121, |i: int| false));
        lemma_count_true_update(visited@, kix as int);
    }
    visited[kix] = true;
    let mut starts: Vec<Square> = Vec::new();
    starts.push(king);
    let ghost mut done: Set<Square> = Set::empty();
    let ghost target = fewest_turns_spec(board@);
    proof {
        lemma_index_sq_at(king);
        assert(marked(visited@) =~= set![king]) by {
            assert forall|q: Square| marked(visited@).contains(q) <==> set![king].contains(q) by {
                if in_bounds(q) {
                    lemma_index_sq_at(q);
                }
            }
        }
        assert(starts@.to_set() =~= set![king]) by {
            assert forall|q: Square| starts@.to_set().contains(q) <==> set![king].contains(q) by {
                if q == king {
                    assert(starts@[0] == king);
                }
            }
        }
        assert forall|i: int| 0 <= i < 121 && #[trigger] visited@[i] implies in_region(board@, king, sq_at(i)) by {
            assert(i == kix as int);
        }
        assert forall|i: int| 0 <= i < 121 && #[trigger] visited@[i] implies done.contains(sq_at(i)) || starts@.contains(sq_at(i)) by {
            assert(i == kix as int);
            assert(starts@[0] == sq_at(i));
        }
    }
    loop
        invariant
            1 <= current_turns <= count_true(visited@),
            visited@.len() == 121,
            king_square(board@) == Some(king),
            in_bounds(king),
            visited@[sq_index(king)],
            forall|k: int| 0 <= k < starts@.len() ==> in_bounds(#[trigger] starts@[k]) && visited@[sq_index(starts@[k])],
            turns_inv(board@, king, visited@, done, starts@),
            target == fewest_turns_spec(board@),
            current_turns <= 121,
            target == turns_from(board@, starts@.to_set(), marked(visited@), current_turns as nat, (122 - current_turns) as nat),
        decreases 121 - count_true(visited@),
    {
        proof {
            lemma_count_true_bound(visited@);
        }
        let ghost c_start = count_true(visited@);
        let ghost l0 = starts@.to_set();
        let ghost v0 = marked(visited@);
        let mut next_starts: Vec<Square> = Vec::new();
        let mut i: usize = 0;
        assert(starts@.subrange(0, starts@.len() as int) + next_starts@ =~= starts@);
        assert(marked(visited@) =~= v0.union(Set::new(|q: Square| exists|k: int| 0 <= k < 0 && #[trigger] rays(board@, starts@[k]).contains(q))));
        while i < starts.len()
            invariant
                0 <= i <= starts@.len(),
                forall|k: int| 0 <= k < starts@.len() ==> in_bounds(#[trigger] starts@[k]) && visited@[sq_index(starts@[k])],
                forall|k: int| 0 <= k < next_starts@.len() ==> in_bounds(#[trigger] next_starts@[k]) && visited@[sq_index(next_starts@[k])],
                count_true(visited@) == c_start + next_starts@.len(),
                visited@.len() == 121,
                1 <= current_turns <= c_start <= 121,
                king_square(board@) == Some(king),
                in_bounds(king),
                visited@[sq_index(king)],
                turns_inv(board@, king, visited@, done, starts@.subrange(i as int, starts@.len() as int) + next_starts@),
                l0 == starts@.to_set(),
                target == fewest_turns_spec(board@),
                target == turns_from(board@, l0, v0, current_turns as nat, (122 - current_turns) as nat),
                forall|k: int, d: Dir| 0 <= k < i ==> !#[trigger] slide_escapes(board@, starts@[k], d),
                marked(visited@) == v0.union(Set::new(|q: Square| exists|k: int| 0 <= k < i && #[trigger] rays(board@, starts@[k]).contains(q))),
                forall|k: int| 0 <= k < next_starts@.len() ==> marked(visited@).contains(#[trigger] next_starts@[k]) && !v0.contains(next_starts@[k]),
                forall|q: Square| #[trigger] marked(visited@).contains(q) && !v0.contains(q) ==> next_starts@.contains(q),
            decreases starts@.len() - i,
        {
            let cursor = starts[i];
            let ghost v_before = visited@;
            let ghost ns_before = next_starts@;
            let ghost pend = starts@.subrange(i as int, starts@.len() as int) + next_starts@;
            proof {
                lemma_index_sq_at(cursor);
                assert(v_before[sq_index(cursor)]);
                assert(in_region(board@, king, sq_at(sq_index(cursor))));
            }
            match advance_linearly(cursor, board, &mut visited, current_turns) {
                Advance::Escape(t) => {
                    proof {
                        assert(l0.contains(cursor)) by {
                            assert(starts@[i as int] == cursor);
                        }
                        assert(escapes_from(board@, l0));
                        lemma_count_true_bound(visited@);
                        assert forall|s: Set<Square>| #[trigger] empty_closed(board@, s) && s.contains(king) implies exit_near(s) by {
                            assert(s.contains(cursor));
                        }
                    }
                    return Some(t);
                },
                Advance::Frontier(mut found) => {
                    let ghost fv = found@;
                    let ghost mv_before = marked(v_before);
                    next_starts.append(&mut found);
                    proof {
                        let u_old = Set::new(|q: Square| exists|k: int| 0 <= k < i && #[trigger] rays(board@, starts@[k]).contains(q));
                        let u_new = Set::new(|q: Square| exists|k: int| 0 <= k < i + 1 && #[trigger] rays(board@, starts@[k]).contains(q));
                        assert(u_new =~= u_old.union(rays(board@, cursor))) by {
                            assert forall|q: Square| u_new.contains(q) <==> u_old.union(rays(board@, cursor)).contains(q) by {
                                if u_new.contains(q) {
                                    let k = choose|k: int| 0 <= k < i + 1 && #[trigger] rays(board@, starts@[k]).contains(q);
                                    if k < i {
                                        assert(u_old.contains(q));
                                    }
                                }
                                if rays(board@, cursor).contains(q) {
                                    assert(rays(board@, starts@[i as int]).contains(q));
                                }
                                if u_old.contains(q) {
                                    let k = choose|k: int| 0 <= k < i && #[trigger] rays(board@, starts@[k]).contains(q);
                                    assert(0 <= k < i + 1);
                                }
                            }
                        }
                        assert(marked(visited@) =~= v0.union(u_new));
                        assert forall|k: int, d: Dir| 0 <= k < i + 1 implies !#[trigger] slide_escapes(board@, starts@[k], d) by {
                            if k == i {
                                assert(starts@[k] == cursor);
                            }
                        }
                        assert forall|k: int| 0 <= k < next_starts@.len() implies marked(visited@).contains(#[trigger] next_starts@[k]) && !v0.contains(next_starts@[k]) by {
                            if k < ns_before.len() {
                                assert(next_starts@[k] == ns_before[k]);
                                assert(mv_before.contains(ns_before[k]));
                            } else {
                                assert(next_starts@[k] == fv[k - ns_before.len()]);
                                assert(!mv_before.contains(fv[k - ns_before.len()]));
                                assert(v0.subset_of(mv_before));
                            }
                        }
                        assert forall|q: Square| #[trigger] marked(visited@).contains(q) && !v0.contains(q) implies next_starts@.contains(q) by {
                            if mv_before.contains(q) {
                                let k = choose|k: int| 0 <= k < ns_before.len() && ns_before[k] == q;
                                assert(next_starts@[k] == q);
                            } else {
                                assert(rays(board@, cursor).contains(q));
                                assert(fv.contains(q));
                                let k = choose|k: int| 0 <= k < fv.len() && fv[k] == q;
                                assert(next_starts@[ns_before.len() + k] == q);
                            }
                        }
                        let v1 = visited@;
                        let pend2 = starts@.subrange(i + 1, starts@.len() as int) + next_starts@;
                        let done2 = done.insert(cursor);
                        assert(next_starts@ == ns_before + fv);
                        assert forall|i2: int| 0 <= i2 < 121 && #[trigger] v1[i2] implies in_region(board@, king, sq_at(i2)) by {
                            if !v_before[i2] {
                                assert(fv.contains(sq_at(i2)));
                                let k = choose|k: int| 0 <= k < fv.len() && fv[k] == sq_at(i2);
                                assert(in_region(board@, cursor, fv[k]));
                                assert forall|s: Set<Square>| #[trigger] empty_closed(board@, s) && s.contains(king) implies s.contains(sq_at(i2)) by {
                                    assert(s.contains(cursor));
                                }
                            }
                        }
                        assert forall|x: Square| #[trigger] done2.contains(x) implies in_bounds(x) by {
                            if x != cursor {
                                assert(done.contains(x));
                            }
                        }
                        assert forall|x: Square, d: Dir| done2.contains(x) implies #[trigger] turns_done(board@, x, d, v1) by {
                            if x != cursor {
                                assert(done.contains(x));
                                assert(turns_done(board@, x, d, v_before));
                                lemma_turns_done_mono(board@, x, d, v_before, v1);
                            }
                        }
                        assert forall|i2: int| 0 <= i2 < 121 && #[trigger] v1[i2] implies done2.contains(sq_at(i2)) || pend2.contains(sq_at(i2)) by {
                            if v_before[i2] {
                                assert(done.contains(sq_at(i2)) || pend.contains(sq_at(i2)));
                                if !done.contains(sq_at(i2)) && sq_at(i2) != cursor {
                                    let k = choose|k: int| 0 <= k < pend.len() && pend[k] == sq_at(i2);
                                    if k < starts@.len() - i {
                                        assert(k != 0);
                                        assert(pend2[k - 1] == sq_at(i2));
                                    } else {
                                        assert(pend2[k - 1] == sq_at(i2));
                                    }
                                }
                            } else {
                                assert(fv.contains(sq_at(i2)));
                                let k = choose|k: int| 0 <= k < fv.len() && fv[k] == sq_at(i2);
                                assert(pend2[(starts@.len() - i - 1) + ns_before.len() + k] == sq_at(i2));
                            }
                        }
                        done = done2;
                        assert forall|k: int| 0 <= k < next_starts@.len() implies in_bounds(#[trigger] next_starts@[k]) && visited@[sq_index(next_starts@[k])] by {
                            if k < ns_before.len() {
                                assert(next_starts@[k] == ns_before[k]);
                                lemma_index_sq_at(ns_before[k]);
                            } else {
                                assert(next_starts@[k] == fv[k - ns_before.len()]);
                            }
                        }
                        assert forall|k: int| 0 <= k < starts@.len() implies in_bounds(#[trigger] starts@[k]) && visited@[sq_index(starts@[k])] by {
                            lemma_index_sq_at(starts@[k]);
                        }
                    }
                },
            }
            i += 1;
        }
        proof {
            let u = Set::new(|q: Square| exists|k: int| 0 <= k < starts@.len() && #[trigger] rays(board@, starts@[k]).contains(q));
            assert(!escapes_from(board@, l0)) by {
                if escapes_from(board@, l0) {
                    let (p, d) = choose|p: Square, d: Dir| l0.contains(p) && #[trigger] slide_escapes(board@, p, d);
                    let k = choose|k: int| 0 <= k < starts@.len() && starts@[k] == p;
                    assert(!slide_escapes(board@, starts@[k], d));
                }
            }
            assert(next_layer(board@, l0, v0) =~= next_starts@.to_set()) by {
                assert forall|q: Square| next_layer(board@, l0, v0).contains(q) <==> next_starts@.to_set().contains(q) by {
                    if next_layer(board@, l0, v0).contains(q) {
                        let p = choose|p: Square| l0.contains(p) && #[trigger] rays(board@, p).contains(q);
                        let k = choose|k: int| 0 <= k < starts@.len() && starts@[k] == p;
                        assert(u.contains(q));
                        assert(marked(visited@).contains(q));
                    }
                    if next_starts@.to_set().contains(q) {
                        assert(next_starts@.contains(q));
                        let k = choose|k: int| 0 <= k < next_starts@.len() && next_starts@[k] == q;
                        assert(marked(visited@).contains(next_starts@[k]) && !v0.contains(next_starts@[k]));
                        assert(u.contains(q));
                        let k2 = choose|k2: int| 0 <= k2 < starts@.len() && #[trigger] rays(board@, starts@[k2]).contains(q);
                        assert(l0.contains(starts@[k2]));
                    }
                }
            }
            assert(marked(visited@) =~= v0.union(next_layer(board@, l0, v0))) by {
                assert forall|q: Square| marked(visited@).contains(q) <==> v0.union(next_layer(board@, l0, v0)).contains(q) by {
                    if marked(visited@).contains(q) && !v0.contains(q) {
                        assert(next_starts@.contains(q));
                        assert(next_starts@.to_set().contains(q));
                    }
                    if next_layer(board@, l0, v0).contains(q) {
                        assert(next_starts@.to_set().contains(q));
                        let k = choose|k: int| 0 <= k < next_starts@.len() && next_starts@[k] == q;
                        assert(marked(visited@).contains(next_starts@[k]));
                    }
                }
            }
        }
        if next_starts.len() == 0 {
            // every square reachable from the king was visited without finding an exit
            proof {
                assert(next_starts@.to_set() =~= Set::<Square>::empty());
                assert(starts@.subrange(starts@.len() as int, starts@.len() as int) + next_starts@ =~= Seq::<Square>::empty());
                lemma_turns_end(board@, king, visited@, done);
            }
            return None;
        }
        proof {
            lemma_count_true_bound(visited@);
            assert(starts@.subrange(starts@.len() as int, starts@.len() as int) + next_starts@ =~= next_starts@);
            assert(next_starts@.to_set().contains(next_starts@[0]));
            assert(next_layer(board@, l0, v0) != Set::<Square>::empty());
            assert(target == turns_from(board@, next_layer(board@, l0, v0), v0.union(next_layer(board@, l0, v0)), current_turns as nat + 1, (121 - current_turns) as nat));
        }
        starts = next_starts;
        current_turns += 1;
    }
}

pub proof fn lemma_turns_end(b: Seq<Space>, king: Square, v: Seq<bool>, done: Set<Square>)
    requires
        turns_inv(b, king, v, done, Seq::empty()),
        in_bounds(king),
        v[sq_index(king)],
    ensures
        !exit_next_to_region(b, king),
{
    let s = crate::board::marked(v);
    lemma_index_sq_at(king);
    assert(s.contains(king));
    assert forall|sq: Square, d: Dir|
        #[trigger] s.contains(sq) && in_bounds(sq) && (#[trigger] step_spec(sq, d) matches Some(n)
            && cell(b, n) == Space::Empty) implies s.contains(step_spec(sq, d).unwrap()) by {
        lemma_index_sq_at(sq);
        assert(v[sq_index(sq)]);
        assert(done.contains(sq_at(sq_index(sq))));
        assert(turns_done(b, sq, d, v));
        lemma_index_sq_at(step_spec(sq, d).unwrap());
    }
    assert(empty_closed(b, s));
    if exit_near(s) {
        let (x, d) = choose|x: Square, d: Dir| #[trigger] s.contains(x) && (#[trigger] step_spec(x, d) matches Some(e) && is_exit_spec(e));
        lemma_index_sq_at(x);
        assert(done.contains(sq_at(sq_index(x))));
        assert(turns_done(b, x, d, v));
    }
}

/// The symmetry that undoes `t`
pub open spec fn inverse_xf(t: Xf) -> Xf {
    if t.swap { Xf { swap: true, fx: t.fy, fy: t.fx } } else { t }
}

pub proof fn lemma_pull_inverse(t: Xf, x: Square)
    requires
        in_bounds(x),
    ensures
        pull(t, pull(inverse_xf(t), x)) == x,
        pull(inverse_xf(t), pull(t, x)) == x,
        in_bounds(pull(t, x)),
        in_bounds(pull(inverse_xf(t), x)),
{
    lemma_pull_in_bounds(t, x);
    lemma_pull_in_bounds(inverse_xf(t), x);
    lemma_pull_compose(t, inverse_xf(t), x);
    lemma_pull_compose(inverse_xf(t), t, x);
}

/// A symmetry keeps squares next to each other
pub proof fn lemma_pull_step(t: Xf, x: Square, d: Dir, y: Square)
    requires
        in_bounds(x),
        step_spec(x, d) == Some(y),
    ensures
        exists|d2: Dir| step_spec(pull(t, x), d2) == Some(pull(t, y)),
{
    let px = pull(t, x);
    let py = pull(t, y);
    if step_spec(px, Dir::Up) == Some(py) {
    } else if step_spec(px, Dir::Down) == Some(py) {
    } else if step_spec(px, Dir::Left) == Some(py) {
    } else {
        assert(step_spec(px, Dir::Right) == Some(py));
    }
}

/// The image board holds on `y` what the board holds on `pull(t, y)`
pub proof fn lemma_image_cell(b: Seq<Space>, t: Xf, y: Square)
    requires
        b.len() == 121,
        in_bounds(y),
    ensures
        cell(image(b, t), y) == cell(b, pull(t, y)),
{
    lemma_index_sq_at(y);
}

pub proof fn lemma_arc_image(b: Seq<Space>, t: Xf, x: Square, y: Square)
    requires
        b.len() == 121,
        in_bounds(x),
    ensures
        arc(image(b, t), x, y) ==> arc(b, pull(t, x), pull(t, y)),
        arc(b, x, y) ==> arc(image(b, t), pull(inverse_xf(t), x), pull(inverse_xf(t), y)),
{
    lemma_pull_inverse(t, x);
    if arc(image(b, t), x, y) {
        let d = choose|d: Dir| step_spec(x, d) == Some(y);
        lemma_pull_step(t, x, d, y);
        assert(in_bounds(y)) by {
            match d { Dir::Up => {}, Dir::Down => {}, Dir::Left => {}, Dir::Right => {} }
        }
        lemma_image_cell(b, t, y);
    }
    if arc(b, x, y) {
        let d = choose|d: Dir| step_spec(x, d) == Some(y);
        lemma_pull_step(inverse_xf(t), x, d, y);
        assert(in_bounds(y)) by {
            match d { Dir::Up => {}, Dir::Down => {}, Dir::Left => {}, Dir::Right => {} }
        }
        lemma_pull_inverse(t, y);
        lemma_image_cell(b, t, pull(inverse_xf(t), y));
    }
}

/// Passable paths are carried over by a symmetry
pub proof fn lemma_path_image(b: Seq<Space>, t: Xf, u: Square, v: Square)
    requires
        b.len() == 121,
        in_bounds(u),
        in_bounds(v),
    ensures
        passable_path(image(b, t), u, v) == passable_path(b, pull(t, u), pull(t, v)),
{
    let im = image(b, t);
    let it = inverse_xf(t);
    lemma_pull_inverse(t, u);
    lemma_pull_inverse(t, v);
    if passable_path(b, pull(t, u), pull(t, v)) {
        assert forall|s2: Set<Square>| #[trigger] passable_closed(im, s2) && s2.contains(u) implies s2.contains(v) by {
            let s = Set::new(|x: Square| in_bounds(x) && s2.contains(pull(it, x)));
            assert forall|sq: Square, d: Dir|
                #[trigger] s.contains(sq) && in_bounds(sq) && (#[trigger] step_spec(sq, d) matches Some(n)
                    && passable_spec(b, n, Passable::EmptyOrDefender)) implies s.contains(step_spec(sq, d).unwrap()) by {
                let n = step_spec(sq, d).unwrap();
                assert(arc(b, sq, n));
                lemma_arc_image(b, t, sq, n);
                lemma_pull_inverse(t, sq);
                let x = pull(it, sq);
                let y = pull(it, n);
                let d2 = choose|d2: Dir| step_spec(x, d2) == Some(y);
                assert(s2.contains(x));
                assert(s2.contains(step_spec(x, d2).unwrap()));
                assert(in_bounds(n)) by {
                    match d { Dir::Up => {}, Dir::Down => {}, Dir::Left => {}, Dir::Right => {} }
                }
            }
            assert(passable_closed(b, s));
            assert(s.contains(pull(t, u)));
            assert(s.contains(pull(t, v)));
        }
    }
    if passable_path(im, u, v) {
        assert forall|s: Set<Square>| #[trigger] passable_closed(b, s) && s.contains(pull(t, u)) implies s.contains(pull(t, v)) by {
            let s2 = Set::new(|x: Square| in_bounds(x) && s.contains(pull(t, x)));
            assert forall|sq: Square, d: Dir|
                #[trigger] s2.contains(sq) && in_bounds(sq) && (#[trigger] step_spec(sq, d) matches Some(n)
                    && passable_spec(im, n, Passable::EmptyOrDefender)) implies s2.contains(step_spec(sq, d).unwrap()) by {
                let n = step_spec(sq, d).unwrap();
                assert(arc(im, sq, n));
                lemma_arc_image(b, t, sq, n);
                let d2 = choose|d2: Dir| step_spec(pull(t, sq), d2) == Some(pull(t, n));
                lemma_pull_inverse(t, sq);
                assert(s.contains(step_spec(pull(t, sq), d2).unwrap()));
                assert(in_bounds(n)) by {
                    match d { Dir::Up => {}, Dir::Down => {}, Dir::Left => {}, Dir::Right => {} }
                }
            }
            assert(passable_closed(im, s2));
            assert(s2.contains(u));
        }
    }
}

/// Single-arc cuts are carried over by a symmetry
pub proof fn lemma_cut_image(b: Seq<Space>, t: Xf, u: Square, v: Square)
    requires
        b.len() == 121,
        in_bounds(u),
        in_bounds(v),
    ensures
        single_arc_cut(image(b, t), u, v) == single_arc_cut(b, pull(t, u), pull(t, v)),
{
    let im = image(b, t);
    let it = inverse_xf(t);
    lemma_pull_inverse(t, u);
    lemma_pull_inverse(t, v);
    if single_arc_cut(im, u, v) {
        let (e2, s2) = choose|e: (Square, Square), s: Set<Square>| #[trigger] closed_without(im, s, e) && s.contains(u) && !s.contains(v);
        let s = Set::new(|x: Square| in_bounds(x) && s2.contains(pull(it, x)));
        let e = (pull(t, e2.0), pull(t, e2.1));
        assert forall|x: Square, y: Square| #[trigger] s.contains(x) && #[trigger] arc(b, x, y) && (x, y) != e implies s.contains(y) by {
            lemma_arc_image(b, t, x, y);
            lemma_pull_inverse(t, x);
            assert(in_bounds(y)) by {
                let d = choose|d: Dir| step_spec(x, d) == Some(y);
                match d { Dir::Up => {}, Dir::Down => {}, Dir::Left => {}, Dir::Right => {} }
            }
            lemma_pull_inverse(t, y);
            if (pull(it, x), pull(it, y)) == e2 {
                assert(e == (x, y));
            }
            assert(s2.contains(pull(it, y)));
        }
        assert(closed_without(b, s, e));
        assert(s.contains(pull(t, u)));
        assert(!s.contains(pull(t, v)));
    }
    if single_arc_cut(b, pull(t, u), pull(t, v)) {
        let (e, s) = choose|e: (Square, Square), s: Set<Square>| #[trigger] closed_without(b, s, e) && s.contains(pull(t, u)) && !s.contains(pull(t, v));
        let s2 = Set::new(|x: Square| in_bounds(x) && s.contains(pull(t, x)));
        let e2 = (pull(it, e.0), pull(it, e.1));
        assert forall|x: Square, y: Square| #[trigger] s2.contains(x) && #[trigger] arc(im, x, y) && (x, y) != e2 implies s2.contains(y) by {
            lemma_arc_image(b, t, x, y);
            lemma_pull_inverse(t, x);
            assert(in_bounds(y)) by {
                let d = choose|d: Dir| step_spec(x, d) == Some(y);
                match d { Dir::Up => {}, Dir::Down => {}, Dir::Left => {}, Dir::Right => {} }
            }
            lemma_pull_inverse(t, y);
            if (pull(t, x), pull(t, y)) == e {
                assert(e2 == (x, y));
            }
        }
        assert(closed_without(im, s2, e2));
        assert(s2.contains(u));
    }
}

/// The capped flow is carried over by a symmetry
pub proof fn lemma_capped_flow_image(b: Seq<Space>, t: Xf, u: Square, v: Square)
    requires
        b.len() == 121,
        in_bounds(u),
        in_bounds(v),
    ensures
        capped_flow(image(b, t), u, v) == capped_flow(b, pull(t, u), pull(t, v)),
{
    lemma_path_image(b, t, u, v);
    lemma_cut_image(b, t, u, v);
    if pull(t, u) == pull(t, v) {
        lemma_pull_injective(t, u, v);
    }
}

/// Where the king of a valid board stands after any symmetry
pub proof fn lemma_king_after(b: Seq<Space>, t: Xf)
    requires
        b.len() == 121,
        at_most_one_king(b),
        restricted_ok(b),
    ensures
        king_square(b) matches Some(k) ==> king_square(image(b, t)) == Some(pull(inverse_xf(t), k)),
        king_square(b) is None ==> king_square(image(b, t)) is None,
{
    lemma_image_wf(b, t);
    lemma_king_square(b);
    lemma_king_square(image(b, t));
    if let Some(k) = king_square(b) {
        lemma_pull_inverse(t, k);
        let q = pull(inverse_xf(t), k);
        lemma_image_cell(b, t, q);
    } else {
        assert forall|j: int| 0 <= j < 121 implies image(b, t)[j] != Space::King by {
            lemma_sq_at_index(j);
            lemma_pull_in_bounds(t, sq_at(j));
            lemma_index_sq_at(pull(t, sq_at(j)));
        }
    }
}


/// The escape-route count is the same for all eight orientations of a board
pub proof fn lemma_escape_routes_symmetric(b: Board, k: int)
    requires
        b.wf(),
        0 <= k < 8,
    ensures
        escape_routes_spec(image(b@, d8_xf(k))) == escape_routes_spec(b@),
{
    let t = d8_xf(k);
    let im = image(b@, t);
    lemma_king_after(b@, t);
    if let Some(kp) = king_square(b@) {
        lemma_king_square(b@);
        let q = pull(inverse_xf(t), kp);
        lemma_pull_inverse(t, kp);
        let c0 = Square { x: 0, y: 0 };
        let c1 = Square { x: 10, y: 0 };
        let c2 = Square { x: 0, y: 10 };
        let c3 = Square { x: 10, y: 10 };
        assert(exit_seq() == seq![c0, c1, c2, c3]);
        lemma_capped_flow_image(b@, t, q, c0);
        lemma_capped_flow_image(b@, t, q, c1);
        lemma_capped_flow_image(b@, t, q, c2);
        lemma_capped_flow_image(b@, t, q, c3);
        reveal_with_fuel(capped_sum, 5);
        assert(escape_routes_spec(im) == capped_flow(im, q, c0) + capped_flow(im, q, c1) + capped_flow(im, q, c2) + capped_flow(im, q, c3));
        assert(escape_routes_spec(b@) == capped_flow(b@, kp, c0) + capped_flow(b@, kp, c1) + capped_flow(b@, kp, c2) + capped_flow(b@, kp, c3));
    }
}

} // verus!
