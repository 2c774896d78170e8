//! Alpha-beta search over any game tree whose nodes list their children.

use vstd::prelude::*;
use crate::space::Role;

verus! {

/// A node of the search that hands out its children one at a time, and
/// can stop and resume
pub trait InternalNode: Sized {
    type Node;

    type NodeState;

    /// The state of a child
    spec fn state_of(n: Self::Node) -> Self::NodeState;

    /// The states of the children still to come
    spec fn remaining(&self) -> Seq<Self::NodeState>;

    /// The next child, if any is left
    fn next_child(&mut self) -> (r: Option<Self::Node>)
        ensures
            match r {
                Some(c) => old(self).remaining() == seq![Self::state_of(c)] + final(self).remaining(),
                None => old(self).remaining().len() == 0,
            },
    ;
}

/// A node in a game tree, with an abstract view of its state
pub trait GameNode: Sized {
    type State;

    type Convert: InternalNode<Node = Self, NodeState = Self::State>;

    /// The state this node stands for
    spec fn state(&self) -> Self::State;

    /// The side to move in a state
    spec fn turn_of(s: Self::State) -> Role;

    /// Whether the game is over in a state
    spec fn terminal_of(s: Self::State) -> bool;

    /// The states that follow a state, in the order they are generated
    spec fn children_of(s: Self::State) -> Seq<Self::State>;

    fn turn(&self) -> (r: Role)
        ensures
            r == Self::turn_of(self.state()),
    ;

    fn is_terminal(&self) -> (r: bool)
        ensures
            r == Self::terminal_of(self.state()),
    ;

    fn get_children(&self) -> (r: Vec<Self>)
        ensures
            r@.map_values(|c: Self| c.state()) == Self::children_of(self.state()),
    ;

    /// An iteration over the children, generated as they are asked for
    fn convert(&self) -> (r: Self::Convert)
        ensures
            r.remaining() == Self::children_of(self.state()),
            forall|n: Self| #[trigger] Self::Convert::state_of(n) == n.state(),
    ;
}

/// A way to score positions and to rank children
pub trait SelectionPolicy {
    type TreeNode: GameNode;

    /// Whether the evaluation is a function of the state alone
    spec fn evaluates_exactly(&self) -> bool;

    /// The evaluation of a state for the side `role`
    spec fn eval_spec(&self, s: <Self::TreeNode as GameNode>::State, role: Role) -> i64;

    /// Get the heuristic's evaluation of the position
    /// for the attacking player
    fn eval_attacker(&self, child: &Self::TreeNode) -> (r: i64)
        ensures
            self.evaluates_exactly() ==> r == self.eval_spec(child.state(), Role::Attacker),
    ;

    /// Get the heuristic's evaluation of the position
    /// for the defending player
    fn eval_defender(&self, child: &Self::TreeNode) -> (r: i64)
        ensures
            self.evaluates_exactly() ==> r == self.eval_spec(child.state(), Role::Defender),
    ;

    /// Given a game node and two of its children, figure out which one is
    /// better to explore.
    fn compare_children(
        &self,
        parent: &Self::TreeNode,
        child1: &Self::TreeNode,
        child2: &Self::TreeNode,
    ) -> std::cmp::Ordering;
}

/// The value of a leaf: its evaluation for the side to move there
pub open spec fn leaf_value<S: SelectionPolicy>(policy: &S, s: <S::TreeNode as GameNode>::State) -> int {
    policy.eval_spec(s, <S::TreeNode as GameNode>::turn_of(s)) as int
}

/// Full-width minimax to depth `d`: attackers maximize, defenders minimize
pub open spec fn minimax<S: SelectionPolicy>(policy: &S, s: <S::TreeNode as GameNode>::State, d: nat) -> int
    decreases d, 1nat, 0nat,
{
    let cs = <S::TreeNode as GameNode>::children_of(s);
    if d == 0 || <S::TreeNode as GameNode>::terminal_of(s) || cs.len() == 0 {
        leaf_value(policy, s)
    } else {
        best_of(policy, cs, <S::TreeNode as GameNode>::turn_of(s), (d - 1) as nat, cs.len() as nat)
    }
}

/// The best minimax value for `turn` among the first `i` states of `cs`
pub open spec fn best_of<S: SelectionPolicy>(
    policy: &S,
    cs: Seq<<S::TreeNode as GameNode>::State>,
    turn: Role,
    d: nat,
    i: nat,
) -> int
    decreases d + 1, 0nat, i,
{
    if i <= 1 || i > cs.len() {
        if cs.len() == 0 { 0 } else { minimax(policy, cs[0], d) }
    } else {
        let prev = best_of(policy, cs, turn, d, (i - 1) as nat);
        let v = minimax(policy, cs[i - 1], d);
        if turn == Role::Attacker {
            if v > prev { v } else { prev }
        } else {
            if v < prev { v } else { prev }
        }
    }
}

/// What alpha-beta owes for a window [alpha, beta]: the exact value when it
/// lies strictly inside, and a bound on the right side otherwise
pub open spec fn within_window(v: int, m: int, alpha: int, beta: int) -> bool {
    &&& (m <= alpha ==> v <= alpha)
    &&& (m >= beta ==> v >= beta)
    &&& (alpha < m < beta ==> v == m)
}

/// The bound a node starts from: its alpha when attackers move, else its beta
pub open spec fn initial_bound(turn: Role, alpha: int, beta: int) -> int {
    if turn == Role::Attacker { alpha } else { beta }
}

/// The bound after a child returns value `v`
pub open spec fn raised_bound(turn: Role, bound: int, v: int) -> int {
    if turn == Role::Attacker {
        if v > bound { v } else { bound }
    } else {
        if v < bound { v } else { bound }
    }
}

/// The bound has crossed the window: the remaining children cannot matter
pub open spec fn is_cutoff(turn: Role, bound: int, alpha: int, beta: int) -> bool {
    if turn == Role::Attacker { bound >= beta } else { bound <= alpha }
}

/// The window in which a child is searched, given its parent's bound
pub open spec fn child_alpha(turn: Role, bound: int, alpha: int) -> int {
    if turn == Role::Attacker { bound } else { alpha }
}

pub open spec fn child_beta(turn: Role, bound: int, beta: int) -> int {
    if turn == Role::Attacker { beta } else { bound }
}

/// Fail-hard alpha-beta search of state `s` to depth `d` in the window
/// [alpha, beta], written recursively
pub open spec fn ab_value<S: SelectionPolicy>(policy: &S, s: <S::TreeNode as GameNode>::State, d: nat, alpha: int, beta: int) -> int
    decreases d, 1nat, 0nat,
{
    let cs = <S::TreeNode as GameNode>::children_of(s);
    let turn = <S::TreeNode as GameNode>::turn_of(s);
    if d == 0 || <S::TreeNode as GameNode>::terminal_of(s) || cs.len() == 0 {
        leaf_value(policy, s)
    } else {
        ab_fold(policy, cs, turn, (d - 1) as nat, alpha, beta, 0, initial_bound(turn, alpha, beta))
    }
}

/// The rest of the search of a node's children from the `i`-th on, with the
/// bound reached so far
pub open spec fn ab_fold<S: SelectionPolicy>(
    policy: &S,
    cs: Seq<<S::TreeNode as GameNode>::State>,
    turn: Role,
    d: nat,
    alpha: int,
    beta: int,
    i: nat,
    bound: int,
) -> int
    decreases d + 1, 0nat, cs.len() - i,
{
    if i >= cs.len() {
        bound
    } else {
        let v = ab_value(policy, cs[i as int], d, child_alpha(turn, bound, alpha), child_beta(turn, bound, beta));
        let b2 = raised_bound(turn, bound, v);
        if is_cutoff(turn, b2, alpha, beta) {
            b2
        } else {
            ab_fold(policy, cs, turn, d, alpha, beta, i + 1, b2)
        }
    }
}

/// Alpha-beta search owes the exact minimax value inside its window, and a
/// bound on the right side outside it
pub proof fn lemma_ab_value<S: SelectionPolicy>(policy: &S, s: <S::TreeNode as GameNode>::State, d: nat, alpha: int, beta: int)
    requires
        alpha < beta,
    ensures
        within_window(ab_value(policy, s, d, alpha, beta), minimax(policy, s, d), alpha, beta),
    decreases d, 1nat, 0nat,
{
    let cs = <S::TreeNode as GameNode>::children_of(s);
    let turn = <S::TreeNode as GameNode>::turn_of(s);
    if d == 0 || <S::TreeNode as GameNode>::terminal_of(s) || cs.len() == 0 {
    } else {
        lemma_ab_fold(policy, cs, turn, (d - 1) as nat, alpha, beta, 0, initial_bound(turn, alpha, beta));
    }
}

pub proof fn lemma_ab_fold<S: SelectionPolicy>(
    policy: &S,
    cs: Seq<<S::TreeNode as GameNode>::State>,
    turn: Role,
    d: nat,
    alpha: int,
    beta: int,
    i: nat,
    bound: int,
)
    requires
        alpha < beta,
        cs.len() > 0,
        i <= cs.len(),
        turn == Role::Attacker ==> alpha <= bound < beta && (i == 0 ==> bound == alpha) && (i > 0 ==> bound == (if alpha >= best_of(policy, cs, turn, d, i) { alpha } else { best_of(policy, cs, turn, d, i) })),
        turn != Role::Attacker ==> alpha < bound <= beta && (i == 0 ==> bound == beta) && (i > 0 ==> bound == (if beta <= best_of(policy, cs, turn, d, i) { beta } else { best_of(policy, cs, turn, d, i) })),
    ensures
        within_window(ab_fold(policy, cs, turn, d, alpha, beta, i, bound), best_of(policy, cs, turn, d, cs.len()), alpha, beta),
    decreases d + 1, 0nat, cs.len() - i,
{
    if i >= cs.len() {
    } else {
        lemma_ab_value(policy, cs[i as int], d, child_alpha(turn, bound, alpha), child_beta(turn, bound, beta));
        lemma_best_of_step(policy, cs, turn, d, i + 1);
        lemma_best_of_bound(policy, cs, turn, d, i + 1, cs.len() as nat);
        let v = ab_value(policy, cs[i as int], d, child_alpha(turn, bound, alpha), child_beta(turn, bound, beta));
        let b2 = raised_bound(turn, bound, v);
        if !is_cutoff(turn, b2, alpha, beta) {
            lemma_ab_fold(policy, cs, turn, d, alpha, beta, i + 1, b2);
        }
    }
}

/// The number of leaves that `ab_value` evaluates
pub open spec fn ab_evals<S: SelectionPolicy>(policy: &S, s: <S::TreeNode as GameNode>::State, d: nat, alpha: int, beta: int) -> nat
    decreases d, 1nat, 0nat,
{
    let cs = <S::TreeNode as GameNode>::children_of(s);
    let turn = <S::TreeNode as GameNode>::turn_of(s);
    if d == 0 || <S::TreeNode as GameNode>::terminal_of(s) || cs.len() == 0 {
        1
    } else {
        ab_fold_evals(policy, cs, turn, (d - 1) as nat, alpha, beta, 0, initial_bound(turn, alpha, beta))
    }
}

/// The number of leaves that `ab_fold` evaluates
pub open spec fn ab_fold_evals<S: SelectionPolicy>(
    policy: &S,
    cs: Seq<<S::TreeNode as GameNode>::State>,
    turn: Role,
    d: nat,
    alpha: int,
    beta: int,
    i: nat,
    bound: int,
) -> nat
    decreases d + 1, 0nat, cs.len() - i,
{
    if i >= cs.len() {
        0
    } else {
        let ca = child_alpha(turn, bound, alpha);
        let cb = child_beta(turn, bound, beta);
        let v = ab_value(policy, cs[i as int], d, ca, cb);
        let b2 = raised_bound(turn, bound, v);
        ab_evals(policy, cs[i as int], d, ca, cb) + if is_cutoff(turn, b2, alpha, beta) {
            0
        } else {
            ab_fold_evals(policy, cs, turn, d, alpha, beta, i + 1, b2)
        }
    }
}

/// The number of leaves that full-width minimax evaluates
pub open spec fn leaf_count<S: SelectionPolicy>(policy: &S, s: <S::TreeNode as GameNode>::State, d: nat) -> nat
    decreases d, 1nat, 0nat,
{
    let cs = <S::TreeNode as GameNode>::children_of(s);
    if d == 0 || <S::TreeNode as GameNode>::terminal_of(s) || cs.len() == 0 {
        1
    } else {
        leaves_from(policy, cs, (d - 1) as nat, 0)
    }
}

pub open spec fn leaves_from<S: SelectionPolicy>(policy: &S, cs: Seq<<S::TreeNode as GameNode>::State>, d: nat, i: nat) -> nat
    decreases d + 1, 0nat, cs.len() - i,
{
    if i >= cs.len() {
        0
    } else {
        leaf_count(policy, cs[i as int], d) + leaves_from(policy, cs, d, i + 1)
    }
}

/// Alpha-beta search, as `ab_value` defines it, evaluates no more leaves
/// than full-width minimax to the same depth, for every window
pub proof fn lemma_ab_evals_at_most_leaves<S: SelectionPolicy>(policy: &S, s: <S::TreeNode as GameNode>::State, d: nat, alpha: int, beta: int)
    ensures
        ab_evals(policy, s, d, alpha, beta) <= leaf_count(policy, s, d),
    decreases d, 1nat, 0nat,
{
    let cs = <S::TreeNode as GameNode>::children_of(s);
    let turn = <S::TreeNode as GameNode>::turn_of(s);
    if d == 0 || <S::TreeNode as GameNode>::terminal_of(s) || cs.len() == 0 {
    } else {
        lemma_ab_fold_evals(policy, cs, turn, (d - 1) as nat, alpha, beta, 0, initial_bound(turn, alpha, beta));
    }
}

pub proof fn lemma_ab_fold_evals<S: SelectionPolicy>(
    policy: &S,
    cs: Seq<<S::TreeNode as GameNode>::State>,
    turn: Role,
    d: nat,
    alpha: int,
    beta: int,
    i: nat,
    bound: int,
)
    ensures
        ab_fold_evals(policy, cs, turn, d, alpha, beta, i, bound) <= leaves_from(policy, cs, d, i),
    decreases d + 1, 0nat, cs.len() - i,
{
    if i < cs.len() {
        let ca = child_alpha(turn, bound, alpha);
        let cb = child_beta(turn, bound, beta);
        lemma_ab_evals_at_most_leaves(policy, cs[i as int], d, ca, cb);
        let v = ab_value(policy, cs[i as int], d, ca, cb);
        let b2 = raised_bound(turn, bound, v);
        lemma_ab_fold_evals(policy, cs, turn, d, alpha, beta, i + 1, b2);
    }
}

/// Evaluate a node for the side to move there
fn eval_node<S: SelectionPolicy>(policy: &S, node: &S::TreeNode) -> (r: i64)
    ensures
        policy.evaluates_exactly() ==> r == leaf_value(policy, node.state()),
{
    match node.turn() {
        Role::Attacker => policy.eval_attacker(node),
        Role::Defender => policy.eval_defender(node),
    }
}

/// One more child in the running best
pub proof fn lemma_best_of_step<S: SelectionPolicy>(policy: &S, cs: Seq<<S::TreeNode as GameNode>::State>, turn: Role, d: nat, i: nat)
    requires
        1 <= i <= cs.len(),
    ensures
        i == 1 ==> best_of(policy, cs, turn, d, i) == minimax(policy, cs[0], d),
        i > 1 ==> best_of(policy, cs, turn, d, i) == (if turn == Role::Attacker {
            if minimax(policy, cs[i - 1], d) > best_of(policy, cs, turn, d, (i - 1) as nat) { minimax(policy, cs[i - 1], d) } else { best_of(policy, cs, turn, d, (i - 1) as nat) }
        } else {
            if minimax(policy, cs[i - 1], d) < best_of(policy, cs, turn, d, (i - 1) as nat) { minimax(policy, cs[i - 1], d) } else { best_of(policy, cs, turn, d, (i - 1) as nat) }
        }),
{
}

/// The best over more children is at least as good
pub proof fn lemma_best_of_bound<S: SelectionPolicy>(policy: &S, cs: Seq<<S::TreeNode as GameNode>::State>, turn: Role, d: nat, i: nat, j: nat)
    requires
        1 <= i <= j <= cs.len(),
    ensures
        turn == Role::Attacker ==> best_of(policy, cs, turn, d, j) >= best_of(policy, cs, turn, d, i),
        turn != Role::Attacker ==> best_of(policy, cs, turn, d, j) <= best_of(policy, cs, turn, d, i),
    decreases j - i,
{
    if i < j {
        lemma_best_of_bound(policy, cs, turn, d, i, (j - 1) as nat);
    }
}

/// A node of the search whose children are being explored: the iteration
/// over the children after the current one, the current child, the states
/// of all children and the index of the current one, the bound reached so
/// far, the window, the depth left below the children, and the side to move
struct AlphaBetaNode<N: GameNode> {
    iter: N::Convert,
    current: N,
    states: Ghost<Seq<N::State>>,
    i: Ghost<nat>,
    bound: i64,
    alpha: i64,
    beta: i64,
    depth: usize,
    turn: Role,
}

spec fn frame_states<N: GameNode>(f: AlphaBetaNode<N>) -> Seq<N::State> {
    f.states@
}

/// What a node's search comes to once its current child returns `v`
spec fn frame_result<S: SelectionPolicy>(policy: &S, f: AlphaBetaNode<S::TreeNode>, v: int) -> int {
    let b2 = raised_bound(f.turn, f.bound as int, v);
    if is_cutoff(f.turn, b2, f.alpha as int, f.beta as int) {
        b2
    } else {
        ab_fold(policy, frame_states(f), f.turn, f.depth as nat, f.alpha as int, f.beta as int, f.i@ + 1, b2)
    }
}

/// What the whole search comes to once the top of the stack returns `v`
spec fn resume<S: SelectionPolicy>(policy: &S, frames: Seq<AlphaBetaNode<S::TreeNode>>, v: int) -> int
    decreases frames.len(),
{
    if frames.len() == 0 {
        v
    } else {
        resume(policy, frames.drop_last(), frame_result(policy, frames.last(), v))
    }
}

/// The number of nodes in the tree below `s` to depth `d`
spec fn tree_size<S: SelectionPolicy>(policy: &S, s: <S::TreeNode as GameNode>::State, d: nat) -> nat
    decreases d, 1nat, 0nat,
{
    let cs = <S::TreeNode as GameNode>::children_of(s);
    if d == 0 || <S::TreeNode as GameNode>::terminal_of(s) || cs.len() == 0 {
        1
    } else {
        1 + sizes_from(policy, cs, (d - 1) as nat, 0)
    }
}

spec fn sizes_from<S: SelectionPolicy>(policy: &S, cs: Seq<<S::TreeNode as GameNode>::State>, d: nat, i: nat) -> nat
    decreases d + 1, 0nat, cs.len() - i,
{
    if i >= cs.len() {
        0
    } else {
        tree_size(policy, cs[i as int], d) + sizes_from(policy, cs, d, i + 1)
    }
}

/// The nodes still to visit below the children after the current one
spec fn frames_work<S: SelectionPolicy>(policy: &S, frames: Seq<AlphaBetaNode<S::TreeNode>>) -> nat
    decreases frames.len(),
{
    if frames.len() == 0 {
        0
    } else {
        frames_work(policy, frames.drop_last()) + sizes_from(policy, frame_states(frames.last()), frames.last().depth as nat, frames.last().i@ + 1)
    }
}

/// A measure of the work left, which every step of the search decreases
spec fn search_measure<S: SelectionPolicy>(policy: &S, frames: Seq<AlphaBetaNode<S::TreeNode>>, returning: bool) -> nat {
    if frames.len() == 0 {
        0
    } else {
        let top = frames.last();
        let current = if returning { 0 } else { tree_size(policy, frame_states(top)[top.i@ as int], top.depth as nat) };
        2 * (frames_work(policy, frames) + current) + frames.len() + if returning { 1nat } else { 0nat }
    }
}

/// Each frame has a current child, whose state is the `i`-th, and its
/// iteration holds the states after it
spec fn frame_ok<N: GameNode>(f: AlphaBetaNode<N>) -> bool {
    &&& f.i@ < f.states@.len()
    &&& f.states@[f.i@ as int] == f.current.state()
    &&& f.iter.remaining() == f.states@.skip(f.i@ + 1 as int)
}

spec fn frames_ok<N: GameNode>(frames: Seq<AlphaBetaNode<N>>) -> bool {
    forall|k: int| 0 <= k < frames.len() ==> frame_ok(#[trigger] frames[k])
}

proof fn lemma_tree_size_pos<S: SelectionPolicy>(policy: &S, s: <S::TreeNode as GameNode>::State, d: nat)
    ensures
        tree_size(policy, s, d) >= 1,
{
}

/// Alpha-beta search of `root` to `depth` plies, walking the tree with an
/// explicit stack instead of recursion. For a policy whose evaluation is a
/// function of the position, the result is the full-width minimax value.
pub fn alphabeta<S: SelectionPolicy>(root: &S::TreeNode, policy: &S, depth: usize) -> (r: i64)
    ensures
        policy.evaluates_exactly() ==> r as int == minimax(policy, root.state(), depth as nat),
{
    let ghost target = ab_value(policy, root.state(), depth as nat, i64::MIN as int, i64::MAX as int);
    proof {
        lemma_ab_value(policy, root.state(), depth as nat, i64::MIN as int, i64::MAX as int);
        lemma_minimax_range(policy, root.state(), depth as nat);
    }
    if depth == 0 || root.is_terminal() {
        return eval_node(policy, root);
    }
    let mut children = root.convert();
    let ghost root_states = children.remaining();
    let first = match children.next_child() {
        Some(c) => c,
        None => {
            return eval_node(policy, root);
        },
    };
    let turn = root.turn();
    let bound = if turn == Role::Attacker { i64::MIN } else { i64::MAX };
    let mut stack: Vec<AlphaBetaNode<S::TreeNode>> = Vec::new();
    let top = AlphaBetaNode {
        iter: children,
        current: first,
        states: Ghost(root_states),
        i: Ghost(0nat),
        bound,
        alpha: i64::MIN,
        beta: i64::MAX,
        depth: depth - 1,
        turn,
    };
    proof {
        assert(root_states.skip(1) =~= top.iter.remaining());
    }
    stack.push(top);
    let mut ret: Option<i64> = None;
    proof {
        assert(stack@.drop_last() =~= Seq::<AlphaBetaNode<S::TreeNode>>::empty());
        assert(frames_ok(stack@)) by {
            assert forall|k: int| 0 <= k < stack@.len() implies frame_ok(#[trigger] stack@[k]) by {
                assert(stack@[k] == top);
            }
        }
    }
    loop
        invariant
            stack@.len() > 0,
            frames_ok(stack@),
            forall|n: S::TreeNode| #[trigger] <S::TreeNode as GameNode>::Convert::state_of(n) == n.state(),
            policy.evaluates_exactly() ==> within_window(target, minimax(policy, root.state(), depth as nat), i64::MIN as int, i64::MAX as int),
            policy.evaluates_exactly() ==> i64::MIN <= minimax(policy, root.state(), depth as nat) <= i64::MAX,
            policy.evaluates_exactly() ==> match ret {
                Some(v) => resume(policy, stack@, v as int) == target,
                None => resume(policy, stack@.drop_last(), ab_fold(policy, frame_states(stack@.last()), stack@.last().turn, stack@.last().depth as nat,
                    stack@.last().alpha as int, stack@.last().beta as int, stack@.last().i@, stack@.last().bound as int)) == target,
            },
        decreases search_measure(policy, stack@, ret is Some),
    {
        let ghost before = stack@;
        let ghost measure_before = search_measure(policy, stack@, ret is Some);
        let mut f = stack.pop().unwrap();
        proof {
            assert(before.last() == f);
            assert(before.drop_last() == stack@);
            assert(frames_ok(stack@)) by {
                assert forall|k: int| 0 <= k < stack@.len() implies frame_ok(#[trigger] stack@[k]) by {
                    assert(stack@[k] == before[k]);
                }
            }
            assert(frame_ok(f)) by {
                assert(before[before.len() - 1] == f);
            }
        }
        match ret {
            Some(v) => {
                let b2 = if f.turn == Role::Attacker {
                    if v > f.bound { v } else { f.bound }
                } else {
                    if v < f.bound { v } else { f.bound }
                };
                let cut = if f.turn == Role::Attacker { b2 >= f.beta } else { b2 <= f.alpha };
                let ghost fv = f;
                let next = if cut { None } else { f.iter.next_child() };
                match next {
                    None => {
                        proof {
                            if !cut {
                                assert(fv.states@.skip(fv.i@ + 1 as int).len() == 0);
                            }
                            if policy.evaluates_exactly() {
                                assert(frame_result(policy, fv, v as int) == b2 as int);
                                assert(resume(policy, before, v as int) == resume(policy, stack@, b2 as int));
                            }
                        }
                        if stack.len() == 0 {
                            return b2;
                        }
                        ret = Some(b2);
                        proof {
                            if policy.evaluates_exactly() {
                                assert(resume(policy, stack@, b2 as int) == target);
                            }
                            assert(search_measure(policy, stack@, true) < measure_before);
                        }
                    },
                    Some(c) => {
                        proof {
                            let rest = fv.states@.skip(fv.i@ + 1 as int);
                            assert(rest == seq![c.state()] + f.iter.remaining());
                            assert(rest[0] == fv.states@[fv.i@ + 1 as int]);
                            assert(f.iter.remaining() =~= fv.states@.skip(fv.i@ + 2 as int)) by {
                                assert forall|k: int| 0 <= k < f.iter.remaining().len() implies f.iter.remaining()[k] == fv.states@.skip(fv.i@ + 2 as int)[k] by {
                                    assert(f.iter.remaining()[k] == rest[k + 1]);
                                }
                            }
                        }
                        f.current = c;
                        f.i = Ghost((f.i@ + 1) as nat);
                        f.bound = b2;
                        let ghost fi = f;
                        stack.push(f);
                        ret = None;
                        proof {
                            assert(stack@.drop_last() =~= before.drop_last());
                            assert(stack@.last() == fi);
                            assert(frame_states(fi) == frame_states(before.last()));
                            assert(frames_ok(stack@)) by {
                                assert forall|k: int| 0 <= k < stack@.len() implies frame_ok(#[trigger] stack@[k]) by {
                                    if k < stack@.len() - 1 {
                                        assert(stack@[k] == before[k]);
                                    }
                                }
                            }
                            if policy.evaluates_exactly() {
                                assert(resume(policy, before, v as int) == resume(policy, before.drop_last(), frame_result(policy, before.last(), v as int)));
                                assert(frame_result(policy, before.last(), v as int) == ab_fold(policy, frame_states(fi), fi.turn, fi.depth as nat, fi.alpha as int, fi.beta as int, fi.i@, fi.bound as int));
                                assert(resume(policy, stack@.drop_last(), ab_fold(policy, frame_states(stack@.last()), stack@.last().turn, stack@.last().depth as nat,
                                    stack@.last().alpha as int, stack@.last().beta as int, stack@.last().i@, stack@.last().bound as int)) == target);
                            }
                            assert(search_measure(policy, stack@, false) < measure_before);
                        }
                    },
                }
            },
            None => {
                let ghost fs = frame_states(f);
                let ghost fv = f;
                let ca = if f.turn == Role::Attacker { f.bound } else { f.alpha };
                let cb = if f.turn == Role::Attacker { f.beta } else { f.bound };
                let leaf = f.depth == 0 || f.current.is_terminal();
                if leaf {
                    let v = eval_node(policy, &f.current);
                    stack.push(f);
                    ret = Some(v);
                    proof {
                        lemma_tree_size_pos(policy, fs[fv.i@ as int], fv.depth as nat);
                        assert(stack@ =~= before);
                        if policy.evaluates_exactly() {
                            assert(v as int == ab_value(policy, fs[fv.i@ as int], fv.depth as nat, ca as int, cb as int));
                            assert(ab_fold(policy, fs, fv.turn, fv.depth as nat, fv.alpha as int, fv.beta as int, fv.i@, fv.bound as int) == frame_result(policy, fv, v as int));
                            assert(resume(policy, before, v as int) == resume(policy, before.drop_last(), frame_result(policy, fv, v as int)));
                            assert(resume(policy, stack@, v as int) == target);
                        }
                    }
                } else {
                    let mut grand = f.current.convert();
                    let ghost gs = grand.remaining();
                    let ct = f.current.turn();
                    match grand.next_child() {
                        None => {
                            let v = eval_node(policy, &f.current);
                            stack.push(f);
                            ret = Some(v);
                            proof {
                                lemma_tree_size_pos(policy, fs[fv.i@ as int], fv.depth as nat);
                                assert(stack@ =~= before);
                                if policy.evaluates_exactly() {
                                    assert(<S::TreeNode as GameNode>::children_of(fs[fv.i@ as int]).len() == 0);
                                    assert(v as int == ab_value(policy, fs[fv.i@ as int], fv.depth as nat, ca as int, cb as int));
                                    assert(ab_fold(policy, fs, fv.turn, fv.depth as nat, fv.alpha as int, fv.beta as int, fv.i@, fv.bound as int) == frame_result(policy, fv, v as int));
                                    assert(resume(policy, before, v as int) == resume(policy, before.drop_last(), frame_result(policy, fv, v as int)));
                                    assert(resume(policy, stack@, v as int) == target);
                                }
                            }
                        },
                        Some(g) => {
                            let cbound = if ct == Role::Attacker { ca } else { cb };
                            let cf = AlphaBetaNode {
                                iter: grand,
                                current: g,
                                states: Ghost(gs),
                                i: Ghost(0nat),
                                bound: cbound,
                                alpha: ca,
                                beta: cb,
                                depth: f.depth - 1,
                                turn: ct,
                            };
                            proof {
                                assert(gs == seq![g.state()] + cf.iter.remaining());
                                assert(cf.iter.remaining() =~= gs.skip(1)) by {
                                    assert forall|k: int| 0 <= k < cf.iter.remaining().len() implies cf.iter.remaining()[k] == gs.skip(1)[k] by {
                                        assert(cf.iter.remaining()[k] == gs[k + 1]);
                                    }
                                }
                            }
                            let ghost cfv = cf;
                            stack.push(f);
                            stack.push(cf);
                            ret = None;
                            proof {
                                assert(stack@.drop_last() =~= before);
                                assert(stack@.last() == cfv);
                                assert(frames_ok(stack@)) by {
                                    assert forall|k: int| 0 <= k < stack@.len() implies frame_ok(#[trigger] stack@[k]) by {
                                        if k < stack@.len() - 1 {
                                            assert(stack@[k] == before[k]);
                                        }
                                    }
                                }
                                if policy.evaluates_exactly() {
                                    assert(frame_states(cfv) == <S::TreeNode as GameNode>::children_of(fs[fv.i@ as int]));
                                    assert(ab_fold(policy, frame_states(cfv), ct, cfv.depth as nat, ca as int, cb as int, 0, cbound as int) == ab_value(policy, fs[fv.i@ as int], fv.depth as nat, ca as int, cb as int));
                                    assert(ab_fold(policy, fs, fv.turn, fv.depth as nat, fv.alpha as int, fv.beta as int, fv.i@, fv.bound as int) == frame_result(policy, fv, ab_value(policy, fs[fv.i@ as int], fv.depth as nat, ca as int, cb as int)));
                                    assert(resume(policy, before, ab_value(policy, fs[fv.i@ as int], fv.depth as nat, ca as int, cb as int)) == resume(policy, before.drop_last(), frame_result(policy, fv, ab_value(policy, fs[fv.i@ as int], fv.depth as nat, ca as int, cb as int))));
                                    assert(before.last() == fv);
                                    assert(resume(policy, stack@.drop_last(), ab_fold(policy, frame_states(stack@.last()), stack@.last().turn, stack@.last().depth as nat,
                                        stack@.last().alpha as int, stack@.last().beta as int, stack@.last().i@, stack@.last().bound as int)) == target);
                                }
                                assert(search_measure(policy, stack@, false) < measure_before);
                            }
                        },
                    }
                }
            },
        }
    }
}

/// Minimax values are evaluations, so they fit in an i64
pub proof fn lemma_minimax_range<S: SelectionPolicy>(policy: &S, s: <S::TreeNode as GameNode>::State, d: nat)
    ensures
        i64::MIN <= minimax(policy, s, d) <= i64::MAX,
    decreases d, 1nat, 0nat,
{
    let cs = <S::TreeNode as GameNode>::children_of(s);
    if d == 0 || <S::TreeNode as GameNode>::terminal_of(s) || cs.len() == 0 {
    } else {
        lemma_best_of_range(policy, cs, <S::TreeNode as GameNode>::turn_of(s), (d - 1) as nat, cs.len() as nat);
    }
}

pub proof fn lemma_best_of_range<S: SelectionPolicy>(policy: &S, cs: Seq<<S::TreeNode as GameNode>::State>, turn: Role, d: nat, i: nat)
    ensures
        i64::MIN <= best_of(policy, cs, turn, d, i) <= i64::MAX,
    decreases d + 1, 0nat, i,
{
    if i <= 1 || i > cs.len() {
        if cs.len() > 0 {
            lemma_minimax_range(policy, cs[0], d);
        }
    } else {
        lemma_best_of_range(policy, cs, turn, d, (i - 1) as nat);
        lemma_minimax_range(policy, cs[i - 1], d);
    }
}

} // verus!
