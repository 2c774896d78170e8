use hnefatafl::alpha_beta::{alphabeta, GameNode, SelectionPolicy};
use hnefatafl::board::Board;
use hnefatafl::game::{Play, PositionsTracker, PreviousBoards};
use hnefatafl::game_tree::{GameSummary, GameTreeNode, Threats};
use hnefatafl::heuristics::{
    advance_linearly, edmonds_karp, escape_routes, fewest_turns_to_escape, shortest_escape,
    Advance,
};
use hnefatafl::policy::{
    attacker_corner_penalties, evaluate, heuristic, heuristic_cached, EvalCache, HeuristicPolicy,
    WIN_SCORE,
};
use hnefatafl::space::{AttackerIter, DefenderIter, Role, Space, Square, SquareIter, Status};

fn board(rows: [&str; 11]) -> Board {
    Board::try_from(rows).expect("Test failed")
}

#[test]
fn test_flows() {
    let b = Board::default();
    assert_eq!(escape_routes(&b), 8);
    let b = board([
        ".........O.",
        "..........O",
        "OO.........",
        "K..........",
        "...........",
        "...........",
        "...........",
        "...........",
        "...........",
        "O.........O",
        ".O.......O.",
    ]);
    let king = b.find_the_king().expect("Test failed");
    assert_eq!(edmonds_karp(&b, king, Square { x: 0, y: 0 }), 2);
    assert_eq!(escape_routes(&b), 2);
    let b = board([
        ".O.......O.",
        "..........O",
        "OO.........",
        "K..........",
        "...........",
        "...........",
        "...........",
        "...........",
        "...........",
        "O.........O",
        ".O.......O.",
    ]);
    let king = b.find_the_king().expect("Test failed");
    assert_eq!(edmonds_karp(&b, king, Square { x: 0, y: 0 }), 1);
    assert_eq!(escape_routes(&b), 1);
    let b = board([
        ".O.......O.",
        ".O........O",
        "OO.........",
        "K..........",
        "...........",
        "...........",
        "...........",
        "...........",
        "...........",
        "O.........O",
        ".O.......O.",
    ]);
    assert_eq!(escape_routes(&b), 0);
    let b = board([
        ".O......O..",
        "...........",
        "OO.........",
        "K..........",
        "...........",
        "...........",
        "...........",
        "...........",
        "...........",
        "..........O",
        ".........O.",
    ]);
    assert_eq!(escape_routes(&b), 5);
}

#[test]
fn test_escape_distance() {
    let b = Board::default();
    assert!(shortest_escape(&b).is_none());
    let b = board([
        ".O.......O.",
        ".O........O",
        "OO.........",
        "K..........",
        "...........",
        "...........",
        "...........",
        "...........",
        "...........",
        "O.........O",
        ".O.......O.",
    ]);
    assert!(shortest_escape(&b).is_none());
    let b = board([
        ".........O.",
        ".O........O",
        "OO.........",
        "K..........",
        "...........",
        "...........",
        "...........",
        "...........",
        "...........",
        "O.........O",
        ".O.......O.",
    ]);
    assert_eq!(shortest_escape(&b).expect("Test failed"), 7);
    let b = board([
        ".O.......O.",
        "..........O",
        "OO.........",
        "...........",
        ".....K.....",
        "...........",
        "...........",
        "...........",
        "...........",
        "O.........O",
        ".O.......O.",
    ]);
    assert_eq!(shortest_escape(&b).expect("Test failed"), 9);
    let b = board([
        ".O.......O.",
        "..........O",
        "OO.........",
        "....XX.....",
        "...X.K.....",
        "...........",
        "...........",
        "...........",
        "...........",
        "O.........O",
        ".O.......O.",
    ]);
    assert_eq!(shortest_escape(&b).expect("Test failed"), 11);
}

fn visited_with(sq: Square) -> [bool; 121] {
    let mut v = [false; 121];
    v[sq.y * 11 + sq.x] = true;
    v
}

#[test]
fn test_advance_linearly() {
    let b = Board::default();
    let king = b.find_the_king().expect("Test failed");
    let mut visited = visited_with(king);
    match advance_linearly(king, &b, &mut visited, 0) {
        Advance::Frontier(starts) => assert!(starts.is_empty()),
        Advance::Escape(_) => panic!("Test failed"),
    }
    assert!(fewest_turns_to_escape(&b).is_none());
    let b = board([
        ".O.......O.",
        "...........",
        "OO...X.....",
        "....X.X....",
        "...X.K.O...",
        "...........",
        ".....O.....",
        "...........",
        "...........",
        "O.........O",
        ".O.......O.",
    ]);
    let king = b.find_the_king().expect("Test failed");
    let mut visited = visited_with(king);
    let starts = match advance_linearly(king, &b, &mut visited, 0) {
        Advance::Frontier(starts) => starts.into_iter().collect::<std::collections::HashSet<_>>(),
        Advance::Escape(_) => panic!("Test failed"),
    };
    let expected = std::collections::HashSet::from([
        Square { x: 4, y: 4 },
        Square { x: 6, y: 4 },
        Square { x: 5, y: 5 },
        Square { x: 5, y: 3 },
    ]);
    assert_eq!(starts, expected);
    assert_eq!(fewest_turns_to_escape(&b).expect("Test failed"), 3);
    let b = board([
        ".O.......O.",
        "...........",
        "...........",
        "OO...X.....",
        "....X.X....",
        "...X.K.O...",
        "....XO..O..",
        "......O....",
        "...........",
        "O.........O",
        ".O.......O.",
    ]);
    assert_eq!(fewest_turns_to_escape(&b).expect("Test failed"), 6);
}

/// Escape routes on the starting position are all open; two attackers in
/// a row in front of a corner leave two routes there
#[test]
fn escape_route_counts() {
    assert_eq!(escape_routes(&Board::default()), 8);
    let b = board([
        ".........O.",
        "..........O",
        "OO.........",
        "K..........",
        "...........",
        "...........",
        "...........",
        "...........",
        "...........",
        "O.........O",
        ".O.......O.",
    ]);
    assert_eq!(escape_routes(&b), 2);
    let e = "...........";
    let no_king = board([e, e, e, e, e, e, e, e, e, e, e]);
    assert_eq!(escape_routes(&no_king), 0);
    assert!(shortest_escape(&no_king).is_none());
    assert!(fewest_turns_to_escape(&no_king).is_none());
}

#[test]
fn test_square_iter() {
    let mut squares = std::collections::HashSet::new();
    let mut it: SquareIter = Square::iter();
    while let Some(sq) = it.next() {
        assert!(squares.insert(sq));
        assert!(sq.x < 11);
        assert!(sq.y < 11);
    }
    assert_eq!(squares.len(), 11 * 11);
}

#[test]
fn test_is_ally() {
    assert!(!Space::Empty.is_ally(&Role::Defender));
    assert!(!Space::Empty.is_ally(&Role::Attacker));
    assert!(Space::King.is_ally(&Role::Defender));
    assert!(!Space::King.is_ally(&Role::Attacker));
    assert!(Space::Occupied(Role::Defender).is_ally(&Role::Defender));
    assert!(!Space::Occupied(Role::Defender).is_ally(&Role::Attacker));
    assert!(Space::Occupied(Role::Attacker).is_ally(&Role::Attacker));
    assert!(!Space::Occupied(Role::Attacker).is_ally(&Role::Defender));
}

#[test]
fn test_fmt() {
    assert_eq!(Square { x: 0, y: 10 }.to_string(), "A1");
    assert_eq!(Square { x: 0, y: 0 }.to_string(), "A11");
    assert_eq!(Square { x: 4, y: 6 }.to_string(), "E5");
    assert_eq!(Square { x: 5, y: 5 }.to_string(), "F6");
}

#[test]
fn test_play_invalid_squares() {
    let p = |from, to| Play { role: Role::Defender, from, to };
    assert!(p(Square { x: 0, y: 11 }, Square { x: 0, y: 0 }).valid().is_err());
    assert!(p(Square { x: 11, y: 0 }, Square { x: 0, y: 0 }).valid().is_err());
    assert!(p(Square { x: 0, y: 0 }, Square { x: 0, y: 11 }).valid().is_err());
    assert!(p(Square { x: 0, y: 0 }, Square { x: 11, y: 0 }).valid().is_err());
}

#[test]
fn test_straight_line() {
    let p = |from, to| Play { role: Default::default(), from, to };
    assert!(p(Square { x: 0, y: 0 }, Square { x: 10, y: 10 }).valid().is_err());
    assert!(p(Square { x: 5, y: 5 }, Square { x: 5, y: 5 }).valid().is_err());
    assert!(p(Square { x: 6, y: 6 }, Square { x: 5, y: 5 }).valid().is_err());
    assert!(p(Square { x: 6, y: 6 }, Square { x: 9, y: 6 }).valid().is_ok());
    assert!(p(Square { x: 6, y: 6 }, Square { x: 6, y: 0 }).valid().is_ok());
}

fn node(rows: [&str; 11], turn: Role) -> GameTreeNode {
    GameTreeNode {
        status: Status::Ongoing,
        previous_boards: PositionsTracker::Counter(0),
        turn,
        current_board: board(rows),
    }
}

fn after(game: &GameTreeNode, play: &Play) -> Board {
    let mut g = game.duplicate();
    g.current_board
        .play(play, &g.status, &mut g.previous_boards)
        .expect("Test failed");
    g.current_board.normalize();
    g.current_board
}

#[test]
fn test_threats() {
    let rows = [
        "...........",
        "...........",
        ".X.........",
        ".X.........",
        ".X.........",
        ".X.........",
        "...........",
        ".X.........",
        "KX.........",
        ".X.........",
        "...........",
    ];
    let mut game = node(rows, Role::Attacker);
    assert!(matches!(game.threats(), Threats::Quiet));
    game.turn = Role::Defender;
    let expected: Vec<Board> = [
        Play { role: Role::Defender, from: Square { x: 0, y: 8 }, to: Square { x: 0, y: 0 } },
        Play { role: Role::Defender, from: Square { x: 0, y: 8 }, to: Square { x: 0, y: 10 } },
    ]
    .iter()
    .map(|p| after(&game, p))
    .collect();
    let threats = match game.threats() {
        Threats::Quiet => panic!("Test failed"),
        Threats::Plays(games) => games.into_iter().map(|g| g.current_board).collect::<Vec<_>>(),
    };
    assert_eq!(threats, expected);

    let game = node(
        [
            "...........",
            "...........",
            ".X.........",
            ".X.........",
            ".X.........",
            ".X.........",
            "...........",
            "OX.........",
            "KX.........",
            ".X.........",
            "...........",
        ],
        Role::Defender,
    );
    let expected = vec![after(
        &game,
        &Play { role: Role::Defender, from: Square { x: 0, y: 8 }, to: Square { x: 0, y: 10 } },
    )];
    let threats = match game.threats() {
        Threats::Quiet => panic!("Test failed"),
        Threats::Plays(games) => games.into_iter().map(|g| g.current_board).collect::<Vec<_>>(),
    };
    assert_eq!(threats, expected);

    let game = node(
        [
            "...........",
            "...........",
            ".X.........",
            ".X.........",
            ".X.........",
            ".X.........",
            "...........",
            "OX.........",
            "KX.........",
            "OX.........",
            "...........",
        ],
        Role::Defender,
    );
    assert!(matches!(game.threats(), Threats::Quiet));
    let game = node(
        [
            "...........",
            "...........",
            ".X.........",
            ".X.........",
            ".X.........",
            ".X.........",
            "...........",
            "O..........",
            "....K......",
            "...........",
            "...........",
        ],
        Role::Defender,
    );
    assert!(matches!(game.threats(), Threats::Quiet));
}

/// A count of 100 positions ends an undecided game in a draw
#[test]
fn hundred_positions_draw() {
    let b = Board::default();
    let play = Play { role: Role::Attacker, from: Square { x: 3, y: 0 }, to: Square { x: 3, y: 2 } };
    let (_, _, status) = b
        .play_internal(&play, &Status::Ongoing, &PositionsTracker::Counter(100))
        .expect("Test failed");
    assert_eq!(status, Status::Draw);
    let (_, _, status) = b
        .play_internal(&play, &Status::Ongoing, &PositionsTracker::Counter(99))
        .expect("Test failed");
    assert_eq!(status, Status::Ongoing);
    let err = b
        .play_internal(&play, &Status::Draw, &PositionsTracker::Counter(0))
        .unwrap_err();
    assert_eq!(err.to_string(), "The game has to be ongoing to play");
}

/// A capture between two defenders on open ground; the king is never
/// taken this way
#[test]
fn custodial_capture_scenario() {
    let b = board([
        "...........",
        "...........",
        "...........",
        "...X.OX....",
        "...........",
        "...........",
        "...........",
        "...........",
        ".......K...",
        "...........",
        "...........",
    ]);
    let mut m = b.clone();
    let (caps, status) = m
        .play(
            &Play { role: Role::Defender, from: Square { x: 3, y: 3 }, to: Square { x: 4, y: 3 } },
            &Status::Ongoing,
            &mut PositionsTracker::Previous(PreviousBoards::new()),
        )
        .expect("Test failed");
    assert_eq!(caps, vec![Square { x: 5, y: 3 }]);
    // the attackers have no piece left to move
    assert_eq!(status, Status::DefendersWin);
    assert_eq!(m.get(&Square { x: 5, y: 3 }), Space::Empty);
    assert_eq!(m.attackers(), 0);
    let king_between = board([
        "...........",
        "...........",
        "...........",
        "...O.KO....",
        "...........",
        "...........",
        "...........",
        "...........",
        "...........",
        "...........",
        "...........",
    ]);
    assert!(king_between.captures(&Square { x: 4, y: 3 }, &Role::Attacker).is_empty());
}

/// The king with four attackers around him is captured
#[test]
fn king_capture_scenario() {
    let b = board([
        "...........",
        "...........",
        "...........",
        "....O......",
        "...OKO.....",
        "....O......",
        "...........",
        "...........",
        "...........",
        "...........",
        "...........",
    ]);
    assert!(b.capture_the_king());
    let b = board([
        "...........",
        "...........",
        "...........",
        "....O......",
        "...OKX.....",
        "....O......",
        "...........",
        "...........",
        "...........",
        "...........",
        "...........",
    ]);
    assert!(!b.capture_the_king());
}

#[test]
fn heuristic_values() {
    let mut game = GameTreeNode::new(PositionsTracker::Counter(0));
    // 24 attackers, 13 defenders, 8 routes, no escape: (24 - 13 - 11) + 8 - 8
    assert_eq!(heuristic(&game), 0);
    game.status = Status::AttackersWin;
    assert_eq!(heuristic(&game), WIN_SCORE);
    game.turn = Role::Defender;
    assert_eq!(heuristic(&game), -WIN_SCORE);
    game.status = Status::Draw;
    assert_eq!(heuristic(&game), 0);
    let b = board([
        ".O.........",
        "...........",
        "...........",
        "...........",
        "...........",
        ".....K.....",
        "...........",
        "...........",
        "...........",
        "...........",
        "...........",
    ]);
    assert_eq!(attacker_corner_penalties(&b), -500_000);
    assert_eq!(evaluate(Status::Ongoing, Role::Attacker, &b, 3, Some(2)), 1_000_000 * ((1 - 1 - 11) + 2 - 3) - 500_000);
    assert_eq!(evaluate(Status::Ongoing, Role::Defender, &b, 3, None), -(1_000_000 * ((1 - 1 - 11) + 8 - 3) - 500_000));
    assert_eq!(evaluate(Status::DefendersWin, Role::Attacker, &b, 3, None), -WIN_SCORE);
}

/// Brute-force minimax over the children of a node, to compare with alpha-beta
fn minimax(policy: &HeuristicPolicy, n: &GameTreeNode, depth: usize) -> i64 {
    let children = n.get_children();
    if depth == 0 || n.is_terminal() || children.is_empty() {
        return match n.turn {
            Role::Attacker => policy.eval_attacker(n),
            Role::Defender => policy.eval_defender(n),
        };
    }
    let values = children.iter().map(|c| minimax(policy, c, depth - 1));
    match n.turn {
        Role::Attacker => values.max().expect("Test failed"),
        Role::Defender => values.min().expect("Test failed"),
    }
}

#[test]
fn alphabeta_matches_minimax() {
    let game = node(
        [
            "...........",
            "...........",
            "...........",
            "...........",
            "...........",
            ".....K.....",
            "...........",
            "...........",
            "...........",
            "..O........",
            "...........",
        ],
        Role::Attacker,
    );
    let policy = HeuristicPolicy;
    for depth in 0..3 {
        assert_eq!(alphabeta(&game, &policy, depth), minimax(&policy, &game, depth));
    }
    let children = game.get_children();
    assert!(!children.is_empty());
    assert_eq!(GameNode::turn(&children[0]), Role::Defender);
    let summary = GameSummary::from(&children[0]);
    assert_eq!(summary.moves, 1);
    assert_eq!(summary.turn(), Role::Defender);
}

const OUTER_LIMITS: [usize; 6] = [0, 1, 2, 8, 9, 10];

/// Test that the attacker iteration yields values in the outer
/// three layers first and yields no restricted squares.
#[test]
fn test_attacker_iter() {
    const OUTER_VALUES: usize = 121 - 25 - 4;
    const INNER_VALUES: usize = 25 - 1;
    let mut iter = AttackerIter::new();
    let mut visited = std::collections::HashSet::new();
    for _ in 0..OUTER_VALUES {
        let next = iter.next().expect("Test failed");
        assert!(OUTER_LIMITS.contains(&next.x) || OUTER_LIMITS.contains(&next.y));
        assert!(!next.is_restricted());
        assert!(visited.insert(next));
    }
    for _ in 0..INNER_VALUES {
        let next = iter.next().expect("Test failed");
        assert!(!OUTER_LIMITS.contains(&next.x) && !OUTER_LIMITS.contains(&next.y));
        assert!(!next.is_restricted());
        assert!(visited.insert(next));
    }
    assert_eq!(visited.len(), 121 - 5);
    assert!(iter.next().is_none());
}

/// Test that the defender iteration yields values in the inner 5 x 5
/// square first.
#[test]
fn test_defender_iter() {
    const OUTER_VALUES: usize = 121 - 25;
    const INNER_VALUES: usize = 25;
    let mut iter = DefenderIter::new();
    let mut visited = std::collections::HashSet::new();
    for _ in 0..INNER_VALUES {
        let next = iter.next().expect("Test failed");
        assert!(!OUTER_LIMITS.contains(&next.x) && !OUTER_LIMITS.contains(&next.y));
        assert!(visited.insert(next));
    }
    for _ in 0..OUTER_VALUES {
        let next = iter.next().expect("Test failed");
        assert!(OUTER_LIMITS.contains(&next.x) || OUTER_LIMITS.contains(&next.y));
        assert!(visited.insert(next));
    }
    assert_eq!(visited.len(), 121);
    assert!(iter.next().is_none());
}

/// The lazy iteration yields the same children, in the same order, as the
/// eager one
#[test]
fn lazy_children_match_eager() {
    let game = node(
        [
            "...........",
            "...........",
            "...........",
            "...........",
            "...........",
            ".....K.....",
            "...........",
            "...........",
            "...........",
            "..O.....X..",
            "...........",
        ],
        Role::Defender,
    );
    let eager: Vec<Board> = game.get_children().into_iter().map(|c| c.current_board).collect();
    let mut lazy = game.duplicate().children();
    let mut boards = vec![];
    while let Some(c) = lazy.next() {
        boards.push(c.current_board);
    }
    assert_eq!(boards, eager);
    assert!(lazy.next().is_none());
}

/// The cache keeps one entry for all orientations of a position
#[test]
fn evaluation_cache_shares_orientations() {
    let game = node(
        [
            ".O.......O.",
            "..........O",
            "OO.........",
            "K..........",
            "...........",
            "...........",
            "...........",
            "...........",
            "...........",
            "O.........O",
            ".O.......O.",
        ],
        Role::Attacker,
    );
    let mut cache = EvalCache::new();
    let v = heuristic_cached(&game, &mut cache);
    assert_eq!(v, heuristic(&game));
    assert_eq!(cache.len(), 1);
    let mut flipped = game.duplicate();
    hnefatafl::symmetries::D8Generator::FR.apply(&mut flipped.current_board);
    assert_eq!(heuristic_cached(&flipped, &mut cache), v);
    assert_eq!(cache.len(), 1);
}

/// From the starting position, mirror-image moves give one child only
#[test]
fn children_one_per_symmetry_class() {
    let game = GameTreeNode::new(PositionsTracker::Counter(0));
    let children = game.get_children();
    let hashes: std::collections::HashSet<_> =
        children.iter().map(|c| hnefatafl::symmetries::canonical_hash(&c.current_board)).collect();
    assert_eq!(hashes.len(), children.len());
    let mut left = game.current_board.clone();
    let mut right = game.current_board.clone();
    left.set(&Square { x: 3, y: 0 }, Space::Empty);
    left.set(&Square { x: 3, y: 1 }, Space::Occupied(Role::Attacker));
    right.set(&Square { x: 7, y: 0 }, Space::Empty);
    right.set(&Square { x: 7, y: 1 }, Space::Occupied(Role::Attacker));
    let class = hnefatafl::symmetries::canonical_hash(&left);
    assert_eq!(hnefatafl::symmetries::canonical_hash(&right), class);
    let found = children
        .iter()
        .filter(|c| hnefatafl::symmetries::canonical_hash(&c.current_board) == class)
        .count();
    assert_eq!(found, 1);
}

#[test]
fn square_names() {
    assert_eq!(Square::from_str("A1"), Some(Square { x: 0, y: 10 }));
    assert_eq!(Square::from_str("a11"), Some(Square { x: 0, y: 0 }));
    assert_eq!(Square::from_str("E5"), Some(Square { x: 4, y: 6 }));
    assert_eq!(Square::from_str("f6"), Some(Square { x: 5, y: 5 }));
    assert_eq!(Square::from_str("K011"), Some(Square { x: 10, y: 0 }));
    assert_eq!(Square::from_str("L5"), None);
    assert_eq!(Square::from_str("A0"), None);
    assert_eq!(Square::from_str("A12"), None);
    assert_eq!(Square::from_str("A"), None);
    assert_eq!(Square::from_str("A1x"), None);
    for x in 0..11 {
        for y in 0..11 {
            let sq = Square { x, y };
            assert_eq!(Square::from_str(&sq.to_string()), Some(sq));
        }
    }
}

/// The escape-route count is the same for every orientation of a board
#[test]
fn escape_routes_under_symmetries() {
    let b = board([
        ".O......O..",
        "...........",
        "OO.........",
        "K..........",
        "...........",
        "...........",
        "...........",
        "...........",
        "...........",
        "..........O",
        ".........O.",
    ]);
    let routes = escape_routes(&b);
    assert_eq!(routes, 5);
    for element in hnefatafl::symmetries::d8() {
        let mut image = b.clone();
        element.apply(&mut image);
        assert_eq!(escape_routes(&image), routes);
    }
}
