use std::collections::HashSet;

use hnefatafl::board::Board;
use hnefatafl::game::{Play, PositionsTracker};
use hnefatafl::space::{Role, Square, Status};
use hnefatafl::symmetries::{canonical_hash, d8, D8Generator, NormalizedBoardMap, NormalizedBoards};

/// Test that the normalization of the board is
/// correctly computed and is a valid symmetry
#[test]
fn test_normalize() {
    let mut board = Board::try_from([
        "K..........",
        "...........",
        ".X.........",
        ".X.........",
        ".X.........",
        ".X.........",
        "...........",
        ".X.........",
        ".X.........",
        ".X.........",
        "...........",
    ])
    .expect("Test failed");
    let expected = board.clone();
    board.normalize();
    assert_eq!(board, expected);

    let mut board = Board::try_from([
        "...........",
        "...........",
        ".X.........",
        ".X.........",
        ".X.........",
        ".X.........",
        "...........",
        ".X.........",
        ".X.........",
        ".X.........",
        "K..........",
    ])
    .expect("Test failed");
    board.normalize();
    let expected = Board::try_from([
        "K..........",
        ".X.........",
        ".X.........",
        ".X.........",
        "...........",
        ".X.........",
        ".X.........",
        ".X.........",
        ".X.........",
        "...........",
        "...........",
    ])
    .expect("Test failed");
    assert_eq!(board, expected);

    let mut board = Board::try_from([
        "...........",
        "...........",
        ".X.........",
        ".X.........",
        ".X.........",
        ".X.........",
        "...........",
        ".X.........",
        ".X.........",
        ".X........K",
        "...........",
    ])
    .expect("Test failed");
    board.normalize();
    let expected = Board::try_from([
        ".K.........",
        "...........",
        "...........",
        "...........",
        "...........",
        "...........",
        "...........",
        "...........",
        "...........",
        ".XXX.XXXX..",
        "...........",
    ])
    .expect("Test failed");
    assert_eq!(board, expected);
}

fn one_king(rows: [&str; 11]) -> Board {
    Board::try_from(rows).expect("Test failed")
}

/// Test listing all symmetric equivalents of a board
#[test]
fn test_symmetries() {
    let board = Board::default();
    assert_eq!(
        HashSet::from([board.clone()]),
        board.symmetries().into_iter().collect::<HashSet<_>>()
    );
    let e = "...........";
    let board = one_king([".K.........", e, e, e, e, e, e, e, e, e, e]);
    let expected = HashSet::from([
        one_king([".K.........", e, e, e, e, e, e, e, e, e, e]),
        one_king([e, "K..........", e, e, e, e, e, e, e, e, e]),
        one_king([".........K.", e, e, e, e, e, e, e, e, e, e]),
        one_king([e, "..........K", e, e, e, e, e, e, e, e, e]),
        one_king([e, e, e, e, e, e, e, e, e, "K..........", e]),
        one_king([e, e, e, e, e, e, e, e, e, e, ".K........."]),
        one_king([e, e, e, e, e, e, e, e, e, "..........K", e]),
        one_king([e, e, e, e, e, e, e, e, e, e, ".........K."]),
    ]);
    assert_eq!(expected, board.symmetries().into_iter().collect::<HashSet<_>>());
}

fn threatening_board() -> Board {
    Board::try_from([
        "...OOOOO...",
        "...X....O..",
        ".........O.",
        "...O.X....O",
        "O....XX...O",
        "...O..XX..O",
        "O.O.....O.O",
        "OX.O.......",
        "..........K",
        ".....O.....",
        "....OO.O...",
    ])
    .expect("Test failed")
}

/// Every board reached by a different attacker move has a different
/// canonical hash
#[test]
fn test_symmetric_hash() {
    let board = threatening_board();
    let previous_boards = PositionsTracker::Counter(0);
    let mut normalized_boards = NormalizedBoards::new();
    for f in 0..121 {
        for t in 0..121 {
            let play = Play {
                role: Role::Attacker,
                from: Square { x: f / 11, y: f % 11 },
                to: Square { x: t / 11, y: t % 11 },
            };
            if let Ok((board, _, _)) = board.play_internal(&play, &Status::Ongoing, &previous_boards) {
                assert!(normalized_boards.insert(&board));
            }
        }
    }
}

/// The canonical hash is the same for all eight orientations of a board
#[test]
fn canonical_hash_invariant_under_d8() {
    let board = threatening_board();
    let h = canonical_hash(&board);
    for element in d8() {
        let mut b = board.clone();
        element.apply(&mut b);
        assert_eq!(canonical_hash(&b), h);
    }
    let mut other = board.clone();
    other.set(&Square { x: 3, y: 0 }, hnefatafl::space::Space::Empty);
    assert_ne!(canonical_hash(&other), h);
}

/// Normalizing twice is normalizing once
#[test]
fn normalize_idempotent() {
    let mut board = threatening_board();
    board.normalize();
    let once = board.clone();
    board.normalize();
    assert_eq!(board, once);
    let king = board.find_the_king().expect("Test failed");
    assert!(king.x <= 5 && king.y <= 5 && king.y <= king.x);
}

/// The generators are involutions, and the eight elements give eight
/// different boards of an asymmetric position
#[test]
fn generators_and_elements() {
    let board = threatening_board();
    for g in [D8Generator::F, D8Generator::FR] {
        let mut b = board.clone();
        g.apply(&mut b);
        assert_ne!(b, board);
        g.apply(&mut b);
        assert_eq!(b, board);
    }
    let images = board.symmetries();
    assert_eq!(images.len(), 8);
}

/// A set of boards up to symmetry holds one entry per class
#[test]
fn normalized_boards_by_class() {
    let board = threatening_board();
    let mut set = NormalizedBoards::new();
    assert!(set.insert(&board));
    let mut mirrored = board.clone();
    D8Generator::F.apply(&mut mirrored);
    assert!(set.contains(&mirrored));
    assert!(!set.insert(&mirrored));
    assert!(set.remove(&mirrored));
    assert!(!set.contains(&board));
    assert!(!set.remove(&board));
}

/// A map from boards up to symmetry keeps one value per class
#[test]
fn normalized_board_map_by_class() {
    let board = threatening_board();
    let mut mirrored = board.clone();
    D8Generator::FR.apply(&mut mirrored);
    let mut map: NormalizedBoardMap<i64> = NormalizedBoardMap::new();
    assert_eq!(map.insert(&board, 5), None);
    assert!(map.contains_key(&mirrored));
    assert_eq!(map.get(&mirrored), Some(5));
    assert_eq!(map.insert(&mirrored, 7), Some(5));
    assert_eq!(map.len(), 1);
    assert_eq!(map.get(&board), Some(7));
    assert_eq!(map.remove(&board), Some(7));
    assert_eq!(map.get(&mirrored), None);
    assert_eq!(map.remove(&board), None);
}
