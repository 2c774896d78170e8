use hnefatafl::board::{Board, BoardError};
use hnefatafl::game::{Play, PositionsTracker, PreviousBoards};
use hnefatafl::space::{Role, Space, Square, Status};

fn empty_tracker() -> PositionsTracker {
    PositionsTracker::Previous(PreviousBoards::new())
}

/// Test we can detect if a side still has a legal move
#[test]
fn test_legal_move_exists() {
    let board = Board::default();
    assert!(board.a_legal_move_exists(&Role::Defender));
    assert!(board.a_legal_move_exists(&Role::Attacker));
    let board = [
        "...........",
        "...........",
        "...........",
        "...........",
        "...........",
        "...........",
        "...........",
        "...........",
        "...........",
        ".........O.",
        "........OX.",
    ];
    let board = Board::try_from(board).expect("Test failed");
    assert!(!board.a_legal_move_exists(&Role::Defender));
    assert!(board.a_legal_move_exists(&Role::Attacker));
    let board = [
        "...........",
        "...........",
        "...........",
        "...........",
        "...X.X.....",
        "..XOXKX....",
        "...X.X.....",
        "...........",
        "...........",
        ".........X.",
        "........XO.",
    ];
    let board = Board::try_from(board).expect("Test failed");
    assert!(board.a_legal_move_exists(&Role::Defender));
    assert!(!board.a_legal_move_exists(&Role::Attacker));
}

/// Test that captured pieces are correctly computed
#[test]
fn test_captures() {
    // check that the corner partakes in captures
    let board = [
        "...........",
        "...........",
        "...........",
        "...........",
        ".....K.....",
        "...........",
        "...........",
        "...........",
        "...........",
        "...........",
        "......OXOX.",
    ];
    let board = Board::try_from(board).expect("Test failed");
    assert_eq!(
        board.captures(&Square { x: 8, y: 10 }, &Role::Attacker),
        vec![Square { x: 7, y: 10 }, Square { x: 9, y: 10 }]
    );
    // check that we don't compute king captures with this method
    // and we don't capture empty spaces
    let board = [
        "...........",
        "...........",
        "...........",
        "...........",
        "...........",
        "...........",
        ".....O.....",
        ".....X.....",
        "...OXO.O...",
        "....OKO....",
        ".....O.....",
    ];
    let board = Board::try_from(board).expect("Test failed");
    assert_eq!(
        board.captures(&Square { x: 5, y: 8 }, &Role::Attacker),
        vec![Square { x: 5, y: 7 }, Square { x: 4, y: 8 }]
    );
    // check we don't capture allies
    let board = [
        "...........",
        "...........",
        "...........",
        "...........",
        "...........",
        "...........",
        ".....O.....",
        ".....O.....",
        "...OXO.O...",
        "....OKO....",
        ".....O.....",
    ];
    let board = Board::try_from(board).expect("Test failed");
    assert_eq!(
        board.captures(&Square { x: 5, y: 8 }, &Role::Attacker),
        vec![Square { x: 4, y: 8 }]
    );
}

/// Check that we correctly identify shield wall captures
#[test]
fn test_shield_walls() {
    let board = [
        "...........",
        "O..........",
        "XO.........",
        "XO.........",
        "XO.........",
        "XO.........",
        "O..........",
        "XO.........",
        "KO.........",
        "XO.........",
        "...........",
    ];
    let board = Board::try_from(board).expect("Test failed");
    let captures = board.captures_shield_wall(&Role::Attacker, &Square { x: 0, y: 6 });
    assert_eq!(
        captures,
        vec![
            Square { x: 0, y: 5 },
            Square { x: 0, y: 4 },
            Square { x: 0, y: 3 },
            Square { x: 0, y: 2 },
            Square { x: 0, y: 7 },
            Square { x: 0, y: 9 },
        ],
    );
    // non-flanking moves should not result in shield captures
    let captures = board.captures_shield_wall(&Role::Attacker, &Square { x: 1, y: 5 });
    assert!(captures.is_empty());
    // the situation on the left should be ignored
    let board = [
        "...........",
        "O.........O",
        "XO.......OX",
        "XO.......OX",
        "XO.......OX",
        "XO.......OX",
        "O.........O",
        "XO.......OX",
        "XO.......OK",
        "O.........O",
        "...........",
    ];
    let board = Board::try_from(board).expect("Test failed");
    let captures = board.captures_shield_wall(&Role::Attacker, &Square { x: 10, y: 6 });
    assert_eq!(
        captures,
        vec![
            Square { x: 10, y: 5 },
            Square { x: 10, y: 4 },
            Square { x: 10, y: 3 },
            Square { x: 10, y: 2 },
            Square { x: 10, y: 7 },
        ],
    );
    let board = [
        "...........",
        "...........",
        "...........",
        "...........",
        "...........",
        "...........",
        "...........",
        "...........",
        "...........",
        ".OOO..O....",
        "..KXOXXO...",
    ];
    let board = Board::try_from(board).expect("Test failed");
    let captures = board.captures_shield_wall(&Role::Attacker, &Square { x: 4, y: 10 });
    assert!(captures.is_empty());
}

/// Test we detect when capturing the king
#[test]
fn test_king_capture() {
    // no king
    let board = [
        "...........",
        "O..........",
        "XO.........",
        "XO.........",
        "XO.........",
        "XO.........",
        "O..........",
        "XO.........",
        ".O.........",
        "XO.........",
        "...........",
    ];
    let board = Board::try_from(board).expect("Test failed");
    assert!(!board.capture_the_king());
    // not a king capture
    let board = [
        "...........",
        "O..........",
        "XO.........",
        "XO.........",
        "XO.........",
        "XO.........",
        "...........",
        "OO.........",
        "KO.........",
        "O..........",
        "...........",
    ];
    let board = Board::try_from(board).expect("Test failed");
    assert!(!board.capture_the_king());
    // throne does not partake in capture
    let board = [
        "...........",
        "...........",
        "...........",
        "...........",
        "....O......",
        "...OK......",
        "....O......",
        "...........",
        "...........",
        "...........",
        "...........",
    ];
    let board = Board::try_from(board).expect("Test failed");
    assert!(!board.capture_the_king());
    // a real king capture
    let board = [
        "...........",
        "...........",
        "...........",
        "...........",
        "...OO......",
        "..OKO......",
        "...OO......",
        "...........",
        "...........",
        "...........",
        "...........",
    ];
    let board = Board::try_from(board).expect("Test failed");
    assert!(board.capture_the_king());
}

#[test]
fn test_special_corner_block() {
    let board = [
        ".OO.....OO.",
        "O........OO",
        "O.........O",
        "...........",
        "...........",
        "...........",
        "...........",
        "...........",
        "O........OO",
        "O........OO",
        ".OO.....OO.",
    ];
    let board = Board::try_from(board).expect("Test failed");
    assert!(board.special_corner_block(&Square { x: 0, y: 0 }));
    assert!(board.special_corner_block(&Square { x: 0, y: 10 }));
    assert!(board.special_corner_block(&Square { x: 10, y: 0 }));
    assert!(board.special_corner_block(&Square { x: 10, y: 10 }));
    let board = [
        ".OO.....O..",
        "O........OO",
        "..........O",
        "...........",
        "...........",
        "...........",
        "...........",
        "...........",
        "X..........",
        "O........OO",
        ".OX.....OO.",
    ];
    let board = Board::try_from(board).expect("Test failed");
    assert!(!board.special_corner_block(&Square { x: 0, y: 0 }));
    assert!(!board.special_corner_block(&Square { x: 0, y: 10 }));
    assert!(!board.special_corner_block(&Square { x: 10, y: 0 }));
    assert!(!board.special_corner_block(&Square { x: 10, y: 10 }));
}

/// Test that if the attackers block the corners, they win
#[test]
fn test_attackers_win_flood_fill() {
    let board = Board::default();
    assert!(!board.flood_fill_attackers_win());
    let board = [
        ".O......O..",
        "O........O.",
        "..........O",
        "...........",
        "...........",
        "X..........",
        "...........",
        "...........",
        "O........OO",
        "O........O.",
        ".OO.....O..",
    ];
    let board = Board::try_from(board).expect("Test failed");
    assert!(!board.flood_fill_attackers_win());
    let board = [
        "..O.....O..",
        "OOO......O.",
        "O.........O",
        "...........",
        "...........",
        "X..........",
        "...........",
        "...........",
        "O........OO",
        "O........O.",
        ".OO.....O..",
    ];
    let board = Board::try_from(board).expect("Test failed");
    assert!(board.flood_fill_attackers_win());
    let board = [
        "..O....OXO.",
        "OOO.....OO.",
        "O.........O",
        "...........",
        "...........",
        "X..........",
        "...........",
        "...........",
        "O........OO",
        "O........O.",
        ".OO.....O..",
    ];
    let board = Board::try_from(board).expect("Test failed");
    assert!(!board.flood_fill_attackers_win());
}

/// Test that moving an opponents piece is forbidden
#[test]
fn test_move_opponents_piece() {
    let board = Board::default();
    let previous_boards = empty_tracker();
    let err = board
        .play_internal(
            &Play {
                role: Role::Defender,
                from: Square { x: 3, y: 10 },
                to: Square { x: 3, y: 9 },
            },
            &Status::Ongoing,
            &previous_boards,
        )
        .unwrap_err()
        .to_string();
    assert_eq!(err, "Attempted to move a piece belonging to the opposite player");

    let err = board
        .play_internal(
            &Play {
                role: Role::Attacker,
                from: Square { x: 5, y: 3 },
                to: Square { x: 5, y: 4 },
            },
            &Status::Ongoing,
            &previous_boards,
        )
        .unwrap_err()
        .to_string();
    assert_eq!(err, "Attempted to move a piece belonging to the opposite player");
}

/// Test that moving pieces through other pieces is forbidden
#[test]
fn test_moving_through_other_pieces() {
    let board = Board::default();
    let previous_boards = empty_tracker();
    let throne = Square { x: 5, y: 5 };
    for to in [
        Square { x: 2, y: 5 },
        Square { x: 8, y: 5 },
        Square { x: 5, y: 8 },
        Square { x: 5, y: 2 },
    ] {
        let err = board
            .play_internal(
                &Play {
                    role: Role::Defender,
                    from: throne,
                    to,
                },
                &Status::Ongoing,
                &previous_boards,
            )
            .unwrap_err()
            .to_string();
        assert_eq!(err, "Attempted to move a piece through another piece");
    }
}

/// Test moving to / through restricted squares
#[test]
fn test_restricted_squares() {
    let board = [
        ".....O.....",
        "...........",
        "...........",
        "...........",
        "...........",
        "K..........",
        "...........",
        "...........",
        "...........",
        "..........X",
        ".....X.....",
    ];
    let board = Board::try_from(board).expect("Test failed");
    let previous_boards = empty_tracker();
    let play = |role, from, to| Play { role, from, to };
    // passing through throne is allowed
    assert!(board
        .play_internal(&play(Role::Attacker, Square { x: 5, y: 0 }, Square { x: 5, y: 9 }), &Status::Ongoing, &previous_boards)
        .is_ok());
    assert!(board
        .play_internal(&play(Role::Defender, Square { x: 5, y: 10 }, Square { x: 5, y: 1 }), &Status::Ongoing, &previous_boards)
        .is_ok());
    // stopping on throne is forbidden
    let err = board
        .play_internal(&play(Role::Attacker, Square { x: 5, y: 0 }, Square { x: 5, y: 5 }), &Status::Ongoing, &previous_boards)
        .unwrap_err()
        .to_string();
    assert_eq!(err, "Only the king may move to a restricted square");
    let err = board
        .play_internal(&play(Role::Defender, Square { x: 5, y: 10 }, Square { x: 5, y: 5 }), &Status::Ongoing, &previous_boards)
        .unwrap_err()
        .to_string();
    assert_eq!(err, "Only the king may move to a restricted square");
    // only king can move to corner
    let err = board
        .play_internal(&play(Role::Attacker, Square { x: 5, y: 0 }, Square { x: 10, y: 0 }), &Status::Ongoing, &previous_boards)
        .unwrap_err()
        .to_string();
    assert_eq!(err, "Only the king may move to a restricted square");
    let err = board
        .play_internal(&play(Role::Defender, Square { x: 10, y: 9 }, Square { x: 10, y: 10 }), &Status::Ongoing, &previous_boards)
        .unwrap_err()
        .to_string();
    assert_eq!(err, "Only the king may move to a restricted square");
    // king can move to restricted squares
    assert!(board
        .play_internal(&play(Role::Defender, Square { x: 0, y: 5 }, Square { x: 5, y: 5 }), &Status::Ongoing, &previous_boards)
        .is_ok());
    assert!(board
        .play_internal(&play(Role::Defender, Square { x: 0, y: 5 }, Square { x: 0, y: 10 }), &Status::Ongoing, &previous_boards)
        .is_ok());
}

/// Test rules regarding repetitions of board positions
#[test]
fn test_repetitions() {
    let board = [
        "...OOOOO...",
        ".....O.....",
        "...........",
        "O....X....O",
        "O...XXX...O",
        "OO..XKXX.OO",
        "O..XXXX...O",
        "O....X....O",
        "...........",
        ".....O.....",
        "...OOOOO...",
    ];
    let board = Board::try_from(board).expect("Test failed");
    let mut previous_boards = empty_tracker();
    previous_boards.insert(&Board::default());
    // cannot repeat if defender
    let err = board
        .play_internal(
            &Play {
                role: Role::Defender,
                from: Square { x: 3, y: 6 },
                to: Square { x: 3, y: 5 },
            },
            &Status::Ongoing,
            &previous_boards,
        )
        .expect_err("Test failed")
        .to_string();
    assert_eq!(err, "A defender can't repeat a board position");
    // can repeat if attacker
    let board = [
        "...OOOOO...",
        ".....O.....",
        "...........",
        "O....X....O",
        "O...XXX...O",
        "O..XXKXX.OO",
        "O...XXX...O",
        "O....X....O",
        "...........",
        ".O...O.....",
        "...OOOOO...",
    ];
    let board = Board::try_from(board).expect("Test failed");
    assert!(board
        .play_internal(
            &Play {
                role: Role::Attacker,
                from: Square { x: 1, y: 9 },
                to: Square { x: 1, y: 5 },
            },
            &Status::Ongoing,
            &previous_boards,
        )
        .is_ok());
}

/// Test that defenders win if the king reaches a corner
#[test]
fn test_king_escape() {
    let board = [
        "...OOOOO...",
        ".....O.....",
        "...........",
        "O....X....O",
        "O...XXX...O",
        "OO..X.XX.OO",
        "O..XXXX...O",
        "O....X....O",
        "..........K",
        ".....O.....",
        "...OOOOO...",
    ];
    let board = Board::try_from(board).expect("Test failed");
    let previous_boards = empty_tracker();
    let (_, _, status) = board
        .play_internal(
            &Play {
                role: Role::Defender,
                from: Square { x: 10, y: 8 },
                to: Square { x: 10, y: 10 },
            },
            &Status::Ongoing,
            &previous_boards,
        )
        .expect("Test failed");
    assert_eq!(status, Status::DefendersWin);
}

#[test]
fn test_captures_removes_pieces() {
    let board = [
        "...OOOOO...",
        ".....OX....",
        "...........",
        "O....X....O",
        "O...XX....O",
        "OO.XXKXX.OO",
        "O...XXX...O",
        "O....X....O",
        "...........",
        ".....O.....",
        "...OOOOO...",
    ];
    let mut board = Board::try_from(board).expect("Test failed");
    let mut previous_boards = empty_tracker();
    board
        .play(
            &Play {
                role: Role::Attacker,
                from: Square { x: 7, y: 0 },
                to: Square { x: 7, y: 1 },
            },
            &Status::Ongoing,
            &mut previous_boards,
        )
        .expect("Test failed");
    let board_after = [
        "...OOOO....",
        ".....O.O...",
        "...........",
        "O....X....O",
        "O...XX....O",
        "OO.XXKXX.OO",
        "O...XXX...O",
        "O....X....O",
        "...........",
        ".....O.....",
        "...OOOOO...",
    ];
    let board_after = Board::try_from(board_after).expect("Test failed");
    assert_eq!(board, board_after);
}

/// Test the bitboard representation of `Board`
#[test]
fn test_bitboard() {
    let board = Board::default();
    let bitboard = board.as_bitboard();

    let expected = [
        1u8, 85, 0, 0, 64, 0, 0, 0, 16, 8, 1, 64, 168, 5, 74, 161, 80, 42, 1, 64, 32, 4, 0, 0, 0,
        1, 0, 0, 85, 64,
    ];
    assert_eq!(bitboard, expected);

    let board_after = [
        "...OOOOO...",
        ".....O.....",
        "...........",
        "O....X....O",
        "O...XXX...O",
        "OO.XX.XX.OO",
        "O...XXX...O",
        "O....X....O",
        "...........",
        ".....O.....",
        "...OOOOO..K",
    ];
    let board = Board::try_from(board_after).expect("Test failed");
    let bitboard = board.as_bitboard();

    let expected = [
        1u8, 85, 0, 0, 64, 0, 0, 0, 16, 8, 1, 64, 168, 5, 74, 161, 80, 42, 1, 64, 32, 4, 0, 0, 0,
        1, 0, 0, 85, 67,
    ];
    assert_eq!(bitboard, expected);
}

/// Parsing rejects pieces on restricted squares, a second king, and
/// unknown characters
#[test]
fn parse_errors() {
    let rows = ["..........."; 11];
    assert!(Board::try_from(rows).is_ok());
    let mut bad = rows;
    bad[0] = "O..........";
    assert_eq!(Board::try_from(bad), Err(BoardError::RestrictedSquare));
    let mut bad = rows;
    bad[5] = ".....O.....";
    assert_eq!(Board::try_from(bad), Err(BoardError::RestrictedSquare));
    let mut bad = rows;
    bad[3] = "..K....K...";
    assert_eq!(Board::try_from(bad), Err(BoardError::TwoKings));
    let mut bad = rows;
    bad[3] = "..Q........";
    assert_eq!(Board::try_from(bad), Err(BoardError::InvalidChar));
    let mut bad = rows;
    bad[3] = "....";
    assert_eq!(Board::try_from(bad), Err(BoardError::RowLength));
    let mut kinged = rows;
    kinged[0] = "K..........";
    let b = Board::try_from(kinged).expect("Test failed");
    assert_eq!(b.get(&Square { x: 0, y: 0 }), Space::King);
}

/// The starting position holds 24 attackers and 13 defenders with the king
#[test]
fn starting_material() {
    let board = Board::default();
    assert_eq!(board.attackers(), 24);
    assert_eq!(board.defenders(), 13);
    assert_eq!(board.find_the_king(), Some(Square { x: 5, y: 5 }));
    assert!(board.is_occupied(&Square { x: 5, y: 5 }));
    assert!(!board.is_occupied(&Square { x: 0, y: 0 }));
}
