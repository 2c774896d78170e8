use hnefatafl::board::Board;
use hnefatafl::game::{Play, PositionsTracker};
use hnefatafl::live::LiveGame;
use hnefatafl::policy::EngineRole;
use hnefatafl::space::{Role, Square, Status};

#[test]
fn play_undo_redo() {
    let mut game = LiveGame::default();
    let start = Board::default();
    let play = Play { role: Role::Attacker, from: Square { x: 3, y: 0 }, to: Square { x: 3, y: 2 } };
    assert!(game.play(&play).is_ok());
    assert_eq!(game.turn, Role::Defender);
    assert_eq!(game.history.len(), 1);
    assert_ne!(game.current_board, start);
    let after = game.current_board.clone();
    // the attackers cannot move again
    let err = game.play(&play).unwrap_err();
    assert_eq!(err.to_string(), "Attempted to move a piece belonging to the opposite player");
    game.undo();
    assert_eq!(game.current_board, start);
    assert_eq!(game.turn, Role::Attacker);
    assert_eq!(game.ahead.len(), 1);
    game.redo();
    assert_eq!(game.current_board, after);
    assert_eq!(game.turn, Role::Defender);
    // nothing to redo
    game.redo();
    assert_eq!(game.current_board, after);
}

#[test]
fn engine_moves_only_on_its_turn() {
    let rows = [
        "...........",
        "...........",
        "...........",
        "...........",
        "...........",
        ".....K.....",
        "...........",
        "...........",
        "...........",
        "..O........",
        "...........",
    ];
    let mut game = LiveGame {
        current_board: Board::try_from(rows).expect("Test failed"),
        engine: Some(EngineRole::from(Role::Defender)),
        ..Default::default()
    };
    assert_eq!(game.engine_play(), None);
    game.turn = Role::Defender;
    let before = game.current_board.clone();
    let score = game.engine_play();
    assert!(score.is_some());
    assert_ne!(game.current_board, before);
    assert_eq!(game.turn, Role::Attacker);
    assert_eq!(game.history.len(), 1);
    let node = game.node();
    assert!(matches!(node.previous_boards, PositionsTracker::Counter(1)));
    assert_eq!(node.status, game.status);
    assert!(game.status == Status::Ongoing || game.status == Status::DefendersWin);
}
