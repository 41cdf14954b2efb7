use libbattleship::{
    command_handler, command_parser, Board, BoardConfig, CommandResult, Direction, DirectionName,
    GameCommand, Position, ShipType,
};

#[test]
fn commands_parsing_correctly() {
    assert_eq!(command_parser("STARTGAME"), GameCommand::StartGame);
    assert_eq!(command_parser("CELL:[3,1]"), GameCommand::Cell(3, 1));
    assert_eq!(command_parser("QUIT"), GameCommand::Quit);
}

#[test]
fn parser_rejects_malformed_input() {
    assert_eq!(command_parser(""), GameCommand::InvalidCommand);
    assert_eq!(command_parser("startgame"), GameCommand::InvalidCommand);
    assert_eq!(command_parser("CELL:[a,b]"), GameCommand::InvalidCommand);
    assert_eq!(command_parser("CELL:[12,3]"), GameCommand::InvalidCommand);
    assert_eq!(command_parser("CELL:[1,2] "), GameCommand::InvalidCommand);
    assert_eq!(command_parser("QUIT NOW"), GameCommand::InvalidCommand);
}

#[test]
fn parser_accepts_edge_digits() {
    assert_eq!(command_parser("CELL:[0,9]"), GameCommand::Cell(0, 9));
    assert_eq!(command_parser("CELL:[9,0]"), GameCommand::Cell(9, 0));
}

#[test]
fn start_then_hit_twice_on_occupied_cell() {
    // A board whose (1, 1) square is known to hold a ship.
    let mut board = Board::new();
    board
        .setup(BoardConfig::Manual(vec![(
            ShipType::C5,
            (Position::new(1, 1), Direction::new(DirectionName::Right)),
        )]))
        .unwrap();
    let mut session = Some(board);

    let first = command_handler(&mut session, GameCommand::Cell(1, 1));
    match first {
        CommandResult::Success(msg) => assert_eq!(msg, "HIT"),
        _ => panic!("first shot on an occupied cell must hit"),
    }
    let second = command_handler(&mut session, GameCommand::Cell(1, 1));
    match second {
        CommandResult::Failure(msg) => assert_eq!(msg, "MISS"),
        _ => panic!("second shot on the same cell must miss"),
    }
}

#[test]
fn start_game_yields_populated_board() {
    let mut session: Option<Board> = None;
    let r = command_handler(&mut session, GameCommand::StartGame);
    match r {
        CommandResult::NewBoard(b) => {
            assert_eq!(b.get_occupied_cells().len(), 14);
            assert!(!b.is_game_complete());
        },
        _ => panic!("starting a game must yield a fresh board"),
    }
}

#[test]
fn cell_without_board_fails() {
    let mut session: Option<Board> = None;
    let r = command_handler(&mut session, GameCommand::Cell(1, 1));
    match r {
        CommandResult::Failure(msg) => assert_eq!(msg, "No game started yet."),
        _ => panic!("a shot without a board must fail"),
    }
    assert!(session.is_none());
}

#[test]
fn quit_and_invalid_commands() {
    let mut session: Option<Board> = None;
    assert!(matches!(
        command_handler(&mut session, GameCommand::Quit),
        CommandResult::Quit
    ));
    assert!(matches!(
        command_handler(&mut session, GameCommand::InvalidCommand),
        CommandResult::Nothing
    ));
}

#[test]
fn finishing_shot_reports_game_complete() {
    let mut board = Board::new();
    board
        .setup(BoardConfig::Manual(vec![(
            ShipType::A2,
            (Position::new(5, 5), Direction::new(DirectionName::Down)),
        )]))
        .unwrap();
    let mut session = Some(board);
    match command_handler(&mut session, GameCommand::Cell(5, 5)) {
        CommandResult::Success(msg) => assert_eq!(msg, "HIT"),
        _ => panic!("first shot must hit"),
    }
    match command_handler(&mut session, GameCommand::Cell(5, 6)) {
        CommandResult::GameComplete(score) => assert_eq!(score, 0),
        _ => panic!("last shot must complete the game"),
    }
    assert!(session.unwrap().is_game_complete());
}
