//! The game state: pieces, boards read from ascii and written back, moves
//! that cannot be played, and error messages.

use chessview::action::Action;
use chessview::action::ActionKind;
use chessview::action::CheckIndicator;
use chessview::action::PieceKind;
use chessview::action::Square;
use chessview::game::Color;
use chessview::game::GameState;
use chessview::game::GameStateError;
use chessview::game::Piece;
use chessview::parser::PgnParser;
use chessview::text::is_whitespace;

fn actions(movetext: &str) -> Vec<Action> {
    PgnParser::new().parse(movetext).unwrap().remove(0).actions
}

fn rows(board: &[&str]) -> String {
    board.join("\n")
}

const EMPTY_ROW: &str = "........";

#[test]
fn pieces_read_back_from_their_characters() {
    for color in [Color::White, Color::Black] {
        for kind in [
            PieceKind::Pawn,
            PieceKind::Knight,
            PieceKind::Bishop,
            PieceKind::Rook,
            PieceKind::Queen,
            PieceKind::King,
        ] {
            let piece = Piece::new(color, kind);
            assert_eq!(piece.color(), color);
            assert_eq!(piece.kind(), kind);
            assert_eq!(Piece::from_char(piece.to_char()), Some(piece));
        }
    }
    assert_eq!(Piece::new(Color::White, PieceKind::Knight).to_char(), 'N');
    assert_eq!(Piece::new(Color::Black, PieceKind::Queen).to_char(), 'q');
    assert_eq!(Piece::from_char('.'), None);
    assert_eq!(Piece::from_char('x'), None);
}

#[test]
fn an_ascii_board_round_trips_after_moves() {
    let mut state = GameState::new();
    for action in actions("1. e4 d5 2. exd5 Qxd5 3. Nc3 Qa5") {
        state.process_move(action).unwrap();
    }
    let text = state.to_ascii();
    let read = GameState::from_ascii(&text).unwrap();
    assert_eq!(read.to_ascii(), text);
    assert_eq!(read.side_to_move(), Color::White);
}

#[test]
fn whitespace_and_blank_lines_around_rows_are_ignored() {
    let text = "\n  rnbqkbnr  \n\tpppppppp\r\n\n........\n........\n........\n........\nPPPPPPPP\n RNBQKBNR \n\n";
    let state = GameState::from_ascii(text).unwrap();
    assert_eq!(state.to_ascii(), GameState::new().to_ascii());
}

#[test]
fn the_default_state_is_the_starting_position() {
    assert_eq!(GameState::default().to_ascii(), GameState::new().to_ascii());
    assert_eq!(GameState::default().side_to_move(), Color::White);
}

#[test]
fn pieces_are_where_the_board_says() {
    let state = GameState::new();
    assert_eq!(
        state.piece_on(Square::new(4, 0)),
        Some(Piece::new(Color::White, PieceKind::King))
    );
    assert_eq!(
        state.piece_on(Square::new(3, 7)),
        Some(Piece::new(Color::Black, PieceKind::Queen))
    );
    assert_eq!(state.piece_on(Square::new(4, 4)), None);
}

#[test]
fn a_board_without_eight_rows_is_invalid() {
    let error = GameState::from_ascii("rnbqkbnr\npppppppp\n........").unwrap_err();
    assert_eq!(
        error,
        GameStateError::InvalidBoard("expected 8 rows, found 3".to_string())
    );
    assert_eq!(error.message(), "invalid board: expected 8 rows, found 3");
}

#[test]
fn a_row_of_the_wrong_width_is_invalid() {
    let text = rows(&[
        "rnbqkbnr", "ppppppp", EMPTY_ROW, EMPTY_ROW, EMPTY_ROW, EMPTY_ROW, "PPPPPPPP", "RNBQKBNR",
    ]);
    assert_eq!(
        GameState::from_ascii(&text).unwrap_err(),
        GameStateError::InvalidBoard("row 1 has 7 columns, expected 8".to_string())
    );
}

#[test]
fn an_unknown_piece_is_invalid() {
    let text = rows(&[
        "rnbqkbnr", "pppppppp", "...Z....", EMPTY_ROW, EMPTY_ROW, EMPTY_ROW, "PPPPPPPP", "RNBQKBNR",
    ]);
    assert_eq!(
        GameState::from_ascii(&text).unwrap_err(),
        GameStateError::InvalidBoard("unknown piece 'Z'".to_string())
    );
}

#[test]
fn the_first_problem_row_by_row_is_reported() {
    let text = rows(&[
        "rnbqkbnr", "ppppZppp", "......", EMPTY_ROW, EMPTY_ROW, EMPTY_ROW, "PPPPPPPP", "RNBQKBNR",
    ]);
    assert_eq!(
        GameState::from_ascii(&text).unwrap_err(),
        GameStateError::InvalidBoard("unknown piece 'Z'".to_string())
    );
}

#[test]
fn a_move_no_piece_can_make_is_refused_and_changes_nothing() {
    let mut state = GameState::new();
    let before = state.to_ascii();
    let rook_to_a3 = actions("1. Ra3")[0];
    assert_eq!(
        state.process_move(rook_to_a3),
        Err(GameStateError::NoPieceForMove("Ra3".to_string()))
    );
    assert_eq!(state.to_ascii(), before);
    assert_eq!(state.side_to_move(), Color::White);
}

#[test]
fn an_ambiguous_move_is_refused() {
    let mut state = GameState::new();
    for action in actions("1. d4 d5 2. Nf3 Nf6") {
        state.process_move(action).unwrap();
    }
    let knight_to_d2 = actions("1. Nd2")[0];
    let error = state.process_move(knight_to_d2).unwrap_err();
    assert_eq!(error, GameStateError::AmbiguousMove("Nd2".to_string()));
    assert_eq!(error.message(), "ambiguous move: Nd2");
    assert_eq!(state.side_to_move(), Color::White);
}

#[test]
fn castling_without_a_king_is_a_grid_error() {
    let mut state = GameState::new();
    for action in actions("1. e4 e5 2. Ke2 Ke7") {
        state.process_move(action).unwrap();
    }
    let castle = Action::new(ActionKind::CastleKingside, CheckIndicator::NoCheck);
    let error = state.process_move(castle).unwrap_err();
    assert_eq!(
        error,
        GameStateError::Grid("Unoccupied at Coordinate { x: 1, y: -3 }".to_string())
    );
    assert_eq!(
        error.message(),
        "grid error: Unoccupied at Coordinate { x: 1, y: -3 }"
    );
    assert_eq!(state.side_to_move(), Color::White);
}

#[test]
fn error_messages_name_the_problem() {
    assert_eq!(
        GameStateError::NoPieceForMove("Ra3".to_string()).message(),
        "no piece can play Ra3"
    );
    assert_eq!(
        GameStateError::Grid("Unoccupied".to_string()).message(),
        "grid error: Unoccupied"
    );
    assert_eq!(
        GameStateError::InvalidBoard("x".to_string()).message(),
        "invalid board: x"
    );
}

#[test]
fn the_turn_passes_only_on_a_played_move() {
    let mut state = GameState::new();
    state.process_move(actions("1. e4")[0]).unwrap();
    assert_eq!(state.side_to_move(), Color::Black);
    let refused = actions("1. Ra3")[0];
    assert!(state.process_move(refused).is_err());
    assert_eq!(state.side_to_move(), Color::Black);
}

#[test]
fn colors_and_the_suffixes_of_checks() {
    assert_eq!(CheckIndicator::NoCheck.suffix(), "");
    assert_eq!(CheckIndicator::Check.suffix(), "+");
    assert_eq!(CheckIndicator::Checkmate.suffix(), "#");
    assert_eq!(PieceKind::Knight.san_letter(), Some('N'));
    assert_eq!(PieceKind::Pawn.san_letter(), None);
}

#[test]
fn each_side_is_the_other_s_opponent() {
    for color in [Color::White, Color::Black] {
        assert_eq!(color.opponent().opponent(), color);
        assert_ne!(color.opponent(), color);
    }
    assert_eq!(Color::White.pawn_direction(), 1);
    assert_eq!(Color::Black.pawn_direction(), -1);
    assert_eq!(Color::White.back_rank(), 0);
    assert_eq!(Color::Black.back_rank(), 7);
}

#[test]
fn parsed_hints_name_squares_on_the_board() {
    for action in actions("1. Rae1 N7f6 2. Qh4e1 exd5") {
        if let ActionKind::Normal { source_file, source_rank, .. } = action.kind {
            assert!(source_file.map_or(true, |file| file < 8));
            assert!(source_rank.map_or(true, |rank| rank < 8));
        }
    }
    let hinted = actions("1. Qh4e1")[0];
    assert!(matches!(
        hinted.kind,
        ActionKind::Normal { source_file: Some(7), source_rank: Some(3), .. }
    ));
}

#[test]
fn castling_without_the_rook_names_the_rook_square() {
    let text = "....k...\n........\n........\n........\n........\n........\n........\n....K...";
    let mut state = GameState::from_ascii(text).unwrap();
    let castle = Action::new(ActionKind::CastleQueenside, CheckIndicator::NoCheck);
    assert_eq!(
        state.process_move(castle),
        Err(GameStateError::Grid("Unoccupied at Coordinate { x: -3, y: -3 }".to_string()))
    );
}

#[test]
fn whitespace_is_what_std_calls_whitespace() {
    for code in 0..=0x10FFFFu32 {
        if let Some(c) = char::from_u32(code) {
            assert_eq!(is_whitespace(c), c.is_whitespace(), "{code:#x}");
        }
    }
}

#[test]
fn writing_out_a_read_board_gives_its_normal_form() {
    let text = "\n  r...k..r  \n\tpppppppp\r\n\n........\n....n...\n........\n........\nPPPPPPPP\n R...K..R \n\n";
    let state = GameState::from_ascii(text).unwrap();
    let normal: Vec<&str> = text.lines().map(str::trim).filter(|l| !l.is_empty()).collect();
    assert_eq!(state.to_ascii(), normal.join("\n"));
    let again = GameState::from_ascii(&state.to_ascii()).unwrap();
    assert_eq!(again.to_ascii(), state.to_ascii());
}
