//! Squares and SAN moves.

use chessview::action::Action;
use chessview::action::ActionKind;
use chessview::action::CheckIndicator;
use chessview::action::PieceKind;
use chessview::action::Square;
use chessview::parser::parse_san_move;
use chessview::parser::PgnParser;


#[test]
fn square_displays_as_algebraic() {
    assert_eq!(Square::new(0, 0).to_algebraic(), "a1");
    assert_eq!(Square::new(4, 3).to_algebraic(), "e4");
    assert_eq!(Square::new(7, 7).to_algebraic(), "h8");
}

#[test]
fn d4_is_the_origin_coordinate() {
    assert_eq!((Square::new(3, 3).x(), Square::new(3, 3).y()), (0, 0)); // d4
    assert_eq!((Square::new(0, 0).x(), Square::new(0, 0).y()), (-3, -3)); // a1
    assert_eq!((Square::new(7, 7).x(), Square::new(7, 7).y()), (4, 4)); // h8
}

#[test]
fn file_and_rank_round_trip() {
    for file in 0..8u8 {
        for rank in 0..8u8 {
            let square = Square::new(file, rank);
            assert_eq!(square.file(), file);
            assert_eq!(square.rank(), rank);
        }
    }
}

#[test]
fn pawn_push_reconstructs() {
    let action = Action::new(
        ActionKind::Normal {
            piece: PieceKind::Pawn,
            source_file: None,
            source_rank: None,
            destination: Square::new(4, 3),
            is_capture: false,
            promotion: None,
        },
        CheckIndicator::NoCheck,
    );
    assert_eq!(action.to_san(), "e4");
}

#[test]
fn pawn_capture_reconstructs() {
    let action = Action::new(
        ActionKind::Normal {
            piece: PieceKind::Pawn,
            source_file: Some(4),
            source_rank: None,
            destination: Square::new(3, 4),
            is_capture: true,
            promotion: None,
        },
        CheckIndicator::NoCheck,
    );
    assert_eq!(action.to_san(), "exd5");
}

#[test]
fn disambiguated_knight_reconstructs() {
    let action = Action::new(
        ActionKind::Normal {
            piece: PieceKind::Knight,
            source_file: Some(1),
            source_rank: None,
            destination: Square::new(3, 1),
            is_capture: false,
            promotion: None,
        },
        CheckIndicator::NoCheck,
    );
    assert_eq!(action.to_san(), "Nbd2");
}

#[test]
fn promotion_with_check_reconstructs() {
    let action = Action::new(
        ActionKind::Normal {
            piece: PieceKind::Pawn,
            source_file: None,
            source_rank: None,
            destination: Square::new(4, 7),
            is_capture: false,
            promotion: Some(PieceKind::Queen),
        },
        CheckIndicator::Check,
    );
    assert_eq!(action.to_san(), "e8=Q+");
}

#[test]
fn castles_reconstruct() {
    let kingside = Action::new(ActionKind::CastleKingside, CheckIndicator::NoCheck);
    let queenside = Action::new(ActionKind::CastleQueenside, CheckIndicator::Checkmate);
    assert_eq!(kingside.to_san(), "O-O");
    assert_eq!(queenside.to_san(), "O-O-O#");
}

#[test]
fn written_moves_read_back_as_themselves() {
    let moves = [
        Action::new(
            ActionKind::Normal {
                piece: PieceKind::Knight,
                source_file: Some(1),
                source_rank: None,
                destination: Square::new(3, 1),
                is_capture: false,
                promotion: None,
            },
            CheckIndicator::NoCheck,
        ),
        Action::new(
            ActionKind::Normal {
                piece: PieceKind::Pawn,
                source_file: Some(1),
                source_rank: Some(6),
                destination: Square::new(0, 7),
                is_capture: true,
                promotion: Some(PieceKind::Knight),
            },
            CheckIndicator::Checkmate,
        ),
        Action::new(
            ActionKind::Normal {
                piece: PieceKind::Queen,
                source_file: None,
                source_rank: Some(0),
                destination: Square::new(4, 4),
                is_capture: true,
                promotion: None,
            },
            CheckIndicator::Check,
        ),
        Action::new(ActionKind::CastleQueenside, CheckIndicator::Check),
    ];
    for action in moves {
        let text = action.to_san();
        let games = PgnParser::new().parse(&text).unwrap();
        assert_eq!(games[0].actions, vec![action], "{text}");
        assert_eq!(parse_san_move(&text), Ok(action), "{text}");
    }
}
