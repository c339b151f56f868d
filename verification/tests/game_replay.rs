//! Replaying games on the board: famous games, and corner cases built from
//! ascii boards.

use chessview::game::Color;
use chessview::game::GameState;
use chessview::parser::PgnParser;

const STARTING_POSITION: &str = "\
rnbqkbnr
pppppppp
........
........
........
........
PPPPPPPP
RNBQKBNR";


/// Trims indentation so board literals can be written inline.
fn normalize(board: &str) -> String {
    board
        .lines()
        .map(str::trim)
        .filter(|line| !line.is_empty())
        .collect::<Vec<_>>()
        .join("\n")
}

/// Plays a full game from the starting position and returns the final board.
fn play_game(pgn: &str) -> String {
    let games = PgnParser::new().parse(pgn).expect("pgn should parse");
    let actions = games.into_iter().next().expect("one game").actions;
    let mut state = GameState::new();
    for action in actions {
        state.process_move(action).expect("move should apply");
    }
    state.to_ascii()
}

/// Sets up a board, plays the given movetext, and returns the final board.
fn play_from(board: &str, movetext: &str) -> String {
    let games = PgnParser::new()
        .parse(movetext)
        .expect("movetext should parse");
    let actions = games.into_iter().next().expect("one game").actions;
    let mut state = GameState::from_ascii(board).expect("board should parse");
    for action in actions {
        state.process_move(action).expect("move should apply");
    }
    state.to_ascii()
}

#[test]
fn starting_position_round_trips() {
    assert_eq!(GameState::new().to_ascii(), normalize(STARTING_POSITION));
}

#[test]
fn side_to_move_alternates() {
    let mut state = GameState::new();
    assert_eq!(state.side_to_move(), Color::White);
    let action = PgnParser::new().parse("e4").unwrap()[0].actions[0];
    state.process_move(action).unwrap();
    assert_eq!(state.side_to_move(), Color::Black);
}

// ---- full famous games, final boards verified against python-chess ----

#[test]
fn game_fools_mate() {
    assert_eq!(
        play_game("1. f3 e5 2. g4 Qh4#"),
        normalize(
            "rnb.kbnr
             pppp.ppp
             ........
             ....p...
             ......Pq
             .....P..
             PPPPP..P
             RNBQKBNR"
        )
    );
}

#[test]
fn scholars_mate() {
    assert_eq!(
        play_game("1. e4 e5 2. Bc4 Nc6 3. Qh5 Nf6 4. Qxf7#"),
        normalize(
            "r.bqkb.r
             pppp.Qpp
             ..n..n..
             ....p...
             ..B.P...
             ........
             PPPP.PPP
             RNB.K.NR"
        )
    );
}

#[test]
fn both_sides_castle_kingside() {
    assert_eq!(
        play_game("1. e4 e5 2. Nf3 Nc6 3. Bc4 Bc5 4. O-O Nf6 5. d3 O-O"),
        normalize(
            "r.bq.rk.
             pppp.ppp
             ..n..n..
             ..b.p...
             ..B.P...
             ...P.N..
             PPP..PPP
             RNBQ.RK."
        )
    );
}

#[test]
fn en_passant_capture() {
    assert_eq!(
        play_game("1. e4 Nf6 2. e5 d5 3. exd6"),
        normalize(
            "rnbqkb.r
             ppp.pppp
             ...P.n..
             ........
             ........
             ........
             PPPP.PPP
             RNBQKBNR"
        )
    );
}

#[test]
fn double_promotion_with_captures() {
    assert_eq!(
        play_game("1. a4 h5 2. a5 h4 3. a6 h3 4. axb7 hxg2 5. bxa8=Q gxh1=Q"),
        normalize(
            "Qnbqkbnr
             p.ppppp.
             ........
             ........
             ........
             ........
             .PPPPP.P
             RNBQKBNq"
        )
    );
}

#[test]
fn opera_game() {
    let pgn = "1. e4 e5 2. Nf3 d6 3. d4 Bg4 4. dxe5 Bxf3 5. Qxf3 dxe5 6. Bc4 Nf6 \
               7. Qb3 Qe7 8. Nc3 c6 9. Bg5 b5 10. Nxb5 cxb5 11. Bxb5+ Nbd7 \
               12. O-O-O Rd8 13. Rxd7 Rxd7 14. Rd1 Qe6 15. Bxd7+ Nxd7 \
               16. Qb8+ Nxb8 17. Rd8# 1-0";
    assert_eq!(
        play_game(pgn),
        normalize(
            ".n.Rkb.r
             p....ppp
             ....q...
             ....p.B.
             ....P...
             ........
             PPP..PPP
             ..K....."
        )
    );
}

#[test]
fn immortal_game() {
    let pgn = "1. e4 e5 2. f4 exf4 3. Bc4 Qh4+ 4. Kf1 b5 5. Bxb5 Nf6 6. Nf3 Qh6 \
               7. d3 Nh5 8. Nh4 Qg5 9. Nf5 c6 10. g4 Nf6 11. Rg1 cxb5 12. h4 Qg6 \
               13. h5 Qg5 14. Qf3 Ng8 15. Bxf4 Qf6 16. Nc3 Bc5 17. Nd5 Qxb2 \
               18. Bd6 Bxg1 19. e5 Qxa1+ 20. Ke2 Na6 21. Nxg7+ Kd8 22. Qf6+ Nxf6 \
               23. Be7# 1-0";
    assert_eq!(
        play_game(pgn),
        normalize(
            "r.bk...r
             p..pBpNp
             n....n..
             .p.NP..P
             ......P.
             ...P....
             P.P.K...
             q.....b."
        )
    );
}

#[test]
fn evergreen_game() {
    let pgn = "1. e4 e5 2. Nf3 Nc6 3. Bc4 Bc5 4. b4 Bxb4 5. c3 Ba5 6. d4 exd4 \
               7. O-O d3 8. Qb3 Qf6 9. e5 Qg6 10. Re1 Nge7 11. Ba3 b5 12. Qxb5 Rb8 \
               13. Qa4 Bb6 14. Nbd2 Bb7 15. Ne4 Qf5 16. Bxd3 Qh5 17. Nf6+ gxf6 \
               18. exf6 Rg8 19. Rad1 Qxf3 20. Rxe7+ Nxe7 21. Qxd7+ Kxd7 22. Bf5+ Ke8 \
               23. Bd7+ Kf8 24. Bxe7# 1-0";
    assert_eq!(
        play_game(pgn),
        normalize(
            ".r...kr.
             pbpBBp.p
             .b...P..
             ........
             ........
             ..P..q..
             P....PPP
             ...R..K."
        )
    );
}

#[test]
fn reti_versus_tartakower() {
    let pgn = "1. e4 c6 2. d4 d5 3. Nc3 dxe4 4. Nxe4 Nf6 5. Qd3 e5 6. dxe5 Qa5+ \
               7. Bd2 Qxe5 8. O-O-O Nxe4 9. Qd8+ Kxd8 10. Bg5+ Kc7 11. Bd8#";
    assert_eq!(
        play_game(pgn),
        normalize(
            "rnbB.b.r
             ppk..ppp
             ..p.....
             ....q...
             ....n...
             ........
             PPP..PPP
             ..KR.BNR"
        )
    );
}

// ---- corner cases built from ascii, verified against python-chess ----

const CASTLE_SETUP: &str = "....k...
                            ........
                            ........
                            ........
                            ........
                            ........
                            ........
                            R...K..R";

#[test]
fn white_castles_kingside() {
    assert_eq!(
        play_from(CASTLE_SETUP, "O-O"),
        normalize(
            "....k...
             ........
             ........
             ........
             ........
             ........
             ........
             R....RK."
        )
    );
}

#[test]
fn white_castles_queenside() {
    assert_eq!(
        play_from(CASTLE_SETUP, "O-O-O"),
        normalize(
            "....k...
             ........
             ........
             ........
             ........
             ........
             ........
             ..KR...R"
        )
    );
}

#[test]
fn under_promotion_to_knight() {
    let setup = "k.......
                 ....P...
                 ........
                 ........
                 ........
                 ........
                 ........
                 ....K...";
    assert_eq!(
        play_from(setup, "e8=N"),
        normalize(
            "k...N...
             ........
             ........
             ........
             ........
             ........
             ........
             ....K..."
        )
    );
}

#[test]
fn capture_promotion_to_queen() {
    let setup = "r...k...
                 .P......
                 ........
                 ........
                 ........
                 ........
                 ........
                 ....K...";
    assert_eq!(
        play_from(setup, "bxa8=Q"),
        normalize(
            "Q...k...
             ........
             ........
             ........
             ........
             ........
             ........
             ....K..."
        )
    );
}

#[test]
fn promotion_giving_check() {
    let setup = "....k...
                 ..P.....
                 ........
                 ........
                 ........
                 ........
                 ........
                 ....K...";
    assert_eq!(
        play_from(setup, "c8=Q+"),
        normalize(
            "..Q.k...
             ........
             ........
             ........
             ........
             ........
             ........
             ....K..."
        )
    );
}

// ================================================================
// Edge cases that stretch the rules. Every expected board here was
// produced independently by python-chess, which also verified that each
// position is legal and that each move is the only legal reading of its
// SAN.
// ================================================================

/// Two knights (b1, f3) both reach d2, but f3 is pinned to the king by the
/// rook on f8. SAN therefore carries no disambiguation hint at all, so the
/// resolver must exclude the pinned knight on its own.
#[test]
fn pin_makes_san_unambiguous_for_knights() {
    let setup = ".....r.k
                 ........
                 ........
                 ........
                 ........
                 .....N..
                 ........
                 .N...K..";
    assert_eq!(
        play_from(setup, "Nd2"),
        normalize(
            ".....r.k
             ........
             ........
             ........
             ........
             .....N..
             ...N....
             .....K.."
        )
    );
}

/// Same idea for rooks: d5 and e2 both reach d2, but e2 is pinned along the
/// e-file, so SAN is a bare `Rd2`.
#[test]
fn pin_makes_san_unambiguous_for_rooks() {
    let setup = "....r..k
                 ........
                 ........
                 ...R....
                 ........
                 ........
                 ....R...
                 ....K...";
    assert_eq!(
        play_from(setup, "Rd2"),
        normalize(
            "....r..k
             ........
             ........
             ........
             ........
             ........
             ...RR...
             ....K..."
        )
    );
}

/// Both rooks sit on the a-file, but a black pawn on a3 blocks the a1 rook,
/// so only the a5 rook can reach a4 and SAN carries no hint. This exercises
/// path blocking in the slider candidate search.
#[test]
fn blocked_slider_is_not_a_candidate() {
    let setup = ".......k
                 ........
                 ........
                 R.......
                 ........
                 p.......
                 ........
                 R....K..";
    assert_eq!(
        play_from(setup, "Ra4"),
        normalize(
            ".......k
             ........
             ........
             ........
             R.......
             p.......
             ........
             R....K.."
        )
    );
}

/// Three queens (a1, a5, e1) all reach e5, so the a1 queen needs both a file
/// and a rank hint: `Qa1e5`.
#[test]
fn queen_needs_full_square_disambiguation() {
    let setup = ".......k
                 ........
                 ........
                 Q.......
                 ........
                 ........
                 ........
                 Q...Q.K.";
    assert_eq!(
        play_from(setup, "Qa1e5+"),
        normalize(
            ".......k
             ........
             ........
             Q...Q...
             ........
             ........
             ........
             ....Q.K."
        )
    );
}

/// Three knights (a1, a5, c1) all reach b3, so the a1 knight needs both a
/// file and a rank hint: `Na1b3`.
#[test]
fn knight_needs_full_square_disambiguation() {
    let setup = ".......k
                 ........
                 ........
                 N.......
                 ........
                 ........
                 ........
                 N.N..K..";
    assert_eq!(
        play_from(setup, "Na1b3"),
        normalize(
            ".......k
             ........
             ........
             N.......
             ........
             .N......
             ........
             ..N..K.."
        )
    );
}

/// Two rooks on the same file are told apart by rank: `R1a3`.
#[test]
fn rook_rank_disambiguation() {
    let setup = ".......k
                 ........
                 ........
                 R.......
                 ........
                 ........
                 ........
                 R....K..";
    assert_eq!(
        play_from(setup, "R1a3"),
        normalize(
            ".......k
             ........
             ........
             R.......
             ........
             R.......
             ........
             .....K.."
        )
    );
}

/// Two knights on the same file are told apart by rank: `N2d3`.
#[test]
fn knight_rank_disambiguation() {
    let setup = ".......k
                 ........
                 ........
                 ........
                 .N......
                 ........
                 .N......
                 .....K..";
    assert_eq!(
        play_from(setup, "N2d3"),
        normalize(
            ".......k
             ........
             ........
             ........
             .N......
             ...N....
             ........
             .....K.."
        )
    );
}

#[test]
fn under_promotion_to_rook() {
    let setup = "k.......
                 ..P.....
                 ........
                 ........
                 ........
                 ........
                 ........
                 ....K...";
    assert_eq!(
        play_from(setup, "c8=R+"),
        normalize(
            "k.R.....
             ........
             ........
             ........
             ........
             ........
             ........
             ....K..."
        )
    );
}

#[test]
fn under_promotion_to_bishop() {
    let setup = "k.......
                 ..P.....
                 ........
                 ........
                 ........
                 ........
                 ........
                 ....K...";
    assert_eq!(
        play_from(setup, "c8=B"),
        normalize(
            "k.B.....
             ........
             ........
             ........
             ........
             ........
             ........
             ....K..."
        )
    );
}

/// Promoting to a knight while two knights are already on the board.
#[test]
fn promotion_creates_a_third_knight() {
    let setup = "r......k
                 .P......
                 ........
                 ........
                 ........
                 ........
                 ........
                 N.N..K..";
    assert_eq!(
        play_from(setup, "bxa8=N"),
        normalize(
            "N......k
             ........
             ........
             ........
             ........
             ........
             ........
             N.N..K.."
        )
    );
}

/// Either pawn could capture on c8 and promote, so the file hint decides.
#[test]
fn capture_promotion_disambiguated_by_file() {
    let setup = "..r....k
                 .P.P....
                 ........
                 ........
                 ........
                 ........
                 ........
                 ....K...";
    assert_eq!(
        play_from(setup, "bxc8=Q+"),
        normalize(
            "..Q....k
             ...P....
             ........
             ........
             ........
             ........
             ........
             ....K..."
        )
    );
}

/// En passant that also gives check. The captured pawn sits beside the
/// capturing pawn, not on the destination square.
#[test]
fn en_passant_giving_check() {
    let setup = "........
                 ..kp....
                 ........
                 ....P...
                 ........
                 ........
                 P.......
                 ....K...";
    assert_eq!(
        play_from(setup, "1. a3 d5 2. exd6+"),
        normalize(
            "........
             ..k.....
             ...P....
             ........
             ........
             P.......
             ........
             ....K..."
        )
    );
}

/// Castling queenside is legal even though b1 is attacked: the king never
/// crosses b1, only the rook does.
#[test]
fn queenside_castle_with_b1_attacked() {
    let setup = ".r....k.
                 ........
                 ........
                 ........
                 ........
                 ........
                 ........
                 R...K..R";
    assert_eq!(
        play_from(setup, "O-O-O"),
        normalize(
            ".r....k.
             ........
             ........
             ........
             ........
             ........
             ........
             ..KR...R"
        )
    );
}

// ---- further famous games, chosen for the notation they exercise ----

/// Kasparov versus Topalov, Wijk aan Zee 1999. Includes `Nbxd5` (a
/// file-disambiguated knight capture) and a long king hunt.
#[test]
fn kasparov_topalov() {
    let pgn = "1. e4 d6 2. d4 Nf6 3. Nc3 g6 4. Be3 Bg7 5. Qd2 c6 6. f3 b5 7. Nge2 Nbd7 \
               8. Bh6 Bxh6 9. Qxh6 Bb7 10. a3 e5 11. O-O-O Qe7 12. Kb1 a6 13. Nc1 O-O-O \
               14. Nb3 exd4 15. Rxd4 c5 16. Rd1 Nb6 17. g3 Kb8 18. Na5 Ba8 19. Bh3 d5 \
               20. Qf4+ Ka7 21. Rhe1 d4 22. Nd5 Nbxd5 23. exd5 Qd6 24. Rxd4 cxd4 \
               25. Re7+ Kb6 26. Qxd4+ Kxa5 27. b4+ Ka4 28. Qc3 Qxd5 29. Ra7 Bb7 \
               30. Rxb7 Qc4 31. Qxf6 Kxa3 32. Qxa6+ Kxb4 33. c3+ Kxc3 34. Qa1+ Kd2 \
               35. Qb2+ Kd1 36. Bf1 Rd2 37. Rd7 Rxd7 38. Bxc4 bxc4 39. Qxh8 Rd3 \
               40. Qa8 c3 41. Qa4+ Ke1 42. f4 f5 43. Kc1 Rd2 44. Qa7 1-0";
    assert_eq!(
        play_game(pgn),
        normalize(
            "........
             Q......p
             ......p.
             .....p..
             .....P..
             ..p...P.
             ...r...P
             ..K.k..."
        )
    );
}

/// Byrne versus Fischer, New York 1956 (the Game of the Century). Includes
/// `Rfe8+` and a cascade of knight checks.
#[test]
fn byrne_fischer() {
    let pgn = "1. Nf3 Nf6 2. c4 g6 3. Nc3 Bg7 4. d4 O-O 5. Bf4 d5 6. Qb3 dxc4 7. Qxc4 c6 \
               8. e4 Nbd7 9. Rd1 Nb6 10. Qc5 Bg4 11. Bg5 Na4 12. Qa3 Nxc3 13. bxc3 Nxe4 \
               14. Bxe7 Qb6 15. Bc4 Nxc3 16. Bc5 Rfe8+ 17. Kf1 Be6 18. Bxb6 Bxc4+ \
               19. Kg1 Ne2+ 20. Kf1 Nxd4+ 21. Kg1 Ne2+ 22. Kf1 Nc3+ 23. Kg1 axb6 \
               24. Qb4 Ra4 25. Qxb6 Nxd1 26. h3 Rxa2 27. Kh2 Nxf2 28. Re1 Rxe1 \
               29. Qd8+ Bf8 30. Nxe1 Bd5 31. Nf3 Ne4 32. Qb8 b5 33. h4 h5 34. Ne5 Kg7 \
               35. Kg1 Bc5+ 36. Kf1 Ng3+ 37. Ke1 Bb4+ 38. Kd1 Bb3+ 39. Kc1 Ne2+ \
               40. Kb1 Nc3+ 41. Kc1 Rc2# 0-1";
    assert_eq!(
        play_game(pgn),
        normalize(
            ".Q......
             .....pk.
             ..p...p.
             .p..N..p
             .b.....P
             .bn.....
             ..r...P.
             ..K....."
        )
    );
}

/// Lasker versus Thomas, London 1912. Includes `Neg4+` and a black king
/// marched all the way to g1.
#[test]
fn lasker_thomas() {
    let pgn = "1. d4 e6 2. Nf3 f5 3. Nc3 Nf6 4. Bg5 Be7 5. Bxf6 Bxf6 6. e4 fxe4 7. Nxe4 b6 \
               8. Ne5 O-O 9. Bd3 Bb7 10. Qh5 Qe7 11. Qxh7+ Kxh7 12. Nxf6+ Kh6 \
               13. Neg4+ Kg5 14. h4+ Kf4 15. g3+ Kf3 16. Be2+ Kg2 17. Rh2+ Kg1 18. Kd2# 1-0";
    assert_eq!(
        play_game(pgn),
        normalize(
            "rn...r..
             pbppq.p.
             .p..pN..
             ........
             ...P..NP
             ......P.
             PPPKBP.R
             R.....k."
        )
    );
}

/// Steinitz versus von Bardeleben, Hastings 1895. Includes `Rac1` and
/// `Rhc8` file disambiguation.
#[test]
fn steinitz_von_bardeleben() {
    let pgn = "1. e4 e5 2. Nf3 Nc6 3. Bc4 Bc5 4. c3 Nf6 5. d4 exd4 6. cxd4 Bb4+ 7. Nc3 d5 \
               8. exd5 Nxd5 9. O-O Be6 10. Bg5 Be7 11. Bxd5 Bxd5 12. Nxd5 Qxd5 13. Bxe7 Nxe7 \
               14. Re1 f6 15. Qe2 Qd7 16. Rac1 c6 17. d5 cxd5 18. Nd4 Kf7 19. Ne6 Rhc8 \
               20. Qg4 g6 21. Ng5+ Ke8 22. Rxe7+ Kf8 23. Rf7+ Kg8 24. Rg7+ Kh8 25. Rxh7+ 1-0";
    assert_eq!(
        play_game(pgn),
        normalize(
            "r.r....k
             pp.q...R
             .....pp.
             ...p..N.
             ......Q.
             ........
             PP...PPP
             ..R...K."
        )
    );
}

/// Botvinnik versus Capablanca, AVRO 1938. Includes an en passant capture
/// (`exf6`) in the middle of a real game, plus `Rae1` and `Rfe8`.
#[test]
fn botvinnik_capablanca() {
    let pgn = "1. d4 Nf6 2. c4 e6 3. Nc3 Bb4 4. e3 d5 5. a3 Bxc3+ 6. bxc3 c5 7. cxd5 exd5 \
               8. Bd3 O-O 9. Ne2 b6 10. O-O Ba6 11. Bxa6 Nxa6 12. Bb2 Qd7 13. a4 Rfe8 \
               14. Qd3 c4 15. Qc2 Nb8 16. Rae1 Nc6 17. Ng3 Na5 18. f3 Nb3 19. e4 Qxa4 \
               20. e5 Nd7 21. Qf2 g6 22. f4 f5 23. exf6 Nxf6 24. f5 Rxe1 25. Rxe1 Re8 \
               26. Re6 Rxe6 27. fxe6 Kg7 28. Qf4 Qe8 29. Qe5 Qe7 30. Ba3 Qxa3 31. Nh5+ gxh5 \
               32. Qg5+ Kf8 33. Qxf6+ Kg8 34. e7 Qc1+ 35. Kf2 Qc2+ 36. Kg3 Qd3+ 37. Kh4 Qe4+ \
               38. Kxh5 Qe2+ 39. Kh4 Qe4+ 40. g4 Qe1+ 41. Kh5 1-0";
    assert_eq!(
        play_game(pgn),
        normalize(
            "......k.
             p...P..p
             .p...Q..
             ...p...K
             ..pP..P.
             .nP.....
             .......P
             ....q..."
        )
    );
}

/// Rotlewi versus Rubinstein, Lodz 1907. Includes `Rac8` and a famous
/// finish where black is a queen down.
#[test]
fn rotlewi_rubinstein() {
    let pgn = "1. d4 d5 2. Nf3 e6 3. e3 c5 4. c4 Nc6 5. Nc3 Nf6 6. dxc5 Bxc5 7. a3 a6 \
               8. b4 Bd6 9. Bb2 O-O 10. Qd2 Qe7 11. Bd3 dxc4 12. Bxc4 b5 13. Bd3 Rd8 \
               14. Qe2 Bb7 15. O-O Ne5 16. Nxe5 Bxe5 17. f4 Bc7 18. e4 Rac8 19. e5 Bb6+ \
               20. Kh1 Ng4 21. Be4 Qh4 22. g3 Rxc3 23. gxh4 Rd2 24. Qxd2 Bxe4+ 25. Qg2 Rh3 0-1";
    assert_eq!(
        play_game(pgn),
        normalize(
            "......k.
             .....ppp
             pb..p...
             .p..P...
             .P..bPnP
             P......r
             .B....QP
             R....R.K"
        )
    );
}
