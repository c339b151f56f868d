//! Reading PGN text: movetext features, several games in one file, game
//! names, tag corner cases and errors.

use chessview::parser::ParseError;
use chessview::parser::PgnParser;


/// Parses and asserts the reconstructed SAN of every move of every game.
/// `Action`'s `Display` is unit tested in its own module, so matching the
/// canonical SAN proves each move parsed into the correct components.
fn assert_games(pgn: &str, expected: &[&[&str]]) {
    let games = PgnParser::new().parse(pgn).expect("pgn should parse");
    let actual: Vec<Vec<String>> = games
        .iter()
        .map(|game| game.actions.iter().map(|action| action.to_san()).collect())
        .collect();
    let actual: Vec<Vec<&str>> = actual
        .iter()
        .map(|game| game.iter().map(String::as_str).collect())
        .collect();
    let expected: Vec<Vec<&str>> = expected.iter().map(|game| game.to_vec()).collect();
    assert_eq!(actual, expected);
}

/// Convenience for the many single-game cases.
fn assert_moves(pgn: &str, expected: &[&str]) {
    assert_games(pgn, &[expected]);
}

fn names(pgn: &str) -> Vec<Option<String>> {
    PgnParser::new()
        .parse(pgn)
        .expect("pgn should parse")
        .into_iter()
        .map(|game| game.name)
        .collect()
}

// ---- single games: movetext features ----

#[test]
fn parser_fools_mate() {
    assert_moves("1. f3 e5 2. g4 Qh4#", &["f3", "e5", "g4", "Qh4#"]);
}

#[test]
fn scholars_mate_with_annotations() {
    assert_moves(
        "1. e4 e5 2. Bc4 Nc6 3. Qh5 Nf6?? 4. Qxf7#",
        &["e4", "e5", "Bc4", "Nc6", "Qh5", "Nf6", "Qxf7#"],
    );
}

#[test]
fn numbers_glued_to_moves() {
    assert_moves("1.e4 e5 2.Nf3 Nc6", &["e4", "e5", "Nf3", "Nc6"]);
}

#[test]
fn black_move_number_continuation() {
    assert_moves("1. e4 1... e5 2. Nf3", &["e4", "e5", "Nf3"]);
}

#[test]
fn headers_comments_and_nags_are_ignored() {
    let pgn = "[Event \"Test\"]\n[Site \"?\"]\n\n1. e4 {best by test} e5 2. Nf3 $1 Nc6 *";
    assert_moves(pgn, &["e4", "e5", "Nf3", "Nc6"]);
}

#[test]
fn line_comments_are_ignored() {
    assert_moves("1. e4 ; this is a comment e5 Nf3\n2. d4", &["e4", "d4"]);
}

#[test]
fn variations_are_ignored() {
    assert_moves(
        "1. e4 e5 2. Nf3 (2. f4 exf4 3. Bc4) Nc6 3. Bb5 a6",
        &["e4", "e5", "Nf3", "Nc6", "Bb5", "a6"],
    );
}

#[test]
fn nested_variations_are_ignored() {
    assert_moves(
        "1. e4 e5 2. Nf3 (2. f4 exf4 (2... d5 3. exd5) 3. Bc4) Nc6",
        &["e4", "e5", "Nf3", "Nc6"],
    );
}

/// A comment inside a variation may itself contain a parenthesis; the
/// variation must still end at the right place.
#[test]
fn variation_containing_a_comment_with_parentheses() {
    assert_moves(
        "1. e4 e5 2. Nf3 (2. f4 {the King's Gambit (sharp)} exf4) Nc6",
        &["e4", "e5", "Nf3", "Nc6"],
    );
}

#[test]
fn comment_flush_against_a_move() {
    assert_moves("1. e4{a comment}e5", &["e4", "e5"]);
}

#[test]
fn castling_with_zero_digits() {
    assert_moves(
        "1. O-O 0-0 2. O-O-O 0-0-0",
        &["O-O", "O-O", "O-O-O", "O-O-O"],
    );
}

#[test]
fn promotions_including_capture_promotions() {
    assert_moves(
        "1. a4 h5 2. a5 h4 3. a6 h3 4. axb7 hxg2 5. bxa8=Q gxh1=Q",
        &[
            "a4", "h5", "a5", "h4", "a6", "h3", "axb7", "hxg2", "bxa8=Q", "gxh1=Q",
        ],
    );
}

#[test]
fn en_passant_with_marker() {
    assert_moves(
        "1. e4 d5 2. e5 f5 3. exf6e.p.",
        &["e4", "d5", "e5", "f5", "exf6"],
    );
}

#[test]
fn file_and_rank_disambiguation() {
    assert_moves(
        "1. Rae1 Nbd7 2. R1e2 N7f6",
        &["Rae1", "Nbd7", "R1e2", "N7f6"],
    );
}

#[test]
fn full_square_disambiguation() {
    assert_moves("1. Qa1e5 Na1b3", &["Qa1e5", "Na1b3"]);
}

// ---- multiple games ----

#[test]
fn two_games_with_headers() {
    let pgn = "\
[Event \"Game one\"]
[Result \"1-0\"]

1. e4 e5 2. Bc4 Nc6 3. Qh5 Nf6 4. Qxf7# 1-0

[Event \"Game two\"]
[Result \"0-1\"]

1. f3 e5 2. g4 Qh4# 0-1
";
    assert_games(
        pgn,
        &[
            &["e4", "e5", "Bc4", "Nc6", "Qh5", "Nf6", "Qxf7#"],
            &["f3", "e5", "g4", "Qh4#"],
        ],
    );
}

/// Without tag pairs the only boundary is the result token.
#[test]
fn two_games_without_headers_split_on_results() {
    assert_games("1. e4 e5 1-0 1. d4 d5 0-1", &[&["e4", "e5"], &["d4", "d5"]]);
}

/// A game may follow the previous one's moves with no result in between;
/// the next tag pair starts it.
#[test]
fn tag_pair_after_moves_starts_a_new_game() {
    let pgn = "[Event \"A\"] 1. e4 e5 [Event \"B\"] 1. d4 d5";
    assert_games(pgn, &[&["e4", "e5"], &["d4", "d5"]]);
    assert_eq!(
        names(pgn),
        vec![Some("A".to_string()), Some("B".to_string())]
    );
}

#[test]
fn a_final_game_without_a_result_is_still_a_game() {
    assert_games("1. e4 e5 1-0 1. d4 d5", &[&["e4", "e5"], &["d4", "d5"]]);
}

#[test]
fn three_games() {
    let pgn = "1. e4 1-0 1. d4 0-1 1. c4 1/2-1/2";
    assert_games(pgn, &[&["e4"], &["d4"], &["c4"]]);
}

#[test]
fn empty_input_yields_no_games() {
    assert_eq!(PgnParser::new().parse("").unwrap(), Vec::new());
    assert_eq!(PgnParser::new().parse("   \n\t ").unwrap(), Vec::new());
}

/// A lone result token describes nothing and must not invent a game.
#[test]
fn stray_result_is_not_a_game() {
    assert_eq!(PgnParser::new().parse("*").unwrap(), Vec::new());
    assert_eq!(PgnParser::new().parse("1-0 0-1").unwrap(), Vec::new());
}

/// Headers with no moves still describe a game, just an empty one.
#[test]
fn header_only_game_has_no_moves() {
    let games = PgnParser::new().parse("[Event \"Empty\"] *").unwrap();
    assert_eq!(games.len(), 1);
    assert!(games[0].actions.is_empty());
    assert_eq!(games[0].name, Some("Empty".to_string()));
}

// ---- names ----

#[test]
fn name_uses_every_part_the_file_gives() {
    let pgn = "\
[Event \"Wijk aan Zee\"]
[Site \"NED\"]
[Date \"1999.01.20\"]
[Round \"4\"]
[White \"Kasparov\"]
[Black \"Topalov\"]
[Result \"1-0\"]

1. e4 d6 1-0
";
    assert_eq!(
        names(pgn),
        vec![Some(
            "Kasparov vs Topalov, Wijk aan Zee, NED, 1999.01.20, round 4, 1-0".to_string()
        )]
    );
}

#[test]
fn name_from_players_only() {
    let pgn = "[White \"Alice\"] [Black \"Bob\"] 1. e4 *";
    assert_eq!(names(pgn), vec![Some("Alice vs Bob".to_string())]);
}

#[test]
fn name_with_only_one_player_named() {
    let pgn = "[White \"Alice\"] 1. e4 *";
    assert_eq!(names(pgn), vec![Some("Alice".to_string())]);
}

/// PGN writes unknown values as `?` and unknown dates as `????.??.??`.
#[test]
fn unknown_placeholders_are_left_out_of_the_name() {
    let pgn = "\
[Event \"?\"]
[Site \"?\"]
[Date \"????.??.??\"]
[Round \"?\"]
[White \"Alice\"]
[Black \"Bob\"]
[Result \"*\"]

1. e4 *
";
    assert_eq!(names(pgn), vec![Some("Alice vs Bob".to_string())]);
}

#[test]
fn a_game_without_tags_has_no_name() {
    assert_eq!(names("1. e4 e5 1-0"), vec![None]);
}

#[test]
fn names_are_per_game() {
    let pgn = "[White \"Alice\"] 1. e4 1-0 1. d4 0-1 [White \"Bob\"] 1. c4 1/2-1/2";
    assert_eq!(
        names(pgn),
        vec![Some("Alice".to_string()), None, Some("Bob".to_string())]
    );
}

#[test]
fn unresolved_result_is_left_out_of_the_name() {
    let pgn = "[Event \"Ongoing\"] [Result \"*\"] 1. e4 *";
    assert_eq!(names(pgn), vec![Some("Ongoing".to_string())]);
}

// ---- tag parsing corner cases ----

/// Lichess writes clock annotations inside comments. Those brackets must not
/// be read as tag pairs, or every move would start a new game.
#[test]
fn bracket_inside_a_comment_is_not_a_tag() {
    let pgn = "[Event \"Rated\"] 1. e4 { [%clk 0:03:00] } e5 { [%clk 0:02:58] } 1-0";
    assert_games(pgn, &[&["e4", "e5"]]);
    assert_eq!(names(pgn), vec![Some("Rated".to_string())]);
}

#[test]
fn tag_value_may_contain_a_closing_bracket() {
    let pgn = "[Event \"Foo] Bar\"] 1. e4 *";
    assert_eq!(names(pgn), vec![Some("Foo] Bar".to_string())]);
}

#[test]
fn tag_value_may_contain_escaped_quotes_and_backslashes() {
    let pgn = "[Event \"He said \\\"hi\\\" C:\\\\games\"] 1. e4 *";
    assert_eq!(
        names(pgn),
        vec![Some("He said \"hi\" C:\\games".to_string())]
    );
}

#[test]
fn tag_value_may_contain_non_ascii() {
    let pgn = "[White \"Réti\"] [Black \"Tartakower\"] 1. e4 *";
    assert_eq!(names(pgn), vec![Some("Réti vs Tartakower".to_string())]);
}

#[test]
fn tag_names_are_matched_case_insensitively() {
    let pgn = "[white \"Alice\"] [BLACK \"Bob\"] 1. e4 *";
    assert_eq!(names(pgn), vec![Some("Alice vs Bob".to_string())]);
}

#[test]
fn unknown_tags_do_not_break_parsing() {
    let pgn = "[ECO \"B90\"] [WhiteElo \"2800\"] [White \"Alice\"] 1. e4 *";
    assert_eq!(names(pgn), vec![Some("Alice".to_string())]);
}

#[test]
fn malformed_tags_are_rejected() {
    let parser = PgnParser::new();
    for pgn in [
        "[Event no quotes] 1. e4",
        "[Event \"unterminated 1. e4",
        "[\"no name\"] 1. e4",
        "[Event \"value\" 1. e4",
    ] {
        assert!(
            matches!(parser.parse(pgn), Err(ParseError::MalformedTag(_))),
            "expected a MalformedTag error for {pgn:?}"
        );
    }
}

/// A stray closer is also a word terminator, so an early version of the
/// tokenizer read an empty word and never advanced — the parser hung
/// forever rather than returning. Malformed input must always terminate.
#[test]
fn stray_closers_terminate() {
    let parser = PgnParser::new();
    for pgn in [
        "1. e4 } e5",
        "}",
        "}}}",
        "]",
        ")",
        "( { ) } )",
        "1. e4 ] e5",
    ] {
        let _ = parser.parse(pgn);
    }
    // The moves either side of a stray brace are still read.
    assert_moves("1. e4 } e5", &["e4", "e5"]);
}

/// Unterminated constructs must stop at the end of input, not run past it.
#[test]
fn unterminated_constructs_terminate() {
    let parser = PgnParser::new();
    for pgn in ["1. e4 {unterminated", "1. e4 (", "((((", "[", "{", "$"] {
        let _ = parser.parse(pgn);
    }
}

// ---- move errors ----

#[test]
fn garbage_token_is_rejected() {
    assert!(PgnParser::new().parse("1. e4 Zx9").is_err());
}

#[test]
fn invalid_promotion_is_rejected() {
    assert!(matches!(
        PgnParser::new().parse("1. e8=Z"),
        Err(ParseError::InvalidPromotion { .. })
    ));
}

#[test]
fn missing_destination_is_rejected() {
    assert!(matches!(
        PgnParser::new().parse("1. Nx"),
        Err(ParseError::MissingDestination(_))
    ));
}

// ---- full games ----

#[test]
fn opera_game_morphy() {
    let pgn = "1. e4 e5 2. Nf3 d6 3. d4 Bg4 4. dxe5 Bxf3 5. Qxf3 dxe5 6. Bc4 Nf6 \
               7. Qb3 Qe7 8. Nc3 c6 9. Bg5 b5 10. Nxb5 cxb5 11. Bxb5+ Nbd7 \
               12. O-O-O Rd8 13. Rxd7 Rxd7 14. Rd1 Qe6 15. Bxd7+ Nxd7 \
               16. Qb8+ Nxb8 17. Rd8# 1-0";
    assert_moves(
        pgn,
        &[
            "e4", "e5", "Nf3", "d6", "d4", "Bg4", "dxe5", "Bxf3", "Qxf3", "dxe5", "Bc4", "Nf6",
            "Qb3", "Qe7", "Nc3", "c6", "Bg5", "b5", "Nxb5", "cxb5", "Bxb5+", "Nbd7", "O-O-O",
            "Rd8", "Rxd7", "Rxd7", "Rd1", "Qe6", "Bxd7+", "Nxd7", "Qb8+", "Nxb8", "Rd8#",
        ],
    );
}

/// A realistic export: several games, headers, comments, glyphs, variations.
#[test]
fn realistic_multi_game_export() {
    let pgn = "\
[Event \"Wijk aan Zee\"]
[White \"Kasparov\"]
[Black \"Topalov\"]
[Result \"1-0\"]

1. e4 d6 {the Pirc} 2. d4 Nf6 $1 (2... g6 3. Nc3) 3. Nc3 g6 1-0

[Event \"London\"]
[White \"Lasker\"]
[Black \"Thomas\"]
[Result \"1-0\"]

1. d4 e6 ; a line comment
2. Nf3 f5 1-0
";
    assert_games(
        pgn,
        &[
            &["e4", "d6", "d4", "Nf6", "Nc3", "g6"],
            &["d4", "e6", "Nf3", "f5"],
        ],
    );
    assert_eq!(
        names(pgn),
        vec![
            Some("Kasparov vs Topalov, Wijk aan Zee, 1-0".to_string()),
            Some("Lasker vs Thomas, London, 1-0".to_string()),
        ]
    );
}
