//! The viewer's navigation state: opening games, the menu, the board, the
//! keys and the mouse.

use chessview::viewer::App;
use chessview::viewer::AppError;
use chessview::viewer::Area;
use chessview::viewer::Key;
use chessview::viewer::Mode;

const SAMPLE: &str = "1. e4 e5 2. Nf3 Nc6 3. Bb5 a6";
const TWO_GAMES: &str = "\
[White \"Alice\"] [Black \"Bob\"] 1. e4 e5 1-0
[Event \"Second\"] 1. d4 d5 2. c4 0-1
";
/// Two games, neither named.
const TWO_UNNAMED: &str = "1. e4 e5 1-0 1. d4 d5 0-1";

/// Whether building an app from this PGN is rejected.
fn is_rejected(pgn: &str) -> bool {
    App::from_pgn(pgn).is_err()
}

fn app(pgn: &str) -> App {
    App::from_pgn(pgn).unwrap()
}

fn press(app: &mut App, key: Key) {
    app.handle_key(key);
}

fn game_names(app: &App) -> Vec<String> {
    (0..app.game_count()).map(|i| app.game_name(i).clone()).collect()
}

fn position_count(app: &App, index: usize) -> usize {
    app.replay(index).unwrap().positions().len()
}

fn sorted_highlights(app: &App) -> Vec<(u8, u8)> {
    let mut highlights = app.last_move_highlights();
    highlights.sort_unstable();
    highlights
}

/// Steps forward from the start until `ply` half-moves are applied.
fn set_ply(app: &mut App, ply: usize) {
    app.reset();
    for _ in 0..ply {
        app.forward();
    }
    assert_eq!(app.ply(), ply);
}

/// Moves the menu cursor down from the top to `index`.
fn select(app: &mut App, index: usize) {
    press(app, Key::Home);
    for _ in 0..index {
        press(app, Key::Down);
    }
    assert_eq!(app.selected(), index);
}

fn area(x: u16, y: u16, width: u16, height: u16) -> Area {
    Area { x, y, width, height }
}

/// The four board buttons side by side along the bottom of a 90 by 30
/// screen, and a menu list above them.
fn buttons() -> [Area; 4] {
    [
        area(0, 27, 22, 3),
        area(22, 27, 23, 3),
        area(45, 22, 22, 3),
        area(67, 27, 23, 3),
    ]
}

fn menu_list() -> Area {
    area(1, 1, 88, 25)
}

// ---- opening ----

#[test]
fn a_single_game_opens_straight_onto_the_board() {
    let app = app(SAMPLE);
    assert_eq!(app.mode(), Mode::Board);
    assert_eq!(app.game_count(), 1);
    // Opening a game builds its replay: seven positions for six half-moves.
    assert_eq!(position_count(&app, 0), 7);
}

#[test]
fn several_games_open_the_menu() {
    let app = app(TWO_GAMES);
    assert_eq!(app.mode(), Mode::Menu);
    assert_eq!(app.game_count(), 2);
}

#[test]
fn pgn_without_games_is_rejected() {
    assert!(is_rejected(""));
    assert!(is_rejected("   "));
}

#[test]
fn invalid_pgn_is_rejected() {
    assert!(is_rejected("1. e4 Zx9"));
}

#[test]
fn the_errors_say_why_a_pgn_is_rejected() {
    assert!(matches!(App::from_pgn("   "), Err(AppError::NoGames)));
    assert!(matches!(App::from_pgn("1. e4 Zx9"), Err(AppError::InvalidPgn(_))));
}

// ---- game names ----

#[test]
fn named_games_keep_their_name() {
    let app = app(TWO_GAMES);
    assert_eq!(app.game_name(0), "Alice vs Bob");
    assert_eq!(app.game_name(1), "Second");
}

#[test]
fn unnamed_games_are_numbered_by_file_order() {
    let app = app(TWO_UNNAMED);
    assert_eq!(app.game_name(0), "Game 1");
    assert_eq!(app.game_name(1), "Game 2");
}

#[test]
fn numbering_is_independent_of_which_games_are_named() {
    let app = app("1. e4 1-0 [White \"Alice\"] 1. d4 0-1 1. c4 1/2-1/2");
    assert_eq!(game_names(&app), vec!["Game 1", "Alice", "Game 3"]);
}

// ---- lazy replay ----

#[test]
fn games_are_replayed_only_when_opened() {
    let mut app = app(TWO_GAMES);
    assert!(app.replay(0).is_none() && app.replay(1).is_none());

    app.open_game(1);
    assert!(app.replay(0).is_none(), "untouched game stays unbuilt");
    assert!(app.replay(1).is_some());
}

#[test]
fn an_unplayable_game_reports_instead_of_crashing() {
    // The second game's rook cannot reach a3 from the starting position.
    let mut app = app("1. e4 e5 1-0 1. Ra3 0-1");
    assert_eq!(app.game_count(), 2);

    app.open_game(1);
    assert_eq!(app.mode(), Mode::Menu, "stays in the menu");
    assert!(app.status().is_some(), "reports the problem");

    // The healthy game still opens, and clears the message.
    app.open_game(0);
    assert_eq!(app.mode(), Mode::Board);
    assert!(app.status().is_none());
}

#[test]
fn the_menu_reports_an_unplayable_game() {
    let mut app = app("1. e4 e5 1-0 1. Ra3 0-1");
    app.open_game(1);
    assert_eq!(
        app.status().unwrap(),
        "Game 2: could not apply move Ra3: no piece can play Ra3"
    );
}

#[test]
fn an_ambiguous_move_is_reported_with_its_text() {
    // Both knights can reach d2 and nothing says which.
    let mut app = app("1. d4 d5 2. Nf3 Nf6 3. Nd2 1-0 1. e4 1-0");
    app.open_game(0);
    assert_eq!(app.mode(), Mode::Menu);
    assert_eq!(
        app.status().unwrap(),
        "Game 1: could not apply move Nd2: ambiguous move: Nd2"
    );
}

#[test]
fn castling_without_a_king_reports_a_grid_error() {
    let mut app = app("1. e4 e5 2. Ke2 Ke7 3. O-O 1-0 1. d4 1-0");
    app.open_game(0);
    assert_eq!(app.mode(), Mode::Menu);
    assert_eq!(
        app.status().unwrap(),
        "Game 1: could not apply move O-O: grid error: Unoccupied at Coordinate { x: 1, y: -3 }"
    );
}

#[test]
fn an_index_past_the_list_opens_nothing() {
    let mut app = app(TWO_GAMES);
    app.open_game(5);
    assert_eq!(app.mode(), Mode::Menu);
    assert!(app.status().is_none());
}

// ---- menu navigation ----

#[test]
fn menu_selection_stays_in_bounds() {
    let mut app = app(TWO_GAMES);
    assert_eq!(app.selected(), 0);
    press(&mut app, Key::Up);
    assert_eq!(app.selected(), 0, "cannot move above the first game");
    for _ in 0..5 {
        press(&mut app, Key::Down);
    }
    assert_eq!(app.selected(), 1, "cannot move past the last game");
    press(&mut app, Key::Home);
    assert_eq!(app.selected(), 0);
    press(&mut app, Key::End);
    assert_eq!(app.selected(), 1);
}

#[test]
fn enter_opens_the_selected_game() {
    let mut app = app(TWO_GAMES);
    press(&mut app, Key::Down);
    press(&mut app, Key::Enter);
    assert_eq!(app.mode(), Mode::Board);
    assert_eq!(app.current_game(), 1);
    assert_eq!(app.ply(), 0);
}

#[test]
fn opening_a_game_starts_it_at_the_first_position() {
    let mut app = app(TWO_GAMES);
    app.open_game(0);
    app.forward();
    assert_eq!(app.ply(), 1);
    app.show_menu();
    app.open_game(1);
    assert_eq!(app.ply(), 0, "the new game starts from the beginning");
}

// ---- leaving a game ----

#[test]
fn escape_and_a_return_to_the_menu() {
    for key in [Key::Esc, Key::Char('a')] {
        let mut app = app(TWO_GAMES);
        app.open_game(1);
        assert_eq!(app.mode(), Mode::Board);
        press(&mut app, key);
        assert_eq!(app.mode(), Mode::Menu);
        assert_eq!(app.selected(), 1, "the game just viewed is selected");
    }
}

#[test]
fn a_single_game_can_still_reach_the_menu() {
    let mut app = app(SAMPLE);
    assert_eq!(app.mode(), Mode::Board);
    press(&mut app, Key::Esc);
    assert_eq!(app.mode(), Mode::Menu);
}

#[test]
fn q_quits_from_either_mode() {
    let mut board = app(SAMPLE);
    press(&mut board, Key::Char('q'));
    assert!(board.should_quit());

    let mut menu = app(TWO_GAMES);
    press(&mut menu, Key::Char('q'));
    assert!(menu.should_quit());
}

#[test]
fn escape_quits_from_the_menu() {
    let mut app = app(TWO_GAMES);
    press(&mut app, Key::Esc);
    assert!(app.should_quit());
}

#[test]
fn other_keys_change_nothing() {
    let mut app = app(SAMPLE);
    app.forward();
    press(&mut app, Key::Other);
    press(&mut app, Key::Char('x'));
    press(&mut app, Key::Enter);
    assert_eq!(app.mode(), Mode::Board);
    assert_eq!(app.ply(), 1);
    assert!(!app.should_quit());
}

// ---- board navigation ----

#[test]
fn board_navigation_stays_in_bounds() {
    let mut app = app(SAMPLE);
    assert_eq!(app.ply(), 0);
    app.backward();
    assert_eq!(app.ply(), 0, "cannot go before the start");
    for _ in 0..10 {
        app.forward();
    }
    assert_eq!(app.ply(), 6, "cannot go past the end");
    app.reset();
    assert_eq!(app.ply(), 0);
    app.go_to_end();
    assert_eq!(app.ply(), 6);
}

#[test]
fn navigation_follows_the_open_game() {
    let mut app = app(TWO_GAMES);
    app.open_game(1); // 1. d4 d5 2. c4 -> three half-moves
    app.go_to_end();
    assert_eq!(app.ply(), 3);
}

#[test]
fn board_keys_drive_navigation() {
    let mut app = app(SAMPLE); // six half-moves
    assert_eq!(app.mode(), Mode::Board);
    press(&mut app, Key::Right);
    assert_eq!(app.ply(), 1, "Right steps forward");
    press(&mut app, Key::Right);
    press(&mut app, Key::Left);
    assert_eq!(app.ply(), 1, "Left steps back");
    press(&mut app, Key::End);
    assert_eq!(app.ply(), 6, "End jumps to the last position");
    press(&mut app, Key::Char('r'));
    assert_eq!(app.ply(), 0, "r resets to the start");
    press(&mut app, Key::End);
    press(&mut app, Key::Home);
    assert_eq!(app.ply(), 0, "Home also resets");
}

#[test]
fn forward_then_backward_returns_to_the_same_ply() {
    let mut app = app(SAMPLE);
    for start in 0..6 {
        set_ply(&mut app, start);
        app.forward();
        app.backward();
        assert_eq!(app.ply(), start);
    }
}

#[test]
fn the_move_buttons_navigate() {
    let mut app = app(SAMPLE);
    let buttons = buttons();
    let click = |app: &mut App, index: usize| {
        let button = buttons[index];
        app.handle_click(menu_list(), buttons, button.x + 1, button.y + 1);
    };
    click(&mut app, 3); // forward
    assert_eq!(app.ply(), 1);
    click(&mut app, 3);
    assert_eq!(app.ply(), 2);
    click(&mut app, 1); // back
    assert_eq!(app.ply(), 1);
    click(&mut app, 2); // reset
    assert_eq!(app.ply(), 0);
}

// ---- the mouse ----

#[test]
fn clicking_a_menu_row_opens_that_game() {
    let mut app = app(TWO_GAMES);
    let list = menu_list();
    app.handle_click(list, buttons(), list.x + 2, list.y + 1);
    assert_eq!(app.mode(), Mode::Board);
    assert_eq!(app.current_game(), 1);
}

#[test]
fn clicking_the_all_games_button_returns_to_the_menu() {
    let mut app = app(SAMPLE);
    let buttons = buttons();
    app.handle_click(menu_list(), buttons, buttons[0].x + 1, buttons[0].y + 1);
    assert_eq!(app.mode(), Mode::Menu);
}

#[test]
fn clicking_past_the_last_game_opens_nothing() {
    let mut app = app(TWO_GAMES);
    let list = menu_list();
    app.handle_click(list, buttons(), list.x + 2, list.y + 20);
    assert_eq!(app.mode(), Mode::Menu, "a click past the list opens nothing");
}

#[test]
fn clicking_outside_the_list_does_nothing() {
    let mut app = app(TWO_GAMES);
    let list = menu_list();
    app.handle_click(list, buttons(), list.x + list.width, list.y);
    assert_eq!(app.mode(), Mode::Menu);
    assert!(!app.should_quit());
}

#[test]
fn a_reported_problem_does_not_shift_the_menu_rows() {
    let mut app = app("1. e4 1-0 1. Ra3 0-1 1. d4 1/2-1/2");
    app.open_game(1);
    assert!(app.status().is_some());
    let list = menu_list();
    app.handle_click(list, buttons(), list.x + 2, list.y);
    assert_eq!(app.mode(), Mode::Board, "clicking the first row opens the first game");
    assert_eq!(app.current_game(), 0);
}

// ---- last move highlight ----

#[test]
fn tracks_the_destination_of_a_plain_move() {
    let mut app = app(SAMPLE);
    app.forward(); // 1. e4
    assert_eq!(app.last_move_highlights(), vec![(4, 3)]); // e4
}

#[test]
fn castling_highlights_the_moving_side_back_rank() {
    let mut app = app("1. e4 e5 2. Nf3 Nc6 3. Bc4 Bc5 4. O-O Nf6 5. d3 O-O");

    set_ply(&mut app, 7); // white's O-O: king g1, rook f1 on rank 1 (index 0)
    assert_eq!(sorted_highlights(&app), vec![(5, 0), (6, 0)]);

    set_ply(&mut app, 10); // black's O-O: king g8, rook f8 on rank 8 (index 7)
    assert_eq!(sorted_highlights(&app), vec![(5, 7), (6, 7)]);
}

#[test]
fn after_a_capture() {
    let mut app = app("1. e4 d5 2. exd5");
    app.go_to_end(); // white's exd5
    assert_eq!(app.ply(), 3);
    assert_eq!(app.last_move_highlights(), vec![(3, 4)]); // d5
}

#[test]
fn after_en_passant() {
    let mut app = app("1. e4 d5 2. e5 f5 3. exf6");
    app.go_to_end(); // white's en passant exf6
    assert_eq!(app.ply(), 5);
    assert_eq!(app.last_move_highlights(), vec![(5, 5)]); // f6
}

#[test]
fn after_a_promotion() {
    let mut app = app("1. h4 g5 2. hxg5 a6 3. g6 a5 4. g7 a4 5. gxh8=Q");
    app.go_to_end(); // white's gxh8=Q
    assert_eq!(app.ply(), 9);
    assert_eq!(app.last_move_highlights(), vec![(7, 7)]); // h8
}

#[test]
fn queenside_castling_highlights_the_back_rank() {
    let mut app = app("1. d4 d5 2. Nc3 Nc6 3. Bf4 Bf5 4. Qd2 Qd7 5. O-O-O O-O-O");

    set_ply(&mut app, 9); // white's O-O-O: king c1, rook d1 on rank 1 (index 0)
    assert_eq!(sorted_highlights(&app), vec![(2, 0), (3, 0)]);

    set_ply(&mut app, 10); // black's O-O-O: king c8, rook d8 on rank 8 (index 7)
    assert_eq!(sorted_highlights(&app), vec![(2, 7), (3, 7)]);
}

#[test]
fn nothing_is_highlighted_before_the_first_move() {
    let app = app(SAMPLE); // opens at ply 0
    assert!(app.last_move_highlights().is_empty());
}

// ---- scrolling ----

#[test]
fn the_menu_scrolls_to_keep_the_selection_visible() {
    let pgn = "1. e4 1-0 ".repeat(30);
    let mut app = app(&pgn);
    assert_eq!(app.game_count(), 30);
    assert_eq!(app.menu_scroll(10), 0, "no scroll while the cursor fits");

    select(&mut app, 12);
    assert_eq!(app.menu_scroll(10), 3, "cursor pulled onto the last row");

    select(&mut app, 29);
    let scroll = app.menu_scroll(10);
    assert!(
        scroll <= 29 && 29 < scroll + 10,
        "the selected row must be on screen"
    );
}

// ---- the replay ----

#[test]
fn the_replay_holds_every_position_and_move() {
    let app = app("1. e4 e5");
    let replay = app.current_replay().unwrap();
    assert_eq!(replay.san_moves(), &vec!["e4".to_string(), "e5".to_string()]);
    assert_eq!(replay.positions().len(), 3);
    assert_eq!(
        replay.positions()[0],
        "rnbqkbnr\npppppppp\n........\n........\n........\n........\nPPPPPPPP\nRNBQKBNR"
    );
    assert_eq!(
        replay.positions()[2],
        "rnbqkbnr\npppp.ppp\n........\n....p...\n....P...\n........\nPPPP.PPP\nRNBQKBNR"
    );
}

// ---- the empty state ----

#[test]
fn empty_app_starts_in_the_menu_with_no_games() {
    let app = App::empty("nothing here".to_string());
    assert_eq!(app.mode(), Mode::Menu);
    assert_eq!(app.game_count(), 0);
}

#[test]
fn empty_app_shows_its_message() {
    let app = App::empty("nothing here".to_string());
    assert_eq!(app.status().unwrap(), "nothing here");
}

#[test]
fn empty_app_ignores_navigation_without_opening_a_board() {
    let mut app = App::empty("nothing here".to_string());
    for key in [Key::Down, Key::Up, Key::End, Key::Enter] {
        press(&mut app, key);
        assert_eq!(app.mode(), Mode::Menu, "empty menu must stay in the menu");
    }
    // The message is not cleared by navigating an empty menu.
    assert_eq!(app.status().unwrap(), "nothing here");
}
