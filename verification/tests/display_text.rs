//! What the viewer draws as text: fitted labels, board characters, glyphs
//! and piece silhouettes.

use chessview::display::block_piece_lines;
use chessview::display::block_sprite;
use chessview::display::cell_char;
use chessview::display::fit;
use chessview::display::glyph_for;
use chessview::display::menu_row_text;
use chessview::display::move_rows;
use chessview::display::moves_scroll;
use chessview::display::pad_left;
use chessview::display::pad_right;
use chessview::display::square_shade;
use chessview::display::Shade;
use chessview::viewer::hit;
use chessview::viewer::Area;

#[test]
fn long_names_are_truncated_with_an_ellipsis() {
    assert_eq!(fit("A very long game name indeed", 10), "A very lo…");
    assert_eq!(fit("A very long game name indeed", 10).chars().count(), 10);
}

#[test]
fn short_names_are_padded_to_the_width() {
    assert_eq!(fit("Alice", 8), "Alice   ");
    assert_eq!(fit("Alice", 5), "Alice");
    assert_eq!(fit("Alice", 0), "");
    assert_eq!(fit("Réti", 6), "Réti  ");
}

#[test]
fn padding_keeps_longer_text() {
    assert_eq!(pad_right("e4", 7), "e4     ");
    assert_eq!(pad_right("Qxf7#+abc", 7), "Qxf7#+abc");
    assert_eq!(pad_left("7", 3), "  7");
    assert_eq!(pad_left("1234", 3), "1234");
}

#[test]
fn menu_rows_number_their_games() {
    assert_eq!(menu_row_text(0, "Alice vs Bob", 2), "   1. Alice vs Bob  (2 moves)");
    assert_eq!(menu_row_text(11, "Game 12", 1), "  12. Game 12  (1 moves)");
    assert_eq!(menu_row_text(1233, "X", 0), " 1234. X  (0 moves)");
}

#[test]
fn the_move_list_scrolls_to_keep_the_current_move_visible() {
    // A row holds a pair of half-moves; 30 pairs, 16 rows on screen.
    assert_eq!(moves_scroll(0, 16), 0, "first pair shown at the start");
    assert_eq!(moves_scroll(60, 16), 14, "last pair scrolled into view");
    assert_eq!(moves_scroll(32, 16), 0);
    assert_eq!(moves_scroll(33, 16), 1);
    assert_eq!(moves_scroll(60, 0), 0);
}

#[test]
fn board_characters_default_to_an_empty_square() {
    let row0: &[u8] = b"rnbqkbnr";
    let short: &[u8] = b"pp";
    let empty: &[u8] = b"";
    let rows: [&[u8]; 8] = [row0, short, empty, empty, empty, empty, empty, empty];
    assert_eq!(cell_char(&rows, 0, 0), 'r');
    assert_eq!(cell_char(&rows, 0, 4), 'k');
    assert_eq!(cell_char(&rows, 1, 1), 'p');
    assert_eq!(cell_char(&rows, 1, 2), '.');
    assert_eq!(cell_char(&rows, 5, 0), '.');
    assert_eq!(cell_char(&rows, 9, 0), '.');
}

#[test]
fn every_piece_has_a_glyph() {
    assert_eq!(glyph_for('K'), "\u{2654}");
    assert_eq!(glyph_for('P'), "\u{2659}");
    assert_eq!(glyph_for('k'), "\u{265A}");
    assert_eq!(glyph_for('n'), "\u{265E}");
    assert_eq!(glyph_for('.'), " ");
}

#[test]
fn sprites_are_six_by_six() {
    for piece in ['K', 'Q', 'R', 'B', 'N', 'P', '?'] {
        let sprite = block_sprite(piece);
        for row in sprite {
            assert_eq!(row.len(), 6);
        }
    }
    assert_eq!(block_sprite('R')[0], "X.XX.X");
    assert_eq!(block_sprite('x'), ["......"; 6]);
}

#[test]
fn pieces_are_drawn_centered_in_half_blocks() {
    // A 6 by 3 cell is a 6 by 6 pixel canvas: the sprite at scale one.
    let lines = block_piece_lines('k', 6, 3);
    assert_eq!(lines, vec!["▄▄██▄▄", "  ██  ", "▄████▄"]);
    // A 12 by 6 cell is 12 by 12 pixels: the sprite at scale two.
    let rook = block_piece_lines('R', 12, 6);
    assert_eq!(rook.len(), 6);
    assert_eq!(rook[0], "██  ████  ██");
    assert_eq!(rook[5], "████████████");
    for line in &rook {
        assert_eq!(line.chars().count(), 12);
    }
}

#[test]
fn pieces_grow_with_the_board() {
    let small = block_piece_lines('R', 6, 3);
    let large = block_piece_lines('R', 12, 6);
    let ink = |lines: &Vec<String>| {
        lines
            .iter()
            .map(|line| line.chars().filter(|c| *c != ' ').count())
            .max()
            .unwrap_or(0)
    };
    assert!(ink(&large) > ink(&small));
}

#[test]
fn a_cell_too_small_for_the_sprite_draws_nothing() {
    assert!(block_piece_lines('Q', 5, 3).is_empty());
    assert!(block_piece_lines('Q', 6, 2).is_empty());
}

#[test]
fn hits_are_inside_the_area() {
    let area = Area { x: 2, y: 3, width: 4, height: 2 };
    assert!(hit(area, 2, 3));
    assert!(hit(area, 5, 4));
    assert!(!hit(area, 6, 4));
    assert!(!hit(area, 5, 5));
    assert!(!hit(area, 1, 3));
    let edge = Area { x: 65530, y: 0, width: 5, height: 1 };
    assert!(hit(edge, 65534, 0));
    assert!(!hit(edge, 65535, 0));
}

#[test]
fn squares_alternate_and_the_last_move_stands_out() {
    let none: Vec<(u8, u8)> = Vec::new();
    assert_eq!(square_shade(0, 0, &none), Shade::Dark); // a1
    assert_eq!(square_shade(7, 0, &none), Shade::Light); // h1
    assert_eq!(square_shade(4, 3, &none), Shade::Light); // e4
    let e4 = vec![(4, 3)];
    assert_eq!(square_shade(4, 3, &e4), Shade::LightLastMove);
    assert_eq!(square_shade(3, 3, &e4), Shade::Dark);
    let castle = vec![(6, 0), (5, 0)];
    assert_eq!(square_shade(6, 0, &castle), Shade::DarkLastMove);
    assert_eq!(square_shade(5, 0, &castle), Shade::LightLastMove);
}

#[test]
fn the_move_list_pairs_half_moves() {
    let moves: Vec<String> = ["e4", "e5", "Nf3"].iter().map(|m| m.to_string()).collect();
    let rows = move_rows(&moves, 2);
    assert_eq!(rows.len(), 2);
    assert_eq!(rows[0].number, "  1. ");
    assert_eq!(rows[0].white, "e4     ");
    assert_eq!(rows[0].black.as_deref(), Some("e5     "));
    assert!(!rows[0].white_current && rows[0].black_current);
    assert_eq!(rows[1].number, "  2. ");
    assert_eq!(rows[1].white, "Nf3    ");
    assert_eq!(rows[1].black, None);
    assert!(!rows[1].white_current && !rows[1].black_current);
    assert!(move_rows(&Vec::new(), 0).is_empty());
    let at_start = move_rows(&moves, 0);
    assert!(at_start.iter().all(|row| !row.white_current && !row.black_current));
}
