//! What the viewer draws, as text: fitted labels, the characters of the
//! board, piece glyphs, and the half-block silhouettes pieces are drawn with
//! on squares large enough to hold them.

use crate::text::chars_of;
use crate::text::decimal;
use crate::text::decimal_text;
use crate::text::extend_chars;
use crate::text::extend_with_str;
use crate::text::string_from;
use crate::text::to_upper;
use crate::text::ascii_upper;
use vstd::prelude::*;

verus! {

// ===========================================================================
// LABELS
// ===========================================================================

/// `n` spaces.
pub open spec fn spaces(n: nat) -> Seq<char> {
    Seq::new(n, |i: int| ' ')
}

/// A label cut or padded to exactly `width` characters: one longer than
/// `width` keeps its first `width - 1` characters and ends in an ellipsis, so
/// that it cannot be mistaken for a short one; a shorter one is padded with
/// spaces on the right.
pub open spec fn fit_spec(text: Seq<char>, width: nat) -> Seq<char> {
    if width == 0 {
        Seq::empty()
    } else if text.len() > width {
        text.take(width - 1).push('…')
    } else {
        text + spaces((width - text.len()) as nat)
    }
}

/// `text` padded with spaces on the right to at least `width` characters.
pub open spec fn pad_right_spec(text: Seq<char>, width: nat) -> Seq<char> {
    if text.len() >= width {
        text
    } else {
        text + spaces((width - text.len()) as nat)
    }
}

/// `text` padded with spaces on the left to at least `width` characters.
pub open spec fn pad_left_spec(text: Seq<char>, width: nat) -> Seq<char> {
    if text.len() >= width {
        text
    } else {
        spaces((width - text.len()) as nat) + text
    }
}

fn push_spaces(chars: &mut Vec<char>, n: usize)
    ensures
        final(chars)@ == old(chars)@ + spaces(n as nat),
{
    let mut i: usize = 0;
    while i < n
        invariant
            i <= n,
            chars@ =~= old(chars)@ + spaces(i as nat),
        decreases n - i,
    {
        chars.push(' ');
        i += 1;
    }
}

/// Cuts or pads a label to exactly `width` characters, so that a highlighted
/// row fills its panel.
pub fn fit(text: &str, width: usize) -> (fitted: String)
    ensures
        fitted@ == fit_spec(text@, width as nat),
{
    if width == 0 {
        return String::new();
    }
    let mut chars = chars_of(text);
    let length = chars.len();
    if length > width {
        let mut kept: Vec<char> = Vec::new();
        let mut i: usize = 0;
        while i < width - 1
            invariant
                i <= width - 1,
                width - 1 < chars.len(),
                kept@ =~= chars@.take(i as int),
            decreases width - 1 - i,
        {
            kept.push(chars[i]);
            i += 1;
        }
        kept.push('…');
        return string_from(&kept);
    }
    push_spaces(&mut chars, width - length);
    string_from(&chars)
}

/// Pads a label with spaces on the right to at least `width` characters.
pub fn pad_right(text: &str, width: usize) -> (padded: String)
    ensures
        padded@ == pad_right_spec(text@, width as nat),
{
    let mut chars = chars_of(text);
    if chars.len() < width {
        let missing = width - chars.len();
        push_spaces(&mut chars, missing);
    }
    string_from(&chars)
}

/// Pads a label with spaces on the left to at least `width` characters.
pub fn pad_left(text: &str, width: usize) -> (padded: String)
    ensures
        padded@ == pad_left_spec(text@, width as nat),
{
    let chars = chars_of(text);
    let mut padded: Vec<char> = Vec::new();
    if chars.len() < width {
        push_spaces(&mut padded, width - chars.len());
    }
    extend_chars(&mut padded, &chars);
    proof {
        if chars@.len() >= width {
            assert(padded@ =~= text@);
        }
    }
    string_from(&padded)
}

/// The text of the menu row of game `index` (from zero): its number, counted
/// from one and right-aligned in three columns, its name, and its number of
/// moves.
pub open spec fn menu_row_spec(index: nat, name: Seq<char>, moves: nat) -> Seq<char> {
    " "@ + pad_left_spec(decimal(index + 1), 3) + ". "@ + name + "  ("@ + decimal(moves)
        + " moves)"@
}

/// The text of the menu row of game `index` (from zero).
pub fn menu_row_text(index: usize, name: &str, moves: usize) -> (row: String)
    requires
        index < usize::MAX,
    ensures
        row@ == menu_row_spec(index as nat, name@, moves as nat),
{
    let number = string_from(&decimal_text(index + 1));
    let mut row = chars_of(" ");
    extend_with_str(&mut row, pad_left(number.as_str(), 3).as_str());
    extend_with_str(&mut row, ". ");
    extend_with_str(&mut row, name);
    extend_with_str(&mut row, "  (");
    extend_chars(&mut row, &decimal_text(moves));
    extend_with_str(&mut row, " moves)");
    string_from(&row)
}

/// The first row of the move list on screen when `visible` rows fit: the
/// list is a row per pair of half-moves, and the row of the current move
/// (the row counted as a `u16`) is kept on the last visible row once it is
/// past the first screenful.
pub open spec fn moves_scroll_spec(ply: nat, visible: nat) -> nat {
    let current_row = if ply == 0 {
        0
    } else {
        ((ply - 1) / 2) as nat % 65536
    };
    if visible > 0 && current_row >= visible {
        (current_row - visible + 1) as nat
    } else {
        0
    }
}

/// The first row of the move list on screen, chosen so that the current
/// move is always on screen.
pub fn moves_scroll(ply: usize, visible: u16) -> (first: u16)
    ensures
        first == moves_scroll_spec(ply as nat, visible as nat),
{
    let current_row: u16 = if ply == 0 {
        0
    } else {
        (((ply - 1) / 2) % 65536) as u16
    };
    if visible > 0 && current_row >= visible {
        current_row - visible + 1
    } else {
        0
    }
}

// ===========================================================================
// THE BOARD
// ===========================================================================

/// The board character at a display row (0 is rank 8) and a file, or `.`
/// (an empty square) where the position has a short or missing row.
pub open spec fn cell_char_spec(rows: Seq<Seq<u8>>, display_row: int, file: int) -> char {
    if 0 <= display_row < rows.len() && 0 <= file < rows[display_row].len() {
        rows[display_row][file] as char
    } else {
        '.'
    }
}

/// The board character at a display row and a file; every square lookup
/// goes through here, so no lookup can run past the end of a row.
pub fn cell_char(rows: &[&[u8]; 8], display_row: u16, file: u16) -> (c: char)
    ensures
        c == cell_char_spec(
            Seq::new(8, |i: int| rows@[i]@),
            display_row as int,
            file as int,
        ),
{
    if (display_row as usize) < 8 {
        let row: &[u8] = rows[display_row as usize];
        if (file as usize) < row.len() {
            return row[file as usize] as char;
        }
    }
    '.'
}

/// The glyph drawn for an ascii board character: the chess symbol of the
/// piece, or a space.
pub open spec fn glyph_spec(c: char) -> Seq<char> {
    if c == 'K' {
        "\u{2654}"@
    } else if c == 'Q' {
        "\u{2655}"@
    } else if c == 'R' {
        "\u{2656}"@
    } else if c == 'B' {
        "\u{2657}"@
    } else if c == 'N' {
        "\u{2658}"@
    } else if c == 'P' {
        "\u{2659}"@
    } else if c == 'k' {
        "\u{265A}"@
    } else if c == 'q' {
        "\u{265B}"@
    } else if c == 'r' {
        "\u{265C}"@
    } else if c == 'b' {
        "\u{265D}"@
    } else if c == 'n' {
        "\u{265E}"@
    } else if c == 'p' {
        "\u{265F}"@
    } else {
        " "@
    }
}

/// Maps an ascii board character to the glyph drawn for it.
pub fn glyph_for(character: char) -> (glyph: &'static str)
    ensures
        glyph@ == glyph_spec(character),
{
    if character == 'K' {
        "\u{2654}"
    } else if character == 'Q' {
        "\u{2655}"
    } else if character == 'R' {
        "\u{2656}"
    } else if character == 'B' {
        "\u{2657}"
    } else if character == 'N' {
        "\u{2658}"
    } else if character == 'P' {
        "\u{2659}"
    } else if character == 'k' {
        "\u{265A}"
    } else if character == 'q' {
        "\u{265B}"
    } else if character == 'r' {
        "\u{265C}"
    } else if character == 'b' {
        "\u{265D}"
    } else if character == 'n' {
        "\u{265E}"
    } else if character == 'p' {
        "\u{265F}"
    } else {
        " "
    }
}

} // verus!

verus! {

// ===========================================================================
// PIECE SILHOUETTES
// ===========================================================================

/// The side, in pixels, of the sprite bitmaps.
pub const SPRITE_SIDE: usize = 6;

/// A 6x6-pixel silhouette per piece, keyed by uppercase letter: `X` is a
/// piece pixel, anything else is transparent.
pub open spec fn sprite_rows(kind_upper: char) -> Seq<Seq<char>> {
    if kind_upper == 'K' {
        seq!["..XX.."@, "XXXXXX"@, "..XX.."@, "..XX.."@, ".XXXX."@, "XXXXXX"@]
    } else if kind_upper == 'Q' {
        seq!["X.X.X."@, "X.X.X."@, "XXXXXX"@, ".XXXX."@, ".XXXX."@, "XXXXXX"@]
    } else if kind_upper == 'R' {
        seq!["X.XX.X"@, "XXXXXX"@, ".XXXX."@, ".XXXX."@, ".XXXX."@, "XXXXXX"@]
    } else if kind_upper == 'B' {
        seq!["..XX.."@, ".XXXX."@, ".XXXX."@, "..XX.."@, ".XXXX."@, "XXXXXX"@]
    } else if kind_upper == 'N' {
        seq![".XXX.."@, "XXXXX."@, "XX.XX."@, "..XXX."@, ".XXXX."@, "XXXXXX"@]
    } else if kind_upper == 'P' {
        seq!["..XX.."@, ".XXXX."@, "..XX.."@, "..XX.."@, ".XXXX."@, "XXXXXX"@]
    } else {
        seq!["......"@, "......"@, "......"@, "......"@, "......"@, "......"@]
    }
}

/// The silhouette of a piece, keyed by uppercase letter.
pub fn block_sprite(kind_upper: char) -> (sprite: [&'static str; 6])
    ensures
        forall|i: int| 0 <= i < 6 ==> #[trigger] sprite@[i]@ == sprite_rows(kind_upper)[i],
{
    if kind_upper == 'K' {
        ["..XX..", "XXXXXX", "..XX..", "..XX..", ".XXXX.", "XXXXXX"]
    } else if kind_upper == 'Q' {
        ["X.X.X.", "X.X.X.", "XXXXXX", ".XXXX.", ".XXXX.", "XXXXXX"]
    } else if kind_upper == 'R' {
        ["X.XX.X", "XXXXXX", ".XXXX.", ".XXXX.", ".XXXX.", "XXXXXX"]
    } else if kind_upper == 'B' {
        ["..XX..", ".XXXX.", ".XXXX.", "..XX..", ".XXXX.", "XXXXXX"]
    } else if kind_upper == 'N' {
        [".XXX..", "XXXXX.", "XX.XX.", "..XXX.", ".XXXX.", "XXXXXX"]
    } else if kind_upper == 'P' {
        ["..XX..", ".XXXX.", "..XX..", "..XX..", ".XXXX.", "XXXXXX"]
    } else {
        ["......", "......", "......", "......", "......", "......"]
    }
}

/// How a silhouette of side `6 * scale` pixels sits on a canvas: its scale,
/// its side, and its offsets from the canvas's left and top edges.
pub struct Placement {
    pub scale: nat,
    pub side: nat,
    pub offset_x: nat,
    pub offset_y: nat,
}

/// The placement of a silhouette on a `width` by `height` pixel canvas: the
/// largest whole scale that fits (at least one), centered.
pub open spec fn placement(width: nat, height: nat) -> Placement {
    let smaller = if width < height {
        width
    } else {
        height
    };
    let scale = if smaller / 6 > 1 {
        smaller / 6
    } else {
        1
    };
    let side = 6 * scale;
    Placement {
        scale,
        side,
        offset_x: ((width - side) / 2) as nat,
        offset_y: ((height - side) / 2) as nat,
    }
}

/// Whether canvas pixel `(x, y)` is a piece pixel of `sprite` placed by `p`.
pub open spec fn lit_spec(sprite: Seq<Seq<char>>, p: Placement, x: int, y: int) -> bool {
    let sx = x - p.offset_x;
    let sy = y - p.offset_y;
    &&& 0 <= sx < p.side
    &&& 0 <= sy < p.side
    &&& sx / (p.scale as int) < sprite[sy / (p.scale as int)].len()
    &&& sprite[sy / (p.scale as int)][sx / (p.scale as int)] == 'X'
}

/// The terminal character for a cell whose upper and lower pixels are lit
/// or not.
pub open spec fn half_block(upper: bool, lower: bool) -> char {
    if upper && lower {
        '\u{2588}'
    } else if upper {
        '\u{2580}'
    } else if lower {
        '\u{2584}'
    } else {
        ' '
    }
}

/// The lines that draw a piece as a half-block silhouette on a cell of
/// `width` columns and `height` rows: each terminal cell carries two
/// vertical pixels, so the canvas is `width` by `2 * height` pixels, and the
/// silhouette is scaled by the largest whole number that fits and centered.
/// When even the unscaled silhouette does not fit, nothing is drawn.
pub open spec fn block_piece_spec(character: char, width: nat, height: nat) -> Seq<Seq<char>> {
    let sprite = sprite_rows(ascii_upper(character));
    let p = placement(width, 2 * height);
    if p.side > width || p.side > 2 * height {
        Seq::empty()
    } else {
        Seq::new(
            height,
            |row: int|
                Seq::new(
                    width,
                    |column: int|
                        half_block(
                            lit_spec(sprite, p, column, 2 * row),
                            lit_spec(sprite, p, column, 2 * row + 1),
                        ),
                ),
        )
    }
}

/// Whether a canvas pixel is a piece pixel, for the sprite whose rows are
/// `rows`.
fn lit(
    rows: &Vec<Vec<char>>,
    scale: usize,
    side: usize,
    offset_x: usize,
    offset_y: usize,
    x: usize,
    y: usize,
) -> (on: bool)
    requires
        rows.len() == 6,
        scale >= 1,
        side == 6 * scale,
    ensures
        on == lit_spec(
            rows@.map_values(|r: Vec<char>| r@),
            Placement {
                scale: scale as nat,
                side: side as nat,
                offset_x: offset_x as nat,
                offset_y: offset_y as nat,
            },
            x as int,
            y as int,
        ),
{
    if x < offset_x || y < offset_y {
        return false;
    }
    let sprite_x = x - offset_x;
    let sprite_y = y - offset_y;
    if sprite_x >= side || sprite_y >= side {
        return false;
    }
    let row_index = sprite_y / scale;
    assert(row_index < 6) by (nonlinear_arith)
        requires
            sprite_y < side,
            side == 6 * scale,
            scale >= 1,
            row_index == sprite_y / scale,
    ;
    let row = &rows[row_index];
    let column = sprite_x / scale;
    column < row.len() && row[column] == 'X'
}

/// Draws a piece as a half-block silhouette: the lines to write, top to
/// bottom, on a cell of `width` columns and `height` rows.
pub fn block_piece_lines(character: char, width: u16, height: u16) -> (lines: Vec<String>)
    ensures
        texts_of(lines@) == block_piece_spec(character, width as nat, height as nat),
{
    let sprite = block_sprite(to_upper(character));
    let mut rows: Vec<Vec<char>> = Vec::new();
    let mut i: usize = 0;
    while i < 6
        invariant
            i <= 6,
            rows@.len() == i,
            forall|k: int| 0 <= k < 6 ==> #[trigger] sprite@[k]@ == sprite_rows(
                ascii_upper(character),
            )[k],
            forall|k: int| 0 <= k < i ==> #[trigger] rows@[k]@ == sprite_rows(
                ascii_upper(character),
            )[k],
        decreases 6 - i,
    {
        rows.push(chars_of(sprite[i]));
        i += 1;
    }
    let ghost sprite_view = rows@.map_values(|r: Vec<char>| r@);
    proof {
        assert(sprite_view =~= sprite_rows(ascii_upper(character)));
    }
    let canvas_width = width as usize;
    let canvas_height = height as usize * 2;
    let smaller = if canvas_width < canvas_height {
        canvas_width
    } else {
        canvas_height
    };
    let scale = if smaller / SPRITE_SIDE > 1 {
        smaller / SPRITE_SIDE
    } else {
        1
    };
    assert(6 * scale <= 6 * 65536 * 2) by (nonlinear_arith)
        requires
            scale <= 65536 * 2,
    ;
    let side = SPRITE_SIDE * scale;
    let mut lines: Vec<String> = Vec::new();
    if side > canvas_width || side > canvas_height {
        proof {
            assert(texts_of(lines@) =~= Seq::<Seq<char>>::empty());
        }
        return lines;
    }
    let offset_x = (canvas_width - side) / 2;
    let offset_y = (canvas_height - side) / 2;
    let ghost p = Placement {
        scale: scale as nat,
        side: side as nat,
        offset_x: offset_x as nat,
        offset_y: offset_y as nat,
    };
    proof {
        assert(p == placement(width as nat, 2 * height as nat));
    }
    let mut row: usize = 0;
    while row < height as usize
        invariant
            row <= height,
            rows@.len() == 6,
            sprite_view == rows@.map_values(|r: Vec<char>| r@),
            sprite_view == sprite_rows(ascii_upper(character)),
            canvas_width == width,
            canvas_height == 2 * height,
            side <= canvas_width,
            side <= canvas_height,
            scale >= 1,
            side == 6 * scale,
            p == placement(width as nat, 2 * height as nat),
            p == (Placement {
                scale: scale as nat,
                side: side as nat,
                offset_x: offset_x as nat,
                offset_y: offset_y as nat,
            }),
            texts_of(lines@) =~= block_piece_spec(character, width as nat, height as nat).take(
                row as int,
            ),
        decreases height - row,
    {
        let mut line: Vec<char> = Vec::new();
        let mut column: usize = 0;
        while column < canvas_width
            invariant
                column <= canvas_width,
                row < height,
                rows@.len() == 6,
                sprite_view == rows@.map_values(|r: Vec<char>| r@),
                canvas_width == width,
                scale >= 1,
                side == 6 * scale,
                p == (Placement {
                    scale: scale as nat,
                    side: side as nat,
                    offset_x: offset_x as nat,
                    offset_y: offset_y as nat,
                }),
                line@ =~= Seq::new(
                    column as nat,
                    |c: int|
                        half_block(
                            lit_spec(sprite_view, p, c, 2 * row),
                            lit_spec(sprite_view, p, c, 2 * row + 1),
                        ),
                ),
            decreases canvas_width - column,
        {
            let upper = lit(&rows, scale, side, offset_x, offset_y, column, row * 2);
            let lower = lit(&rows, scale, side, offset_x, offset_y, column, row * 2 + 1);
            let cell = if upper && lower {
                '\u{2588}'
            } else if upper {
                '\u{2580}'
            } else if lower {
                '\u{2584}'
            } else {
                ' '
            };
            line.push(cell);
            column += 1;
        }
        let text = string_from(&line);
        proof {
            let spec_lines = block_piece_spec(character, width as nat, height as nat);
            assert(spec_lines.len() == height);
            assert(text@ =~= spec_lines[row as int]);
            lemma_texts_of_push(lines@, text);
            assert(text@ == block_piece_spec(character, width as nat, height as nat)[row as int]);
        }
        lines.push(text);
        row += 1;
    }
    proof {
        assert(block_piece_spec(character, width as nat, height as nat).take(height as int)
            =~= block_piece_spec(character, width as nat, height as nat));
    }
    lines
}

/// The texts held in a list of strings.
pub open spec fn texts_of(strings: Seq<String>) -> Seq<Seq<char>> {
    strings.map_values(|s: String| s@)
}

proof fn lemma_texts_of_push(strings: Seq<String>, s: String)
    ensures
        texts_of(strings.push(s)) == texts_of(strings).push(s@),
{
    assert(texts_of(strings.push(s)) =~= texts_of(strings).push(s@));
}

} // verus!

verus! {

// ===========================================================================
// THE BOARD AND THE MOVE LIST
// ===========================================================================

/// How a board square is shaded.
#[derive(Debug, Clone, Copy, PartialEq, Eq, Hash, Structural)]
pub enum Shade {
    Light,
    Dark,
    /// A light square that was part of the last move.
    LightLastMove,
    /// A dark square that was part of the last move.
    DarkLastMove,
}

/// The shade of the square at `(file, rank)` from zero: a1 is dark and the
/// colours alternate; a square of the last move (one of `highlights`) is
/// marked as such.
pub open spec fn shade_spec(file: int, rank: int, highlights: Seq<(u8, u8)>) -> Shade {
    let light = (file + rank) % 2 == 1;
    let last_move = exists|k: int|
        0 <= k < highlights.len() && #[trigger] highlights[k] == (file as u8, rank as u8);
    if light && !last_move {
        Shade::Light
    } else if !light && !last_move {
        Shade::Dark
    } else if light {
        Shade::LightLastMove
    } else {
        Shade::DarkLastMove
    }
}

/// The shade of the square at `(file, rank)`.
pub fn square_shade(file: u8, rank: u8, highlights: &Vec<(u8, u8)>) -> (shade: Shade)
    ensures
        shade == shade_spec(file as int, rank as int, highlights@),
{
    let light = (file as u16 + rank as u16) % 2 == 1;
    let mut last_move = false;
    let mut k: usize = 0;
    while k < highlights.len()
        invariant
            k <= highlights.len(),
            last_move == exists|j: int|
                0 <= j < k && #[trigger] highlights@[j] == (file as u8, rank as u8),
        decreases highlights.len() - k,
    {
        let (f, r) = highlights[k];
        if f == file && r == rank {
            last_move = true;
        }
        proof {
            if !last_move {
                assert forall|j: int| 0 <= j < k + 1 implies #[trigger] highlights@[j] != (
                    file as u8,
                    rank as u8,
                ) by {
                    if j == k {
                        assert(highlights@[j] == (f, r));
                    }
                }
            }
        }
        k += 1;
    }
    if light && !last_move {
        Shade::Light
    } else if !light && !last_move {
        Shade::Dark
    } else if light {
        Shade::LightLastMove
    } else {
        Shade::DarkLastMove
    }
}

/// Width each move is padded to in the move list, so the columns line up.
pub const MOVE_CELL_WIDTH: usize = 7;

/// One row of the move list: a pair of half-moves.
pub struct MoveRow {
    /// The number of the pair, from one, right-aligned, with a dot.
    pub number: String,
    /// White's move, padded to the cell width.
    pub white: String,
    /// Black's move, padded to the cell width, if black has moved.
    pub black: Option<String>,
    /// Whether white's move is the current one.
    pub white_current: bool,
    /// Whether black's move is the current one.
    pub black_current: bool,
}

/// What a move list row shows.
#[verifier::ext_equal]
pub struct MoveRowView {
    pub number: Seq<char>,
    pub white: Seq<char>,
    pub black: Option<Seq<char>>,
    pub white_current: bool,
    pub black_current: bool,
}

impl View for MoveRow {
    type V = MoveRowView;

    open spec fn view(&self) -> MoveRowView {
        MoveRowView {
            number: self.number@,
            white: self.white@,
            black: match self.black {
                Some(b) => Some(b@),
                None => None,
            },
            white_current: self.white_current,
            black_current: self.black_current,
        }
    }
}

/// Whether half-move `index` (from zero) is the one just played when `ply`
/// half-moves are applied.
pub open spec fn is_current_move(ply: int, index: int) -> bool {
    ply > 0 && ply - 1 == index
}

/// Row `pair` (from zero) of the move list of `moves` at `ply`.
pub open spec fn move_row_spec(moves: Seq<Seq<char>>, ply: int, pair: int) -> MoveRowView {
    MoveRowView {
        number: pad_left_spec(decimal((pair + 1) as nat), 3) + ". "@,
        white: pad_right_spec(moves[2 * pair], MOVE_CELL_WIDTH as nat),
        black: if 2 * pair + 1 < moves.len() {
            Some(pad_right_spec(moves[2 * pair + 1], MOVE_CELL_WIDTH as nat))
        } else {
            None
        },
        white_current: is_current_move(ply, 2 * pair),
        black_current: is_current_move(ply, 2 * pair + 1),
    }
}

/// The rows of the move list: one per pair of half-moves, the last one
/// holding white's move alone when the game ends on it.
pub open spec fn move_rows_spec(moves: Seq<Seq<char>>, ply: int) -> Seq<MoveRowView> {
    Seq::new((moves.len() + 1) / 2, |pair: int| move_row_spec(moves, ply, pair))
}

/// The rows of the move list of a game's SAN moves at `ply`.
pub fn move_rows(moves: &Vec<String>, ply: usize) -> (rows: Vec<MoveRow>)
    ensures
        rows@.map_values(|r: MoveRow| r@) == move_rows_spec(
            moves@.map_values(|m: String| m@),
            ply as int,
        ),
{
    let ghost texts = moves@.map_values(|m: String| m@);
    let count = moves.len();
    let pairs = count / 2 + count % 2;
    let mut rows: Vec<MoveRow> = Vec::new();
    let mut pair: usize = 0;
    while pair < pairs
        invariant
            pair <= pairs,
            pairs == (count + 1) / 2,
            count == moves@.len(),
            texts == moves@.map_values(|m: String| m@),
            rows@.len() == pair,
            forall|p: int| 0 <= p < pair ==> #[trigger] rows@[p]@ == move_row_spec(texts, ply as int, p),
        decreases pairs - pair,
    {
        let white_index = 2 * pair;
        let black_index = 2 * pair + 1;
        let mut number = pad_left(string_from(&decimal_text(pair + 1)).as_str(), 3);
        let mut number_chars = chars_of(number.as_str());
        extend_with_str(&mut number_chars, ". ");
        number = string_from(&number_chars);
        let white = pad_right(moves[white_index].as_str(), MOVE_CELL_WIDTH);
        let black = if black_index < count {
            Some(pad_right(moves[black_index].as_str(), MOVE_CELL_WIDTH))
        } else {
            None
        };
        let row = MoveRow {
            number,
            white,
            black,
            white_current: ply > 0 && ply - 1 == white_index,
            black_current: ply > 0 && ply - 1 == black_index,
        };
        proof {
            assert(row@ =~= move_row_spec(texts, ply as int, pair as int));
        }
        rows.push(row);
        pair += 1;
    }
    proof {
        assert(rows@.map_values(|r: MoveRow| r@) =~= move_rows_spec(texts, ply as int));
    }
    rows
}

} // verus!

verus! {

// ===========================================================================
// LAWS OF LABELS, SCROLLING AND PLACEMENT
// ===========================================================================

/// A fitted label is exactly `width` characters long. A label that fits is
/// kept whole at the start, followed by spaces; one that does not keeps its
/// first `width - 1` characters and ends in an ellipsis.
pub proof fn lemma_fit_width(text: Seq<char>, width: nat)
    ensures
        fit_spec(text, width).len() == width,
        text.len() <= width ==> fit_spec(text, width).take(text.len() as int) == text
            && forall|k: int|
            text.len() <= k < width ==> #[trigger] fit_spec(text, width)[k] == ' ',
        text.len() > width > 0 ==> fit_spec(text, width).take(width - 1) == text.take(width - 1)
            && fit_spec(text, width)[width - 1] == '…',
{
    let fitted = fit_spec(text, width);
    if width > 0 && text.len() <= width {
        assert(fitted.take(text.len() as int) =~= text);
        assert forall|k: int| text.len() <= k < width implies #[trigger] fitted[k] == ' ' by {
            assert(fitted[k] == spaces((width - text.len()) as nat)[k - text.len()]);
        }
    }
    if text.len() > width > 0 {
        assert(fitted.take(width - 1) =~= text.take(width - 1));
    }
}

/// Padding never cuts: a label padded on either side is as long as the
/// label or the width, whichever is longer, and keeps the label whole, at
/// the start when padded on the right and at the end when padded on the
/// left, with spaces filling the rest.
pub proof fn lemma_padding(text: Seq<char>, width: nat)
    ensures
        pad_right_spec(text, width).len() == if text.len() >= width {
            text.len()
        } else {
            width
        },
        pad_left_spec(text, width).len() == pad_right_spec(text, width).len(),
        pad_right_spec(text, width).take(text.len() as int) == text,
        pad_left_spec(text, width).skip(pad_left_spec(text, width).len() - text.len()) == text,
        forall|k: int|
            text.len() <= k < pad_right_spec(text, width).len() ==> #[trigger] pad_right_spec(
                text,
                width,
            )[k] == ' ',
        forall|k: int|
            0 <= k < pad_left_spec(text, width).len() - text.len() ==> #[trigger] pad_left_spec(
                text,
                width,
            )[k] == ' ',
{
    let right = pad_right_spec(text, width);
    let left = pad_left_spec(text, width);
    assert(right.take(text.len() as int) =~= text);
    assert(left.skip(left.len() - text.len()) =~= text);
    if text.len() < width {
        assert forall|k: int| text.len() <= k < right.len() implies #[trigger] right[k] == ' ' by {
            assert(right[k] == spaces((width - text.len()) as nat)[k - text.len()]);
        }
    }
}

/// The move list keeps the current move on screen: with room for at least
/// one row, the row of the current move, a row per pair of half-moves,
/// lies between the first row shown and the last, and the list does not
/// scroll at all while that row is on the first screenful.
pub proof fn lemma_scroll_shows_current(ply: nat, visible: nat)
    requires
        visible > 0,
        ply == 0 || (ply - 1) / 2 < 65536,
    ensures
        ({
            let row: int = if ply == 0 {
                0
            } else {
                (ply - 1) / 2
            };
            let first = moves_scroll_spec(ply, visible);
            &&& first <= row < first + visible
            &&& row < visible ==> first == 0
        }),
{
    if ply > 0 {
        let row = ((ply - 1) / 2) as nat;
        assert(row % 65536 == row) by (nonlinear_arith)
            requires
                row < 65536,
        ;
    }
}

/// A silhouette placed on a canvas of at least six pixels each way fits on
/// it, centered, at the largest whole scale that fits: one more scale step
/// would not fit the shorter side.
pub proof fn lemma_placement_fits(width: nat, height: nat)
    requires
        width >= 6,
        height >= 6,
    ensures
        ({
            let p = placement(width, height);
            let shorter = if width < height {
                width
            } else {
                height
            };
            &&& p.side == 6 * p.scale
            &&& p.scale >= 1
            &&& p.side <= shorter
            &&& shorter < 6 * (p.scale + 1)
            &&& p.offset_x + p.side <= width
            &&& p.offset_y + p.side <= height
            &&& width - (p.offset_x + p.side) - p.offset_x <= 1
            &&& height - (p.offset_y + p.side) - p.offset_y <= 1
        }),
{
    let shorter = if width < height {
        width
    } else {
        height
    };
    let q = shorter / 6;
    assert(6 * q <= shorter < 6 * (q + 1)) by (nonlinear_arith)
        requires
            q == shorter / 6,
    ;
}

} // verus!
