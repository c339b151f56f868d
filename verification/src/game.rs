//! The core chess game state.
//!
//! [`GameState`] wraps a tudi grid of [`Piece`] and remembers whose turn it
//! is. It can be built from the standard starting position or from an ascii
//! board, and advanced one [`Action`] at a time with [`GameState::process_move`].
//!
//! The state assumes it is fed a legal game: it resolves each SAN move to the
//! piece that plays it (using geometry, the SAN disambiguation hints, and, when
//! two pieces of the same type could reach the square, a check on which one may
//! legally move) but it does not otherwise verify that a move is sound. It
//! understands captures, en passant, castling, and promotion.

use crate::action::hints_printable;
use crate::text::is_white_space;
use crate::parser::hints_on_board;
use crate::action::san_text;
use crate::action::Action;
use crate::action::ActionKind;
use crate::action::Square;
use crate::action::PieceKind;
use crate::board_grid::grid_element;
use crate::board_grid::new_grid;
use crate::board_grid::unoccupied_text;
use crate::board_grid::grid_extent;
use crate::board_grid::grid_remove;
use crate::board_grid::grid_store;
use crate::board_grid::piece_at;
use crate::text::ascii_upper;
use crate::text::chars_of;
use crate::text::char_debug;
use crate::text::debug_char;
use crate::text::decimal;
use crate::text::decimal_text;
use crate::text::extend_chars;
use crate::text::extend_with_str;
use crate::text::join;
use crate::text::lemma_newline_index;
use crate::text::split_lines;
use crate::text::trim;
use crate::text::trimmed;
use crate::text::string_from;
use tudi::Grid;
use crate::text::to_upper;
use vstd::prelude::*;

verus! {

/// The side to move.
#[derive(Debug, Clone, Copy, PartialEq, Eq, Hash, Structural)]
pub enum Color {
    White,
    Black,
}

pub open spec fn opponent_of(color: Color) -> Color {
    match color {
        Color::White => Color::Black,
        Color::Black => Color::White,
    }
}

/// The rank direction pawns of a color advance in (in rank-index terms).
pub open spec fn pawn_step(color: Color) -> int {
    match color {
        Color::White => 1,
        Color::Black => -1,
    }
}

/// The back rank of a color, where its king and rooks start.
pub open spec fn home_rank(color: Color) -> int {
    match color {
        Color::White => 0,
        Color::Black => 7,
    }
}

impl Color {
    pub fn opponent(self) -> (other: Color)
        ensures
            other == opponent_of(self),
    {
        match self {
            Color::White => Color::Black,
            Color::Black => Color::White,
        }
    }

    /// The rank direction pawns of this color advance in (in rank-index terms).
    pub fn pawn_direction(self) -> (step: i8)
        ensures
            step == pawn_step(self),
    {
        match self {
            Color::White => 1,
            Color::Black => -1,
        }
    }

    /// The back-rank index for this color (where the king and rooks start).
    pub fn back_rank(self) -> (rank: usize)
        ensures
            rank == home_rank(self),
    {
        match self {
            Color::White => 0,
            Color::Black => 7,
        }
    }
}

/// A colored chess piece. This is the element type stored in the grid.
#[derive(Debug, Clone, Copy, PartialEq, Eq, Hash, Structural)]
pub enum Piece {
    WhitePawn,
    WhiteKnight,
    WhiteBishop,
    WhiteRook,
    WhiteQueen,
    WhiteKing,
    BlackPawn,
    BlackKnight,
    BlackBishop,
    BlackRook,
    BlackQueen,
    BlackKing,
}

/// The piece of a color and a kind.
pub open spec fn piece_of(color: Color, kind: PieceKind) -> Piece {
    match (color, kind) {
        (Color::White, PieceKind::Pawn) => Piece::WhitePawn,
        (Color::White, PieceKind::Knight) => Piece::WhiteKnight,
        (Color::White, PieceKind::Bishop) => Piece::WhiteBishop,
        (Color::White, PieceKind::Rook) => Piece::WhiteRook,
        (Color::White, PieceKind::Queen) => Piece::WhiteQueen,
        (Color::White, PieceKind::King) => Piece::WhiteKing,
        (Color::Black, PieceKind::Pawn) => Piece::BlackPawn,
        (Color::Black, PieceKind::Knight) => Piece::BlackKnight,
        (Color::Black, PieceKind::Bishop) => Piece::BlackBishop,
        (Color::Black, PieceKind::Rook) => Piece::BlackRook,
        (Color::Black, PieceKind::Queen) => Piece::BlackQueen,
        (Color::Black, PieceKind::King) => Piece::BlackKing,
    }
}

pub open spec fn color_of(piece: Piece) -> Color {
    match piece {
        Piece::WhitePawn | Piece::WhiteKnight | Piece::WhiteBishop | Piece::WhiteRook
        | Piece::WhiteQueen | Piece::WhiteKing => Color::White,
        _ => Color::Black,
    }
}

pub open spec fn kind_of(piece: Piece) -> PieceKind {
    match piece {
        Piece::WhitePawn | Piece::BlackPawn => PieceKind::Pawn,
        Piece::WhiteKnight | Piece::BlackKnight => PieceKind::Knight,
        Piece::WhiteBishop | Piece::BlackBishop => PieceKind::Bishop,
        Piece::WhiteRook | Piece::BlackRook => PieceKind::Rook,
        Piece::WhiteQueen | Piece::BlackQueen => PieceKind::Queen,
        Piece::WhiteKing | Piece::BlackKing => PieceKind::King,
    }
}

/// The upper-case letter of a piece kind on an ascii board.
pub open spec fn kind_letter(kind: PieceKind) -> char {
    match kind {
        PieceKind::Pawn => 'P',
        PieceKind::Knight => 'N',
        PieceKind::Bishop => 'B',
        PieceKind::Rook => 'R',
        PieceKind::Queen => 'Q',
        PieceKind::King => 'K',
    }
}

/// The ascii character of a piece: upper case for white, lower case for black.
pub open spec fn char_of(piece: Piece) -> char {
    match color_of(piece) {
        Color::White => kind_letter(kind_of(piece)),
        Color::Black => ((kind_letter(kind_of(piece)) as int) + 32) as char,
    }
}

/// The piece kind an upper-case letter names on an ascii board.
pub open spec fn kind_for_letter(c: char) -> Option<PieceKind> {
    if c == 'P' {
        Some(PieceKind::Pawn)
    } else if c == 'N' {
        Some(PieceKind::Knight)
    } else if c == 'B' {
        Some(PieceKind::Bishop)
    } else if c == 'R' {
        Some(PieceKind::Rook)
    } else if c == 'Q' {
        Some(PieceKind::Queen)
    } else if c == 'K' {
        Some(PieceKind::King)
    } else {
        None
    }
}

/// The piece an ascii board character stands for.
pub open spec fn piece_for_char(c: char) -> Option<Piece> {
    let color = if 'A' <= c && c <= 'Z' {
        Color::White
    } else {
        Color::Black
    };
    match kind_for_letter(ascii_upper(c)) {
        Some(kind) => Some(piece_of(color, kind)),
        None => None,
    }
}

impl Piece {
    pub fn new(color: Color, kind: PieceKind) -> (piece: Self)
        ensures
            piece == piece_of(color, kind),
    {
        match (color, kind) {
            (Color::White, PieceKind::Pawn) => Piece::WhitePawn,
            (Color::White, PieceKind::Knight) => Piece::WhiteKnight,
            (Color::White, PieceKind::Bishop) => Piece::WhiteBishop,
            (Color::White, PieceKind::Rook) => Piece::WhiteRook,
            (Color::White, PieceKind::Queen) => Piece::WhiteQueen,
            (Color::White, PieceKind::King) => Piece::WhiteKing,
            (Color::Black, PieceKind::Pawn) => Piece::BlackPawn,
            (Color::Black, PieceKind::Knight) => Piece::BlackKnight,
            (Color::Black, PieceKind::Bishop) => Piece::BlackBishop,
            (Color::Black, PieceKind::Rook) => Piece::BlackRook,
            (Color::Black, PieceKind::Queen) => Piece::BlackQueen,
            (Color::Black, PieceKind::King) => Piece::BlackKing,
        }
    }

    pub fn color(self) -> (color: Color)
        ensures
            color == color_of(self),
    {
        match self {
            Piece::WhitePawn | Piece::WhiteKnight | Piece::WhiteBishop | Piece::WhiteRook
            | Piece::WhiteQueen | Piece::WhiteKing => Color::White,
            Piece::BlackPawn | Piece::BlackKnight | Piece::BlackBishop | Piece::BlackRook
            | Piece::BlackQueen | Piece::BlackKing => Color::Black,
        }
    }

    pub fn kind(self) -> (kind: PieceKind)
        ensures
            kind == kind_of(self),
    {
        match self {
            Piece::WhitePawn | Piece::BlackPawn => PieceKind::Pawn,
            Piece::WhiteKnight | Piece::BlackKnight => PieceKind::Knight,
            Piece::WhiteBishop | Piece::BlackBishop => PieceKind::Bishop,
            Piece::WhiteRook | Piece::BlackRook => PieceKind::Rook,
            Piece::WhiteQueen | Piece::BlackQueen => PieceKind::Queen,
            Piece::WhiteKing | Piece::BlackKing => PieceKind::King,
        }
    }

    /// The ascii character for this piece: uppercase for white, lowercase for
    /// black.
    pub fn to_char(self) -> (c: char)
        ensures
            c == char_of(self),
    {
        let letter = match self.kind() {
            PieceKind::Pawn => 'P',
            PieceKind::Knight => 'N',
            PieceKind::Bishop => 'B',
            PieceKind::Rook => 'R',
            PieceKind::Queen => 'Q',
            PieceKind::King => 'K',
        };
        match self.color() {
            Color::White => letter,
            Color::Black => ((letter as u8) + 32) as char,
        }
    }

    /// Parses a single ascii board character into a piece, or `None` for a dot
    /// (empty square) or any other character.
    pub fn from_char(character: char) -> (piece: Option<Piece>)
        ensures
            piece == piece_for_char(character),
    {
        let color = if 'A' <= character && character <= 'Z' {
            Color::White
        } else {
            Color::Black
        };
        let upper = to_upper(character);
        let kind = if upper == 'P' {
            PieceKind::Pawn
        } else if upper == 'N' {
            PieceKind::Knight
        } else if upper == 'B' {
            PieceKind::Bishop
        } else if upper == 'R' {
            PieceKind::Rook
        } else if upper == 'Q' {
            PieceKind::Queen
        } else if upper == 'K' {
            PieceKind::King
        } else {
            return None;
        };
        Some(Piece::new(color, kind))
    }
}

/// A piece is the piece of its own color and kind, and the color and kind of
/// the piece built from a color and a kind are those.
pub proof fn lemma_piece_parts(piece: Piece, color: Color, kind: PieceKind)
    ensures
        piece_of(color_of(piece), kind_of(piece)) == piece,
        color_of(piece_of(color, kind)) == color,
        kind_of(piece_of(color, kind)) == kind,
{
}

/// Reading a piece's ascii character gives the piece back, and a character
/// reads as a piece exactly when it is that piece's character.
pub proof fn lemma_piece_char_round_trip(piece: Piece, c: char)
    ensures
        piece_for_char(char_of(piece)) == Some(piece),
        piece_for_char(c) == Some(piece) <==> char_of(piece) == c,
{
}

/// A color's opponent's opponent is the color itself.
pub proof fn lemma_opponent_involution(color: Color)
    ensures
        opponent_of(opponent_of(color)) == color,
        opponent_of(color) != color,
{
}

} // verus!

verus! {

// ===========================================================================
// BOARD GEOMETRY
// ===========================================================================

/// A plain snapshot of the board: square `rank * 8 + file` holds what stands
/// on that square. Used for move resolution and check detection.
pub type Board = [Option<Piece>; 64];

/// Whether a file and a rank name a square of the board.
pub open spec fn on_board(file: int, rank: int) -> bool {
    0 <= file < 8 && 0 <= rank < 8
}

/// What stands on a square of a board snapshot; nothing off the board.
pub open spec fn at(b: Seq<Option<Piece>>, file: int, rank: int) -> Option<Piece> {
    if on_board(file, rank) {
        b[rank * 8 + file]
    } else {
        None
    }
}

/// Reads a square from the snapshot with bounds checking.
fn get(board: &Board, file: i32, rank: i32) -> (piece: Option<Piece>)
    ensures
        piece == at(board@, file as int, rank as int),
{
    if 0 <= file && file < 8 && 0 <= rank && rank < 8 {
        board[(rank * 8 + file) as usize]
    } else {
        None
    }
}

/// The pieces that move by a fixed jump.
#[derive(PartialEq, Eq, Structural)]
pub enum Leaper {
    Knight,
    King,
}

/// The `k`-th jump of a knight or a king.
pub open spec fn jump(leaper: Leaper, k: int) -> (int, int) {
    match leaper {
        Leaper::Knight => if k == 0 {
            (1, 2)
        } else if k == 1 {
            (2, 1)
        } else if k == 2 {
            (2, -1)
        } else if k == 3 {
            (1, -2)
        } else if k == 4 {
            (-1, -2)
        } else if k == 5 {
            (-2, -1)
        } else if k == 6 {
            (-2, 1)
        } else {
            (-1, 2)
        },
        Leaper::King => if k == 0 {
            (1, 0)
        } else if k == 1 {
            (-1, 0)
        } else if k == 2 {
            (0, 1)
        } else if k == 3 {
            (0, -1)
        } else if k == 4 {
            (1, 1)
        } else if k == 5 {
            (1, -1)
        } else if k == 6 {
            (-1, 1)
        } else {
            (-1, -1)
        },
    }
}

fn jump_of(leaper: &Leaper, k: usize) -> (offset: (i32, i32))
    requires
        k < 8,
    ensures
        offset.0 == jump(*leaper, k as int).0,
        offset.1 == jump(*leaper, k as int).1,
{
    match leaper {
        Leaper::Knight => if k == 0 {
            (1, 2)
        } else if k == 1 {
            (2, 1)
        } else if k == 2 {
            (2, -1)
        } else if k == 3 {
            (1, -2)
        } else if k == 4 {
            (-1, -2)
        } else if k == 5 {
            (-2, -1)
        } else if k == 6 {
            (-2, 1)
        } else {
            (-1, 2)
        },
        Leaper::King => if k == 0 {
            (1, 0)
        } else if k == 1 {
            (-1, 0)
        } else if k == 2 {
            (0, 1)
        } else if k == 3 {
            (0, -1)
        } else if k == 4 {
            (1, 1)
        } else if k == 5 {
            (1, -1)
        } else if k == 6 {
            (-1, 1)
        } else {
            (-1, -1)
        },
    }
}

/// The lines a sliding piece moves along.
#[derive(PartialEq, Eq, Structural)]
pub enum Lines {
    Diagonal,
    Straight,
}

/// The `k`-th direction of a set of lines.
pub open spec fn direction(lines: Lines, k: int) -> (int, int) {
    match lines {
        Lines::Diagonal => if k == 0 {
            (1, 1)
        } else if k == 1 {
            (1, -1)
        } else if k == 2 {
            (-1, 1)
        } else {
            (-1, -1)
        },
        Lines::Straight => if k == 0 {
            (1, 0)
        } else if k == 1 {
            (-1, 0)
        } else if k == 2 {
            (0, 1)
        } else {
            (0, -1)
        },
    }
}

fn direction_of(lines: &Lines, k: usize) -> (step: (i32, i32))
    requires
        k < 4,
    ensures
        step.0 == direction(*lines, k as int).0,
        step.1 == direction(*lines, k as int).1,
{
    match lines {
        Lines::Diagonal => if k == 0 {
            (1, 1)
        } else if k == 1 {
            (1, -1)
        } else if k == 2 {
            (-1, 1)
        } else {
            (-1, -1)
        },
        Lines::Straight => if k == 0 {
            (1, 0)
        } else if k == 1 {
            (-1, 0)
        } else if k == 2 {
            (0, 1)
        } else {
            (0, -1)
        },
    }
}

/// The first occupied square met walking from `(file, rank)` in steps of
/// `step`, not counting the starting square, within `fuel` steps; `None`
/// if the walk leaves the board first.
pub open spec fn ray_hit(
    b: Seq<Option<Piece>>,
    file: int,
    rank: int,
    step: (int, int),
    fuel: nat,
) -> Option<(int, int)>
    decreases fuel,
{
    let next_file = file + step.0;
    let next_rank = rank + step.1;
    if fuel == 0 || !on_board(next_file, next_rank) {
        None
    } else if at(b, next_file, next_rank) is Some {
        Some((next_file, next_rank))
    } else {
        ray_hit(b, next_file, next_rank, step, (fuel - 1) as nat)
    }
}

pub proof fn lemma_ray_hit(
    b: Seq<Option<Piece>>,
    file: int,
    rank: int,
    step: (int, int),
    fuel: nat,
)
    ensures
        ray_hit(b, file, rank, step, fuel) matches Some((f, r)) ==> on_board(f, r) && at(b, f, r) is Some,
    decreases fuel,
{
    if fuel > 0 {
        lemma_ray_hit(b, file + step.0, rank + step.1, step, (fuel - 1) as nat);
    }
}

/// The first occupied square along a line from a square of the board.
pub open spec fn first_on_line(b: Seq<Option<Piece>>, file: int, rank: int, step: (int, int)) -> Option<
    (int, int),
> {
    ray_hit(b, file, rank, step, 8)
}

/// Walks a line from `(file, rank)` up to its first occupied square.
fn walk_line(board: &Board, file: i32, rank: i32, step: (i32, i32)) -> (hit: Option<(i32, i32)>)
    requires
        on_board(file as int, rank as int),
        -1 <= step.0 <= 1,
        -1 <= step.1 <= 1,
        step.0 != 0 || step.1 != 0,
    ensures
        match first_on_line(board@, file as int, rank as int, (step.0 as int, step.1 as int)) {
            Some((f, r)) => hit == Some((f as i32, r as i32)),
            None => hit is None,
        },
{
    let ghost s = (step.0 as int, step.1 as int);
    let mut current_file = file + step.0;
    let mut current_rank = rank + step.1;
    let mut walked: u32 = 1;
    while 0 <= current_file && current_file < 8 && 0 <= current_rank && current_rank < 8
        invariant
            -1 <= step.0 <= 1,
            -1 <= step.1 <= 1,
            step.0 != 0 || step.1 != 0,
            s == (step.0 as int, step.1 as int),
            on_board(file as int, rank as int),
            1 <= walked <= 8,
            current_file == file + walked * step.0,
            current_rank == rank + walked * step.1,
            first_on_line(board@, file as int, rank as int, s) == ray_hit(
                board@,
                current_file - step.0,
                current_rank - step.1,
                s,
                (9 - walked) as nat,
            ),
        decreases 8 - walked,
    {
        if let Some(_) = board[(current_rank * 8 + current_file) as usize] {
            return Some((current_file, current_rank));
        }
        proof {
            if walked == 8 {
                assert(false) by (nonlinear_arith)
                    requires
                        0 <= file < 8,
                        0 <= rank < 8,
                        -1 <= step.0 <= 1,
                        -1 <= step.1 <= 1,
                        step.0 != 0 || step.1 != 0,
                        0 <= file + 8 * step.0 < 8,
                        0 <= rank + 8 * step.1 < 8,
                ;
            }
        }
        proof {
            assert((walked + 1) * step.0 == walked * step.0 + step.0) by (nonlinear_arith);
            assert((walked + 1) * step.1 == walked * step.1 + step.1) by (nonlinear_arith);
        }
        current_file += step.0;
        current_rank += step.1;
        walked += 1;
    }
    None
}

} // verus!

verus! {

// ===========================================================================
// MOVE RESOLUTION
// ===========================================================================

/// Squares as pairs of integers.
pub open spec fn squares(v: Seq<(usize, usize)>) -> Seq<(int, int)> {
    v.map_values(|p: (usize, usize)| (p.0 as int, p.1 as int))
}

/// The squares from which `wanted` reaches `(file, rank)` with one of its
/// first `count` jumps, in the order of the jumps.
pub open spec fn leap_origins(
    b: Seq<Option<Piece>>,
    wanted: Piece,
    file: int,
    rank: int,
    leaper: Leaper,
    count: nat,
) -> Seq<(int, int)>
    decreases count,
{
    if count == 0 {
        seq![]
    } else {
        let earlier = leap_origins(b, wanted, file, rank, leaper, (count - 1) as nat);
        let offset = jump(leaper, count - 1);
        let origin = (file + offset.0, rank + offset.1);
        if at(b, origin.0, origin.1) == Some(wanted) {
            earlier.push(origin)
        } else {
            earlier
        }
    }
}

/// The squares from which `wanted` slides to `(file, rank)` along one of the
/// first `count` directions of `lines`: along each direction, the first
/// occupied square, when `wanted` stands on it.
pub open spec fn slide_origins(
    b: Seq<Option<Piece>>,
    wanted: Piece,
    file: int,
    rank: int,
    lines: Lines,
    count: nat,
) -> Seq<(int, int)>
    decreases count,
{
    if count == 0 {
        seq![]
    } else {
        let earlier = slide_origins(b, wanted, file, rank, lines, (count - 1) as nat);
        match first_on_line(b, file, rank, direction(lines, count - 1)) {
            Some(origin) => if at(b, origin.0, origin.1) == Some(wanted) {
                earlier.push(origin)
            } else {
                earlier
            },
            None => earlier,
        }
    }
}

/// The squares from which a pawn of `color` reaches `(file, rank)`: diagonally
/// behind it for a capture, else the square behind it or, when that is empty,
/// the one behind that for a double step.
pub open spec fn pawn_origins_spec(
    b: Seq<Option<Piece>>,
    color: Color,
    file: int,
    rank: int,
    is_capture: bool,
) -> Seq<(int, int)> {
    let step = pawn_step(color);
    let pawn = Some(piece_of(color, PieceKind::Pawn));
    if is_capture {
        (if at(b, file - 1, rank - step) == pawn {
            seq![(file - 1, rank - step)]
        } else {
            seq![]
        }) + (if at(b, file + 1, rank - step) == pawn {
            seq![(file + 1, rank - step)]
        } else {
            seq![]
        })
    } else if at(b, file, rank - step) == pawn {
        seq![(file, rank - step)]
    } else if at(b, file, rank - step) is None && at(b, file, rank - 2 * step) == pawn {
        seq![(file, rank - 2 * step)]
    } else {
        seq![]
    }
}

/// The squares from which a piece of `color` and `kind` can reach
/// `(file, rank)` by geometry alone.
pub open spec fn candidates_spec(
    b: Seq<Option<Piece>>,
    color: Color,
    kind: PieceKind,
    file: int,
    rank: int,
    is_capture: bool,
) -> Seq<(int, int)> {
    let wanted = piece_of(color, kind);
    match kind {
        PieceKind::Pawn => pawn_origins_spec(b, color, file, rank, is_capture),
        PieceKind::Knight => leap_origins(b, wanted, file, rank, Leaper::Knight, 8),
        PieceKind::King => leap_origins(b, wanted, file, rank, Leaper::King, 8),
        PieceKind::Bishop => slide_origins(b, wanted, file, rank, Lines::Diagonal, 4),
        PieceKind::Rook => slide_origins(b, wanted, file, rank, Lines::Straight, 4),
        PieceKind::Queen => slide_origins(b, wanted, file, rank, Lines::Diagonal, 4) + slide_origins(
            b,
            wanted,
            file,
            rank,
            Lines::Straight,
            4,
        ),
    }
}

fn offset_origins(
    board: &Board,
    wanted: Piece,
    destination_file: usize,
    destination_rank: usize,
    leaper: &Leaper,
) -> (origins: Vec<(usize, usize)>)
    requires
        destination_file < 8,
        destination_rank < 8,
    ensures
        squares(origins@) == leap_origins(
            board@,
            wanted,
            destination_file as int,
            destination_rank as int,
            *leaper,
            8,
        ),
{
    let mut origins: Vec<(usize, usize)> = Vec::new();
    let mut k: usize = 0;
    while k < 8
        invariant
            k <= 8,
            destination_file < 8,
            destination_rank < 8,
            squares(origins@) == leap_origins(
                board@,
                wanted,
                destination_file as int,
                destination_rank as int,
                *leaper,
                k as nat,
            ),
        decreases 8 - k,
    {
        let (file_offset, rank_offset) = jump_of(leaper, k);
        let file = destination_file as i32 + file_offset;
        let rank = destination_rank as i32 + rank_offset;
        let ghost earlier = squares(origins@);
        if get(board, file, rank) == Some(wanted) {
            origins.push((file as usize, rank as usize));
            proof {
                assert(squares(origins@) =~= earlier.push((file as int, rank as int)));
            }
        }
        k += 1;
    }
    origins
}

fn slider_origins(
    board: &Board,
    wanted: Piece,
    destination_file: usize,
    destination_rank: usize,
    lines: &Lines,
) -> (origins: Vec<(usize, usize)>)
    requires
        destination_file < 8,
        destination_rank < 8,
    ensures
        squares(origins@) == slide_origins(
            board@,
            wanted,
            destination_file as int,
            destination_rank as int,
            *lines,
            4,
        ),
{
    let mut origins: Vec<(usize, usize)> = Vec::new();
    let mut k: usize = 0;
    while k < 4
        invariant
            k <= 4,
            destination_file < 8,
            destination_rank < 8,
            squares(origins@) == slide_origins(
                board@,
                wanted,
                destination_file as int,
                destination_rank as int,
                *lines,
                k as nat,
            ),
        decreases 4 - k,
    {
        let step = direction_of(lines, k);
        let ghost earlier = squares(origins@);
        proof {
            assert((step.0 as int, step.1 as int) == direction(*lines, k as int));
            lemma_ray_hit(
                board@,
                destination_file as int,
                destination_rank as int,
                direction(*lines, k as int),
                8,
            );
        }
        let hit = walk_line(board, destination_file as i32, destination_rank as i32, step);
        if let Some((file, rank)) = hit {
            if get(board, file, rank) == Some(wanted) {
                origins.push((file as usize, rank as usize));
                proof {
                    assert(squares(origins@) =~= earlier.push((file as int, rank as int)));
                }
            }
        }
        k += 1;
    }
    origins
}

fn pawn_origins(
    board: &Board,
    color: Color,
    destination_file: usize,
    destination_rank: usize,
    is_capture: bool,
) -> (origins: Vec<(usize, usize)>)
    requires
        destination_file < 8,
        destination_rank < 8,
    ensures
        squares(origins@) == pawn_origins_spec(
            board@,
            color,
            destination_file as int,
            destination_rank as int,
            is_capture,
        ),
{
    let direction = color.pawn_direction() as i32;
    let our_pawn = Piece::new(color, PieceKind::Pawn);
    let file = destination_file as i32;
    let rank = destination_rank as i32;
    let mut origins: Vec<(usize, usize)> = Vec::new();
    if is_capture {
        let origin_rank = rank - direction;
        if get(board, file - 1, origin_rank) == Some(our_pawn) {
            origins.push(((file - 1) as usize, origin_rank as usize));
        }
        let ghost left = squares(origins@);
        if get(board, file + 1, origin_rank) == Some(our_pawn) {
            origins.push(((file + 1) as usize, origin_rank as usize));
        }
        proof {
            assert(squares(origins@) =~= pawn_origins_spec(
                board@,
                color,
                destination_file as int,
                destination_rank as int,
                is_capture,
            ));
        }
    } else {
        let single = rank - direction;
        if get(board, file, single) == Some(our_pawn) {
            origins.push((file as usize, single as usize));
        } else {
            let double = rank - 2 * direction;
            let intermediate_empty = get(board, file, single).is_none();
            if intermediate_empty && get(board, file, double) == Some(our_pawn) {
                origins.push((file as usize, double as usize));
            }
        }
        proof {
            assert(squares(origins@) =~= pawn_origins_spec(
                board@,
                color,
                destination_file as int,
                destination_rank as int,
                is_capture,
            ));
        }
    }
    origins
}

fn candidate_origins(
    board: &Board,
    color: Color,
    kind: PieceKind,
    destination_file: usize,
    destination_rank: usize,
    is_capture: bool,
) -> (origins: Vec<(usize, usize)>)
    requires
        destination_file < 8,
        destination_rank < 8,
    ensures
        squares(origins@) == candidates_spec(
            board@,
            color,
            kind,
            destination_file as int,
            destination_rank as int,
            is_capture,
        ),
{
    let wanted = Piece::new(color, kind);
    match kind {
        PieceKind::Pawn => pawn_origins(board, color, destination_file, destination_rank, is_capture),
        PieceKind::Knight => offset_origins(
            board,
            wanted,
            destination_file,
            destination_rank,
            &Leaper::Knight,
        ),
        PieceKind::King => offset_origins(
            board,
            wanted,
            destination_file,
            destination_rank,
            &Leaper::King,
        ),
        PieceKind::Bishop => slider_origins(
            board,
            wanted,
            destination_file,
            destination_rank,
            &Lines::Diagonal,
        ),
        PieceKind::Rook => slider_origins(
            board,
            wanted,
            destination_file,
            destination_rank,
            &Lines::Straight,
        ),
        PieceKind::Queen => {
            let mut origins = slider_origins(
                board,
                wanted,
                destination_file,
                destination_rank,
                &Lines::Diagonal,
            );
            let ghost diagonal = squares(origins@);
            let mut straight = slider_origins(
                board,
                wanted,
                destination_file,
                destination_rank,
                &Lines::Straight,
            );
            origins.append(&mut straight);
            proof {
                assert(squares(origins@) =~= diagonal + slide_origins(
                    board@,
                    wanted,
                    destination_file as int,
                    destination_rank as int,
                    Lines::Straight,
                    4,
                ));
            }
            origins
        },
    }
}

} // verus!

verus! {

// ===========================================================================
// CHECK DETECTION
// ===========================================================================

/// The first square at or after index `i`, in rank-major order from a1,
/// that holds `king`.
pub open spec fn first_king(b: Seq<Option<Piece>>, king: Piece, i: int) -> Option<(int, int)>
    decreases 64 - i,
{
    if i < 0 || i >= 64 {
        None
    } else if b[i] == Some(king) {
        Some((i % 8, i / 8))
    } else {
        first_king(b, king, i + 1)
    }
}

/// Where the king of `color` stands, the first one found when the board holds
/// more than one.
pub open spec fn find_king_spec(b: Seq<Option<Piece>>, color: Color) -> Option<(int, int)> {
    first_king(b, piece_of(color, PieceKind::King), 0)
}

/// Whether `attacker` stands one of its jumps away from `(file, rank)`.
pub open spec fn leap_attack(
    b: Seq<Option<Piece>>,
    file: int,
    rank: int,
    attacker: Piece,
    leaper: Leaper,
) -> bool {
    exists|k: int|
        0 <= k < 8 && #[trigger] at(b, file + jump(leaper, k).0, rank + jump(leaper, k).1) == Some(
            attacker,
        )
}

/// Whether the first piece along one of the lines from `(file, rank)` is
/// `first` or `second`.
pub open spec fn line_attack(
    b: Seq<Option<Piece>>,
    file: int,
    rank: int,
    lines: Lines,
    first: Piece,
    second: Piece,
) -> bool {
    exists|k: int|
        0 <= k < 4 && match #[trigger] first_on_line(b, file, rank, direction(lines, k)) {
            Some((f, r)) => at(b, f, r) == Some(first) || at(b, f, r) == Some(second),
            None => false,
        }
}

/// Whether a piece of color `by` attacks `(file, rank)`: a pawn diagonally in
/// front of it, a knight or a king a jump away, or a bishop, rook or queen
/// with a clear line to it.
pub open spec fn is_attacked_spec(b: Seq<Option<Piece>>, file: int, rank: int, by: Color) -> bool {
    let pawn = Some(piece_of(by, PieceKind::Pawn));
    let queen = piece_of(by, PieceKind::Queen);
    ||| at(b, file - 1, rank - pawn_step(by)) == pawn
    ||| at(b, file + 1, rank - pawn_step(by)) == pawn
    ||| leap_attack(b, file, rank, piece_of(by, PieceKind::Knight), Leaper::Knight)
    ||| leap_attack(b, file, rank, piece_of(by, PieceKind::King), Leaper::King)
    ||| line_attack(b, file, rank, Lines::Diagonal, queen, piece_of(by, PieceKind::Bishop))
    ||| line_attack(b, file, rank, Lines::Straight, queen, piece_of(by, PieceKind::Rook))
}

/// Whether a move is an en passant capture: a pawn capture onto an empty
/// square.
pub open spec fn is_en_passant_spec(
    b: Seq<Option<Piece>>,
    kind: PieceKind,
    is_capture: bool,
    file: int,
    rank: int,
) -> bool {
    kind == PieceKind::Pawn && is_capture && at(b, file, rank) is None
}

/// The board once the piece on the origin has moved to the destination,
/// taking a pawn beside it for an en passant capture.
pub open spec fn trial_board(
    b: Seq<Option<Piece>>,
    kind: PieceKind,
    origin_file: int,
    origin_rank: int,
    destination_file: int,
    destination_rank: int,
    is_capture: bool,
) -> Seq<Option<Piece>> {
    let moving = b[origin_rank * 8 + origin_file];
    let lifted = b.update(origin_rank * 8 + origin_file, None);
    let cleared = if is_en_passant_spec(lifted, kind, is_capture, destination_file, destination_rank) {
        lifted.update(origin_rank * 8 + destination_file, None)
    } else {
        lifted
    };
    cleared.update(destination_rank * 8 + destination_file, moving)
}

/// Whether moving the piece on the origin to the destination leaves the king
/// of `color` attacked. A board without that king is never in check.
pub open spec fn leaves_in_check(
    b: Seq<Option<Piece>>,
    color: Color,
    kind: PieceKind,
    origin_file: int,
    origin_rank: int,
    destination_file: int,
    destination_rank: int,
    is_capture: bool,
) -> bool {
    let trial = trial_board(
        b,
        kind,
        origin_file,
        origin_rank,
        destination_file,
        destination_rank,
        is_capture,
    );
    match find_king_spec(trial, color) {
        Some((king_file, king_rank)) => is_attacked_spec(
            trial,
            king_file,
            king_rank,
            opponent_of(color),
        ),
        None => false,
    }
}

fn is_en_passant_capture(
    board: &Board,
    piece: PieceKind,
    is_capture: bool,
    destination_file: usize,
    destination_rank: usize,
) -> (r: bool)
    requires
        destination_file < 8,
        destination_rank < 8,
    ensures
        r == is_en_passant_spec(
            board@,
            piece,
            is_capture,
            destination_file as int,
            destination_rank as int,
        ),
{
    piece == PieceKind::Pawn && is_capture && board[destination_rank * 8 + destination_file].is_none()
}

fn find_king(board: &Board, color: Color) -> (square: Option<(usize, usize)>)
    ensures
        match find_king_spec(board@, color) {
            Some((f, r)) => square == Some((f as usize, r as usize)) && on_board(f, r),
            None => square is None,
        },
{
    let king = Piece::new(color, PieceKind::King);
    let mut index: usize = 0;
    while index < 64
        invariant
            index <= 64,
            king == piece_of(color, PieceKind::King),
            find_king_spec(board@, color) == first_king(board@, king, index as int),
        decreases 64 - index,
    {
        if board[index] == Some(king) {
            return Some((index % 8, index / 8));
        }
        index += 1;
    }
    None
}

fn leaper_attacks(board: &Board, file: i32, rank: i32, attacker: Piece, leaper: &Leaper) -> (r: bool)
    requires
        on_board(file as int, rank as int),
    ensures
        r == leap_attack(board@, file as int, rank as int, attacker, *leaper),
{
    let mut k: usize = 0;
    while k < 8
        invariant
            k <= 8,
            on_board(file as int, rank as int),
            forall|j: int|
                0 <= j < k ==> #[trigger] at(
                    board@,
                    file + jump(*leaper, j).0,
                    rank + jump(*leaper, j).1,
                ) != Some(attacker),
        decreases 8 - k,
    {
        let (file_offset, rank_offset) = jump_of(leaper, k);
        if get(board, file + file_offset, rank + rank_offset) == Some(attacker) {
            return true;
        }
        k += 1;
    }
    false
}

fn slider_attacks(
    board: &Board,
    file: i32,
    rank: i32,
    lines: &Lines,
    first: Piece,
    second: Piece,
) -> (r: bool)
    requires
        on_board(file as int, rank as int),
    ensures
        r == line_attack(board@, file as int, rank as int, *lines, first, second),
{
    let mut k: usize = 0;
    while k < 4
        invariant
            k <= 4,
            on_board(file as int, rank as int),
            forall|j: int|
                0 <= j < k ==> match #[trigger] first_on_line(
                    board@,
                    file as int,
                    rank as int,
                    direction(*lines, j),
                ) {
                    Some((f, r)) => at(board@, f, r) != Some(first) && at(board@, f, r) != Some(
                        second,
                    ),
                    None => true,
                },
        decreases 4 - k,
    {
        let step = direction_of(lines, k);
        proof {
            assert((step.0 as int, step.1 as int) == direction(*lines, k as int));
            lemma_ray_hit(board@, file as int, rank as int, direction(*lines, k as int), 8);
        }
        if let Some((hit_file, hit_rank)) = walk_line(board, file, rank, step) {
            let piece = get(board, hit_file, hit_rank);
            if piece == Some(first) || piece == Some(second) {
                return true;
            }
        }
        k += 1;
    }
    false
}

fn is_attacked(board: &Board, file: usize, rank: usize, by: Color) -> (r: bool)
    requires
        file < 8,
        rank < 8,
    ensures
        r == is_attacked_spec(board@, file as int, rank as int, by),
{
    let file = file as i32;
    let rank = rank as i32;
    let pawn_direction = by.pawn_direction() as i32;
    let pawn = Piece::new(by, PieceKind::Pawn);
    if get(board, file - 1, rank - pawn_direction) == Some(pawn) {
        return true;
    }
    if get(board, file + 1, rank - pawn_direction) == Some(pawn) {
        return true;
    }
    if leaper_attacks(board, file, rank, Piece::new(by, PieceKind::Knight), &Leaper::Knight) {
        return true;
    }
    if leaper_attacks(board, file, rank, Piece::new(by, PieceKind::King), &Leaper::King) {
        return true;
    }
    let queen = Piece::new(by, PieceKind::Queen);
    if slider_attacks(
        board,
        file,
        rank,
        &Lines::Diagonal,
        queen,
        Piece::new(by, PieceKind::Bishop),
    ) {
        return true;
    }
    if slider_attacks(board, file, rank, &Lines::Straight, queen, Piece::new(by, PieceKind::Rook)) {
        return true;
    }
    false
}

fn move_leaves_king_in_check(
    board: &Board,
    color: Color,
    kind: PieceKind,
    origin_file: usize,
    origin_rank: usize,
    destination_file: usize,
    destination_rank: usize,
    is_capture: bool,
) -> (r: bool)
    requires
        origin_file < 8,
        origin_rank < 8,
        destination_file < 8,
        destination_rank < 8,
    ensures
        r == leaves_in_check(
            board@,
            color,
            kind,
            origin_file as int,
            origin_rank as int,
            destination_file as int,
            destination_rank as int,
            is_capture,
        ),
{
    let mut trial: Board = *board;
    let moving = trial[origin_rank * 8 + origin_file];
    trial[origin_rank * 8 + origin_file] = None;
    if is_en_passant_capture(&trial, kind, is_capture, destination_file, destination_rank) {
        trial[origin_rank * 8 + destination_file] = None;
    }
    trial[destination_rank * 8 + destination_file] = moving;
    proof {
        assert(trial@ =~= trial_board(
            board@,
            kind,
            origin_file as int,
            origin_rank as int,
            destination_file as int,
            destination_rank as int,
            is_capture,
        ));
    }
    match find_king(&trial, color) {
        Some((king_file, king_rank)) => is_attacked(&trial, king_file, king_rank, color.opponent()),
        None => false,
    }
}

} // verus!

verus! {

/// Whether a SAN hint allows a file or rank: no hint allows every one.
pub open spec fn hint_allows(hint: Option<u8>, value: int) -> bool {
    match hint {
        Some(wanted) => wanted as int == value,
        None => true,
    }
}

/// The origins, in order, that the file and rank hints allow.
pub open spec fn hinted(
    origins: Seq<(int, int)>,
    source_file: Option<u8>,
    source_rank: Option<u8>,
) -> Seq<(int, int)>
    decreases origins.len(),
{
    if origins.len() == 0 {
        seq![]
    } else {
        let earlier = hinted(origins.drop_last(), source_file, source_rank);
        let last = origins.last();
        if hint_allows(source_file, last.0) && hint_allows(source_rank, last.1) {
            earlier.push(last)
        } else {
            earlier
        }
    }
}

/// The origins, in order, from which the move leaves the mover's king safe.
pub open spec fn king_safe(
    b: Seq<Option<Piece>>,
    color: Color,
    kind: PieceKind,
    origins: Seq<(int, int)>,
    destination_file: int,
    destination_rank: int,
    is_capture: bool,
) -> Seq<(int, int)>
    decreases origins.len(),
{
    if origins.len() == 0 {
        seq![]
    } else {
        let earlier = king_safe(
            b,
            color,
            kind,
            origins.drop_last(),
            destination_file,
            destination_rank,
            is_capture,
        );
        let last = origins.last();
        if !leaves_in_check(
            b,
            color,
            kind,
            last.0,
            last.1,
            destination_file,
            destination_rank,
            is_capture,
        ) {
            earlier.push(last)
        } else {
            earlier
        }
    }
}

/// Why a move could not be resolved to one piece.
#[derive(PartialEq, Eq, Structural)]
pub enum Unresolved {
    /// No piece of the moving side can make the move.
    NoPiece,
    /// More than one piece can make it and the notation does not say which.
    Ambiguous,
}

/// The square of the one piece that makes a move: among the pieces that
/// reach the destination, those the hints allow; if that leaves more than
/// one, those whose move leaves their own king safe.
pub open spec fn resolve_spec(
    b: Seq<Option<Piece>>,
    color: Color,
    kind: PieceKind,
    destination_file: int,
    destination_rank: int,
    is_capture: bool,
    source_file: Option<u8>,
    source_rank: Option<u8>,
) -> Result<(int, int), Unresolved> {
    let allowed = hinted(
        candidates_spec(b, color, kind, destination_file, destination_rank, is_capture),
        source_file,
        source_rank,
    );
    let remaining = if allowed.len() > 1 {
        king_safe(b, color, kind, allowed, destination_file, destination_rank, is_capture)
    } else {
        allowed
    };
    if remaining.len() == 1 {
        Ok(remaining[0])
    } else if remaining.len() == 0 {
        Err(Unresolved::NoPiece)
    } else {
        Err(Unresolved::Ambiguous)
    }
}

pub proof fn lemma_candidates_on_board(
    b: Seq<Option<Piece>>,
    color: Color,
    kind: PieceKind,
    destination_file: int,
    destination_rank: int,
    is_capture: bool,
)
    requires
        b.len() == 64,
        on_board(destination_file, destination_rank),
    ensures
        forall|k: int|
            0 <= k < candidates_spec(
                b,
                color,
                kind,
                destination_file,
                destination_rank,
                is_capture,
            ).len() ==> {
                let o = #[trigger] candidates_spec(
                    b,
                    color,
                    kind,
                    destination_file,
                    destination_rank,
                    is_capture,
                )[k];
                on_board(o.0, o.1) && at(b, o.0, o.1) == Some(piece_of(color, kind))
            },
{
    let wanted = piece_of(color, kind);
    lemma_leap_origins(b, wanted, destination_file, destination_rank, Leaper::Knight, 8);
    lemma_leap_origins(b, wanted, destination_file, destination_rank, Leaper::King, 8);
    lemma_slide_origins(b, wanted, destination_file, destination_rank, Lines::Diagonal, 4);
    lemma_slide_origins(b, wanted, destination_file, destination_rank, Lines::Straight, 4);
    let d = slide_origins(b, wanted, destination_file, destination_rank, Lines::Diagonal, 4);
    let s = slide_origins(b, wanted, destination_file, destination_rank, Lines::Straight, 4);
    assert(origins_are_pieces(b, d + s, wanted)) by {
        assert forall|k: int| 0 <= k < (d + s).len() implies {
            let o = #[trigger] (d + s)[k];
            on_board(o.0, o.1) && at(b, o.0, o.1) == Some(wanted)
        } by {
            if k >= d.len() {
                assert((d + s)[k] == s[k - d.len()]);
            }
        }
    }
}

/// Whether every origin holds `wanted` on a square of the board.
pub open spec fn origins_are_pieces(b: Seq<Option<Piece>>, origins: Seq<(int, int)>, wanted: Piece) -> bool {
    forall|k: int|
        0 <= k < origins.len() ==> {
            let o = #[trigger] origins[k];
            on_board(o.0, o.1) && at(b, o.0, o.1) == Some(wanted)
        }
}

pub proof fn lemma_leap_origins(
    b: Seq<Option<Piece>>,
    wanted: Piece,
    file: int,
    rank: int,
    leaper: Leaper,
    count: nat,
)
    ensures
        origins_are_pieces(b, leap_origins(b, wanted, file, rank, leaper, count), wanted),
    decreases count,
{
    if count > 0 {
        lemma_leap_origins(b, wanted, file, rank, leaper, (count - 1) as nat);
    }
}

pub proof fn lemma_slide_origins(
    b: Seq<Option<Piece>>,
    wanted: Piece,
    file: int,
    rank: int,
    lines: Lines,
    count: nat,
)
    ensures
        origins_are_pieces(b, slide_origins(b, wanted, file, rank, lines, count), wanted),
    decreases count,
{
    if count > 0 {
        lemma_slide_origins(b, wanted, file, rank, lines, (count - 1) as nat);
    }
}

} // verus!

verus! {

/// Errors that can arise while building or advancing a game state.
#[derive(Debug, Clone, PartialEq, Eq)]
#[non_exhaustive]
pub enum GameStateError {
    /// The ascii board could not be parsed.
    InvalidBoard(String),
    /// No piece of the moving side could legally reach the destination.
    NoPieceForMove(String),
    /// More than one piece could play the move and it could not be resolved.
    AmbiguousMove(String),
    /// An underlying grid operation failed.
    Grid(String),
}

/// What a [`GameStateError`] says, with its text as a character sequence.
pub enum GameStateFault {
    InvalidBoard(Seq<char>),
    NoPieceForMove(Seq<char>),
    AmbiguousMove(Seq<char>),
    Grid(Seq<char>),
}

impl View for GameStateError {
    type V = GameStateFault;

    open spec fn view(&self) -> GameStateFault {
        match self {
            GameStateError::InvalidBoard(text) => GameStateFault::InvalidBoard(text@),
            GameStateError::NoPieceForMove(text) => GameStateFault::NoPieceForMove(text@),
            GameStateError::AmbiguousMove(text) => GameStateFault::AmbiguousMove(text@),
            GameStateError::Grid(text) => GameStateFault::Grid(text@),
        }
    }
}

#[allow(clippy::too_many_arguments)]
fn resolve_origin(
    board: &Board,
    color: Color,
    kind: PieceKind,
    destination_file: usize,
    destination_rank: usize,
    is_capture: bool,
    source_file: Option<u8>,
    source_rank: Option<u8>,
    action: &Action,
) -> (r: Result<(usize, usize), GameStateError>)
    requires
        destination_file < 8,
        destination_rank < 8,
        hints_printable(*action),
    ensures
        match resolve_spec(
            board@,
            color,
            kind,
            destination_file as int,
            destination_rank as int,
            is_capture,
            source_file,
            source_rank,
        ) {
            Ok((f, rk)) => r == Ok::<(usize, usize), GameStateError>((f as usize, rk as usize))
                && on_board(f, rk) && at(board@, f, rk) == Some(piece_of(color, kind)),
            Err(Unresolved::NoPiece) => r matches Err(GameStateError::NoPieceForMove(text))
                && text@ == san_text(*action),
            Err(Unresolved::Ambiguous) => r matches Err(GameStateError::AmbiguousMove(text))
                && text@ == san_text(*action),
        },
{
    let candidates = candidate_origins(
        board,
        color,
        kind,
        destination_file,
        destination_rank,
        is_capture,
    );
    let ghost all = squares(candidates@);
    proof {
        lemma_candidates_on_board(
            board@,
            color,
            kind,
            destination_file as int,
            destination_rank as int,
            is_capture,
        );
    }
    let mut allowed: Vec<(usize, usize)> = Vec::new();
    let mut i: usize = 0;
    while i < candidates.len()
        invariant
            i <= candidates.len(),
            all == squares(candidates@),
            squares(allowed@) == hinted(all.take(i as int), source_file, source_rank),
            origins_are_pieces(board@, squares(allowed@), piece_of(color, kind)),
            origins_are_pieces(board@, all, piece_of(color, kind)),
        decreases candidates.len() - i,
    {
        let (file, rank) = candidates[i];
        let ghost earlier = squares(allowed@);
        proof {
            assert(all.take(i + 1).drop_last() =~= all.take(i as int));
            assert(all.take(i + 1).last() == all[i as int]);
            assert(all[i as int] == (file as int, rank as int));
        }
        let file_ok = match source_file {
            Some(wanted) => wanted as usize == file,
            None => true,
        };
        let rank_ok = match source_rank {
            Some(wanted) => wanted as usize == rank,
            None => true,
        };
        if file_ok && rank_ok {
            allowed.push((file, rank));
            proof {
                assert(squares(allowed@) =~= earlier.push((file as int, rank as int)));
            }
        }
        i += 1;
    }
    proof {
        assert(all.take(i as int) =~= all);
    }
    let ghost hinted_all = squares(allowed@);
    let mut remaining: Vec<(usize, usize)> = Vec::new();
    if allowed.len() > 1 {
        let mut j: usize = 0;
        while j < allowed.len()
            invariant
                j <= allowed.len(),
                hinted_all == squares(allowed@),
                origins_are_pieces(board@, hinted_all, piece_of(color, kind)),
                origins_are_pieces(board@, squares(remaining@), piece_of(color, kind)),
                destination_file < 8,
                destination_rank < 8,
                squares(remaining@) == king_safe(
                    board@,
                    color,
                    kind,
                    hinted_all.take(j as int),
                    destination_file as int,
                    destination_rank as int,
                    is_capture,
                ),
            decreases allowed.len() - j,
        {
            let (file, rank) = allowed[j];
            let ghost earlier = squares(remaining@);
            proof {
                assert(hinted_all.take(j + 1).drop_last() =~= hinted_all.take(j as int));
                assert(hinted_all.take(j + 1).last() == hinted_all[j as int]);
                assert(hinted_all[j as int] == (file as int, rank as int));
                assert(on_board(hinted_all[j as int].0, hinted_all[j as int].1));
            }
            if !move_leaves_king_in_check(
                board,
                color,
                kind,
                file,
                rank,
                destination_file,
                destination_rank,
                is_capture,
            ) {
                remaining.push((file, rank));
                proof {
                    assert(squares(remaining@) =~= earlier.push((file as int, rank as int)));
                }
            }
            j += 1;
        }
        proof {
            assert(hinted_all.take(j as int) =~= hinted_all);
        }
    } else {
        remaining = allowed;
    }
    if remaining.len() == 1 {
        proof {
            assert(squares(remaining@)[0] == (remaining@[0].0 as int, remaining@[0].1 as int));
        }
        Ok(remaining[0])
    } else if remaining.len() == 0 {
        Err(GameStateError::NoPieceForMove(action.to_san()))
    } else {
        Err(GameStateError::AmbiguousMove(action.to_san()))
    }
}

} // verus!

verus! {

// ===========================================================================
// GAME STATE
// ===========================================================================

/// A board and the side to move.
#[verifier::ext_equal]
pub struct Position {
    /// What stands on each square, square `rank * 8 + file`.
    pub board: Seq<Option<Piece>>,
    pub side_to_move: Color,
}

/// The board a grid holds: square `rank * 8 + file` is the grid coordinate
/// `(file - 3, rank - 3)`, since d4 is the grid's origin.
pub open spec fn board_of(grid: Grid<Piece>) -> Seq<Option<Piece>> {
    Seq::new(64, |i: int| piece_at(grid, i % 8 - 3, i / 8 - 3))
}

/// The state of a chess game: the board and whose turn it is.
#[derive(Debug)]
pub struct GameState {
    board: Grid<Piece>,
    side_to_move: Color,
}

impl View for GameState {
    type V = Position;

    closed spec fn view(&self) -> Position {
        Position { board: board_of(self.board), side_to_move: self.side_to_move }
    }
}

/// A square's index is `rank * 8 + file`, and no other square has it.
pub proof fn lemma_square_index(i: int, file: int, rank: int)
    requires
        0 <= i < 64,
        on_board(file, rank),
    ensures
        (i == rank * 8 + file) <==> (i % 8 == file && i / 8 == rank),
{
    assert((i == rank * 8 + file) <==> (i % 8 == file && i / 8 == rank)) by (nonlinear_arith)
        requires
            0 <= i < 64,
            0 <= file < 8,
            0 <= rank < 8,
    ;
}

impl GameState {
    #[verifier::type_invariant]
    closed spec fn grid_is_board(self) -> bool {
        grid_extent(self.board) == (8int, 8int)
    }

    /// Whose turn it is.
    pub fn side_to_move(&self) -> (color: Color)
        ensures
            color == self@.side_to_move,
    {
        self.side_to_move
    }

    /// What stands on a square.
    pub fn piece_on(&self, square: Square) -> (piece: Option<Piece>)
        ensures
            piece == self@.board[square.rank_index() * 8 + square.file_index()],
    {
        proof {
            use_type_invariant(self);
        }
        let file = square.file();
        let rank = square.rank();
        grid_element(&self.board, file as i32 - 3, rank as i32 - 3)
    }

    /// A plain copy of the board.
    fn snapshot(&self) -> (board: Board)
        ensures
            board@ == self@.board,
    {
        proof {
            use_type_invariant(self);
        }
        let mut board: Board = [None; 64];
        let mut index: usize = 0;
        while index < 64
            invariant
                index <= 64,
                grid_extent(self.board) == (8int, 8int),
                forall|j: int| 0 <= j < index ==> board@[j] == board_of(self.board)[j],
            decreases 64 - index,
        {
            let file = (index % 8) as i32;
            let rank = (index / 8) as i32;
            board[index] = grid_element(&self.board, file - 3, rank - 3);
            index += 1;
        }
        proof {
            assert(board@ =~= board_of(self.board));
        }
        board
    }

    /// Takes the piece off a square; fails, changing nothing, when the square
    /// is empty.
    fn remove(&mut self, file: usize, rank: usize) -> (r: Result<Piece, GameStateError>)
        requires
            file < 8,
            rank < 8,
        ensures
            final(self)@.side_to_move == old(self)@.side_to_move,
            match old(self)@.board[rank * 8 + file] {
                Some(piece) => r == Ok::<Piece, GameStateError>(piece) && final(self)@.board
                    == old(self)@.board.update(rank * 8 + file, None),
                None => r matches Err(GameStateError::Grid(text)) && text@ == unoccupied_text(
                    file - 3,
                    rank - 3,
                ) && final(self)@.board == old(self)@.board,
            },
    {
        proof {
            use_type_invariant(&*self);
        }
        let ghost before = self.board;
        let result = grid_remove(&mut self.board, file as i32 - 3, rank as i32 - 3);
        proof {
            assert(board_of(before)[rank * 8 + file] == piece_at(before, file - 3, rank - 3));
            if piece_at(before, file - 3, rank - 3) is Some {
                assert forall|i: int| 0 <= i < 64 implies board_of(self.board)[i] == board_of(
                    before,
                ).update(rank * 8 + file, None)[i] by {
                    if i != rank * 8 + file {
                        assert((i % 8 - 3, i / 8 - 3) != (file - 3, rank - 3));
                    }
                }
                assert(board_of(self.board) =~= board_of(before).update(rank * 8 + file, None));
            } else {
                assert(board_of(self.board) =~= board_of(before));
            }
        }
        match result {
            Ok(piece) => Ok(piece),
            Err(text) => Err(GameStateError::Grid(text)),
        }
    }

    /// Puts a piece on a square, replacing whatever stood there.
    fn store(&mut self, file: usize, rank: usize, piece: Piece)
        requires
            file < 8,
            rank < 8,
        ensures
            final(self)@.side_to_move == old(self)@.side_to_move,
            final(self)@.board == old(self)@.board.update(rank * 8 + file, Some(piece)),
    {
        proof {
            use_type_invariant(&*self);
        }
        let ghost before = self.board;
        let _ = grid_store(&mut self.board, file as i32 - 3, rank as i32 - 3, piece);
        proof {
            assert forall|i: int| 0 <= i < 64 implies board_of(self.board)[i] == board_of(
                before,
            ).update(rank * 8 + file, Some(piece))[i] by {
                if i != rank * 8 + file {
                    assert((i % 8 - 3, i / 8 - 3) != (file - 3, rank - 3));
                }
            }
            assert(board_of(self.board) =~= board_of(before).update(rank * 8 + file, Some(piece)));
        }
    }
}

} // verus!

verus! {

/// How a move ended.
pub enum MoveOutcome {
    /// The move was made and the turn passed.
    Played,
    /// No piece of the moving side can make the move.
    NoPiece,
    /// More than one piece can make the move and the notation does not say
    /// which.
    Ambiguous,
    /// The square at `(file, rank)`, from zero, that the move takes a piece
    /// from was empty.
    EmptySquare { file: int, rank: int },
}

/// Castling: the king goes from the e-file two squares toward the rook, and
/// the rook to the square it crossed. The king is lifted first; if either the
/// king's or the rook's square is empty the move stops there, with whatever
/// was lifted gone and the turn not passed.
pub open spec fn castle_spec(position: Position, kingside: bool) -> (Position, MoveOutcome) {
    let color = position.side_to_move;
    let b = position.board;
    let rank = home_rank(color);
    let king_to = if kingside {
        6int
    } else {
        2int
    };
    let rook_from = if kingside {
        7int
    } else {
        0int
    };
    let rook_to = if kingside {
        5int
    } else {
        3int
    };
    match b[rank * 8 + 4] {
        None => (position, MoveOutcome::EmptySquare { file: 4, rank }),
        Some(king) => {
            let lifted = b.update(rank * 8 + 4, None);
            match lifted[rank * 8 + rook_from] {
                None => (
                    Position { board: lifted, side_to_move: color },
                    MoveOutcome::EmptySquare { file: rook_from, rank },
                ),
                Some(rook) => (
                    Position {
                        board: lifted.update(rank * 8 + rook_from, None).update(
                            rank * 8 + king_to,
                            Some(king),
                        ).update(rank * 8 + rook_to, Some(rook)),
                        side_to_move: opponent_of(color),
                    },
                    MoveOutcome::Played,
                ),
            }
        },
    }
}

/// An ordinary move: the piece that makes it is resolved, lifted from its
/// square, the pawn beside it taken for an en passant capture, and it (or the
/// piece it promotes to) is put on the destination, replacing what stood
/// there. If the square of the pawn taken en passant is empty, the move stops
/// with the mover lifted and the turn not passed.
pub open spec fn normal_move_spec(
    position: Position,
    kind: PieceKind,
    source_file: Option<u8>,
    source_rank: Option<u8>,
    destination: Square,
    is_capture: bool,
    promotion: Option<PieceKind>,
) -> (Position, MoveOutcome) {
    let color = position.side_to_move;
    let b = position.board;
    let file = destination.file_index();
    let rank = destination.rank_index();
    match resolve_spec(b, color, kind, file, rank, is_capture, source_file, source_rank) {
        Err(Unresolved::NoPiece) => (position, MoveOutcome::NoPiece),
        Err(Unresolved::Ambiguous) => (position, MoveOutcome::Ambiguous),
        Ok((origin_file, origin_rank)) => {
            let en_passant = is_en_passant_spec(b, kind, is_capture, file, rank);
            let lifted = b.update(origin_rank * 8 + origin_file, None);
            if en_passant && lifted[origin_rank * 8 + file] is None {
                (
                    Position { board: lifted, side_to_move: color },
                    MoveOutcome::EmptySquare { file, rank: origin_rank },
                )
            } else {
                let cleared = if en_passant {
                    lifted.update(origin_rank * 8 + file, None)
                } else {
                    lifted
                };
                let placed = match promotion {
                    Some(promoted) => piece_of(color, promoted),
                    None => piece_of(color, kind),
                };
                (
                    Position {
                        board: cleared.update(rank * 8 + file, Some(placed)),
                        side_to_move: opponent_of(color),
                    },
                    MoveOutcome::Played,
                )
            }
        },
    }
}

/// The position after a move, and how the move ended.
pub open spec fn play(position: Position, action: Action) -> (Position, MoveOutcome) {
    match action.kind {
        ActionKind::CastleKingside => castle_spec(position, true),
        ActionKind::CastleQueenside => castle_spec(position, false),
        ActionKind::Normal { piece, source_file, source_rank, destination, is_capture, promotion } =>
            normal_move_spec(
            position,
            piece,
            source_file,
            source_rank,
            destination,
            is_capture,
            promotion,
        ),
    }
}

/// Whether a move's result matches how it ended: `Ok` when it was played,
/// the move's SAN text when no piece or more than one could make it, and a
/// grid error with the grid's message for the empty square when a square was
/// empty.
pub open spec fn move_result_matches(
    result: Result<(), GameStateError>,
    outcome: MoveOutcome,
    action: Action,
) -> bool {
    match outcome {
        MoveOutcome::Played => result is Ok,
        MoveOutcome::NoPiece => result matches Err(GameStateError::NoPieceForMove(text)) && text@
            == san_text(action),
        MoveOutcome::Ambiguous => result matches Err(GameStateError::AmbiguousMove(text)) && text@
            == san_text(action),
        MoveOutcome::EmptySquare { file, rank } => result matches Err(GameStateError::Grid(text))
            && text@ == unoccupied_text(file - 3, rank - 3),
    }
}

impl GameState {
    /// Advances the game by one move.
    ///
    /// Returns [`GameStateError::NoPieceForMove`] if no piece of the moving side
    /// can reach the destination, [`GameStateError::AmbiguousMove`] if more than
    /// one could and the notation does not say which, and
    /// [`GameStateError::Grid`], with the grid's message for that square, if a
    /// square the move takes a piece from is empty.
    pub fn process_move(&mut self, action: Action) -> (r: Result<(), GameStateError>)
        requires
            hints_printable(action),
        ensures
            final(self)@ == play(old(self)@, action).0,
            move_result_matches(r, play(old(self)@, action).1, action),
            r is Ok ==> final(self)@.side_to_move == opponent_of(old(self)@.side_to_move),
            r is Err ==> final(self)@.side_to_move == old(self)@.side_to_move,
    {
        proof {
            lemma_play_turn(self@, action);
        }
        let color = self.side_to_move;
        match action.kind {
            ActionKind::CastleKingside => {
                self.apply_castle(color, true)?;
            },
            ActionKind::CastleQueenside => {
                self.apply_castle(color, false)?;
            },
            ActionKind::Normal {
                piece,
                source_file,
                source_rank,
                destination,
                is_capture,
                promotion,
            } => {
                let board = self.snapshot();
                let destination_file = destination.file() as usize;
                let destination_rank = destination.rank() as usize;
                let (origin_file, origin_rank) = resolve_origin(
                    &board,
                    color,
                    piece,
                    destination_file,
                    destination_rank,
                    is_capture,
                    source_file,
                    source_rank,
                    &action,
                )?;
                let is_en_passant = is_en_passant_capture(
                    &board,
                    piece,
                    is_capture,
                    destination_file,
                    destination_rank,
                );
                self.remove(origin_file, origin_rank)?;
                if is_en_passant {
                    // The captured pawn sits on the destination file at the
                    // rank the capturing pawn started from.
                    self.remove(destination_file, origin_rank)?;
                }
                let placed = match promotion {
                    Some(promoted_kind) => Piece::new(color, promoted_kind),
                    None => Piece::new(color, piece),
                };
                self.store(destination_file, destination_rank, placed);
            },
        }
        proof {
            use_type_invariant(&*self);
        }
        self.side_to_move = color.opponent();
        Ok(())
    }

    fn apply_castle(&mut self, color: Color, kingside: bool) -> (r: Result<(), GameStateError>)
        requires
            color == old(self)@.side_to_move,
        ensures
            final(self)@.board == castle_spec(old(self)@, kingside).0.board,
            final(self)@.side_to_move == color,
            r is Ok <==> castle_spec(old(self)@, kingside).1 == MoveOutcome::Played,
            castle_spec(old(self)@, kingside).1 matches MoveOutcome::EmptySquare { file, rank }
                ==> r matches Err(GameStateError::Grid(text)) && text@ == unoccupied_text(
                file - 3,
                rank - 3,
            ),
    {
        let rank = color.back_rank();
        let (king_to, rook_from, rook_to) = if kingside {
            (6, 7, 5)
        } else {
            (2, 0, 3)
        };
        let king = self.remove(4, rank)?;
        let rook = self.remove(rook_from, rank)?;
        self.store(king_to, rank, king);
        self.store(rook_to, rank, rook);
        Ok(())
    }
}

} // verus!

verus! {

// ===========================================================================
// ASCII BOARDS
// ===========================================================================

/// The ascii character of a square: the piece's character, or a dot.
pub open spec fn square_char(square: Option<Piece>) -> char {
    match square {
        Some(piece) => char_of(piece),
        None => '.',
    }
}

/// The ascii row of a rank, from the a-file to the h-file.
pub open spec fn row_text(b: Seq<Option<Piece>>, rank: int) -> Seq<char> {
    Seq::new(8, |file: int| square_char(b[rank * 8 + file]))
}

/// The ascii rows of a board, from rank 8 down to rank 1.
pub open spec fn ascii_rows(b: Seq<Option<Piece>>) -> Seq<Seq<char>> {
    Seq::new(8, |i: int| row_text(b, 7 - i))
}

/// A board as ascii: eight rows joined by newlines, top row rank 8.
pub open spec fn ascii_board(b: Seq<Option<Piece>>) -> Seq<char> {
    join(ascii_rows(b), seq!['\n'])
}

impl GameState {
    /// Renders the board as ascii in the same format `from_ascii` reads.
    pub fn to_ascii(&self) -> (text: String)
        ensures
            text@ == ascii_board(self@.board),
    {
        let ghost b = self@.board;
        let ghost rows = ascii_rows(b);
        let mut output: Vec<char> = Vec::new();
        let mut row: usize = 0;
        while row < 8
            invariant
                row <= 8,
                b == self@.board,
                rows == ascii_rows(b),
                output@ == join(rows.take(row as int), seq!['\n']),
            decreases 8 - row,
        {
            let ghost before = output@;
            if row > 0 {
                output.push('\n');
            }
            let rank = 7 - row;
            let mut file: usize = 0;
            let ghost start = output@;
            while file < 8
                invariant
                    file <= 8,
                    row < 8,
                    rank == 7 - row,
                    b == self@.board,
                    output@ == start + row_text(b, rank as int).take(file as int),
                decreases 8 - file,
            {
                let square = Square::new(file as u8, rank as u8);
                let character = match self.piece_on(square) {
                    Some(piece) => piece.to_char(),
                    None => '.',
                };
                output.push(character);
                file += 1;
                proof {
                    assert(output@ =~= start + row_text(b, rank as int).take(file as int));
                }
            }
            proof {
                assert(row_text(b, rank as int).take(8) =~= row_text(b, rank as int));
                assert(rows.take(row + 1).drop_last() =~= rows.take(row as int));
                assert(rows.take(row + 1).last() == rows[row as int]);
                if row == 0 {
                    assert(output@ =~= rows[0]);
                } else {
                    assert(output@ =~= before + seq!['\n'] + rows[row as int]);
                }
            }
            row += 1;
        }
        proof {
            assert(rows.take(8) =~= rows);
        }
        string_from(&output)
    }
}

} // verus!

verus! {

/// The non-blank lines of `lines`, trimmed, in order.
pub open spec fn nonblank_rows(lines: Seq<Seq<char>>) -> Seq<Seq<char>>
    decreases lines.len(),
{
    if lines.len() == 0 {
        seq![]
    } else {
        let rest = nonblank_rows(lines.drop_first());
        let row = trim(lines[0]);
        if row.len() > 0 {
            seq![row] + rest
        } else {
            rest
        }
    }
}

/// The rows of an ascii board text: its lines, trimmed, blank ones left out.
pub open spec fn board_rows(text: Seq<char>) -> Seq<Seq<char>> {
    nonblank_rows(split_lines(text))
}

/// The character sequences held in a list of character vectors.
pub open spec fn char_rows(rows: Seq<Vec<char>>) -> Seq<Seq<char>> {
    rows.map_values(|r: Vec<char>| r@)
}

fn rows_of(text: &Vec<char>) -> (rows: Vec<Vec<char>>)
    ensures
        char_rows(rows@) == board_rows(text@),
{
    let mut rows: Vec<Vec<char>> = Vec::new();
    let mut start: usize = 0;
    let mut finished = false;
    proof {
        assert(text@.skip(0) =~= text@);
        assert(char_rows(rows@) + nonblank_rows(split_lines(text@)) =~= nonblank_rows(
            split_lines(text@),
        ));
    }
    while !finished
        invariant
            start <= text.len(),
            !finished ==> board_rows(text@) == char_rows(rows@) + nonblank_rows(
                split_lines(text@.skip(start as int)),
            ),
            finished ==> board_rows(text@) == char_rows(rows@),
        decreases text.len() - start + (if finished {
            0int
        } else {
            1int
        }),
    {
        let ghost rest = text@.skip(start as int);
        let mut end = start;
        while end < text.len() && text[end] != '\n'
            invariant
                start <= end <= text.len(),
                forall|j: int| start <= j < end ==> text@[j] != '\n',
            decreases text.len() - end,
        {
            end += 1;
        }
        proof {
            lemma_newline_index(rest, 0, end - start);
        }
        let row = trimmed(text, start, end);
        let ghost before = char_rows(rows@);
        proof {
            assert(rest.take(end - start) =~= text@.subrange(start as int, end as int));
        }
        if row.len() > 0 {
            rows.push(row);
        }
        proof {
            if row@.len() > 0 {
                assert(char_rows(rows@) =~= before + seq![row@]);
            } else {
                assert(char_rows(rows@) =~= before);
            }
        }
        if end < text.len() {
            proof {
                assert(rest.skip(end - start + 1) =~= text@.skip(end + 1));
                assert(split_lines(rest) == seq![rest.take(end - start)] + split_lines(
                    rest.skip(end - start + 1),
                ));
                let lines = split_lines(rest);
                assert(lines.drop_first() =~= split_lines(text@.skip(end + 1)));
                assert(lines[0] == rest.take(end - start));
                if row@.len() > 0 {
                    assert(before + nonblank_rows(lines) =~= char_rows(rows@) + nonblank_rows(
                        split_lines(text@.skip(end + 1)),
                    ));
                }
            }
            start = end + 1;
        } else {
            proof {
                let lines = split_lines(rest);
                assert(lines == seq![rest]);
                assert(rest.take(end - start) =~= rest);
                assert(lines.drop_first() =~= Seq::<Seq<char>>::empty());
                assert(nonblank_rows(lines.drop_first()) =~= Seq::<Seq<char>>::empty());
                if row@.len() > 0 {
                    assert(nonblank_rows(lines) =~= seq![row@]);
                    assert(char_rows(rows@) =~= before + seq![row@]);
                } else {
                    assert(nonblank_rows(lines) =~= Seq::<Seq<char>>::empty());
                    assert(char_rows(rows@) =~= before + Seq::<Seq<char>>::empty());
                }
            }
            start = end;
            finished = true;
        }
    }
    rows
}

} // verus!

verus! {

/// The detail of a board text without exactly eight rows.
pub open spec fn rows_detail(count: nat) -> Seq<char> {
    "expected 8 rows, found "@ + decimal(count)
}

/// The detail of a row that is not eight characters long.
pub open spec fn columns_detail(row: nat, count: nat) -> Seq<char> {
    "row "@ + decimal(row) + " has "@ + decimal(count) + " columns, expected 8"@
}

/// The detail of a character that is neither a piece nor a dot.
pub open spec fn unknown_piece_detail(c: char) -> Seq<char> {
    "unknown piece "@ + char_debug(c)
}

/// Whether a board character is neither a piece nor a dot.
pub open spec fn is_bad_square(c: char) -> bool {
    c != '.' && piece_for_char(c) is None
}

/// The first position at or after `k` of a character that is neither a piece
/// nor a dot.
pub open spec fn first_bad_square(row: Seq<char>, k: int) -> Option<int>
    decreases row.len() - k,
{
    if k < 0 || k >= row.len() {
        None
    } else if is_bad_square(row[k]) {
        Some(k)
    } else {
        first_bad_square(row, k + 1)
    }
}

/// What is wrong with row `i` of a board text, if anything: its length, else
/// its first character that is neither a piece nor a dot.
pub open spec fn row_fault(row: Seq<char>, i: nat) -> Option<Seq<char>> {
    if row.len() != 8 {
        Some(columns_detail(i, row.len()))
    } else {
        match first_bad_square(row, 0) {
            Some(k) => Some(unknown_piece_detail(row[k])),
            None => None,
        }
    }
}

/// The first fault among rows `i` to 7.
pub open spec fn rows_fault(rows: Seq<Seq<char>>, i: nat) -> Option<Seq<char>>
    decreases 8 - i,
{
    if i >= 8 {
        None
    } else {
        match row_fault(rows[i as int], i) {
            Some(detail) => Some(detail),
            None => rows_fault(rows, i + 1),
        }
    }
}

/// The board eight ascii rows describe, the first row being rank 8.
pub open spec fn board_from_rows(rows: Seq<Seq<char>>) -> Seq<Option<Piece>> {
    Seq::new(64, |i: int| piece_for_char(rows[7 - i / 8][i % 8]))
}

/// The board an ascii text describes, or what is wrong with the text.
pub open spec fn from_ascii_spec(text: Seq<char>) -> Result<Seq<Option<Piece>>, Seq<char>> {
    let rows = board_rows(text);
    if rows.len() != 8 {
        Err(rows_detail(rows.len()))
    } else {
        match rows_fault(rows, 0) {
            Some(detail) => Err(detail),
            None => Ok(board_from_rows(rows)),
        }
    }
}

/// What the squares hold once rows before `row`, and the first `file` squares
/// of row `row`, have been read.
pub open spec fn partly_read(rows: Seq<Seq<char>>, row: int, file: int) -> Seq<Option<Piece>> {
    Seq::new(
        64,
        |i: int|
            if 7 - i / 8 < row || (7 - i / 8 == row && i % 8 < file) {
                piece_for_char(rows[7 - i / 8][i % 8])
            } else {
                None
            },
    )
}

fn invalid_board(detail: Vec<char>) -> (error: GameStateError)
    ensures
        error@ == GameStateFault::InvalidBoard(detail@),
{
    GameStateError::InvalidBoard(string_from(&detail))
}

/// Whether a row is eight characters, each a piece or a dot.
pub open spec fn row_ok(row: Seq<char>) -> bool {
    row.len() == 8 && forall|k: int| 0 <= k < 8 ==> !is_bad_square(#[trigger] row[k])
}

pub proof fn lemma_first_bad_square(row: Seq<char>, k: int)
    requires
        0 <= k,
    ensures
        first_bad_square(row, k) is None <==> forall|j: int|
            k <= j < row.len() ==> !is_bad_square(#[trigger] row[j]),
    decreases row.len() - k,
{
    if k < row.len() {
        lemma_first_bad_square(row, k + 1);
    }
}

pub proof fn lemma_rows_fault(rows: Seq<Seq<char>>, i: nat)
    requires
        i <= 8,
    ensures
        rows_fault(rows, i) is None <==> forall|r: int| i <= r < 8 ==> #[trigger] row_ok(rows[r]),
    decreases 8 - i,
{
    if i < 8 {
        lemma_rows_fault(rows, i + 1);
        lemma_first_bad_square(rows[i as int], 0);
        if rows_fault(rows, i) is None {
            assert(row_ok(rows[i as int]));
            assert forall|r: int| i <= r < 8 implies #[trigger] row_ok(rows[r]) by {
                if r > i {
                    assert(row_ok(rows[r]));
                }
            }
        } else {
            if row_fault(rows[i as int], i) is None {
                assert(!(forall|r: int| i + 1 <= r < 8 ==> #[trigger] row_ok(rows[r])));
            } else {
                assert(!row_ok(rows[i as int]));
            }
        }
    }
}

impl GameState {
    /// A game state holding the board that eight well-formed ascii rows
    /// describe, white to move.
    fn fill_board(rows: &Vec<Vec<char>>) -> (state: GameState)
        requires
            rows.len() == 8,
            rows_fault(char_rows(rows@), 0) is None,
        ensures
            state@ == (Position {
                board: board_from_rows(char_rows(rows@)),
                side_to_move: Color::White,
            }),
    {
        let ghost views = char_rows(rows@);
        proof {
            lemma_rows_fault(views, 0);
        }
        let mut board = new_grid(8, 8);
        let mut row_index: usize = 0;
        proof {
            assert(board_of(board) =~= partly_read(views, 0, 0));
        }
        while row_index < 8
            invariant
                row_index <= 8,
                rows.len() == 8,
                views == char_rows(rows@),
                forall|r: int| 0 <= r < 8 ==> #[trigger] row_ok(views[r]),
                grid_extent(board) == (8int, 8int),
                board_of(board) == partly_read(views, row_index as int, 0),
            decreases 8 - row_index,
        {
            let row = &rows[row_index];
            proof {
                assert(views[row_index as int] == row@);
                assert(row_ok(views[row_index as int]));
            }
            let rank = 7 - row_index;
            let mut file: usize = 0;
            while file < 8
                invariant
                    file <= 8,
                    row_index < 8,
                    rank == 7 - row_index,
                    row@ == views[row_index as int],
                    row@.len() == 8,
                    forall|k: int| 0 <= k < 8 ==> !is_bad_square(#[trigger] row@[k]),
                    grid_extent(board) == (8int, 8int),
                    board_of(board) == partly_read(views, row_index as int, file as int),
                decreases 8 - file,
            {
                let character = row[file];
                let ghost before = board_of(board);
                proof {
                    assert(!is_bad_square(row@[file as int]));
                }
                if character != '.' {
                    if let Some(piece) = Piece::from_char(character) {
                        let _ = grid_store(&mut board, file as i32 - 3, rank as i32 - 3, piece);
                    }
                }
                proof {
                    assert forall|i: int| 0 <= i < 64 implies board_of(board)[i] == partly_read(
                        views,
                        row_index as int,
                        file + 1,
                    )[i] by {
                        lemma_square_index(i, file as int, rank as int);
                        if i == rank * 8 + file {
                            assert(i % 8 == file && i / 8 == rank);
                            assert(partly_read(views, row_index as int, file + 1)[i]
                                == piece_for_char(views[row_index as int][file as int]));
                            assert(board_of(board)[i] == piece_at(board, file - 3, rank - 3));
                        } else {
                            assert(board_of(board)[i] == before[i]);
                            assert(partly_read(views, row_index as int, file + 1)[i] == partly_read(
                                views,
                                row_index as int,
                                file as int,
                            )[i]);
                        }
                    }
                    assert(board_of(board) =~= partly_read(views, row_index as int, file + 1));
                }
                file += 1;
            }
            proof {
                assert(partly_read(views, row_index as int, 8) =~= partly_read(
                    views,
                    row_index + 1,
                    0,
                ));
            }
            row_index += 1;
        }
        proof {
            assert(partly_read(views, 8, 0) =~= board_from_rows(views));
        }
        GameState { board, side_to_move: Color::White }
    }

    /// Builds a game state from an ascii board: eight rows, top row is rank 8,
    /// uppercase letters are white pieces, lowercase are black, and a dot is an
    /// empty square. White is set to move. Blank lines, and whitespace around
    /// a row, are ignored.
    ///
    /// Returns [`GameStateError::InvalidBoard`] if the text is not eight rows of
    /// eight characters, or holds a character that is neither a piece nor a
    /// dot; the first such problem, row by row, is reported.
    pub fn from_ascii(text: &str) -> (r: Result<Self, GameStateError>)
        ensures
            match from_ascii_spec(text@) {
                Ok(board) => r matches Ok(state) && state@ == (Position {
                    board,
                    side_to_move: Color::White,
                }),
                Err(detail) => r matches Err(e) && e@ == GameStateFault::InvalidBoard(detail),
            },
            r matches Ok(state) ==> ascii_board(state@.board) == join(
                board_rows(text@),
                seq!['\n'],
            ),
    {
        proof {
            if from_ascii_spec(text@) is Ok {
                lemma_ascii_normal_form(text@);
            }
        }
        let characters = chars_of(text);
        let rows = rows_of(&characters);
        let ghost views = char_rows(rows@);
        if rows.len() != 8 {
            let mut detail = chars_of("expected 8 rows, found ");
            extend_chars(&mut detail, &decimal_text(rows.len()));
            return Err(invalid_board(detail));
        }
        let mut row_index: usize = 0;
        while row_index < 8
            invariant
                row_index <= 8,
                rows.len() == 8,
                views == char_rows(rows@),
                views == board_rows(text@),
                rows_fault(views, 0) == rows_fault(views, row_index as nat),
            decreases 8 - row_index,
        {
            let row = &rows[row_index];
            proof {
                assert(views[row_index as int] == row@);
            }
            if row.len() != 8 {
                let mut detail = chars_of("row ");
                extend_chars(&mut detail, &decimal_text(row_index));
                extend_with_str(&mut detail, " has ");
                extend_chars(&mut detail, &decimal_text(row.len()));
                extend_with_str(&mut detail, " columns, expected 8");
                proof {
                    assert(detail@ =~= columns_detail(row_index as nat, row@.len()));
                }
                return Err(invalid_board(detail));
            }
            let mut file: usize = 0;
            while file < 8
                invariant
                    file <= 8,
                    row_index < 8,
                    rows.len() == 8,
                    views == char_rows(rows@),
                    row@ == views[row_index as int],
                    row@.len() == 8,
                    views == board_rows(text@),
                    rows_fault(views, 0) == rows_fault(views, row_index as nat),
                    first_bad_square(row@, 0) == first_bad_square(row@, file as int),
                decreases 8 - file,
            {
                let character = row[file];
                if character != '.' && Piece::from_char(character).is_none() {
                    let mut detail = chars_of("unknown piece ");
                    let shown = debug_char(character);
                    extend_with_str(&mut detail, shown.as_str());
                    proof {
                        assert(is_bad_square(row@[file as int]));
                        assert(first_bad_square(row@, file as int) == Some(file as int));
                        assert(row_fault(row@, row_index as nat) == Some(
                            unknown_piece_detail(character),
                        ));
                        assert(rows_fault(views, row_index as nat) == Some(
                            unknown_piece_detail(character),
                        ));
                        assert(detail@ =~= unknown_piece_detail(character));
                    }
                    return Err(invalid_board(detail));
                }
                proof {
                    assert(!is_bad_square(row@[file as int]));
                    assert(first_bad_square(row@, file as int) == first_bad_square(
                        row@,
                        file + 1,
                    ));
                }
                file += 1;
            }
            proof {
                assert(first_bad_square(row@, 8) is None);
                assert(row_fault(row@, row_index as nat) is None);
                assert(rows_fault(views, row_index as nat) == rows_fault(
                    views,
                    (row_index + 1) as nat,
                ));
            }
            row_index += 1;
        }
        proof {
            assert(rows_fault(views, 8) is None);
        }
        Ok(GameState::fill_board(&rows))
    }
}

} // verus!

verus! {

/// The rows of the standard starting position, rank 8 first.
pub open spec fn starting_rows() -> Seq<Seq<char>> {
    seq![
        seq!['r', 'n', 'b', 'q', 'k', 'b', 'n', 'r'],
        Seq::new(8, |k: int| 'p'),
        Seq::new(8, |k: int| '.'),
        Seq::new(8, |k: int| '.'),
        Seq::new(8, |k: int| '.'),
        Seq::new(8, |k: int| '.'),
        Seq::new(8, |k: int| 'P'),
        seq!['R', 'N', 'B', 'Q', 'K', 'B', 'N', 'R'],
    ]
}

/// The standard starting position, white to move.
pub open spec fn starting_position() -> Position {
    Position { board: board_from_rows(starting_rows()), side_to_move: Color::White }
}

proof fn lemma_starting_rows_ok()
    ensures
        starting_rows().len() == 8,
        rows_fault(starting_rows(), 0) is None,
{
    let rows = starting_rows();
    assert forall|r: int| 0 <= r < 8 implies #[trigger] row_ok(rows[r]) by {
        assert(rows[r].len() == 8);
        assert forall|k: int| 0 <= k < 8 implies !is_bad_square(#[trigger] rows[r][k]) by {
            if r == 0 || r == 7 {
                assert(k == 0 || k == 1 || k == 2 || k == 3 || k == 4 || k == 5 || k == 6 || k
                    == 7);
            }
        }
    }
    lemma_rows_fault(rows, 0);
}

/// A row of eight copies of one character.
fn repeated_row(c: char) -> (row: Vec<char>)
    ensures
        row@ == Seq::new(8, |k: int| c),
{
    let mut row: Vec<char> = Vec::new();
    while row.len() < 8
        invariant
            row.len() <= 8,
            forall|k: int| 0 <= k < row.len() ==> row@[k] == c,
        decreases 8 - row.len(),
    {
        row.push(c);
    }
    proof {
        assert(row@ =~= Seq::new(8, |k: int| c));
    }
    row
}

/// A back rank row: rook, knight, bishop, queen, king, bishop, knight, rook,
/// in the case of `color`.
fn back_rank_row(color: Color) -> (row: Vec<char>)
    ensures
        color == Color::Black ==> row@ == seq!['r', 'n', 'b', 'q', 'k', 'b', 'n', 'r'],
        color == Color::White ==> row@ == seq!['R', 'N', 'B', 'Q', 'K', 'B', 'N', 'R'],
{
    let kinds = [
        PieceKind::Rook,
        PieceKind::Knight,
        PieceKind::Bishop,
        PieceKind::Queen,
        PieceKind::King,
        PieceKind::Bishop,
        PieceKind::Knight,
        PieceKind::Rook,
    ];
    let mut row: Vec<char> = Vec::new();
    let mut i: usize = 0;
    while i < 8
        invariant
            i <= 8,
            row.len() == i,
            kinds@ == seq![
                PieceKind::Rook,
                PieceKind::Knight,
                PieceKind::Bishop,
                PieceKind::Queen,
                PieceKind::King,
                PieceKind::Bishop,
                PieceKind::Knight,
                PieceKind::Rook,
            ],
            forall|k: int| 0 <= k < i ==> row@[k] == char_of(piece_of(color, kinds@[k])),
        decreases 8 - i,
    {
        row.push(Piece::new(color, kinds[i]).to_char());
        i += 1;
    }
    proof {
        if color == Color::Black {
            assert(row@ =~= seq!['r', 'n', 'b', 'q', 'k', 'b', 'n', 'r']);
        } else {
            assert(row@ =~= seq!['R', 'N', 'B', 'Q', 'K', 'B', 'N', 'R']);
        }
    }
    row
}

impl GameState {
    /// Builds the standard starting position with white to move.
    pub fn new() -> (state: Self)
        ensures
            state@ == starting_position(),
    {
        let mut rows: Vec<Vec<char>> = Vec::new();
        rows.push(back_rank_row(Color::Black));
        rows.push(repeated_row('p'));
        rows.push(repeated_row('.'));
        rows.push(repeated_row('.'));
        rows.push(repeated_row('.'));
        rows.push(repeated_row('.'));
        rows.push(repeated_row('P'));
        rows.push(back_rank_row(Color::White));
        proof {
            lemma_starting_rows_ok();
            assert(char_rows(rows@) =~= starting_rows());
        }
        GameState::fill_board(&rows)
    }
}

impl Default for GameState {
    /// The standard starting position with white to move.
    fn default() -> (state: Self)
        ensures
            state@ == starting_position(),
    {
        GameState::new()
    }
}

} // verus!

verus! {

proof fn lemma_split_single_line(a: Seq<char>)
    requires
        forall|j: int| 0 <= j < a.len() ==> a[j] != '\n',
    ensures
        split_lines(a) == seq![a],
{
    lemma_newline_index(a, 0, a.len() as int);
}

proof fn lemma_split_after_line(a: Seq<char>, b: Seq<char>)
    requires
        forall|j: int| 0 <= j < a.len() ==> a[j] != '\n',
    ensures
        split_lines(a + seq!['\n'] + b) == seq![a] + split_lines(b),
{
    let s = a + seq!['\n'] + b;
    lemma_newline_index(s, 0, a.len() as int);
    assert(s.take(a.len() as int) =~= a);
    assert(s.skip(a.len() + 1int) =~= b);
}

proof fn lemma_join_first(parts: Seq<Seq<char>>, separator: Seq<char>)
    requires
        parts.len() >= 2,
    ensures
        join(parts, separator) == parts[0] + separator + join(parts.drop_first(), separator),
    decreases parts.len(),
{
    if parts.len() == 2 {
        assert(parts.drop_last().len() == 1);
        assert(parts.drop_first().len() == 1);
        assert(join(parts.drop_first(), separator) == parts[1]);
        assert(join(parts.drop_last(), separator) == parts[0]);
    } else {
        lemma_join_first(parts.drop_last(), separator);
        assert(parts.drop_last().drop_first() =~= parts.drop_first().drop_last());
        assert(parts.drop_first().last() == parts.last());
        assert(parts.drop_last()[0] == parts[0]);
        let rest = join(parts.drop_last().drop_first(), separator);
        assert(join(parts, separator) == parts[0] + separator + rest + separator + parts.last());
        assert(join(parts.drop_first(), separator) == rest + separator + parts.last());
        assert(parts[0] + separator + rest + separator + parts.last() =~= parts[0] + separator
            + (rest + separator + parts.last()));
    }
}

proof fn lemma_split_join(parts: Seq<Seq<char>>)
    requires
        parts.len() >= 1,
        forall|i: int, j: int|
            0 <= i < parts.len() && 0 <= j < parts[i].len() ==> #[trigger] parts[i][j] != '\n',
    ensures
        split_lines(join(parts, seq!['\n'])) == parts,
    decreases parts.len(),
{
    if parts.len() == 1 {
        lemma_split_single_line(parts[0]);
        assert(seq![parts[0]] =~= parts);
    } else {
        let rest = parts.drop_first();
        assert forall|i: int, j: int|
            0 <= i < rest.len() && 0 <= j < rest[i].len() implies #[trigger] rest[i][j]
            != '\n' by {
            assert(rest[i] == parts[i + 1]);
        }
        lemma_join_first(parts, seq!['\n']);
        lemma_split_join(rest);
        assert forall|j: int| 0 <= j < parts[0].len() implies parts[0][j] != '\n' by {
            assert(parts[0][j] != '\n');
        }
        lemma_split_after_line(parts[0], join(rest, seq!['\n']));
        assert(seq![parts[0]] + rest =~= parts);
    }
}

proof fn lemma_trim_unchanged(s: Seq<char>)
    requires
        s.len() > 0,
        !is_white_space(s[0]),
        !is_white_space(s.last()),
    ensures
        trim(s) == s,
{
}

proof fn lemma_nonblank_rows_unchanged(lines: Seq<Seq<char>>)
    requires
        forall|i: int|
            0 <= i < lines.len() ==> trim(#[trigger] lines[i]) == lines[i] && lines[i].len() > 0,
    ensures
        nonblank_rows(lines) == lines,
    decreases lines.len(),
{
    if lines.len() > 0 {
        let rest = lines.drop_first();
        assert forall|i: int| 0 <= i < rest.len() implies trim(#[trigger] rest[i]) == rest[i]
            && rest[i].len() > 0 by {
            assert(rest[i] == lines[i + 1]);
        }
        lemma_nonblank_rows_unchanged(rest);
        assert(trim(lines[0]) == lines[0]);
        assert(seq![lines[0]] + rest =~= lines);
    } else {
        assert(lines =~= Seq::<Seq<char>>::empty());
    }
}

/// The character of a square is neither whitespace nor a newline, and reads
/// back as what the square holds.
proof fn lemma_square_char(square: Option<Piece>)
    ensures
        !is_white_space(square_char(square)),
        square_char(square) != '\n',
        piece_for_char(square_char(square)) == square,
        !is_bad_square(square_char(square)),
{
    match square {
        Some(piece) => {
            lemma_piece_char_round_trip(piece, '.');
        },
        None => {},
    }
}

/// Reading back the ascii text of any board gives that board: what
/// `to_ascii` writes, `from_ascii` reads as the same squares, white to move.
pub proof fn lemma_ascii_round_trip(board: Seq<Option<Piece>>)
    requires
        board.len() == 64,
    ensures
        from_ascii_spec(ascii_board(board)) == Ok::<Seq<Option<Piece>>, Seq<char>>(board),
{
    let rows = ascii_rows(board);
    assert forall|r: int, k: int| 0 <= r < 8 && 0 <= k < 8 implies {
        &&& !is_white_space(#[trigger] rows[r][k])
        &&& rows[r][k] != '\n'
        &&& !is_bad_square(rows[r][k])
    } by {
        lemma_square_char(board[(7 - r) * 8 + k]);
    }
    assert forall|i: int, j: int|
        0 <= i < rows.len() && 0 <= j < rows[i].len() implies #[trigger] rows[i][j] != '\n' by {
        assert(rows[i].len() == 8);
    }
    lemma_split_join(rows);
    assert forall|i: int| 0 <= i < rows.len() implies trim(#[trigger] rows[i]) == rows[i]
        && rows[i].len() > 0 by {
        assert(rows[i].len() == 8);
        assert(rows[i].last() == rows[i][7]);
        lemma_trim_unchanged(rows[i]);
    }
    lemma_nonblank_rows_unchanged(rows);
    assert(board_rows(ascii_board(board)) == rows);
    assert forall|r: int| 0 <= r < 8 implies #[trigger] row_ok(rows[r]) by {
        assert(rows[r].len() == 8);
    }
    lemma_rows_fault(rows, 0);
    assert forall|i: int| 0 <= i < 64 implies board_from_rows(rows)[i] == board[i] by {
        lemma_square_index(i, i % 8, i / 8);
        lemma_square_char(board[i]);
        assert(rows[7 - i / 8][i % 8] == square_char(board[(i / 8) * 8 + i % 8]));
    }
    assert(board_from_rows(rows) =~= board);
}

} // verus!

verus! {

/// A move passes the turn exactly when it is played; a move that no piece, or
/// more than one piece, could make leaves the position as it was.
pub proof fn lemma_play_turn(position: Position, action: Action)
    ensures
        play(position, action).1 == MoveOutcome::Played ==> play(position, action).0.side_to_move
            == opponent_of(position.side_to_move),
        play(position, action).1 != MoveOutcome::Played ==> play(position, action).0.side_to_move
            == position.side_to_move,
        (play(position, action).1 == MoveOutcome::NoPiece || play(position, action).1
            == MoveOutcome::Ambiguous) ==> play(position, action).0 == position,
{
}

} // verus!

verus! {

/// The message of a game state error, as it is shown to a user.
pub open spec fn fault_text(fault: GameStateFault) -> Seq<char> {
    match fault {
        GameStateFault::InvalidBoard(detail) => "invalid board: "@ + detail,
        GameStateFault::NoPieceForMove(san) => "no piece can play "@ + san,
        GameStateFault::AmbiguousMove(san) => "ambiguous move: "@ + san,
        GameStateFault::Grid(detail) => "grid error: "@ + detail,
    }
}

impl GameStateError {
    /// The error's message: what went wrong, followed by its detail.
    pub fn message(&self) -> (text: String)
        ensures
            text@ == fault_text(self@),
    {
        let (mut chars, detail) = match self {
            GameStateError::InvalidBoard(detail) => (chars_of("invalid board: "), detail),
            GameStateError::NoPieceForMove(san) => (chars_of("no piece can play "), san),
            GameStateError::AmbiguousMove(san) => (chars_of("ambiguous move: "), san),
            GameStateError::Grid(detail) => (chars_of("grid error: "), detail),
        };
        extend_with_str(&mut chars, detail.as_str());
        string_from(&chars)
    }
}

} // verus!

verus! {

/// Whether every origin holds `wanted` on a square of the board and agrees
/// with the file and rank hints.
pub open spec fn origins_fit(
    b: Seq<Option<Piece>>,
    origins: Seq<(int, int)>,
    wanted: Piece,
    source_file: Option<u8>,
    source_rank: Option<u8>,
) -> bool {
    forall|k: int|
        0 <= k < origins.len() ==> {
            let o = #[trigger] origins[k];
            &&& on_board(o.0, o.1)
            &&& at(b, o.0, o.1) == Some(wanted)
            &&& hint_allows(source_file, o.0)
            &&& hint_allows(source_rank, o.1)
        }
}

proof fn lemma_hinted_fit(
    b: Seq<Option<Piece>>,
    origins: Seq<(int, int)>,
    wanted: Piece,
    source_file: Option<u8>,
    source_rank: Option<u8>,
)
    requires
        origins_are_pieces(b, origins, wanted),
    ensures
        origins_fit(b, hinted(origins, source_file, source_rank), wanted, source_file, source_rank),
    decreases origins.len(),
{
    if origins.len() > 0 {
        let rest = origins.drop_last();
        assert(origins_are_pieces(b, rest, wanted)) by {
            assert forall|k: int| 0 <= k < rest.len() implies {
                let o = #[trigger] rest[k];
                on_board(o.0, o.1) && at(b, o.0, o.1) == Some(wanted)
            } by {
                assert(rest[k] == origins[k]);
            }
        }
        lemma_hinted_fit(b, rest, wanted, source_file, source_rank);
        let earlier = hinted(rest, source_file, source_rank);
        let last = origins.last();
        assert(origins[origins.len() - 1] == last);
        if hint_allows(source_file, last.0) && hint_allows(source_rank, last.1) {
            let now = earlier.push(last);
            assert forall|k: int| 0 <= k < now.len() implies {
                let o = #[trigger] now[k];
                &&& on_board(o.0, o.1)
                &&& at(b, o.0, o.1) == Some(wanted)
                &&& hint_allows(source_file, o.0)
                &&& hint_allows(source_rank, o.1)
            } by {
                if k < earlier.len() {
                    assert(now[k] == earlier[k]);
                }
            }
        }
    }
}

proof fn lemma_king_safe_fit(
    b: Seq<Option<Piece>>,
    color: Color,
    kind: PieceKind,
    origins: Seq<(int, int)>,
    destination_file: int,
    destination_rank: int,
    is_capture: bool,
    source_file: Option<u8>,
    source_rank: Option<u8>,
)
    requires
        origins_fit(b, origins, piece_of(color, kind), source_file, source_rank),
    ensures
        origins_fit(
            b,
            king_safe(b, color, kind, origins, destination_file, destination_rank, is_capture),
            piece_of(color, kind),
            source_file,
            source_rank,
        ),
    decreases origins.len(),
{
    if origins.len() > 0 {
        let wanted = piece_of(color, kind);
        let rest = origins.drop_last();
        assert(origins_fit(b, rest, wanted, source_file, source_rank)) by {
            assert forall|k: int| 0 <= k < rest.len() implies {
                let o = #[trigger] rest[k];
                &&& on_board(o.0, o.1)
                &&& at(b, o.0, o.1) == Some(wanted)
                &&& hint_allows(source_file, o.0)
                &&& hint_allows(source_rank, o.1)
            } by {
                assert(rest[k] == origins[k]);
            }
        }
        lemma_king_safe_fit(
            b,
            color,
            kind,
            rest,
            destination_file,
            destination_rank,
            is_capture,
            source_file,
            source_rank,
        );
        let earlier = king_safe(
            b,
            color,
            kind,
            rest,
            destination_file,
            destination_rank,
            is_capture,
        );
        let last = origins.last();
        assert(origins[origins.len() - 1] == last);
        let now = earlier.push(last);
        assert forall|k: int| 0 <= k < now.len() implies {
            let o = #[trigger] now[k];
            &&& on_board(o.0, o.1)
            &&& at(b, o.0, o.1) == Some(wanted)
            &&& hint_allows(source_file, o.0)
            &&& hint_allows(source_rank, o.1)
        } by {
            if k < earlier.len() {
                assert(now[k] == earlier[k]);
            }
        }
    }
}

/// The piece a move is resolved to is one of the mover's pieces of the
/// move's kind, on the board, on the file and rank the hints name.
pub proof fn lemma_resolved_origin(
    b: Seq<Option<Piece>>,
    color: Color,
    kind: PieceKind,
    destination_file: int,
    destination_rank: int,
    is_capture: bool,
    source_file: Option<u8>,
    source_rank: Option<u8>,
)
    requires
        b.len() == 64,
        on_board(destination_file, destination_rank),
    ensures
        resolve_spec(
            b,
            color,
            kind,
            destination_file,
            destination_rank,
            is_capture,
            source_file,
            source_rank,
        ) matches Ok((f, r)) ==> {
            &&& on_board(f, r)
            &&& at(b, f, r) == Some(piece_of(color, kind))
            &&& hint_allows(source_file, f)
            &&& hint_allows(source_rank, r)
        },
{
    let wanted = piece_of(color, kind);
    let all = candidates_spec(b, color, kind, destination_file, destination_rank, is_capture);
    lemma_candidates_on_board(b, color, kind, destination_file, destination_rank, is_capture);
    assert(origins_are_pieces(b, all, wanted));
    lemma_hinted_fit(b, all, wanted, source_file, source_rank);
    let allowed = hinted(all, source_file, source_rank);
    if allowed.len() > 1 {
        lemma_king_safe_fit(
            b,
            color,
            kind,
            allowed,
            destination_file,
            destination_rank,
            is_capture,
            source_file,
            source_rank,
        );
    }
}

/// After an ordinary move is played, its destination holds the mover's
/// piece, or the piece it promotes to, and the turn has passed.
pub proof fn lemma_play_places_piece(position: Position, action: Action)
    requires
        position.board.len() == 64,
        action.kind is Normal,
        on_board(
            action.kind->destination.file_index(),
            action.kind->destination.rank_index(),
        ),
        play(position, action).1 == MoveOutcome::Played,
    ensures
        ({
            let destination = action.kind->destination;
            let placed = match action.kind->promotion {
                Some(promoted) => piece_of(position.side_to_move, promoted),
                None => piece_of(position.side_to_move, action.kind->piece),
            };
            &&& play(position, action).0.board[destination.rank_index() * 8
                + destination.file_index()] == Some(placed)
            &&& play(position, action).0.board.len() == 64
            &&& play(position, action).0.side_to_move == opponent_of(position.side_to_move)
        }),
{
    let destination = action.kind->destination;
    lemma_resolved_origin(
        position.board,
        position.side_to_move,
        action.kind->piece,
        destination.file_index(),
        destination.rank_index(),
        action.kind->is_capture,
        action.kind->source_file,
        action.kind->source_rank,
    );
}

} // verus!

verus! {

/// Every move, played or not, leaves a board of 64 squares.
pub proof fn lemma_play_keeps_board(position: Position, action: Action)
    requires
        position.board.len() == 64,
        action.kind is Normal ==> on_board(
            action.kind->destination.file_index(),
            action.kind->destination.rank_index(),
        ),
    ensures
        play(position, action).0.board.len() == 64,
{
    if action.kind is Normal {
        let destination = action.kind->destination;
        lemma_resolved_origin(
            position.board,
            position.side_to_move,
            action.kind->piece,
            destination.file_index(),
            destination.rank_index(),
            action.kind->is_capture,
            action.kind->source_file,
            action.kind->source_rank,
        );
    }
}

} // verus!

verus! {

/// A board character that is a piece or a dot is the square character of
/// what it reads as.
proof fn lemma_char_square(c: char)
    requires
        !is_bad_square(c),
    ensures
        square_char(piece_for_char(c)) == c,
{
    if let Some(piece) = piece_for_char(c) {
        lemma_piece_char_round_trip(piece, c);
    }
}

/// Writing out a board that was read from ascii gives back the text's rows,
/// trimmed and without blank lines, joined by newlines: what `from_ascii`
/// reads, `to_ascii` writes back in normal form.
pub proof fn lemma_ascii_normal_form(text: Seq<char>)
    requires
        from_ascii_spec(text) is Ok,
    ensures
        ascii_board(from_ascii_spec(text)->Ok_0) == join(board_rows(text), seq!['\n']),
{
    let rows = board_rows(text);
    lemma_rows_fault(rows, 0);
    let board = board_from_rows(rows);
    assert(from_ascii_spec(text)->Ok_0 == board);
    assert forall|i: int| 0 <= i < 8 implies #[trigger] ascii_rows(board)[i] == rows[i] by {
        assert(row_ok(rows[i]));
        assert forall|f: int| 0 <= f < 8 implies ascii_rows(board)[i][f] == rows[i][f] by {
            let index = (7 - i) * 8 + f;
            lemma_square_index(index, f, 7 - i);
            assert(index / 8 == 7 - i && index % 8 == f);
            assert(board[index] == piece_for_char(rows[i][f]));
            assert(!is_bad_square(rows[i][f]));
            lemma_char_square(rows[i][f]);
        }
        assert(ascii_rows(board)[i] =~= rows[i]);
    }
    assert(ascii_rows(board) =~= rows);
}

/// Reading what `to_ascii` writes and writing it out again gives the same
/// text.
pub proof fn lemma_ascii_rewrite(board: Seq<Option<Piece>>)
    requires
        board.len() == 64,
    ensures
        from_ascii_spec(ascii_board(board)) is Ok,
        ascii_board(from_ascii_spec(ascii_board(board))->Ok_0) == ascii_board(board),
{
    lemma_ascii_round_trip(board);
}

} // verus!

verus! {

/// A move is played only when its hints, if any, name a file and a rank on
/// the board: a move with any other hint is refused, as no piece stands
/// there.
pub proof fn lemma_played_hints_on_board(position: Position, action: Action)
    requires
        position.board.len() == 64,
        action.kind is Normal ==> on_board(
            action.kind->destination.file_index(),
            action.kind->destination.rank_index(),
        ),
        play(position, action).1 == MoveOutcome::Played,
    ensures
        hints_on_board(action),
{
    if action.kind is Normal {
        let destination = action.kind->destination;
        lemma_resolved_origin(
            position.board,
            position.side_to_move,
            action.kind->piece,
            destination.file_index(),
            destination.rank_index(),
            action.kind->is_capture,
            action.kind->source_file,
            action.kind->source_rank,
        );
    }
}

} // verus!

verus! {

// ===========================================================================
// LAWS OF ATTACK AND EN PASSANT
// ===========================================================================

/// Walking from `(file, rank)` in steps of `step`, the `k`-th square is the
/// first occupied one, so the walk meets it.
proof fn lemma_ray_reaches(
    b: Seq<Option<Piece>>,
    file: int,
    rank: int,
    step: (int, int),
    fuel: nat,
    k: int,
)
    requires
        1 <= k <= fuel,
        forall|j: int|
            1 <= j < k ==> on_board(file + j * step.0, rank + j * step.1) && #[trigger] at(
                b,
                file + j * step.0,
                rank + j * step.1,
            ) is None,
        on_board(file + k * step.0, rank + k * step.1),
        at(b, file + k * step.0, rank + k * step.1) is Some,
    ensures
        ray_hit(b, file, rank, step, fuel) == Some((file + k * step.0, rank + k * step.1)),
    decreases k,
{
    assert(1 * step.0 == step.0 && 1 * step.1 == step.1) by (nonlinear_arith);
    if k > 1 {
        assert(on_board(file + 1 * step.0, rank + 1 * step.1) && at(
            b,
            file + 1 * step.0,
            rank + 1 * step.1,
        ) is None);
        let next_file = file + step.0;
        let next_rank = rank + step.1;
        assert forall|j: int|
            1 <= j < k - 1 implies on_board(next_file + j * step.0, next_rank + j * step.1)
            && #[trigger] at(b, next_file + j * step.0, next_rank + j * step.1) is None by {
            assert(next_file + j * step.0 == file + (j + 1) * step.0) by (nonlinear_arith)
                requires
                    next_file == file + step.0,
            ;
            assert(next_rank + j * step.1 == rank + (j + 1) * step.1) by (nonlinear_arith)
                requires
                    next_rank == rank + step.1,
            ;
            assert(at(b, file + (j + 1) * step.0, rank + (j + 1) * step.1) is None);
        }
        assert(next_file + (k - 1) * step.0 == file + k * step.0) by (nonlinear_arith)
            requires
                next_file == file + step.0,
        ;
        assert(next_rank + (k - 1) * step.1 == rank + k * step.1) by (nonlinear_arith)
            requires
                next_rank == rank + step.1,
        ;
        lemma_ray_reaches(b, next_file, next_rank, step, (fuel - 1) as nat, k - 1);
    }
}

/// A queen attacks along ranks, files and diagonals, a rook along ranks and
/// files, and a bishop along diagonals: whenever the first occupied square
/// met walking from `(file, rank)` in one of the eight directions
/// `(file_step, rank_step)` holds such a piece of colour `by`, the square is
/// attacked by `by`.
pub proof fn lemma_line_attackers(
    b: Seq<Option<Piece>>,
    file: int,
    rank: int,
    by: Color,
    file_step: int,
    rank_step: int,
    k: int,
)
    requires
        -1 <= file_step <= 1,
        -1 <= rank_step <= 1,
        file_step != 0 || rank_step != 0,
        1 <= k < 8,
        forall|j: int|
            1 <= j < k ==> on_board(file + j * file_step, rank + j * rank_step) && #[trigger] at(
                b,
                file + j * file_step,
                rank + j * rank_step,
            ) is None,
        on_board(file + k * file_step, rank + k * rank_step),
        ({
            let found = at(b, file + k * file_step, rank + k * rank_step);
            ||| found == Some(piece_of(by, PieceKind::Queen))
            ||| (file_step == 0 || rank_step == 0) && found == Some(piece_of(by, PieceKind::Rook))
            ||| (file_step != 0 && rank_step != 0) && found == Some(
                piece_of(by, PieceKind::Bishop),
            )
        }),
    ensures
        is_attacked_spec(b, file, rank, by),
{
    let step = (file_step, rank_step);
    lemma_ray_reaches(b, file, rank, step, 8, k);
    let hit = (file + k * file_step, rank + k * rank_step);
    let lines = if file_step == 0 || rank_step == 0 {
        Lines::Straight
    } else {
        Lines::Diagonal
    };
    let d: int = if lines == Lines::Straight {
        if step == (1int, 0int) {
            0
        } else if step == (-1int, 0int) {
            1
        } else if step == (0int, 1int) {
            2
        } else {
            3
        }
    } else {
        if step == (1int, 1int) {
            0
        } else if step == (1int, -1int) {
            1
        } else if step == (-1int, 1int) {
            2
        } else {
            3
        }
    };
    assert(direction(lines, d) == step);
    assert(first_on_line(b, file, rank, direction(lines, d)) == Some(hit));
    if lines == Lines::Straight {
        assert(line_attack(
            b,
            file,
            rank,
            Lines::Straight,
            piece_of(by, PieceKind::Queen),
            piece_of(by, PieceKind::Rook),
        ));
    } else {
        assert(line_attack(
            b,
            file,
            rank,
            Lines::Diagonal,
            piece_of(by, PieceKind::Queen),
            piece_of(by, PieceKind::Bishop),
        ));
    }
}

} // verus!

verus! {

// ===========================================================================
// EN PASSANT
// ===========================================================================

/// Whether every origin satisfies `p`.
pub open spec fn all_origins(origins: Seq<(int, int)>, p: spec_fn((int, int)) -> bool) -> bool {
    forall|k: int| 0 <= k < origins.len() ==> p(#[trigger] origins[k])
}

proof fn lemma_hinted_keeps(
    origins: Seq<(int, int)>,
    source_file: Option<u8>,
    source_rank: Option<u8>,
    p: spec_fn((int, int)) -> bool,
)
    requires
        all_origins(origins, p),
    ensures
        all_origins(hinted(origins, source_file, source_rank), p),
    decreases origins.len(),
{
    if origins.len() > 0 {
        let rest = origins.drop_last();
        assert(all_origins(rest, p)) by {
            assert forall|k: int| 0 <= k < rest.len() implies p(#[trigger] rest[k]) by {
                assert(rest[k] == origins[k]);
            }
        }
        lemma_hinted_keeps(rest, source_file, source_rank, p);
        let earlier = hinted(rest, source_file, source_rank);
        let last = origins.last();
        assert(p(origins[origins.len() - 1]));
        let now = earlier.push(last);
        assert forall|k: int| 0 <= k < now.len() implies p(#[trigger] now[k]) by {
            if k < earlier.len() {
                assert(now[k] == earlier[k]);
            }
        }
    }
}

proof fn lemma_king_safe_keeps(
    b: Seq<Option<Piece>>,
    color: Color,
    kind: PieceKind,
    origins: Seq<(int, int)>,
    destination_file: int,
    destination_rank: int,
    is_capture: bool,
    p: spec_fn((int, int)) -> bool,
)
    requires
        all_origins(origins, p),
    ensures
        all_origins(
            king_safe(b, color, kind, origins, destination_file, destination_rank, is_capture),
            p,
        ),
    decreases origins.len(),
{
    if origins.len() > 0 {
        let rest = origins.drop_last();
        assert(all_origins(rest, p)) by {
            assert forall|k: int| 0 <= k < rest.len() implies p(#[trigger] rest[k]) by {
                assert(rest[k] == origins[k]);
            }
        }
        lemma_king_safe_keeps(
            b,
            color,
            kind,
            rest,
            destination_file,
            destination_rank,
            is_capture,
            p,
        );
        let earlier = king_safe(
            b,
            color,
            kind,
            rest,
            destination_file,
            destination_rank,
            is_capture,
        );
        let last = origins.last();
        assert(p(origins[origins.len() - 1]));
        let now = earlier.push(last);
        assert forall|k: int| 0 <= k < now.len() implies p(#[trigger] now[k]) by {
            if k < earlier.len() {
                assert(now[k] == earlier[k]);
            }
        }
    }
}

/// An en passant capture, a pawn capture onto an empty square, takes the
/// pawn that stands beside the capturing pawn's starting square, on the rank
/// the capturing pawn started from, whichever side moves. When the move is
/// played, the capturing pawn came from a square diagonally behind the
/// destination, one rank back in its direction of travel; that square and
/// the one beside it on the destination file are emptied and the destination
/// gets the pawn (or the piece it promotes to), nothing else changing. When
/// the square beside is empty, the move stops and names that square.
pub proof fn lemma_en_passant(position: Position, action: Action)
    requires
        position.board.len() == 64,
        action.kind is Normal,
        action.kind->piece == PieceKind::Pawn,
        action.kind->is_capture,
        on_board(
            action.kind->destination.file_index(),
            action.kind->destination.rank_index(),
        ),
        at(
            position.board,
            action.kind->destination.file_index(),
            action.kind->destination.rank_index(),
        ) is None,
    ensures
        ({
            let b = position.board;
            let color = position.side_to_move;
            let to_file = action.kind->destination.file_index();
            let to_rank = action.kind->destination.rank_index();
            let from_rank = to_rank - pawn_step(color);
            let placed = match action.kind->promotion {
                Some(promoted) => piece_of(color, promoted),
                None => piece_of(color, PieceKind::Pawn),
            };
            let after = play(position, action);
            &&& after.1 == MoveOutcome::Played ==> exists|from_file: int|
                {
                    &&& (from_file == to_file - 1 || from_file == to_file + 1)
                    &&& on_board(from_file, from_rank)
                    &&& #[trigger] at(b, from_file, from_rank) == Some(
                        piece_of(color, PieceKind::Pawn),
                    )
                    &&& at(b, to_file, from_rank) is Some
                    &&& after.0.board == b.update(from_rank * 8 + from_file, None).update(
                        from_rank * 8 + to_file,
                        None,
                    ).update(to_rank * 8 + to_file, Some(placed))
                }
            &&& after.1 matches MoveOutcome::EmptySquare { file, rank } ==> file == to_file && rank
                == from_rank && at(b, to_file, from_rank) is None
        }),
{
    let b = position.board;
    let color = position.side_to_move;
    let destination = action.kind->destination;
    let to_file = destination.file_index();
    let to_rank = destination.rank_index();
    let source_file = action.kind->source_file;
    let source_rank = action.kind->source_rank;
    let step = pawn_step(color);
    lemma_resolved_origin(
        b,
        color,
        PieceKind::Pawn,
        to_file,
        to_rank,
        true,
        source_file,
        source_rank,
    );
    let p = |o: (int, int)| (o.0 == to_file - 1 || o.0 == to_file + 1) && o.1 == to_rank - step;
    let all = candidates_spec(b, color, PieceKind::Pawn, to_file, to_rank, true);
    assert(all_origins(all, p)) by {
        let pawn = Some(piece_of(color, PieceKind::Pawn));
        let left: Seq<(int, int)> = if at(b, to_file - 1, to_rank - step) == pawn {
            seq![(to_file - 1, to_rank - step)]
        } else {
            seq![]
        };
        let right: Seq<(int, int)> = if at(b, to_file + 1, to_rank - step) == pawn {
            seq![(to_file + 1, to_rank - step)]
        } else {
            seq![]
        };
        assert(all == left + right);
        assert forall|k: int| 0 <= k < all.len() implies p(#[trigger] all[k]) by {
            if k < left.len() {
                assert(all[k] == left[k]);
            } else {
                assert(all[k] == right[k - left.len()]);
            }
        }
    }
    lemma_hinted_keeps(all, source_file, source_rank, p);
    let allowed = hinted(all, source_file, source_rank);
    if allowed.len() > 1 {
        lemma_king_safe_keeps(b, color, PieceKind::Pawn, allowed, to_file, to_rank, true, p);
    }
    let remaining = if allowed.len() > 1 {
        king_safe(b, color, PieceKind::Pawn, allowed, to_file, to_rank, true)
    } else {
        allowed
    };
    if remaining.len() == 1 {
        let origin = remaining[0];
        assert(p(origin));
        let from_file = origin.0;
        let from_rank = origin.1;
        assert(from_file != to_file);
        let lifted = b.update(from_rank * 8 + from_file, None);
        assert(lifted[from_rank * 8 + to_file] == b[from_rank * 8 + to_file]);
        assert(at(b, to_file, from_rank) == b[from_rank * 8 + to_file]);
        if play(position, action).1 == MoveOutcome::Played {
            assert(at(b, from_file, from_rank) == Some(piece_of(color, PieceKind::Pawn)));
        }
    }
}

} // verus!

verus! {

// ===========================================================================
// PAWN, KNIGHT AND KING ATTACKS
// ===========================================================================

/// A pawn attacks the two squares diagonally in front of it (up the board
/// for White, down for Black), a knight the squares an L-shaped jump away,
/// and a king the eight squares around it: a piece of colour `by` standing
/// at `(file + file_offset, rank + rank_offset)` for such an offset attacks
/// `(file, rank)`.
pub proof fn lemma_near_attackers(
    b: Seq<Option<Piece>>,
    file: int,
    rank: int,
    by: Color,
    file_offset: int,
    rank_offset: int,
)
    requires
        ({
            let found = at(b, file + file_offset, rank + rank_offset);
            ||| (file_offset == 1 || file_offset == -1) && rank_offset == (if by == Color::White {
                -1int
            } else {
                1int
            }) && found == Some(piece_of(by, PieceKind::Pawn))
            ||| ((file_offset == 1 || file_offset == -1) && (rank_offset == 2 || rank_offset == -2)
                || (file_offset == 2 || file_offset == -2) && (rank_offset == 1 || rank_offset
                == -1)) && found == Some(piece_of(by, PieceKind::Knight))
            ||| -1 <= file_offset <= 1 && -1 <= rank_offset <= 1 && (file_offset != 0
                || rank_offset != 0) && found == Some(piece_of(by, PieceKind::King))
        }),
    ensures
        is_attacked_spec(b, file, rank, by),
{
    let found = at(b, file + file_offset, rank + rank_offset);
    let offset = (file_offset, rank_offset);
    if found == Some(piece_of(by, PieceKind::Knight)) && ((file_offset == 1 || file_offset == -1)
        && (rank_offset == 2 || rank_offset == -2) || (file_offset == 2 || file_offset == -2) && (
    rank_offset == 1 || rank_offset == -1)) {
        let k: int = if offset == (1int, 2int) {
            0
        } else if offset == (2int, 1int) {
            1
        } else if offset == (2int, -1int) {
            2
        } else if offset == (1int, -2int) {
            3
        } else if offset == (-1int, -2int) {
            4
        } else if offset == (-2int, -1int) {
            5
        } else if offset == (-2int, 1int) {
            6
        } else {
            7
        };
        assert(jump(Leaper::Knight, k) == offset);
        assert(at(b, file + jump(Leaper::Knight, k).0, rank + jump(Leaper::Knight, k).1) == Some(
            piece_of(by, PieceKind::Knight),
        ));
        assert(leap_attack(b, file, rank, piece_of(by, PieceKind::Knight), Leaper::Knight));
    } else if found == Some(piece_of(by, PieceKind::King)) && -1 <= file_offset <= 1 && -1
        <= rank_offset <= 1 && (file_offset != 0 || rank_offset != 0) {
        let k: int = if offset == (1int, 0int) {
            0
        } else if offset == (-1int, 0int) {
            1
        } else if offset == (0int, 1int) {
            2
        } else if offset == (0int, -1int) {
            3
        } else if offset == (1int, 1int) {
            4
        } else if offset == (1int, -1int) {
            5
        } else if offset == (-1int, 1int) {
            6
        } else {
            7
        };
        assert(jump(Leaper::King, k) == offset);
        assert(at(b, file + jump(Leaper::King, k).0, rank + jump(Leaper::King, k).1) == Some(
            piece_of(by, PieceKind::King),
        ));
        assert(leap_attack(b, file, rank, piece_of(by, PieceKind::King), Leaper::King));
    }
}

} // verus!

verus! {

// ===========================================================================
// WHERE A MOVING PIECE COMES FROM
// ===========================================================================

proof fn lemma_leap_origins_keep(
    b: Seq<Option<Piece>>,
    wanted: Piece,
    file: int,
    rank: int,
    leaper: Leaper,
    count: nat,
    p: spec_fn((int, int)) -> bool,
)
    requires
        forall|k: int|
            0 <= k < count ==> p(
                (file + #[trigger] jump(leaper, k).0, rank + jump(leaper, k).1),
            ),
    ensures
        all_origins(leap_origins(b, wanted, file, rank, leaper, count), p),
    decreases count,
{
    if count > 0 {
        lemma_leap_origins_keep(b, wanted, file, rank, leaper, (count - 1) as nat, p);
        let earlier = leap_origins(b, wanted, file, rank, leaper, (count - 1) as nat);
        let offset = jump(leaper, count - 1);
        let origin = (file + offset.0, rank + offset.1);
        assert(p(origin));
        let now = earlier.push(origin);
        assert forall|k: int| 0 <= k < now.len() implies p(#[trigger] now[k]) by {
            if k < earlier.len() {
                assert(now[k] == earlier[k]);
            }
        }
    }
}

/// The piece a pawn, knight or king move is resolved to stands where such a
/// piece moves from: a knight an L-shaped jump away from the destination, a
/// king next to it, a capturing pawn diagonally behind it (one rank back in
/// its direction of travel, which is up the board for White and down for
/// Black), and a pushed pawn on the same file one rank behind, or two ranks
/// behind with the square between empty.
pub proof fn lemma_resolved_geometry(
    b: Seq<Option<Piece>>,
    color: Color,
    kind: PieceKind,
    destination_file: int,
    destination_rank: int,
    is_capture: bool,
    source_file: Option<u8>,
    source_rank: Option<u8>,
)
    ensures
        resolve_spec(
            b,
            color,
            kind,
            destination_file,
            destination_rank,
            is_capture,
            source_file,
            source_rank,
        ) matches Ok((f, r)) ==> {
            let df = f - destination_file;
            let dr = r - destination_rank;
            let back: int = if color == Color::White {
                -1
            } else {
                1
            };
            &&& kind == PieceKind::Knight ==> ((df == 1 || df == -1) && (dr == 2 || dr == -2) || (df
                == 2 || df == -2) && (dr == 1 || dr == -1))
            &&& kind == PieceKind::King ==> -1 <= df <= 1 && -1 <= dr <= 1 && (df != 0 || dr != 0)
            &&& kind == PieceKind::Pawn && is_capture ==> (df == 1 || df == -1) && dr == back
            &&& kind == PieceKind::Pawn && !is_capture ==> df == 0 && (dr == back || dr == 2 * back
                && at(b, destination_file, destination_rank + back) is None)
        },
{
    let back: int = if color == Color::White {
        -1
    } else {
        1
    };
    let file = destination_file;
    let rank = destination_rank;
    let p = |o: (int, int)|
        {
            let df = o.0 - file;
            let dr = o.1 - rank;
            &&& kind == PieceKind::Knight ==> ((df == 1 || df == -1) && (dr == 2 || dr == -2) || (df
                == 2 || df == -2) && (dr == 1 || dr == -1))
            &&& kind == PieceKind::King ==> -1 <= df <= 1 && -1 <= dr <= 1 && (df != 0 || dr != 0)
            &&& kind == PieceKind::Pawn && is_capture ==> (df == 1 || df == -1) && dr == back
            &&& kind == PieceKind::Pawn && !is_capture ==> df == 0 && (dr == back || dr == 2 * back
                && at(b, file, rank + back) is None)
        };
    let wanted = piece_of(color, kind);
    let all = candidates_spec(b, color, kind, file, rank, is_capture);
    assert(all_origins(all, p)) by {
        if kind == PieceKind::Knight {
            assert forall|k: int| 0 <= k < 8 implies p(
                (file + #[trigger] jump(Leaper::Knight, k).0, rank + jump(Leaper::Knight, k).1),
            ) by {}
            lemma_leap_origins_keep(b, wanted, file, rank, Leaper::Knight, 8, p);
        } else if kind == PieceKind::King {
            assert forall|k: int| 0 <= k < 8 implies p(
                (file + #[trigger] jump(Leaper::King, k).0, rank + jump(Leaper::King, k).1),
            ) by {}
            lemma_leap_origins_keep(b, wanted, file, rank, Leaper::King, 8, p);
        } else if kind == PieceKind::Pawn {
            let step = pawn_step(color);
            let pawn = Some(piece_of(color, PieceKind::Pawn));
            if is_capture {
                let left: Seq<(int, int)> = if at(b, file - 1, rank - step) == pawn {
                    seq![(file - 1, rank - step)]
                } else {
                    seq![]
                };
                let right: Seq<(int, int)> = if at(b, file + 1, rank - step) == pawn {
                    seq![(file + 1, rank - step)]
                } else {
                    seq![]
                };
                assert(all == left + right);
                assert forall|k: int| 0 <= k < all.len() implies p(#[trigger] all[k]) by {
                    if k < left.len() {
                        assert(all[k] == left[k]);
                    } else {
                        assert(all[k] == right[k - left.len()]);
                    }
                }
            } else {
                assert forall|k: int| 0 <= k < all.len() implies p(#[trigger] all[k]) by {
                    assert(all.len() <= 1);
                }
            }
        }
    }
    lemma_hinted_keeps(all, source_file, source_rank, p);
    let allowed = hinted(all, source_file, source_rank);
    if allowed.len() > 1 {
        lemma_king_safe_keeps(b, color, kind, allowed, file, rank, is_capture, p);
    }
    let remaining = if allowed.len() > 1 {
        king_safe(b, color, kind, allowed, file, rank, is_capture)
    } else {
        allowed
    };
    if remaining.len() == 1 {
        assert(p(remaining[0]));
    }
}

} // verus!

verus! {

// ===========================================================================
// CASTLING
// ===========================================================================

/// Castling moves the king from the e-file of its home rank (the first rank
/// for White, the eighth for Black) two squares toward the rook, to g for
/// kingside and c for queenside, and the rook from the corner (h or a) to
/// the square the king crossed (f or d); nothing else changes and the turn
/// passes. If the king's square is empty the move is refused naming it and
/// nothing changes; if the rook's square is empty the move is refused naming
/// it, with the king already lifted.
pub proof fn lemma_castling(position: Position, action: Action)
    requires
        position.board.len() == 64,
        action.kind is CastleKingside || action.kind is CastleQueenside,
    ensures
        ({
            let b = position.board;
            let color = position.side_to_move;
            let home: int = if color == Color::White {
                0
            } else {
                7
            };
            let (rook_file, king_to, rook_to) = if action.kind is CastleKingside {
                (7int, 6int, 5int)
            } else {
                (0int, 2int, 3int)
            };
            let after = play(position, action);
            &&& at(b, 4, home) matches Some(king) ==> (at(b, rook_file, home) matches Some(rook)
                ==> after.1 == MoveOutcome::Played && after.0.side_to_move == opponent_of(color)
                && after.0.board == b.update(home * 8 + 4, None).update(
                home * 8 + rook_file,
                None,
            ).update(home * 8 + king_to, Some(king)).update(home * 8 + rook_to, Some(rook)))
            &&& at(b, 4, home) is None ==> after.1 == (MoveOutcome::EmptySquare {
                file: 4,
                rank: home,
            }) && after.0 == position
            &&& at(b, 4, home) is Some && at(b, rook_file, home) is None ==> after.1 == (
            MoveOutcome::EmptySquare { file: rook_file, rank: home }) && after.0.side_to_move
                == color && after.0.board == b.update(home * 8 + 4, None)
        }),
{
    let b = position.board;
    let color = position.side_to_move;
    let home: int = if color == Color::White {
        0
    } else {
        7
    };
    assert(home_rank(color) == home);
    let rook_file: int = if action.kind is CastleKingside {
        7
    } else {
        0
    };
    let lifted = b.update(home * 8 + 4, None);
    assert(lifted[home * 8 + rook_file] == b[home * 8 + rook_file]);
}

} // verus!

verus! {

// ===========================================================================
// WHERE A SLIDING PIECE COMES FROM
// ===========================================================================

/// The square `n` steps of `(file_step, rank_step)` away from `(file, rank)`.
pub open spec fn ray_square(file: int, rank: int, file_step: int, rank_step: int, n: int) -> (
    int,
    int,
) {
    (file + n * file_step, rank + n * rank_step)
}

/// Whether a bishop, rook or queen standing on `origin` slides to
/// `(file, rank)`: `origin` is some number of steps away along a diagonal (a
/// bishop), a rank or file (a rook), or either (a queen), and every square
/// strictly between is empty.
pub open spec fn slides_to(
    b: Seq<Option<Piece>>,
    file: int,
    rank: int,
    kind: PieceKind,
    origin: (int, int),
) -> bool {
    exists|file_step: int, rank_step: int, n: int|
        #[trigger] ray_square(file, rank, file_step, rank_step, n) == origin && 1 <= n && -1
            <= file_step <= 1 && -1 <= rank_step <= 1 && (file_step != 0 || rank_step != 0) && (
        kind == PieceKind::Rook ==> file_step == 0 || rank_step == 0) && (kind == PieceKind::Bishop
            ==> file_step != 0 && rank_step != 0) && forall|m: int|
            1 <= m < n ==> at(
                b,
                #[trigger] ray_square(file, rank, file_step, rank_step, m).0,
                ray_square(file, rank, file_step, rank_step, m).1,
            ) is None
}

proof fn lemma_ray_hit_shape(
    b: Seq<Option<Piece>>,
    file: int,
    rank: int,
    step: (int, int),
    fuel: nat,
)
    ensures
        ray_hit(b, file, rank, step, fuel) matches Some(o) ==> exists|n: int|
            1 <= n <= fuel && #[trigger] ray_square(file, rank, step.0, step.1, n) == o && forall|
                m: int,
            |
                1 <= m < n ==> at(
                    b,
                    #[trigger] ray_square(file, rank, step.0, step.1, m).0,
                    ray_square(file, rank, step.0, step.1, m).1,
                ) is None,
    decreases fuel,
{
    let next_file = file + step.0;
    let next_rank = rank + step.1;
    assert(ray_square(file, rank, step.0, step.1, 1) == (next_file, next_rank)) by (nonlinear_arith)
        requires
            next_file == file + step.0,
            next_rank == rank + step.1,
    ;
    if fuel > 0 && on_board(next_file, next_rank) && at(b, next_file, next_rank) is None {
        lemma_ray_hit_shape(b, next_file, next_rank, step, (fuel - 1) as nat);
        if let Some(o) = ray_hit(b, file, rank, step, fuel) {
            let n = choose|n: int|
                1 <= n <= fuel - 1 && #[trigger] ray_square(next_file, next_rank, step.0, step.1, n)
                    == o && forall|m: int|
                    1 <= m < n ==> at(
                        b,
                        #[trigger] ray_square(next_file, next_rank, step.0, step.1, m).0,
                        ray_square(next_file, next_rank, step.0, step.1, m).1,
                    ) is None;
            assert forall|m: int| 1 <= m + 1 < n + 1 implies ray_square(
                file,
                rank,
                step.0,
                step.1,
                m + 1,
            ) == ray_square(next_file, next_rank, step.0, step.1, m) by {
                assert(ray_square(file, rank, step.0, step.1, m + 1) == ray_square(
                    next_file,
                    next_rank,
                    step.0,
                    step.1,
                    m,
                )) by (nonlinear_arith)
                    requires
                        next_file == file + step.0,
                        next_rank == rank + step.1,
                ;
            }
            assert(ray_square(file, rank, step.0, step.1, n + 1) == ray_square(
                next_file,
                next_rank,
                step.0,
                step.1,
                n,
            )) by (nonlinear_arith)
                requires
                    next_file == file + step.0,
                    next_rank == rank + step.1,
            ;
            assert forall|m: int| 1 <= m < n + 1 implies at(
                b,
                #[trigger] ray_square(file, rank, step.0, step.1, m).0,
                ray_square(file, rank, step.0, step.1, m).1,
            ) is None by {
                if m > 1 {
                    let k = m - 1;
                    assert(ray_square(file, rank, step.0, step.1, k + 1) == ray_square(
                        next_file,
                        next_rank,
                        step.0,
                        step.1,
                        k,
                    ));
                }
            }
        }
    }
}

proof fn lemma_slide_origins_keep(
    b: Seq<Option<Piece>>,
    wanted: Piece,
    file: int,
    rank: int,
    kind: PieceKind,
    lines: Lines,
    count: nat,
)
    requires
        count <= 4,
        kind == PieceKind::Rook ==> lines == Lines::Straight,
        kind == PieceKind::Bishop ==> lines == Lines::Diagonal,
    ensures
        all_origins(
            slide_origins(b, wanted, file, rank, lines, count),
            |o: (int, int)| slides_to(b, file, rank, kind, o),
        ),
    decreases count,
{
    let p = |o: (int, int)| slides_to(b, file, rank, kind, o);
    if count > 0 {
        lemma_slide_origins_keep(b, wanted, file, rank, kind, lines, (count - 1) as nat);
        let earlier = slide_origins(b, wanted, file, rank, lines, (count - 1) as nat);
        let step = direction(lines, count - 1);
        lemma_ray_hit_shape(b, file, rank, step, 8);
        if let Some(o) = first_on_line(b, file, rank, step) {
            let n = choose|n: int|
                1 <= n <= 8 && #[trigger] ray_square(file, rank, step.0, step.1, n) == o && forall|
                    m: int,
                |
                    1 <= m < n ==> at(
                        b,
                        #[trigger] ray_square(file, rank, step.0, step.1, m).0,
                        ray_square(file, rank, step.0, step.1, m).1,
                    ) is None;
            assert(slides_to(b, file, rank, kind, o));
        }
        let now = slide_origins(b, wanted, file, rank, lines, count);
        assert forall|k: int| 0 <= k < now.len() implies p(#[trigger] now[k]) by {
            if k < earlier.len() {
                assert(now[k] == earlier[k]);
            }
        }
    }
}

/// The piece a bishop, rook or queen move is resolved to slides to the
/// destination: it stands some steps away along a diagonal (a bishop), a rank
/// or a file (a rook), or either (a queen), with every square between empty.
pub proof fn lemma_resolved_slide(
    b: Seq<Option<Piece>>,
    color: Color,
    kind: PieceKind,
    destination_file: int,
    destination_rank: int,
    is_capture: bool,
    source_file: Option<u8>,
    source_rank: Option<u8>,
)
    requires
        kind == PieceKind::Bishop || kind == PieceKind::Rook || kind == PieceKind::Queen,
    ensures
        resolve_spec(
            b,
            color,
            kind,
            destination_file,
            destination_rank,
            is_capture,
            source_file,
            source_rank,
        ) matches Ok(origin) ==> slides_to(b, destination_file, destination_rank, kind, origin),
{
    let file = destination_file;
    let rank = destination_rank;
    let p = |o: (int, int)| slides_to(b, file, rank, kind, o);
    let wanted = piece_of(color, kind);
    let all = candidates_spec(b, color, kind, file, rank, is_capture);
    if kind == PieceKind::Queen {
        lemma_slide_origins_keep(b, wanted, file, rank, kind, Lines::Diagonal, 4);
        lemma_slide_origins_keep(b, wanted, file, rank, kind, Lines::Straight, 4);
        let d = slide_origins(b, wanted, file, rank, Lines::Diagonal, 4);
        let s = slide_origins(b, wanted, file, rank, Lines::Straight, 4);
        assert forall|k: int| 0 <= k < all.len() implies p(#[trigger] all[k]) by {
            if k < d.len() {
                assert(all[k] == d[k]);
            } else {
                assert(all[k] == s[k - d.len()]);
            }
        }
    } else if kind == PieceKind::Rook {
        lemma_slide_origins_keep(b, wanted, file, rank, kind, Lines::Straight, 4);
    } else {
        lemma_slide_origins_keep(b, wanted, file, rank, kind, Lines::Diagonal, 4);
    }
    assert(all_origins(all, p));
    lemma_hinted_keeps(all, source_file, source_rank, p);
    let allowed = hinted(all, source_file, source_rank);
    if allowed.len() > 1 {
        lemma_king_safe_keeps(b, color, kind, allowed, file, rank, is_capture, p);
    }
    let remaining = if allowed.len() > 1 {
        king_safe(b, color, kind, allowed, file, rank, is_capture)
    } else {
        allowed
    };
    if remaining.len() == 1 {
        assert(p(remaining[0]));
    }
}

} // verus!
