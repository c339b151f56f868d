//! A parsed representation of a single chess move in Standard Algebraic
//! Notation (SAN).
//!
//! The representation is intentionally close to what SAN encodes rather than to
//! a fully resolved board change: SAN does not always spell out the origin
//! square (for example `Nf3`), so the source is stored as optional file and
//! rank hints. Resolving those hints into an exact origin square is the job of
//! the game state, not of this type.

use crate::parser::lemma_san_round_trip;
use crate::parser::parse_san_spec;
use crate::parser::writable;
use crate::parser::ParseFault;
use crate::text::push_char;
use vstd::prelude::*;

verus! {

/// The kind of a chess piece, independent of colour.
#[derive(Debug, Clone, Copy, PartialEq, Eq, Hash, Structural)]
pub enum PieceKind {
    Pawn,
    Knight,
    Bishop,
    Rook,
    Queen,
    King,
}

/// The SAN letter of a piece kind; a pawn has none.
pub open spec fn san_letter_of(kind: PieceKind) -> Option<char> {
    match kind {
        PieceKind::Pawn => None,
        PieceKind::Knight => Some('N'),
        PieceKind::Bishop => Some('B'),
        PieceKind::Rook => Some('R'),
        PieceKind::Queen => Some('Q'),
        PieceKind::King => Some('K'),
    }
}

impl PieceKind {
    /// The uppercase SAN letter for this piece. A pawn has no letter in SAN, so
    /// this returns `None` for a pawn.
    pub fn san_letter(self) -> (letter: Option<char>)
        ensures
            letter == san_letter_of(self),
    {
        match self {
            PieceKind::Pawn => None,
            PieceKind::Knight => Some('N'),
            PieceKind::Bishop => Some('B'),
            PieceKind::Rook => Some('R'),
            PieceKind::Queen => Some('Q'),
            PieceKind::King => Some('K'),
        }
    }
}

/// The file index of the origin square d4: files a..=h are 0..=7, so d = 3.
pub const ORIGIN_FILE_INDEX: i32 = 3;
/// The rank index of the origin square d4: ranks 1..=8 are 0..=7, so rank 4 is
/// index 3.
pub const ORIGIN_RANK_INDEX: i32 = 3;

/// A square on the board, as a zero-based file (0..=7 for a..=h) and a
/// zero-based rank (0..=7 for 1..=8).
///
/// On the origin-centered grid that holds the board, d4 is the origin `(0, 0)`:
/// files a..=h map to x = -3..=4 and ranks 1..=8 map to y = -3..=4, which is
/// exactly the extent of an 8 by 8 grid (see [`Square::x`] and [`Square::y`]).
#[derive(Debug, Clone, Copy, PartialEq, Eq, Hash, Structural)]
pub struct Square {
    pub(crate) file: u8,
    pub(crate) rank: u8,
}

impl Square {
    #[verifier::type_invariant]
    pub(crate) closed spec fn on_board(self) -> bool {
        self.file < 8 && self.rank < 8
    }

    /// The file index, as a mathematical integer.
    pub closed spec fn file_index(self) -> int {
        self.file as int
    }

    /// The rank index, as a mathematical integer.
    pub closed spec fn rank_index(self) -> int {
        self.rank as int
    }

    /// Builds a square from a zero-based file (0..=7 for a..=h) and a zero-based
    /// rank (0..=7 for 1..=8).
    pub fn new(file: u8, rank: u8) -> (square: Self)
        requires
            file < 8,
            rank < 8,
        ensures
            square.file_index() == file,
            square.rank_index() == rank,
            square == square_at(file, rank),
    {
        Square { file, rank }
    }

    /// The zero-based file (0..=7 for a..=h).
    pub fn file(self) -> (file: u8)
        ensures
            file == self.file_index(),
            file < 8,
    {
        proof {
            use_type_invariant(&self);
        }
        self.file
    }

    /// The zero-based rank (0..=7 for 1..=8).
    pub fn rank(self) -> (rank: u8)
        ensures
            rank == self.rank_index(),
            rank < 8,
    {
        proof {
            use_type_invariant(&self);
        }
        self.rank
    }

    /// The x coordinate of this square on the origin-centered grid (d4 is 0).
    pub fn x(self) -> (x: i32)
        ensures
            x == self.file_index() - ORIGIN_FILE_INDEX,
    {
        proof {
            use_type_invariant(&self);
        }
        self.file as i32 - ORIGIN_FILE_INDEX
    }

    /// The y coordinate of this square on the origin-centered grid (4 is 0).
    pub fn y(self) -> (y: i32)
        ensures
            y == self.rank_index() - ORIGIN_RANK_INDEX,
    {
        proof {
            use_type_invariant(&self);
        }
        self.rank as i32 - ORIGIN_RANK_INDEX
    }

    /// The square in algebraic notation, such as `e4`.
    pub fn to_algebraic(self) -> (text: String)
        ensures
            text@ == square_text(self),
    {
        proof {
            use_type_invariant(&self);
        }
        let mut text = String::new();
        push_char(&mut text, file_char(self.file));
        push_char(&mut text, rank_char(self.rank));
        text
    }
}

/// The square at a file and a rank.
pub closed spec fn square_at(file: u8, rank: u8) -> Square {
    Square { file, rank }
}

pub proof fn lemma_square_at(file: u8, rank: u8)
    ensures
        square_at(file, rank).file_index() == file,
        square_at(file, rank).rank_index() == rank,
{
}

/// Two squares are equal exactly when their files and ranks are.
pub proof fn lemma_square_ext(a: Square, b: Square)
    ensures
        (a == b) <==> (a.file_index() == b.file_index() && a.rank_index() == b.rank_index()),
{
}

/// The letter of a zero-based file: 0 is `a`.
pub open spec fn file_letter(file: int) -> char {
    (97 + file) as char
}

/// The digit of a zero-based rank: 0 is `1`.
pub open spec fn rank_digit(rank: int) -> char {
    (49 + rank) as char
}

/// The two characters that name a square.
pub open spec fn square_text(square: Square) -> Seq<char> {
    seq![file_letter(square.file_index()), rank_digit(square.rank_index())]
}

/// The letter of a file index that fits in a byte once offset from `a`.
pub fn file_char(file: u8) -> (c: char)
    requires
        file <= 158,
    ensures
        c == file_letter(file as int),
{
    (97u8 + file) as char
}

/// The digit of a rank index that fits in a byte once offset from `1`.
pub fn rank_char(rank: u8) -> (c: char)
    requires
        rank <= 206,
    ensures
        c == rank_digit(rank as int),
{
    (49u8 + rank) as char
}

/// Whether a move gives check, checkmate, or neither. This is cosmetic (it does
/// not change the board) but is kept so the SAN as written can be shown faithfully
/// in the move list.
#[derive(Debug, Clone, Copy, PartialEq, Eq, Hash, Structural)]
pub enum CheckIndicator {
    NoCheck,
    Check,
    Checkmate,
}

/// The SAN suffix of a check indicator.
pub open spec fn suffix_of(check: CheckIndicator) -> Seq<char> {
    match check {
        CheckIndicator::NoCheck => seq![],
        CheckIndicator::Check => seq!['+'],
        CheckIndicator::Checkmate => seq!['#'],
    }
}

impl CheckIndicator {
    /// The SAN suffix: nothing, `+` or `#`.
    pub fn suffix(self) -> (text: &'static str)
        ensures
            text@ == suffix_of(self),
    {
        proof {
            reveal_strlit("");
            reveal_strlit("+");
            reveal_strlit("#");
        }
        match self {
            CheckIndicator::NoCheck => "",
            CheckIndicator::Check => "+",
            CheckIndicator::Checkmate => "#",
        }
    }
}

/// The three structurally different kinds of move.
#[derive(Debug, Clone, Copy, PartialEq, Eq, Hash, Structural)]
pub enum ActionKind {
    /// Any ordinary move, including captures, en passant, and pawn promotions.
    Normal {
        piece: PieceKind,
        /// The origin file, if SAN specified it (disambiguation or a pawn
        /// capture such as `exd5`).
        source_file: Option<u8>,
        /// The origin rank, if SAN specified it (disambiguation).
        source_rank: Option<u8>,
        destination: Square,
        is_capture: bool,
        /// The piece a pawn promotes to, if this is a promotion.
        promotion: Option<PieceKind>,
    },
    CastleKingside,
    CastleQueenside,
}

/// A single fully parsed SAN move.
#[derive(Debug, Clone, Copy, PartialEq, Eq, Hash, Structural)]
pub struct Action {
    pub kind: ActionKind,
    pub check: CheckIndicator,
}

/// An optional letter, as zero or one characters.
pub open spec fn optional_char(c: Option<char>) -> Seq<char> {
    match c {
        Some(c) => seq![c],
        None => seq![],
    }
}

/// The SAN text of an ordinary move without its check suffix: the piece
/// letter, the file and rank hints, `x` for a capture, the destination, and
/// `=` with the promotion letter.
pub open spec fn normal_move_text(
    piece: PieceKind,
    source_file: Option<u8>,
    source_rank: Option<u8>,
    destination: Square,
    is_capture: bool,
    promotion: Option<PieceKind>,
) -> Seq<char> {
    optional_char(san_letter_of(piece)) + hint_text(source_file, source_rank) + (if is_capture {
        seq!['x']
    } else {
        seq![]
    }) + square_text(destination) + promotion_text(promotion)
}

/// The file and rank hints of a move, as written in SAN.
pub open spec fn hint_text(source_file: Option<u8>, source_rank: Option<u8>) -> Seq<char> {
    let file_part = match source_file {
        Some(file) => seq![file_letter(file as int)],
        None => seq![],
    };
    let rank_part = match source_rank {
        Some(rank) => seq![rank_digit(rank as int)],
        None => seq![],
    };
    file_part + rank_part
}

/// The promotion part of a move, `=` and the letter, or nothing.
pub open spec fn promotion_text(promotion: Option<PieceKind>) -> Seq<char> {
    match promotion {
        Some(kind) => match san_letter_of(kind) {
            Some(letter) => seq!['=', letter],
            None => seq![],
        },
        None => seq![],
    }
}

/// The SAN text of a move.
pub open spec fn san_text(action: Action) -> Seq<char> {
    match action.kind {
        ActionKind::CastleKingside => seq!['O', '-', 'O'] + suffix_of(action.check),
        ActionKind::CastleQueenside => seq!['O', '-', 'O', '-', 'O'] + suffix_of(action.check),
        ActionKind::Normal { piece, source_file, source_rank, destination, is_capture, promotion } =>
            normal_move_text(piece, source_file, source_rank, destination, is_capture, promotion)
                + suffix_of(action.check),
    }
}

/// Whether the hints of a move can be written as a letter and a digit.
pub open spec fn hints_printable(action: Action) -> bool {
    match action.kind {
        ActionKind::Normal { source_file, source_rank, .. } => {
            (source_file matches Some(f) ==> f <= 158) && (source_rank matches Some(r) ==> r <= 206)
        },
        _ => true,
    }
}

fn push_hints(text: &mut String, source_file: Option<u8>, source_rank: Option<u8>)
    requires
        source_file matches Some(f) ==> f <= 158,
        source_rank matches Some(r) ==> r <= 206,
    ensures
        final(text)@ == old(text)@ + hint_text(source_file, source_rank),
{
    if let Some(file) = source_file {
        push_char(text, file_char(file));
    }
    if let Some(rank) = source_rank {
        push_char(text, rank_char(rank));
    }
    proof {
        assert(text@ =~= old(text)@ + hint_text(source_file, source_rank));
    }
}

fn push_promotion(text: &mut String, promotion: Option<PieceKind>)
    ensures
        final(text)@ == old(text)@ + promotion_text(promotion),
{
    if let Some(promoted) = promotion {
        if let Some(letter) = promoted.san_letter() {
            push_char(text, '=');
            push_char(text, letter);
        }
    }
    proof {
        assert(text@ =~= old(text)@ + promotion_text(promotion));
    }
}

fn push_suffix(text: &mut String, check: CheckIndicator)
    ensures
        final(text)@ == old(text)@ + suffix_of(check),
{
    match check {
        CheckIndicator::NoCheck => {},
        CheckIndicator::Check => push_char(text, '+'),
        CheckIndicator::Checkmate => push_char(text, '#'),
    }
    proof {
        assert(text@ =~= old(text)@ + suffix_of(check));
    }
}

impl Action {
    pub fn new(kind: ActionKind, check: CheckIndicator) -> (action: Self)
        ensures
            action.kind == kind,
            action.check == check,
    {
        Action { kind, check }
    }

    /// Reconstructs the SAN text for the move so it can be shown in the move
    /// list. A move whose hints and destination are on the board, and that
    /// does not promote to a pawn, reads back from this text as itself.
    pub fn to_san(&self) -> (text: String)
        requires
            hints_printable(*self),
        ensures
            text@ == san_text(*self),
            writable(*self) ==> parse_san_spec(text@) == Ok::<Action, ParseFault>(*self),
    {
        proof {
            if writable(*self) {
                lemma_san_round_trip(*self);
            }
        }
        let mut text = String::new();
        match self.kind {
            ActionKind::CastleKingside => {
                push_char(&mut text, 'O');
                push_char(&mut text, '-');
                push_char(&mut text, 'O');
                proof {
                    assert(text@ =~= seq!['O', '-', 'O']);
                }
            },
            ActionKind::CastleQueenside => {
                push_char(&mut text, 'O');
                push_char(&mut text, '-');
                push_char(&mut text, 'O');
                push_char(&mut text, '-');
                push_char(&mut text, 'O');
                proof {
                    assert(text@ =~= seq!['O', '-', 'O', '-', 'O']);
                }
            },
            ActionKind::Normal {
                piece,
                source_file,
                source_rank,
                destination,
                is_capture,
                promotion,
            } => {
                if let Some(letter) = piece.san_letter() {
                    push_char(&mut text, letter);
                }
                proof {
                    assert(text@ =~= optional_char(san_letter_of(piece)));
                }
                push_hints(&mut text, source_file, source_rank);
                if is_capture {
                    push_char(&mut text, 'x');
                }
                let square = destination.to_algebraic();
                text.append(square.as_str());
                push_promotion(&mut text, promotion);
                proof {
                    assert(text@ =~= normal_move_text(
                        piece,
                        source_file,
                        source_rank,
                        destination,
                        is_capture,
                        promotion,
                    ));
                }
            },
        }
        push_suffix(&mut text, self.check);
        text
    }
}

} // verus!
