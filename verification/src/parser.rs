//! A parser that turns PGN text into games.
//!
//! A PGN file may hold any number of games, so [`PgnParser::parse`] returns a
//! [`ParsedGame`] per game rather than a single move list. Each game carries its
//! moves and, when the file names it, a display name built from the tag pairs.
//!
//! The parser works under the assumption that the input describes legal games,
//! so it does not check whether a move is actually playable. It does, however,
//! reject text that is not well-formed SAN.
//!
//! The text is read character by character. Every character that delimits
//! anything in PGN is ASCII, so reading characters rather than UTF-8 bytes
//! splits the text at exactly the same places.

use crate::action::hint_text;
use crate::action::lemma_square_at;
use crate::action::lemma_square_ext;
use crate::action::normal_move_text;
use crate::action::optional_char;
use crate::action::promotion_text;
use crate::action::san_letter_of;
use crate::action::san_text;
use crate::action::square_text;
use crate::action::suffix_of;
use crate::action::square_at;
use crate::action::Action;
use crate::action::ActionKind;
use crate::action::CheckIndicator;
use crate::action::PieceKind;
use crate::action::Square;
use crate::text::ascii_upper;
use crate::text::eq_ignore_ascii_case;
use crate::text::equal_ignoring_ascii_case;
use crate::text::join;
use crate::text::join_chars;
use crate::text::trim;
use crate::text::trimmed;
use crate::text::chars_of;
use crate::text::digit;
use crate::text::to_upper;
use crate::text::extend_chars;
use crate::text::extend_with_str;
use crate::text::slice_chars;
use crate::text::string_from;
use crate::text::is_digit;
use vstd::prelude::*;

verus! {

// ===========================================================================
// LEXICAL SPECIFICATION
// ===========================================================================

/// Whitespace between PGN tokens.
pub open spec fn is_blank(c: char) -> bool {
    c == ' ' || c == '\t' || c == '\r' || c == '\n'
}

/// Characters that end a whitespace-delimited word. Comments and variations
/// may be written flush against a move, so they terminate a word too.
pub open spec fn is_word_end_char(c: char) -> bool {
    is_blank(c) || c == '{' || c == '}' || c == '(' || c == ')' || c == '[' || c == ']' || c
        == ';'
}

/// Characters allowed in a tag name.
pub open spec fn is_tag_name_char(c: char) -> bool {
    ('a' <= c && c <= 'z') || ('A' <= c && c <= 'Z') || ('0' <= c && c <= '9') || c == '_'
}

/// The position just past the `}` that closes a brace comment starting at or
/// after `i`, or the end of the text for an unterminated comment.
pub open spec fn brace_end(s: Seq<char>, i: int) -> int
    decreases s.len() - i,
{
    if i >= s.len() {
        s.len() as int
    } else if s[i] == '}' {
        i + 1
    } else {
        brace_end(s, i + 1)
    }
}

/// The position of the first newline at or after `i`, or the end of the text.
pub open spec fn line_end(s: Seq<char>, i: int) -> int
    decreases s.len() - i,
{
    if i >= s.len() {
        s.len() as int
    } else if s[i] == '\n' {
        i
    } else {
        line_end(s, i + 1)
    }
}

/// The first position at or after `i` that does not hold an ASCII digit.
pub open spec fn digits_end(s: Seq<char>, i: int) -> int
    decreases s.len() - i,
{
    if i >= s.len() {
        s.len() as int
    } else if is_digit(s[i]) {
        digits_end(s, i + 1)
    } else {
        i
    }
}

/// The first position at or after `i` that ends a word.
pub open spec fn word_end(s: Seq<char>, i: int) -> int
    decreases s.len() - i,
{
    if i >= s.len() {
        s.len() as int
    } else if is_word_end_char(s[i]) {
        i
    } else {
        word_end(s, i + 1)
    }
}

/// The first position at or after `i` that is not a space or a tab.
pub open spec fn spaces_end(s: Seq<char>, i: int) -> int
    decreases s.len() - i,
{
    if i >= s.len() {
        s.len() as int
    } else if s[i] == ' ' || s[i] == '\t' {
        spaces_end(s, i + 1)
    } else {
        i
    }
}

/// The first position at or after `i` that cannot be part of a tag name.
pub open spec fn tag_name_end(s: Seq<char>, i: int) -> int
    decreases s.len() - i,
{
    if i >= s.len() {
        s.len() as int
    } else if is_tag_name_char(s[i]) {
        tag_name_end(s, i + 1)
    } else {
        i
    }
}

pub proof fn lemma_brace_end(s: Seq<char>, i: int)
    requires
        0 <= i <= s.len(),
    ensures
        i <= brace_end(s, i) <= s.len(),
        i < s.len() ==> i < brace_end(s, i),
    decreases s.len() - i,
{
    if i < s.len() && s[i] != '}' {
        lemma_brace_end(s, i + 1);
    }
}

pub proof fn lemma_line_end(s: Seq<char>, i: int)
    requires
        0 <= i <= s.len(),
    ensures
        i <= line_end(s, i) <= s.len(),
        i < s.len() && s[i] != '\n' ==> i < line_end(s, i),
    decreases s.len() - i,
{
    if i < s.len() && s[i] != '\n' {
        lemma_line_end(s, i + 1);
    }
}

pub proof fn lemma_digits_end(s: Seq<char>, i: int)
    requires
        0 <= i <= s.len(),
    ensures
        i <= digits_end(s, i) <= s.len(),
    decreases s.len() - i,
{
    if i < s.len() && is_digit(s[i]) {
        lemma_digits_end(s, i + 1);
    }
}

pub proof fn lemma_word_end(s: Seq<char>, i: int)
    requires
        0 <= i <= s.len(),
    ensures
        i <= word_end(s, i) <= s.len(),
        i < s.len() && !is_word_end_char(s[i]) ==> i < word_end(s, i),
        forall|k: int| i <= k < word_end(s, i) ==> !is_word_end_char(#[trigger] s[k]),
    decreases s.len() - i,
{
    if i < s.len() && !is_word_end_char(s[i]) {
        lemma_word_end(s, i + 1);
    }
}

pub proof fn lemma_spaces_end(s: Seq<char>, i: int)
    requires
        0 <= i <= s.len(),
    ensures
        i <= spaces_end(s, i) <= s.len(),
    decreases s.len() - i,
{
    if i < s.len() && (s[i] == ' ' || s[i] == '\t') {
        lemma_spaces_end(s, i + 1);
    }
}

pub proof fn lemma_tag_name_end(s: Seq<char>, i: int)
    requires
        0 <= i <= s.len(),
    ensures
        i <= tag_name_end(s, i) <= s.len(),
        forall|k: int| i <= k < tag_name_end(s, i) ==> is_tag_name_char(#[trigger] s[k]),
    decreases s.len() - i,
{
    if i < s.len() && is_tag_name_char(s[i]) {
        lemma_tag_name_end(s, i + 1);
    }
}

/// The position just past a recursive variation whose opening parenthesis has
/// already been read, `depth` levels deep. Comments inside the variation are
/// skipped whole, so a parenthesis inside a comment does not count.
pub open spec fn variation_end(s: Seq<char>, i: int, depth: nat) -> int
    decreases s.len() - i,
{
    if i < 0 || i >= s.len() {
        s.len() as int
    } else if s[i] == '(' {
        variation_end(s, i + 1, depth + 1)
    } else if s[i] == ')' {
        if depth <= 1 {
            i + 1
        } else {
            variation_end(s, i + 1, (depth - 1) as nat)
        }
    } else if s[i] == '{' {
        let next = brace_end(s, i);
        proof {
            lemma_brace_end(s, i);
        }
        variation_end(s, next, depth)
    } else if s[i] == ';' {
        let next = line_end(s, i);
        proof {
            lemma_line_end(s, i);
        }
        variation_end(s, next, depth)
    } else {
        variation_end(s, i + 1, depth)
    }
}

pub proof fn lemma_variation_end(s: Seq<char>, i: int, depth: nat)
    requires
        0 <= i <= s.len(),
    ensures
        i <= variation_end(s, i, depth) <= s.len(),
    decreases s.len() - i,
{
    if i < s.len() {
        if s[i] == '(' {
            lemma_variation_end(s, i + 1, depth + 1);
        } else if s[i] == ')' {
            if depth > 1 {
                lemma_variation_end(s, i + 1, (depth - 1) as nat);
            }
        } else if s[i] == '{' {
            lemma_brace_end(s, i);
            lemma_variation_end(s, brace_end(s, i), depth);
        } else if s[i] == ';' {
            lemma_line_end(s, i);
            lemma_variation_end(s, line_end(s, i), depth);
        } else {
            lemma_variation_end(s, i + 1, depth);
        }
    }
}

// ===========================================================================
// LEXICAL SCANNING
// ===========================================================================

fn skip_brace_comment(s: &Vec<char>, index: &mut usize)
    requires
        *old(index) <= s.len(),
    ensures
        *final(index) == brace_end(s@, *old(index) as int),
{
    while *index < s.len() && s[*index] != '}'
        invariant
            *index <= s.len(),
            brace_end(s@, *old(index) as int) == brace_end(s@, *index as int),
        decreases s.len() - *index,
    {
        *index += 1;
    }
    if *index < s.len() {
        *index += 1;
    }
}

fn skip_to_end_of_line(s: &Vec<char>, index: &mut usize)
    requires
        *old(index) <= s.len(),
    ensures
        *final(index) == line_end(s@, *old(index) as int),
{
    while *index < s.len() && s[*index] != '\n'
        invariant
            *index <= s.len(),
            line_end(s@, *old(index) as int) == line_end(s@, *index as int),
        decreases s.len() - *index,
    {
        *index += 1;
    }
}

/// Skips a recursive variation, including any nested variations and any
/// comments inside it (which may themselves contain parentheses). `index`
/// is on the opening parenthesis.
fn skip_variation(s: &Vec<char>, index: &mut usize)
    requires
        *old(index) < s.len(),
        s@[*old(index) as int] == '(',
    ensures
        *final(index) == variation_end(s@, *old(index) + 1, 1),
{
    let ghost target = variation_end(s@, *old(index) + 1, 1);
    let mut depth: usize = 1;
    *index += 1;
    while *index < s.len()
        invariant
            *index <= s.len(),
            1 <= depth <= *index,
            variation_end(s@, *index as int, depth as nat) == target,
            target == variation_end(s@, *old(index) + 1, 1),
        decreases s.len() - *index,
    {
        let c = s[*index];
        if c == '(' {
            depth += 1;
            *index += 1;
        } else if c == ')' {
            let ghost at = *index as int;
            *index += 1;
            if depth == 1 {
                assert(variation_end(s@, at, 1) == *index);
                return;
            }
            depth -= 1;
        } else if c == '{' {
            proof {
                lemma_brace_end(s@, *index as int);
            }
            skip_brace_comment(s, index);
        } else if c == ';' {
            proof {
                lemma_line_end(s@, *index as int);
            }
            skip_to_end_of_line(s, index);
        } else {
            *index += 1;
        }
    }
}

} // verus!

verus! {

// ===========================================================================
// ERRORS
// ===========================================================================

/// Errors that can occur while parsing PGN.
#[derive(Debug, Clone, PartialEq, Eq)]
#[non_exhaustive]
pub enum ParseError {
    /// A move token was empty after stripping annotations.
    EmptyMove,
    /// A token could not be understood as a SAN move.
    UnrecognizedMove(String),
    /// A move token did not end in a valid destination square.
    MissingDestination(String),
    /// A promotion target was missing or not a real piece.
    InvalidPromotion { token: String, piece: char },
    /// A tag pair was not of the form `[Name "value"]`.
    MalformedTag(String),
}

/// What a [`ParseError`] says, with its texts as character sequences.
pub enum ParseFault {
    EmptyMove,
    UnrecognizedMove(Seq<char>),
    MissingDestination(Seq<char>),
    InvalidPromotion(Seq<char>, char),
    MalformedTag(Seq<char>),
}

impl View for ParseError {
    type V = ParseFault;

    open spec fn view(&self) -> ParseFault {
        match self {
            ParseError::EmptyMove => ParseFault::EmptyMove,
            ParseError::UnrecognizedMove(token) => ParseFault::UnrecognizedMove(token@),
            ParseError::MissingDestination(token) => ParseFault::MissingDestination(token@),
            ParseError::InvalidPromotion { token, piece } => ParseFault::InvalidPromotion(
                token@,
                *piece,
            ),
            ParseError::MalformedTag(detail) => ParseFault::MalformedTag(detail@),
        }
    }
}

/// The detail of a tag pair with no name.
pub open spec fn missing_name_detail() -> Seq<char> {
    "missing tag name"@
}

/// The detail of a malformed tag pair named `name`: `tag "name" ` then `what`.
pub open spec fn tag_detail(name: Seq<char>, what: Seq<char>) -> Seq<char> {
    "tag \""@ + name + "\" "@ + what
}

pub open spec fn no_value_text() -> Seq<char> {
    "has no quoted value"@
}

pub open spec fn unterminated_text() -> Seq<char> {
    "has an unterminated value"@
}

pub open spec fn unclosed_text() -> Seq<char> {
    "is not closed with ']'"@
}

fn tag_error(name: &Vec<char>, what: &str) -> (error: ParseError)
    ensures
        error@ == ParseFault::MalformedTag(tag_detail(name@, what@)),
{
    let mut detail: Vec<char> = Vec::new();
    extend_with_str(&mut detail, "tag \"");
    extend_chars(&mut detail, name);
    extend_with_str(&mut detail, "\" ");
    extend_with_str(&mut detail, what);
    proof {
        assert(detail@ =~= tag_detail(name@, what@));
    }
    ParseError::MalformedTag(string_from(&detail))
}

// ===========================================================================
// TAG PAIRS
// ===========================================================================

/// Reads a quoted tag value whose opening quote has been read, up to and past
/// its closing quote. A backslash before a quote or a backslash escapes it; any
/// other character, a lone backslash included, stands for itself. The result
/// is the value and the position after the closing quote, or `None` if the
/// text ends first.
pub open spec fn tag_value_scan(s: Seq<char>, j: int) -> Option<(Seq<char>, int)>
    decreases s.len() - j,
{
    if j < 0 || j >= s.len() {
        None
    } else if s[j] == '"' {
        Some((seq![], j + 1))
    } else if s[j] == '\\' && j + 1 < s.len() && (s[j + 1] == '"' || s[j + 1] == '\\') {
        match tag_value_scan(s, j + 2) {
            Some((value, end)) => Some((seq![s[j + 1]] + value, end)),
            None => None,
        }
    } else {
        match tag_value_scan(s, j + 1) {
            Some((value, end)) => Some((seq![s[j]] + value, end)),
            None => None,
        }
    }
}

pub proof fn lemma_tag_value_scan(s: Seq<char>, j: int)
    requires
        0 <= j,
    ensures
        tag_value_scan(s, j) matches Some((_, end)) ==> j < end <= s.len(),
    decreases s.len() - j,
{
    if 0 <= j < s.len() && s[j] != '"' {
        if s[j] == '\\' && j + 1 < s.len() && (s[j + 1] == '"' || s[j + 1] == '\\') {
            lemma_tag_value_scan(s, j + 2);
        } else {
            lemma_tag_value_scan(s, j + 1);
        }
    }
}

/// Reads the `[Name "value"]` tag pair that starts at `i`: the name, the
/// value, and the position after the closing bracket.
pub open spec fn read_tag_spec(s: Seq<char>, i: int) -> Result<
    (Seq<char>, Seq<char>, int),
    ParseFault,
> {
    let name_start = spaces_end(s, i + 1);
    let name_end = tag_name_end(s, name_start);
    let name = s.subrange(name_start, name_end);
    if name_end == name_start {
        Err(ParseFault::MalformedTag(missing_name_detail()))
    } else {
        let quote = spaces_end(s, name_end);
        if quote >= s.len() || s[quote] != '"' {
            Err(ParseFault::MalformedTag(tag_detail(name, no_value_text())))
        } else {
            match tag_value_scan(s, quote + 1) {
                None => Err(ParseFault::MalformedTag(tag_detail(name, unterminated_text()))),
                Some((value, value_end)) => {
                    let close = spaces_end(s, value_end);
                    if close >= s.len() || s[close] != ']' {
                        Err(ParseFault::MalformedTag(tag_detail(name, unclosed_text())))
                    } else {
                        Ok((name, value, close + 1))
                    }
                },
            }
        }
    }
}

pub proof fn lemma_read_tag(s: Seq<char>, i: int)
    requires
        0 <= i < s.len(),
    ensures
        read_tag_spec(s, i) matches Ok((_, _, end)) ==> i < end <= s.len(),
{
    lemma_spaces_end(s, i + 1);
    let name_start = spaces_end(s, i + 1);
    lemma_tag_name_end(s, name_start);
    let name_end = tag_name_end(s, name_start);
    lemma_spaces_end(s, name_end);
    let quote = spaces_end(s, name_end);
    if quote < s.len() {
        lemma_tag_value_scan(s, quote + 1);
        if let Some((_, value_end)) = tag_value_scan(s, quote + 1) {
            lemma_spaces_end(s, value_end);
        }
    }
}

fn skip_spaces(s: &Vec<char>, index: &mut usize)
    requires
        *old(index) <= s.len(),
    ensures
        *final(index) == spaces_end(s@, *old(index) as int),
{
    while *index < s.len() && (s[*index] == ' ' || s[*index] == '\t')
        invariant
            *index <= s.len(),
            spaces_end(s@, *old(index) as int) == spaces_end(s@, *index as int),
        decreases s.len() - *index,
    {
        *index += 1;
    }
}

fn is_name_char(c: char) -> (r: bool)
    ensures
        r == is_tag_name_char(c),
{
    ('a' <= c && c <= 'z') || ('A' <= c && c <= 'Z') || ('0' <= c && c <= '9') || c == '_'
}

/// Reads a `[Name "value"]` tag pair, honouring the quote and backslash
/// escapes inside the value so that a value containing a bracket cannot end
/// the tag early.
fn read_tag(s: &Vec<char>, index: &mut usize) -> (r: Result<(Vec<char>, Vec<char>), ParseError>)
    requires
        *old(index) < s.len(),
    ensures
        match read_tag_spec(s@, *old(index) as int) {
            Ok((name, value, end)) => r matches Ok((n, v)) && n@ == name && v@ == value
                && *final(index) == end,
            Err(fault) => r matches Err(e) && e@ == fault,
        },
{
    let ghost start = *old(index) as int;
    *index += 1;
    proof {
        lemma_spaces_end(s@, start + 1);
    }
    skip_spaces(s, index);
    let name_start = *index;
    while *index < s.len() && is_name_char(s[*index])
        invariant
            name_start <= *index <= s.len(),
            tag_name_end(s@, name_start as int) == tag_name_end(s@, *index as int),
        decreases s.len() - *index,
    {
        *index += 1;
    }
    let name = slice_chars(s, name_start, *index);
    if *index == name_start {
        let mut detail: Vec<char> = Vec::new();
        extend_with_str(&mut detail, "missing tag name");
        return Err(ParseError::MalformedTag(string_from(&detail)));
    }
    proof {
        lemma_spaces_end(s@, *index as int);
    }
    skip_spaces(s, index);
    if *index >= s.len() || s[*index] != '"' {
        return Err(tag_error(&name, "has no quoted value"));
    }
    *index += 1;
    let ghost value_start = *index as int;
    let mut value: Vec<char> = Vec::new();
    assert(tag_value_scan(s@, value_start) is None ==> read_tag_spec(s@, start) == Err::<
        (Seq<char>, Seq<char>, int),
        ParseFault,
    >(ParseFault::MalformedTag(tag_detail(name@, unterminated_text()))));
    loop
        invariant_except_break
            start == *old(index) as int,
            value_start <= *index <= s.len(),
            tag_value_scan(s@, value_start) is None ==> read_tag_spec(s@, start) == Err::<
                (Seq<char>, Seq<char>, int),
                ParseFault,
            >(ParseFault::MalformedTag(tag_detail(name@, unterminated_text()))),
            tag_value_scan(s@, value_start) == match tag_value_scan(s@, *index as int) {
                Some((rest, end)) => Some((value@ + rest, end)),
                None => None,
            },
        ensures
            value_start <= *index <= s.len(),
            tag_value_scan(s@, value_start) == Some((value@, *index as int)),
        decreases s.len() - *index,
    {
        if *index >= s.len() {
            assert(tag_value_scan(s@, *index as int) is None);
            assert(tag_value_scan(s@, value_start) is None);
            return Err(tag_error(&name, "has an unterminated value"));
        }
        let c = s[*index];
        if c == '"' {
            *index += 1;
            proof {
                assert(value@ + seq![] =~= value@);
            }
            break;
        }
        if c == '\\' && *index + 1 < s.len() && (s[*index + 1] == '"' || s[*index + 1] == '\\') {
            let ghost before = value@;
            value.push(s[*index + 1]);
            *index += 2;
            proof {
                assert forall|rest: Seq<char>|
                    before + (seq![s@[*index - 1]] + rest) =~= value@ + rest by {}
            }
        } else {
            let ghost before = value@;
            value.push(c);
            *index += 1;
            proof {
                assert forall|rest: Seq<char>| before + (seq![c] + rest) =~= value@ + rest by {}
            }
        }
    }
    proof {
        lemma_spaces_end(s@, *index as int);
    }
    skip_spaces(s, index);
    if *index >= s.len() || s[*index] != ']' {
        return Err(tag_error(&name, "is not closed with ']'"));
    }
    *index += 1;
    Ok((name, value))
}

} // verus!

verus! {

// ===========================================================================
// TOKENS
// ===========================================================================

/// A lexical item of a PGN file.
pub enum PgnToken {
    /// A tag pair such as `[White "Kasparov"]`, with its value unescaped.
    Tag(Seq<char>, Seq<char>),
    /// A SAN move, with any move number already stripped.
    Move(Seq<char>),
    /// A game terminator: `1-0`, `0-1`, `1/2-1/2`, or `*`.
    GameEnd,
}

/// Whether a word is a game terminator.
pub open spec fn is_result_word(w: Seq<char>) -> bool {
    w == seq!['1', '-', '0'] || w == seq!['0', '-', '1'] || w == seq![
        '1',
        '/',
        '2',
        '-',
        '1',
        '/',
        '2',
    ] || w == seq!['*']
}

/// The number of leading ASCII digits of `w` from position `i` on.
pub open spec fn leading_digits(w: Seq<char>, i: int) -> int
    decreases w.len() - i,
{
    if i < 0 || i >= w.len() || !is_digit(w[i]) {
        i
    } else {
        leading_digits(w, i + 1)
    }
}

/// The first position at or after `i` that does not hold a dot.
pub open spec fn dots_end(w: Seq<char>, i: int) -> int
    decreases w.len() - i,
{
    if i < 0 || i >= w.len() || w[i] != '.' {
        i
    } else {
        dots_end(w, i + 1)
    }
}

pub proof fn lemma_leading_digits(w: Seq<char>, i: int)
    requires
        0 <= i <= w.len(),
    ensures
        i <= leading_digits(w, i) <= w.len(),
    decreases w.len() - i,
{
    if i < w.len() && is_digit(w[i]) {
        lemma_leading_digits(w, i + 1);
    }
}

pub proof fn lemma_dots_end(w: Seq<char>, i: int)
    requires
        0 <= i <= w.len(),
    ensures
        i <= dots_end(w, i) <= w.len(),
    decreases w.len() - i,
{
    if i < w.len() && w[i] == '.' {
        lemma_dots_end(w, i + 1);
    }
}

/// A word without a leading move number such as `1.`, `12.` or `1...`. A
/// number not followed by a dot is not a move number and is kept.
pub open spec fn strip_move_number(w: Seq<char>) -> Seq<char> {
    let digits = leading_digits(w, 0);
    if digits == 0 {
        w
    } else {
        let dots = dots_end(w, digits);
        if dots > digits {
            w.skip(dots)
        } else {
            w
        }
    }
}

/// Whether every character of `w` is an ASCII digit.
pub open spec fn all_digits(w: Seq<char>) -> bool {
    forall|k: int| 0 <= k < w.len() ==> is_digit(#[trigger] w[k])
}

/// The tokens a word stands for: a terminator, a move, or nothing for a bare
/// move number.
pub open spec fn word_tokens(w: Seq<char>) -> Seq<PgnToken> {
    if is_result_word(w) {
        seq![PgnToken::GameEnd]
    } else {
        let core = strip_move_number(w);
        if core.len() > 0 && !all_digits(core) {
            seq![PgnToken::Move(core)]
        } else {
            seq![]
        }
    }
}

/// `head` followed by the tokens of `rest`, or the error of `rest`.
pub open spec fn prepend_tokens(head: Seq<PgnToken>, rest: Result<Seq<PgnToken>, ParseFault>) -> Result<
    Seq<PgnToken>,
    ParseFault,
> {
    match rest {
        Ok(tokens) => Ok(head + tokens),
        Err(fault) => Err(fault),
    }
}

/// The tokens of `s` from position `i` on. Comments (`{...}` and `;...`),
/// numeric annotation glyphs (`$1`), recursive variations (`(...)`), stray
/// closing brackets and whitespace yield nothing; a malformed tag pair is an
/// error.
pub open spec fn tokens_from(s: Seq<char>, i: int) -> Result<Seq<PgnToken>, ParseFault>
    decreases s.len() - i,
{
    if i < 0 || i >= s.len() {
        Ok(seq![])
    } else {
        let c = s[i];
        if is_blank(c) || c == ')' || c == ']' || c == '}' {
            tokens_from(s, i + 1)
        } else if c == '{' {
            proof {
                lemma_brace_end(s, i);
            }
            tokens_from(s, brace_end(s, i))
        } else if c == ';' {
            proof {
                lemma_line_end(s, i);
            }
            tokens_from(s, line_end(s, i))
        } else if c == '(' {
            proof {
                lemma_variation_end(s, i + 1, 1);
            }
            tokens_from(s, variation_end(s, i + 1, 1))
        } else if c == '$' {
            proof {
                lemma_digits_end(s, i + 1);
            }
            tokens_from(s, digits_end(s, i + 1))
        } else if c == '[' {
            match read_tag_spec(s, i) {
                Err(fault) => Err(fault),
                Ok((name, value, end)) => {
                    proof {
                        lemma_read_tag(s, i);
                    }
                    prepend_tokens(seq![PgnToken::Tag(name, value)], tokens_from(s, end))
                },
            }
        } else {
            proof {
                lemma_word_end(s, i);
            }
            let end = word_end(s, i);
            prepend_tokens(word_tokens(s.subrange(i, end)), tokens_from(s, end))
        }
    }
}

/// A lexical item of a PGN file.
enum Token {
    Tag { name: Vec<char>, value: Vec<char> },
    Move(Vec<char>),
    GameEnd,
}

impl View for Token {
    type V = PgnToken;

    closed spec fn view(&self) -> PgnToken {
        match self {
            Token::Tag { name, value } => PgnToken::Tag(name@, value@),
            Token::Move(word) => PgnToken::Move(word@),
            Token::GameEnd => PgnToken::GameEnd,
        }
    }
}

spec fn token_views(tokens: Seq<Token>) -> Seq<PgnToken> {
    tokens.map_values(|t: Token| t@)
}

fn is_result(w: &Vec<char>) -> (r: bool)
    ensures
        r == is_result_word(w@),
{
    let n = w.len();
    let r = if n == 1 {
        w[0] == '*'
    } else if n == 3 {
        (w[0] == '1' && w[1] == '-' && w[2] == '0') || (w[0] == '0' && w[1] == '-' && w[2] == '1')
    } else if n == 7 {
        w[0] == '1' && w[1] == '/' && w[2] == '2' && w[3] == '-' && w[4] == '1' && w[5] == '/'
            && w[6] == '2'
    } else {
        false
    };
    proof {
        if r {
            if n == 1 {
                assert(w@ =~= seq!['*']);
            } else if n == 3 {
                if w[0] == '1' {
                    assert(w@ =~= seq!['1', '-', '0']);
                } else {
                    assert(w@ =~= seq!['0', '-', '1']);
                }
            } else {
                assert(w@ =~= seq!['1', '/', '2', '-', '1', '/', '2']);
            }
        }
    }
    r
}

/// Strips a leading move-number prefix such as `1.`, `12.`, or `1...` from a
/// word, returning the remainder (which may be empty for a bare number).
fn strip_leading_move_number(w: &Vec<char>) -> (core: Vec<char>)
    ensures
        core@ == strip_move_number(w@),
{
    let mut digits_end: usize = 0;
    while digits_end < w.len() && digit(w[digits_end])
        invariant
            digits_end <= w.len(),
            leading_digits(w@, 0) == leading_digits(w@, digits_end as int),
        decreases w.len() - digits_end,
    {
        digits_end += 1;
    }
    if digits_end == 0 {
        return slice_chars(w, 0, w.len());
    }
    let mut dots: usize = digits_end;
    while dots < w.len() && w[dots] == '.'
        invariant
            digits_end <= dots <= w.len(),
            dots_end(w@, digits_end as int) == dots_end(w@, dots as int),
        decreases w.len() - dots,
    {
        dots += 1;
    }
    if dots > digits_end {
        slice_chars(w, dots, w.len())
    } else {
        slice_chars(w, 0, w.len())
    }
}

fn all_digit_chars(w: &Vec<char>) -> (r: bool)
    ensures
        r == all_digits(w@),
{
    let mut k: usize = 0;
    while k < w.len()
        invariant
            k <= w.len(),
            forall|j: int| 0 <= j < k ==> is_digit(#[trigger] w@[j]),
        decreases w.len() - k,
    {
        if !digit(w[k]) {
            return false;
        }
        k += 1;
    }
    true
}

fn is_word_end(c: char) -> (r: bool)
    ensures
        r == is_word_end_char(c),
{
    c == ' ' || c == '\t' || c == '\r' || c == '\n' || c == '{' || c == '}' || c == '(' || c
        == ')' || c == '[' || c == ']' || c == ';'
}

pub proof fn lemma_prepend_tokens(
    a: Seq<PgnToken>,
    b: Seq<PgnToken>,
    rest: Result<Seq<PgnToken>, ParseFault>,
)
    ensures
        prepend_tokens(a, prepend_tokens(b, rest)) == prepend_tokens(a + b, rest),
{
    if let Ok(tokens) = rest {
        assert(a + (b + tokens) =~= (a + b) + tokens);
    }
}

/// Splits PGN text into tag pairs, moves, and result tokens, discarding
/// comments, glyphs, and variations.
fn tokenize(s: &Vec<char>) -> (r: Result<Vec<Token>, ParseError>)
    ensures
        match tokens_from(s@, 0) {
            Ok(tokens) => r matches Ok(t) && token_views(t@) == tokens,
            Err(fault) => r matches Err(e) && e@ == fault,
        },
{
    let mut tokens: Vec<Token> = Vec::new();
    let mut index: usize = 0;
    while index < s.len()
        invariant
            index <= s.len(),
            tokens_from(s@, 0) == prepend_tokens(
                token_views(tokens@),
                tokens_from(s@, index as int),
            ),
        decreases s.len() - index,
    {
        let ghost at = index as int;
        let ghost before = token_views(tokens@);
        let ghost mut added: Seq<PgnToken> = seq![];
        let c = s[index];
        if c == ' ' || c == '\t' || c == '\r' || c == '\n' || c == ')' || c == ']' || c == '}' {
            index += 1;
        } else if c == '{' {
            proof {
                lemma_brace_end(s@, at);
            }
            skip_brace_comment(s, &mut index);
        } else if c == ';' {
            proof {
                lemma_line_end(s@, at);
            }
            skip_to_end_of_line(s, &mut index);
        } else if c == '(' {
            proof {
                lemma_variation_end(s@, at + 1, 1);
            }
            skip_variation(s, &mut index);
        } else if c == '$' {
            proof {
                lemma_digits_end(s@, at + 1);
            }
            index += 1;
            while index < s.len() && digit(s[index])
                invariant
                    at < index <= s.len(),
                    digits_end(s@, at + 1) == digits_end(s@, index as int),
                decreases s.len() - index,
            {
                index += 1;
            }
        } else if c == '[' {
            proof {
                lemma_read_tag(s@, at);
            }
            match read_tag(s, &mut index) {
                Err(error) => {
                    return Err(error);
                },
                Ok((name, value)) => {
                    proof {
                        added = seq![PgnToken::Tag(name@, value@)];
                    }
                    tokens.push(Token::Tag { name, value });
                },
            }
        } else {
            let start = index;
            proof {
                lemma_word_end(s@, at);
            }
            while index < s.len() && !is_word_end(s[index])
                invariant
                    start <= index <= s.len(),
                    word_end(s@, start as int) == word_end(s@, index as int),
                decreases s.len() - index,
            {
                index += 1;
            }
            let word = slice_chars(s, start, index);
            proof {
                added = word_tokens(word@);
            }
            if is_result(&word) {
                tokens.push(Token::GameEnd);
            } else {
                let core = strip_leading_move_number(&word);
                if core.len() > 0 && !all_digit_chars(&core) {
                    tokens.push(Token::Move(core));
                }
            }
        }
        proof {
            assert(token_views(tokens@) =~= before + added);
            assert(tokens_from(s@, at) == prepend_tokens(added, tokens_from(s@, index as int)));
            lemma_prepend_tokens(before, added, tokens_from(s@, index as int));
        }
    }
    proof {
        assert(token_views(tokens@) + seq![] =~= token_views(tokens@));
    }
    Ok(tokens)
}

} // verus!

verus! {

// ===========================================================================
// SAN MOVES
// ===========================================================================

/// The piece a SAN letter names.
pub open spec fn piece_for_letter(c: char) -> Option<PieceKind> {
    if c == 'K' {
        Some(PieceKind::King)
    } else if c == 'Q' {
        Some(PieceKind::Queen)
    } else if c == 'R' {
        Some(PieceKind::Rook)
    } else if c == 'B' {
        Some(PieceKind::Bishop)
    } else if c == 'N' {
        Some(PieceKind::Knight)
    } else {
        None
    }
}

/// Trailing check, checkmate and annotation marks.
pub open spec fn is_mark(c: char) -> bool {
    c == '#' || c == '+' || c == '!' || c == '?'
}

/// Where the run of marks that ends at `end` begins.
pub open spec fn marks_start(t: Seq<char>, end: int) -> int
    decreases end,
{
    if end <= 0 {
        0
    } else if is_mark(t[end - 1]) {
        marks_start(t, end - 1)
    } else {
        end
    }
}

/// Whether `c` occurs in `s`.
pub open spec fn has_char(s: Seq<char>, c: char) -> bool {
    exists|k: int| 0 <= k < s.len() && s[k] == c
}

/// The check a run of marks announces: `#` anywhere means checkmate, else `+`
/// anywhere means check.
pub open spec fn check_of(marks: Seq<char>) -> CheckIndicator {
    if has_char(marks, '#') {
        CheckIndicator::Checkmate
    } else if has_char(marks, '+') {
        CheckIndicator::Check
    } else {
        CheckIndicator::NoCheck
    }
}

/// `s` with every trailing repetition of `pattern` removed.
pub open spec fn strip_suffix_all(s: Seq<char>, pattern: Seq<char>) -> Seq<char>
    decreases s.len(),
{
    if pattern.len() > 0 && s.len() >= pattern.len() && s.skip(s.len() - pattern.len())
        == pattern {
        strip_suffix_all(s.take(s.len() - pattern.len()), pattern)
    } else {
        s
    }
}

/// A character as it is compared when looking for castling: upper case, with
/// the digit zero read as the letter O.
pub open spec fn castle_char(c: char) -> char {
    if c == '0' {
        'O'
    } else {
        ascii_upper(c)
    }
}

/// The move text without trailing marks and en passant markers.
pub open spec fn san_core(token: Seq<char>) -> Seq<char> {
    let end = marks_start(token, token.len() as int);
    strip_suffix_all(strip_suffix_all(token.take(end), "e.p."@), "e.p"@)
}

/// Reads a single SAN move token (with move number and surrounding noise
/// already removed).
pub open spec fn parse_san_spec(token: Seq<char>) -> Result<Action, ParseFault> {
    if token.len() == 0 {
        Err(ParseFault::EmptyMove)
    } else {
        let end = marks_start(token, token.len() as int);
        let check = check_of(token.subrange(end, token.len() as int));
        let core = san_core(token);
        let form = core.map_values(|c: char| castle_char(c));
        if form == seq!['O', '-', 'O', '-', 'O'] {
            Ok(Action { kind: ActionKind::CastleQueenside, check })
        } else if form == seq!['O', '-', 'O'] {
            Ok(Action { kind: ActionKind::CastleKingside, check })
        } else {
            parse_normal_spec(core, check)
        }
    }
}

/// The first position at or after `i` that holds `c`.
pub open spec fn first_index(s: Seq<char>, c: char, i: int) -> Option<int>
    decreases s.len() - i,
{
    if i < 0 || i >= s.len() {
        None
    } else if s[i] == c {
        Some(i)
    } else {
        first_index(s, c, i + 1)
    }
}

/// The promotion of a move body that follows the piece letter, and what is
/// left before it. The promotion is written `=Q` or, more rarely, as a
/// trailing piece letter.
pub open spec fn promotion_split(body: Seq<char>, core: Seq<char>) -> Result<
    (Option<PieceKind>, Seq<char>),
    ParseFault,
> {
    match first_index(body, '=', 0) {
        Some(equals) => if equals + 1 >= body.len() {
            Err(ParseFault::InvalidPromotion(core, '='))
        } else {
            let target = body[equals + 1];
            match piece_for_letter(ascii_upper(target)) {
                Some(kind) => Ok((Some(kind), body.take(equals))),
                None => Err(ParseFault::InvalidPromotion(core, target)),
            }
        },
        None => if body.len() > 0 && piece_for_letter(body.last()) is Some {
            Ok((piece_for_letter(body.last()), body.drop_last()))
        } else {
            Ok((None, body))
        },
    }
}

pub open spec fn is_file_char(c: char) -> bool {
    'a' <= c && c <= 'h'
}

pub open spec fn is_rank_char(c: char) -> bool {
    '1' <= c && c <= '8'
}

/// Characters allowed before the destination: capture marks and hints.
pub open spec fn is_prefix_char(c: char) -> bool {
    c == 'x' || c == 'X' || is_file_char(c) || is_rank_char(c)
}

/// The last file hint in `prefix`.
pub open spec fn last_file_hint(prefix: Seq<char>) -> Option<u8>
    decreases prefix.len(),
{
    if prefix.len() == 0 {
        None
    } else if is_file_char(prefix.last()) {
        Some((prefix.last() as int - 97) as u8)
    } else {
        last_file_hint(prefix.drop_last())
    }
}

/// The last rank hint in `prefix`.
pub open spec fn last_rank_hint(prefix: Seq<char>) -> Option<u8>
    decreases prefix.len(),
{
    if prefix.len() == 0 {
        None
    } else if is_rank_char(prefix.last()) {
        Some((prefix.last() as int - 49) as u8)
    } else {
        last_rank_hint(prefix.drop_last())
    }
}

/// Whether a move body starts with a piece letter.
pub open spec fn lettered(core: Seq<char>) -> bool {
    core.len() > 0 && piece_for_letter(core[0]) is Some
}

/// Reads an ordinary move: an optional piece letter, optional hints and
/// capture mark, the destination square, and an optional promotion.
pub open spec fn parse_normal_spec(core: Seq<char>, check: CheckIndicator) -> Result<
    Action,
    ParseFault,
> {
    let piece = if lettered(core) {
        piece_for_letter(core[0]).unwrap()
    } else {
        PieceKind::Pawn
    };
    let body = if lettered(core) {
        core.skip(1)
    } else {
        core
    };
    match promotion_split(body, core) {
        Err(fault) => Err(fault),
        Ok((promotion, rest)) => finish_normal_spec(core, check, piece, promotion, rest),
    }
}

/// Reads the destination, hints and capture mark that are left of an ordinary
/// move once its piece letter and promotion are known.
pub open spec fn finish_normal_spec(
    core: Seq<char>,
    check: CheckIndicator,
    piece: PieceKind,
    promotion: Option<PieceKind>,
    rest: Seq<char>,
) -> Result<Action, ParseFault> {
    if rest.len() < 2 {
        Err(ParseFault::MissingDestination(core))
    } else {
        let file = rest[rest.len() - 2];
        let rank = rest[rest.len() - 1];
        if !is_file_char(file) || !is_rank_char(rank) {
            Err(ParseFault::MissingDestination(core))
        } else {
            let prefix = rest.take(rest.len() - 2);
            if exists|k: int| 0 <= k < prefix.len() && !is_prefix_char(#[trigger] prefix[k]) {
                Err(ParseFault::UnrecognizedMove(core))
            } else {
                Ok(
                    Action {
                        kind: ActionKind::Normal {
                            piece,
                            source_file: last_file_hint(prefix),
                            source_rank: last_rank_hint(prefix),
                            destination: square_at(
                                (file as int - 97) as u8,
                                (rank as int - 49) as u8,
                            ),
                            is_capture: has_char(prefix, 'x') || has_char(prefix, 'X'),
                            promotion,
                        },
                        check,
                    },
                )
            }
        }
    }
}

} // verus!

verus! {

fn piece_from_letter(letter: char) -> (kind: Option<PieceKind>)
    ensures
        kind == piece_for_letter(letter),
{
    if letter == 'K' {
        Some(PieceKind::King)
    } else if letter == 'Q' {
        Some(PieceKind::Queen)
    } else if letter == 'R' {
        Some(PieceKind::Rook)
    } else if letter == 'B' {
        Some(PieceKind::Bishop)
    } else if letter == 'N' {
        Some(PieceKind::Knight)
    } else {
        None
    }
}

proof fn lemma_has_char_cons(c: char, m: Seq<char>, x: char)
    ensures
        has_char(seq![c] + m, x) <==> (c == x || has_char(m, x)),
{
    let full = seq![c] + m;
    if has_char(m, x) {
        let k = choose|k: int| 0 <= k < m.len() && m[k] == x;
        assert(full[k + 1] == x);
    }
    if c == x {
        assert(full[0] == x);
    }
    if has_char(full, x) {
        let k = choose|k: int| 0 <= k < full.len() && full[k] == x;
        if k > 0 {
            assert(m[k - 1] == x);
        }
    }
}

/// Whether `chars[..end]` ends with `pattern`.
fn ends_with(chars: &Vec<char>, end: usize, pattern: &Vec<char>) -> (r: bool)
    requires
        end <= chars.len(),
        pattern.len() <= end,
    ensures
        r == (chars@.take(end as int).skip(end - pattern.len()) == pattern@),
{
    let start = end - pattern.len();
    let mut k: usize = 0;
    while k < pattern.len()
        invariant
            start + pattern.len() == end <= chars.len(),
            k <= pattern.len(),
            forall|j: int| 0 <= j < k ==> chars@[start + j] == pattern@[j],
        decreases pattern.len() - k,
    {
        if chars[start + k] != pattern[k] {
            proof {
                assert(chars@.take(end as int).skip(start as int)[k as int] != pattern@[k as int]);
            }
            return false;
        }
        k += 1;
    }
    proof {
        assert(chars@.take(end as int).skip(start as int) =~= pattern@);
    }
    true
}

/// How much of `chars[..end]` is left once every trailing repetition of
/// `pattern` is removed.
fn strip_suffix_repeated(chars: &Vec<char>, end: usize, pattern: &Vec<char>) -> (left: usize)
    requires
        end <= chars.len(),
    ensures
        left <= end,
        chars@.take(left as int) == strip_suffix_all(chars@.take(end as int), pattern@),
{
    let mut left = end;
    while pattern.len() > 0 && pattern.len() <= left && ends_with(chars, left, pattern)
        invariant
            left <= end <= chars.len(),
            strip_suffix_all(chars@.take(end as int), pattern@) == strip_suffix_all(
                chars@.take(left as int),
                pattern@,
            ),
        decreases left,
    {
        proof {
            let t = chars@.take(left as int);
            assert(t.take(t.len() - pattern@.len()) =~= chars@.take(left - pattern.len()));
        }
        left -= pattern.len();
    }
    left
}

/// Whether `core`, read as castling is read, is `target`.
fn castle_form_is(core: &Vec<char>, target: &Vec<char>) -> (r: bool)
    ensures
        r == (core@.map_values(|c: char| castle_char(c)) == target@),
{
    if core.len() != target.len() {
        proof {
            assert(core@.map_values(|c: char| castle_char(c)).len() != target@.len());
        }
        return false;
    }
    let mut k: usize = 0;
    while k < core.len()
        invariant
            core.len() == target.len(),
            k <= core.len(),
            forall|j: int| 0 <= j < k ==> castle_char(core@[j]) == target@[j],
        decreases core.len() - k,
    {
        let c = core[k];
        let read = if c == '0' {
            'O'
        } else {
            to_upper(c)
        };
        if read != target[k] {
            proof {
                assert(core@.map_values(|c: char| castle_char(c))[k as int] != target@[k as int]);
            }
            return false;
        }
        k += 1;
    }
    proof {
        assert(core@.map_values(|c: char| castle_char(c)) =~= target@);
    }
    true
}

/// Parses a single SAN move token (with move number and surrounding noise
/// already removed). What [`Action::to_san`] writes reads back as the same
/// move (see [`lemma_san_round_trip`]).
pub fn parse_san_move(token: &str) -> (r: Result<Action, ParseError>)
    ensures
        match parse_san_spec(token@) {
            Ok(action) => r == Ok::<Action, ParseError>(action),
            Err(fault) => r matches Err(e) && e@ == fault,
        },
{
    parse_san_chars(&chars_of(token))
}

/// Parses the characters of a single SAN move token.
fn parse_san_chars(token: &Vec<char>) -> (r: Result<Action, ParseError>)
    ensures
        match parse_san_spec(token@) {
            Ok(action) => r == Ok::<Action, ParseError>(action),
            Err(fault) => r matches Err(e) && e@ == fault,
        },
{
    if token.len() == 0 {
        return Err(ParseError::EmptyMove);
    }
    // Peel off trailing check, checkmate, and annotation glyphs.
    let mut check = CheckIndicator::NoCheck;
    let mut end = token.len();
    proof {
        assert(token@.subrange(end as int, end as int) =~= seq![]);
    }
    loop
        invariant
            end <= token.len(),
            marks_start(token@, token.len() as int) == marks_start(token@, end as int),
            check == check_of(token@.subrange(end as int, token.len() as int)),
        ensures
            end == marks_start(token@, token.len() as int),
            check == check_of(token@.subrange(end as int, token.len() as int)),
        decreases end,
    {
        if end == 0 {
            break;
        }
        let c = token[end - 1];
        if c == '#' {
            check = CheckIndicator::Checkmate;
        } else if c == '+' {
            if check == CheckIndicator::NoCheck {
                check = CheckIndicator::Check;
            }
        } else if c == '!' || c == '?' {
        } else {
            break;
        }
        proof {
            let old_marks = token@.subrange(end as int, token.len() as int);
            let new_marks = token@.subrange(end - 1, token.len() as int);
            assert(new_marks =~= seq![c] + old_marks);
            lemma_has_char_cons(c, old_marks, '#');
            lemma_has_char_cons(c, old_marks, '+');
        }
        end -= 1;
    }
    // An en passant marker occasionally trails the move; the capture itself is
    // already encoded by the `x`, so the marker can simply be dropped.
    let marker = chars_of("e.p.");
    let short_marker = chars_of("e.p");
    let left = strip_suffix_repeated(token, end, &marker);
    let left = strip_suffix_repeated(token, left, &short_marker);
    let core = slice_chars(token, 0, left);
    proof {
        assert(core@ =~= token@.take(left as int));
        assert(token@.take(end as int).take(left as int) =~= token@.take(left as int));
    }
    // Castling, allowing the zero digit as an alternative to the letter O.
    let mut long_castle: Vec<char> = Vec::new();
    long_castle.push('O');
    long_castle.push('-');
    long_castle.push('O');
    long_castle.push('-');
    long_castle.push('O');
    let mut short_castle: Vec<char> = Vec::new();
    short_castle.push('O');
    short_castle.push('-');
    short_castle.push('O');
    proof {
        assert(long_castle@ =~= seq!['O', '-', 'O', '-', 'O']);
        assert(short_castle@ =~= seq!['O', '-', 'O']);
    }
    if castle_form_is(&core, &long_castle) {
        return Ok(Action::new(ActionKind::CastleQueenside, check));
    }
    if castle_form_is(&core, &short_castle) {
        return Ok(Action::new(ActionKind::CastleKingside, check));
    }
    parse_normal_move(&core, check)
}

} // verus!

verus! {

fn parse_normal_move(core: &Vec<char>, check: CheckIndicator) -> (r: Result<Action, ParseError>)
    ensures
        match parse_normal_spec(core@, check) {
            Ok(action) => r == Ok::<Action, ParseError>(action),
            Err(fault) => r matches Err(e) && e@ == fault,
        },
{
    let n = core.len();
    // Leading piece letter, or a pawn if there is none.
    let mut piece = PieceKind::Pawn;
    let mut start: usize = 0;
    if n > 0 {
        if let Some(found) = piece_from_letter(core[0]) {
            piece = found;
            start = 1;
        }
    }
    let ghost body = core@.skip(start as int);
    proof {
        assert(start == 0 ==> body =~= core@);
    }
    // Promotion, written either `=Q` or, more rarely, as a trailing piece letter.
    let mut equals = start;
    while equals < n && core[equals] != '='
        invariant
            start <= equals <= n == core.len(),
            body == core@.skip(start as int),
            first_index(body, '=', 0) == first_index(body, '=', equals - start),
        decreases n - equals,
    {
        equals += 1;
    }
    let mut promotion: Option<PieceKind> = None;
    let mut end = n;
    if equals < n {
        if equals + 1 >= n {
            return Err(
                ParseError::InvalidPromotion { token: string_from(core), piece: '=' },
            );
        }
        let target = core[equals + 1];
        match piece_from_letter(to_upper(target)) {
            Some(promoted) => {
                promotion = Some(promoted);
                end = equals;
            },
            None => {
                return Err(ParseError::InvalidPromotion { token: string_from(core), piece: target });
            },
        }
        proof {
            assert(body.take(equals - start) =~= core@.subrange(start as int, end as int));
        }
    } else if n > start {
        let last = core[n - 1];
        if let Some(promoted) = piece_from_letter(last) {
            promotion = Some(promoted);
            end = n - 1;
        }
        proof {
            assert(body.last() == last);
            assert(body.drop_last() =~= core@.subrange(start as int, n - 1));
            assert(body =~= core@.subrange(start as int, n as int));
        }
    } else {
        proof {
            assert(body =~= core@.subrange(start as int, n as int));
        }
    }
    let ghost rest = core@.subrange(start as int, end as int);
    assert(promotion_split(body, core@) == Ok::<(Option<PieceKind>, Seq<char>), ParseFault>(
        (promotion, rest),
    ));
    assert(parse_normal_spec(core@, check) == finish_normal_spec(
        core@,
        check,
        piece,
        promotion,
        rest,
    ));
    finish_normal_move(core, check, piece, promotion, start, end)
}

/// Reads the destination, hints and capture mark in `core[start..end]`.
fn finish_normal_move(
    core: &Vec<char>,
    check: CheckIndicator,
    piece: PieceKind,
    promotion: Option<PieceKind>,
    start: usize,
    end: usize,
) -> (r: Result<Action, ParseError>)
    requires
        start <= end <= core.len(),
    ensures
        match finish_normal_spec(
            core@,
            check,
            piece,
            promotion,
            core@.subrange(start as int, end as int),
        ) {
            Ok(action) => r == Ok::<Action, ParseError>(action),
            Err(fault) => r matches Err(e) && e@ == fault,
        },
{
    let ghost rest = core@.subrange(start as int, end as int);
    // The destination is the trailing file+rank pair.
    if end - start < 2 {
        return Err(ParseError::MissingDestination(string_from(core)));
    }
    let file = core[end - 2];
    let rank = core[end - 1];
    if !('a' <= file && file <= 'h') || !('1' <= rank && rank <= '8') {
        return Err(ParseError::MissingDestination(string_from(core)));
    }
    let destination = Square::new((file as u8) - 97, (rank as u8) - 49);
    // Anything before the destination is capture marker and/or disambiguation.
    let ghost prefix = rest.take(rest.len() - 2);
    proof {
        assert(prefix =~= core@.subrange(start as int, end - 2));
    }
    assert(rest[rest.len() - 2] == file);
    assert(rest[rest.len() - 1] == rank);
    assert forall|j: int| 0 <= j < prefix.len() && !is_prefix_char(#[trigger] prefix[j]) implies
        finish_normal_spec(core@, check, piece, promotion, rest) == Err::<Action, ParseFault>(
        ParseFault::UnrecognizedMove(core@),
    ) by {
        assert(!is_prefix_char(rest.take(rest.len() - 2)[j]));
    }
    let mut is_capture = false;
    let mut source_file: Option<u8> = None;
    let mut source_rank: Option<u8> = None;
    let mut k = start;
    while k < end - 2
        invariant
            start <= k <= end - 2,
            end <= core.len(),
            rest == core@.subrange(start as int, end as int),
            prefix == core@.subrange(start as int, end - 2),
            forall|j: int| 0 <= j < prefix.len() && !is_prefix_char(#[trigger] prefix[j])
                ==> finish_normal_spec(core@, check, piece, promotion, rest) == Err::<
                    Action,
                    ParseFault,
                >(ParseFault::UnrecognizedMove(core@)),
            forall|j: int| 0 <= j < k - start ==> is_prefix_char(#[trigger] prefix[j]),
            is_capture == (has_char(prefix.take(k - start), 'x') || has_char(
                prefix.take(k - start),
                'X',
            )),
            source_file == last_file_hint(prefix.take(k - start)),
            source_rank == last_rank_hint(prefix.take(k - start)),
        decreases end - 2 - k,
    {
        let c = core[k];
        let ghost seen = prefix.take(k - start);
        let ghost next = prefix.take(k + 1 - start);
        proof {
            assert(next.drop_last() =~= seen);
            assert(next =~= seen + seq![c]);
            assert(next.last() == c);
        }
        if c == 'x' || c == 'X' {
            is_capture = true;
        } else if 'a' <= c && c <= 'h' {
            source_file = Some((c as u8) - 97);
        } else if '1' <= c && c <= '8' {
            source_rank = Some((c as u8) - 49);
        } else {
            proof {
                assert(!is_prefix_char(prefix[k - start]));
            }
            return Err(ParseError::UnrecognizedMove(string_from(core)));
        }
        proof {
            lemma_has_char_snoc(seen, c, 'x');
            lemma_has_char_snoc(seen, c, 'X');
        }
        k += 1;
    }
    proof {
        assert(prefix.take(k - start) =~= prefix);
        lemma_square_at(((file as u8) - 97) as u8, ((rank as u8) - 49) as u8);
    }
    Ok(
        Action::new(
            ActionKind::Normal {
                piece,
                source_file,
                source_rank,
                destination,
                is_capture,
                promotion,
            },
            check,
        ),
    )
}

proof fn lemma_has_char_snoc(m: Seq<char>, c: char, x: char)
    ensures
        has_char(m + seq![c], x) <==> (c == x || has_char(m, x)),
{
    let full = m + seq![c];
    if has_char(m, x) {
        let k = choose|k: int| 0 <= k < m.len() && m[k] == x;
        assert(full[k] == x);
    }
    if c == x {
        assert(full[m.len() as int] == x);
    }
    if has_char(full, x) {
        let k = choose|k: int| 0 <= k < full.len() && full[k] == x;
        if k < m.len() {
            assert(m[k] == x);
        }
    }
}

} // verus!

verus! {

// ===========================================================================
// GAME NAMES
// ===========================================================================

/// A tag pair, as its name and its unescaped value.
pub type TagPair = (Seq<char>, Seq<char>);

/// The first tag at or after `i` whose name is `wanted`, ignoring ASCII case.
pub open spec fn first_tag_named(tags: Seq<TagPair>, wanted: Seq<char>, i: int) -> Option<int>
    decreases tags.len() - i,
{
    if i < 0 || i >= tags.len() {
        None
    } else if eq_ignore_ascii_case(tags[i].0, wanted) {
        Some(i)
    } else {
        first_tag_named(tags, wanted, i + 1)
    }
}

/// Whether a value is one of PGN's placeholders for an unknown value: `?`,
/// or a date such as `????.??.??`.
pub open spec fn is_placeholder(value: Seq<char>) -> bool {
    forall|k: int| 0 <= k < value.len() ==> #[trigger] value[k] == '?' || value[k] == '.'
}

/// The value of the first tag named `wanted`, trimmed, treating an empty
/// value or a placeholder as absent.
pub open spec fn tag_value_spec(tags: Seq<TagPair>, wanted: Seq<char>) -> Option<Seq<char>> {
    match first_tag_named(tags, wanted, 0) {
        None => None,
        Some(k) => {
            let value = trim(tags[k].1);
            if value.len() > 0 && !is_placeholder(value) {
                Some(value)
            } else {
                None
            }
        },
    }
}

/// An optional part, as zero or one parts.
pub open spec fn optional_part(part: Option<Seq<char>>) -> Seq<Seq<char>> {
    match part {
        Some(p) => seq![p],
        None => seq![],
    }
}

/// The players, as `White vs Black` or the one player named.
pub open spec fn players_part(tags: Seq<TagPair>) -> Seq<Seq<char>> {
    match (tag_value_spec(tags, "White"@), tag_value_spec(tags, "Black"@)) {
        (Some(white), Some(black)) => seq![white + " vs "@ + black],
        (Some(player), None) => seq![player],
        (None, Some(player)) => seq![player],
        (None, None) => seq![],
    }
}

/// The round, written `round N`.
pub open spec fn round_part(tags: Seq<TagPair>) -> Seq<Seq<char>> {
    match tag_value_spec(tags, "Round"@) {
        Some(round) => seq!["round "@ + round],
        None => seq![],
    }
}

/// The result, unless it is `*` (unknown).
pub open spec fn result_part(tags: Seq<TagPair>) -> Seq<Seq<char>> {
    match tag_value_spec(tags, "Result"@) {
        Some(result) => if result == seq!['*'] {
            seq![]
        } else {
            seq![result]
        },
        None => seq![],
    }
}

/// Every part of a game's name that its tags give, in order: the players,
/// the event, the site, the date, the round and the result.
pub open spec fn name_parts(tags: Seq<TagPair>) -> Seq<Seq<char>> {
    players_part(tags) + optional_part(tag_value_spec(tags, "Event"@)) + optional_part(
        tag_value_spec(tags, "Site"@),
    ) + optional_part(tag_value_spec(tags, "Date"@)) + round_part(tags) + result_part(tags)
}

/// A display name built from the tag pairs, using every part the file gives,
/// separated by commas; `None` when the tags name nothing at all.
pub open spec fn name_from_tags_spec(tags: Seq<TagPair>) -> Option<Seq<char>> {
    let parts = name_parts(tags);
    if parts.len() == 0 {
        None
    } else {
        Some(join(parts, ", "@))
    }
}

/// The tag pairs held in `tags`, as sequences.
pub open spec fn tag_views(tags: Seq<(Vec<char>, Vec<char>)>) -> Seq<TagPair> {
    tags.map_values(|t: (Vec<char>, Vec<char>)| (t.0@, t.1@))
}

/// Looks up a tag, treating PGN's placeholders for unknown values (`?`, and
/// dates like `????.??.??`) as absent.
fn tag_value(tags: &Vec<(Vec<char>, Vec<char>)>, wanted: &str) -> (value: Option<Vec<char>>)
    ensures
        value matches Some(v) ==> tag_value_spec(tag_views(tags@), wanted@) == Some(v@),
        value is None ==> tag_value_spec(tag_views(tags@), wanted@) is None,
{
    let ghost views = tag_views(tags@);
    let wanted_chars = chars_of(wanted);
    let mut k: usize = 0;
    while k < tags.len()
        invariant
            k <= tags.len(),
            views == tag_views(tags@),
            wanted_chars@ == wanted@,
            first_tag_named(views, wanted@, 0) == first_tag_named(views, wanted@, k as int),
        decreases tags.len() - k,
    {
        proof {
            assert(views[k as int] == (tags@[k as int].0@, tags@[k as int].1@));
        }
        if equal_ignoring_ascii_case(&tags[k].0, &wanted_chars) {
            let value = trimmed(&tags[k].1, 0, tags[k].1.len());
            proof {
                assert(tags[k as int].1@.subrange(0, tags[k as int].1@.len() as int)
                    =~= tags[k as int].1@);
                assert(first_tag_named(views, wanted@, k as int) == Some(k as int));
                assert(value@ == trim(views[k as int].1));
            }
            if value.len() == 0 {
                return None;
            }
            let mut placeholder = true;
            let mut j: usize = 0;
            while j < value.len()
                invariant
                    j <= value.len(),
                    placeholder == (forall|m: int| 0 <= m < j ==> #[trigger] value@[m] == '?' || value@[m] == '.'),
                decreases value.len() - j,
            {
                if value[j] != '?' && value[j] != '.' {
                    placeholder = false;
                }
                j += 1;
            }
            if placeholder {
                return None;
            }
            return Some(value);
        }
        k += 1;
    }
    None
}

fn push_optional(parts: &mut Vec<Vec<char>>, part: Option<Vec<char>>)
    ensures
        final(parts)@.map_values(|p: Vec<char>| p@) == old(parts)@.map_values(|p: Vec<char>| p@)
            + optional_part(
            match part {
                Some(p) => Some(p@),
                None => None,
            },
        ),
{
    if let Some(p) = part {
        parts.push(p);
    }
    proof {
        assert(parts@.map_values(|p: Vec<char>| p@) =~= old(parts)@.map_values(|p: Vec<char>| p@)
            + optional_part(
            match part {
                Some(p) => Some(p@),
                None => None,
            },
        ));
    }
}

/// Builds a display name from the tag pairs, using every part the file gives.
/// Returns `None` when the file names nothing at all.
fn name_from_tags(tags: &Vec<(Vec<char>, Vec<char>)>) -> (name: Option<String>)
    ensures
        name matches Some(n) ==> name_from_tags_spec(tag_views(tags@)) == Some(n@),
        name is None ==> name_from_tags_spec(tag_views(tags@)) is None,
{
    let ghost views = tag_views(tags@);
    let mut parts: Vec<Vec<char>> = Vec::new();
    let white = tag_value(tags, "White");
    let black = tag_value(tags, "Black");
    match (white, black) {
        (Some(white), Some(black)) => {
            let mut both = white;
            extend_with_str(&mut both, " vs ");
            extend_chars(&mut both, &black);
            parts.push(both);
        },
        (Some(player), None) => parts.push(player),
        (None, Some(player)) => parts.push(player),
        (None, None) => {},
    }
    proof {
        assert(parts@.map_values(|p: Vec<char>| p@) =~= players_part(views));
    }
    push_optional(&mut parts, tag_value(tags, "Event"));
    push_optional(&mut parts, tag_value(tags, "Site"));
    push_optional(&mut parts, tag_value(tags, "Date"));
    let ghost before_round = parts@.map_values(|p: Vec<char>| p@);
    if let Some(round) = tag_value(tags, "Round") {
        let mut text = chars_of("round ");
        extend_chars(&mut text, &round);
        parts.push(text);
    }
    proof {
        assert(parts@.map_values(|p: Vec<char>| p@) =~= before_round + round_part(views));
    }
    let ghost before_result = parts@.map_values(|p: Vec<char>| p@);
    // `*` means the result is unknown, so it says nothing worth showing.
    if let Some(result) = tag_value(tags, "Result") {
        if !(result.len() == 1 && result[0] == '*') {
            parts.push(result);
        } else {
            proof {
                assert(result@ =~= seq!['*']);
            }
        }
    }
    proof {
        assert(parts@.map_values(|p: Vec<char>| p@) =~= before_result + result_part(views));
        assert(parts@.map_values(|p: Vec<char>| p@) =~= name_parts(views));
    }
    if parts.len() == 0 {
        None
    } else {
        let separator = chars_of(", ");
        let joined = join_chars(&parts, &separator);
        Some(string_from(&joined))
    }
}

} // verus!

verus! {

// ===========================================================================
// SPLITTING INTO GAMES
// ===========================================================================

/// One game read out of a PGN file.
#[derive(Debug, Clone, PartialEq, Eq, Hash, Default)]
pub struct ParsedGame {
    /// The moves of the game's main line, in order.
    pub actions: Vec<Action>,
    /// A display name built from the game's tag pairs, or `None` when the file
    /// says nothing about the game. Callers decide what to show in that case;
    /// the parser only reports what the file actually contains.
    pub name: Option<String>,
}

/// What a [`ParsedGame`] holds, with its name as a character sequence.
#[verifier::ext_equal]
pub struct GameRecord {
    pub actions: Seq<Action>,
    pub name: Option<Seq<char>>,
}

impl View for ParsedGame {
    type V = GameRecord;

    open spec fn view(&self) -> GameRecord {
        GameRecord {
            actions: self.actions@,
            name: match self.name {
                Some(name) => Some(name@),
                None => None,
            },
        }
    }
}

/// The games of a list of parsed games.
pub open spec fn game_records(games: Seq<ParsedGame>) -> Seq<GameRecord> {
    games.map_values(|g: ParsedGame| g@)
}

/// The state of splitting a token stream into games: the games finished so
/// far, the tags and moves of the game being read, and whether a move of it
/// has been read since its last tag pair.
#[verifier::ext_equal]
pub struct SplitState {
    pub games: Seq<GameRecord>,
    pub tags: Seq<TagPair>,
    pub actions: Seq<Action>,
    pub seen_moves: bool,
}

/// The game being read, finished.
pub open spec fn finish_spec(st: SplitState) -> GameRecord {
    GameRecord { actions: st.actions, name: name_from_tags_spec(st.tags) }
}

/// The state once the game being read has been finished and stored.
pub open spec fn close_game(st: SplitState) -> SplitState {
    SplitState {
        games: st.games.push(finish_spec(st)),
        tags: seq![],
        actions: seq![],
        seen_moves: false,
    }
}

/// One token's effect. A tag pair that follows a game's moves begins the next
/// game; a result token ends the current game unless nothing has been read
/// for it, so a stray result does not make a game.
pub open spec fn split_step(st: SplitState, token: PgnToken) -> Result<SplitState, ParseFault> {
    match token {
        PgnToken::Tag(name, value) => {
            let st = if st.seen_moves {
                close_game(st)
            } else {
                st
            };
            Ok(SplitState { tags: st.tags.push((name, value)), ..st })
        },
        PgnToken::Move(word) => match parse_san_spec(word) {
            Ok(action) => Ok(SplitState { actions: st.actions.push(action), seen_moves: true, ..st }),
            Err(fault) => Err(fault),
        },
        PgnToken::GameEnd => if st.seen_moves || st.tags.len() > 0 {
            Ok(close_game(st))
        } else {
            Ok(st)
        },
    }
}

/// The effect of a token stream, stopping at the first move that cannot be
/// read.
pub open spec fn split_run(st: SplitState, tokens: Seq<PgnToken>) -> Result<SplitState, ParseFault>
    decreases tokens.len(),
{
    if tokens.len() == 0 {
        Ok(st)
    } else {
        match split_step(st, tokens[0]) {
            Ok(next) => split_run(next, tokens.drop_first()),
            Err(fault) => Err(fault),
        }
    }
}

/// The games of a split, with the game being read at the end of the text
/// kept if it has any tags or moves.
pub open spec fn final_games(st: SplitState) -> Seq<GameRecord> {
    if st.actions.len() > 0 || st.tags.len() > 0 {
        st.games.push(finish_spec(st))
    } else {
        st.games
    }
}

pub open spec fn empty_split() -> SplitState {
    SplitState { games: seq![], tags: seq![], actions: seq![], seen_moves: false }
}

/// The games of a token stream.
pub open spec fn split_games_spec(tokens: Seq<PgnToken>) -> Result<Seq<GameRecord>, ParseFault> {
    match split_run(empty_split(), tokens) {
        Ok(st) => Ok(final_games(st)),
        Err(fault) => Err(fault),
    }
}

/// The games of a PGN text, in file order.
pub open spec fn parse_pgn(text: Seq<char>) -> Result<Seq<GameRecord>, ParseFault> {
    match tokens_from(text, 0) {
        Ok(tokens) => split_games_spec(tokens),
        Err(fault) => Err(fault),
    }
}

fn finish_game(tags: &mut Vec<(Vec<char>, Vec<char>)>, actions: &mut Vec<Action>) -> (game: ParsedGame)
    ensures
        game@ == (GameRecord {
            actions: old(actions)@,
            name: name_from_tags_spec(tag_views(old(tags)@)),
        }),
        final(tags)@.len() == 0,
        final(actions)@.len() == 0,
{
    let name = name_from_tags(tags);
    tags.clear();
    let mut taken: Vec<Action> = Vec::new();
    std::mem::swap(&mut taken, actions);
    ParsedGame { actions: taken, name }
}

/// Groups tokens into games. Tag pairs that follow a game's moves begin the next
/// game, and a result token ends the current one.
fn split_games(tokens: &Vec<Token>) -> (r: Result<Vec<ParsedGame>, ParseError>)
    ensures
        match split_games_spec(token_views(tokens@)) {
            Ok(games) => r matches Ok(g) && game_records(g@) == games,
            Err(fault) => r matches Err(e) && e@ == fault,
        },
{
    let ghost all = token_views(tokens@);
    let mut games: Vec<ParsedGame> = Vec::new();
    let mut tags: Vec<(Vec<char>, Vec<char>)> = Vec::new();
    let mut actions: Vec<Action> = Vec::new();
    let mut seen_moves = false;
    let mut i: usize = 0;
    proof {
        assert(all.skip(0) =~= all);
        assert(game_records(games@) =~= seq![]);
        assert(tag_views(tags@) =~= seq![]);
    }
    while i < tokens.len()
        invariant
            i <= tokens.len(),
            all == token_views(tokens@),
            split_run(empty_split(), all) == split_run(
                SplitState {
                    games: game_records(games@),
                    tags: tag_views(tags@),
                    actions: actions@,
                    seen_moves,
                },
                all.skip(i as int),
            ),
        decreases tokens.len() - i,
    {
        let ghost st = SplitState {
            games: game_records(games@),
            tags: tag_views(tags@),
            actions: actions@,
            seen_moves,
        };
        proof {
            assert(all.skip(i as int).drop_first() =~= all.skip(i + 1));
            assert(all.skip(i as int)[0] == tokens@[i as int]@);
        }
        match &tokens[i] {
            Token::Tag { name, value } => {
                if seen_moves {
                    let game = finish_game(&mut tags, &mut actions);
                    games.push(game);
                    seen_moves = false;
                    proof {
                        assert(game_records(games@) =~= st.games.push(finish_spec(st)));
                        assert(tag_views(tags@) =~= seq![]);
                        assert(actions@ =~= seq![]);
                    }
                }
                let ghost before = tag_views(tags@);
                tags.push((slice_chars(name, 0, name.len()), slice_chars(value, 0, value.len())));
                proof {
                    assert(name@.subrange(0, name@.len() as int) =~= name@);
                    assert(value@.subrange(0, value@.len() as int) =~= value@);
                    assert(tag_views(tags@) =~= before.push((name@, value@)));
                }
            },
            Token::Move(word) => {
                match parse_san_chars(word) {
                    Ok(action) => {
                        actions.push(action);
                        seen_moves = true;
                    },
                    Err(error) => {
                        return Err(error);
                    },
                }
            },
            Token::GameEnd => {
                // A stray result with nothing before it does not make a game.
                if seen_moves || tags.len() > 0 {
                    let game = finish_game(&mut tags, &mut actions);
                    games.push(game);
                    seen_moves = false;
                    proof {
                        assert(game_records(games@) =~= st.games.push(finish_spec(st)));
                        assert(tag_views(tags@) =~= seq![]);
                        assert(actions@ =~= seq![]);
                    }
                }
            },
        }
        proof {
            let next = SplitState {
                games: game_records(games@),
                tags: tag_views(tags@),
                actions: actions@,
                seen_moves,
            };
            assert(split_step(st, tokens@[i as int]@) =~= Ok::<SplitState, ParseFault>(next));
        }
        i += 1;
    }
    let ghost st = SplitState {
        games: game_records(games@),
        tags: tag_views(tags@),
        actions: actions@,
        seen_moves,
    };
    proof {
        assert(all.skip(i as int) =~= seq![]);
    }
    if actions.len() > 0 || tags.len() > 0 {
        let game = finish_game(&mut tags, &mut actions);
        games.push(game);
        proof {
            assert(game_records(games@) =~= st.games.push(finish_spec(st)));
        }
    }
    Ok(games)
}

// ===========================================================================
// THE PARSER
// ===========================================================================

/// Parses PGN text into games.
#[derive(Debug, Clone, Copy, PartialEq, Eq, Hash, Default)]
pub struct PgnParser;

impl PgnParser {
    pub fn new() -> (parser: Self)
        ensures
            parser == PgnParser,
    {
        PgnParser
    }

    /// Parses a PGN string into its games, in file order.
    ///
    /// A new game starts at the first tag pair after a game's moves, and a
    /// result token (`1-0`, `0-1`, `1/2-1/2`, `*`) ends one, so files with and
    /// without tag pairs both split correctly. Comments (`{...}` and `;...`),
    /// numeric annotation glyphs (`$1`), recursive variations (`(...)`), and
    /// move numbers are ignored; everything else is read as a SAN move.
    ///
    /// Returns a [`ParseError`] if a tag pair is malformed, or if a token cannot
    /// be read as a SAN move: an empty move, an unrecognized token, a missing or
    /// malformed destination square, or an invalid promotion piece.
    pub fn parse(&self, pgn: &str) -> (r: Result<Vec<ParsedGame>, ParseError>)
        ensures
            match parse_pgn(pgn@) {
                Ok(games) => r matches Ok(g) && game_records(g@) == games,
                Err(fault) => r matches Err(e) && e@ == fault,
            },
    {
        let text = chars_of(pgn);
        let tokens = match tokenize(&text) {
            Ok(tokens) => tokens,
            Err(error) => {
                return Err(error);
            },
        };
        split_games(&tokens)
    }
}

} // verus!

verus! {

/// Whether a move's hints, where it has any, name a file a to h and a rank 1
/// to 8.
pub open spec fn hints_on_board(action: Action) -> bool {
    match action.kind {
        ActionKind::Normal { source_file, source_rank, .. } => (source_file matches Some(f) ==> f
            < 8) && (source_rank matches Some(r) ==> r < 8),
        _ => true,
    }
}

/// Whether every move of a list has its hints on the board.
pub open spec fn all_hints_on_board(actions: Seq<Action>) -> bool {
    forall|i: int| 0 <= i < actions.len() ==> hints_on_board(#[trigger] actions[i])
}

/// Whether every move of every game has its hints on the board.
pub open spec fn games_hints_on_board(games: Seq<GameRecord>) -> bool {
    forall|g: int| 0 <= g < games.len() ==> all_hints_on_board(#[trigger] games[g].actions)
}

proof fn lemma_last_hints(prefix: Seq<char>)
    ensures
        last_file_hint(prefix) matches Some(f) ==> f < 8,
        last_rank_hint(prefix) matches Some(r) ==> r < 8,
    decreases prefix.len(),
{
    if prefix.len() > 0 {
        lemma_last_hints(prefix.drop_last());
    }
}

proof fn lemma_san_hints(token: Seq<char>)
    ensures
        parse_san_spec(token) matches Ok(action) ==> hints_on_board(action),
{
    if token.len() > 0 {
        let core = san_core(token);
        let body = if lettered(core) {
            core.skip(1)
        } else {
            core
        };
        match promotion_split(body, core) {
            Ok((promotion, rest)) => {
                if rest.len() >= 2 {
                    lemma_last_hints(rest.take(rest.len() - 2));
                }
            },
            Err(_) => {},
        }
    }
}

proof fn lemma_split_run_hints(st: SplitState, tokens: Seq<PgnToken>)
    requires
        games_hints_on_board(st.games),
        all_hints_on_board(st.actions),
    ensures
        split_run(st, tokens) matches Ok(end) ==> games_hints_on_board(end.games)
            && all_hints_on_board(end.actions),
    decreases tokens.len(),
{
    if tokens.len() > 0 {
        let token = tokens[0];
        match token {
            PgnToken::Move(word) => {
                lemma_san_hints(word);
            },
            _ => {},
        }
        match split_step(st, token) {
            Ok(next) => {
                assert(games_hints_on_board(close_game(st).games)) by {
                    let games = close_game(st).games;
                    assert forall|g: int| 0 <= g < games.len() implies all_hints_on_board(
                        #[trigger] games[g].actions,
                    ) by {
                        if g < st.games.len() {
                            assert(games[g] == st.games[g]);
                        }
                    }
                }
                assert(all_hints_on_board(next.actions)) by {
                    match token {
                        PgnToken::Move(word) => {
                            if let Ok(action) = parse_san_spec(word) {
                                assert forall|i: int| 0 <= i < next.actions.len() implies hints_on_board(
                                    #[trigger] next.actions[i],
                                ) by {
                                    if i < st.actions.len() {
                                        assert(next.actions[i] == st.actions[i]);
                                    }
                                }
                            }
                        },
                        _ => {},
                    }
                }
                lemma_split_run_hints(next, tokens.drop_first());
            },
            Err(_) => {},
        }
    }
}

/// Every move the parser yields names its hints, where it has any, as a file
/// a to h and a rank 1 to 8.
pub proof fn lemma_parsed_hints_on_board(text: Seq<char>)
    ensures
        parse_pgn(text) matches Ok(games) ==> games_hints_on_board(games),
{
    if let Ok(tokens) = tokens_from(text, 0) {
        lemma_split_run_hints(empty_split(), tokens);
        if let Ok(end) = split_run(empty_split(), tokens) {
            let games = final_games(end);
            assert forall|g: int| 0 <= g < games.len() implies all_hints_on_board(
                #[trigger] games[g].actions,
            ) by {
                if g < end.games.len() {
                    assert(games[g] == end.games[g]);
                }
            }
        }
    }
}

} // verus!

verus! {

// ===========================================================================
// READING BACK WHAT IS WRITTEN
// ===========================================================================

/// The hints and capture mark of a move as written: the file and rank
/// hints, then `x` for a capture.
pub open spec fn hint_prefix(source_file: Option<u8>, source_rank: Option<u8>, is_capture: bool) -> Seq<
    char,
> {
    hint_text(source_file, source_rank) + (if is_capture {
        seq!['x']
    } else {
        seq![]
    })
}

proof fn lemma_hint_text(source_file: Option<u8>, source_rank: Option<u8>)
    requires
        source_file matches Some(f) ==> f < 8,
        source_rank matches Some(r) ==> r < 8,
    ensures
        last_file_hint(hint_text(source_file, source_rank)) == source_file,
        last_rank_hint(hint_text(source_file, source_rank)) == source_rank,
        forall|k: int|
            0 <= k < hint_text(source_file, source_rank).len() ==> {
                let c = #[trigger] hint_text(source_file, source_rank)[k];
                &&& is_file_char(c) || is_rank_char(c)
            },
{
    let hints = hint_text(source_file, source_rank);
    match (source_file, source_rank) {
        (None, None) => {
            assert(hints =~= Seq::<char>::empty());
        },
        (Some(f), None) => {
            let fc = (97 + f) as char;
            assert(fc as int == 97 + f);
            assert(is_file_char(fc) && !is_rank_char(fc));
            assert(hints =~= seq![fc]);
            assert(hints.last() == fc);
            assert(hints.drop_last() =~= Seq::<char>::empty());
            assert(last_file_hint(hints) == Some(((fc as int) - 97) as u8));
            assert(last_rank_hint(hints) == last_rank_hint(hints.drop_last()));
        },
        (None, Some(r)) => {
            let rc = (49 + r) as char;
            assert(rc as int == 49 + r);
            assert(!is_file_char(rc) && is_rank_char(rc));
            assert(hints =~= seq![rc]);
            assert(hints.last() == rc);
            assert(hints.drop_last() =~= Seq::<char>::empty());
            assert(last_file_hint(hints) == last_file_hint(hints.drop_last()));
            assert(last_rank_hint(hints) == Some(((rc as int) - 49) as u8));
        },
        (Some(f), Some(r)) => {
            let fc = (97 + f) as char;
            let rc = (49 + r) as char;
            assert(fc as int == 97 + f);
            assert(rc as int == 49 + r);
            assert(is_file_char(fc) && !is_rank_char(fc));
            assert(!is_file_char(rc) && is_rank_char(rc));
            assert(hints =~= seq![fc, rc]);
            assert(hints.last() == rc);
            assert(hints.drop_last() =~= seq![fc]);
            assert(hints.drop_last().last() == fc);
            assert(hints.drop_last().drop_last() =~= Seq::<char>::empty());
            assert(last_file_hint(hints) == last_file_hint(hints.drop_last()));
            assert(last_file_hint(hints.drop_last()) == Some(((fc as int) - 97) as u8));
            assert(last_rank_hint(hints) == Some(((rc as int) - 49) as u8));
        },
    }
}

proof fn lemma_hint_prefix(source_file: Option<u8>, source_rank: Option<u8>, is_capture: bool)
    requires
        source_file matches Some(f) ==> f < 8,
        source_rank matches Some(r) ==> r < 8,
    ensures
        last_file_hint(hint_prefix(source_file, source_rank, is_capture)) == source_file,
        last_rank_hint(hint_prefix(source_file, source_rank, is_capture)) == source_rank,
        forall|k: int|
            0 <= k < hint_prefix(source_file, source_rank, is_capture).len() ==> is_prefix_char(
                #[trigger] hint_prefix(source_file, source_rank, is_capture)[k],
            ),
        has_char(hint_prefix(source_file, source_rank, is_capture), 'x') == is_capture,
{
    let hints = hint_text(source_file, source_rank);
    let prefix = hint_prefix(source_file, source_rank, is_capture);
    lemma_hint_text(source_file, source_rank);
    if is_capture {
        assert(prefix.drop_last() =~= hints);
        assert(prefix[prefix.len() - 1] == 'x');
    } else {
        assert(prefix =~= hints);
    }
    assert forall|k: int| 0 <= k < prefix.len() implies is_prefix_char(#[trigger] prefix[k]) by {
        if k < hints.len() {
            assert(prefix[k] == hints[k]);
        }
    }
    if !is_capture {
        assert forall|k: int| 0 <= k < prefix.len() implies #[trigger] prefix[k] != 'x' by {
            assert(prefix[k] == hints[k]);
        }
    }
}

proof fn lemma_strip_unchanged(s: Seq<char>, pattern: Seq<char>)
    requires
        pattern.len() > 0,
        s.len() > 0,
        s.last() != pattern.last(),
    ensures
        strip_suffix_all(s, pattern) == s,
{
    if s.len() >= pattern.len() {
        let tail = s.skip(s.len() - pattern.len());
        assert(tail[pattern.len() - 1] == s.last());
        if tail == pattern {
            assert(tail.last() == pattern.last());
        }
    }
}

/// A move text that ends in neither `.` nor `p` keeps its en passant marker
/// free ending.
proof fn lemma_no_en_passant_marker(s: Seq<char>)
    requires
        s.len() > 0,
        s.last() != '.',
        s.last() != 'p',
    ensures
        strip_suffix_all(strip_suffix_all(s, "e.p."@), "e.p"@) == s,
{
    reveal_strlit("e.p.");
    reveal_strlit("e.p");
    lemma_strip_unchanged(s, "e.p."@);
    lemma_strip_unchanged(s, "e.p"@);
}

/// Whether a move can be written as SAN and read back as itself: its hints
/// and destination name squares on the board, and it does not promote to a
/// pawn (which has no letter to write).
pub open spec fn writable(action: Action) -> bool {
    match action.kind {
        ActionKind::Normal { source_file, source_rank, destination, promotion, .. } => {
            &&& source_file matches Some(f) ==> f < 8
            &&& source_rank matches Some(r) ==> r < 8
            &&& destination.file_index() < 8
            &&& destination.rank_index() < 8
            &&& 0 <= destination.file_index()
            &&& 0 <= destination.rank_index()
            &&& promotion != Some(PieceKind::Pawn)
        },
        _ => true,
    }
}

proof fn lemma_marks_start_append(core: Seq<char>, marks: Seq<char>)
    requires
        core.len() > 0,
        !is_mark(core.last()),
        forall|k: int| 0 <= k < marks.len() ==> is_mark(#[trigger] marks[k]),
    ensures
        marks_start(core + marks, (core + marks).len() as int) == core.len(),
    decreases marks.len(),
{
    let t = core + marks;
    if marks.len() > 0 {
        lemma_marks_start_append(core, marks.drop_last());
        assert(core + marks.drop_last() =~= t.take(t.len() - 1));
        lemma_marks_start_prefix(t, t.len() - 1);
    }
}

proof fn lemma_marks_start_prefix(t: Seq<char>, end: int)
    requires
        0 <= end <= t.len(),
    ensures
        marks_start(t, end) == marks_start(t.take(end), end),
    decreases end,
{
    if end > 0 {
        lemma_marks_start_prefix(t, end - 1);
        lemma_marks_start_prefix(t.take(end), end - 1);
        assert(t.take(end).take(end - 1) =~= t.take(end - 1));
    }
}

/// Writing a move as SAN and reading the text back gives the move again.
pub proof fn lemma_san_round_trip(action: Action)
    requires
        writable(action),
    ensures
        parse_san_spec(san_text(action)) == Ok::<Action, ParseFault>(action),
{
    let token = san_text(action);
    let marks = suffix_of(action.check);
    assert(forall|k: int| 0 <= k < marks.len() ==> is_mark(#[trigger] marks[k]));
    assert(check_of(marks) == action.check) by {
        if marks.len() > 0 {
            assert(marks[0] == '+' || marks[0] == '#');
        }
    }
    match action.kind {
        ActionKind::CastleKingside => {
            let core = seq!['O', '-', 'O'];
            assert(token =~= core + marks);
            lemma_marks_start_append(core, marks);
            assert(token.take(3) =~= core);
            assert(token.subrange(3, token.len() as int) =~= marks);
            lemma_no_en_passant_marker(core);
            assert(core.map_values(|c: char| castle_char(c)) =~= core);
        },
        ActionKind::CastleQueenside => {
            let core = seq!['O', '-', 'O', '-', 'O'];
            assert(token =~= core + marks);
            lemma_marks_start_append(core, marks);
            assert(token.take(5) =~= core);
            assert(token.subrange(5, token.len() as int) =~= marks);
            lemma_no_en_passant_marker(core);
            assert(core.map_values(|c: char| castle_char(c)) =~= core);
        },
        ActionKind::Normal { piece, source_file, source_rank, destination, is_capture, promotion } => {
            lemma_normal_round_trip(action);
        },
    }
}

/// The SAN text of an ordinary move without its check suffix, in its four
/// parts: piece letter, hints and capture mark, destination, promotion.
pub open spec fn normal_core(action: Action) -> Seq<char> {
    optional_char(san_letter_of(action.kind->piece)) + hint_prefix(
        action.kind->source_file,
        action.kind->source_rank,
        action.kind->is_capture,
    ) + square_text(action.kind->destination) + promotion_text(action.kind->promotion)
}

proof fn lemma_normal_core(action: Action)
    requires
        writable(action),
        action.kind is Normal,
    ensures
        ({
            let token = san_text(action);
            let core = normal_core(action);
            &&& core.len() >= 2
            &&& marks_start(token, token.len() as int) == core.len()
            &&& check_of(token.subrange(core.len() as int, token.len() as int)) == action.check
            &&& san_core(token) == core
        }),
{
    let token = san_text(action);
    let marks = suffix_of(action.check);
    let core = normal_core(action);
    let square = square_text(action.kind->destination);
    let promo = promotion_text(action.kind->promotion);
    assert(normal_move_text(
        action.kind->piece,
        action.kind->source_file,
        action.kind->source_rank,
        action.kind->destination,
        action.kind->is_capture,
        action.kind->promotion,
    ) =~= core);
    assert(token =~= core + marks);
    assert(forall|k: int| 0 <= k < marks.len() ==> is_mark(#[trigger] marks[k]));
    assert(check_of(marks) == action.check) by {
        if marks.len() > 0 {
            assert(marks[0] == '+' || marks[0] == '#');
        }
    }
    if promo.len() > 0 {
        assert(core.last() == promo.last());
    } else {
        assert(core.last() == square.last());
    }
    lemma_marks_start_append(core, marks);
    assert(token.take(core.len() as int) =~= core);
    assert(token.subrange(core.len() as int, token.len() as int) =~= marks);
    lemma_no_en_passant_marker(core);
}

/// The character at `k` of an ordinary move's text is never a hyphen or an
/// equals sign before its promotion part.
proof fn lemma_normal_chars(action: Action)
    requires
        writable(action),
        action.kind is Normal,
    ensures
        ({
            let core = normal_core(action);
            let letter = optional_char(san_letter_of(action.kind->piece));
            let prefix = hint_prefix(
                action.kind->source_file,
                action.kind->source_rank,
                action.kind->is_capture,
            );
            let square = square_text(action.kind->destination);
            &&& core.len() >= 2
            &&& core[1] != '-'
            &&& forall|k: int|
                letter.len() <= k < letter.len() + prefix.len() + square.len() ==> #[trigger] core[k]
                    != '='
        }),
{
    let letter = optional_char(san_letter_of(action.kind->piece));
    let prefix = hint_prefix(
        action.kind->source_file,
        action.kind->source_rank,
        action.kind->is_capture,
    );
    let square = square_text(action.kind->destination);
    let promo = promotion_text(action.kind->promotion);
    let core = normal_core(action);
    lemma_hint_prefix(action.kind->source_file, action.kind->source_rank, action.kind->is_capture);
    assert(core =~= letter + prefix + square + promo);
    assert forall|k: int|
        letter.len() <= k < letter.len() + prefix.len() + square.len() implies #[trigger] core[k]
        != '=' by {
        if k < letter.len() + prefix.len() {
            assert(core[k] == prefix[k - letter.len()]);
            assert(is_prefix_char(prefix[k - letter.len()]));
        } else {
            assert(core[k] == square[k - letter.len() - prefix.len()]);
        }
    }
    if letter.len() + prefix.len() > 1 {
        if letter.len() == 0 {
            assert(core[1] == prefix[1]);
            assert(is_prefix_char(prefix[1]));
        } else {
            assert(core[1] == prefix[0]);
            assert(is_prefix_char(prefix[0]));
        }
    } else if letter.len() + prefix.len() == 1 {
        assert(core[1] == square[0]);
    } else {
        assert(core[1] == square[1]);
    }
}

/// No ordinary move is written with a hyphen, so none reads as castling.
proof fn lemma_normal_not_castle(action: Action)
    requires
        writable(action),
        action.kind is Normal,
    ensures
        ({
            let form = normal_core(action).map_values(|c: char| castle_char(c));
            &&& form != seq!['O', '-', 'O', '-', 'O']
            &&& form != seq!['O', '-', 'O']
        }),
{
    let core = normal_core(action);
    lemma_normal_chars(action);
    let form = core.map_values(|c: char| castle_char(c));
    assert(form[1] == castle_char(core[1]));
    assert(form != seq!['O', '-', 'O', '-', 'O']) by {
        if form == seq!['O', '-', 'O', '-', 'O'] {
            assert(form[1] == '-');
        }
    }
    assert(form != seq!['O', '-', 'O']) by {
        if form == seq!['O', '-', 'O'] {
            assert(form[1] == '-');
        }
    }
}

/// The promotion of a move is read off the end of the text that follows its
/// piece letter.
proof fn lemma_promotion_read(action: Action)
    requires
        writable(action),
        action.kind is Normal,
    ensures
        ({
            let core = normal_core(action);
            let body = if lettered(core) {
                core.skip(1)
            } else {
                core
            };
            let rest = hint_prefix(
                action.kind->source_file,
                action.kind->source_rank,
                action.kind->is_capture,
            ) + square_text(action.kind->destination);
            &&& lettered(core) == (action.kind->piece != PieceKind::Pawn)
            &&& promotion_split(body, core) == Ok::<(Option<PieceKind>, Seq<char>), ParseFault>(
                (action.kind->promotion, rest),
            )
        }),
{
    let piece = action.kind->piece;
    let letter = optional_char(san_letter_of(piece));
    let prefix = hint_prefix(
        action.kind->source_file,
        action.kind->source_rank,
        action.kind->is_capture,
    );
    let square = square_text(action.kind->destination);
    let promo = promotion_text(action.kind->promotion);
    let core = normal_core(action);
    lemma_hint_prefix(action.kind->source_file, action.kind->source_rank, action.kind->is_capture);
    lemma_normal_chars(action);
    assert(core =~= letter + prefix + square + promo);
    assert(lettered(core) == (piece != PieceKind::Pawn)) by {
        if piece == PieceKind::Pawn {
            if prefix.len() > 0 {
                assert(core[0] == prefix[0]);
                assert(is_prefix_char(prefix[0]));
            } else {
                assert(core[0] == square[0]);
            }
        } else {
            assert(core[0] == letter[0]);
        }
    }
    let body = if lettered(core) {
        core.skip(1)
    } else {
        core
    };
    let rest = prefix + square;
    assert(body =~= rest + promo);
    assert forall|k: int| 0 <= k < rest.len() implies #[trigger] body[k] != '=' by {
        assert(body[k] == core[k + letter.len()]);
    }
    match action.kind->promotion {
        Some(kind) => {
            assert(promo =~= seq!['=', san_letter_of(kind).unwrap()]);
            lemma_first_index_found(body, '=', rest.len() as int);
            assert(body.take(rest.len() as int) =~= rest);
        },
        None => {
            assert(promo =~= Seq::<char>::empty());
            assert(body =~= rest);
            lemma_first_index_absent(body, '=');
        },
    }
}

proof fn lemma_normal_body(action: Action)
    requires
        writable(action),
        action.kind is Normal,
    ensures
        parse_normal_spec(normal_core(action), action.check) == Ok::<Action, ParseFault>(action),
{
    let source_file = action.kind->source_file;
    let source_rank = action.kind->source_rank;
    let destination = action.kind->destination;
    let prefix = hint_prefix(source_file, source_rank, action.kind->is_capture);
    let square = square_text(destination);
    let core = normal_core(action);
    lemma_hint_prefix(source_file, source_rank, action.kind->is_capture);
    lemma_promotion_read(action);
    let rest = prefix + square;
    assert(rest.take(rest.len() - 2) =~= prefix);
    assert(rest[rest.len() - 2] == square[0]);
    assert(rest[rest.len() - 1] == square[1]);
    assert(!(exists|k: int| 0 <= k < prefix.len() && !is_prefix_char(#[trigger] prefix[k])));
    lemma_square_at(destination.file_index() as u8, destination.rank_index() as u8);
    lemma_square_ext(
        square_at(destination.file_index() as u8, destination.rank_index() as u8),
        destination,
    );
}

proof fn lemma_normal_round_trip(action: Action)
    requires
        writable(action),
        action.kind is Normal,
    ensures
        parse_san_spec(san_text(action)) == Ok::<Action, ParseFault>(action),
{
    lemma_normal_core(action);
    lemma_normal_not_castle(action);
    lemma_normal_body(action);
}

proof fn lemma_first_index_found(s: Seq<char>, c: char, at: int)
    requires
        0 <= at < s.len(),
        s[at] == c,
        forall|k: int| 0 <= k < at ==> #[trigger] s[k] != c,
    ensures
        first_index(s, c, 0) == Some(at),
{
    lemma_first_index_from(s, c, 0, at);
}

proof fn lemma_first_index_from(s: Seq<char>, c: char, i: int, at: int)
    requires
        0 <= i <= at < s.len(),
        s[at] == c,
        forall|k: int| i <= k < at ==> #[trigger] s[k] != c,
    ensures
        first_index(s, c, i) == Some(at),
    decreases at - i,
{
    if i < at {
        lemma_first_index_from(s, c, i + 1, at);
    }
}

proof fn lemma_first_index_absent(s: Seq<char>, c: char)
    requires
        forall|k: int| 0 <= k < s.len() ==> #[trigger] s[k] != c,
    ensures
        first_index(s, c, 0) is None,
{
    lemma_first_index_none_from(s, c, 0);
}

proof fn lemma_first_index_none_from(s: Seq<char>, c: char, i: int)
    requires
        0 <= i,
        forall|k: int| 0 <= k < s.len() ==> #[trigger] s[k] != c,
    ensures
        first_index(s, c, i) is None,
    decreases s.len() - i,
{
    if i < s.len() {
        lemma_first_index_none_from(s, c, i + 1);
    }
}

} // verus!

verus! {

// ===========================================================================
// ANNOTATION GLYPHS AND LINE ENDINGS
// ===========================================================================

proof fn lemma_marks_start_le(t: Seq<char>, end: int)
    requires
        0 <= end,
    ensures
        0 <= marks_start(t, end) <= end,
    decreases end,
{
    if end > 0 {
        lemma_marks_start_le(t, end - 1);
    }
}

proof fn lemma_marks_start_glyphs(t: Seq<char>, glyphs: Seq<char>)
    requires
        forall|k: int| 0 <= k < glyphs.len() ==> #[trigger] glyphs[k] == '!' || glyphs[k] == '?',
    ensures
        marks_start(t + glyphs, (t + glyphs).len() as int) == marks_start(t, t.len() as int),
    decreases glyphs.len(),
{
    let s = t + glyphs;
    if glyphs.len() == 0 {
        assert(s =~= t);
    } else {
        let shorter = glyphs.drop_last();
        assert forall|k: int| 0 <= k < shorter.len() implies #[trigger] shorter[k] == '!'
            || shorter[k] == '?' by {
            assert(shorter[k] == glyphs[k]);
        }
        lemma_marks_start_glyphs(t, shorter);
        assert(s[s.len() - 1] == glyphs[glyphs.len() - 1]);
        assert(is_mark(s[s.len() - 1]));
        lemma_marks_start_prefix(s, s.len() - 1);
        assert(s.take(s.len() - 1) =~= t + shorter);
    }
}

proof fn lemma_has_char_glyphs(x: Seq<char>, glyphs: Seq<char>, c: char)
    requires
        c != '!' && c != '?',
        forall|k: int| 0 <= k < glyphs.len() ==> #[trigger] glyphs[k] == '!' || glyphs[k] == '?',
    ensures
        has_char(x + glyphs, c) == has_char(x, c),
{
    if has_char(x + glyphs, c) {
        let k = choose|k: int| 0 <= k < (x + glyphs).len() && (x + glyphs)[k] == c;
        if k >= x.len() {
            assert(glyphs[k - x.len()] == c);
        } else {
            assert(x[k] == c);
        }
    }
    if has_char(x, c) {
        let k = choose|k: int| 0 <= k < x.len() && x[k] == c;
        assert((x + glyphs)[k] == c);
    }
}

/// Annotation glyphs after a move (`!`, `?`, `!!`, `!?`, `?!`, `??`, or any
/// run of `!` and `?`) never change the move read: a token that reads as a
/// move reads as the same move with glyphs appended.
pub proof fn lemma_annotation_glyphs(token: Seq<char>, glyphs: Seq<char>)
    requires
        parse_san_spec(token) is Ok,
        forall|k: int| 0 <= k < glyphs.len() ==> #[trigger] glyphs[k] == '!' || glyphs[k] == '?',
    ensures
        parse_san_spec(token + glyphs) == parse_san_spec(token),
{
    let s = token + glyphs;
    lemma_marks_start_glyphs(token, glyphs);
    let end = marks_start(token, token.len() as int);
    lemma_marks_start_le(token, token.len() as int);
    assert(s.take(end) =~= token.take(end));
    assert(s.subrange(end, s.len() as int) =~= token.subrange(end, token.len() as int) + glyphs);
    lemma_has_char_glyphs(token.subrange(end, token.len() as int), glyphs, '#');
    lemma_has_char_glyphs(token.subrange(end, token.len() as int), glyphs, '+');
    assert(san_core(s) == san_core(token));
}

} // verus!

verus! {

// ===========================================================================
// LINE ENDINGS AND MOVE WORDS
// ===========================================================================

/// Whether `w` holds no space, tab, carriage return or newline.
pub open spec fn unbroken(w: Seq<char>) -> bool {
    forall|j: int|
        0 <= j < w.len() ==> #[trigger] w[j] != ' ' && w[j] != '\t' && w[j] != '\r' && w[j]
            != '\n'
}

/// Whether every move token is unbroken.
pub open spec fn moves_unbroken(tokens: Seq<PgnToken>) -> bool {
    forall|k: int| 0 <= k < tokens.len() ==> (#[trigger] tokens[k] matches PgnToken::Move(m) ==> unbroken(m))
}

proof fn lemma_word_tokens_unbroken(w: Seq<char>)
    requires
        forall|j: int| 0 <= j < w.len() ==> !is_word_end_char(#[trigger] w[j]),
    ensures
        moves_unbroken(word_tokens(w)),
{
    lemma_leading_digits(w, 0);
    let digits = leading_digits(w, 0);
    lemma_dots_end(w, digits);
    let core = strip_move_number(w);
    assert(unbroken(core)) by {
        assert forall|j: int| 0 <= j < core.len() implies #[trigger] core[j] != ' ' && core[j]
            != '\t' && core[j] != '\r' && core[j] != '\n' by {
            if digits > 0 && dots_end(w, digits) > digits {
                let dots = dots_end(w, digits);
                assert(core[j] == w[j + dots]);
                assert(!is_word_end_char(w[j + dots]));
            } else {
                assert(!is_word_end_char(w[j]));
            }
        }
    }
}

proof fn lemma_prepend_unbroken(head: Seq<PgnToken>, rest: Result<Seq<PgnToken>, ParseFault>)
    requires
        moves_unbroken(head),
        rest matches Ok(tokens) ==> moves_unbroken(tokens),
    ensures
        prepend_tokens(head, rest) matches Ok(tokens) ==> moves_unbroken(tokens),
{
    if let Ok(tail) = rest {
        let all = head + tail;
        assert forall|k: int| 0 <= k < all.len() implies (#[trigger] all[k] matches PgnToken::Move(
            m,
        ) ==> unbroken(m)) by {
            if k < head.len() {
                assert(all[k] == head[k]);
            } else {
                assert(all[k] == tail[k - head.len()]);
            }
        }
    }
}

/// Move words end at whitespace: no move token read from PGN text holds a
/// space, a tab, a carriage return or a newline, so a move at the end of a
/// line reads the same whether the line ends in `\n` or in `\r\n`.
pub proof fn lemma_moves_unbroken(s: Seq<char>, i: int)
    requires
        0 <= i,
    ensures
        tokens_from(s, i) matches Ok(tokens) ==> moves_unbroken(tokens),
    decreases s.len() - i,
{
    if i < s.len() {
        let c = s[i];
        if is_blank(c) || c == ')' || c == ']' || c == '}' {
            lemma_moves_unbroken(s, i + 1);
        } else if c == '{' {
            lemma_brace_end(s, i);
            lemma_moves_unbroken(s, brace_end(s, i));
        } else if c == ';' {
            lemma_line_end(s, i);
            lemma_moves_unbroken(s, line_end(s, i));
        } else if c == '(' {
            lemma_variation_end(s, i + 1, 1);
            lemma_moves_unbroken(s, variation_end(s, i + 1, 1));
        } else if c == '$' {
            lemma_digits_end(s, i + 1);
            lemma_moves_unbroken(s, digits_end(s, i + 1));
        } else if c == '[' {
            lemma_read_tag(s, i);
            if let Ok((name, value, end)) = read_tag_spec(s, i) {
                lemma_moves_unbroken(s, end);
                let head = seq![PgnToken::Tag(name, value)];
                assert(moves_unbroken(head));
                lemma_prepend_unbroken(head, tokens_from(s, end));
            }
        } else {
            lemma_word_end(s, i);
            let end = word_end(s, i);
            lemma_moves_unbroken(s, end);
            let w = s.subrange(i, end);
            assert forall|j: int| 0 <= j < w.len() implies !is_word_end_char(#[trigger] w[j]) by {
                assert(w[j] == s[i + j]);
            }
            lemma_word_tokens_unbroken(w);
            lemma_prepend_unbroken(word_tokens(w), tokens_from(s, end));
        }
    }
}

/// Between tokens a carriage return is whitespace: the tokens read from a
/// position holding `\r` are those read from the position after it, so a
/// `\r` before a line's `\n` changes nothing.
pub proof fn lemma_carriage_return_skipped(s: Seq<char>, i: int)
    requires
        0 <= i < s.len(),
        s[i] == '\r',
    ensures
        tokens_from(s, i) == tokens_from(s, i + 1),
{
}

// ===========================================================================
// TAG VALUES
// ===========================================================================

/// A tag value is returned, trimmed, by the lookup of the first tag with the
/// wanted name (ignoring ASCII case) when it is not empty and holds a
/// character other than `?` and `.`; a partial date such as `1852.??.??` is
/// kept. A value made only of `?` and `.`, or empty, reads as absent.
pub proof fn lemma_tag_value_kept(tags: Seq<TagPair>, wanted: Seq<char>, k: int)
    requires
        0 <= k < tags.len(),
        eq_ignore_ascii_case(tags[k].0, wanted),
        forall|j: int| 0 <= j < k ==> !eq_ignore_ascii_case(#[trigger] tags[j].0, wanted),
    ensures
        (exists|j: int|
            0 <= j < trim(tags[k].1).len() && #[trigger] trim(tags[k].1)[j] != '?' && trim(
                tags[k].1,
            )[j] != '.') ==> tag_value_spec(tags, wanted) == Some(trim(tags[k].1)),
        (forall|j: int|
            0 <= j < trim(tags[k].1).len() ==> #[trigger] trim(tags[k].1)[j] == '?' || trim(
                tags[k].1,
            )[j] == '.') ==> tag_value_spec(tags, wanted) is None,
{
    lemma_first_tag_named(tags, wanted, 0, k);
    let value = trim(tags[k].1);
    if exists|j: int| 0 <= j < value.len() && #[trigger] value[j] != '?' && value[j] != '.' {
        let j = choose|j: int| 0 <= j < value.len() && #[trigger] value[j] != '?' && value[j] != '.';
        assert(!is_placeholder(value)) by {
            assert(!(value[j] == '?' || value[j] == '.'));
        }
    }
}

proof fn lemma_first_tag_named(tags: Seq<TagPair>, wanted: Seq<char>, i: int, k: int)
    requires
        0 <= i <= k < tags.len(),
        eq_ignore_ascii_case(tags[k].0, wanted),
        forall|j: int| 0 <= j < k ==> !eq_ignore_ascii_case(#[trigger] tags[j].0, wanted),
    ensures
        first_tag_named(tags, wanted, i) == Some(k),
    decreases k - i,
{
    if i < k {
        assert(!eq_ignore_ascii_case(tags[i].0, wanted));
        lemma_first_tag_named(tags, wanted, i + 1, k);
    }
}

} // verus!

verus! {

// ===========================================================================
// COMMENTS, GLYPHS, VARIATIONS AND MOVE NUMBERS
// ===========================================================================

proof fn lemma_brace_end_at(s: Seq<char>, k: int, close: int)
    requires
        0 <= k <= close < s.len(),
        s[close] == '}',
        forall|m: int| k <= m < close ==> #[trigger] s[m] != '}',
    ensures
        brace_end(s, k) == close + 1,
    decreases close - k,
{
    if k < close {
        lemma_brace_end_at(s, k + 1, close);
    }
}

proof fn lemma_brace_end_open(s: Seq<char>, k: int)
    requires
        0 <= k <= s.len(),
        forall|m: int| k <= m < s.len() ==> #[trigger] s[m] != '}',
    ensures
        brace_end(s, k) == s.len(),
    decreases s.len() - k,
{
    if k < s.len() {
        lemma_brace_end_open(s, k + 1);
    }
}

proof fn lemma_line_end_at(s: Seq<char>, k: int, newline: int)
    requires
        0 <= k <= newline <= s.len(),
        newline < s.len() ==> s[newline] == '\n',
        forall|m: int| k <= m < newline ==> #[trigger] s[m] != '\n',
    ensures
        line_end(s, k) == newline,
    decreases newline - k,
{
    if k < newline {
        lemma_line_end_at(s, k + 1, newline);
    }
}

proof fn lemma_digits_end_at(s: Seq<char>, k: int, end: int)
    requires
        0 <= k <= end <= s.len(),
        end < s.len() ==> !('0' <= s[end] && s[end] <= '9'),
        forall|m: int| k <= m < end ==> '0' <= #[trigger] s[m] && s[m] <= '9',
    ensures
        digits_end(s, k) == end,
    decreases end - k,
{
    if k < end {
        lemma_digits_end_at(s, k + 1, end);
    }
}

proof fn lemma_variation_end_at(s: Seq<char>, k: int, close: int)
    requires
        0 <= k <= close < s.len(),
        s[close] == ')',
        forall|m: int|
            k <= m < close ==> #[trigger] s[m] != '(' && s[m] != ')' && s[m] != '{' && s[m]
                != ';',
    ensures
        variation_end(s, k, 1) == close + 1,
    decreases close - k,
{
    if k < close {
        lemma_variation_end_at(s, k + 1, close);
    }
}

/// A brace comment yields nothing: reading resumes just past the first `}`
/// after the `{`.
pub proof fn lemma_brace_comment(s: Seq<char>, i: int, close: int)
    requires
        0 <= i < close < s.len(),
        s[i] == '{',
        s[close] == '}',
        forall|m: int| i < m < close ==> #[trigger] s[m] != '}',
    ensures
        tokens_from(s, i) == tokens_from(s, close + 1),
{
    lemma_brace_end_at(s, i, close);
}

/// A brace comment left open runs to the end of the text and yields
/// nothing.
pub proof fn lemma_open_brace_comment(s: Seq<char>, i: int)
    requires
        0 <= i < s.len(),
        s[i] == '{',
        forall|m: int| i < m < s.len() ==> #[trigger] s[m] != '}',
    ensures
        tokens_from(s, i) == Ok::<Seq<PgnToken>, ParseFault>(Seq::<PgnToken>::empty()),
{
    lemma_brace_end_open(s, i);
    assert(tokens_from(s, s.len() as int) == Ok::<Seq<PgnToken>, ParseFault>(
        Seq::<PgnToken>::empty(),
    ));
}

/// A `;` comment yields nothing and runs to the end of its line: reading
/// resumes at the first newline after the `;`.
pub proof fn lemma_line_comment(s: Seq<char>, i: int, newline: int)
    requires
        0 <= i < newline <= s.len(),
        s[i] == ';',
        newline < s.len() ==> s[newline] == '\n',
        forall|m: int| i < m < newline ==> #[trigger] s[m] != '\n',
    ensures
        tokens_from(s, i) == tokens_from(s, newline),
{
    lemma_line_end_at(s, i, newline);
}

/// A numeric annotation glyph (`$` and its digits) yields nothing: reading
/// resumes at the first character after `$` that is not a digit.
pub proof fn lemma_numeric_glyph(s: Seq<char>, i: int, end: int)
    requires
        0 <= i < end <= s.len(),
        s[i] == '$',
        end < s.len() ==> !('0' <= s[end] && s[end] <= '9'),
        forall|m: int| i < m < end ==> '0' <= #[trigger] s[m] && s[m] <= '9',
    ensures
        tokens_from(s, i) == tokens_from(s, end),
{
    lemma_digits_end_at(s, i + 1, end);
}

/// A recursive variation yields nothing: for a variation `( ... )` holding no
/// parenthesis or comment of its own, reading resumes just past its `)`.
pub proof fn lemma_variation_skipped(s: Seq<char>, i: int, close: int)
    requires
        0 <= i < close < s.len(),
        s[i] == '(',
        s[close] == ')',
        forall|m: int|
            i < m < close ==> #[trigger] s[m] != '(' && s[m] != ')' && s[m] != '{' && s[m]
                != ';',
    ensures
        tokens_from(s, i) == tokens_from(s, close + 1),
{
    lemma_variation_end_at(s, i + 1, close);
}

proof fn lemma_leading_digits_at(w: Seq<char>, k: int, end: int)
    requires
        0 <= k <= end <= w.len(),
        end < w.len() ==> !is_digit(w[end]),
        forall|m: int| k <= m < end ==> is_digit(#[trigger] w[m]),
    ensures
        leading_digits(w, k) == end,
    decreases end - k,
{
    if k < end {
        lemma_leading_digits_at(w, k + 1, end);
    }
}

proof fn lemma_dots_end_at(w: Seq<char>, k: int, end: int)
    requires
        0 <= k <= end <= w.len(),
        end < w.len() ==> w[end] != '.',
        forall|m: int| k <= m < end ==> #[trigger] w[m] == '.',
    ensures
        dots_end(w, k) == end,
    decreases end - k,
{
    if k < end {
        lemma_dots_end_at(w, k + 1, end);
    }
}

/// A move number written before a move (`12.Nf3`, `12...Nf3`) is dropped:
/// a word made of digits, one or more dots and a move that starts with
/// neither a digit nor a dot reads as that move alone.
pub proof fn lemma_move_number_dropped(number: Seq<char>, dots: Seq<char>, san: Seq<char>)
    requires
        number.len() > 0,
        forall|k: int| 0 <= k < number.len() ==> '0' <= #[trigger] number[k] && number[k] <= '9',
        dots.len() > 0,
        forall|k: int| 0 <= k < dots.len() ==> #[trigger] dots[k] == '.',
        san.len() > 0,
        !('0' <= san[0] && san[0] <= '9'),
        san[0] != '.',
    ensures
        word_tokens(number + dots + san) == seq![PgnToken::Move(san)],
{
    let w = number + dots + san;
    let d = number.len() as int;
    let e = d + dots.len();
    assert forall|m: int| 0 <= m < d implies is_digit(#[trigger] w[m]) by {
        assert(w[m] == number[m]);
    }
    assert(w[d] == dots[0]);
    lemma_leading_digits_at(w, 0, d);
    assert forall|m: int| d <= m < e implies #[trigger] w[m] == '.' by {
        assert(w[m] == dots[m - d]);
    }
    assert(w[e] == san[0]);
    lemma_dots_end_at(w, d, e);
    assert(w.skip(e) =~= san);
    assert(!all_digits(san)) by {
        assert(!is_digit(san[0]));
    }
    assert(!is_result_word(w)) by {
        assert(w[d] == '.');
        if w.len() == 3 {
            assert(w[1] == '.' || w[2] == '.' || w[0] == '.');
        }
        if w.len() == 7 {
            assert(w[d] == '.');
        }
    }
}

/// A word that starts with neither a digit nor a dot, and is not the
/// unknown-result marker `*`, reads as one move, written as it stands.
pub proof fn lemma_plain_move_word(w: Seq<char>)
    requires
        w.len() > 0,
        !('0' <= w[0] && w[0] <= '9'),
        w[0] != '.',
        w != seq!['*'],
    ensures
        word_tokens(w) == seq![PgnToken::Move(w)],
{
    assert(leading_digits(w, 0) == 0);
    assert(!all_digits(w)) by {
        assert(!is_digit(w[0]));
    }
}

/// The game terminators `1-0`, `0-1`, `1/2-1/2` and `*` each end a game.
pub proof fn lemma_result_words()
    ensures
        word_tokens(seq!['1', '-', '0']) == seq![PgnToken::GameEnd],
        word_tokens(seq!['0', '-', '1']) == seq![PgnToken::GameEnd],
        word_tokens(seq!['1', '/', '2', '-', '1', '/', '2']) == seq![PgnToken::GameEnd],
        word_tokens(seq!['*']) == seq![PgnToken::GameEnd],
{
}

} // verus!

verus! {

// ===========================================================================
// CARRIAGE RETURNS BEFORE NEWLINES
// ===========================================================================

/// `s` with a carriage return inserted at position `p`, before what stood
/// there.
pub open spec fn with_cr_before(s: Seq<char>, p: int) -> Seq<char> {
    s.take(p) + seq!['\r'] + s.skip(p)
}

/// Whether `t` is `s` with one character inserted before position `q`: from
/// `q` on, `t` is `s` one place later.
spec fn shifted(s: Seq<char>, t: Seq<char>, q: int) -> bool {
    &&& t.len() == s.len() + 1
    &&& forall|k: int| q <= k < s.len() ==> #[trigger] t[k + 1] == s[k]
}

proof fn lemma_shifted_brace_end(s: Seq<char>, t: Seq<char>, q: int)
    requires
        0 <= q,
        shifted(s, t, q),
    ensures
        brace_end(t, q + 1) == brace_end(s, q) + 1,
    decreases s.len() - q,
{
    if q < s.len() {
        assert(t[q + 1] == s[q]);
        if s[q] != '}' {
            lemma_shifted_brace_end(s, t, q + 1);
        }
    }
}

proof fn lemma_shifted_line_end(s: Seq<char>, t: Seq<char>, q: int)
    requires
        0 <= q,
        shifted(s, t, q),
    ensures
        line_end(t, q + 1) == line_end(s, q) + 1,
    decreases s.len() - q,
{
    if q < s.len() {
        assert(t[q + 1] == s[q]);
        if s[q] != '\n' {
            lemma_shifted_line_end(s, t, q + 1);
        }
    }
}

proof fn lemma_shifted_digits_end(s: Seq<char>, t: Seq<char>, q: int)
    requires
        0 <= q,
        shifted(s, t, q),
    ensures
        digits_end(t, q + 1) == digits_end(s, q) + 1,
    decreases s.len() - q,
{
    if q < s.len() {
        assert(t[q + 1] == s[q]);
        if is_digit(s[q]) {
            lemma_shifted_digits_end(s, t, q + 1);
        }
    }
}

proof fn lemma_shifted_word_end(s: Seq<char>, t: Seq<char>, q: int)
    requires
        0 <= q,
        shifted(s, t, q),
    ensures
        word_end(t, q + 1) == word_end(s, q) + 1,
    decreases s.len() - q,
{
    if q < s.len() {
        assert(t[q + 1] == s[q]);
        if !is_word_end_char(s[q]) {
            lemma_shifted_word_end(s, t, q + 1);
        }
    }
}

proof fn lemma_shifted_variation_end(s: Seq<char>, t: Seq<char>, q: int, depth: nat)
    requires
        0 <= q,
        shifted(s, t, q),
    ensures
        variation_end(t, q + 1, depth) == variation_end(s, q, depth) + 1,
    decreases s.len() - q,
{
    if q < s.len() {
        assert(t[q + 1] == s[q]);
        if s[q] == '(' {
            lemma_shifted_variation_end(s, t, q + 1, depth + 1);
        } else if s[q] == ')' {
            if depth > 1 {
                lemma_shifted_variation_end(s, t, q + 1, (depth - 1) as nat);
            }
        } else if s[q] == '{' {
            lemma_brace_end(s, q);
            lemma_shifted_brace_end(s, t, q);
            lemma_shifted_variation_end(s, t, brace_end(s, q), depth);
        } else if s[q] == ';' {
            lemma_line_end(s, q);
            lemma_shifted_line_end(s, t, q);
            lemma_shifted_variation_end(s, t, line_end(s, q), depth);
        } else {
            lemma_shifted_variation_end(s, t, q + 1, depth);
        }
    }
}

proof fn lemma_shifted_spaces_end(s: Seq<char>, t: Seq<char>, q: int)
    requires
        0 <= q,
        shifted(s, t, q),
    ensures
        spaces_end(t, q + 1) == spaces_end(s, q) + 1,
    decreases s.len() - q,
{
    if q < s.len() {
        assert(t[q + 1] == s[q]);
        if s[q] == ' ' || s[q] == '\t' {
            lemma_shifted_spaces_end(s, t, q + 1);
        }
    }
}

proof fn lemma_shifted_tag_name_end(s: Seq<char>, t: Seq<char>, q: int)
    requires
        0 <= q,
        shifted(s, t, q),
    ensures
        tag_name_end(t, q + 1) == tag_name_end(s, q) + 1,
    decreases s.len() - q,
{
    if q < s.len() {
        assert(t[q + 1] == s[q]);
        if is_tag_name_char(s[q]) {
            lemma_shifted_tag_name_end(s, t, q + 1);
        }
    }
}

proof fn lemma_shifted_tag_value_scan(s: Seq<char>, t: Seq<char>, q: int)
    requires
        0 <= q,
        shifted(s, t, q),
    ensures
        tag_value_scan(t, q + 1) == match tag_value_scan(s, q) {
            Some((value, end)) => Some((value, end + 1)),
            None => None,
        },
    decreases s.len() - q,
{
    if q < s.len() {
        assert(t[q + 1] == s[q]);
        if q + 1 < s.len() {
            assert(t[q + 2] == s[q + 1]);
        }
        if s[q] != '"' {
            if s[q] == '\\' && q + 1 < s.len() && (s[q + 1] == '"' || s[q + 1] == '\\') {
                lemma_shifted_tag_value_scan(s, t, q + 2);
            } else {
                lemma_shifted_tag_value_scan(s, t, q + 1);
            }
        }
    }
}

proof fn lemma_shifted_read_tag(s: Seq<char>, t: Seq<char>, q: int)
    requires
        0 <= q < s.len(),
        shifted(s, t, q),
    ensures
        read_tag_spec(t, q + 1) == match read_tag_spec(s, q) {
            Ok((name, value, end)) => Ok((name, value, end + 1)),
            Err(fault) => Err(fault),
        },
{
    lemma_spaces_end(s, q + 1);
    lemma_shifted_spaces_end(s, t, q + 1);
    let name_start = spaces_end(s, q + 1);
    lemma_tag_name_end(s, name_start);
    lemma_shifted_tag_name_end(s, t, name_start);
    let name_end = tag_name_end(s, name_start);
    assert forall|k: int| 0 <= k < name_end - name_start implies t.subrange(
        name_start + 1,
        name_end + 1,
    )[k] == s.subrange(name_start, name_end)[k] by {
        assert(t[(name_start + k) + 1] == s[name_start + k]);
    }
    assert(t.subrange(name_start + 1, name_end + 1) =~= s.subrange(name_start, name_end));
    lemma_spaces_end(s, name_end);
    lemma_shifted_spaces_end(s, t, name_end);
    let quote = spaces_end(s, name_end);
    if quote < s.len() {
        assert(t[quote + 1] == s[quote]);
        lemma_shifted_tag_value_scan(s, t, quote + 1);
        lemma_tag_value_scan(s, quote + 1);
        if let Some((_, value_end)) = tag_value_scan(s, quote + 1) {
            lemma_spaces_end(s, value_end);
            lemma_shifted_spaces_end(s, t, value_end);
            let close = spaces_end(s, value_end);
            if close < s.len() {
                assert(t[close + 1] == s[close]);
            }
        }
    }
}

proof fn lemma_shifted_tokens(s: Seq<char>, t: Seq<char>, q: int)
    requires
        0 <= q,
        shifted(s, t, q),
    ensures
        tokens_from(t, q + 1) == tokens_from(s, q),
    decreases s.len() - q,
{
    if q < s.len() {
        let c = s[q];
        assert(t[q + 1] == c);
        if is_blank(c) || c == ')' || c == ']' || c == '}' {
            lemma_shifted_tokens(s, t, q + 1);
        } else if c == '{' {
            lemma_brace_end(s, q);
            lemma_shifted_brace_end(s, t, q);
            lemma_shifted_tokens(s, t, brace_end(s, q));
        } else if c == ';' {
            lemma_line_end(s, q);
            lemma_shifted_line_end(s, t, q);
            lemma_shifted_tokens(s, t, line_end(s, q));
        } else if c == '(' {
            lemma_variation_end(s, q + 1, 1);
            lemma_shifted_variation_end(s, t, q + 1, 1);
            lemma_shifted_tokens(s, t, variation_end(s, q + 1, 1));
        } else if c == '$' {
            lemma_digits_end(s, q + 1);
            lemma_shifted_digits_end(s, t, q + 1);
            lemma_shifted_tokens(s, t, digits_end(s, q + 1));
        } else if c == '[' {
            lemma_shifted_read_tag(s, t, q);
            lemma_read_tag(s, q);
            if let Ok((name, value, end)) = read_tag_spec(s, q) {
                lemma_shifted_tokens(s, t, end);
            }
        } else {
            lemma_word_end(s, q);
            lemma_shifted_word_end(s, t, q);
            let end = word_end(s, q);
            lemma_shifted_tokens(s, t, end);
            assert forall|k: int| 0 <= k < end - q implies t.subrange(q + 1, end + 1)[k] == s.subrange(
                q,
                end,
            )[k] by {
                assert(t[(q + k) + 1] == s[q + k]);
            }
            assert(t.subrange(q + 1, end + 1) =~= s.subrange(q, end));
        }
    }
}

/// What `with_cr_before` gives, square by square.
proof fn lemma_with_cr_before(s: Seq<char>, p: int)
    requires
        0 <= p < s.len(),
    ensures
        ({
            let t = with_cr_before(s, p);
            &&& t.len() == s.len() + 1
            &&& forall|k: int| 0 <= k < p ==> #[trigger] t[k] == s[k]
            &&& t[p] == '\r'
            &&& shifted(s, t, p)
        }),
{
    let t = with_cr_before(s, p);
    assert forall|k: int| p <= k < s.len() implies #[trigger] t[k + 1] == s[k] by {
        assert(t[k + 1] == s.skip(p)[k - p]);
    }
}

proof fn lemma_cr_brace_end(s: Seq<char>, t: Seq<char>, p: int, i: int)
    requires
        0 <= i <= p < s.len(),
        s[p] == '\n',
        t.len() == s.len() + 1,
        forall|k: int| 0 <= k < p ==> #[trigger] t[k] == s[k],
        t[p] == '\r',
        shifted(s, t, p),
    ensures
        brace_end(t, i) == if brace_end(s, i) <= p {
            brace_end(s, i)
        } else {
            brace_end(s, i) + 1
        },
    decreases p - i,
{
    if i < p {
        assert(t[i] == s[i]);
        if s[i] != '}' {
            lemma_cr_brace_end(s, t, p, i + 1);
        }
    } else {
        lemma_shifted_brace_end(s, t, p);
        lemma_brace_end(s, p + 1);
    }
}

proof fn lemma_cr_line_end(s: Seq<char>, t: Seq<char>, p: int, i: int)
    requires
        0 <= i <= p < s.len(),
        s[p] == '\n',
        t.len() == s.len() + 1,
        forall|k: int| 0 <= k < p ==> #[trigger] t[k] == s[k],
        t[p] == '\r',
        shifted(s, t, p),
    ensures
        line_end(s, i) <= p,
        line_end(t, i) == if line_end(s, i) < p {
            line_end(s, i)
        } else {
            p + 1
        },
    decreases p - i,
{
    if i < p {
        assert(t[i] == s[i]);
        if s[i] != '\n' {
            lemma_cr_line_end(s, t, p, i + 1);
        }
    } else {
        assert(t[p + 1] == s[p]);
        assert(line_end(t, p + 1) == p + 1);
        assert(line_end(t, p) == line_end(t, p + 1));
    }
}

proof fn lemma_cr_digits_end(s: Seq<char>, t: Seq<char>, p: int, i: int)
    requires
        0 <= i <= p < s.len(),
        s[p] == '\n',
        t.len() == s.len() + 1,
        forall|k: int| 0 <= k < p ==> #[trigger] t[k] == s[k],
        t[p] == '\r',
    ensures
        digits_end(s, i) <= p,
        digits_end(t, i) == digits_end(s, i),
    decreases p - i,
{
    if i < p {
        assert(t[i] == s[i]);
        if is_digit(s[i]) {
            lemma_cr_digits_end(s, t, p, i + 1);
        }
    }
}

proof fn lemma_cr_word_end(s: Seq<char>, t: Seq<char>, p: int, i: int)
    requires
        0 <= i <= p < s.len(),
        s[p] == '\n',
        t.len() == s.len() + 1,
        forall|k: int| 0 <= k < p ==> #[trigger] t[k] == s[k],
        t[p] == '\r',
    ensures
        word_end(s, i) <= p,
        word_end(t, i) == word_end(s, i),
    decreases p - i,
{
    if i < p {
        assert(t[i] == s[i]);
        if !is_word_end_char(s[i]) {
            lemma_cr_word_end(s, t, p, i + 1);
        }
    }
}

proof fn lemma_cr_variation_end(s: Seq<char>, t: Seq<char>, p: int, i: int, depth: nat)
    requires
        0 <= i <= p < s.len(),
        s[p] == '\n',
        t.len() == s.len() + 1,
        forall|k: int| 0 <= k < p ==> #[trigger] t[k] == s[k],
        t[p] == '\r',
        shifted(s, t, p),
    ensures
        variation_end(t, i, depth) == if variation_end(s, i, depth) <= p {
            variation_end(s, i, depth)
        } else {
            variation_end(s, i, depth) + 1
        },
    decreases p - i,
{
    if i < p {
        assert(t[i] == s[i]);
        if s[i] == '(' {
            lemma_cr_variation_end(s, t, p, i + 1, depth + 1);
        } else if s[i] == ')' {
            if depth > 1 {
                lemma_cr_variation_end(s, t, p, i + 1, (depth - 1) as nat);
            }
        } else if s[i] == '{' {
            lemma_brace_end(s, i);
            lemma_cr_brace_end(s, t, p, i);
            let next = brace_end(s, i);
            if next <= p {
                lemma_cr_variation_end(s, t, p, next, depth);
            } else {
                lemma_shifted_variation_end(s, t, next, depth);
                lemma_variation_end(s, next, depth);
            }
        } else if s[i] == ';' {
            lemma_line_end(s, i);
            lemma_cr_line_end(s, t, p, i);
            let next = line_end(s, i);
            if next < p {
                lemma_cr_variation_end(s, t, p, next, depth);
            } else {
                lemma_shifted_variation_end(s, t, p, depth);
                lemma_variation_end(s, p + 1, depth);
            }
        } else {
            lemma_cr_variation_end(s, t, p, i + 1, depth);
        }
    } else {
        lemma_shifted_variation_end(s, t, p, depth);
        lemma_variation_end(s, p + 1, depth);
    }
}

proof fn lemma_cr_spaces_end(s: Seq<char>, t: Seq<char>, p: int, i: int)
    requires
        0 <= i <= p < s.len(),
        s[p] == '\n',
        t.len() == s.len() + 1,
        forall|k: int| 0 <= k < p ==> #[trigger] t[k] == s[k],
        t[p] == '\r',
    ensures
        spaces_end(s, i) <= p,
        spaces_end(t, i) == spaces_end(s, i),
    decreases p - i,
{
    if i < p {
        assert(t[i] == s[i]);
        if s[i] == ' ' || s[i] == '\t' {
            lemma_cr_spaces_end(s, t, p, i + 1);
        }
    }
}

proof fn lemma_cr_tag_name_end(s: Seq<char>, t: Seq<char>, p: int, i: int)
    requires
        0 <= i <= p < s.len(),
        s[p] == '\n',
        t.len() == s.len() + 1,
        forall|k: int| 0 <= k < p ==> #[trigger] t[k] == s[k],
        t[p] == '\r',
    ensures
        tag_name_end(s, i) <= p,
        tag_name_end(t, i) == tag_name_end(s, i),
    decreases p - i,
{
    if i < p {
        assert(t[i] == s[i]);
        if is_tag_name_char(s[i]) {
            lemma_cr_tag_name_end(s, t, p, i + 1);
        }
    }
}

proof fn lemma_has_char_prepend(c: char, v: Seq<char>, x: char)
    requires
        has_char(v, x),
    ensures
        has_char(seq![c] + v, x),
{
    let k = choose|k: int| 0 <= k < v.len() && v[k] == x;
    assert((seq![c] + v)[k + 1] == x);
}

proof fn lemma_cr_tag_value_scan(s: Seq<char>, t: Seq<char>, p: int, j: int)
    requires
        0 <= j <= p < s.len(),
        s[p] == '\n',
        t.len() == s.len() + 1,
        forall|k: int| 0 <= k < p ==> #[trigger] t[k] == s[k],
        t[p] == '\r',
        shifted(s, t, p),
    ensures
        match tag_value_scan(s, j) {
            None => tag_value_scan(t, j) is None,
            Some((value, end)) => if end <= p {
                tag_value_scan(t, j) == Some((value, end))
            } else {
                tag_value_scan(t, j) matches Some((cr_value, cr_end)) && cr_end == end + 1
                    && has_char(cr_value, '\r')
            },
        },
    decreases p - j,
{
    if j < p {
        assert(t[j] == s[j]);
        if j + 1 < p {
            assert(t[j + 1] == s[j + 1]);
        }
        if s[j] != '"' {
            if s[j] == '\\' && j + 1 < s.len() && (s[j + 1] == '"' || s[j + 1] == '\\') {
                lemma_cr_tag_value_scan(s, t, p, j + 2);
                if let Some((value, end)) = tag_value_scan(s, j + 2) {
                    if end > p {
                        let cr_value = tag_value_scan(t, j + 2).unwrap().0;
                        lemma_has_char_prepend(s[j + 1], cr_value, '\r');
                    }
                }
            } else {
                lemma_cr_tag_value_scan(s, t, p, j + 1);
                if let Some((value, end)) = tag_value_scan(s, j + 1) {
                    if end > p {
                        let cr_value = tag_value_scan(t, j + 1).unwrap().0;
                        lemma_has_char_prepend(s[j], cr_value, '\r');
                    }
                }
            }
        }
    } else {
        lemma_shifted_tag_value_scan(s, t, p);
        lemma_tag_value_scan(s, p);
        if let Some((value, end)) = tag_value_scan(s, p) {
            assert((seq!['\r'] + value)[0] == '\r');
        }
    }
}

proof fn lemma_cr_read_tag(s: Seq<char>, t: Seq<char>, p: int, i: int)
    requires
        0 <= i < p < s.len(),
        s[p] == '\n',
        t.len() == s.len() + 1,
        forall|k: int| 0 <= k < p ==> #[trigger] t[k] == s[k],
        t[p] == '\r',
        shifted(s, t, p),
    ensures
        read_tag_spec(s, i) is Err ==> read_tag_spec(t, i) == read_tag_spec(s, i),
        read_tag_spec(s, i) matches Ok((_, _, end)) ==> (end <= p ==> read_tag_spec(t, i)
            == read_tag_spec(s, i)),
        read_tag_spec(s, i) matches Ok((name, _, end)) ==> (end > p ==> (read_tag_spec(
            t,
            i,
        ) matches Ok((cr_name, cr_value, cr_end)) && cr_name == name && cr_end == end + 1
            && has_char(cr_value, '\r'))),
{
    lemma_spaces_end(s, i + 1);
    lemma_cr_spaces_end(s, t, p, i + 1);
    let name_start = spaces_end(s, i + 1);
    lemma_tag_name_end(s, name_start);
    lemma_cr_tag_name_end(s, t, p, name_start);
    let name_end = tag_name_end(s, name_start);
    assert(t.subrange(name_start, name_end) =~= s.subrange(name_start, name_end));
    lemma_spaces_end(s, name_end);
    lemma_cr_spaces_end(s, t, p, name_end);
    let quote = spaces_end(s, name_end);
    if quote < p {
        assert(t[quote] == s[quote]);
    }
    if quote < p && s[quote] == '"' {
        lemma_cr_tag_value_scan(s, t, p, quote + 1);
        lemma_tag_value_scan(s, quote + 1);
        if let Some((value, value_end)) = tag_value_scan(s, quote + 1) {
            if value_end <= p {
                lemma_spaces_end(s, value_end);
                lemma_cr_spaces_end(s, t, p, value_end);
                let close = spaces_end(s, value_end);
                if close < p {
                    assert(t[close] == s[close]);
                }
            } else {
                lemma_spaces_end(s, value_end);
                lemma_shifted_spaces_end(s, t, value_end);
                let close = spaces_end(s, value_end);
                if close < s.len() {
                    assert(t[close + 1] == s[close]);
                }
            }
        }
    }
}

/// Whether one of `tokens` is a tag whose value holds a carriage return.
pub open spec fn cr_in_tag_value(tokens: Seq<PgnToken>) -> bool {
    exists|k: int|
        0 <= k < tokens.len() && (#[trigger] tokens[k] matches PgnToken::Tag(_, value) && has_char(
            value,
            '\r',
        ))
}

proof fn lemma_prepend_cr(
    head: Seq<PgnToken>,
    rest: Result<Seq<PgnToken>, ParseFault>,
    cr_rest: Result<Seq<PgnToken>, ParseFault>,
)
    requires
        cr_rest == rest || (cr_rest matches Ok(tokens) && cr_in_tag_value(tokens)),
    ensures
        prepend_tokens(head, cr_rest) == prepend_tokens(head, rest) || (prepend_tokens(
            head,
            cr_rest,
        ) matches Ok(tokens) && cr_in_tag_value(tokens)),
{
    if cr_rest != rest {
        let tokens = cr_rest->Ok_0;
        let k = choose|k: int|
            0 <= k < tokens.len() && (#[trigger] tokens[k] matches PgnToken::Tag(_, value)
                && has_char(value, '\r'));
        assert((head + tokens)[head.len() + k] == tokens[k]);
    }
}

proof fn lemma_cr_tokens_tagged(s: Seq<char>, t: Seq<char>, p: int, i: int)
    requires
        0 <= i <= p < s.len(),
        s[p] == '\n',
        t.len() == s.len() + 1,
        forall|k: int| 0 <= k < p ==> #[trigger] t[k] == s[k],
        t[p] == '\r',
        shifted(s, t, p),
    ensures
        tokens_from(t, i) == tokens_from(s, i) || (tokens_from(t, i) matches Ok(tokens)
            && cr_in_tag_value(tokens)),
    decreases p - i,
{
    if i < p {
        let c = s[i];
        assert(t[i] == c);
        if is_blank(c) || c == ')' || c == ']' || c == '}' {
            lemma_cr_tokens_tagged(s, t, p, i + 1);
        } else if c == '{' {
            lemma_brace_end(s, i);
            lemma_cr_brace_end(s, t, p, i);
            let next = brace_end(s, i);
            if next <= p {
                lemma_cr_tokens_tagged(s, t, p, next);
            } else {
                lemma_shifted_tokens(s, t, next);
            }
        } else if c == ';' {
            lemma_line_end(s, i);
            lemma_cr_line_end(s, t, p, i);
            let next = line_end(s, i);
            if next < p {
                lemma_cr_tokens_tagged(s, t, p, next);
            } else {
                lemma_shifted_tokens(s, t, p);
            }
        } else if c == '(' {
            lemma_variation_end(s, i + 1, 1);
            lemma_cr_variation_end(s, t, p, i + 1, 1);
            let next = variation_end(s, i + 1, 1);
            if next <= p {
                lemma_cr_tokens_tagged(s, t, p, next);
            } else {
                lemma_shifted_tokens(s, t, next);
            }
        } else if c == '$' {
            lemma_digits_end(s, i + 1);
            lemma_cr_digits_end(s, t, p, i + 1);
            lemma_cr_tokens_tagged(s, t, p, digits_end(s, i + 1));
        } else if c == '[' {
            lemma_read_tag(s, i);
            lemma_cr_read_tag(s, t, p, i);
            if let Ok((name, value, end)) = read_tag_spec(s, i) {
                if end <= p {
                    lemma_cr_tokens_tagged(s, t, p, end);
                    lemma_prepend_cr(
                        seq![PgnToken::Tag(name, value)],
                        tokens_from(s, end),
                        tokens_from(t, end),
                    );
                } else {
                    lemma_shifted_tokens(s, t, end);
                    let (cr_name, cr_value, cr_end) = read_tag_spec(t, i)->Ok_0;
                    if let Ok(rest) = tokens_from(s, end) {
                        let all = seq![PgnToken::Tag(cr_name, cr_value)] + rest;
                        assert(all[0] == PgnToken::Tag(cr_name, cr_value));
                    }
                }
            }
        } else {
            lemma_word_end(s, i);
            lemma_cr_word_end(s, t, p, i);
            let end = word_end(s, i);
            lemma_cr_tokens_tagged(s, t, p, end);
            assert(t.subrange(i, end) =~= s.subrange(i, end));
            lemma_prepend_cr(
                word_tokens(s.subrange(i, end)),
                tokens_from(s, end),
                tokens_from(t, end),
            );
        }
    } else {
        lemma_shifted_tokens(s, t, p);
    }
}

/// Writing a line break as `\r\n` in place of `\n` changes nothing outside
/// quoted tag values: inserting a carriage return before any newline leaves
/// the tokens read, and any error, as they were, unless the newline stood
/// inside a quoted tag value, which then keeps the carriage return.
pub proof fn lemma_crlf(s: Seq<char>, p: int)
    requires
        0 <= p < s.len(),
        s[p] == '\n',
    ensures
        tokens_from(with_cr_before(s, p), 0) == tokens_from(s, 0) || (tokens_from(
            with_cr_before(s, p),
            0,
        ) matches Ok(tokens) && cr_in_tag_value(tokens)),
{
    lemma_with_cr_before(s, p);
    lemma_cr_tokens_tagged(s, with_cr_before(s, p), p, 0);
}

} // verus!

verus! {

// ===========================================================================
// CHECK AND CHECKMATE MARKS
// ===========================================================================

proof fn lemma_marks_start_suffix(t: Seq<char>, marks: Seq<char>)
    requires
        t.len() > 0,
        t[t.len() - 1] != '#' && t[t.len() - 1] != '+' && t[t.len() - 1] != '!' && t[t.len() - 1]
            != '?',
        forall|k: int|
            0 <= k < marks.len() ==> #[trigger] marks[k] == '#' || marks[k] == '+' || marks[k]
                == '!' || marks[k] == '?',
    ensures
        marks_start(t + marks, (t + marks).len() as int) == t.len(),
    decreases marks.len(),
{
    let s = t + marks;
    if marks.len() == 0 {
        assert(s =~= t);
    } else {
        let shorter = marks.drop_last();
        assert forall|k: int| 0 <= k < shorter.len() implies #[trigger] shorter[k] == '#'
            || shorter[k] == '+' || shorter[k] == '!' || shorter[k] == '?' by {
            assert(shorter[k] == marks[k]);
        }
        lemma_marks_start_suffix(t, shorter);
        assert(s[s.len() - 1] == marks[marks.len() - 1]);
        lemma_marks_start_prefix(s, s.len() - 1);
        assert(s.take(s.len() - 1) =~= t + shorter);
    }
}

/// Check and checkmate marks after a move (`+`, `#`, possibly with
/// annotation glyphs) set only the move's check indicator: a token that does
/// not already end in a mark reads, with marks appended, as the same move
/// (or fails the same way), announcing checkmate if the marks hold `#`,
/// else check if they hold `+`, else no check.
pub proof fn lemma_check_marks(token: Seq<char>, marks: Seq<char>)
    requires
        token.len() > 0,
        token[token.len() - 1] != '#' && token[token.len() - 1] != '+' && token[token.len() - 1]
            != '!' && token[token.len() - 1] != '?',
        forall|k: int|
            0 <= k < marks.len() ==> #[trigger] marks[k] == '#' || marks[k] == '+' || marks[k]
                == '!' || marks[k] == '?',
    ensures
        parse_san_spec(token + marks) == match parse_san_spec(token) {
            Ok(action) => Ok(
                Action {
                    kind: action.kind,
                    check: if has_char(marks, '#') {
                        CheckIndicator::Checkmate
                    } else if has_char(marks, '+') {
                        CheckIndicator::Check
                    } else {
                        CheckIndicator::NoCheck
                    },
                },
            ),
            Err(fault) => Err(fault),
        },
{
    let s = token + marks;
    lemma_marks_start_suffix(token, marks);
    lemma_marks_start_suffix(token, seq![]);
    assert(token + seq![] =~= token);
    let end = token.len() as int;
    assert(s.take(end) =~= token.take(end));
    assert(s.subrange(end, s.len() as int) =~= marks);
    assert(token.subrange(end, end) =~= Seq::<char>::empty());
    assert(!has_char(Seq::<char>::empty(), '#') && !has_char(Seq::<char>::empty(), '+'));
    assert(san_core(s) == san_core(token));
}

} // verus!

verus! {

// ===========================================================================
// NO MOVE LOST BETWEEN GAMES
// ===========================================================================

/// The moves of `games`, one game after another.
pub open spec fn all_actions(games: Seq<GameRecord>) -> Seq<Action>
    decreases games.len(),
{
    if games.len() == 0 {
        seq![]
    } else {
        all_actions(games.drop_last()) + games.last().actions
    }
}

/// The moves that the move tokens of `tokens` read as, in order.
pub open spec fn move_actions(tokens: Seq<PgnToken>) -> Seq<Action>
    decreases tokens.len(),
{
    if tokens.len() == 0 {
        seq![]
    } else {
        let head: Seq<Action> = match tokens[0] {
            PgnToken::Move(word) => match parse_san_spec(word) {
                Ok(action) => seq![action],
                Err(_) => seq![],
            },
            _ => seq![],
        };
        head + move_actions(tokens.drop_first())
    }
}

proof fn lemma_close_game_actions(st: SplitState)
    ensures
        all_actions(close_game(st).games) + close_game(st).actions == all_actions(st.games)
            + st.actions,
{
    let closed = close_game(st);
    assert(closed.games.drop_last() =~= st.games);
    assert(closed.actions =~= Seq::<Action>::empty());
    assert(all_actions(closed.games) + closed.actions =~= all_actions(st.games) + st.actions);
}

proof fn lemma_split_run_actions(st: SplitState, tokens: Seq<PgnToken>)
    ensures
        split_run(st, tokens) matches Ok(end) ==> all_actions(end.games) + end.actions
            == all_actions(st.games) + st.actions + move_actions(tokens),
    decreases tokens.len(),
{
    if tokens.len() == 0 {
        assert(all_actions(st.games) + st.actions + move_actions(tokens) =~= all_actions(st.games)
            + st.actions);
    } else {
        let rest = tokens.drop_first();
        if let Ok(next) = split_step(st, tokens[0]) {
            lemma_split_run_actions(next, rest);
            let head: Seq<Action> = match tokens[0] {
                PgnToken::Move(word) => match parse_san_spec(word) {
                    Ok(action) => seq![action],
                    Err(_) => seq![],
                },
                _ => seq![],
            };
            assert(move_actions(tokens) == head + move_actions(rest));
            assert(all_actions(next.games) + next.actions == all_actions(st.games) + st.actions
                + head) by {
                match tokens[0] {
                    PgnToken::Tag(name, value) => {
                        if st.seen_moves {
                            lemma_close_game_actions(st);
                            let closed = close_game(st);
                            assert(next.games == closed.games);
                            assert(next.actions == closed.actions);
                        }
                        assert(head =~= Seq::<Action>::empty());
                    },
                    PgnToken::Move(word) => {
                        assert(next.actions == st.actions + head);
                    },
                    PgnToken::GameEnd => {
                        if st.seen_moves || st.tags.len() > 0 {
                            lemma_close_game_actions(st);
                        }
                        assert(head =~= Seq::<Action>::empty());
                    },
                }
            }
            if let Ok(end) = split_run(next, rest) {
                assert(all_actions(end.games) + end.actions =~= all_actions(st.games) + st.actions
                    + (head + move_actions(rest)));
            }
        }
    }
}

/// Splitting a PGN text into games loses, repeats and reorders no move: the
/// moves of the games read, one game after another, are exactly the moves
/// the text's move tokens read as, in file order.
pub proof fn lemma_no_move_lost(text: Seq<char>)
    ensures
        parse_pgn(text) matches Ok(games) ==> tokens_from(text, 0) matches Ok(tokens)
            && all_actions(games) == move_actions(tokens),
{
    if let Ok(tokens) = tokens_from(text, 0) {
        lemma_split_run_actions(empty_split(), tokens);
        if let Ok(end) = split_run(empty_split(), tokens) {
            assert(all_actions(empty_split().games) =~= Seq::<Action>::empty());
            if end.actions.len() > 0 || end.tags.len() > 0 {
                let games = end.games.push(finish_spec(end));
                assert(games.drop_last() =~= end.games);
            } else {
                assert(end.actions =~= Seq::<Action>::empty());
            }
            assert(all_actions(final_games(end)) =~= all_actions(end.games) + end.actions);
        }
    }
}

} // verus!
